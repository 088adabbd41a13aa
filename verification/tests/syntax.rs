use rusty_h265::cabac::{
    bypass_bits, bypass_ones, eg_k, BinDecoder, Cabac, Context, CTX_CBF_CHROMA, CTX_CBF_LUMA,
    CTX_CSBF, CTX_CU_QP_DELTA, CTX_GT1, CTX_GT2, CTX_LAST_X_PREFIX, CTX_LAST_Y_PREFIX, CTX_SIG,
    CTX_SPLIT_TRANSFORM, CTX_TRANSFORM_SKIP, N_CTX, RANGE_LPS, TRANS_LPS,
};
use rusty_h265::ctu::{wrap_qp, CodingUnit, PartMode, SliceDecoder, TuOp};
use rusty_h265::error::Error;
use rusty_h265::pic::PicState;
use rusty_h265::ps::{Pps, Sps, SubLayerOrder, TileLayout};
use rusty_h265::recon::{plan_residual, Dequant};
use rusty_h265::residual::{residual_block, ResidualBlock, ResidualParams};
use rusty_h265::slice::{SliceHeader, SliceType, StRps};
use rusty_h265::tables::diag_scan;
use std::sync::Arc;

/// A bin: with a context variable, or without one in bypass mode.
type Bin = (Option<usize>, bool);

fn c(ctx: usize, b: u8) -> Bin {
    (Some(ctx), b == 1)
}

fn raw(bits: &[u8]) -> Vec<Bin> {
    bits.iter().map(|&b| (None, b == 1)).collect()
}

// ---- the arithmetic decoder ----

/// The encoder of the same bins.
struct Encoder {
    low: u32,
    range: u32,
    outstanding: u32,
    first: bool,
    bits: Vec<u8>,
    ctx: Vec<Context>,
}

impl Encoder {
    fn new() -> Self {
        Encoder {
            low: 0,
            range: 510,
            outstanding: 0,
            first: true,
            bits: Vec::new(),
            ctx: contexts(),
        }
    }

    fn put(&mut self, b: u8) {
        if self.first {
            self.first = false;
        } else {
            self.bits.push(b);
        }
        for _ in 0..self.outstanding {
            self.bits.push(1 - b);
        }
        self.outstanding = 0;
    }

    fn renorm(&mut self) {
        while self.range < 256 {
            if self.low < 256 {
                self.put(0);
            } else if self.low >= 512 {
                self.low -= 512;
                self.put(1);
            } else {
                self.low -= 256;
                self.outstanding += 1;
            }
            self.range <<= 1;
            self.low <<= 1;
        }
    }

    fn encode(&mut self, ctx: usize, b: bool) {
        let k = self.ctx[ctx];
        let lps = RANGE_LPS[k.p_state as usize][((self.range >> 6) & 3) as usize] as u32;
        self.range -= lps;
        if b != k.val_mps {
            self.low += self.range;
            self.range = lps;
            self.ctx[ctx] = Context {
                p_state: TRANS_LPS[k.p_state as usize],
                val_mps: if k.p_state == 0 { !k.val_mps } else { k.val_mps },
            };
        } else if k.p_state < 62 {
            self.ctx[ctx].p_state += 1;
        }
        self.renorm();
    }

    fn bypass(&mut self, b: bool) {
        self.low <<= 1;
        if b {
            self.low += self.range;
        }
        if self.low >= 1024 {
            self.put(1);
            self.low -= 1024;
        } else if self.low < 512 {
            self.put(0);
        } else {
            self.low -= 512;
            self.outstanding += 1;
        }
    }

    fn finish(mut self) -> Vec<u8> {
        self.range = 2;
        self.renorm();
        self.put(((self.low >> 9) & 1) as u8);
        self.bits.push(((self.low >> 8) & 1) as u8);
        self.bits.push(1);
        while self.bits.len() % 8 != 0 {
            self.bits.push(0);
        }
        self.bits.chunks(8).map(|c| c.iter().fold(0u8, |v, &b| 2 * v + b)).collect()
    }
}

fn contexts() -> Vec<Context> {
    (0..N_CTX).map(|i| Context { p_state: (i % 40) as u8, val_mps: i % 3 == 0 }).collect()
}

const MARK: u32 = 0xa5c3;

/// A decoder of those bins, with a mark behind them. Each context variable
/// starts in a state of its own, so a bin read with another one upsets what
/// follows.
fn coded(bins: Vec<Bin>) -> Cabac {
    let mut enc = Encoder::new();
    for &(ctx, b) in &bins {
        match ctx {
            Some(i) => enc.encode(i, b),
            None => enc.bypass(b),
        }
    }
    for k in (0..16).rev() {
        enc.bypass((MARK >> k) & 1 == 1);
    }
    Cabac::new(enc.finish(), contexts()).unwrap()
}

/// Exactly the coded bins were read.
fn at_mark(cab: &mut Cabac) -> bool {
    bypass_bits(cab, 16) == MARK
}

#[test]
fn the_decoder_reads_what_was_encoded() {
    let mut seed = 12345u32;
    let mut rnd = |n: u32| {
        seed = seed.wrapping_mul(1_664_525).wrapping_add(1_013_904_223);
        (seed >> 10) % n
    };
    for bias in [2u32, 5, 20] {
        let bins: Vec<Bin> = (0..3000)
            .map(|_| {
                let b = rnd(bias) == 0;
                if rnd(4) == 0 {
                    (None, b)
                } else {
                    (Some(rnd(N_CTX as u32) as usize), b)
                }
            })
            .collect();
        let mut enc = Encoder::new();
        for &(ctx, b) in &bins {
            match ctx {
                Some(i) => enc.encode(i, b),
                None => enc.bypass(b),
            }
        }
        let data = enc.finish();
        let mut dec = Cabac::new(data, contexts()).unwrap();
        for (i, &(ctx, b)) in bins.iter().enumerate() {
            let got = match ctx {
                Some(k) => dec.decode(k),
                None => dec.bypass(),
            };
            assert_eq!(got, b, "bin {i}, bias {bias}");
        }
    }
}

#[test]
fn no_encoder_starts_with_ones() {
    let e = Cabac::new(vec![0xff, 0xff], contexts()).err().unwrap();
    assert_eq!(e, Error::invalid("CABAC offset out of range"));
    assert!(Cabac::new(vec![0xfe, 0xff], contexts()).is_ok());
    // Past the end of the data bits read 0.
    let mut d = Cabac::new(Vec::new(), contexts()).unwrap();
    assert!(!d.bypass());
    assert_eq!(d.decode(0), contexts()[0].val_mps);
}

#[test]
fn bypass_codes() {
    let mut s = coded(raw(&[1, 0, 1, 1, 1, 1, 0]));
    assert_eq!(bypass_bits(&mut s, 3), 5);
    assert_eq!(bypass_ones(&mut s, 10), 3);
    assert!(at_mark(&mut s));
    assert_eq!(bypass_ones(&mut coded(raw(&[1, 1])), 2), 2);
    // Exp-Golomb: order 0 codes 0, 1, 2 and order 1 codes 5.
    assert_eq!(eg_k(&mut coded(raw(&[0])), 0), Some(0));
    assert_eq!(eg_k(&mut coded(raw(&[1, 0, 0])), 0), Some(1));
    assert_eq!(eg_k(&mut coded(raw(&[1, 0, 1])), 0), Some(2));
    assert_eq!(eg_k(&mut coded(raw(&[1, 0, 1, 1])), 1), Some(5));
    assert_eq!(eg_k(&mut coded(raw(&[1; 30])), 0), None);
}

// ---- residual coding ----

const PARAMS: ResidualParams = ResidualParams {
    transform_skip_enabled: false,
    log2_max_transform_skip_block_size: 2,
    sign_data_hiding_enabled: false,
    cu_transquant_bypass: false,
    cu_intra: false,
};

#[test]
fn a_single_coefficient() {
    let mut bins = vec![c(CTX_LAST_X_PREFIX, 0), c(CTX_LAST_Y_PREFIX, 0), c(CTX_GT1 + 1, 0)];
    bins.extend(raw(&[1]));
    let mut s = coded(bins);
    let b = residual_block(&mut s, &PARAMS, 2, 0, 0).unwrap();
    assert!(at_mark(&mut s));
    let mut want = vec![0; 16];
    want[0] = -1;
    assert_eq!(b.coeffs, want);
    assert_eq!((b.nz_w, b.nz_h, b.transform_skip), (1, 1, false));
}

#[test]
fn two_coefficients_with_a_large_level() {
    let mut bins = vec![
        c(CTX_LAST_X_PREFIX, 1),
        c(CTX_LAST_X_PREFIX + 1, 0),
        c(CTX_LAST_Y_PREFIX, 0),
        c(CTX_SIG + 2, 1),
        c(CTX_SIG, 0),
        c(CTX_GT1 + 1, 1),
        c(CTX_GT1, 0),
        c(CTX_GT2, 1),
    ];
    bins.extend(raw(&[0, 1])); // signs
    bins.extend(raw(&[1, 0])); // one more than three
    let mut s = coded(bins);
    let b = residual_block(&mut s, &PARAMS, 2, 0, 0).unwrap();
    assert!(at_mark(&mut s));
    let mut want = vec![0; 16];
    want[1] = 4;
    want[4] = -1;
    assert_eq!(b.coeffs, want);
    assert_eq!((b.nz_w, b.nz_h), (2, 2));
}

#[test]
fn the_scan_follows_the_prediction_direction() {
    // A vertical scan swaps the coordinates of the last position.
    let p = ResidualParams { cu_intra: true, ..PARAMS };
    let mut bins = vec![
        c(CTX_LAST_X_PREFIX, 1),
        c(CTX_LAST_X_PREFIX + 1, 0),
        c(CTX_LAST_Y_PREFIX, 0),
        c(CTX_SIG, 0),
        c(CTX_GT1 + 1, 0),
    ];
    bins.extend(raw(&[0]));
    let mut s = coded(bins);
    let b = residual_block(&mut s, &p, 2, 0, 10).unwrap();
    assert!(at_mark(&mut s));
    let mut want = vec![0; 16];
    want[4] = 1;
    assert_eq!(b.coeffs, want);
    assert_eq!((b.nz_w, b.nz_h), (1, 2));
}

#[test]
fn sub_blocks_of_a_larger_block() {
    let mut bins = vec![
        c(CTX_LAST_X_PREFIX + 3, 1),
        c(CTX_LAST_X_PREFIX + 3, 1),
        c(CTX_LAST_X_PREFIX + 4, 1),
        c(CTX_LAST_X_PREFIX + 4, 1),
        c(CTX_LAST_X_PREFIX + 5, 0),
        c(CTX_LAST_Y_PREFIX + 3, 0),
    ];
    bins.extend(raw(&[0])); // the suffix: column 4
    bins.push(c(CTX_GT1 + 9, 0));
    bins.extend(raw(&[0]));
    bins.push(c(CTX_CSBF, 0)); // the sub-block below the first is empty
    for &(_, y) in diag_scan(4)[1..].iter().rev() {
        let k = match y {
            0 => 2,
            1 => 1,
            _ => 0,
        };
        bins.push(c(CTX_SIG + 9 + k, 0));
    }
    bins.push(c(CTX_SIG, 0));
    let mut s = coded(bins);
    let b = residual_block(&mut s, &PARAMS, 3, 0, 0).unwrap();
    assert!(at_mark(&mut s));
    let mut want = vec![0; 64];
    want[4] = 1;
    assert_eq!(b.coeffs, want);
    assert_eq!((b.nz_w, b.nz_h), (5, 1));
}

/// The bins up to the signs of a block whose last position is (1, 1).
fn to_one_one(sig: [u8; 4]) -> Vec<Bin> {
    vec![
        c(CTX_LAST_X_PREFIX, 1),
        c(CTX_LAST_X_PREFIX + 1, 0),
        c(CTX_LAST_Y_PREFIX, 1),
        c(CTX_LAST_Y_PREFIX + 1, 0),
        c(CTX_SIG + 6, sig[0]),
        c(CTX_SIG + 1, sig[1]),
        c(CTX_SIG + 2, sig[2]),
        c(CTX_SIG, sig[3]),
    ]
}

#[test]
fn a_hidden_sign_is_the_parity() {
    let p = ResidualParams { sign_data_hiding_enabled: true, ..PARAMS };
    let mut bins = to_one_one([0, 0, 0, 1]);
    bins.extend([c(CTX_GT1 + 1, 0), c(CTX_GT1 + 2, 0)]);
    bins.extend(raw(&[0]));
    let even = residual_block(&mut coded(bins), &p, 2, 0, 0).unwrap();
    assert_eq!((even.coeffs[0], even.coeffs[5]), (1, 1));
    let mut bins = to_one_one([0, 0, 0, 1]);
    bins.extend([c(CTX_GT1 + 1, 1), c(CTX_GT1, 0), c(CTX_GT2, 0)]);
    bins.extend(raw(&[0]));
    let odd = residual_block(&mut coded(bins), &p, 2, 0, 0).unwrap();
    assert_eq!((odd.coeffs[0], odd.coeffs[5]), (-1, 2));
}

#[test]
fn levels_that_are_too_long() {
    let mut bins = vec![
        c(CTX_LAST_X_PREFIX, 0),
        c(CTX_LAST_Y_PREFIX, 0),
        c(CTX_GT1 + 1, 1),
        c(CTX_GT2, 1),
    ];
    bins.extend(raw(&[0]));
    bins.extend(raw(&[1; 32]));
    let e = residual_block(&mut coded(bins), &PARAMS, 2, 0, 0).err().unwrap();
    assert_eq!(e, Error::invalid("coeff_abs_level_remaining prefix"));

    let mut bins = to_one_one([1, 1, 1, 1]);
    bins.push(c(CTX_GT1 + 1, 1));
    bins.extend([c(CTX_GT1, 1), c(CTX_GT1, 1), c(CTX_GT1, 1), c(CTX_GT1, 1)]);
    bins.push(c(CTX_GT2, 1));
    bins.extend(raw(&[0; 5]));
    // Each level is just large enough for the next Rice parameter.
    bins.extend(raw(&[1, 0]));
    bins.extend(raw(&[1, 1, 0, 1]));
    bins.extend(raw(&[1, 1, 0, 1, 1]));
    bins.extend(raw(&[1, 1, 0, 1, 1, 1]));
    bins.extend(raw(&[1; 31]));
    bins.extend(raw(&[0]));
    let e = residual_block(&mut coded(bins), &PARAMS, 2, 0, 0).err().unwrap();
    assert_eq!(e, Error::invalid("coeff_abs_level_remaining suffix"));
}

#[test]
fn coefficients_are_clipped_to_16_bits() {
    let mut bins = vec![
        c(CTX_TRANSFORM_SKIP, 1),
        c(CTX_LAST_X_PREFIX, 0),
        c(CTX_LAST_Y_PREFIX, 0),
        c(CTX_GT1 + 1, 1),
        c(CTX_GT2, 1),
    ];
    bins.extend(raw(&[1]));
    bins.extend(raw(&[1; 20]));
    bins.extend(raw(&[0; 18]));
    let p = ResidualParams { transform_skip_enabled: true, ..PARAMS };
    let mut s = coded(bins);
    let b = residual_block(&mut s, &p, 2, 0, 0).unwrap();
    assert!(at_mark(&mut s));
    assert_eq!(b.coeffs[0], -32768);
    assert!(b.transform_skip);
}

// ---- transform trees ----

fn sps() -> Sps {
    let order = SubLayerOrder {
        max_dec_pic_buffering_minus1: 4,
        max_num_reorder_pics: 2,
        max_latency_increase_plus1: 0,
    };
    Sps {
        id: 0,
        profile: 1,
        width: 16,
        height: 16,
        chroma_format_idc: 1,
        bit_depth_luma: 8,
        bit_depth_chroma: 8,
        log2_max_poc_lsb: 8,
        max_sub_layers_minus1: 0,
        ordering: [order; 7],
        sub_width_c: 2,
        sub_height_c: 2,
        conf_win: [0; 4],
        log2_ctb_size: 4,
        pic_width_in_ctbs: 1,
        pic_height_in_ctbs: 1,
        log2_min_tb_size: 2,
        log2_max_tb_size: 4,
        max_transform_hierarchy_depth_inter: 1,
        qp_bd_offset_y: 0,
        qp_bd_offset_c: 0,
        sao_enabled: false,
        strong_intra_smoothing_enabled: false,
        scaling_list_enabled: false,
        scaling_list: None,
        range_extension: false,
        multilayer_extension: false,
        ext_3d: false,
        scc_extension: false,
    }
}

fn pps() -> Pps {
    Pps {
        id: 0,
        sps_id: 0,
        cb_qp_offset: 0,
        cr_qp_offset: 0,
        cu_qp_delta_enabled: true,
        constrained_intra_pred: false,
        transform_skip_enabled: false,
        log2_max_transform_skip_block_size: 2,
        sign_data_hiding_enabled: false,
        loop_filter_across_tiles_enabled: true,
        scaling_list: None,
        range_extension: false,
        multilayer_extension: false,
        ext_3d: false,
        scc_extension: false,
    }
}

fn slice_decoder(bins: Vec<Bin>, intra: bool) -> SliceDecoder<Cabac> {
    let s = sps();
    let st = PicState::new(&s, &TileLayout { rs_to_ts: vec![0], tile_id: vec![0] });
    SliceDecoder {
        sps: Arc::new(s),
        pps: Arc::new(pps()),
        st,
        cab: coded(bins),
        cu: CodingUnit {
            x: 8,
            y: 0,
            size: 8,
            intra,
            part_mode: PartMode::Part2Nx2N,
            intra_split: false,
            max_trafo_depth: 1,
            transquant_bypass: false,
            intra_chroma_mode: 4,
            qp_y_pred: 30,
        },
        is_cu_qp_delta_coded: false,
        cu_qp_delta_val: 0,
        qp_y: 30,
        ops: Vec::new(),
    }
}

#[test]
fn an_unsplit_tree_without_coefficients() {
    let mut d = slice_decoder(
        vec![
            c(CTX_SPLIT_TRANSFORM + 2, 0),
            c(CTX_CBF_CHROMA, 0),
            c(CTX_CBF_CHROMA, 0),
            c(CTX_CBF_LUMA + 1, 0),
        ],
        true,
    );
    let i = d.st.idx4(8, 0);
    d.st.intra_mode[i] = 26;
    d.transform_tree(8, 0, 8, 0, 3, 0, 0, false, false).unwrap();
    assert!(at_mark(&mut d.cab));
    let seen: Vec<(usize, usize, usize, usize, u8, bool)> = d
        .ops
        .iter()
        .map(|op| match op {
            TuOp::Predict { c, x, y, n, mode, residual_follows } => {
                (*c, *x, *y, *n, *mode, *residual_follows)
            }
            TuOp::Residual { .. } => panic!("no residual was coded"),
        })
        .collect();
    assert_eq!(
        seen,
        vec![(0, 8, 0, 8, 26, false), (1, 4, 0, 4, 4, false), (2, 4, 0, 4, 4, false)]
    );
    assert_eq!(d.st.edges[..8], [0, 0, 3, 2, 0, 0, 1, 0]);
    assert!(d.st.nz.iter().all(|&v| v == 0));
    assert!(!d.is_cu_qp_delta_coded);
}

#[test]
fn an_intra_tree_predicts_every_luma_sample_once() {
    let mut bins = vec![c(CTX_SPLIT_TRANSFORM + 2, 1), c(CTX_CBF_CHROMA, 0), c(CTX_CBF_CHROMA, 0)];
    bins.extend([c(CTX_CBF_LUMA, 0), c(CTX_CBF_LUMA, 0), c(CTX_CBF_LUMA, 0), c(CTX_CBF_LUMA, 0)]);
    let mut d = slice_decoder(bins, true);
    d.transform_tree(8, 0, 8, 0, 3, 0, 0, false, false).unwrap();
    assert!(at_mark(&mut d.cab));
    let mut hits = vec![0; 256];
    for op in &d.ops {
        if let TuOp::Predict { c: 0, x, y, n, .. } = op {
            for j in 0..*n {
                for i in 0..*n {
                    hits[(y + j) * 16 + x + i] += 1;
                }
            }
        }
    }
    for y in 0..16 {
        for x in 0..16 {
            assert_eq!(hits[y * 16 + x], (x >= 8 && y < 8) as i32);
        }
    }
}

#[test]
fn a_split_tree_with_a_chroma_residual() {
    let mut bins = vec![c(CTX_SPLIT_TRANSFORM + 2, 1), c(CTX_CBF_CHROMA, 1), c(CTX_CBF_CHROMA, 0)];
    // The first quarter: its luma flag, then the quantizer change of −1.
    bins.extend([c(CTX_CBF_LUMA, 0), c(CTX_CU_QP_DELTA, 1), c(CTX_CU_QP_DELTA + 1, 0)]);
    bins.extend(raw(&[1]));
    bins.extend([c(CTX_CBF_LUMA, 0), c(CTX_CBF_LUMA, 0), c(CTX_CBF_LUMA, 0)]);
    // Chroma comes with the last quarter.
    bins.extend([
        c(CTX_LAST_X_PREFIX + 15, 0),
        c(CTX_LAST_Y_PREFIX + 15, 0),
        c(CTX_GT1 + 17, 0),
    ]);
    bins.extend(raw(&[1]));
    let mut d = slice_decoder(bins, false);
    d.transform_tree(8, 0, 8, 0, 3, 0, 0, false, false).unwrap();
    assert!(at_mark(&mut d.cab));
    assert_eq!(d.ops.len(), 1);
    match &d.ops[0] {
        TuOp::Residual { x, y, log2, c, qp_y, block } => {
            assert_eq!((*x, *y, *log2, *c, *qp_y), (8, 0, 2, 1, 29));
            assert_eq!(block.coeffs[0], -1);
        }
        TuOp::Predict { .. } => panic!("an inter block is not predicted here"),
    }
    assert_eq!((d.qp_y, d.cu_qp_delta_val), (29, -1));
    assert_eq!(&d.st.qp_y[2..4], &[29, 29]);
    assert_eq!(&d.st.edges[..8], &[0, 0, 3, 3, 0, 0, 3, 3]);
}

#[test]
fn a_residual_follows_its_prediction() {
    let mut bins = vec![c(CTX_SPLIT_TRANSFORM + 2, 1), c(CTX_CBF_CHROMA, 1), c(CTX_CBF_CHROMA, 0)];
    bins.extend([c(CTX_CBF_LUMA, 0), c(CTX_CU_QP_DELTA, 0)]);
    bins.extend([c(CTX_CBF_LUMA, 0), c(CTX_CBF_LUMA, 0), c(CTX_CBF_LUMA, 0)]);
    bins.extend([
        c(CTX_LAST_X_PREFIX + 15, 0),
        c(CTX_LAST_Y_PREFIX + 15, 0),
        c(CTX_GT1 + 17, 0),
    ]);
    bins.extend(raw(&[0]));
    let mut d = slice_decoder(bins, true);
    d.transform_tree(8, 0, 8, 0, 3, 0, 0, false, false).unwrap();
    assert!(at_mark(&mut d.cab));
    let seen: Vec<(char, usize, usize, usize, usize, bool)> = d
        .ops
        .iter()
        .map(|op| match op {
            TuOp::Predict { c, x, y, n, residual_follows, .. } => {
                ('p', *c, *x, *y, *n, *residual_follows)
            }
            TuOp::Residual { c, x, y, log2, .. } => ('r', *c, *x, *y, 1 << *log2, true),
        })
        .collect();
    assert_eq!(
        seen,
        vec![
            ('p', 0, 8, 0, 4, false),
            ('p', 0, 12, 0, 4, false),
            ('p', 0, 8, 4, 4, false),
            ('p', 0, 12, 4, 4, false),
            ('p', 1, 4, 0, 4, true),
            ('r', 1, 8, 0, 4, true),
            ('p', 2, 4, 0, 4, false),
        ],
        "the residual of the chroma block at (4, 0), by its luma location"
    );
}

#[test]
fn four_prediction_blocks_split_the_unit() {
    // The split is not coded: four luma blocks follow from the partition.
    let mut bins = vec![c(CTX_CBF_CHROMA, 0), c(CTX_CBF_CHROMA, 0)];
    bins.extend([c(CTX_CBF_LUMA, 0), c(CTX_CBF_LUMA, 0), c(CTX_CBF_LUMA, 0), c(CTX_CBF_LUMA, 0)]);
    let mut d = slice_decoder(bins, true);
    d.cu.intra_split = true;
    d.cu.part_mode = PartMode::PartNxN;
    d.transform_tree(8, 0, 8, 0, 3, 0, 0, false, false).unwrap();
    assert!(at_mark(&mut d.cab));
    let sizes: Vec<(usize, usize)> = d
        .ops
        .iter()
        .map(|op| match op {
            TuOp::Predict { c, n, .. } => (*c, *n),
            TuOp::Residual { .. } => panic!("no residual was coded"),
        })
        .collect();
    assert_eq!(sizes, vec![(0, 4), (0, 4), (0, 4), (0, 4), (1, 4), (2, 4)]);
    assert_eq!(d.st.edges[..8], [0, 0, 3, 3, 0, 0, 3, 3]);
}

#[test]
fn a_residual_step_is_planned() {
    let mut d = slice_decoder(Vec::new(), true);
    d.cu.transquant_bypass = false;
    let block =
        ResidualBlock { transform_skip: false, coeffs: vec![0; 16], nz_w: 2, nz_h: 3 };
    let op = TuOp::Residual { x: 8, y: 0, log2: 2, c: 1, qp_y: 41, block };
    let sh = SliceHeader {
        pps_id: 0,
        dependent_slice_segment: false,
        segment_address: 0,
        slice_type: SliceType::I,
        pic_output_flag: true,
        no_output_of_prior_pics: false,
        poc_lsb: 0,
        st_rps: StRps { neg: Vec::new(), pos: Vec::new() },
        long_term: Vec::new(),
        num_pic_total_curr: 0,
        num_ref_idx_l0_active: 0,
        num_ref_idx_l1_active: 0,
        ref_pic_list_modification_l0: None,
        ref_pic_list_modification_l1: None,
        cb_qp_offset: 2,
        cr_qp_offset: -3,
    };
    let b = op.residual(&d.cu, &sh).unwrap();
    assert_eq!((b.log2, b.c_idx, b.nz_w, b.nz_h, b.qp_y), (2, 1, 2, 3, 41));
    assert_eq!((b.slice_cb_qp_offset, b.slice_cr_qp_offset), (2, -3));
    assert!(b.cu_intra && !b.bypass && !b.transform_skip);
    let plan = plan_residual(&d.sps, &d.pps, &b, None);
    assert_eq!(plan.dequant, Some(Dequant { qp: 37, w: 2, h: 3 }), "43 maps to 37");
    d.cu.transquant_bypass = true;
    let b = op.residual(&d.cu, &sh).unwrap();
    assert!(b.bypass);
    let p = TuOp::Predict { c: 0, x: 0, y: 0, n: 4, mode: 1, residual_follows: true };
    assert!(p.residual(&d.cu, &sh).is_none());
}

#[test]
fn luma_coefficients_are_recorded() {
    let mut bins = vec![c(CTX_SPLIT_TRANSFORM + 2, 0), c(CTX_CBF_CHROMA, 0), c(CTX_CBF_CHROMA, 0)];
    // An inter root without chroma coefficients has luma ones: no flag.
    bins.push(c(CTX_CU_QP_DELTA, 0));
    bins.extend([
        c(CTX_LAST_X_PREFIX + 3, 0),
        c(CTX_LAST_Y_PREFIX + 3, 0),
        c(CTX_GT1 + 1, 0),
    ]);
    bins.extend(raw(&[0]));
    let mut d = slice_decoder(bins, false);
    d.transform_tree(8, 0, 8, 0, 3, 0, 0, false, false).unwrap();
    assert!(at_mark(&mut d.cab));
    assert_eq!(&d.st.nz[..8], &[0, 0, 1, 1, 0, 0, 1, 1]);
    assert!(d.is_cu_qp_delta_coded);
    assert_eq!(d.qp_y, 30);
}

#[test]
fn quantizer_changes_out_of_range() {
    let head = vec![c(CTX_SPLIT_TRANSFORM + 2, 0), c(CTX_CBF_CHROMA, 1), c(CTX_CBF_CHROMA, 0)];
    let five = [
        c(CTX_CBF_LUMA + 1, 0),
        c(CTX_CU_QP_DELTA, 1),
        c(CTX_CU_QP_DELTA + 1, 1),
        c(CTX_CU_QP_DELTA + 1, 1),
        c(CTX_CU_QP_DELTA + 1, 1),
        c(CTX_CU_QP_DELTA + 1, 1),
    ];
    let mut bins = head.clone();
    bins.extend(five);
    bins.extend(raw(&[1, 1, 1, 1, 1, 0, 0, 0, 0, 0, 0]));
    bins.extend(raw(&[0]));
    let mut d = slice_decoder(bins, false);
    let e = d.transform_tree(8, 0, 8, 0, 3, 0, 0, false, false).err().unwrap();
    assert_eq!(e, Error::invalid("CuQpDeltaVal out of range"));
    assert_eq!(d.cu_qp_delta_val, 36);

    let mut bins = head;
    bins.extend(five);
    bins.extend(raw(&[1; 30]));
    let e = slice_decoder(bins, false)
        .transform_tree(8, 0, 8, 0, 3, 0, 0, false, false)
        .err()
        .unwrap();
    assert_eq!(e, Error::invalid("cu_qp_delta_abs"));
}

#[test]
fn quantizers_wrap() {
    assert_eq!(wrap_qp(30, 0), 30);
    assert_eq!(wrap_qp(52, 0), 0);
    assert_eq!(wrap_qp(-1, 0), 51);
    assert_eq!(wrap_qp(-13, 12), 51);
    assert_eq!(wrap_qp(-12, 12), -12);
}
