use rusty_h265::deblock::{filter_chroma_edge, luma_edge, EdgeParams};
use rusty_h265::filters::{
    boundary_strength, deblock, edge_allowed, filter_planes, FilterSwitches,
};
use rusty_h265::frame::{Frame, Picture, Plane};
use rusty_h265::mcscratch::weighted_write;
use rusty_h265::pic::{CtbFilterParams, Motion, PicState, SaoParams, PRED_INTER, PRED_INTRA};
use rusty_h265::ps::{Pps, ScalingFactors, Sps, SubLayerOrder, TileLayout};
use rusty_h265::recon::{
    gather_refs, plan_residual, reconstruct_residual, Dequant, ResidualOf, TransformKind,
};
use rusty_h265::sao::{sao, sao_neighbour_usable};
use rusty_h265::slice::WeightEntry;
use std::sync::Arc;

fn sps(width: u32, height: u32, log2_ctb: u8) -> Sps {
    let c = 1u32 << log2_ctb;
    let order = SubLayerOrder {
        max_dec_pic_buffering_minus1: 4,
        max_num_reorder_pics: 2,
        max_latency_increase_plus1: 0,
    };
    Sps {
        id: 0,
        profile: 1,
        width,
        height,
        chroma_format_idc: 1,
        bit_depth_luma: 8,
        bit_depth_chroma: 8,
        log2_max_poc_lsb: 8,
        max_sub_layers_minus1: 0,
        ordering: [order; 7],
        sub_width_c: 2,
        sub_height_c: 2,
        conf_win: [0; 4],
        log2_ctb_size: log2_ctb,
        pic_width_in_ctbs: (width + c - 1) / c,
        pic_height_in_ctbs: (height + c - 1) / c,
        log2_min_tb_size: 2,
        log2_max_tb_size: 4,
        max_transform_hierarchy_depth_inter: 1,
        qp_bd_offset_y: 0,
        qp_bd_offset_c: 0,
        sao_enabled: true,
        strong_intra_smoothing_enabled: false,
        scaling_list_enabled: false,
        scaling_list: None,
        range_extension: false,
        multilayer_extension: false,
        ext_3d: false,
        scc_extension: false,
    }
}

fn pps() -> Pps {
    Pps {
        id: 0,
        sps_id: 0,
        cb_qp_offset: 0,
        cr_qp_offset: 0,
        cu_qp_delta_enabled: false,
        constrained_intra_pred: false,
        transform_skip_enabled: false,
        log2_max_transform_skip_block_size: 2,
        sign_data_hiding_enabled: false,
        loop_filter_across_tiles_enabled: true,
        scaling_list: None,
        range_extension: false,
        multilayer_extension: false,
        ext_3d: false,
        scc_extension: false,
    }
}

fn tiles(n: usize) -> TileLayout {
    TileLayout { rs_to_ts: (0..n as u32).collect(), tile_id: vec![0; n] }
}

/// A picture of one slice, all of it intra coded at one quantizer.
fn decoded(s: &Sps, qp: i8) -> PicState {
    let n = (s.pic_width_in_ctbs * s.pic_height_in_ctbs) as usize;
    let mut st = PicState::new(s, &tiles(n));
    st.slice_addr = vec![0; n];
    for m in st.pred_mode.iter_mut() {
        *m = PRED_INTRA;
    }
    for q in st.qp_y.iter_mut() {
        *q = qp;
    }
    st
}

fn planes(w: usize, h: usize, v: u16) -> [Plane; 3] {
    let mut p = [Plane::new(w, h), Plane::new(w / 2, h / 2), Plane::new(w / 2, h / 2)];
    for q in p.iter_mut() {
        for s in q.data.iter_mut() {
            *s = v;
        }
    }
    p
}

const ALL_FILTERS: FilterSwitches = FilterSwitches { skip_all: false, skip_sao: false };

// ---- planes and pictures ----

#[test]
fn plane_rows_and_samples() {
    let mut p = Plane::new(4, 3);
    assert_eq!((p.width, p.height, p.stride, p.data.len()), (4, 3, 4, 12));
    p.set(2, 1, 77);
    assert_eq!(p.get(2, 1), 77);
    assert_eq!(p.row(1), &[0, 0, 77, 0]);
    p.row_mut(2)[3] = 5;
    assert_eq!(p.data, vec![0, 0, 0, 0, 0, 0, 77, 0, 0, 0, 0, 5]);
}

#[test]
fn picture_planes_by_chroma_format() {
    let p = Picture::new(8, 6, 1, 8, 10);
    assert_eq!((p.width(), p.height()), (8, 6));
    assert_eq!((p.planes[1].width, p.planes[1].height), (4, 3));
    let m = Picture::new(8, 6, 0, 8, 8);
    assert_eq!((m.planes[1].width, m.planes[1].height), (0, 0));
    let p = Picture::new(8, 6, 2, 8, 8);
    assert_eq!((p.planes[2].width, p.planes[2].height), (4, 6));
    let p = Picture::new(8, 6, 3, 8, 8);
    assert_eq!((p.planes[2].width, p.planes[2].height), (8, 6));
}

fn frame(p: Picture) -> Frame {
    let (_, _, width, height) = p.crop;
    Frame { picture: Arc::new(p), poc: 0, pts: None, width, height }
}

#[test]
fn write_yuv_crops_and_appends() {
    let mut p = Picture::new(4, 4, 1, 8, 8);
    for i in 0..16 {
        p.planes[0].data[i] = i as u16;
    }
    p.planes[1].data = vec![100, 101, 102, 103];
    p.planes[2].data = vec![200, 201, 202, 203];
    p.crop = (2, 0, 2, 4);
    let f = frame(p);
    let mut out = vec![255u8];
    f.write_yuv(&mut out);
    assert_eq!(out, vec![255, 2, 3, 6, 7, 10, 11, 14, 15, 101, 103, 201, 203]);
    assert_eq!(f.bit_depth(), 8);
}

#[test]
fn write_yuv_is_little_endian_above_eight_bits() {
    let mut p = Picture::new(2, 2, 1, 10, 10);
    p.planes[0].data = vec![0x3ff, 1, 0x102, 0];
    p.planes[1].data = vec![0x200];
    p.planes[2].data = vec![3];
    let mut out = Vec::new();
    frame(p).write_yuv(&mut out);
    assert_eq!(out, vec![0xff, 3, 1, 0, 2, 1, 0, 0, 0, 2, 3, 0]);
}

#[test]
fn a_frame_has_three_halves_of_its_samples() {
    for (depth, bytes) in [(8u8, 1usize), (10, 2)] {
        let mut out = Vec::new();
        frame(Picture::new(16, 8, 1, depth, depth)).write_yuv(&mut out);
        assert_eq!(out.len(), 16 * 8 * 3 / 2 * bytes);
    }
}

#[test]
fn monochrome_writes_luma_only() {
    let mut out = Vec::new();
    frame(Picture::new(8, 8, 0, 8, 8)).write_yuv(&mut out);
    assert_eq!(out.len(), 64);
}

// ---- the picture state ----

#[test]
fn z_scan_addresses_follow_the_z_order() {
    let st = PicState::new(&sps(32, 16, 4), &tiles(2));
    assert_eq!((st.w4, st.h4, st.ctb_w, st.ctb_h), (8, 4, 2, 1));
    assert_eq!(&st.zs[..8], &[0, 1, 4, 5, 16, 17, 20, 21]);
    assert_eq!(&st.zs[8..16], &[2, 3, 6, 7, 18, 19, 22, 23]);
    assert_eq!(st.slice_addr, vec![-1, -1]);
    assert_eq!(st.motion[0], Motion::default());
    assert_eq!(st.sao[1][2], SaoParams::default());
    assert_eq!(st.ctb_filter[0], CtbFilterParams::default());
}

#[test]
fn z_scan_addresses_differ() {
    let layout = TileLayout { rs_to_ts: vec![2, 0, 3, 1], tile_id: vec![0, 0, 1, 1] };
    let st = PicState::new(&sps(32, 32, 4), &layout);
    let mut seen = st.zs.clone();
    seen.sort();
    assert_eq!(seen, (0..64).collect::<Vec<u32>>());
    assert_eq!(st.zs[0], 2 * 16);
    // By raster address, through the tile scan.
    assert_eq!(st.tile_id, vec![1, 0, 1, 0]);
}

#[test]
fn addresses_of_a_location() {
    let st = PicState::new(&sps(32, 32, 4), &tiles(4));
    assert_eq!(st.idx4(13, 9), 2 * 8 + 3);
    assert_eq!(st.ctb_of(13, 17), 2);
}

#[test]
fn availability_needs_order_slice_tile_and_decoding() {
    let s = sps(32, 16, 4);
    let mut st = decoded(&s, 30);
    assert!(st.available(4, 4, 3, 4));
    assert!(st.available(4, 4, 4, 4));
    assert!(!st.available(4, 4, 8, 4), "later in z-order");
    assert!(!st.available(4, 4, -1, 4) && !st.available(4, 4, 4, 16));
    assert!(st.available(16, 0, 15, 0));
    st.slice_addr[1] = 1;
    assert!(!st.available(16, 0, 15, 0), "another slice");
    st.slice_addr[1] = 0;
    st.tile_id[1] = 1;
    assert!(!st.available(16, 0, 15, 0), "another tile");
    st.tile_id[1] = 0;
    let i = st.idx4(12, 0);
    st.pred_mode[i] = 0;
    assert!(!st.available(16, 0, 15, 0), "not decoded");
    st.slice_addr = vec![-1, -1];
    assert!(!st.available(4, 4, 3, 4), "no slice");
}

#[test]
fn availability_goes_one_way() {
    let st = decoded(&sps(32, 32, 4), 30);
    for a in 0..64i32 {
        for b in 0..64i32 {
            let (xa, ya, xb, yb) = (a % 8 * 4, a / 8 * 4, b % 8 * 4, b / 8 * 4);
            let both = st.available(xa, ya, xb, yb) && st.available(xb, yb, xa, ya);
            assert_eq!(both, a == b);
        }
    }
}

#[test]
fn fill4_covers_the_blocks_it_touches() {
    let mut map = vec![0u8; 16];
    PicState::fill4(&mut map, 4, 4, 4, 8, 4, 7);
    assert_eq!(map, vec![0, 0, 0, 0, 0, 7, 7, 0, 0, 0, 0, 0, 0, 0, 0, 0]);
    PicState::fill4(&mut map, 4, 0, 12, 16, 4, 1);
    assert_eq!(&map[12..], &[1, 1, 1, 1]);
}

// ---- deblocking ----

/// A step of 100 to 106 at column 8, with a transform edge there.
fn step_picture() -> (Sps, PicState, [Plane; 3]) {
    let s = sps(16, 16, 4);
    let mut st = decoded(&s, 32);
    for y in 0..4 {
        st.edges[y * 4 + 2] = 1;
    }
    let mut p = planes(16, 16, 100);
    for y in 0..16 {
        for x in 8..16 {
            p[0].set(x, y, 106);
        }
    }
    (s, st, p)
}

#[test]
fn strong_filter_on_a_small_step() {
    let (s, st, mut p) = step_picture();
    let before = p[1].clone();
    deblock(&mut p, &st, &s, &pps(), &mut Vec::new(), &mut Vec::new());
    for y in 0..16 {
        assert_eq!(
            p[0].row(y),
            &[
                100, 100, 100, 100, 100, 101, 102, 102, 104, 105, 105, 106, 106, 106, 106, 106
            ]
        );
    }
    assert_eq!(p[1].data, before.data);
}

#[test]
fn bypassed_blocks_keep_their_samples() {
    let (s, mut st, mut p) = step_picture();
    for y in 0..4 {
        st.filter_bypass[y * 4 + 2] = 1;
    }
    deblock(&mut p, &st, &s, &pps(), &mut Vec::new(), &mut Vec::new());
    assert_eq!(&p[0].row(3)[4..12], &[100, 101, 102, 102, 106, 106, 106, 106]);
}

#[test]
fn a_disabled_slice_is_not_deblocked() {
    let (s, mut st, mut p) = step_picture();
    st.ctb_filter[0].deblock_disabled = true;
    let before = p[0].clone();
    filter_planes(
        &mut p,
        &st,
        &s,
        &pps(),
        &mut Vec::new(),
        &mut Vec::new(),
        &mut Vec::new(),
        ALL_FILTERS,
    );
    assert_eq!(p[0].data, before.data);
}

#[test]
fn switches_leave_the_picture_alone() {
    let (s, st, mut p) = step_picture();
    let before = p[0].clone();
    filter_planes(
        &mut p,
        &st,
        &s,
        &pps(),
        &mut Vec::new(),
        &mut Vec::new(),
        &mut Vec::new(),
        FilterSwitches { skip_all: true, skip_sao: false },
    );
    assert_eq!(p[0].data, before.data);
}

#[test]
fn boundary_strengths() {
    let s = sps(16, 16, 4);
    let mut st = decoded(&s, 32);
    assert_eq!(boundary_strength(&st, 1, 2, true), 2, "intra");
    st.pred_mode[1] = PRED_INTER;
    st.pred_mode[2] = PRED_INTER;
    let m = Motion {
        mv: [[0, 0], [0, 0]],
        ref_idx: [0, 0],
        pred_flags: 1,
        ref_poc: [5, 0],
        ref_lt: 0,
    };
    st.motion[1] = m;
    st.motion[2] = m;
    assert_eq!(boundary_strength(&st, 1, 2, true), 0, "same motion");
    st.nz[2] = 1;
    assert_eq!(boundary_strength(&st, 1, 2, true), 1, "coefficients at a transform edge");
    assert_eq!(boundary_strength(&st, 1, 2, false), 0, "coefficients, no transform edge");
    st.nz[2] = 0;
    st.motion[2].mv[0][0] = 4;
    assert_eq!(boundary_strength(&st, 1, 2, true), 1, "a whole sample apart");
    st.motion[2].mv[0][0] = 3;
    assert_eq!(boundary_strength(&st, 1, 2, true), 0);
    st.motion[2].ref_poc[0] = 6;
    assert_eq!(boundary_strength(&st, 1, 2, true), 1, "another reference");
    st.motion[2] = Motion { pred_flags: 3, ref_poc: [5, 5], ..m };
    assert_eq!(boundary_strength(&st, 1, 2, true), 1, "another number of references");
    // Two references in either order.
    st.motion[1] = Motion { pred_flags: 3, ref_poc: [5, 7], mv: [[1, 0], [8, 0]], ..m };
    st.motion[2] = Motion { pred_flags: 3, ref_poc: [7, 5], mv: [[8, 0], [1, 0]], ..m };
    assert_eq!(boundary_strength(&st, 1, 2, true), 0);
    st.motion[2].mv[0][0] = 4;
    assert_eq!(boundary_strength(&st, 1, 2, true), 1);
    // The same reference twice: either pairing may match.
    st.motion[1] = Motion { pred_flags: 3, ref_poc: [5, 5], mv: [[0, 0], [8, 0]], ..m };
    st.motion[2] = Motion { pred_flags: 3, ref_poc: [5, 5], mv: [[8, 0], [0, 0]], ..m };
    assert_eq!(boundary_strength(&st, 1, 2, true), 0);
    st.motion[2].mv[1][0] = 5;
    assert_eq!(boundary_strength(&st, 1, 2, true), 1);
}

#[test]
fn edges_between_slices_and_tiles() {
    let s = sps(32, 16, 4);
    let mut st = decoded(&s, 32);
    let mut p = pps();
    assert!(edge_allowed(&st, &p, 15, 0, 16, 0));
    st.slice_addr[1] = 1;
    assert!(!edge_allowed(&st, &p, 15, 0, 16, 0));
    st.ctb_filter[1].lf_across_slices = true;
    assert!(edge_allowed(&st, &p, 15, 0, 16, 0));
    st.tile_id[1] = 1;
    assert!(edge_allowed(&st, &p, 15, 0, 16, 0));
    p.loop_filter_across_tiles_enabled = false;
    assert!(!edge_allowed(&st, &p, 15, 0, 16, 0));
}

#[test]
fn luma_segment_weak_filter() {
    // A step of 10: too steep for the strong filter at tc = 3.
    let mut p = Plane::new(8, 4);
    for y in 0..4 {
        for x in 0..8 {
            p.set(x, y, if x < 4 { 100 } else { 110 });
        }
    }
    let e = EdgeParams { beta: 26, tc: 3, no_p: false, no_q: false, max: 255 };
    luma_edge(&mut p, 4, 0, 0, &e);
    // delta = (9·10 − 3·10 + 8) >> 4 = 4, clipped to 3; p1 and q1 move by one.
    assert_eq!(p.row(0), &[100, 100, 101, 103, 107, 109, 110, 110]);
    // On a flat line nothing moves.
    let mut flat = Plane::new(8, 4);
    for s in flat.data.iter_mut() {
        *s = 90;
    }
    luma_edge(&mut flat, 4, 0, 0, &e);
    assert!(flat.data.iter().all(|&v| v == 90));
}

#[test]
fn chroma_segment_filter() {
    let mut p = Plane::new(2, 4);
    for y in 0..4 {
        for x in 0..2 {
            p.set(x, y, if y < 2 { 50 } else { 60 });
        }
    }
    let e = EdgeParams { beta: 0, tc: 2, no_p: false, no_q: true, max: 255 };
    filter_chroma_edge(&mut p, 0, 2, 1, &e);
    // delta = (4·10 − 10 + 4) >> 3 = 4, clipped to 2; the q side is kept.
    assert_eq!(p.data, vec![50, 50, 52, 52, 60, 60, 60, 60]);
}

// ---- sample adaptive offset ----

#[test]
fn band_offsets_add_to_their_band() {
    let s = sps(16, 16, 4);
    let mut st = decoded(&s, 32);
    st.ctb_filter[0].sao_luma = true;
    st.sao[0][0] = SaoParams { type_idx: 1, aux: 12, offset: [5, 0, 0, -3] };
    let mut p = planes(16, 16, 100);
    p[0].set(3, 3, 125);
    p[0].set(4, 4, 200);
    sao(&mut p, &st, &s, &pps(), &mut Vec::new(), false);
    assert_eq!(p[0].get(0, 0), 105, "band 12");
    assert_eq!(p[0].get(3, 3), 122, "band 15");
    assert_eq!(p[0].get(4, 4), 200, "no band");
    assert!(p[1].data.iter().all(|&v| v == 100));
}

#[test]
fn edge_offsets_go_by_the_neighbours() {
    let s = sps(16, 16, 4);
    let mut st = decoded(&s, 32);
    st.ctb_filter[0].sao_luma = true;
    st.sao[0][0] = SaoParams { type_idx: 2, aux: 0, offset: [7, 3, -2, -4] };
    let mut p = planes(16, 16, 100);
    p[0].set(5, 5, 90);
    p[0].set(9, 9, 120);
    for x in 10..16 {
        p[0].set(x, 2, 110);
    }
    sao(&mut p, &st, &s, &pps(), &mut Vec::new(), false);
    assert_eq!(p[0].get(5, 5), 97, "a local minimum");
    assert_eq!(p[0].get(9, 9), 116, "a local maximum");
    assert_eq!(p[0].get(4, 5), 98, "beside the minimum: a convex corner");
    assert_eq!(p[0].get(9, 2), 103, "at the foot of a step: a concave corner");
    assert_eq!(p[0].get(10, 2), 108, "at the top of a step: a convex corner");
    assert_eq!(p[0].get(0, 7), 100, "no neighbour outside the picture");
}

#[test]
fn offsets_on_a_row_of_five_samples() {
    let s = sps(16, 16, 4);
    let mut st = decoded(&s, 32);
    st.w4 = 2;
    st.h4 = 1;
    st.zs = vec![0, 1];
    st.filter_bypass = vec![0, 0];
    st.sao[0][0] = SaoParams { type_idx: 2, aux: 0, offset: [4, 2, -2, -7] };
    let mut row = Plane::new(5, 1);
    row.data = vec![10, 13, 10, 13, 10];
    let mut p = [row, Plane::new(0, 0), Plane::new(0, 0)];
    sao(&mut p, &st, &s, &pps(), &mut Vec::new(), false);
    assert_eq!(p[0].data, vec![10, 6, 14, 6, 10]);
    assert!(p[1].data.is_empty() && p[2].data.is_empty());
}

#[test]
fn strengths_need_three_maps() {
    let s = sps(16, 16, 4);
    let mut st = decoded(&s, 32);
    st.pred_mode = vec![PRED_INTER, PRED_INTER, PRED_INTRA];
    st.nz = vec![0, 1, 0];
    st.motion.truncate(3);
    st.zs = Vec::new();
    assert_eq!(boundary_strength(&st, 0, 2, false), 2);
    assert_eq!(boundary_strength(&st, 0, 1, true), 1);
    assert_eq!(boundary_strength(&st, 0, 1, false), 0);
}

#[test]
fn maps_and_windows_are_checked() {
    let s = sps(16, 16, 4);
    let mut st = decoded(&s, 32);
    assert!(st.is_valid());
    st.nz.push(0);
    assert!(!st.is_valid());
    let mut p = Picture::new(16, 16, 1, 8, 8);
    assert!(p.crop_valid());
    p.crop = (0, 8, 16, 9);
    assert!(!p.crop_valid(), "a row too many");
    p.crop = (usize::MAX, 0, 16, 16);
    assert!(!p.crop_valid());
}

#[test]
fn neighbours_are_usable_both_ways() {
    let s = sps(32, 32, 4);
    for bits in 0..64u32 {
        let mut st = decoded(&s, 32);
        let bit = |k: u32| bits >> k & 1 == 1;
        st.slice_addr = vec![0, bit(0) as i32, 0, bit(1) as i32];
        st.tile_id[3] = bit(2) as u32;
        st.ctb_filter[0].lf_across_slices = bit(3);
        st.ctb_filter[3].lf_across_slices = bit(4);
        let mut p = pps();
        p.loop_filter_across_tiles_enabled = bit(5);
        let there = sao_neighbour_usable(&st, &p, bit(3), 15, 15, 16, 16);
        let back = sao_neighbour_usable(&st, &p, bit(4), 16, 16, 15, 15);
        assert_eq!(there, back);
        assert_eq!(there, (!bit(1) || bit(4)) && (!bit(2) || bit(5)), "the later block decides");
        assert!(sao_neighbour_usable(&st, &p, false, 3, 3, 4, 4), "one coding tree block");
    }
}

#[test]
fn both_paths_give_the_same_offsets() {
    let s = sps(16, 16, 4);
    let mut st = decoded(&s, 32);
    st.sao[0][0] = SaoParams { type_idx: 2, aux: 2, offset: [7, 3, -2, -4] };
    st.sao[0][1] = SaoParams { type_idx: 1, aux: 12, offset: [1, 2, 3, 4] };
    let make = || {
        let mut p = planes(16, 16, 100);
        for (i, v) in p[0].data.iter_mut().enumerate() {
            *v = (i * 37 % 251) as u16;
        }
        p
    };
    let (mut a, mut b) = (make(), make());
    sao(&mut a, &st, &s, &pps(), &mut Vec::new(), false);
    sao(&mut b, &st, &s, &pps(), &mut vec![9; 1000], true);
    for c in 0..3 {
        assert_eq!(a[c].data, b[c].data);
    }
    assert_ne!(a[0].data, make()[0].data);
}

#[test]
fn a_slope_gets_no_offset() {
    let s = sps(16, 16, 4);
    let mut st = decoded(&s, 32);
    st.ctb_filter[0].sao_luma = true;
    st.sao[0][0] = SaoParams { type_idx: 2, aux: 0, offset: [7, 7, -7, -7] };
    let mut p = planes(16, 16, 0);
    for y in 0..16 {
        for x in 0..16 {
            p[0].set(x, y, 10 * x as u16);
        }
    }
    let before = p[0].clone();
    sao(&mut p, &st, &s, &pps(), &mut Vec::new(), false);
    assert_eq!(p[0].data, before.data);
}

#[test]
fn offsets_stay_in_the_sample_range() {
    let s = sps(16, 16, 4);
    let mut st = decoded(&s, 32);
    st.ctb_filter[0].sao_luma = true;
    st.sao[0][0] = SaoParams { type_idx: 1, aux: 31, offset: [7, -7, 0, 0] };
    let mut p = planes(16, 16, 254);
    p[0].set(0, 0, 3);
    sao(&mut p, &st, &s, &pps(), &mut Vec::new(), false);
    assert_eq!(p[0].get(1, 0), 255);
    assert_eq!(p[0].get(0, 0), 0, "band 0 follows band 31");
}

#[test]
fn bypassed_blocks_get_no_offset() {
    let s = sps(16, 16, 4);
    let mut st = decoded(&s, 32);
    st.ctb_filter[0].sao_luma = true;
    st.sao[0][0] = SaoParams { type_idx: 1, aux: 12, offset: [5, 5, 5, 5] };
    st.filter_bypass[0] = 1;
    let mut p = planes(16, 16, 100);
    sao(&mut p, &st, &s, &pps(), &mut Vec::new(), true);
    assert_eq!(p[0].get(3, 3), 100);
    assert_eq!(p[0].get(4, 3), 105);
}

#[test]
fn neighbours_across_a_slice() {
    let s = sps(32, 16, 4);
    let mut st = decoded(&s, 32);
    let p = pps();
    assert!(sao_neighbour_usable(&st, &p, false, 16, 0, 15, 0));
    st.slice_addr[1] = 1;
    assert!(!sao_neighbour_usable(&st, &p, false, 16, 0, 15, 0));
    assert!(sao_neighbour_usable(&st, &p, true, 16, 0, 15, 0));
    assert!(!sao_neighbour_usable(&st, &p, true, 15, 0, 16, 0), "the later slice decides");
    st.slice_addr[0] = -1;
    assert!(!sao_neighbour_usable(&st, &p, true, 16, 0, 15, 0));
}

#[test]
fn offsets_follow_deblocking() {
    let (s, mut st, mut p) = step_picture();
    st.ctb_filter[0].sao_luma = true;
    st.sao[0][0] = SaoParams { type_idx: 1, aux: 13, offset: [1, 0, 0, 0] };
    let mut no_sao = p.clone();
    filter_planes(
        &mut p,
        &st,
        &s,
        &pps(),
        &mut Vec::new(),
        &mut Vec::new(),
        &mut Vec::new(),
        ALL_FILTERS,
    );
    // Band 13 is 104..=111, of the deblocked samples.
    assert_eq!(&p[0].row(0)[4..12], &[100, 101, 102, 102, 105, 106, 106, 107]);
    filter_planes(
        &mut no_sao,
        &st,
        &s,
        &pps(),
        &mut Vec::new(),
        &mut Vec::new(),
        &mut Vec::new(),
        FilterSwitches { skip_all: false, skip_sao: true },
    );
    assert_eq!(&no_sao[0].row(0)[4..12], &[100, 101, 102, 102, 104, 105, 105, 106]);
}

// ---- reconstruction ----

#[test]
fn references_of_an_intra_block() {
    let s = sps(16, 16, 4);
    let mut st = decoded(&s, 32);
    let mut p = Plane::new(16, 16);
    for y in 0..16 {
        for x in 0..16 {
            p.set(x, y, (16 * y + x) as u16);
        }
    }
    let r = gather_refs(&p, &st, false, 0, 8, 8, 4);
    assert_eq!(&r.top[..], &[120, 121, 122, 123, 124, 125, 126, 127]);
    assert_eq!(&r.left[..4], &[135, 151, 167, 183]);
    assert_eq!(r.corner, 119);
    assert_eq!(r.left_avail, vec![true; 8]);
    assert!(r.all_avail);
    let r = gather_refs(&p, &st, false, 0, 0, 0, 4);
    assert_eq!(r.top_avail, vec![false; 8]);
    assert_eq!(r.left, vec![0; 8]);
    assert!(!r.corner_avail && !r.all_avail);
    // Only intra neighbours, where prediction is constrained to them.
    let i = st.idx4(8, 4);
    st.pred_mode[i] = PRED_INTER;
    let r = gather_refs(&p, &st, true, 0, 8, 8, 4);
    assert_eq!(&r.top_avail[..], &[false, false, false, false, true, true, true, true]);
    assert_eq!(&r.top[..5], &[0, 0, 0, 0, 124]);
    let r = gather_refs(&p, &st, false, 0, 8, 8, 4);
    assert!(r.all_avail);
}

fn residual_of(log2: usize, c_idx: usize) -> ResidualOf {
    ResidualOf {
        log2,
        c_idx,
        cu_intra: true,
        bypass: false,
        transform_skip: false,
        nz_w: 3,
        nz_h: 0,
        qp_y: 41,
        slice_cb_qp_offset: 1,
        slice_cr_qp_offset: -1,
    }
}

#[test]
fn residual_plans() {
    let s = sps(16, 16, 4);
    let mut p = pps();
    p.cb_qp_offset = 1;
    let luma = plan_residual(&s, &p, &residual_of(2, 0), None);
    assert_eq!(luma.kind, TransformKind::Dst);
    assert_eq!(luma.dequant, Some(Dequant { qp: 41, w: 3, h: 1 }));
    let cb = plan_residual(&s, &p, &residual_of(2, 1), None);
    assert_eq!(cb.kind, TransformKind::Dct);
    assert_eq!(cb.dequant.unwrap().qp, 37, "43 maps to 37");
    let far = ResidualOf { slice_cb_qp_offset: 1000, ..residual_of(2, 1) };
    assert_eq!(plan_residual(&s, &p, &far, None).dequant.unwrap().qp, 51, "57 maps to 51");
    let low = ResidualOf { slice_cb_qp_offset: -1000, ..residual_of(2, 1) };
    assert_eq!(plan_residual(&s, &p, &low, None).dequant.unwrap().qp, 0);
    let cr = plan_residual(&s, &p, &residual_of(2, 2), None);
    assert_eq!(cr.dequant.unwrap().qp, 36, "40 maps to 36");
    let skip = ResidualOf { transform_skip: true, ..residual_of(2, 0) };
    assert_eq!(plan_residual(&s, &p, &skip, None).kind, TransformKind::Skip);
    let bypass = ResidualOf { bypass: true, ..residual_of(3, 0) };
    let plan = plan_residual(&s, &p, &bypass, None);
    assert_eq!(plan.kind, TransformKind::Bypass);
    assert!(plan.dequant.is_none() && plan.matrix.is_none());
}

#[test]
fn scaling_matrices_by_size_and_component() {
    let s = sps(16, 16, 4);
    let p = pps();
    let f: Vec<Vec<Vec<u8>>> =
        (0..4u8).map(|i| (0..6u8).map(|m| vec![10 * i + m]).collect()).collect();
    let sf = ScalingFactors { f };
    let m = |b: &ResidualOf| plan_residual(&s, &p, b, Some(&sf)).matrix.map(|v| v[0]);
    assert_eq!(m(&residual_of(2, 0)), Some(0));
    assert_eq!(m(&residual_of(3, 2)), Some(12));
    assert_eq!(m(&ResidualOf { cu_intra: false, ..residual_of(4, 1) }), Some(24));
    assert_eq!(m(&ResidualOf { transform_skip: true, ..residual_of(3, 0) }), None);
    assert_eq!(m(&ResidualOf { transform_skip: true, ..residual_of(2, 0) }), Some(0));
}

#[test]
fn residuals_add_and_clip() {
    let mut pic = Picture::new(16, 16, 1, 8, 8);
    for v in pic.planes[1].data.iter_mut() {
        *v = 250;
    }
    let mut res = vec![0i32; 16];
    res[0] = 10;
    res[5] = -300;
    res[6] = -1;
    reconstruct_residual(&mut pic, 8, 0, 2, 1, 8, None, &res);
    assert_eq!(pic.planes[1].get(4, 0), 255);
    assert_eq!(pic.planes[1].get(5, 1), 0);
    assert_eq!(pic.planes[1].get(6, 1), 249);
    assert_eq!(pic.planes[1].get(3, 0), 250);
    reconstruct_residual(&mut pic, 8, 0, 2, 1, 8, Some(100), &res);
    assert_eq!(pic.planes[1].get(4, 0), 110);
    assert_eq!(pic.planes[1].get(5, 0), 100);
}

#[test]
fn weighted_prediction() {
    let e = WeightEntry {
        luma_weight: 3,
        luma_offset: 10,
        chroma_weight: [1, 2],
        chroma_offset: [0, -5],
    };
    // 8 bit: predictions carry 6 more bits.
    let pred = [vec![100i16 << 6, 50 << 6], vec![20i16 << 6, 30 << 6]];
    let mut dst = vec![9u16; 4];
    weighted_write(&mut dst, 2, &pred, [true, false], None, None, 0, 0, 1, 2, 8);
    assert_eq!(dst, vec![100, 9, 50, 9], "no weights: the prediction itself");
    weighted_write(&mut dst, 2, &pred, [true, false], Some(&e), None, 1, 0, 1, 2, 8);
    assert_eq!(dst, vec![160, 9, 85, 9], "3/2 and an offset of 10");
    weighted_write(&mut dst, 2, &pred, [false, true], None, Some(&e), 1, 2, 1, 2, 8);
    assert_eq!(dst, vec![15, 9, 25, 9], "the second list, Cr");
    weighted_write(&mut dst, 2, &pred, [true, true], None, None, 0, 0, 1, 2, 8);
    assert_eq!(dst, vec![60, 9, 40, 9], "the mean of both");
    weighted_write(&mut dst, 2, &pred, [true, true], Some(&e), Some(&e), 0, 0, 1, 2, 8);
    assert_eq!(dst, vec![190, 9, 130, 9]);
    // A list that is not used may be empty; so may the block.
    let one = [Vec::new(), pred[1].clone()];
    weighted_write(&mut dst, 2, &one, [false, true], None, Some(&e), 1, 2, 1, 2, 8);
    assert_eq!(dst, vec![15, 9, 25, 9]);
    let one = [pred[0].clone(), Vec::new()];
    weighted_write(&mut dst, 2, &one, [true, false], None, None, 0, 0, 1, 2, 8);
    assert_eq!(dst, vec![100, 9, 50, 9]);
    weighted_write(&mut dst, 0, &one, [true, false], None, None, 0, 0, 0, 5, 8);
    assert_eq!(dst, vec![100, 9, 50, 9]);
    // Without weights the denominator does not matter.
    for denom in 0..8 {
        weighted_write(&mut dst, 2, &pred, [true, false], None, None, denom, 1, 1, 2, 8);
        assert_eq!(dst, vec![100, 9, 50, 9]);
        weighted_write(&mut dst, 2, &pred, [true, true], None, None, denom, 1, 1, 2, 8);
        assert_eq!(dst, vec![60, 9, 40, 9]);
    }
}
