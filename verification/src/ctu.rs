//! Transform tree (§7.3.8.8) and transform unit (§7.3.8.10): the syntax is
//! read here, and what it asks of the samples comes out as an ordered list of
//! prediction and residual steps.

use std::sync::Arc;

use crate::arith;
use crate::cabac;
use crate::cabac::{
    BinDecoder, CTX_CBF_CHROMA, CTX_CBF_LUMA, CTX_CU_QP_DELTA, CTX_SPLIT_TRANSFORM,
};
use crate::error::Error;
use crate::pic;
use crate::pic::PicState;
use crate::ps::{Pps, Sps};
use crate::recon;
use crate::recon::ResidualOf;
use crate::residual;
use crate::residual::{Filled, ResidualBlock, ResidualParams};
use crate::slice::SliceHeader;
use vstd::arithmetic::power2::*;
use vstd::prelude::*;

verus! {

/// How a coding unit is partitioned (`PartMode`).
#[derive(Debug, Clone, Copy, PartialEq, Eq, Structural)]
pub enum PartMode {
    Part2Nx2N,
    Part2NxN,
    PartNx2N,
    PartNxN,
    Part2NxnU,
    Part2NxnD,
    PartnLx2N,
    PartnRx2N,
}

/// The coding unit whose transform tree is read.
#[derive(Debug, Clone, Copy)]
pub struct CodingUnit {
    /// Luma position and size.
    pub x: usize,
    pub y: usize,
    pub size: usize,
    pub intra: bool,
    pub part_mode: PartMode,
    /// Four luma prediction blocks (`IntraSplitFlag`).
    pub intra_split: bool,
    /// `MaxTrafoDepth`.
    pub max_trafo_depth: u8,
    pub transquant_bypass: bool,
    pub intra_chroma_mode: u8,
    /// The predicted `QpY` of the quantization group.
    pub qp_y_pred: i32,
}

/// One step of a transform unit's reconstruction.
#[derive(Debug)]
pub enum TuOp {
    /// Predict the `n`×`n` block of component `c` at component coordinates
    /// (`x`, `y`).
    Predict { c: usize, x: usize, y: usize, n: usize, mode: u8, residual_follows: bool },
    /// Scale, transform and add a residual; (`x`, `y`) are luma coordinates.
    Residual { x: usize, y: usize, log2: usize, c: usize, qp_y: i32, block: ResidualBlock },
}

/// A step as its contents.
pub enum TuStep {
    Predict { c: int, x: int, y: int, n: int, mode: u8, residual_follows: bool },
    Residual {
        x: int,
        y: int,
        log2: int,
        c: int,
        qp_y: int,
        transform_skip: bool,
        fill: Filled,
    },
}

impl TuOp {
    pub open spec fn step(self) -> TuStep {
        match self {
            TuOp::Predict { c, x, y, n, mode, residual_follows } => TuStep::Predict {
                c: c as int,
                x: x as int,
                y: y as int,
                n: n as int,
                mode,
                residual_follows,
            },
            TuOp::Residual { x, y, log2, c, qp_y, block } => TuStep::Residual {
                x: x as int,
                y: y as int,
                log2: log2 as int,
                c: c as int,
                qp_y: qp_y as int,
                transform_skip: block.transform_skip,
                fill: Filled {
                    coeffs: block.coeffs@,
                    nz_w: block.nz_w as int,
                    nz_h: block.nz_h as int,
                },
            },
        }
    }
}

impl TuOp {
    /// The block that a residual step asks for, in its coding unit and slice.
    pub open spec fn asks(self, cu: CodingUnit, sh: SliceHeader) -> Option<ResidualOf> {
        match self {
            TuOp::Predict { .. } => None,
            TuOp::Residual { log2, c, qp_y, block, .. } => Some(
                ResidualOf {
                    log2,
                    c_idx: c,
                    cu_intra: cu.intra,
                    bypass: cu.transquant_bypass,
                    transform_skip: block.transform_skip,
                    nz_w: block.nz_w,
                    nz_h: block.nz_h,
                    qp_y,
                    slice_cb_qp_offset: sh.cb_qp_offset,
                    slice_cr_qp_offset: sh.cr_qp_offset,
                },
            ),
        }
    }

    /// What a residual step asks for in its coding unit and slice: the block
    /// whose scaling and transform are to be chosen. A prediction asks for none.
    pub fn residual(&self, cu: &CodingUnit, sh: &SliceHeader) -> (r: Option<ResidualOf>)
        ensures
            r == self.asks(*cu, *sh),
    {
        match self {
            TuOp::Predict { .. } => None,
            TuOp::Residual { log2, c, qp_y, block, .. } => Some(
                ResidualOf {
                    log2: *log2,
                    c_idx: *c,
                    cu_intra: cu.intra,
                    bypass: cu.transquant_bypass,
                    transform_skip: block.transform_skip,
                    nz_w: block.nz_w,
                    nz_h: block.nz_h,
                    qp_y: *qp_y,
                    slice_cb_qp_offset: sh.cb_qp_offset,
                    slice_cr_qp_offset: sh.cr_qp_offset,
                },
            ),
        }
    }
}

pub open spec fn steps(ops: Seq<TuOp>) -> Seq<TuStep> {
    Seq::new(ops.len(), |i: int| ops[i].step())
}

/// `QpY` from its prediction and delta (8-283), kept in range by wrapping.
pub open spec fn wrapped_qp(qp: int, qp_bd_offset: int) -> int {
    (qp + 52 + 2 * qp_bd_offset) % (52 + qp_bd_offset) - qp_bd_offset
}

pub fn wrap_qp(qp: i32, qp_bd_offset: i32) -> (r: i32)
    requires
        0 <= qp_bd_offset <= 48,
        -1000 <= qp <= 1000,
        qp + 52 + 2 * qp_bd_offset >= 0,
    ensures
        r == wrapped_qp(qp as int, qp_bd_offset as int),
        -qp_bd_offset <= r <= 51,
{
    (qp + 52 + 2 * qp_bd_offset) % (52 + qp_bd_offset) - qp_bd_offset
}

/// A map with one rectangle (luma samples) set to `v`.
pub open spec fn filled4<T>(map: Seq<T>, w4: int, x: int, y: int, w: int, h: int, v: T) -> Seq<T> {
    Seq::new(
        map.len(),
        |i: int|
            if pic::covered4(i, w4, x, y, w, h) {
                v
            } else {
                map[i]
            },
    )
}

/// The edge flags with the left and top edges of an `n`×`n` block marked as
/// transform edges.
pub open spec fn edges_marked(edges: Seq<u8>, w4: int, x: int, y: int, n: int) -> Seq<u8> {
    Seq::new(
        edges.len(),
        |i: int|
            {
                let left = pic::covered4(i, w4, x, y, 4, n);
                let top = pic::covered4(i, w4, x, y, n, 4);
                let e = if left {
                    edges[i] | 1u8
                } else {
                    edges[i]
                };
                if top {
                    e | 2u8
                } else {
                    e
                }
            },
    )
}

/// What the transform tree reads and does not change.
pub struct TreeEnv {
    pub sps: Sps,
    pub pps: Pps,
    pub cu: CodingUnit,
    /// Luma prediction modes per 4×4 block.
    pub modes: Seq<u8>,
    pub w4: int,
}

impl TreeEnv {
    pub open spec fn residual_params(self) -> ResidualParams {
        ResidualParams {
            transform_skip_enabled: self.pps.transform_skip_enabled,
            log2_max_transform_skip_block_size: self.pps.log2_max_transform_skip_block_size,
            sign_data_hiding_enabled: self.pps.sign_data_hiding_enabled,
            cu_transquant_bypass: self.cu.transquant_bypass,
            cu_intra: self.cu.intra,
        }
    }
}

/// What the transform tree changes.
#[verifier::reject_recursive_types(S)]
#[verifier::ext_equal]
pub struct TuState<S> {
    pub s: S,
    /// `IsCuQpDeltaCoded`.
    pub delta_coded: bool,
    /// `CuQpDeltaVal`.
    pub delta: int,
    pub qp_y: int,
    pub edges: Seq<u8>,
    pub nz: Seq<u8>,
    pub qp_map: Seq<i8>,
    pub ops: Seq<TuStep>,
}

/// A state and why parsing stopped there, if it did.
pub type Outcome<S> = (TuState<S>, Option<Seq<char>>);

// ---- cu_qp_delta ----

/// The prefix of `cu_qp_delta_abs`, counted on from `k`: at most five bins,
/// the first with a context of its own.
pub open spec fn delta_prefix<B: BinDecoder>(s: B::State, k: int) -> (B::State, int)
    decreases 5 - k,
{
    if k >= 5 {
        (s, k)
    } else {
        let (s1, b) = B::ctx_bin(s, CTX_CU_QP_DELTA + (if k == 0 {
            0int
        } else {
            1
        }));
        if b {
            delta_prefix::<B>(s1, k + 1)
        } else {
            (s1, k)
        }
    }
}

/// `CuQpDeltaVal` as coded; `None` when its code is too long.
pub open spec fn delta_value<B: BinDecoder>(s: B::State) -> (B::State, Option<int>) {
    let (s1, p) = delta_prefix::<B>(s, 0);
    let (s2, v) = if p == 5 {
        let (s2, g) = cabac::exp_golomb::<B>(s1, 0);
        (s2, match g {
            Some(g) => Some(5 + g),
            None => None,
        })
    } else {
        (s1, Some(p))
    };
    match v {
        None => (s2, None),
        Some(v) => if v == 0 {
            (s2, Some(0))
        } else {
            let (s3, neg) = B::raw_bin(s2);
            (s3, Some(if neg {
                -v
            } else {
                v
            }))
        },
    }
}

/// The quantization parameter change of a transform unit, where one is coded.
pub open spec fn with_delta<B: BinDecoder>(env: TreeEnv, st: TuState<B::State>) -> Outcome<
    B::State,
> {
    let (s1, v) = delta_value::<B>(st.s);
    match v {
        None => (TuState { s: s1, ..st }, Some("cu_qp_delta_abs"@)),
        Some(d) => {
            let st1 = TuState { s: s1, delta_coded: true, delta: d, ..st };
            let half = env.sps.qp_bd_offset_y as int / 2;
            if d < -(26 + half) || d > 25 + half {
                (st1, Some("CuQpDeltaVal out of range"@))
            } else {
                let qp = wrapped_qp(env.cu.qp_y_pred + d, env.sps.qp_bd_offset_y as int);
                (
                    TuState {
                        qp_y: qp,
                        qp_map: filled4(
                            st.qp_map,
                            env.w4,
                            env.cu.x as int,
                            env.cu.y as int,
                            env.cu.size as int,
                            env.cu.size as int,
                            qp as i8,
                        ),
                        ..st1
                    },
                    None,
                )
            }
        },
    }
}

// ---- transform unit ----

/// One component's block: predicted where the coding unit is intra, then its
/// residual where it has one. (`x`, `y`) are luma coordinates.
pub open spec fn component<B: BinDecoder>(
    env: TreeEnv,
    st: TuState<B::State>,
    c: int,
    x: int,
    y: int,
    log2: int,
    mode: u8,
    cbf: bool,
) -> Outcome<B::State> {
    let n = pow2(log2 as nat) as int;
    let (xb, yb) = if c == 0 {
        (x, y)
    } else {
        (x / 2, y / 2)
    };
    let st1 = if env.cu.intra {
        TuState {
            ops: st.ops.push(
                TuStep::Predict { c, x: xb, y: yb, n, mode, residual_follows: cbf },
            ),
            ..st
        }
    } else {
        st
    };
    if cbf {
        let q = residual::parsed_block::<B>(st1.s, env.residual_params(), log2, c, mode as int);
        match q.error {
            Some(text) => (TuState { s: q.s, ..st1 }, Some(text)),
            None => (
                TuState {
                    s: q.s,
                    ops: st1.ops.push(
                        TuStep::Residual {
                            x,
                            y,
                            log2,
                            c,
                            qp_y: st1.qp_y,
                            transform_skip: q.transform_skip,
                            fill: q.fill,
                        },
                    ),
                    ..st1
                },
                None,
            ),
        }
    } else {
        (st1, None)
    }
}

/// The luma part of a transform unit: edges, prediction, residual, and the
/// record of non-zero coefficients.
pub open spec fn luma_part<B: BinDecoder>(
    env: TreeEnv,
    st: TuState<B::State>,
    x: int,
    y: int,
    log2: int,
    cbf: bool,
) -> Outcome<B::State> {
    let n = pow2(log2 as nat) as int;
    let st1 = TuState { edges: edges_marked(st.edges, env.w4, x, y, n), ..st };
    let mode = env.modes[(y / 4) * env.w4 + x / 4];
    match component::<B>(env, st1, 0, x, y, log2, mode, cbf) {
        (st2, Some(e)) => (st2, Some(e)),
        (st2, None) => (
            if cbf {
                TuState { nz: filled4(st2.nz, env.w4, x, y, n, n, 1u8), ..st2 }
            } else {
                st2
            },
            None,
        ),
    }
}

/// Both chroma blocks of a transform unit.
pub open spec fn chroma_part<B: BinDecoder>(
    env: TreeEnv,
    st: TuState<B::State>,
    x: int,
    y: int,
    log2: int,
    cbf_cb: bool,
    cbf_cr: bool,
) -> Outcome<B::State> {
    let mode = env.cu.intra_chroma_mode;
    match component::<B>(env, st, 1, x, y, log2, mode, cbf_cb) {
        (st1, Some(e)) => (st1, Some(e)),
        (st1, None) => component::<B>(env, st1, 2, x, y, log2, mode, cbf_cr),
    }
}

/// §7.3.8.10: a transform unit. Chroma is half the size; that of four 4×4 luma
/// blocks comes with the last of them.
pub open spec fn unit<B: BinDecoder>(
    env: TreeEnv,
    st: TuState<B::State>,
    x: int,
    y: int,
    xbase: int,
    ybase: int,
    log2: int,
    blk_idx: int,
    cbf_luma: bool,
    cbf_cb: bool,
    cbf_cr: bool,
) -> Outcome<B::State> {
    let o1: Outcome<B::State> = if (cbf_luma || cbf_cb || cbf_cr) && env.pps.cu_qp_delta_enabled
        && !st.delta_coded {
        with_delta::<B>(env, st)
    } else {
        (st, None)
    };
    match o1 {
        (st1, Some(e)) => (st1, Some(e)),
        (st1, None) => match luma_part::<B>(env, st1, x, y, log2, cbf_luma) {
            (st2, Some(e)) => (st2, Some(e)),
            (st2, None) => if log2 > 2 {
                chroma_part::<B>(env, st2, x, y, log2 - 1, cbf_cb, cbf_cr)
            } else if blk_idx == 3 {
                chroma_part::<B>(env, st2, xbase, ybase, 2, cbf_cb, cbf_cr)
            } else {
                (st2, None)
            },
        },
    }
}

// ---- transform tree ----

/// Whether the transform block splits, read or inferred (§7.4.9.8).
pub open spec fn split_flag<B: BinDecoder>(env: TreeEnv, s: B::State, log2: int, depth: int) -> (
    B::State,
    bool,
) {
    let max_tb = env.sps.log2_max_tb_size as int;
    let min_tb = env.sps.log2_min_tb_size as int;
    let nxn = env.cu.intra_split && depth == 0;
    if log2 <= max_tb && log2 > min_tb && depth < env.cu.max_trafo_depth && !nxn {
        B::ctx_bin(s, CTX_SPLIT_TRANSFORM + 5 - log2)
    } else {
        let inter_split = env.sps.max_transform_hierarchy_depth_inter == 0 && !env.cu.intra
            && env.cu.part_mode != PartMode::Part2Nx2N && depth == 0;
        (s, log2 > max_tb || nxn || inter_split)
    }
}

/// A chroma coded-block flag: read where the block is large enough and its
/// parent has the flag, else the parent's.
pub open spec fn chroma_cbf<B: BinDecoder>(s: B::State, log2: int, depth: int, parent: bool) -> (
    B::State,
    bool,
) {
    if log2 > 2 {
        if depth == 0 || parent {
            B::ctx_bin(s, CTX_CBF_CHROMA + depth)
        } else {
            (s, false)
        }
    } else {
        (s, parent)
    }
}

/// A transform tree that does not split: its luma flag and its unit.
pub open spec fn leaf<B: BinDecoder>(
    env: TreeEnv,
    st: TuState<B::State>,
    x: int,
    y: int,
    xbase: int,
    ybase: int,
    log2: int,
    depth: int,
    blk_idx: int,
    cb: bool,
    cr: bool,
) -> Outcome<B::State> {
    let (s, luma) = if env.cu.intra || depth != 0 || cb || cr {
        B::ctx_bin(st.s, CTX_CBF_LUMA + (if depth == 0 {
            1int
        } else {
            0
        }))
    } else {
        (st.s, true)
    };
    unit::<B>(env, TuState { s, ..st }, x, y, xbase, ybase, log2, blk_idx, luma, cb, cr)
}

/// §7.3.8.8: the transform tree of a block.
#[verifier::opaque]
pub open spec fn tree<B: BinDecoder>(
    env: TreeEnv,
    st: TuState<B::State>,
    x: int,
    y: int,
    xbase: int,
    ybase: int,
    log2: int,
    depth: int,
    blk_idx: int,
    parent_cb: bool,
    parent_cr: bool,
) -> Outcome<B::State>
    decreases log2,
{
    let (s1, split) = split_flag::<B>(env, st.s, log2, depth);
    let (s2, cb) = chroma_cbf::<B>(s1, log2, depth, parent_cb);
    let (s3, cr) = chroma_cbf::<B>(s2, log2, depth, parent_cr);
    let st3 = TuState { s: s3, ..st };
    if !split {
        leaf::<B>(env, st3, x, y, xbase, ybase, log2, depth, blk_idx, cb, cr)
    } else if log2 <= 0 {
        (st3, None)
    } else {
        let half = pow2((log2 - 1) as nat) as int;
        let l = log2 - 1;
        let d = depth + 1;
        let q0 = tree::<B>(env, st3, x, y, x, y, l, d, 0, cb, cr);
        let q1 = if q0.1 is Some {
            q0
        } else {
            tree::<B>(env, q0.0, x + half, y, x, y, l, d, 1, cb, cr)
        };
        let q2 = if q1.1 is Some {
            q1
        } else {
            tree::<B>(env, q1.0, x, y + half, x, y, l, d, 2, cb, cr)
        };
        if q2.1 is Some {
            q2
        } else {
            tree::<B>(env, q2.0, x + half, y + half, x, y, l, d, 3, cb, cr)
        }
    }
}

/// The transform trees of the four quarters of a block.
pub open spec fn quarters<B: BinDecoder>(
    env: TreeEnv,
    st: TuState<B::State>,
    x: int,
    y: int,
    log2: int,
    depth: int,
    cb: bool,
    cr: bool,
) -> Outcome<B::State> {
    if log2 <= 0 {
        (st, None)
    } else {
        let half = pow2((log2 - 1) as nat) as int;
        let l = log2 - 1;
        let d = depth + 1;
        let a = tree::<B>(env, st, x, y, x, y, l, d, 0, cb, cr);
        let b = next_tree::<B>(a, env, x + half, y, x, y, l, d, 1, cb, cr);
        let c = next_tree::<B>(b, env, x, y + half, x, y, l, d, 2, cb, cr);
        next_tree::<B>(c, env, x + half, y + half, x, y, l, d, 3, cb, cr)
    }
}

/// A transform tree after what came before it, unless that failed.
pub open spec fn next_tree<B: BinDecoder>(
    o: Outcome<B::State>,
    env: TreeEnv,
    x: int,
    y: int,
    xbase: int,
    ybase: int,
    log2: int,
    depth: int,
    blk_idx: int,
    cb: bool,
    cr: bool,
) -> Outcome<B::State> {
    if o.1 is Some {
        o
    } else {
        tree::<B>(env, o.0, x, y, xbase, ybase, log2, depth, blk_idx, cb, cr)
    }
}

/// A transform tree is its four quarters or a leaf.
proof fn lemma_tree<B: BinDecoder>(
    env: TreeEnv,
    st: TuState<B::State>,
    x: int,
    y: int,
    xbase: int,
    ybase: int,
    log2: int,
    depth: int,
    blk_idx: int,
    parent_cb: bool,
    parent_cr: bool,
)
    ensures
        tree::<B>(
            env,
            st,
            x,
            y,
            xbase,
            ybase,
            log2,
            depth,
            blk_idx,
            parent_cb,
            parent_cr,
        ) == ({
            let (s1, split) = split_flag::<B>(env, st.s, log2, depth);
            let (s2, cb) = chroma_cbf::<B>(s1, log2, depth, parent_cb);
            let (s3, cr) = chroma_cbf::<B>(s2, log2, depth, parent_cr);
            let st3 = TuState { s: s3, ..st };
            if split {
                quarters::<B>(env, st3, x, y, log2, depth, cb, cr)
            } else {
                leaf::<B>(env, st3, x, y, xbase, ybase, log2, depth, blk_idx, cb, cr)
            }
        }),
{
    reveal(tree);
}

// ---- what a transform tree covers ----

/// The luma sample (`px`, `py`) lies in the `n`×`n` block at (`x`, `y`).
pub open spec fn holds(x: int, y: int, n: int, px: int, py: int) -> bool {
    x <= px < x + n && y <= py < y + n
}

/// A step predicts the luma sample (`px`, `py`).
pub open spec fn predicts(step: TuStep, px: int, py: int) -> bool {
    step matches TuStep::Predict { c, x, y, n, .. } && c == 0 && holds(x, y, n, px, py)
}

/// The number of steps that predict the luma sample (`px`, `py`).
pub open spec fn predictions(ops: Seq<TuStep>, px: int, py: int) -> nat
    decreases ops.len(),
{
    if ops.len() == 0 {
        0
    } else {
        predictions(ops.drop_last(), px, py) + (if predicts(ops.last(), px, py) {
            1nat
        } else {
            0nat
        })
    }
}

proof fn lemma_predictions_push(ops: Seq<TuStep>, step: TuStep, px: int, py: int)
    ensures
        predictions(ops.push(step), px, py) == predictions(ops, px, py) + (if predicts(
            step,
            px,
            py,
        ) {
            1nat
        } else {
            0nat
        }),
{
    assert(ops.push(step).drop_last() =~= ops);
}

/// One component's block predicts its samples once where the unit is intra.
proof fn lemma_component_predictions<B: BinDecoder>(
    env: TreeEnv,
    st: TuState<B::State>,
    c: int,
    x: int,
    y: int,
    log2: int,
    mode: u8,
    cbf: bool,
    px: int,
    py: int,
)
    requires
        env.cu.intra,
    ensures
        predictions(component::<B>(env, st, c, x, y, log2, mode, cbf).0.ops, px, py)
            == predictions(st.ops, px, py) + (if c == 0 && holds(
            x,
            y,
            pow2(log2 as nat) as int,
            px,
            py,
        ) {
            1nat
        } else {
            0nat
        }),
{
    let n = pow2(log2 as nat) as int;
    let (xb, yb) = if c == 0 {
        (x, y)
    } else {
        (x / 2, y / 2)
    };
    let p = TuStep::Predict { c, x: xb, y: yb, n, mode, residual_follows: cbf };
    let ops1 = st.ops.push(p);
    lemma_predictions_push(st.ops, p, px, py);
    if cbf {
        let q = residual::parsed_block::<B>(st.s, env.residual_params(), log2, c, mode as int);
        let r = TuStep::Residual {
            x,
            y,
            log2,
            c,
            qp_y: st.qp_y,
            transform_skip: q.transform_skip,
            fill: q.fill,
        };
        lemma_predictions_push(ops1, r, px, py);
    }
}

/// A leaf predicts the luma samples of its block once.
proof fn lemma_leaf_predictions<B: BinDecoder>(
    env: TreeEnv,
    st: TuState<B::State>,
    x: int,
    y: int,
    xbase: int,
    ybase: int,
    log2: int,
    depth: int,
    blk_idx: int,
    cb: bool,
    cr: bool,
    px: int,
    py: int,
)
    requires
        env.cu.intra,
    ensures
        ({
            let o = leaf::<B>(env, st, x, y, xbase, ybase, log2, depth, blk_idx, cb, cr);
            o.1 is None ==> predictions(o.0.ops, px, py) == predictions(st.ops, px, py) + (
            if holds(x, y, pow2(log2 as nat) as int, px, py) {
                1nat
            } else {
                0nat
            })
        }),
{
    let (s, luma) = B::ctx_bin(st.s, CTX_CBF_LUMA + (if depth == 0 {
        1int
    } else {
        0
    }));
    let st0 = TuState { s, ..st };
    let o1: Outcome<B::State> = if (luma || cb || cr) && env.pps.cu_qp_delta_enabled
        && !st0.delta_coded {
        with_delta::<B>(env, st0)
    } else {
        (st0, None)
    };
    assert(o1.0.ops == st.ops);
    let n = pow2(log2 as nat) as int;
    let st1 = TuState { edges: edges_marked(o1.0.edges, env.w4, x, y, n), ..o1.0 };
    let mode = env.modes[(y / 4) * env.w4 + x / 4];
    lemma_component_predictions::<B>(env, st1, 0, x, y, log2, mode, luma, px, py);
    let o2 = luma_part::<B>(env, o1.0, x, y, log2, luma);
    let cm = env.cu.intra_chroma_mode;
    let (cx, cy, cl) = if log2 > 2 {
        (x, y, log2 - 1)
    } else {
        (xbase, ybase, 2int)
    };
    lemma_component_predictions::<B>(env, o2.0, 1, cx, cy, cl, cm, cb, px, py);
    let o3 = component::<B>(env, o2.0, 1, cx, cy, cl, cm, cb);
    lemma_component_predictions::<B>(env, o3.0, 2, cx, cy, cl, cm, cr, px, py);
}

/// The transform tree of an intra coding unit that reads without an error
/// predicts every luma sample of its block exactly once, and no other.
pub proof fn lemma_tree_tiles_its_block<B: BinDecoder>(
    env: TreeEnv,
    st: TuState<B::State>,
    x: int,
    y: int,
    xbase: int,
    ybase: int,
    log2: int,
    depth: int,
    blk_idx: int,
    parent_cb: bool,
    parent_cr: bool,
    px: int,
    py: int,
)
    requires
        env.cu.intra,
        2 <= env.sps.log2_min_tb_size <= env.sps.log2_max_tb_size,
        env.sps.log2_min_tb_size <= log2,
        depth >= 0,
        depth == 0 ==> env.sps.log2_min_tb_size < log2,
    ensures
        ({
            let o = tree::<B>(
                env,
                st,
                x,
                y,
                xbase,
                ybase,
                log2,
                depth,
                blk_idx,
                parent_cb,
                parent_cr,
            );
            o.1 is None ==> predictions(o.0.ops, px, py) == predictions(st.ops, px, py) + (
            if holds(x, y, pow2(log2 as nat) as int, px, py) {
                1nat
            } else {
                0nat
            })
        }),
    decreases log2,
{
    lemma_tree::<B>(
        env,
        st,
        x,
        y,
        xbase,
        ybase,
        log2,
        depth,
        blk_idx,
        parent_cb,
        parent_cr,
    );
    let (s1, split) = split_flag::<B>(env, st.s, log2, depth);
    let (s2, cb) = chroma_cbf::<B>(s1, log2, depth, parent_cb);
    let (s3, cr) = chroma_cbf::<B>(s2, log2, depth, parent_cr);
    let st3 = TuState { s: s3, ..st };
    if split {
        let half = pow2((log2 - 1) as nat) as int;
        lemma_pow2_adds((log2 - 1) as nat, 1);
        lemma2_to64();
        let l = log2 - 1;
        let d = depth + 1;
        lemma_tree_tiles_its_block::<B>(env, st3, x, y, x, y, l, d, 0, cb, cr, px, py);
        let q0 = tree::<B>(env, st3, x, y, x, y, l, d, 0, cb, cr);
        lemma_tree_tiles_its_block::<B>(env, q0.0, x + half, y, x, y, l, d, 1, cb, cr, px, py);
        let q1 = next_tree::<B>(q0, env, x + half, y, x, y, l, d, 1, cb, cr);
        lemma_tree_tiles_its_block::<B>(env, q1.0, x, y + half, x, y, l, d, 2, cb, cr, px, py);
        let q2 = next_tree::<B>(q1, env, x, y + half, x, y, l, d, 2, cb, cr);
        lemma_tree_tiles_its_block::<B>(
            env,
            q2.0,
            x + half,
            y + half,
            x,
            y,
            l,
            d,
            3,
            cb,
            cr,
            px,
            py,
        );
    } else {
        lemma_leaf_predictions::<B>(
            env,
            st3,
            x,
            y,
            xbase,
            ybase,
            log2,
            depth,
            blk_idx,
            cb,
            cr,
            px,
            py,
        );
    }
}

// ---- the transform units of a tree ----

/// A transform unit's luma block.
pub struct TuBlock {
    pub x: int,
    pub y: int,
    pub log2: int,
}

/// The transform units that a tree reads, in order.
#[verifier::opaque]
pub open spec fn units<B: BinDecoder>(
    env: TreeEnv,
    st: TuState<B::State>,
    x: int,
    y: int,
    log2: int,
    depth: int,
    parent_cb: bool,
    parent_cr: bool,
) -> Seq<TuBlock>
    decreases log2,
{
    let (s1, split) = split_flag::<B>(env, st.s, log2, depth);
    let (s2, cb) = chroma_cbf::<B>(s1, log2, depth, parent_cb);
    let (s3, cr) = chroma_cbf::<B>(s2, log2, depth, parent_cr);
    let st3 = TuState { s: s3, ..st };
    if !split {
        seq![TuBlock { x, y, log2 }]
    } else if log2 <= 0 {
        Seq::empty()
    } else {
        let half = pow2((log2 - 1) as nat) as int;
        let l = log2 - 1;
        let d = depth + 1;
        let (xh, yh) = (x + half, y + half);
        let q0 = tree::<B>(env, st3, x, y, x, y, l, d, 0, cb, cr);
        let q1 = next_tree::<B>(q0, env, xh, y, x, y, l, d, 1, cb, cr);
        let q2 = next_tree::<B>(q1, env, x, yh, x, y, l, d, 2, cb, cr);
        units::<B>(env, st3, x, y, l, d, cb, cr) + (if q0.1 is Some {
            Seq::empty()
        } else {
            units::<B>(env, q0.0, xh, y, l, d, cb, cr)
        }) + (if q1.1 is Some {
            Seq::empty()
        } else {
            units::<B>(env, q1.0, x, yh, l, d, cb, cr)
        }) + (if q2.1 is Some {
            Seq::empty()
        } else {
            units::<B>(env, q2.0, xh, yh, l, d, cb, cr)
        })
    }
}

/// The units of a tree after what came before it, unless that failed.
pub open spec fn next_units<B: BinDecoder>(
    o: Outcome<B::State>,
    env: TreeEnv,
    x: int,
    y: int,
    log2: int,
    depth: int,
    cb: bool,
    cr: bool,
) -> Seq<TuBlock> {
    if o.1 is Some {
        Seq::empty()
    } else {
        units::<B>(env, o.0, x, y, log2, depth, cb, cr)
    }
}

/// The units of a tree are those of its four quarters, or its only one.
proof fn lemma_units<B: BinDecoder>(
    env: TreeEnv,
    st: TuState<B::State>,
    x: int,
    y: int,
    log2: int,
    depth: int,
    parent_cb: bool,
    parent_cr: bool,
)
    ensures
        units::<B>(env, st, x, y, log2, depth, parent_cb, parent_cr) == ({
            let (s1, split) = split_flag::<B>(env, st.s, log2, depth);
            let (s2, cb) = chroma_cbf::<B>(s1, log2, depth, parent_cb);
            let (s3, cr) = chroma_cbf::<B>(s2, log2, depth, parent_cr);
            let st3 = TuState { s: s3, ..st };
            let half = pow2((log2 - 1) as nat) as int;
            let l = log2 - 1;
            let d = depth + 1;
            let (xh, yh) = (x + half, y + half);
            let q0 = tree::<B>(env, st3, x, y, x, y, l, d, 0, cb, cr);
            let q1 = next_tree::<B>(q0, env, xh, y, x, y, l, d, 1, cb, cr);
            let q2 = next_tree::<B>(q1, env, x, yh, x, y, l, d, 2, cb, cr);
            if !split {
                seq![TuBlock { x, y, log2 }]
            } else if log2 <= 0 {
                Seq::empty()
            } else {
                units::<B>(env, st3, x, y, l, d, cb, cr) + next_units::<B>(
                    q0,
                    env,
                    xh,
                    y,
                    l,
                    d,
                    cb,
                    cr,
                ) + next_units::<B>(q1, env, x, yh, l, d, cb, cr) + next_units::<B>(
                    q2,
                    env,
                    xh,
                    yh,
                    l,
                    d,
                    cb,
                    cr,
                )
            }
        }),
{
    reveal(units);
}

/// Every unit has a size that the parameter set allows, less than `2^below`.
pub open spec fn sizes_ok(us: Seq<TuBlock>, sps: Sps, below: int) -> bool {
    forall|i: int|
        #![trigger us[i]]
        0 <= i < us.len() ==> sps.log2_min_tb_size <= us[i].log2 <= sps.log2_max_tb_size
            && us[i].log2 < below
}

proof fn lemma_sizes_joined(a: Seq<TuBlock>, b: Seq<TuBlock>, sps: Sps, below: int)
    requires
        sizes_ok(a, sps, below),
        sizes_ok(b, sps, below),
    ensures
        sizes_ok(a + b, sps, below),
{
    assert forall|i: int| #![trigger (a + b)[i]] 0 <= i < (a + b).len() implies
        sps.log2_min_tb_size <= (a + b)[i].log2 <= sps.log2_max_tb_size && (a + b)[i].log2
        < below by {
        if i < a.len() {
            assert((a + b)[i] == a[i]);
        } else {
            assert((a + b)[i] == b[i - a.len()]);
        }
    }
}

/// Every transform unit of a tree, intra or inter, has a size that the parameter
/// set allows and is no larger than the tree's block; where the coding unit has
/// four luma prediction blocks, none has the size of the coding unit.
pub proof fn lemma_unit_sizes<B: BinDecoder>(
    env: TreeEnv,
    st: TuState<B::State>,
    x: int,
    y: int,
    log2: int,
    depth: int,
    parent_cb: bool,
    parent_cr: bool,
)
    requires
        2 <= env.sps.log2_min_tb_size <= env.sps.log2_max_tb_size,
        env.sps.log2_min_tb_size <= log2,
        depth >= 0,
        depth == 0 ==> env.sps.log2_min_tb_size < log2,
    ensures
        sizes_ok(
            units::<B>(env, st, x, y, log2, depth, parent_cb, parent_cr),
            env.sps,
            if env.cu.intra_split && depth == 0 {
                log2
            } else {
                log2 + 1
            },
        ),
    decreases log2,
{
    lemma_units::<B>(env, st, x, y, log2, depth, parent_cb, parent_cr);
    let (s1, split) = split_flag::<B>(env, st.s, log2, depth);
    let (s2, cb) = chroma_cbf::<B>(s1, log2, depth, parent_cb);
    let (s3, cr) = chroma_cbf::<B>(s2, log2, depth, parent_cr);
    let st3 = TuState { s: s3, ..st };
    let sps = env.sps;
    if split {
        let half = pow2((log2 - 1) as nat) as int;
        let l = log2 - 1;
        let d = depth + 1;
        let (xh, yh) = (x + half, y + half);
        let q0 = tree::<B>(env, st3, x, y, x, y, l, d, 0, cb, cr);
        let q1 = next_tree::<B>(q0, env, xh, y, x, y, l, d, 1, cb, cr);
        let q2 = next_tree::<B>(q1, env, x, yh, x, y, l, d, 2, cb, cr);
        lemma_unit_sizes::<B>(env, st3, x, y, l, d, cb, cr);
        lemma_unit_sizes::<B>(env, q0.0, xh, y, l, d, cb, cr);
        lemma_unit_sizes::<B>(env, q1.0, x, yh, l, d, cb, cr);
        lemma_unit_sizes::<B>(env, q2.0, xh, yh, l, d, cb, cr);
        let u0 = units::<B>(env, st3, x, y, l, d, cb, cr);
        let u1 = next_units::<B>(q0, env, xh, y, l, d, cb, cr);
        let u2 = next_units::<B>(q1, env, x, yh, l, d, cb, cr);
        let u3 = next_units::<B>(q2, env, xh, yh, l, d, cb, cr);
        lemma_sizes_joined(u0, u1, sps, log2);
        lemma_sizes_joined(u0 + u1, u2, sps, log2);
        lemma_sizes_joined(u0 + u1 + u2, u3, sps, log2);
    }
}

/// The number of units that hold the luma sample (`px`, `py`).
pub open spec fn covering(us: Seq<TuBlock>, px: int, py: int) -> nat
    decreases us.len(),
{
    if us.len() == 0 {
        0
    } else {
        let u = us.last();
        covering(us.drop_last(), px, py) + (if holds(u.x, u.y, pow2(u.log2 as nat) as int, px, py) {
            1nat
        } else {
            0nat
        })
    }
}

proof fn lemma_covering_joined(a: Seq<TuBlock>, b: Seq<TuBlock>, px: int, py: int)
    ensures
        covering(a + b, px, py) == covering(a, px, py) + covering(b, px, py),
    decreases b.len(),
{
    if b.len() == 0 {
        assert(a + b =~= a);
    } else {
        assert((a + b).drop_last() =~= a + b.drop_last());
        lemma_covering_joined(a, b.drop_last(), px, py);
    }
}

/// The transform units of a tree that reads without an error, intra or inter,
/// tile its block: each luma sample of it lies in exactly one, and no other
/// sample does.
pub proof fn lemma_units_tile_the_block<B: BinDecoder>(
    env: TreeEnv,
    st: TuState<B::State>,
    x: int,
    y: int,
    xbase: int,
    ybase: int,
    log2: int,
    depth: int,
    blk_idx: int,
    parent_cb: bool,
    parent_cr: bool,
    px: int,
    py: int,
)
    requires
        2 <= env.sps.log2_min_tb_size <= env.sps.log2_max_tb_size,
        env.sps.log2_min_tb_size <= log2,
        depth >= 0,
        depth == 0 ==> env.sps.log2_min_tb_size < log2,
    ensures
        ({
            let o = tree::<B>(
                env,
                st,
                x,
                y,
                xbase,
                ybase,
                log2,
                depth,
                blk_idx,
                parent_cb,
                parent_cr,
            );
            o.1 is None ==> covering(
                units::<B>(env, st, x, y, log2, depth, parent_cb, parent_cr),
                px,
                py,
            ) == (if holds(x, y, pow2(log2 as nat) as int, px, py) {
                1nat
            } else {
                0nat
            })
        }),
    decreases log2,
{
    lemma_tree::<B>(
        env,
        st,
        x,
        y,
        xbase,
        ybase,
        log2,
        depth,
        blk_idx,
        parent_cb,
        parent_cr,
    );
    lemma_units::<B>(env, st, x, y, log2, depth, parent_cb, parent_cr);
    let (s1, split) = split_flag::<B>(env, st.s, log2, depth);
    let (s2, cb) = chroma_cbf::<B>(s1, log2, depth, parent_cb);
    let (s3, cr) = chroma_cbf::<B>(s2, log2, depth, parent_cr);
    let st3 = TuState { s: s3, ..st };
    if split {
        let half = pow2((log2 - 1) as nat) as int;
        let l = log2 - 1;
        let d = depth + 1;
        let (xh, yh) = (x + half, y + half);
        let q0 = tree::<B>(env, st3, x, y, x, y, l, d, 0, cb, cr);
        let q1 = next_tree::<B>(q0, env, xh, y, x, y, l, d, 1, cb, cr);
        let q2 = next_tree::<B>(q1, env, x, yh, x, y, l, d, 2, cb, cr);
        lemma_pow2_adds((log2 - 1) as nat, 1);
        lemma2_to64();
        lemma_units_tile_the_block::<B>(env, st3, x, y, x, y, l, d, 0, cb, cr, px, py);
        lemma_units_tile_the_block::<B>(env, q0.0, xh, y, x, y, l, d, 1, cb, cr, px, py);
        lemma_units_tile_the_block::<B>(env, q1.0, x, yh, x, y, l, d, 2, cb, cr, px, py);
        lemma_units_tile_the_block::<B>(env, q2.0, xh, yh, x, y, l, d, 3, cb, cr, px, py);
        let u0 = units::<B>(env, st3, x, y, l, d, cb, cr);
        let u1 = next_units::<B>(q0, env, xh, y, l, d, cb, cr);
        let u2 = next_units::<B>(q1, env, x, yh, l, d, cb, cr);
        let u3 = next_units::<B>(q2, env, xh, yh, l, d, cb, cr);
        lemma_covering_joined(u0, u1, px, py);
        lemma_covering_joined(u0 + u1, u2, px, py);
        lemma_covering_joined(u0 + u1 + u2, u3, px, py);
    } else {
        let us = seq![TuBlock { x, y, log2 }];
        assert(us.drop_last() =~= Seq::empty());
        reveal_with_fuel(covering, 2);
    }
}

/// The transform edges of units marked one after the other.
pub open spec fn units_marked(edges: Seq<u8>, w4: int, us: Seq<TuBlock>) -> Seq<u8>
    decreases us.len(),
{
    if us.len() == 0 {
        edges
    } else {
        let u = us.last();
        edges_marked(
            units_marked(edges, w4, us.drop_last()),
            w4,
            u.x,
            u.y,
            pow2(u.log2 as nat) as int,
        )
    }
}

proof fn lemma_marked_joined(edges: Seq<u8>, w4: int, a: Seq<TuBlock>, b: Seq<TuBlock>)
    ensures
        units_marked(edges, w4, a + b) == units_marked(units_marked(edges, w4, a), w4, b),
    decreases b.len(),
{
    if b.len() == 0 {
        assert(a + b =~= a);
    } else {
        assert((a + b).drop_last() =~= a + b.drop_last());
        lemma_marked_joined(edges, w4, a, b.drop_last());
    }
}

/// A tree that reads without an error, intra or inter, marks the edges of its
/// transform units and no others.
pub proof fn lemma_tree_marks_its_units<B: BinDecoder>(
    env: TreeEnv,
    st: TuState<B::State>,
    x: int,
    y: int,
    xbase: int,
    ybase: int,
    log2: int,
    depth: int,
    blk_idx: int,
    parent_cb: bool,
    parent_cr: bool,
)
    ensures
        ({
            let o = tree::<B>(
                env,
                st,
                x,
                y,
                xbase,
                ybase,
                log2,
                depth,
                blk_idx,
                parent_cb,
                parent_cr,
            );
            o.1 is None ==> o.0.edges == units_marked(
                st.edges,
                env.w4,
                units::<B>(env, st, x, y, log2, depth, parent_cb, parent_cr),
            )
        }),
    decreases log2,
{
    lemma_tree::<B>(
        env,
        st,
        x,
        y,
        xbase,
        ybase,
        log2,
        depth,
        blk_idx,
        parent_cb,
        parent_cr,
    );
    lemma_units::<B>(env, st, x, y, log2, depth, parent_cb, parent_cr);
    let (s1, split) = split_flag::<B>(env, st.s, log2, depth);
    let (s2, cb) = chroma_cbf::<B>(s1, log2, depth, parent_cb);
    let (s3, cr) = chroma_cbf::<B>(s2, log2, depth, parent_cr);
    let st3 = TuState { s: s3, ..st };
    if split {
        if log2 > 0 {
            let half = pow2((log2 - 1) as nat) as int;
            let l = log2 - 1;
            let d = depth + 1;
            let (xh, yh) = (x + half, y + half);
            let q0 = tree::<B>(env, st3, x, y, x, y, l, d, 0, cb, cr);
            let q1 = next_tree::<B>(q0, env, xh, y, x, y, l, d, 1, cb, cr);
            let q2 = next_tree::<B>(q1, env, x, yh, x, y, l, d, 2, cb, cr);
            lemma_tree_marks_its_units::<B>(env, st3, x, y, x, y, l, d, 0, cb, cr);
            lemma_tree_marks_its_units::<B>(env, q0.0, xh, y, x, y, l, d, 1, cb, cr);
            lemma_tree_marks_its_units::<B>(env, q1.0, x, yh, x, y, l, d, 2, cb, cr);
            lemma_tree_marks_its_units::<B>(env, q2.0, xh, yh, x, y, l, d, 3, cb, cr);
            let u0 = units::<B>(env, st3, x, y, l, d, cb, cr);
            let u1 = next_units::<B>(q0, env, xh, y, l, d, cb, cr);
            let u2 = next_units::<B>(q1, env, x, yh, l, d, cb, cr);
            let u3 = next_units::<B>(q2, env, xh, yh, l, d, cb, cr);
            lemma_marked_joined(st.edges, env.w4, u0, u1);
            lemma_marked_joined(st.edges, env.w4, u0 + u1, u2);
            lemma_marked_joined(st.edges, env.w4, u0 + u1 + u2, u3);
        }
    } else {
        let us = seq![TuBlock { x, y, log2 }];
        assert(us.drop_last() =~= Seq::empty());
        reveal_with_fuel(units_marked, 2);
    }
}

/// A step of a transform unit: its luma block, or a chroma block of half the
/// size, but no less than 4×4.
pub open spec fn step_of(step: TuStep, u: TuBlock) -> bool {
    let half = if u.log2 > 2 {
        u.log2 - 1
    } else {
        2
    };
    match step {
        TuStep::Predict { c, x, y, n, .. } => if c == 0 {
            x == u.x && y == u.y && n == pow2(u.log2 as nat)
        } else {
            &&& 1 <= c <= 2
            &&& n == pow2(half as nat)
            &&& u.log2 > 2 ==> x == u.x / 2 && y == u.y / 2
        },
        TuStep::Residual { c, x, y, log2, .. } => if c == 0 {
            x == u.x && y == u.y && log2 == u.log2
        } else {
            &&& 1 <= c <= 2
            &&& log2 == half
            &&& u.log2 > 2 ==> x == u.x && y == u.y
        },
    }
}

/// Each step from `from` on is one of a unit.
pub open spec fn steps_within(ops: Seq<TuStep>, from: int, us: Seq<TuBlock>) -> bool {
    forall|i: int| from <= i < ops.len() ==> #[trigger] step_within(ops[i], us)
}

pub open spec fn step_within(step: TuStep, us: Seq<TuBlock>) -> bool {
    exists|j: int| 0 <= j < us.len() && step_of(step, #[trigger] us[j])
}

proof fn lemma_within_more(ops: Seq<TuStep>, from: int, us: Seq<TuBlock>, more: Seq<TuBlock>)
    requires
        steps_within(ops, from, us),
    ensures
        steps_within(ops, from, us + more),
{
    assert forall|i: int| from <= i < ops.len() implies #[trigger] step_within(
        ops[i],
        us + more,
    ) by {
        assert(step_within(ops[i], us));
        let j = choose|j: int| 0 <= j < us.len() && step_of(ops[i], #[trigger] us[j]);
        assert((us + more)[j] == us[j]);
    }
}

proof fn lemma_component_within<B: BinDecoder>(
    env: TreeEnv,
    st: TuState<B::State>,
    c: int,
    x: int,
    y: int,
    log2: int,
    mode: u8,
    cbf: bool,
    from: int,
    us: Seq<TuBlock>,
)
    requires
        0 <= c <= 2,
        0 <= from <= st.ops.len(),
        us.len() > 0,
        steps_within(st.ops, from, us),
        log2 == (if c == 0 || us.last().log2 <= 2 {
            if c == 0 {
                us.last().log2
            } else {
                2
            }
        } else {
            us.last().log2 - 1
        }),
        c == 0 || us.last().log2 > 2 ==> x == us.last().x && y == us.last().y,
    ensures
        ({
            let o = component::<B>(env, st, c, x, y, log2, mode, cbf).0;
            steps_within(o.ops, from, us) && st.ops.len() <= o.ops.len()
        }),
{
    let o = component::<B>(env, st, c, x, y, log2, mode, cbf).0;
    let k = us.len() - 1;
    assert forall|i: int| from <= i < o.ops.len() implies #[trigger] step_within(
        o.ops[i],
        us,
    ) by {
        if i < st.ops.len() {
            assert(o.ops[i] == st.ops[i]);
            assert(step_within(st.ops[i], us));
        } else {
            assert(step_of(o.ops[i], us[k]));
        }
    }
}

/// Every step that a tree, intra or inter, lists belongs to one of its transform
/// units (`before` are those read earlier).
pub proof fn lemma_steps_of_units<B: BinDecoder>(
    env: TreeEnv,
    st: TuState<B::State>,
    x: int,
    y: int,
    xbase: int,
    ybase: int,
    log2: int,
    depth: int,
    blk_idx: int,
    parent_cb: bool,
    parent_cr: bool,
    from: int,
    before: Seq<TuBlock>,
)
    requires
        0 <= from <= st.ops.len(),
        steps_within(st.ops, from, before),
    ensures
        ({
            let o = tree::<B>(
                env,
                st,
                x,
                y,
                xbase,
                ybase,
                log2,
                depth,
                blk_idx,
                parent_cb,
                parent_cr,
            );
            steps_within(
                o.0.ops,
                from,
                before + units::<B>(env, st, x, y, log2, depth, parent_cb, parent_cr),
            ) && st.ops.len() <= o.0.ops.len()
        }),
    decreases log2,
{
    lemma_tree::<B>(
        env,
        st,
        x,
        y,
        xbase,
        ybase,
        log2,
        depth,
        blk_idx,
        parent_cb,
        parent_cr,
    );
    lemma_units::<B>(env, st, x, y, log2, depth, parent_cb, parent_cr);
    let (s1, split) = split_flag::<B>(env, st.s, log2, depth);
    let (s2, cb) = chroma_cbf::<B>(s1, log2, depth, parent_cb);
    let (s3, cr) = chroma_cbf::<B>(s2, log2, depth, parent_cr);
    let st3 = TuState { s: s3, ..st };
    if split {
        if log2 > 0 {
            let half = pow2((log2 - 1) as nat) as int;
            let l = log2 - 1;
            let d = depth + 1;
            let (xh, yh) = (x + half, y + half);
            let q0 = tree::<B>(env, st3, x, y, x, y, l, d, 0, cb, cr);
            let q1 = next_tree::<B>(q0, env, xh, y, x, y, l, d, 1, cb, cr);
            let q2 = next_tree::<B>(q1, env, x, yh, x, y, l, d, 2, cb, cr);
            let u0 = units::<B>(env, st3, x, y, l, d, cb, cr);
            let u1 = next_units::<B>(q0, env, xh, y, l, d, cb, cr);
            let u2 = next_units::<B>(q1, env, x, yh, l, d, cb, cr);
            let u3 = next_units::<B>(q2, env, xh, yh, l, d, cb, cr);
            lemma_steps_of_units::<B>(env, st3, x, y, x, y, l, d, 0, cb, cr, from, before);
            let b1 = before + u0;
            if q0.1 is None {
                lemma_steps_of_units::<B>(env, q0.0, xh, y, x, y, l, d, 1, cb, cr, from, b1);
            } else {
                assert(b1 + u1 =~= b1);
            }
            let b2 = b1 + u1;
            if q1.1 is None {
                lemma_steps_of_units::<B>(env, q1.0, x, yh, x, y, l, d, 2, cb, cr, from, b2);
            } else {
                assert(b2 + u2 =~= b2);
            }
            let b3 = b2 + u2;
            if q2.1 is None {
                lemma_steps_of_units::<B>(env, q2.0, xh, yh, x, y, l, d, 3, cb, cr, from, b3);
            } else {
                assert(b3 + u3 =~= b3);
            }
            assert(b3 + u3 =~= before + (u0 + u1 + u2 + u3));
        } else {
            lemma_within_more(st.ops, from, before, Seq::empty());
        }
    } else {
        let us = before + seq![TuBlock { x, y, log2 }];
        lemma_within_more(st.ops, from, before, seq![TuBlock { x, y, log2 }]);
        let (s, luma) = if env.cu.intra || depth != 0 || cb || cr {
            B::ctx_bin(st3.s, CTX_CBF_LUMA + (if depth == 0 {
                1int
            } else {
                0
            }))
        } else {
            (st3.s, true)
        };
        let st4 = TuState { s, ..st3 };
        lemma_unit_within::<B>(
            env,
            st4,
            x,
            y,
            xbase,
            ybase,
            log2,
            blk_idx,
            luma,
            cb,
            cr,
            from,
            us,
        );
    }
}

proof fn lemma_luma_within<B: BinDecoder>(
    env: TreeEnv,
    st: TuState<B::State>,
    x: int,
    y: int,
    log2: int,
    cbf: bool,
    from: int,
    us: Seq<TuBlock>,
)
    requires
        0 <= from <= st.ops.len(),
        us.len() > 0,
        us.last() == (TuBlock { x, y, log2 }),
        steps_within(st.ops, from, us),
    ensures
        ({
            let o = luma_part::<B>(env, st, x, y, log2, cbf);
            steps_within(o.0.ops, from, us) && st.ops.len() <= o.0.ops.len()
        }),
{
    let n = pow2(log2 as nat) as int;
    let st1 = TuState { edges: edges_marked(st.edges, env.w4, x, y, n), ..st };
    let mode = env.modes[(y / 4) * env.w4 + x / 4];
    lemma_component_within::<B>(env, st1, 0, x, y, log2, mode, cbf, from, us);
}

proof fn lemma_chroma_within<B: BinDecoder>(
    env: TreeEnv,
    st: TuState<B::State>,
    x: int,
    y: int,
    log2: int,
    cbf_cb: bool,
    cbf_cr: bool,
    from: int,
    us: Seq<TuBlock>,
)
    requires
        0 <= from <= st.ops.len(),
        us.len() > 0,
        if us.last().log2 > 2 {
            x == us.last().x && y == us.last().y && log2 == us.last().log2 - 1
        } else {
            log2 == 2
        },
        steps_within(st.ops, from, us),
    ensures
        ({
            let o = chroma_part::<B>(env, st, x, y, log2, cbf_cb, cbf_cr);
            steps_within(o.0.ops, from, us) && st.ops.len() <= o.0.ops.len()
        }),
{
    let cm = env.cu.intra_chroma_mode;
    lemma_component_within::<B>(env, st, 1, x, y, log2, cm, cbf_cb, from, us);
    let o = component::<B>(env, st, 1, x, y, log2, cm, cbf_cb);
    lemma_component_within::<B>(env, o.0, 2, x, y, log2, cm, cbf_cr, from, us);
}

proof fn lemma_unit_within<B: BinDecoder>(
    env: TreeEnv,
    st: TuState<B::State>,
    x: int,
    y: int,
    xbase: int,
    ybase: int,
    log2: int,
    blk_idx: int,
    cbf_luma: bool,
    cbf_cb: bool,
    cbf_cr: bool,
    from: int,
    us: Seq<TuBlock>,
)
    requires
        0 <= from <= st.ops.len(),
        us.len() > 0,
        us.last() == (TuBlock { x, y, log2 }),
        steps_within(st.ops, from, us),
    ensures
        ({
            let o = unit::<B>(
                env,
                st,
                x,
                y,
                xbase,
                ybase,
                log2,
                blk_idx,
                cbf_luma,
                cbf_cb,
                cbf_cr,
            );
            steps_within(o.0.ops, from, us) && st.ops.len() <= o.0.ops.len()
        }),
{
    let o1: Outcome<B::State> = if (cbf_luma || cbf_cb || cbf_cr) && env.pps.cu_qp_delta_enabled
        && !st.delta_coded {
        with_delta::<B>(env, st)
    } else {
        (st, None)
    };
    assert(o1.0.ops == st.ops);
    lemma_luma_within::<B>(env, o1.0, x, y, log2, cbf_luma, from, us);
    let o2 = luma_part::<B>(env, o1.0, x, y, log2, cbf_luma);
    if log2 > 2 {
        lemma_chroma_within::<B>(env, o2.0, x, y, log2 - 1, cbf_cb, cbf_cr, from, us);
    } else {
        lemma_chroma_within::<B>(env, o2.0, xbase, ybase, 2, cbf_cb, cbf_cr, from, us);
    }
}

/// `QpY` in its range.
pub open spec fn qp_ok(qp_y: int, sps: Sps) -> bool {
    -sps.qp_bd_offset_y <= qp_y <= 51
}

/// The residual steps from `from` on, and those to come, have quantization
/// parameters in range.
#[verifier::opaque]
pub open spec fn qps_ok<S>(st: TuState<S>, from: int, sps: Sps) -> bool {
    &&& qp_ok(st.qp_y, sps)
    &&& forall|i: int|
        #![trigger st.ops[i]]
        from <= i < st.ops.len() ==> (st.ops[i] matches TuStep::Residual { qp_y, .. } ==> qp_ok(
            qp_y,
            sps,
        ))
}

proof fn lemma_component_qps<B: BinDecoder>(
    env: TreeEnv,
    st: TuState<B::State>,
    c: int,
    x: int,
    y: int,
    log2: int,
    mode: u8,
    cbf: bool,
    from: int,
)
    requires
        0 <= from <= st.ops.len(),
        qps_ok(st, from, env.sps),
    ensures
        ({
            let o = component::<B>(env, st, c, x, y, log2, mode, cbf).0;
            qps_ok(o, from, env.sps) && st.ops.len() <= o.ops.len()
        }),
{
    reveal(qps_ok);
    let o = component::<B>(env, st, c, x, y, log2, mode, cbf).0;
    assert forall|i: int| #![trigger o.ops[i]] from <= i < o.ops.len() implies (
    o.ops[i] matches TuStep::Residual { qp_y, .. } ==> qp_ok(qp_y, env.sps)) by {
        if i < st.ops.len() {
            assert(o.ops[i] == st.ops[i]);
        }
    }
}

proof fn lemma_delta_qps<B: BinDecoder>(env: TreeEnv, st: TuState<B::State>, from: int)
    requires
        env.sps.qp_bd_offset_y >= 0,
        qps_ok(st, from, env.sps),
    ensures
        qps_ok(with_delta::<B>(env, st).0, from, env.sps),
        with_delta::<B>(env, st).0.ops == st.ops,
{
    reveal(qps_ok);
    let d = with_delta::<B>(env, st).0.delta;
    let off = env.sps.qp_bd_offset_y as int;
    vstd::arithmetic::div_mod::lemma_mod_bound(env.cu.qp_y_pred + d + 52 + 2 * off, 52 + off);
}

proof fn lemma_luma_qps<B: BinDecoder>(
    env: TreeEnv,
    st: TuState<B::State>,
    x: int,
    y: int,
    log2: int,
    cbf: bool,
    from: int,
)
    requires
        0 <= from <= st.ops.len(),
        qps_ok(st, from, env.sps),
    ensures
        ({
            let o = luma_part::<B>(env, st, x, y, log2, cbf);
            qps_ok(o.0, from, env.sps) && st.ops.len() <= o.0.ops.len()
        }),
{
    let n = pow2(log2 as nat) as int;
    let st1 = TuState { edges: edges_marked(st.edges, env.w4, x, y, n), ..st };
    let mode = env.modes[(y / 4) * env.w4 + x / 4];
    assert(qps_ok(st1, from, env.sps)) by {
        reveal(qps_ok);
    }
    lemma_component_qps::<B>(env, st1, 0, x, y, log2, mode, cbf, from);
    reveal(qps_ok);
}

proof fn lemma_chroma_qps<B: BinDecoder>(
    env: TreeEnv,
    st: TuState<B::State>,
    x: int,
    y: int,
    log2: int,
    cbf_cb: bool,
    cbf_cr: bool,
    from: int,
)
    requires
        0 <= from <= st.ops.len(),
        qps_ok(st, from, env.sps),
    ensures
        ({
            let o = chroma_part::<B>(env, st, x, y, log2, cbf_cb, cbf_cr);
            qps_ok(o.0, from, env.sps) && st.ops.len() <= o.0.ops.len()
        }),
{
    let cm = env.cu.intra_chroma_mode;
    lemma_component_qps::<B>(env, st, 1, x, y, log2, cm, cbf_cb, from);
    let o = component::<B>(env, st, 1, x, y, log2, cm, cbf_cb);
    lemma_component_qps::<B>(env, o.0, 2, x, y, log2, cm, cbf_cr, from);
}

proof fn lemma_unit_qps<B: BinDecoder>(
    env: TreeEnv,
    st: TuState<B::State>,
    x: int,
    y: int,
    xbase: int,
    ybase: int,
    log2: int,
    blk_idx: int,
    cbf_luma: bool,
    cbf_cb: bool,
    cbf_cr: bool,
    from: int,
)
    requires
        env.sps.qp_bd_offset_y >= 0,
        0 <= from <= st.ops.len(),
        qps_ok(st, from, env.sps),
    ensures
        ({
            let o = unit::<B>(
                env,
                st,
                x,
                y,
                xbase,
                ybase,
                log2,
                blk_idx,
                cbf_luma,
                cbf_cb,
                cbf_cr,
            );
            qps_ok(o.0, from, env.sps) && st.ops.len() <= o.0.ops.len()
        }),
{
    lemma_delta_qps::<B>(env, st, from);
    let o1: Outcome<B::State> = if (cbf_luma || cbf_cb || cbf_cr) && env.pps.cu_qp_delta_enabled
        && !st.delta_coded {
        with_delta::<B>(env, st)
    } else {
        (st, None)
    };
    lemma_luma_qps::<B>(env, o1.0, x, y, log2, cbf_luma, from);
    let o2 = luma_part::<B>(env, o1.0, x, y, log2, cbf_luma);
    if log2 > 2 {
        lemma_chroma_qps::<B>(env, o2.0, x, y, log2 - 1, cbf_cb, cbf_cr, from);
    } else {
        lemma_chroma_qps::<B>(env, o2.0, xbase, ybase, 2, cbf_cb, cbf_cr, from);
    }
}

/// A tree, intra or inter, whatever change it codes, keeps quantization
/// parameters in range.
pub proof fn lemma_tree_qps<B: BinDecoder>(
    env: TreeEnv,
    st: TuState<B::State>,
    x: int,
    y: int,
    xbase: int,
    ybase: int,
    log2: int,
    depth: int,
    blk_idx: int,
    parent_cb: bool,
    parent_cr: bool,
    from: int,
)
    requires
        env.sps.qp_bd_offset_y >= 0,
        0 <= from <= st.ops.len(),
        qps_ok(st, from, env.sps),
    ensures
        ({
            let o = tree::<B>(
                env,
                st,
                x,
                y,
                xbase,
                ybase,
                log2,
                depth,
                blk_idx,
                parent_cb,
                parent_cr,
            );
            qps_ok(o.0, from, env.sps) && st.ops.len() <= o.0.ops.len()
        }),
    decreases log2,
{
    lemma_tree::<B>(
        env,
        st,
        x,
        y,
        xbase,
        ybase,
        log2,
        depth,
        blk_idx,
        parent_cb,
        parent_cr,
    );
    let (s1, split) = split_flag::<B>(env, st.s, log2, depth);
    let (s2, cb) = chroma_cbf::<B>(s1, log2, depth, parent_cb);
    let (s3, cr) = chroma_cbf::<B>(s2, log2, depth, parent_cr);
    let st3 = TuState { s: s3, ..st };
    assert(qps_ok(st3, from, env.sps)) by {
        reveal(qps_ok);
    }
    if split {
        if log2 > 0 {
            let half = pow2((log2 - 1) as nat) as int;
            let l = log2 - 1;
            let d = depth + 1;
            let (xh, yh) = (x + half, y + half);
            let q0 = tree::<B>(env, st3, x, y, x, y, l, d, 0, cb, cr);
            let q1 = next_tree::<B>(q0, env, xh, y, x, y, l, d, 1, cb, cr);
            let q2 = next_tree::<B>(q1, env, x, yh, x, y, l, d, 2, cb, cr);
            lemma_tree_qps::<B>(env, st3, x, y, x, y, l, d, 0, cb, cr, from);
            lemma_tree_qps::<B>(env, q0.0, xh, y, x, y, l, d, 1, cb, cr, from);
            lemma_tree_qps::<B>(env, q1.0, x, yh, x, y, l, d, 2, cb, cr, from);
            lemma_tree_qps::<B>(env, q2.0, xh, yh, x, y, l, d, 3, cb, cr, from);
        }
    } else {
        let (s, luma) = if env.cu.intra || depth != 0 || cb || cr {
            B::ctx_bin(st3.s, CTX_CBF_LUMA + (if depth == 0 {
                1int
            } else {
                0
            }))
        } else {
            (st3.s, true)
        };
        let st4 = TuState { s, ..st3 };
        assert(qps_ok(st4, from, env.sps)) by {
            reveal(qps_ok);
        }
        lemma_unit_qps::<B>(
            env,
            st4,
            x,
            y,
            xbase,
            ybase,
            log2,
            blk_idx,
            luma,
            cb,
            cr,
            from,
        );
    }
}

/// Every residual step of a transform unit can be planned: what it asks for has
/// a size, a component and a quantization parameter in range, as far as the
/// chroma offsets of picture and slice can be added to it.
pub proof fn lemma_residual_can_be_planned(
    op: TuOp,
    b: ResidualOf,
    us: Seq<TuBlock>,
    below: int,
    sps: Sps,
    pps: Pps,
)
    requires
        sps.wf(),
        sizes_ok(us, sps, below),
        step_within(op.step(), us),
        op matches TuOp::Residual { log2, c, qp_y, .. } && {
            &&& qp_ok(qp_y as int, sps)
            &&& b.log2 == log2
            &&& b.c_idx == c
            &&& b.qp_y == qp_y
        },
        b.c_idx > 0 ==> ({
            let off = recon::qp_offset(
                pps,
                b.slice_cb_qp_offset as int,
                b.slice_cr_qp_offset as int,
                b.c_idx as int,
            );
            i32::MIN <= off <= i32::MAX && i32::MIN <= b.qp_y + off <= i32::MAX
        }),
    ensures
        b.wf(sps, pps),
{
    let j = choose|j: int| 0 <= j < us.len() && step_of(op.step(), #[trigger] us[j]);
    assert(2 <= us[j].log2 <= 5);
}

// ---- predictions and their residuals ----

/// A residual that is announced by a prediction: that of the same block of the
/// same component.
pub open spec fn residual_of(p: TuStep, r: TuStep) -> bool {
    match (p, r) {
        (
            TuStep::Predict { c, x, y, n, residual_follows, .. },
            TuStep::Residual { x: rx, y: ry, log2, c: rc, .. },
        ) => {
            &&& residual_follows
            &&& c == rc
            &&& n == pow2(log2 as nat)
            &&& if c == 0 {
                x == rx && y == ry
            } else {
                x == rx / 2 && y == ry / 2
            }
        },
        _ => false,
    }
}

/// A prediction that announces a residual has it next, and a residual comes
/// directly after the prediction that announces it, among the steps from
/// `from` on.
pub open spec fn well_placed(ops: Seq<TuStep>, from: int, i: int) -> bool {
    match ops[i] {
        TuStep::Predict { residual_follows, .. } => residual_follows ==> i + 1 < ops.len()
            && residual_of(ops[i], ops[i + 1]),
        TuStep::Residual { .. } => from < i && residual_of(ops[i - 1], ops[i]),
    }
}

/// Each prediction from step `from` on is followed by its residual if and only
/// if it says so, and each residual follows its prediction.
pub open spec fn paired(ops: Seq<TuStep>, from: int) -> bool {
    forall|i: int| from <= i < ops.len() ==> #[trigger] well_placed(ops, from, i)
}

proof fn lemma_component_paired<B: BinDecoder>(
    env: TreeEnv,
    st: TuState<B::State>,
    c: int,
    x: int,
    y: int,
    log2: int,
    mode: u8,
    cbf: bool,
    from: int,
)
    requires
        env.cu.intra,
        0 <= from <= st.ops.len(),
        paired(st.ops, from),
    ensures
        ({
            let o = component::<B>(env, st, c, x, y, log2, mode, cbf);
            o.1 is None ==> paired(o.0.ops, from) && st.ops.len() <= o.0.ops.len()
        }),
{
    let o = component::<B>(env, st, c, x, y, log2, mode, cbf);
    if o.1 is None {
        assert forall|i: int| from <= i < o.0.ops.len() implies #[trigger] well_placed(
            o.0.ops,
            from,
            i,
        ) by {
            if i < st.ops.len() {
                assert(well_placed(st.ops, from, i));
            }
        }
    }
}

/// In a transform unit of an intra coding unit that reads without an error,
/// each prediction that announces a residual is followed at once by the
/// residual of the same component and block, and no other step is a residual.
pub proof fn lemma_unit_paired<B: BinDecoder>(
    env: TreeEnv,
    st: TuState<B::State>,
    x: int,
    y: int,
    xbase: int,
    ybase: int,
    log2: int,
    blk_idx: int,
    cbf_luma: bool,
    cbf_cb: bool,
    cbf_cr: bool,
    from: int,
)
    requires
        env.cu.intra,
        0 <= from <= st.ops.len(),
        paired(st.ops, from),
    ensures
        ({
            let o = unit::<B>(
                env,
                st,
                x,
                y,
                xbase,
                ybase,
                log2,
                blk_idx,
                cbf_luma,
                cbf_cb,
                cbf_cr,
            );
            o.1 is None ==> paired(o.0.ops, from) && st.ops.len() <= o.0.ops.len()
        }),
{
    let o1: Outcome<B::State> = if (cbf_luma || cbf_cb || cbf_cr) && env.pps.cu_qp_delta_enabled
        && !st.delta_coded {
        with_delta::<B>(env, st)
    } else {
        (st, None)
    };
    assert(o1.0.ops == st.ops);
    let n = pow2(log2 as nat) as int;
    let st1 = TuState { edges: edges_marked(o1.0.edges, env.w4, x, y, n), ..o1.0 };
    let mode = env.modes[(y / 4) * env.w4 + x / 4];
    lemma_component_paired::<B>(env, st1, 0, x, y, log2, mode, cbf_luma, from);
    let o2 = luma_part::<B>(env, o1.0, x, y, log2, cbf_luma);
    if o2.1 is None {
        let cm = env.cu.intra_chroma_mode;
        let (cx, cy, cl) = if log2 > 2 {
            (x, y, log2 - 1)
        } else {
            (xbase, ybase, 2int)
        };
        lemma_component_paired::<B>(env, o2.0, 1, cx, cy, cl, cm, cbf_cb, from);
        let o3 = component::<B>(env, o2.0, 1, cx, cy, cl, cm, cbf_cb);
        if o3.1 is None {
            lemma_component_paired::<B>(env, o3.0, 2, cx, cy, cl, cm, cbf_cr, from);
        }
    }
}

/// The same of the transform tree of an intra coding unit: read without an
/// error, it keeps predictions and residuals paired.
pub proof fn lemma_tree_paired<B: BinDecoder>(
    env: TreeEnv,
    st: TuState<B::State>,
    x: int,
    y: int,
    xbase: int,
    ybase: int,
    log2: int,
    depth: int,
    blk_idx: int,
    parent_cb: bool,
    parent_cr: bool,
    from: int,
)
    requires
        env.cu.intra,
        0 <= from <= st.ops.len(),
        paired(st.ops, from),
    ensures
        ({
            let o = tree::<B>(
                env,
                st,
                x,
                y,
                xbase,
                ybase,
                log2,
                depth,
                blk_idx,
                parent_cb,
                parent_cr,
            );
            o.1 is None ==> paired(o.0.ops, from) && st.ops.len() <= o.0.ops.len()
        }),
    decreases log2,
{
    lemma_tree::<B>(
        env,
        st,
        x,
        y,
        xbase,
        ybase,
        log2,
        depth,
        blk_idx,
        parent_cb,
        parent_cr,
    );
    let (s1, split) = split_flag::<B>(env, st.s, log2, depth);
    let (s2, cb) = chroma_cbf::<B>(s1, log2, depth, parent_cb);
    let (s3, cr) = chroma_cbf::<B>(s2, log2, depth, parent_cr);
    let st3 = TuState { s: s3, ..st };
    if split {
        if log2 > 0 {
            let half = pow2((log2 - 1) as nat) as int;
            let l = log2 - 1;
            let d = depth + 1;
            lemma_tree_paired::<B>(env, st3, x, y, x, y, l, d, 0, cb, cr, from);
            let q0 = tree::<B>(env, st3, x, y, x, y, l, d, 0, cb, cr);
            if q0.1 is None {
                lemma_tree_paired::<B>(env, q0.0, x + half, y, x, y, l, d, 1, cb, cr, from);
            }
            let q1 = next_tree::<B>(q0, env, x + half, y, x, y, l, d, 1, cb, cr);
            if q1.1 is None {
                lemma_tree_paired::<B>(env, q1.0, x, y + half, x, y, l, d, 2, cb, cr, from);
            }
            let q2 = next_tree::<B>(q1, env, x, y + half, x, y, l, d, 2, cb, cr);
            if q2.1 is None {
                let (xh, yh) = (x + half, y + half);
                lemma_tree_paired::<B>(env, q2.0, xh, yh, x, y, l, d, 3, cb, cr, from);
            }
        }
    } else {
        let (s, luma) = B::ctx_bin(st3.s, CTX_CBF_LUMA + (if depth == 0 {
            1int
        } else {
            0
        }));
        let st4 = TuState { s, ..st3 };
        lemma_unit_paired::<B>(
            env,
            st4,
            x,
            y,
            xbase,
            ybase,
            log2,
            blk_idx,
            luma,
            cb,
            cr,
            from,
        );
    }
}

/// The reader of one slice's transform trees.
pub struct SliceDecoder<B: BinDecoder> {
    pub sps: Arc<Sps>,
    pub pps: Arc<Pps>,
    pub st: PicState,
    pub cab: B,
    pub cu: CodingUnit,
    pub is_cu_qp_delta_coded: bool,
    pub cu_qp_delta_val: i32,
    pub qp_y: i32,
    /// The steps read so far.
    pub ops: Vec<TuOp>,
}

/// Everything but the maps that the transform tree writes is the same.
pub open spec fn same_but_tree_maps(a: PicState, b: PicState) -> bool {
    &&& a.width == b.width
    &&& a.height == b.height
    &&& a.w4 == b.w4
    &&& a.h4 == b.h4
    &&& a.log2_ctb == b.log2_ctb
    &&& a.ctb_w == b.ctb_w
    &&& a.ctb_h == b.ctb_h
    &&& a.zs == b.zs
    &&& a.slice_addr == b.slice_addr
    &&& a.ctb_slice == b.ctb_slice
    &&& a.tile_id == b.tile_id
    &&& a.pred_mode == b.pred_mode
    &&& a.intra_mode == b.intra_mode
    &&& a.ct_depth == b.ct_depth
    &&& a.filter_bypass == b.filter_bypass
    &&& a.motion == b.motion
    &&& a.sao == b.sao
    &&& a.ctb_filter == b.ctb_filter
}

impl<B: BinDecoder> SliceDecoder<B> {
    /// The parameter sets are in range and the coding unit lies in the picture.
    #[verifier::opaque]
    pub open spec fn wf(self) -> bool {
        &&& self.sps.wf()
        &&& self.pps.wf()
        &&& self.st.wf()
        &&& self.cab.ready()
        &&& self.cu.x + self.cu.size <= self.st.width
        &&& self.cu.y + self.cu.size <= self.st.height
        &&& -self.sps.qp_bd_offset_y <= self.cu.qp_y_pred <= 51
    }

    pub open spec fn env(self) -> TreeEnv {
        TreeEnv {
            sps: *self.sps,
            pps: *self.pps,
            cu: self.cu,
            modes: self.st.intra_mode@,
            w4: self.st.w4 as int,
        }
    }

    pub open spec fn model(self) -> TuState<B::State> {
        TuState {
            s: self.cab.state(),
            delta_coded: self.is_cu_qp_delta_coded,
            delta: self.cu_qp_delta_val as int,
            qp_y: self.qp_y as int,
            edges: self.st.edges@,
            nz: self.st.nz@,
            qp_map: self.st.qp_y@,
            ops: steps(self.ops@),
        }
    }

    /// What reading a transform tree leaves alone.
    pub open spec fn frame(self, o: Self) -> bool {
        &&& self.sps == o.sps
        &&& self.pps == o.pps
        &&& self.cu == o.cu
        &&& same_but_tree_maps(self.st, o.st)
    }

    /// The result agrees with an outcome.
    pub open spec fn agrees(
        self,
        r: core::result::Result<(), Error>,
        o: Outcome<B::State>,
    ) -> bool {
        &&& self.model() == o.0
        &&& match r {
            Ok(_) => o.1 is None,
            Err(e) => o.1 matches Some(text) && e.says_invalid(text),
        }
    }

    /// The block at (`x`, `y`) is aligned to 4 and inside the picture.
    pub open spec fn block_inside(self, x: int, y: int, n: int) -> bool {
        &&& 0 <= x
        &&& 0 <= y
        &&& x % 4 == 0
        &&& y % 4 == 0
        &&& x + n <= self.st.width
        &&& y + n <= self.st.height
    }

    /// A rectangle inside the picture covers entries of the per-4×4 maps only.
    proof fn lemma_rect(self, x: int, y: int, w: int, h: int)
        requires
            self.st.shape_ok(),
            0 <= x,
            0 <= y,
            x + w <= self.st.width,
            y + h <= self.st.height,
        ensures
            forall|xx: int, yy: int|
                #![trigger pic::flat(xx, yy, self.st.w4 as int)]
                x / 4 <= xx < arith::ceil_div(x + w, 4) && y / 4 <= yy < arith::ceil_div(y + h, 4)
                    ==> pic::flat(xx, yy, self.st.w4 as int) < self.st.w4 * self.st.h4,
    {
        assert forall|xx: int, yy: int|
            #![trigger pic::flat(xx, yy, self.st.w4 as int)]
            x / 4 <= xx < arith::ceil_div(x + w, 4) && y / 4 <= yy < arith::ceil_div(
                y + h,
                4,
            ) implies pic::flat(xx, yy, self.st.w4 as int) < self.st.w4 * self.st.h4 by {
            arith::lemma_flat_bound(xx, yy, self.st.w4 as int, self.st.h4 as int);
        }
    }

    fn set_cu_qp(&mut self)
        requires
            old(self).wf(),
            -48 <= old(self).qp_y <= 51,
        ensures
            final(self).wf(),
            final(self).frame(*old(self)),
            final(self).model() == (TuState {
                qp_map: filled4(
                    old(self).st.qp_y@,
                    old(self).st.w4 as int,
                    old(self).cu.x as int,
                    old(self).cu.y as int,
                    old(self).cu.size as int,
                    old(self).cu.size as int,
                    old(self).qp_y as i8,
                ),
                ..old(self).model()
            }),
    {
        proof {
            reveal(SliceDecoder::wf);
        }
        proof {
            self.lemma_rect(
                self.cu.x as int,
                self.cu.y as int,
                self.cu.size as int,
                self.cu.size as int,
            );
        }
        let w4 = self.st.w4;
        let v = self.qp_y as i8;
        PicState::fill4(
            self.st.qp_y.as_mut_slice(),
            w4,
            self.cu.x,
            self.cu.y,
            self.cu.size,
            self.cu.size,
            v,
        );
        assert(self.model() =~= (TuState {
            qp_map: filled4(
                old(self).st.qp_y@,
                old(self).st.w4 as int,
                old(self).cu.x as int,
                old(self).cu.y as int,
                old(self).cu.size as int,
                old(self).cu.size as int,
                old(self).qp_y as i8,
            ),
            ..old(self).model()
        }));
    }

    /// Marks the left and top edges of a transform block.
    fn mark_edges(&mut self, x: usize, y: usize, n: usize)
        requires
            old(self).wf(),
            old(self).block_inside(x as int, y as int, n as int),
            4 <= n,
        ensures
            final(self).wf(),
            final(self).frame(*old(self)),
            final(self).model() == (TuState {
                edges: edges_marked(
                    old(self).st.edges@,
                    old(self).st.w4 as int,
                    x as int,
                    y as int,
                    n as int,
                ),
                ..old(self).model()
            }),
    {
        proof {
            reveal(SliceDecoder::wf);
        }
        let w4 = self.st.w4;
        let ghost e0 = self.st.edges@;
        proof {
            self.lemma_rect(x as int, y as int, 4, n as int);
            self.lemma_rect(x as int, y as int, n as int, 4);
            self.st.lemma_sizes();
        }
        or4(&mut self.st.edges, w4, x, y, 4, n, 1u8);
        or4(&mut self.st.edges, w4, x, y, n, 4, 2u8);
        proof {
            assert(self.st.edges@ =~= edges_marked(e0, w4 as int, x as int, y as int, n as int));
            assert(self.model() =~= (TuState {
                edges: edges_marked(e0, w4 as int, x as int, y as int, n as int),
                ..old(self).model()
            }));
        }
    }

    /// Reads a quantization parameter change and applies it.
    fn read_cu_qp_delta(&mut self) -> (r: core::result::Result<(), Error>)
        requires
            old(self).wf(),
        ensures
            final(self).wf(),
            final(self).frame(*old(self)),
            final(self).agrees(r, with_delta::<B>(old(self).env(), old(self).model())),
    {
        proof {
            reveal(SliceDecoder::wf);
        }
        let ghost m0 = self.model();
        let delta = match read_delta(&mut self.cab) {
            None => {
                assert(self.model() =~= (TuState { s: self.cab.state(), ..m0 }));
                return Err(Error::invalid("cu_qp_delta_abs"));
            },
            Some(d) => d,
        };
        self.is_cu_qp_delta_coded = true;
        self.cu_qp_delta_val = delta;
        let ghost m1 = self.model();
        assert(m1 =~= (TuState {
            s: self.cab.state(),
            delta_coded: true,
            delta: delta as int,
            ..m0
        }));
        let off = self.sps.qp_bd_offset_y;
        let lo = -(26 + off / 2);
        let hi = 25 + off / 2;
        if delta < lo || delta > hi {
            return Err(Error::invalid("CuQpDeltaVal out of range"));
        }
        self.qp_y = wrap_qp(self.cu.qp_y_pred + delta, off);
        self.set_cu_qp();
        Ok(())
    }

    /// Appends a step.
    fn push_op(&mut self, op: TuOp)
        requires
            old(self).wf(),
        ensures
            final(self).wf(),
            final(self).frame(*old(self)),
            final(self).model() == (TuState {
                ops: old(self).model().ops.push(op.step()),
                ..old(self).model()
            }),
    {
        proof {
            reveal(SliceDecoder::wf);
        }
        self.ops.push(op);
        assert(steps(self.ops@) =~= steps(old(self).ops@).push(op.step()));
    }

    /// One component's block: its prediction step, then its residual.
    fn component_block(
        &mut self,
        c: usize,
        x: usize,
        y: usize,
        log2: usize,
        mode: u8,
        cbf: bool,
    ) -> (r: core::result::Result<(), Error>)
        requires
            old(self).wf(),
            2 <= log2 <= 5,
            c <= 2,
        ensures
            final(self).wf(),
            final(self).frame(*old(self)),
            final(self).agrees(
                r,
                component::<B>(
                    old(self).env(),
                    old(self).model(),
                    c as int,
                    x as int,
                    y as int,
                    log2 as int,
                    mode,
                    cbf,
                ),
            ),
    {
        proof {
            reveal(SliceDecoder::wf);
        }
        let n = arith::pow2_usize(log2);
        if self.cu.intra {
            let (xb, yb) = if c == 0 {
                (x, y)
            } else {
                (x / 2, y / 2)
            };
            self.push_op(TuOp::Predict { c, x: xb, y: yb, n, mode, residual_follows: cbf });
        }
        if cbf {
            let ghost m1 = self.model();
            let params = ResidualParams {
                transform_skip_enabled: self.pps.transform_skip_enabled,
                log2_max_transform_skip_block_size: self.pps.log2_max_transform_skip_block_size,
                sign_data_hiding_enabled: self.pps.sign_data_hiding_enabled,
                cu_transquant_bypass: self.cu.transquant_bypass,
                cu_intra: self.cu.intra,
            };
            match residual::residual_block(&mut self.cab, &params, log2, c, mode) {
                Err(e) => {
                    assert(self.model() =~= (TuState { s: self.cab.state(), ..m1 }));
                    return Err(e);
                },
                Ok(block) => {
                    assert(self.model() =~= (TuState { s: self.cab.state(), ..m1 }));
                    let qp_y = self.qp_y;
                    self.push_op(TuOp::Residual { x, y, log2, c, qp_y, block });
                },
            }
        }
        Ok(())
    }

    fn luma_block(&mut self, x: usize, y: usize, log2: usize, cbf: bool) -> (r:
        core::result::Result<(), Error>)
        requires
            old(self).wf(),
            2 <= log2 <= 5,
            old(self).block_inside(x as int, y as int, pow2(log2 as nat) as int),
        ensures
            final(self).wf(),
            final(self).frame(*old(self)),
            final(self).agrees(
                r,
                luma_part::<B>(
                    old(self).env(),
                    old(self).model(),
                    x as int,
                    y as int,
                    log2 as int,
                    cbf,
                ),
            ),
    {
        proof {
            reveal(SliceDecoder::wf);
        }
        let n = arith::pow2_usize(log2);
        proof {
            lemma2_to64();
            arith::lemma_pow2_le(2, log2 as nat);
            self.st.lemma_inside(x as int, y as int);
        }
        self.mark_edges(x, y, n);
        let mode = self.st.intra_mode[self.st.idx4(x, y)];
        match self.component_block(0, x, y, log2, mode, cbf) {
            Err(e) => {
                return Err(e);
            },
            Ok(_) => {},
        }
        if cbf {
            let ghost m2 = self.model();
            proof {
                self.lemma_rect(x as int, y as int, n as int, n as int);
            }
            let w4 = self.st.w4;
            PicState::fill4(self.st.nz.as_mut_slice(), w4, x, y, n, n, 1u8);
            assert(self.model() =~= (TuState {
                nz: filled4(m2.nz, w4 as int, x as int, y as int, n as int, n as int, 1u8),
                ..m2
            }));
        }
        Ok(())
    }

    fn chroma_blocks(
        &mut self,
        x: usize,
        y: usize,
        log2: usize,
        cbf_cb: bool,
        cbf_cr: bool,
    ) -> (r: core::result::Result<(), Error>)
        requires
            old(self).wf(),
            2 <= log2 <= 5,
        ensures
            final(self).wf(),
            final(self).frame(*old(self)),
            final(self).agrees(
                r,
                chroma_part::<B>(
                    old(self).env(),
                    old(self).model(),
                    x as int,
                    y as int,
                    log2 as int,
                    cbf_cb,
                    cbf_cr,
                ),
            ),
    {
        let mode = self.cu.intra_chroma_mode;
        match self.component_block(1, x, y, log2, mode, cbf_cb) {
            Err(e) => Err(e),
            Ok(_) => self.component_block(2, x, y, log2, mode, cbf_cr),
        }
    }

    /// Reads one transform unit (§7.3.8.10).
    pub fn transform_unit(
        &mut self,
        x0: usize,
        y0: usize,
        xbase: usize,
        ybase: usize,
        log2: usize,
        blk_idx: usize,
        cbf_luma: bool,
        cbf_cb: bool,
        cbf_cr: bool,
    ) -> (r: core::result::Result<(), Error>)
        requires
            old(self).wf(),
            2 <= log2 <= 5,
            old(self).block_inside(x0 as int, y0 as int, pow2(log2 as nat) as int),
        ensures
            final(self).wf(),
            final(self).frame(*old(self)),
            final(self).agrees(
                r,
                unit::<B>(
                    old(self).env(),
                    old(self).model(),
                    x0 as int,
                    y0 as int,
                    xbase as int,
                    ybase as int,
                    log2 as int,
                    blk_idx as int,
                    cbf_luma,
                    cbf_cb,
                    cbf_cr,
                ),
            ),
    {
        if (cbf_luma || cbf_cb || cbf_cr) && self.pps.cu_qp_delta_enabled
            && !self.is_cu_qp_delta_coded {
            match self.read_cu_qp_delta() {
                Err(e) => {
                    return Err(e);
                },
                Ok(_) => {},
            }
        }
        match self.luma_block(x0, y0, log2, cbf_luma) {
            Err(e) => {
                return Err(e);
            },
            Ok(_) => {},
        }
        if log2 > 2 {
            self.chroma_blocks(x0, y0, log2 - 1, cbf_cb, cbf_cr)
        } else if blk_idx == 3 {
            self.chroma_blocks(xbase, ybase, 2, cbf_cb, cbf_cr)
        } else {
            Ok(())
        }
    }
}

/// The quarters of a block of 8 samples or more stay aligned to 4.
proof fn lemma_half(log2: nat, x: int)
    requires
        3 <= log2 <= 6,
        x % 4 == 0,
    ensures
        pow2(log2) == 2 * pow2((log2 - 1) as nat),
        4 <= pow2((log2 - 1) as nat) <= 32,
        (x + pow2((log2 - 1) as nat)) % 4 == 0,
{
    lemma2_to64();
    let half = pow2((log2 - 1) as nat) as int;
    assert(half == 4 || half == 8 || half == 16 || half == 32);
}

impl<B: BinDecoder> SliceDecoder<B> {
    /// Reads a transform tree (§7.3.8.8).
    pub fn transform_tree(
        &mut self,
        x0: usize,
        y0: usize,
        xbase: usize,
        ybase: usize,
        log2: usize,
        depth: u8,
        blk_idx: usize,
        parent_cbf_cb: bool,
        parent_cbf_cr: bool,
    ) -> (r: core::result::Result<(), Error>)
        requires
            old(self).wf(),
            old(self).sps.log2_min_tb_size <= log2,
            depth + log2 <= 6,
            depth == 0 ==> log2 > old(self).sps.log2_min_tb_size,
            old(self).block_inside(x0 as int, y0 as int, pow2(log2 as nat) as int),
        ensures
            final(self).wf(),
            final(self).frame(*old(self)),
            final(self).agrees(
                r,
                tree::<B>(
                    old(self).env(),
                    old(self).model(),
                    x0 as int,
                    y0 as int,
                    xbase as int,
                    ybase as int,
                    log2 as int,
                    depth as int,
                    blk_idx as int,
                    parent_cbf_cb,
                    parent_cbf_cr,
                ),
            ),
        decreases log2, 1int,
    {
        let split = self.read_split(log2, depth);
        let cbf_cb = self.read_chroma_cbf(log2, depth, parent_cbf_cb);
        let cbf_cr = self.read_chroma_cbf(log2, depth, parent_cbf_cr);
        proof {
            lemma_tree::<B>(
                old(self).env(),
                old(self).model(),
                x0 as int,
                y0 as int,
                xbase as int,
                ybase as int,
                log2 as int,
                depth as int,
                blk_idx as int,
                parent_cbf_cb,
                parent_cbf_cr,
            );
            assert(self.sps.log2_min_tb_size >= 2) by {
                reveal(SliceDecoder::wf);
            }
        }
        if split {
            self.transform_quarters(x0, y0, log2, depth, cbf_cb, cbf_cr)
        } else {
            self.transform_leaf(x0, y0, xbase, ybase, log2, depth, blk_idx, cbf_cb, cbf_cr)
        }
    }

    /// Reads the transform trees of the four quarters of a block.
    fn transform_quarters(
        &mut self,
        x0: usize,
        y0: usize,
        log2: usize,
        depth: u8,
        cbf_cb: bool,
        cbf_cr: bool,
    ) -> (r: core::result::Result<(), Error>)
        requires
            old(self).wf(),
            old(self).sps.log2_min_tb_size < log2,
            depth + log2 <= 6,
            old(self).block_inside(x0 as int, y0 as int, pow2(log2 as nat) as int),
        ensures
            final(self).wf(),
            final(self).frame(*old(self)),
            final(self).agrees(
                r,
                quarters::<B>(
                    old(self).env(),
                    old(self).model(),
                    x0 as int,
                    y0 as int,
                    log2 as int,
                    depth as int,
                    cbf_cb,
                    cbf_cr,
                ),
            ),
        decreases log2, 0int,
    {
        let half = arith::pow2_usize(log2 - 1);
        proof {
            assert(self.sps.log2_min_tb_size >= 2 && self.st.width <= 0xffff && self.st.height
                <= 0xffff) by {
                reveal(SliceDecoder::wf);
            }
            lemma_half(log2 as nat, x0 as int);
            lemma_half(log2 as nat, y0 as int);
        }
        let (x1, y1) = (x0 + half, y0 + half);
        let l = log2 - 1;
        let d = depth + 1;
        let ghost env = self.env();
        let ghost li = l as int;
        let ghost di = d as int;
        let ghost xi = x0 as int;
        let ghost yi = y0 as int;
        let ghost x2 = x1 as int;
        let ghost y2 = y1 as int;
        let ghost o1 = tree::<B>(env, self.model(), xi, yi, xi, yi, li, di, 0, cbf_cb, cbf_cr);
        let r1 = self.transform_tree(x0, y0, x0, y0, l, d, 0, cbf_cb, cbf_cr);
        let ghost o2 = next_tree::<B>(o1, env, x2, yi, xi, yi, li, di, 1, cbf_cb, cbf_cr);
        let r2 = self.next_quarter(Ghost(o1), r1, x1, y0, x0, y0, l, d, 1, cbf_cb, cbf_cr);
        let ghost o3 = next_tree::<B>(o2, env, xi, y2, xi, yi, li, di, 2, cbf_cb, cbf_cr);
        let r3 = self.next_quarter(Ghost(o2), r2, x0, y1, x0, y0, l, d, 2, cbf_cb, cbf_cr);
        self.next_quarter(Ghost(o3), r3, x1, y1, x0, y0, l, d, 3, cbf_cb, cbf_cr)
    }

    /// Reads the next quarter of a block, unless reading has failed.
    fn next_quarter(
        &mut self,
        Ghost(o): Ghost<Outcome<B::State>>,
        prev: core::result::Result<(), Error>,
        x: usize,
        y: usize,
        xbase: usize,
        ybase: usize,
        log2: usize,
        depth: u8,
        blk_idx: usize,
        cb: bool,
        cr: bool,
    ) -> (r: core::result::Result<(), Error>)
        requires
            old(self).wf(),
            old(self).agrees(prev, o),
            old(self).sps.log2_min_tb_size <= log2,
            depth + log2 <= 6,
            depth > 0,
            old(self).block_inside(x as int, y as int, pow2(log2 as nat) as int),
        ensures
            final(self).wf(),
            final(self).frame(*old(self)),
            final(self).agrees(
                r,
                next_tree::<B>(
                    o,
                    old(self).env(),
                    x as int,
                    y as int,
                    xbase as int,
                    ybase as int,
                    log2 as int,
                    depth as int,
                    blk_idx as int,
                    cb,
                    cr,
                ),
            ),
        decreases log2, 2int,
    {
        match prev {
            Err(e) => Err(e),
            Ok(_) => self.transform_tree(x, y, xbase, ybase, log2, depth, blk_idx, cb, cr),
        }
    }

    /// Reads a transform tree that does not split, after its chroma flags.
    fn transform_leaf(
        &mut self,
        x0: usize,
        y0: usize,
        xbase: usize,
        ybase: usize,
        log2: usize,
        depth: u8,
        blk_idx: usize,
        cbf_cb: bool,
        cbf_cr: bool,
    ) -> (r: core::result::Result<(), Error>)
        requires
            old(self).wf(),
            2 <= log2 <= 5,
            old(self).block_inside(x0 as int, y0 as int, pow2(log2 as nat) as int),
        ensures
            final(self).wf(),
            final(self).frame(*old(self)),
            final(self).agrees(
                r,
                leaf::<B>(
                    old(self).env(),
                    old(self).model(),
                    x0 as int,
                    y0 as int,
                    xbase as int,
                    ybase as int,
                    log2 as int,
                    depth as int,
                    blk_idx as int,
                    cbf_cb,
                    cbf_cr,
                ),
            ),
    {
        proof {
            reveal(SliceDecoder::wf);
        }
        let ghost m = self.model();
        let mut cbf_luma = true;
        if self.cu.intra || depth != 0 || cbf_cb || cbf_cr {
            let ctx: usize = if depth == 0 {
                CTX_CBF_LUMA + 1
            } else {
                CTX_CBF_LUMA
            };
            cbf_luma = self.cab.decode(ctx);
            assert(self.model() =~= (TuState { s: self.cab.state(), ..m }));
        }
        self.transform_unit(x0, y0, xbase, ybase, log2, blk_idx, cbf_luma, cbf_cb, cbf_cr)
    }

    /// Whether the block splits.
    fn read_split(&mut self, log2: usize, depth: u8) -> (split: bool)
        requires
            old(self).wf(),
            depth + log2 <= 6,
            old(self).sps.log2_min_tb_size <= log2,
            depth == 0 ==> log2 > old(self).sps.log2_min_tb_size,
        ensures
            final(self).wf(),
            final(self).frame(*old(self)),
            split_flag::<B>(
                old(self).env(),
                old(self).model().s,
                log2 as int,
                depth as int,
            ) == (final(self).model().s, split),
            final(self).model() == (TuState { s: final(self).model().s, ..old(self).model() }),
            split ==> log2 > old(self).sps.log2_min_tb_size,
            !split ==> log2 <= 5,
    {
        proof {
            reveal(SliceDecoder::wf);
        }
        let ghost m0 = self.model();
        let max_tb = self.sps.log2_max_tb_size as usize;
        let min_tb = self.sps.log2_min_tb_size as usize;
        let nxn = self.cu.intra_split && depth == 0;
        if log2 <= max_tb && log2 > min_tb && depth < self.cu.max_trafo_depth && !nxn {
            let split = self.cab.decode(CTX_SPLIT_TRANSFORM + 5 - log2);
            assert(self.model() =~= (TuState { s: self.cab.state(), ..m0 }));
            split
        } else {
            let inter_split = self.sps.max_transform_hierarchy_depth_inter == 0 && !self.cu.intra
                && self.cu.part_mode != PartMode::Part2Nx2N && depth == 0;
            log2 > max_tb || nxn || inter_split
        }
    }

    /// A chroma coded-block flag.
    fn read_chroma_cbf(&mut self, log2: usize, depth: u8, parent: bool) -> (cbf: bool)
        requires
            old(self).wf(),
            depth + log2 <= 6,
        ensures
            final(self).wf(),
            final(self).frame(*old(self)),
            chroma_cbf::<B>(old(self).model().s, log2 as int, depth as int, parent) == (
                final(self).model().s,
                cbf,
            ),
            final(self).model() == (TuState { s: final(self).model().s, ..old(self).model() }),
    {
        proof {
            reveal(SliceDecoder::wf);
        }
        let ghost m0 = self.model();
        if log2 > 2 {
            if depth == 0 || parent {
                let cbf = self.cab.decode(CTX_CBF_CHROMA + depth as usize);
                assert(self.model() =~= (TuState { s: self.cab.state(), ..m0 }));
                cbf
            } else {
                false
            }
        } else {
            parent
        }
    }
}

/// Reads `CuQpDeltaVal`; `None` when its code is too long.
fn read_delta<B: BinDecoder>(cab: &mut B) -> (r: Option<i32>)
    requires
        old(cab).ready(),
    ensures
        final(cab).ready(),
        final(cab).state() == delta_value::<B>(old(cab).state()).0,
        match r {
            Some(d) => delta_value::<B>(old(cab).state()).1 == Some(d as int) && -0x4000_0010 < d
                < 0x4000_0010,
            None => delta_value::<B>(old(cab).state()).1 is None,
        },
{
    let ghost s0 = cab.state();
    let mut v: u32 = 0;
    while v < 5
        invariant_except_break
            v <= 5,
            cab.ready(),
            delta_prefix::<B>(s0, 0) == delta_prefix::<B>(cab.state(), v as int),
        ensures
            v <= 5,
            cab.ready(),
            delta_prefix::<B>(s0, 0) == (cab.state(), v as int),
        decreases 5 - v,
    {
        let ctx: usize = if v == 0 {
            CTX_CU_QP_DELTA
        } else {
            CTX_CU_QP_DELTA + 1
        };
        let b = cab.decode(ctx);
        if !b {
            break;
        }
        v += 1;
    }
    if v == 5 {
        match cabac::eg_k(cab, 0) {
            None => {
                return None;
            },
            Some(g) => {
                v += g;
            },
        }
    }
    let mut delta = v as i32;
    if delta != 0 {
        let neg = cab.bypass();
        if neg {
            delta = -delta;
        }
    }
    Some(delta)
}

/// Sets the bits `v` over a rectangle (luma sample units) of a per-4×4 map.
fn or4(map: &mut Vec<u8>, w4: usize, x: usize, y: usize, w: usize, h: usize, v: u8)
    requires
        x + w <= usize::MAX,
        y + h <= usize::MAX,
        0 < w4,
        arith::ceil_div(x + w, 4) <= w4,
        forall|xx: int, yy: int|
            #![trigger pic::flat(xx, yy, w4 as int)]
            x as int / 4 <= xx < arith::ceil_div(x + w, 4) && y as int / 4 <= yy < arith::ceil_div(
                y + h,
                4,
            ) ==> pic::flat(xx, yy, w4 as int) < old(map)@.len(),
    ensures
        final(map)@.len() == old(map)@.len(),
        forall|i: int|
            #![trigger final(map)@[i]]
            0 <= i < old(map)@.len() ==> final(map)@[i] == (if pic::covered4(
                i,
                w4 as int,
                x as int,
                y as int,
                w as int,
                h as int,
            ) {
                old(map)@[i] | v
            } else {
                old(map)@[i]
            }),
{
    let x0 = x / 4;
    let x1 = arith::ceil_div_usize(x + w, 4);
    let y0 = y / 4;
    let y1 = arith::ceil_div_usize(y + h, 4);
    let ghost m0 = map@;
    let ghost w4i = w4 as int;
    proof {
        assert forall|j: int|
            #![trigger map@[j]]
            0 <= j < m0.len() implies map@[j] == or_to(
            m0,
            w4i,
            x0 as int,
            x1 as int,
            y0 as int,
            y0 as int,
            x0 as int,
            v,
            j,
        ) by {}
    }
    let mut yy: usize = y0;
    while yy < y1
        invariant
            0 < w4 == w4i,
            x1 <= w4,
            y0 <= yy,
            yy <= y1 || y1 < y0,
            map@.len() == m0.len(),
            forall|a: int, b: int|
                #![trigger pic::flat(a, b, w4 as int)]
                x0 <= a < x1 && y0 <= b < y1 ==> pic::flat(a, b, w4 as int) < m0.len(),
            forall|j: int|
                #![trigger map@[j]]
                0 <= j < m0.len() ==> map@[j] == or_to(
                    m0,
                    w4i,
                    x0 as int,
                    x1 as int,
                    y0 as int,
                    yy as int,
                    x0 as int,
                    v,
                    j,
                ),
        decreases y1 - yy,
    {
        let mut xx: usize = x0;
        while xx < x1
            invariant
                0 < w4 == w4i,
                x1 <= w4,
                x0 <= xx,
                xx <= x1 || x1 < x0,
                y0 <= yy < y1,
                map@.len() == m0.len(),
                forall|a: int, b: int|
                    #![trigger pic::flat(a, b, w4 as int)]
                    x0 <= a < x1 && y0 <= b < y1 ==> pic::flat(a, b, w4 as int) < m0.len(),
                forall|j: int|
                    #![trigger map@[j]]
                    0 <= j < m0.len() ==> map@[j] == or_to(
                        m0,
                        w4i,
                        x0 as int,
                        x1 as int,
                        y0 as int,
                        yy as int,
                        xx as int,
                        v,
                        j,
                    ),
            decreases x1 - xx,
        {
            proof {
                assert(pic::flat(xx as int, yy as int, w4 as int) < m0.len());
                arith::lemma_product_fits(yy as int, w4 as int);
                assert(map@.len() == map.len());
            }
            let i = yy * w4 + xx;
            let ghost before = map@;
            let e = map[i];
            map[i] = e | v;
            proof {
                assert forall|j: int|
                    #![trigger map@[j]]
                    0 <= j < m0.len() implies map@[j] == or_to(
                    m0,
                    w4i,
                    x0 as int,
                    x1 as int,
                    y0 as int,
                    yy as int,
                    xx + 1,
                    v,
                    j,
                ) by {
                    vstd::arithmetic::div_mod::lemma_fundamental_div_mod(j, w4i);
                    vstd::arithmetic::mul::lemma_mul_is_commutative(w4i, j / w4i);
                    assert(map@[j] == if j == i {
                        before[i as int] | v
                    } else {
                        before[j]
                    });
                    if j == i {
                        arith::lemma_flat_inj(j % w4i, j / w4i, xx as int, yy as int, w4i);
                    }
                }
            }
            xx += 1;
        }
        yy += 1;
    }
    proof {
        assert forall|i: int|
            #![trigger map@[i]]
            0 <= i < m0.len() implies map@[i] == (if pic::covered4(
            i,
            w4i,
            x as int,
            y as int,
            w as int,
            h as int,
        ) {
            m0[i] | v
        } else {
            m0[i]
        }) by {
            pic::lemma_covered4(i, w4i, x as int, y as int, w as int, h as int);
        }
    }
}

/// Entry `j` of a map once the bits `v` are set in the part of a block
/// rectangle that precedes column `xx` of row `yy`.
spec fn or_to(
    m: Seq<u8>,
    w4: int,
    x0: int,
    x1: int,
    y0: int,
    yy: int,
    xx: int,
    v: u8,
    j: int,
) -> u8 {
    let cx = j % w4;
    let cy = j / w4;
    if x0 <= cx < x1 && y0 <= cy && (cy < yy || cy == yy && cx < xx) {
        m[j] | v
    } else {
        m[j]
    }
}

} // verus!
