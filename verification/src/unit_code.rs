//! A transform unit as it is written (§7.3.8.10), and the steps that decoding
//! gives for it.

use crate::binarization;
use crate::binarization::{gives, past, Bin};
use crate::cabac::BinDecoder;
use crate::coefficient_code;
use crate::ctu;
use crate::ctu::{Outcome, TreeEnv, TuState, TuStep};
use crate::pic;
use crate::residual::{Block, ResidualParams};
use crate::tables;
use crate::unit_laws;
use vstd::arithmetic::power2::*;
use vstd::prelude::*;

verus! {

// ---- one component ----

/// What residual coding goes by in a coding unit.
pub open spec fn rules(env: TreeEnv) -> ResidualParams {
    ResidualParams {
        transform_skip_enabled: env.pps.transform_skip_enabled,
        log2_max_transform_skip_block_size: env.pps.log2_max_transform_skip_block_size,
        sign_data_hiding_enabled: env.pps.sign_data_hiding_enabled,
        cu_transquant_bypass: env.cu.transquant_bypass,
        cu_intra: env.cu.intra,
    }
}

/// The coefficients of a block, by column and row, with the last of them in scan
/// order at (`x`, `y`), and the scans of its sub-blocks and of their cells.
pub struct Content {
    pub b: Block,
    pub sb: Seq<(u8, u8)>,
    pub pos: Seq<(u8, u8)>,
    pub skip: bool,
    pub t: spec_fn(int, int) -> int,
    pub x: int,
    pub y: int,
}

impl Content {
    /// It can be the content of a block of that size, component and mode.
    pub open spec fn fits(self, env: TreeEnv, c: int, log2: int, mode: u8) -> bool {
        &&& coefficient_code::block_of(
            rules(env),
            log2,
            c,
            mode as int,
            self.x,
            self.y,
            self.b,
        )
        &&& coefficient_code::describes(self.b, self.t)
        &&& tables::is_scan(self.sb, self.b.nsb(), self.b.scan_idx as int)
        &&& tables::is_scan(self.pos, 4, self.b.scan_idx as int)
    }

    pub open spec fn code(self, env: TreeEnv) -> Seq<Bin> {
        coefficient_code::block_code(rules(env), self.b, self.skip, self.t, self.x, self.y)
    }
}

/// A block's bins: those of its content, if it has one.
pub open spec fn part_code(env: TreeEnv, k: Option<Content>) -> Seq<Bin> {
    match k {
        Some(k) => k.code(env),
        None => Seq::empty(),
    }
}

pub open spec fn part_fits(env: TreeEnv, c: int, log2: int, mode: u8, k: Option<Content>) -> bool {
    k matches Some(k) ==> k.fits(env, c, log2, mode)
}

/// The steps of a block: its prediction where the unit is intra, and its residual
/// where it has one.
pub open spec fn part_len(env: TreeEnv, k: Option<Content>) -> int {
    (if env.cu.intra {
        1int
    } else {
        0
    }) + if k is Some {
        1int
    } else {
        0
    }
}

/// The prediction of a block of component `c` at luma location (`x`, `y`), in the
/// component's own samples.
pub open spec fn is_prediction(
    step: TuStep,
    c: int,
    x: int,
    y: int,
    log2: int,
    mode: u8,
    more: bool,
) -> bool {
    step == (TuStep::Predict {
        c,
        x: if c == 0 {
            x
        } else {
            x / 2
        },
        y: if c == 0 {
            y
        } else {
            y / 2
        },
        n: pow2(log2 as nat) as int,
        mode,
        residual_follows: more,
    })
}

/// The residual of a block with the content `k`.
pub open spec fn is_residual(
    step: TuStep,
    env: TreeEnv,
    c: int,
    x: int,
    y: int,
    log2: int,
    k: Content,
    qp: int,
) -> bool {
    match step {
        TuStep::Predict { .. } => false,
        TuStep::Residual { x: sx, y: sy, log2: sl, c: sc, qp_y, transform_skip, fill } => {
            let n = pow2(log2 as nat) as int;
            let may_skip = env.pps.transform_skip_enabled && !env.cu.transquant_bypass && log2
                <= env.pps.log2_max_transform_skip_block_size;
            &&& sx == x && sy == y && sl == log2 && sc == c
            &&& qp_y == qp
            &&& transform_skip == (k.skip && may_skip)
            &&& fill.coeffs.len() == n * n
            &&& forall|i: int, j: int|
                #![trigger fill.coeffs[j * n + i]]
                0 <= i < n && 0 <= j < n ==> fill.coeffs[j * n + i] == (k.t)(i, j)
        },
    }
}

/// The steps of a block stand in `ops` from `at` on.
#[verifier::opaque]
pub open spec fn is_part(
    ops: Seq<TuStep>,
    at: int,
    env: TreeEnv,
    c: int,
    x: int,
    y: int,
    log2: int,
    mode: u8,
    k: Option<Content>,
    qp: int,
) -> bool {
    let r = if env.cu.intra {
        at + 1
    } else {
        at
    };
    &&& at + part_len(env, k) <= ops.len()
    &&& env.cu.intra ==> is_prediction(ops[at], c, x, y, log2, mode, k is Some)
    &&& k matches Some(k) ==> is_residual(ops[r], env, c, x, y, log2, k, qp)
}

/// `a` starts with `b` and has `n` steps more.
pub open spec fn more_by(a: Seq<TuStep>, b: Seq<TuStep>, n: int) -> bool {
    &&& a.len() == b.len() + n
    &&& forall|i: int| #![trigger a[i]] 0 <= i < b.len() ==> a[i] == b[i]
}

/// Later steps do not change earlier ones.
proof fn lemma_part_kept(
    a: Seq<TuStep>,
    b: Seq<TuStep>,
    n: int,
    at: int,
    env: TreeEnv,
    c: int,
    x: int,
    y: int,
    log2: int,
    mode: u8,
    k: Option<Content>,
    qp: int,
)
    requires
        more_by(a, b, n),
        n >= 0,
        at >= 0,
        is_part(b, at, env, c, x, y, log2, mode, k, qp),
    ensures
        is_part(a, at, env, c, x, y, log2, mode, k, qp),
{
    reveal(is_part);
    let r = if env.cu.intra {
        at + 1
    } else {
        at
    };
    if env.cu.intra {
        assert(a[at] == b[at]);
    }
    if k is Some {
        assert(a[r] == b[r]);
    }
}

/// A block reads back.
proof fn lemma_part_reads_back<B: BinDecoder>(
    env: TreeEnv,
    st: TuState<B::State>,
    c: int,
    x: int,
    y: int,
    log2: int,
    mode: u8,
    k: Option<Content>,
)
    requires
        part_fits(env, c, log2, mode, k),
        gives::<B>(st.s, part_code(env, k)),
    ensures
        ({
            let o = ctu::component::<B>(env, st, c, x, y, log2, mode, k is Some);
            &&& o.1 is None
            &&& o.0.s == past::<B>(st.s, part_code(env, k))
            &&& more_by(o.0.ops, st.ops, part_len(env, k))
            &&& is_part(o.0.ops, st.ops.len() as int, env, c, x, y, log2, mode, k, st.qp_y)
            &&& o.0.qp_y == st.qp_y
            &&& o.0.qp_map == st.qp_map
            &&& o.0.nz == st.nz
            &&& o.0.edges == st.edges
        }),
{
    reveal(is_part);
    binarization::lemma_nothing::<B>(st.s);
    match k {
        Some(k) => {
            coefficient_code::lemma_block_reads_back::<B>(
                st.s,
                rules(env),
                k.b,
                mode as int,
                k.sb,
                k.pos,
                k.skip,
                k.t,
                k.x,
                k.y,
            );
            assert(env.residual_params() == rules(env));
        },
        None => {},
    }
}

// ---- the unit ----

/// What a transform unit holds, and the change of the quantization parameter that
/// comes with it if one does.
pub struct Unit {
    pub delta: int,
    pub luma: Option<Content>,
    pub cb: Option<Content>,
    pub cr: Option<Content>,
}

/// Where a unit stands: its block, the block it is a quarter of and which, and its
/// chroma flags.
pub struct Spot {
    pub x: int,
    pub y: int,
    pub log2: int,
    pub xbase: int,
    pub ybase: int,
    pub quarter: int,
    pub cb: bool,
    pub cr: bool,
}

impl Spot {
    /// A 4×4 unit leaves chroma to the last of the four quarters.
    pub open spec fn chroma(self) -> bool {
        self.log2 > 2 || self.quarter == 3
    }

    /// The chroma block: half the size, or the 4×4 block of all four quarters.
    pub open spec fn chroma_at(self) -> (int, int, int) {
        if self.log2 > 2 {
            (self.x, self.y, self.log2 - 1)
        } else {
            (self.xbase, self.ybase, 2)
        }
    }
}

/// A change is written where there is a residual, changes are enabled, and none
/// was written in the quantization group.
pub open spec fn changes<S>(env: TreeEnv, st: TuState<S>, w: Spot, u: Unit) -> bool {
    (u.luma is Some || w.cb || w.cr) && env.pps.cu_qp_delta_enabled && !st.delta_coded
}

/// The luma prediction mode of a unit.
pub open spec fn luma_mode(env: TreeEnv, w: Spot) -> u8 {
    env.modes[(w.y / 4) * env.w4 + w.x / 4]
}

pub open spec fn unit_fits<S>(env: TreeEnv, st: TuState<S>, w: Spot, u: Unit) -> bool {
    let off = env.sps.qp_bd_offset_y as int;
    let cl = w.chroma_at().2;
    &&& off >= 0
    &&& changes(env, st, w, u) ==> -(26 + off / 2) <= u.delta <= 25 + off / 2 && off <= 48
    &&& part_fits(env, 0, w.log2, luma_mode(env, w), u.luma)
    &&& if w.chroma() {
        &&& part_fits(env, 1, cl, env.cu.intra_chroma_mode, u.cb)
        &&& part_fits(env, 2, cl, env.cu.intra_chroma_mode, u.cr)
        &&& w.cb == (u.cb is Some)
        &&& w.cr == (u.cr is Some)
    } else {
        u.cb is None && u.cr is None
    }
}

/// The bins of a unit: the change, then luma, Cb and Cr.
pub open spec fn unit_code<S>(env: TreeEnv, st: TuState<S>, w: Spot, u: Unit) -> Seq<Bin> {
    (if changes(env, st, w, u) {
        binarization::delta_code(u.delta)
    } else {
        Seq::empty()
    }) + part_code(env, u.luma) + part_code(env, u.cb) + part_code(env, u.cr)
}

/// The decoding of a unit in its place.
#[verifier::opaque]
pub open spec fn decoded<B: BinDecoder>(
    env: TreeEnv,
    st: TuState<B::State>,
    w: Spot,
    luma: bool,
) -> Outcome<B::State> {
    ctu::unit::<B>(
        env,
        st,
        w.x,
        w.y,
        w.xbase,
        w.ybase,
        w.log2,
        w.quarter,
        luma,
        w.cb,
        w.cr,
    )
}

/// The luma part of a unit, and its chroma part.
#[verifier::opaque]
spec fn luma_of<B: BinDecoder>(env: TreeEnv, st: TuState<B::State>, w: Spot, cbf: bool) -> Outcome<
    B::State,
> {
    ctu::luma_part::<B>(env, st, w.x, w.y, w.log2, cbf)
}

#[verifier::opaque]
spec fn chroma_of<B: BinDecoder>(env: TreeEnv, st: TuState<B::State>, w: Spot) -> Outcome<
    B::State,
> {
    let (x, y, log2) = w.chroma_at();
    ctu::chroma_part::<B>(env, st, x, y, log2, w.cb, w.cr)
}

/// The three parts of a unit.
proof fn lemma_unit_parts<B: BinDecoder>(
    env: TreeEnv,
    st: TuState<B::State>,
    w: Spot,
    luma: bool,
)
    ensures
        ({
            let o = decoded::<B>(env, st, w, luma);
            let o1 = changed::<B>(env, st, luma || w.cb || w.cr);
            let o2 = luma_of::<B>(env, o1.0, w, luma);
            o == if o1.1 is Some {
                o1
            } else if o2.1 is Some || !w.chroma() {
                o2
            } else {
                chroma_of::<B>(env, o2.0, w)
            }
        }),
{
    reveal(decoded);
    reveal(luma_of);
    reveal(chroma_of);
    reveal(changed);
}

/// The change before a unit.
#[verifier::opaque]
spec fn changed<B: BinDecoder>(env: TreeEnv, st: TuState<B::State>, any: bool) -> Outcome<
    B::State,
> {
    if any && env.pps.cu_qp_delta_enabled && !st.delta_coded {
        ctu::with_delta::<B>(env, st)
    } else {
        (st, None)
    }
}

proof fn lemma_changed<B: BinDecoder>(env: TreeEnv, st: TuState<B::State>, w: Spot, u: Unit)
    requires
        unit_fits(env, st, w, u),
        changes(env, st, w, u) ==> gives::<B>(st.s, binarization::delta_code(u.delta)),
    ensures
        ({
            let o = changed::<B>(env, st, u.luma is Some || w.cb || w.cr);
            let off = env.sps.qp_bd_offset_y as int;
            let code = if changes(env, st, w, u) {
                binarization::delta_code(u.delta)
            } else {
                Seq::empty()
            };
            &&& o.1 is None
            &&& o.0.s == past::<B>(st.s, code)
            &&& o.0.ops == st.ops
            &&& o.0.nz == st.nz
            &&& o.0.edges == st.edges
            &&& if changes(env, st, w, u) {
                &&& -off <= o.0.qp_y <= 51
                &&& (o.0.qp_y - (env.cu.qp_y_pred + u.delta)) % (52 + off) == 0
            } else {
                o.0.qp_y == st.qp_y
            }
        }),
{
    reveal(changed);
    binarization::lemma_nothing::<B>(st.s);
    if changes(env, st, w, u) {
        binarization::lemma_delta_reads_back::<B>(st.s, u.delta);
        unit_laws::lemma_change_is_added(
            env.cu.qp_y_pred + u.delta,
            env.sps.qp_bd_offset_y as int,
        );
    }
}

/// Both chroma blocks read back.
proof fn lemma_chroma_reads_back<B: BinDecoder>(
    env: TreeEnv,
    st: TuState<B::State>,
    x: int,
    y: int,
    log2: int,
    cb: Option<Content>,
    cr: Option<Content>,
)
    requires
        part_fits(env, 1, log2, env.cu.intra_chroma_mode, cb),
        part_fits(env, 2, log2, env.cu.intra_chroma_mode, cr),
        gives::<B>(st.s, part_code(env, cb)),
        gives::<B>(past::<B>(st.s, part_code(env, cb)), part_code(env, cr)),
    ensures
        ({
            let o = ctu::chroma_part::<B>(env, st, x, y, log2, cb is Some, cr is Some);
            let m = env.cu.intra_chroma_mode;
            let n = st.ops.len() as int;
            let n1 = n + part_len(env, cb);
            &&& o.1 is None
            &&& o.0.s == past::<B>(past::<B>(st.s, part_code(env, cb)), part_code(env, cr))
            &&& more_by(o.0.ops, st.ops, part_len(env, cb) + part_len(env, cr))
            &&& is_part(o.0.ops, n, env, 1, x, y, log2, m, cb, st.qp_y)
            &&& is_part(o.0.ops, n1, env, 2, x, y, log2, m, cr, st.qp_y)
            &&& o.0.qp_y == st.qp_y
            &&& o.0.qp_map == st.qp_map
            &&& o.0.nz == st.nz
            &&& o.0.edges == st.edges
        }),
{
    let m = env.cu.intra_chroma_mode;
    let n = st.ops.len() as int;
    lemma_part_reads_back::<B>(env, st, 1, x, y, log2, m, cb);
    let o1 = ctu::component::<B>(env, st, 1, x, y, log2, m, cb is Some);
    lemma_part_reads_back::<B>(env, o1.0, 2, x, y, log2, m, cr);
    let o2 = ctu::component::<B>(env, o1.0, 2, x, y, log2, m, cr is Some);
    lemma_part_kept(
        o2.0.ops,
        o1.0.ops,
        part_len(env, cr),
        n,
        env,
        1,
        x,
        y,
        log2,
        m,
        cb,
        st.qp_y,
    );
    assert forall|i: int| #![trigger o2.0.ops[i]] 0 <= i < st.ops.len() implies o2.0.ops[i]
        == st.ops[i] by {
        assert(o2.0.ops[i] == o1.0.ops[i]);
    }
}

proof fn lemma_chroma_of<B: BinDecoder>(
    env: TreeEnv,
    st: TuState<B::State>,
    w: Spot,
    cb: Option<Content>,
    cr: Option<Content>,
)
    requires
        part_fits(env, 1, w.chroma_at().2, env.cu.intra_chroma_mode, cb),
        part_fits(env, 2, w.chroma_at().2, env.cu.intra_chroma_mode, cr),
        w.cb == (cb is Some),
        w.cr == (cr is Some),
        gives::<B>(st.s, part_code(env, cb)),
        gives::<B>(past::<B>(st.s, part_code(env, cb)), part_code(env, cr)),
    ensures
        ({
            let o = chroma_of::<B>(env, st, w);
            let (x, y, log2) = w.chroma_at();
            let m = env.cu.intra_chroma_mode;
            let n = st.ops.len() as int;
            let n1 = n + part_len(env, cb);
            &&& o.1 is None
            &&& o.0.s == past::<B>(past::<B>(st.s, part_code(env, cb)), part_code(env, cr))
            &&& more_by(o.0.ops, st.ops, part_len(env, cb) + part_len(env, cr))
            &&& is_part(o.0.ops, n, env, 1, x, y, log2, m, cb, st.qp_y)
            &&& is_part(o.0.ops, n1, env, 2, x, y, log2, m, cr, st.qp_y)
            &&& o.0.qp_y == st.qp_y
        }),
{
    reveal(chroma_of);
    let (x, y, log2) = w.chroma_at();
    lemma_chroma_reads_back::<B>(env, st, x, y, log2, cb, cr);
}

proof fn lemma_more_by(a: Seq<TuStep>, b: Seq<TuStep>, c: Seq<TuStep>, m: int, n: int)
    requires
        more_by(a, b, m),
        more_by(b, c, n),
        m >= 0,
        n >= 0,
    ensures
        more_by(a, c, m + n),
{
    assert forall|i: int| #![trigger a[i]] 0 <= i < c.len() implies a[i] == c[i] by {
        assert(a[i] == b[i]);
    }
}

/// The luma block reads back.
proof fn lemma_luma_reads_back<B: BinDecoder>(
    env: TreeEnv,
    st: TuState<B::State>,
    w: Spot,
    k: Option<Content>,
)
    requires
        part_fits(env, 0, w.log2, luma_mode(env, w), k),
        gives::<B>(st.s, part_code(env, k)),
    ensures
        ({
            let o = luma_of::<B>(env, st, w, k is Some);
            let n = st.ops.len() as int;
            &&& o.1 is None
            &&& o.0.s == past::<B>(st.s, part_code(env, k))
            &&& more_by(o.0.ops, st.ops, part_len(env, k))
            &&& is_part(
                o.0.ops,
                n,
                env,
                0,
                w.x,
                w.y,
                w.log2,
                luma_mode(env, w),
                k,
                st.qp_y,
            )
            &&& o.0.qp_y == st.qp_y
            &&& o.0.qp_map == st.qp_map
        }),
{
    reveal(luma_of);
    let n = pow2(w.log2 as nat) as int;
    let st1 = TuState { edges: ctu::edges_marked(st.edges, env.w4, w.x, w.y, n), ..st };
    lemma_part_reads_back::<B>(env, st1, 0, w.x, w.y, w.log2, luma_mode(env, w), k);
}

/// A transform unit reads back. From the bins that it is written as, decoding gives
/// the steps of its luma, Cb and Cr blocks, in that order: where the unit is intra
/// each is predicted, luma in the mode of its place and chroma in the chroma mode;
/// and each that has coefficients gets them, with the parameter that the change
/// leads to.
pub proof fn lemma_unit_reads_back<B: BinDecoder>(
    env: TreeEnv,
    st: TuState<B::State>,
    w: Spot,
    u: Unit,
)
    requires
        unit_fits(env, st, w, u),
        gives::<B>(st.s, unit_code(env, st, w, u)),
    ensures
        ({
            let o = decoded::<B>(env, st, w, u.luma is Some);
            let off = env.sps.qp_bd_offset_y as int;
            let m = env.cu.intra_chroma_mode;
            let (cx, cy, cl) = w.chroma_at();
            let n = st.ops.len() as int;
            let n1 = n + part_len(env, u.luma);
            let n2 = n1 + part_len(env, u.cb);
            &&& o.1 is None
            &&& o.0.s == past::<B>(st.s, unit_code(env, st, w, u))
            &&& is_part(
                o.0.ops,
                n,
                env,
                0,
                w.x,
                w.y,
                w.log2,
                luma_mode(env, w),
                u.luma,
                o.0.qp_y,
            )
            &&& if w.chroma() {
                &&& more_by(o.0.ops, st.ops, n2 + part_len(env, u.cr) - n)
                &&& is_part(o.0.ops, n1, env, 1, cx, cy, cl, m, u.cb, o.0.qp_y)
                &&& is_part(o.0.ops, n2, env, 2, cx, cy, cl, m, u.cr, o.0.qp_y)
            } else {
                more_by(o.0.ops, st.ops, n1 - n)
            }
            &&& if changes(env, st, w, u) {
                &&& -off <= o.0.qp_y <= 51
                &&& (o.0.qp_y - (env.cu.qp_y_pred + u.delta)) % (52 + off) == 0
            } else {
                o.0.qp_y == st.qp_y
            }
        }),
{
    let head = if changes(env, st, w, u) {
        binarization::delta_code(u.delta)
    } else {
        Seq::empty()
    };
    let (luma, cb, cr) = (part_code(env, u.luma), part_code(env, u.cb), part_code(env, u.cr));
    assert(unit_code(env, st, w, u) == head + luma + cb + cr);
    binarization::lemma_joined::<B>(st.s, head + luma + cb, cr);
    binarization::lemma_joined::<B>(st.s, head + luma, cb);
    binarization::lemma_joined::<B>(st.s, head, luma);
    lemma_changed::<B>(env, st, w, u);
    lemma_unit_parts::<B>(env, st, w, u.luma is Some);
    let o1 = changed::<B>(env, st, u.luma is Some || w.cb || w.cr);
    lemma_luma_reads_back::<B>(env, o1.0, w, u.luma);
    let o2 = luma_of::<B>(env, o1.0, w, u.luma is Some);
    if w.chroma() {
        lemma_chroma_of::<B>(env, o2.0, w, u.cb, u.cr);
        let o3 = chroma_of::<B>(env, o2.0, w);
        lemma_part_kept(
            o3.0.ops,
            o2.0.ops,
            part_len(env, u.cb) + part_len(env, u.cr),
            st.ops.len() as int,
            env,
            0,
            w.x,
            w.y,
            w.log2,
            luma_mode(env, w),
            u.luma,
            o1.0.qp_y,
        );
        lemma_more_by(o3.0.ops, o2.0.ops, st.ops, part_len(env, u.cb) + part_len(env, u.cr), part_len(env, u.luma));
    } else {
        binarization::lemma_nothing::<B>(o2.0.s);
    }
}

// ---- the maps ----

/// The 4×4 cell in column `cx` and row `cy` lies in the square of `n` luma samples
/// at (`x`, `y`).
pub open spec fn cell_in(cx: int, cy: int, x: int, y: int, n: int) -> bool {
    x <= 4 * cx < x + n && y <= 4 * cy < y + n
}

proof fn lemma_cell_in(i: int, w4: int, x: int, y: int, n: int)
    requires
        0 <= i,
        0 < w4,
        0 <= x,
        0 <= y,
        0 <= n,
        x % 4 == 0,
        y % 4 == 0,
        n % 4 == 0,
        x + n <= 4 * w4,
    ensures
        pic::covered4(i, w4, x, y, n, n) == cell_in(i % w4, i / w4, x, y, n),
        n > 0 ==> pic::covered4(i, w4, x, y, 4, n) == (cell_in(i % w4, i / w4, x, y, n) && 4 * (i
            % w4) == x),
        n > 0 ==> pic::covered4(i, w4, x, y, n, 4) == (cell_in(i % w4, i / w4, x, y, n) && 4 * (i
            / w4) == y),
{
    pic::lemma_covered4(i, w4, x, y, n, n);
    if n > 0 {
        pic::lemma_covered4(i, w4, x, y, 4, n);
        pic::lemma_covered4(i, w4, x, y, n, 4);
    }
}

proof fn lemma_component_maps<B: BinDecoder>(
    env: TreeEnv,
    st: TuState<B::State>,
    c: int,
    x: int,
    y: int,
    log2: int,
    mode: u8,
    cbf: bool,
)
    ensures
        ({
            let o = ctu::component::<B>(env, st, c, x, y, log2, mode, cbf);
            &&& o.0.nz == st.nz
            &&& o.0.edges == st.edges
            &&& o.0.qp_map == st.qp_map
            &&& o.0.qp_y == st.qp_y
        }),
{
}

proof fn lemma_chroma_maps<B: BinDecoder>(env: TreeEnv, st: TuState<B::State>, w: Spot)
    ensures
        ({
            let o = chroma_of::<B>(env, st, w);
            &&& o.0.nz == st.nz
            &&& o.0.edges == st.edges
            &&& o.0.qp_map == st.qp_map
            &&& o.0.qp_y == st.qp_y
        }),
{
    reveal(chroma_of);
    let (x, y, log2) = w.chroma_at();
    let m = env.cu.intra_chroma_mode;
    lemma_component_maps::<B>(env, st, 1, x, y, log2, m, w.cb);
    let o1 = ctu::component::<B>(env, st, 1, x, y, log2, m, w.cb);
    lemma_component_maps::<B>(env, o1.0, 2, x, y, log2, m, w.cr);
}

proof fn lemma_luma_maps<B: BinDecoder>(env: TreeEnv, st: TuState<B::State>, w: Spot, cbf: bool)
    ensures
        ({
            let o = luma_of::<B>(env, st, w, cbf);
            let n = pow2(w.log2 as nat) as int;
            o.1 is None ==> {
                &&& o.0.nz == if cbf {
                    ctu::filled4(st.nz, env.w4, w.x, w.y, n, n, 1u8)
                } else {
                    st.nz
                }
                &&& o.0.edges == ctu::edges_marked(st.edges, env.w4, w.x, w.y, n)
                &&& o.0.qp_map == st.qp_map
                &&& o.0.qp_y == st.qp_y
            }
        }),
{
    reveal(luma_of);
    let n = pow2(w.log2 as nat) as int;
    let st1 = TuState { edges: ctu::edges_marked(st.edges, env.w4, w.x, w.y, n), ..st };
    lemma_component_maps::<B>(env, st1, 0, w.x, w.y, w.log2, luma_mode(env, w), cbf);
}

proof fn lemma_changed_maps<B: BinDecoder>(env: TreeEnv, st: TuState<B::State>, any: bool)
    ensures
        ({
            let o = changed::<B>(env, st, any);
            let cu = env.cu;
            &&& o.0.nz == st.nz
            &&& o.0.edges == st.edges
            &&& o.1 is None ==> if any && env.pps.cu_qp_delta_enabled && !st.delta_coded {
                o.0.qp_map == ctu::filled4(
                    st.qp_map,
                    env.w4,
                    cu.x as int,
                    cu.y as int,
                    cu.size as int,
                    cu.size as int,
                    o.0.qp_y as i8,
                )
            } else {
                o.0.qp_map == st.qp_map && o.0.qp_y == st.qp_y
            }
        }),
{
    reveal(changed);
}

/// What a unit that reads without an error leaves in the maps: its block is
/// marked where it has luma coefficients; its left and its top edge are marked as
/// transform edges; and where the quantization parameter changed, the whole coding
/// unit has the new one. Nothing else changes.
pub proof fn lemma_unit_maps<B: BinDecoder>(
    env: TreeEnv,
    st: TuState<B::State>,
    w: Spot,
    luma: bool,
    i: int,
)
    requires
        2 <= w.log2 <= 5,
        0 <= w.x,
        0 <= w.y,
        w.x % 4 == 0,
        w.y % 4 == 0,
        0 < env.w4,
        w.x + pow2(w.log2 as nat) <= 4 * env.w4,
        env.cu.x % 4 == 0,
        env.cu.y % 4 == 0,
        env.cu.size % 4 == 0,
        env.cu.x + env.cu.size <= 4 * env.w4,
        0 <= i,
        st.nz.len() == st.edges.len() == st.qp_map.len(),
        i < st.nz.len(),
        env.sps.qp_bd_offset_y >= 0,
        env.sps.qp_bd_offset_y <= 48,
    ensures
        ({
            let o = decoded::<B>(env, st, w, luma);
            let (cx, cy) = (i % env.w4, i / env.w4);
            let own = cell_in(cx, cy, w.x, w.y, pow2(w.log2 as nat) as int);
            let cu = cell_in(cx, cy, env.cu.x as int, env.cu.y as int, env.cu.size as int);
            let change = (luma || w.cb || w.cr) && env.pps.cu_qp_delta_enabled && !st.delta_coded;
            o.1 is None ==> {
                &&& o.0.nz.len() == st.nz.len()
                &&& o.0.nz[i] == if own && luma {
                    1u8
                } else {
                    st.nz[i]
                }
                &&& !(own && 4 * cx == w.x) && !(own && 4 * cy == w.y) ==> o.0.edges[i]
                    == st.edges[i]
                &&& own && 4 * cx == w.x && 4 * cy != w.y ==> o.0.edges[i] == st.edges[i] | 1u8
                &&& own && 4 * cx != w.x && 4 * cy == w.y ==> o.0.edges[i] == st.edges[i] | 2u8
                &&& own && 4 * cx == w.x && 4 * cy == w.y ==> o.0.edges[i] == (st.edges[i] | 1u8)
                    | 2u8
                &&& o.0.qp_map[i] == if change && cu {
                    o.0.qp_y as i8
                } else {
                    st.qp_map[i]
                }
                &&& !change ==> o.0.qp_y == st.qp_y
            }
        }),
{
    let n = pow2(w.log2 as nat) as int;
    let any = luma || w.cb || w.cr;
    lemma_unit_parts::<B>(env, st, w, luma);
    lemma_changed_maps::<B>(env, st, any);
    let o1 = changed::<B>(env, st, any);
    lemma_luma_maps::<B>(env, o1.0, w, luma);
    let o2 = luma_of::<B>(env, o1.0, w, luma);
    lemma_chroma_maps::<B>(env, o2.0, w);
    lemma2_to64();
    assert(n == 4 || n == 8 || n == 16 || n == 32) by {
        if w.log2 == 2 {
        } else if w.log2 == 3 {
        } else if w.log2 == 4 {
        } else {
            assert(w.log2 == 5);
        }
    }
    lemma_cell_in(i, env.w4, w.x, w.y, n);
    lemma_cell_in(i, env.w4, env.cu.x as int, env.cu.y as int, env.cu.size as int);
}

} // verus!
