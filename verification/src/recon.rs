//! Reconstruction around prediction and transform: the reference samples an
//! intra block is predicted from (§8.4.4.2.2), the parameters of a residual's
//! scaling and transform (§8.6.1–8.6.4), and the sum of both.

use crate::arith;
use crate::frame::{Picture, Plane};
use crate::pic::{PicState, PRED_INTRA};
use crate::pixel;
use crate::ps::{Pps, ScalingFactors, Sps};
use crate::tables::CHROMA_QP_420;
use vstd::arithmetic::div_mod::*;
use vstd::arithmetic::power2::*;
use vstd::prelude::*;

verus! {

// ---- reference samples ----

/// The neighbouring samples of an `n`×`n` block: 2`n` down its left side, 2`n`
/// along its top, and the corner between them. A sample that is not available
/// reads 0.
#[derive(Debug)]
pub struct IntraRefs {
    pub left: Vec<u16>,
    pub left_avail: Vec<bool>,
    pub top: Vec<u16>,
    pub top_avail: Vec<bool>,
    pub corner: u16,
    pub corner_avail: bool,
    /// Every reference sample is present.
    pub all_avail: bool,
}

/// The chroma shift of component `c` in 4:2:0, as a factor.
pub open spec fn chroma_div(c: int) -> int {
    if c > 0 {
        2
    } else {
        1
    }
}

/// Whether luma location (`xn`, `yn`) may be referenced from the block at
/// (`xl`, `yl`): available, and intra where prediction is constrained to that.
pub open spec fn ref_avail(
    st: PicState,
    constrained: bool,
    xl: int,
    yl: int,
    xn: int,
    yn: int,
) -> bool {
    st.avail(xl, yl, xn, yn) && (!constrained || st.pred_mode@[st.block_of(xn, yn)] == PRED_INTRA)
}

/// The availability of reference sample (`x`, `y`) of component `c`.
pub open spec fn sample_avail(
    st: PicState,
    constrained: bool,
    c: int,
    xb: int,
    yb: int,
    x: int,
    y: int,
) -> bool {
    ref_avail(st, constrained, xb * chroma_div(c), yb * chroma_div(c), x * chroma_div(c), y * chroma_div(c))
}

/// A reference sample: what the plane holds where it is available.
pub open spec fn ref_sample(p: Plane, avail: bool, x: int, y: int) -> u16 {
    if avail {
        p.at(x, y)
    } else {
        0
    }
}

/// The plane of component `c` holds a sample for every luma location.
pub open spec fn plane_covers(p: Plane, st: PicState, c: int) -> bool {
    &&& p.wf()
    &&& st.width <= p.width * chroma_div(c)
    &&& st.height <= p.height * chroma_div(c)
}

/// Every flag is set.
pub open spec fn all_set(flags: Seq<bool>) -> bool {
    forall|k: int| #![trigger flags[k]] 0 <= k < flags.len() ==> flags[k]
}

/// `refs` are the reference samples of the block at (`xb`, `yb`).
pub open spec fn refs_of(
    refs: IntraRefs,
    p: Plane,
    st: PicState,
    constrained: bool,
    c: int,
    xb: int,
    yb: int,
    n: int,
) -> bool {
    &&& refs.left@.len() == 2 * n
    &&& refs.left_avail@.len() == 2 * n
    &&& refs.top@.len() == 2 * n
    &&& refs.top_avail@.len() == 2 * n
    &&& forall|k: int|
        #![trigger refs.left_avail@[k]]
        0 <= k < 2 * n ==> refs.left_avail@[k] == sample_avail(
            st,
            constrained,
            c,
            xb,
            yb,
            xb - 1,
            yb + k,
        )
    &&& forall|k: int|
        #![trigger refs.left@[k]]
        0 <= k < 2 * n ==> refs.left@[k] == ref_sample(p, refs.left_avail@[k], xb - 1, yb + k)
    &&& forall|k: int|
        #![trigger refs.top_avail@[k]]
        0 <= k < 2 * n ==> refs.top_avail@[k] == sample_avail(
            st,
            constrained,
            c,
            xb,
            yb,
            xb + k,
            yb - 1,
        )
    &&& forall|k: int|
        #![trigger refs.top@[k]]
        0 <= k < 2 * n ==> refs.top@[k] == ref_sample(p, refs.top_avail@[k], xb + k, yb - 1)
    &&& refs.corner_avail == sample_avail(st, constrained, c, xb, yb, xb - 1, yb - 1)
    &&& refs.corner == ref_sample(p, refs.corner_avail, xb - 1, yb - 1)
    &&& refs.all_avail == (refs.corner_avail && all_set(refs.left_avail@) && all_set(
        refs.top_avail@,
    ))
}

/// §6.4.1 availability is derived per minimum block: two locations in one 4×4
/// luma block are available together.
pub proof fn lemma_avail_per_block(
    st: PicState,
    constrained: bool,
    xl: int,
    yl: int,
    x1: int,
    y1: int,
    x2: int,
    y2: int,
)
    requires
        st.shape_ok(),
        x1 / 4 == x2 / 4,
        y1 / 4 == y2 / 4,
    ensures
        ref_avail(st, constrained, xl, yl, x1, y1) == ref_avail(st, constrained, xl, yl, x2, y2),
        st.inside(x1, y1) == st.inside(x2, y2),
{
    if st.inside(x1, y1) {
        lemma_ctb_per_block(st, x1, y1, x2, y2);
    } else if st.inside(x2, y2) {
    }
}

proof fn lemma_ctb_per_block(st: PicState, x1: int, y1: int, x2: int, y2: int)
    requires
        st.shape_ok(),
        0 <= x1,
        0 <= y1,
        x1 / 4 == x2 / 4,
        y1 / 4 == y2 / 4,
    ensures
        st.ctb_at(x1, y1) == st.ctb_at(x2, y2),
{
    let c = pow2(st.log2_ctb as nat) as int;
    crate::pic::lemma_ctb_size(st.log2_ctb as nat);
    lemma_div_per_block(x1, x2, c);
    lemma_div_per_block(y1, y2, c);
}

proof fn lemma_div_per_block(a: int, b: int, c: int)
    requires
        a / 4 == b / 4,
        c == 16 || c == 32 || c == 64,
    ensures
        a / c == b / c,
{
    if c == 16 {
        assert(a / 16 == b / 16);
    } else if c == 32 {
        assert(a / 32 == b / 32);
    } else {
        assert(a / 64 == b / 64);
    }
}

fn reference_available(
    st: &PicState,
    constrained: bool,
    xl: i32,
    yl: i32,
    xn: i32,
    yn: i32,
) -> (r: bool)
    requires
        st.wf(),
        st.inside(xl as int, yl as int),
    ensures
        r == ref_avail(*st, constrained, xl as int, yl as int, xn as int, yn as int),
{
    if !st.available(xl, yl, xn, yn) {
        return false;
    }
    if !constrained {
        return true;
    }
    proof {
        st.lemma_inside(xn as int, yn as int);
    }
    st.pred_mode[st.idx4(xn as usize, yn as usize)] == PRED_INTRA
}

/// One side of a block's references: 2`n` samples from (`xs`, `ys`) on, down
/// the plane or along it. Availability is asked once per minimum block.
fn gather_side(
    plane: &Plane,
    st: &PicState,
    constrained: bool,
    c: usize,
    xb: usize,
    yb: usize,
    n: usize,
    down: bool,
) -> (r: (Vec<u16>, Vec<bool>, bool))
    requires
        st.wf(),
        c <= 2,
        plane_covers(*plane, *st, c as int),
        1 <= n <= 64,
        st.inside(xb * chroma_div(c as int), yb * chroma_div(c as int)),
    ensures
        r.0@.len() == 2 * n,
        r.1@.len() == 2 * n,
        forall|k: int|
            #![trigger r.1@[k]]
            0 <= k < 2 * n ==> r.1@[k] == side_avail(
                *st,
                constrained,
                c as int,
                xb as int,
                yb as int,
                down,
                k,
            ),
        forall|k: int|
            #![trigger r.0@[k]]
            0 <= k < 2 * n ==> r.0@[k] == ref_sample(
                *plane,
                r.1@[k],
                side_x(xb as int, down, k),
                side_y(yb as int, down, k),
            ),
        r.2 == all_set(r.1@),
{
    let ss: i32 = if c > 0 {
        2
    } else {
        1
    };
    let run: usize = if c > 0 {
        2
    } else {
        4
    };
    let along = if down {
        yb
    } else {
        xb
    };
    let mut vals: Vec<u16> = Vec::new();
    let mut avail: Vec<bool> = Vec::new();
    let mut all = true;
    while vals.len() < 2 * n
        invariant
            st.wf(),
            c <= 2,
            ss == chroma_div(c as int),
            run == (if c > 0 {
                2int
            } else {
                4
            }),
            along == (if down {
                yb
            } else {
                xb
            }),
            plane_covers(*plane, *st, c as int),
            1 <= n <= 64,
            st.inside(xb * chroma_div(c as int), yb * chroma_div(c as int)),
            vals@.len() <= 2 * n,
            avail@.len() == vals@.len(),
            forall|k: int|
                #![trigger avail@[k]]
                0 <= k < avail@.len() ==> avail@[k] == side_avail(
                    *st,
                    constrained,
                    c as int,
                    xb as int,
                    yb as int,
                    down,
                    k,
                ),
            forall|k: int|
                #![trigger vals@[k]]
                0 <= k < vals@.len() ==> vals@[k] == ref_sample(
                    *plane,
                    avail@[k],
                    side_x(xb as int, down, k),
                    side_y(yb as int, down, k),
                ),
            all == all_set(avail@),
        decreases 2 * n - vals@.len(),
    {
        let k = vals.len();
        let end = arith::min_usize(k + run - (along + k) % run, 2 * n);
        let (xn, yn): (i32, i32) = if down {
            ((xb as i32 - 1) * ss, (yb + k) as i32 * ss)
        } else {
            ((xb + k) as i32 * ss, (yb as i32 - 1) * ss)
        };
        let ok = reference_available(st, constrained, xb as i32 * ss, yb as i32 * ss, xn, yn);
        if !ok {
            all = false;
        }
        let ghost old_avail = avail@;
        while vals.len() < end
            invariant
                st.wf(),
                c <= 2,
                ss == chroma_div(c as int),
                run == (if c > 0 {
                    2int
                } else {
                    4
                }),
                along == (if down {
                    yb
                } else {
                    xb
                }),
                plane_covers(*plane, *st, c as int),
                1 <= n <= 64,
                st.inside(xb * chroma_div(c as int), yb * chroma_div(c as int)),
                k <= vals@.len() <= end <= 2 * n,
                k < end,
                end <= k + run - (along + k) as int % run as int,
                xn == side_x(xb as int, down, k as int) * ss,
                yn == side_y(yb as int, down, k as int) * ss,
                ok == ref_avail(
                    *st,
                    constrained,
                    xb * ss,
                    yb * ss,
                    xn as int,
                    yn as int,
                ),
                avail@.len() == vals@.len(),
                old_avail.len() == k,
                forall|j: int| #![trigger avail@[j]] 0 <= j < k ==> avail@[j] == old_avail[j],
                forall|j: int| #![trigger avail@[j]] k <= j < avail@.len() ==> avail@[j] == ok,
                forall|k: int|
                    #![trigger avail@[k]]
                    0 <= k < avail@.len() ==> avail@[k] == side_avail(
                        *st,
                        constrained,
                        c as int,
                        xb as int,
                        yb as int,
                        down,
                        k,
                    ),
                forall|k: int|
                    #![trigger vals@[k]]
                    0 <= k < vals@.len() ==> vals@[k] == ref_sample(
                        *plane,
                        avail@[k],
                        side_x(xb as int, down, k),
                        side_y(yb as int, down, k),
                    ),
            decreases end - vals@.len(),
        {
            let j = vals.len();
            let ghost x = side_x(xb as int, down, j as int);
            let ghost y = side_y(yb as int, down, j as int);
            proof {
                lemma_run(along as int, k as int, j as int, run as int);
                lemma_avail_per_block(
                    *st,
                    constrained,
                    xb * ss,
                    yb * ss,
                    xn as int,
                    yn as int,
                    x * ss,
                    y * ss,
                );
            }
            if ok {
                proof {
                    assert(0 <= x < plane.width && 0 <= y < plane.height);
                    arith::lemma_flat_bound(x, y, plane.stride as int, plane.height as int);
                }
                let v = if down {
                    plane.get(xb - 1, yb + j)
                } else {
                    plane.get(xb + j, yb - 1)
                };
                vals.push(v);
                avail.push(true);
            } else {
                vals.push(0);
                avail.push(false);
            }
        }
        proof {
            assert(avail@[k as int] == ok);
            if all {
                assert forall|j: int| #![trigger avail@[j]] 0 <= j < avail@.len() implies avail@[j] by {
                    if j < k {
                        assert(old_avail[j]);
                    }
                }
            } else if ok {
                let b = choose|j: int| #![trigger old_avail[j]] 0 <= j < k && !old_avail[j];
                assert(!avail@[b]);
            }
        }
    }
    (vals, avail, all)
}

/// The column of the `k`-th reference of a side.
pub open spec fn side_x(xb: int, down: bool, k: int) -> int {
    if down {
        xb - 1
    } else {
        xb + k
    }
}

/// The row of the `k`-th reference of a side.
pub open spec fn side_y(yb: int, down: bool, k: int) -> int {
    if down {
        yb + k
    } else {
        yb - 1
    }
}

pub open spec fn side_avail(
    st: PicState,
    constrained: bool,
    c: int,
    xb: int,
    yb: int,
    down: bool,
    k: int,
) -> bool {
    sample_avail(st, constrained, c, xb, yb, side_x(xb, down, k), side_y(yb, down, k))
}

/// The samples of one run share a minimum block.
proof fn lemma_run(along: int, k: int, j: int, run: int)
    requires
        0 <= along,
        0 <= k <= j < k + run - (along + k) % run,
        run == 2 || run == 4,
    ensures
        run == 4 ==> (along + j) / 4 == (along + k) / 4,
        run == 2 ==> ((along + j) * 2) / 4 == ((along + k) * 2) / 4,
{
    let a = along + k;
    let b = along + j;
    if run == 4 {
        assert(a == 4 * (a / 4) + a % 4);
        assert(4 * (a / 4) <= b < 4 * (a / 4) + 4);
        assert(b / 4 == a / 4);
    } else {
        assert(a == 2 * (a / 2) + a % 2);
        assert(2 * (a / 2) <= b < 2 * (a / 2) + 2);
        assert((b * 2) / 4 == a / 2);
        assert((a * 2) / 4 == a / 2);
    }
}

/// Gathers the reference samples of the `n`×`n` block of component `c` at
/// component coordinates (`xb`, `yb`).
pub fn gather_refs(
    plane: &Plane,
    st: &PicState,
    constrained: bool,
    c: usize,
    xb: usize,
    yb: usize,
    n: usize,
) -> (refs: IntraRefs)
    requires
        st.wf(),
        c <= 2,
        plane_covers(*plane, *st, c as int),
        1 <= n <= 64,
        st.inside(xb * chroma_div(c as int), yb * chroma_div(c as int)),
    ensures
        refs_of(refs, *plane, *st, constrained, c as int, xb as int, yb as int, n as int),
{
    let ss: i32 = if c > 0 {
        2
    } else {
        1
    };
    let (left, left_avail, all_left) = gather_side(plane, st, constrained, c, xb, yb, n, true);
    let (top, top_avail, all_top) = gather_side(plane, st, constrained, c, xb, yb, n, false);
    assert(ss == 1 || ss == 2);
    assert(xb * ss <= 0xffff && yb * ss <= 0xffff);
    let corner_avail = reference_available(
        st,
        constrained,
        xb as i32 * ss,
        yb as i32 * ss,
        (xb as i32 - 1) * ss,
        (yb as i32 - 1) * ss,
    );
    let corner = if corner_avail {
        proof {
            arith::lemma_flat_bound(
                xb - 1,
                yb - 1,
                plane.stride as int,
                plane.height as int,
            );
        }
        plane.get(xb - 1, yb - 1)
    } else {
        0
    };
    let refs = IntraRefs {
        left,
        left_avail,
        top,
        top_avail,
        corner,
        corner_avail,
        all_avail: all_left && all_top && corner_avail,
    };
    refs
}

// ---- residual parameters ----

/// How a block's coefficients become a residual.
#[derive(Debug, Clone, Copy, PartialEq, Eq, Structural)]
pub enum TransformKind {
    /// `cu_transquant_bypass_flag`: the coefficients are the residual.
    Bypass,
    /// `transform_skip_flag`: scaled and shifted only.
    Skip,
    /// The 4×4 intra luma transform.
    Dst,
    Dct,
}

/// The scaling of a block: the quantization parameter, and the rectangle that
/// holds its non-zero coefficients, at least one sample each way.
#[derive(Debug, Clone, Copy, PartialEq, Eq, Structural)]
pub struct Dequant {
    pub qp: i32,
    pub w: usize,
    pub h: usize,
}

/// What the scaling and inverse transform of a block are done with.
#[derive(Debug)]
pub struct ResidualPlan<'a> {
    pub kind: TransformKind,
    /// The scaling; none for a bypassed block.
    pub dequant: Option<Dequant>,
    /// The scaling matrix; none for the flat default.
    pub matrix: Option<&'a Vec<u8>>,
    pub bit_depth: u8,
}

pub open spec fn kind_of(
    bypass: bool,
    transform_skip: bool,
    cu_intra: bool,
    c_idx: int,
    log2: int,
) -> TransformKind {
    if bypass {
        TransformKind::Bypass
    } else if transform_skip {
        TransformKind::Skip
    } else if cu_intra && c_idx == 0 && log2 == 2 {
        TransformKind::Dst
    } else {
        TransformKind::Dct
    }
}

/// The chroma quantization parameter for an index (Table 8-10, 4:2:0); negative
/// indices stand for themselves.
pub open spec fn chroma_qp(qpi: int) -> int {
    if qpi < 0 {
        qpi
    } else {
        CHROMA_QP_420@[qpi] as int
    }
}

/// `qP` (§8.6.1) of a component: `Qp′Y`, or the chroma mapping of `QpY` plus
/// the component's offset.
pub open spec fn residual_qp(sps: Sps, qp_y: int, c_idx: int, offset: int) -> int {
    if c_idx == 0 {
        qp_y + sps.qp_bd_offset_y
    } else {
        chroma_qp(arith::clip3(-(sps.qp_bd_offset_c as int), 57, qp_y + offset))
            + sps.qp_bd_offset_c
    }
}

/// The chroma offset of component `c_idx`: picture plus slice.
pub open spec fn qp_offset(pps: Pps, slice_cb: int, slice_cr: int, c_idx: int) -> int {
    if c_idx == 1 {
        pps.cb_qp_offset + slice_cb
    } else {
        pps.cr_qp_offset + slice_cr
    }
}

/// The scaling matrix of a block, where lists are in use; a skipped transform
/// larger than 4×4 takes none.
pub open spec fn matrix_of(
    scaling: Option<ScalingFactors>,
    cu_intra: bool,
    transform_skip: bool,
    log2: int,
    c_idx: int,
) -> Option<Seq<u8>> {
    match scaling {
        Some(sf) => if transform_skip && log2 > 2 {
            None
        } else {
            Some(
                sf.f@[log2 - 2]@[(if cu_intra {
                    0int
                } else {
                    3
                }) + c_idx]@,
            )
        },
        None => None,
    }
}

/// The block and coding unit that a residual belongs to.
#[derive(Debug, Clone, Copy)]
pub struct ResidualOf {
    pub log2: usize,
    pub c_idx: usize,
    pub cu_intra: bool,
    pub bypass: bool,
    pub transform_skip: bool,
    pub nz_w: usize,
    pub nz_h: usize,
    pub qp_y: i32,
    /// The slice's chroma offsets.
    pub slice_cb_qp_offset: i32,
    pub slice_cr_qp_offset: i32,
}

impl ResidualOf {
    /// A block size and component that exist, and a quantization parameter that
    /// can be computed where one is needed.
    pub open spec fn wf(self, sps: Sps, pps: Pps) -> bool {
        let off = qp_offset(
            pps,
            self.slice_cb_qp_offset as int,
            self.slice_cr_qp_offset as int,
            self.c_idx as int,
        );
        &&& 2 <= self.log2 <= 5
        &&& self.c_idx <= 2
        &&& !self.bypass ==> if self.c_idx == 0 {
            0 <= self.qp_y + sps.qp_bd_offset_y <= i32::MAX
        } else {
            &&& i32::MIN <= off <= i32::MAX
            &&& i32::MIN <= self.qp_y + off <= i32::MAX
        }
    }
}

/// `r` is how the residual of a block is made: its transform, its bit depth, its
/// scaling and its matrix.
pub open spec fn is_plan(
    r: ResidualPlan,
    sps: Sps,
    pps: Pps,
    b: ResidualOf,
    scaling: Option<ScalingFactors>,
) -> bool {
    &&& r.kind == kind_of(b.bypass, b.transform_skip, b.cu_intra, b.c_idx as int, b.log2 as int)
    &&& r.bit_depth == (if b.c_idx == 0 {
        sps.bit_depth_luma
    } else {
        sps.bit_depth_chroma
    })
    &&& b.bypass ==> r.dequant is None && r.matrix is None
    &&& !b.bypass ==> (r.dequant matches Some(d) && {
        let n = pow2(b.log2 as nat) as int;
        &&& d.qp == residual_qp(
            sps,
            b.qp_y as int,
            b.c_idx as int,
            qp_offset(
                pps,
                b.slice_cb_qp_offset as int,
                b.slice_cr_qp_offset as int,
                b.c_idx as int,
            ),
        )
        &&& d.w == arith::clip3(1, n, b.nz_w as int)
        &&& d.h == arith::clip3(1, n, b.nz_h as int)
        &&& d.qp >= 0
    })
    &&& !b.bypass ==> (match r.matrix {
        Some(m) => Some(m@),
        None => None,
    }) == matrix_of(scaling, b.cu_intra, b.transform_skip, b.log2 as int, b.c_idx as int)
}

/// Chooses the scaling and transform of a residual (§8.6.2).
pub fn plan_residual<'a>(
    sps: &Sps,
    pps: &Pps,
    b: &ResidualOf,
    scaling: Option<&'a ScalingFactors>,
) -> (r: ResidualPlan<'a>)
    requires
        sps.wf(),
        pps.wf(),
        b.wf(*sps, *pps),
        scaling matches Some(sf) ==> sf.wf(),
    ensures
        is_plan(
            r,
            *sps,
            *pps,
            *b,
            match scaling {
                Some(sf) => Some(*sf),
                None => None,
            },
        ),
{
    let n = arith::pow2_usize(b.log2);
    let bit_depth = if b.c_idx == 0 {
        sps.bit_depth_luma
    } else {
        sps.bit_depth_chroma
    };
    if b.bypass {
        return ResidualPlan { kind: TransformKind::Bypass, dequant: None, matrix: None, bit_depth };
    }
    let kind = if b.transform_skip {
        TransformKind::Skip
    } else if b.cu_intra && b.c_idx == 0 && b.log2 == 2 {
        TransformKind::Dst
    } else {
        TransformKind::Dct
    };
    let qp = if b.c_idx == 0 {
        b.qp_y + sps.qp_bd_offset_y
    } else {
        let off = if b.c_idx == 1 {
            pps.cb_qp_offset + b.slice_cb_qp_offset
        } else {
            pps.cr_qp_offset + b.slice_cr_qp_offset
        };
        let qpi = arith::clip_i32(-sps.qp_bd_offset_c, 57, b.qp_y + off);
        let qpc = if qpi < 0 {
            qpi
        } else {
            CHROMA_QP_420[qpi as usize] as i32
        };
        qpc + sps.qp_bd_offset_c
    };
    let matrix = match scaling {
        Some(sf) => if b.transform_skip && b.log2 > 2 {
            None
        } else {
            let first: usize = if b.cu_intra {
                0
            } else {
                3
            };
            Some(&sf.f[b.log2 - 2][first + b.c_idx])
        },
        None => None,
    };
    let w = arith::max_usize(1, arith::min_usize(b.nz_w, n));
    let h = arith::max_usize(1, arith::min_usize(b.nz_h, n));
    ResidualPlan { kind, dequant: Some(Dequant { qp, w, h }), matrix, bit_depth }
}

// ---- the sum ----

/// `p` is the plane `o` of component `c` with the residual of a block added, the block
/// at luma coordinates (`x0`, `y0`).
pub open spec fn is_sum(
    p: Plane,
    o: Plane,
    x0: int,
    y0: int,
    log2: int,
    c: int,
    bit_depth: int,
    dc: Option<u16>,
    residual: Seq<i32>,
) -> bool {
    let n = pow2(log2 as nat) as int;
    let d = chroma_div(c);
    let (xb, yb) = (x0 / d, y0 / d);
    pixel::block_set(
        p,
        o,
        xb,
        yb,
        n,
        pixel::residual_sum(o, dc, residual, xb, yb, n, pow2(bit_depth as nat) - 1),
    )
}

/// Adds a block's residual to the picture. (`x0`, `y0`) are luma coordinates;
/// `dc` is the prediction where it is a single value that was not written.
pub fn reconstruct_residual(
    pic: &mut Picture,
    x0: usize,
    y0: usize,
    log2: usize,
    c_idx: usize,
    bit_depth: u8,
    dc: Option<u16>,
    residual: &Vec<i32>,
)
    requires
        2 <= log2 <= 5,
        c_idx <= 2,
        1 <= bit_depth <= 16,
        old(pic).planes@[c_idx as int].wf(),
        residual@.len() == pow2(log2 as nat) * pow2(log2 as nat),
        forall|i: int|
            #![trigger residual@[i]]
            0 <= i < residual@.len() ==> residual@[i] <= i32::MAX - 0xffff,
        ({
            let n = pow2(log2 as nat) as int;
            let d = chroma_div(c_idx as int);
            &&& x0 as int / d + n <= old(pic).planes@[c_idx as int].width
            &&& y0 as int / d + n <= old(pic).planes@[c_idx as int].height
        }),
    ensures
        is_sum(
            final(pic).planes@[c_idx as int],
            old(pic).planes@[c_idx as int],
            x0 as int,
            y0 as int,
            log2 as int,
            c_idx as int,
            bit_depth as int,
            dc,
            residual@,
        ),
        final(pic).planes@[c_idx as int].wf(),
        forall|c: int|
            #![trigger final(pic).planes@[c]]
            0 <= c < 3 && c != c_idx ==> final(pic).planes@[c] == old(pic).planes@[c],
        final(pic).same_info(*old(pic)),
{
    let n = arith::pow2_usize(log2);
    let d: usize = if c_idx > 0 {
        2
    } else {
        1
    };
    proof {
        arith::lemma_pow2_le(bit_depth as nat, 16);
        lemma2_to64();
    }
    let max = arith::pow2_i32(bit_depth as u32) - 1;
    pixel::add_residual(&mut pic.planes[c_idx], x0 / d, y0 / d, n, dc, residual, max);
}

} // verus!
