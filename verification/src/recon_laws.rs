//! What reconstruction goes by: the quantization parameter of a component
//! (§8.6.1), the transform and scaling matrix of a block (§8.6.2, §8.6.4), and
//! the neighbours that an intra block is predicted from (§8.4.4.2.2).

use crate::frame::Plane;
use crate::pic::{PicState, PRED_INTRA};
use crate::ps::{Pps, ScalingFactors, Sps};
use crate::recon;
use crate::recon::{IntraRefs, ResidualOf, ResidualPlan};
use crate::sample_laws;
use vstd::arithmetic::power2::*;
use vstd::prelude::*;

verus! {

// ---- quantization parameters ----

/// The luma parameter follows `QpY` step by step, from 0 at the lowest value that
/// the bit depth allows.
pub proof fn lemma_luma_qp(sps: Sps, qp_y: int, o1: int, o2: int)
    ensures
        recon::residual_qp(sps, -(sps.qp_bd_offset_y as int), 0, o1) == 0,
        recon::residual_qp(sps, qp_y + 1, 0, o1) == recon::residual_qp(sps, qp_y, 0, o2) + 1,
{
}

/// A chroma parameter goes by `QpY` plus the component's own two offsets. It
/// follows that sum below 30, lags further and further behind it up to 43, and
/// from there on by 6. It never leaves the range that the bit depth allows.
pub proof fn lemma_chroma_qp(sps: Sps, pps: Pps, qp_y: int, cb: int, cr: int, c: int)
    requires
        c == 1 || c == 2,
        sps.qp_bd_offset_c >= 0,
    ensures
        ({
            let low = -(sps.qp_bd_offset_c as int);
            let q = qp_y + if c == 1 {
                pps.cb_qp_offset + cb
            } else {
                pps.cr_qp_offset + cr
            };
            let r = recon::residual_qp(sps, qp_y, c, recon::qp_offset(pps, cb, cr, c));
            &&& q <= low ==> r == 0
            &&& low <= q < 30 ==> r == q - low
            &&& 30 <= q < 35 ==> r == q - 1 - low
            &&& 35 <= q <= 43 ==> 2 * (r + low) <= q + 32 < 2 * (r + low) + 2
            &&& 43 <= q <= 57 ==> r == q - 6 - low
            &&& q >= 57 ==> r == 51 - low
        }),
{
    let q = qp_y + if c == 1 {
        pps.cb_qp_offset + cb
    } else {
        pps.cr_qp_offset + cr
    };
    if 30 <= q < 57 {
        let t = crate::tables::CHROMA_QP_420@;
        assert(q == 30 || q == 31 || q == 32 || q == 33 || q == 34 || q == 35 || q == 36 || q == 37
            || q == 38 || q == 39 || q == 40 || q == 41 || q == 42 || q >= 43);
    }
}

/// A larger `QpY`, or a larger offset, never gives a smaller chroma parameter,
/// and one step never changes it by more than one.
pub proof fn lemma_chroma_qp_rises(sps: Sps, qp_y: int, c: int, offset: int)
    requires
        c == 1 || c == 2,
        sps.qp_bd_offset_c >= 0,
    ensures
        recon::residual_qp(sps, qp_y, c, offset) <= recon::residual_qp(sps, qp_y + 1, c, offset)
            <= recon::residual_qp(sps, qp_y, c, offset) + 1,
        recon::residual_qp(sps, qp_y + 1, c, offset) == recon::residual_qp(
            sps,
            qp_y,
            c,
            offset + 1,
        ),
{
}

// ---- transforms and scaling matrices ----

/// A bypassed block is not transformed; the sine transform is that of 4×4 intra
/// luma blocks, unless the transform is skipped.
pub proof fn lemma_transform_of(bypass: bool, skip: bool, cu_intra: bool, c: int, log2: int)
    ensures
        ({
            let k = recon::kind_of(bypass, skip, cu_intra, c, log2);
            &&& k is Bypass <==> bypass
            &&& k is Skip <==> skip && !bypass
            &&& k is Dst <==> !skip && !bypass && cu_intra && c == 0 && log2 == 2
            &&& k is Dct <==> !skip && !bypass && !(cu_intra && c == 0 && log2 == 2)
        }),
{
}

/// Each block size, prediction type and component has a matrix of its own (Table
/// 7-4): intra luma, Cb and Cr, then inter luma, Cb and Cr. Only a skipped
/// transform above 4×4 is scaled flat.
pub proof fn lemma_matrix_of(sf: ScalingFactors, skip: bool, log2: int)
    ensures
        ({
            let of = |intra: bool, c: int|
                recon::matrix_of(Some(sf), intra, skip, log2, c);
            let m = sf.f@[log2 - 2]@;
            if skip && log2 != 2 && log2 >= 2 {
                forall|intra: bool, c: int| #![trigger of(intra, c)] of(intra, c) is None
            } else {
                &&& of(true, 0) == Some(m[0]@)
                &&& of(true, 1) == Some(m[1]@)
                &&& of(true, 2) == Some(m[2]@)
                &&& of(false, 0) == Some(m[3]@)
                &&& of(false, 1) == Some(m[4]@)
                &&& of(false, 2) == Some(m[5]@)
            }
        }),
        forall|intra: bool, c: int|
            #![trigger recon::matrix_of(None, intra, skip, log2, c)]
            recon::matrix_of(None, intra, skip, log2, c) is None,
{
}

/// A plan names the bit depth of its component. A bypassed block is neither scaled
/// nor transformed; any other is scaled over the rectangle that holds its
/// coefficients, at least one sample and at most the block, by the parameter and the
/// matrix of its component.
pub proof fn lemma_plan(
    r: ResidualPlan,
    sps: Sps,
    pps: Pps,
    b: ResidualOf,
    scaling: Option<ScalingFactors>,
)
    requires
        recon::is_plan(r, sps, pps, b, scaling),
        2 <= b.log2 <= 5,
    ensures
        b.c_idx == 0 ==> r.bit_depth == sps.bit_depth_luma,
        b.c_idx > 0 ==> r.bit_depth == sps.bit_depth_chroma,
        b.bypass <==> r.kind is Bypass,
        b.bypass <==> r.dequant is None,
        r.dequant matches Some(d) ==> {
            let n = pow2(b.log2 as nat) as int;
            let offset = if b.c_idx == 1 {
                pps.cb_qp_offset + b.slice_cb_qp_offset
            } else {
                pps.cr_qp_offset + b.slice_cr_qp_offset
            };
            &&& d.qp == recon::residual_qp(sps, b.qp_y as int, b.c_idx as int, offset)
            &&& 1 <= b.nz_w <= n ==> d.w == b.nz_w
            &&& 1 <= b.nz_h <= n ==> d.h == b.nz_h
            &&& b.nz_w == 0 ==> d.w == 1
            &&& b.nz_h == 0 ==> d.h == 1
            &&& d.w <= n && d.h <= n
            &&& r.matrix is Some <==> scaling is Some && !(b.transform_skip && b.log2 >= 3)
        },
        b.bypass ==> r.matrix is None,
{
    lemma2_to64();
    lemma_pow2_pos(b.log2 as nat);
}

/// A block of luma stands at its luma location, one of chroma at half of it each way;
/// there the residual is added, and nowhere else.
pub proof fn lemma_sum_in_place(
    p: Plane,
    o: Plane,
    x0: int,
    y0: int,
    log2: int,
    c: int,
    bit_depth: int,
    dc: Option<u16>,
    res: Seq<i32>,
    i: int,
    j: int,
)
    requires
        recon::is_sum(p, o, x0, y0, log2, c, bit_depth, dc, res),
        0 <= c <= 2,
        x0 >= 0,
        y0 >= 0,
    ensures
        ({
            let n = pow2(log2 as nat) as int;
            let (xb, yb) = if c == 0 {
                (x0, y0)
            } else {
                (x0 / 2, y0 / 2)
            };
            let max = pow2(bit_depth as nat) - 1;
            &&& 0 <= i < n && 0 <= j < n && xb + n <= o.stride && yb + n <= o.height ==> ({
                let from = match dc {
                    Some(v) => v as int,
                    None => o.data@[(yb + j) * o.stride + (xb + i)] as int,
                };
                let sum = from + res[j * n + i];
                let new = p.data@[(yb + j) * p.stride + (xb + i)] as int;
                &&& 0 <= sum <= max ==> new == sum
                &&& sum < 0 ==> new == 0
                &&& sum > max ==> new == max
            })
            &&& 0 <= i < o.stride && 0 <= j < o.height && (i < xb || i >= xb + n || j < yb || j >= yb
                + n) ==> p.data@[j * p.stride + i] == o.data@[j * o.stride + i]
        }),
{
    let n = pow2(log2 as nat) as int;
    let d = recon::chroma_div(c);
    assert(x0 / 1 == x0 && y0 / 1 == y0);
    lemma_pow2_pos(bit_depth as nat);
    sample_laws::lemma_residual_added(
        p,
        o,
        dc,
        res,
        x0 / d,
        y0 / d,
        n,
        pow2(bit_depth as nat) - 1,
        i,
        j,
    );
}

// ---- reference samples ----

/// Whether a block of component `c` at (`xb`, `yb`) may use sample (`x`, `y`) of
/// that component: where its luma location was decoded before the block's own, in
/// the same slice and tile, and, where prediction is constrained, from an intra
/// unit. Chroma has one sample for every second luma sample.
pub open spec fn usable(
    st: PicState,
    constrained: bool,
    c: int,
    xb: int,
    yb: int,
    x: int,
    y: int,
) -> bool {
    let k = if c == 0 {
        1int
    } else {
        2
    };
    &&& st.avail(k * xb, k * yb, k * x, k * y)
    &&& constrained ==> st.pred_mode@[(k * y / 4) * st.w4 + k * x / 4] == PRED_INTRA
}

proof fn lemma_usable(
    st: PicState,
    constrained: bool,
    c: int,
    xb: int,
    yb: int,
    x: int,
    y: int,
)
    requires
        0 <= c <= 2,
    ensures
        recon::sample_avail(st, constrained, c, xb, yb, x, y) == usable(
            st,
            constrained,
            c,
            xb,
            yb,
            x,
            y,
        ),
{
    if c == 0 {
        assert(1 * xb == xb && 1 * yb == yb && 1 * x == x && 1 * y == y);
    } else {
        assert(2 * xb == xb * 2 && 2 * yb == yb * 2 && 2 * x == x * 2 && 2 * y == y * 2);
    }
}

/// The references of an `n`×`n` block are the samples next to it: down the column
/// on its left and along the row above, each twice the block's size, and the
/// corner where the two meet. Those that may not be used are marked.
pub proof fn lemma_refs_are_neighbours(
    r: IntraRefs,
    p: Plane,
    st: PicState,
    constrained: bool,
    c: int,
    xb: int,
    yb: int,
    n: int,
    k: int,
)
    requires
        recon::refs_of(r, p, st, constrained, c, xb, yb, n),
        0 <= c <= 2,
        0 <= k < n + n,
    ensures
        r.left@.len() == n + n,
        r.top@.len() == n + n,
        r.left_avail@.len() == n + n,
        r.top_avail@.len() == n + n,
        r.left_avail@[k] <==> usable(st, constrained, c, xb, yb, xb - 1, yb + k),
        r.left_avail@[k] ==> r.left@[k] == p.data@[(yb + k) * p.stride + (xb - 1)],
        r.top_avail@[k] <==> usable(st, constrained, c, xb, yb, xb + k, yb - 1),
        r.top_avail@[k] ==> r.top@[k] == p.data@[(yb - 1) * p.stride + (xb + k)],
        r.corner_avail <==> usable(st, constrained, c, xb, yb, xb - 1, yb - 1),
        r.corner_avail ==> r.corner == p.data@[(yb - 1) * p.stride + (xb - 1)],
        r.all_avail ==> r.left_avail@[k] && r.top_avail@[k] && r.corner_avail,
{
    lemma_usable(st, constrained, c, xb, yb, xb - 1, yb + k);
    lemma_usable(st, constrained, c, xb, yb, xb + k, yb - 1);
    lemma_usable(st, constrained, c, xb, yb, xb - 1, yb - 1);
}

/// Whether all references can be used is told rightly: if not, one of them
/// cannot.
pub proof fn lemma_refs_missing(
    r: IntraRefs,
    p: Plane,
    st: PicState,
    constrained: bool,
    c: int,
    xb: int,
    yb: int,
    n: int,
)
    requires
        recon::refs_of(r, p, st, constrained, c, xb, yb, n),
        0 <= c <= 2,
        !r.all_avail,
    ensures
        !r.corner_avail || exists|k: int|
            #![trigger r.left_avail@[k]]
            #![trigger r.top_avail@[k]]
            0 <= k < n + n && (!r.left_avail@[k] || !r.top_avail@[k]),
{
    if r.corner_avail {
        if !recon::all_set(r.left_avail@) {
            let k = choose|k: int|
                #![trigger r.left_avail@[k]]
                0 <= k < r.left_avail@.len() && !r.left_avail@[k];
            assert(!r.left_avail@[k]);
        } else {
            let k = choose|k: int|
                #![trigger r.top_avail@[k]]
                0 <= k < r.top_avail@.len() && !r.top_avail@[k];
            assert(!r.top_avail@[k]);
        }
    }
}

} // verus!
