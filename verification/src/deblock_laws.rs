//! What deblocking is for (§8.7.2): how strongly an edge is filtered goes by the
//! quantization parameters beside it and by what differs across it; the filters
//! treat both sides alike.

use crate::arith;
use crate::deblock;
use crate::deblock::{Decision, EdgeParams, Line};
use crate::filters;
use crate::pic::{Motion, PicState, PRED_INTRA};
use crate::ps::{Pps, Sps};
use crate::tables::{BETA_TABLE, CHROMA_QP_420, TC_TABLE};
use vstd::arithmetic::power2::*;
use vstd::prelude::*;

verus! {

// ---- parameters of an edge ----

/// The block before block `i` across its left (`dir` 0) or upper edge.
pub open spec fn other_side(st: PicState, dir: int, i: int) -> int {
    if dir == 0 {
        i - 1
    } else {
        i - st.w4
    }
}

/// `m` is the mean quantization parameter of the two blocks at an edge, rounded
/// up.
pub open spec fn is_mean_qp(st: PicState, dir: int, x4: int, y4: int, m: int) -> bool {
    let i = y4 * st.w4 + x4;
    let sum = st.qp_y@[other_side(st, dir, i)] + st.qp_y@[i];
    sum <= 2 * m <= sum + 1
}

/// An edge: the picture, where the edge is, the mean quantization parameter
/// there, and the edge's strength.
pub struct Edge {
    pub st: PicState,
    pub dir: int,
    pub x4: int,
    pub y4: int,
    pub mean: int,
    pub strength: int,
}

impl Edge {
    pub open spec fn ok(self) -> bool {
        &&& is_mean_qp(self.st, self.dir, self.x4, self.y4, self.mean)
        &&& self.dir == 0 || self.dir == 1
        &&& 1 <= self.strength <= 2
    }

    /// What the edge is filtered with in component `c`.
    pub open spec fn params(self, sps: Sps, pps: Pps, c: int) -> EdgeParams {
        filters::edge_params(
            self.st,
            sps,
            pps,
            c,
            self.dir,
            self.x4,
            self.y4,
            self.strength,
        )
    }

    /// The slice's offset for the filter's strength.
    pub open spec fn tc_offset(self) -> int {
        self.st.ctb_filter@[self.st.ctb_at(4 * self.x4, 4 * self.y4)].tc_offset_div2 as int
    }

    /// The slice's offset for the decision to filter.
    pub open spec fn beta_offset(self) -> int {
        self.st.ctb_filter@[self.st.ctb_at(4 * self.x4, 4 * self.y4)].beta_offset_div2 as int
    }
}

proof fn lemma_mean(e: Edge)
    requires
        e.ok(),
    ensures
        ({
            let i = e.y4 * e.st.w4 + e.x4;
            let p = filters::block_before(e.st, e.dir, e.x4, e.y4);
            p == other_side(e.st, e.dir, i) && (e.st.qp_y@[p] + e.st.qp_y@[i] + 1) / 2 == e.mean
        }),
{
    assert((e.y4 - 1) * e.st.w4 == e.y4 * e.st.w4 - e.st.w4) by (nonlinear_arith);
}

proof fn lemma_tc_entry(i: int)
    requires
        0 <= i <= 53,
    ensures
        TC_TABLE@[i] > 0 <==> i >= 18,
        i == 53 ==> TC_TABLE@[i] == 24,
        TC_TABLE@[i] <= 24,
{
}

proof fn lemma_tc_rises(i: int, j: int)
    requires
        0 <= i <= j <= 53,
    ensures
        TC_TABLE@[i] <= TC_TABLE@[j],
    decreases j - i,
{
    if i < j {
        lemma_tc_rises(i, j - 1);
        assert(TC_TABLE@[j - 1] <= TC_TABLE@[j]);
    }
}

proof fn lemma_beta_entry(i: int)
    requires
        0 <= i <= 51,
    ensures
        BETA_TABLE@[i] > 0 <==> i >= 16,
        i == 51 ==> BETA_TABLE@[i] == 64,
        BETA_TABLE@[i] <= 64,
{
}

proof fn lemma_beta_rises(i: int, j: int)
    requires
        0 <= i <= j <= 51,
    ensures
        BETA_TABLE@[i] <= BETA_TABLE@[j],
        16 <= i <= j <= 28 ==> BETA_TABLE@[j] - BETA_TABLE@[i] == j - i,
        28 <= i <= j ==> BETA_TABLE@[j] - BETA_TABLE@[i] == 2 * (j - i),
    decreases j - i,
{
    if i < j {
        lemma_beta_rises(i, j - 1);
        assert(BETA_TABLE@[j - 1] <= BETA_TABLE@[j]);
        assert(16 <= j - 1 < 28 ==> BETA_TABLE@[j] == BETA_TABLE@[j - 1] + 1);
        assert(28 <= j - 1 ==> BETA_TABLE@[j] == BETA_TABLE@[j - 1] + 2);
    }
}

/// `a` times the unit of bit depth `da`, against `b` times that of `db`.
pub open spec fn unit_of(depth: int) -> int {
    pow2((depth - 8) as nat) as int
}

proof fn lemma_unit(depth: int)
    requires
        8 <= depth <= 16,
    ensures
        1 <= unit_of(depth) <= 256,
{
    arith::lemma_pow2_le(0, (depth - 8) as nat);
    arith::lemma_pow2_le((depth - 8) as nat, 8);
    lemma2_to64();
}

proof fn lemma_scaled(a: int, b: int, u: int, v: int)
    requires
        0 <= a <= b <= 64,
        1 <= u <= 256,
        1 <= v <= 256,
    ensures
        (a * u) * v <= (b * v) * u,
        a == b ==> (a * u) * v == (b * v) * u,
        0 <= a * u <= 0x4000,
        0 <= b * v <= 0x4000,
        a > 0 <==> a * u > 0,
        b > 0 <==> b * v > 0,
{
    assert((a * u) * v == a * (u * v)) by (nonlinear_arith);
    assert((b * v) * u == b * (u * v)) by (nonlinear_arith);
    assert(a * (u * v) <= b * (u * v)) by (nonlinear_arith)
        requires
            a <= b,
            u >= 1,
            v >= 1,
    ;
    assert(0 <= a * u <= 64 * 256 && 0 <= b * v <= 64 * 256) by (nonlinear_arith)
        requires
            0 <= a <= 64,
            0 <= b <= 64,
            1 <= u <= 256,
            1 <= v <= 256,
    ;
    assert((a > 0 <==> a * u > 0) && (b > 0 <==> b * v > 0)) by (nonlinear_arith)
        requires
            0 <= a,
            0 <= b,
            u >= 1,
            v >= 1,
    ;
}

/// How far luma samples may move at an edge goes by one sum: the mean
/// quantization parameter, twice the strength and twice the slice's offset. Of
/// two edges the one with the larger sum allows no less, and equal sums allow
/// the same, each in the unit of its own bit depth; so a step of strength counts
/// as much as two of the quantization parameter. Nothing may move where the sum
/// is below 20, something wherever it is not, and the largest sums allow 24
/// units.
pub proof fn lemma_luma_limit(a: Edge, b: Edge, sa: Sps, sb: Sps, pa: Pps, pb: Pps)
    requires
        a.ok(),
        b.ok(),
        8 <= sa.bit_depth_luma <= 16,
        8 <= sb.bit_depth_luma <= 16,
    ensures
        ({
            let (ta, tb) = (a.params(sa, pa, 0).tc, b.params(sb, pb, 0).tc);
            let (ua, ub) = (unit_of(sa.bit_depth_luma as int), unit_of(sb.bit_depth_luma as int));
            let x = a.mean + 2 * a.strength + 2 * a.tc_offset();
            let y = b.mean + 2 * b.strength + 2 * b.tc_offset();
            &&& x <= y ==> ta * ub <= tb * ua
            &&& x == y ==> ta * ub == tb * ua
            &&& ta > 0 <==> x >= 20
            &&& ta >= 0
            &&& x >= 55 ==> ta == 24 * ua
        }),
{
    lemma_mean(a);
    lemma_mean(b);
    lemma_unit(sa.bit_depth_luma as int);
    lemma_unit(sb.bit_depth_luma as int);
    let (ua, ub) = (unit_of(sa.bit_depth_luma as int), unit_of(sb.bit_depth_luma as int));
    let i = arith::clip3(0, 53, a.mean + 2 * (a.strength - 1) + 2 * a.tc_offset());
    let j = arith::clip3(0, 53, b.mean + 2 * (b.strength - 1) + 2 * b.tc_offset());
    lemma_tc_entry(i);
    lemma_tc_entry(j);
    let (va, vb) = (TC_TABLE@[i] as int, TC_TABLE@[j] as int);
    lemma_scaled(va, va, ua, ua);
    lemma_scaled(vb, vb, ub, ub);
    if i <= j {
        lemma_tc_rises(i, j);
        lemma_scaled(va, vb, ua, ub);
    } else {
        lemma_tc_rises(j, i);
        lemma_scaled(vb, va, ub, ua);
    }
}

/// How much the samples beside an edge may vary goes by another sum: the mean
/// quantization parameter and twice the slice's offset, whatever the strength
/// and the component. It allows nothing below 16, and 64 units at 51.
pub proof fn lemma_variation_limit(a: Edge, b: Edge, sa: Sps, sb: Sps, pa: Pps, pb: Pps)
    requires
        a.ok(),
        b.ok(),
        8 <= sa.bit_depth_luma <= 16,
        8 <= sb.bit_depth_luma <= 16,
    ensures
        ({
            let (ba, bb) = (a.params(sa, pa, 0).beta, b.params(sb, pb, 0).beta);
            let (ua, ub) = (unit_of(sa.bit_depth_luma as int), unit_of(sb.bit_depth_luma as int));
            let x = a.mean + 2 * a.beta_offset();
            let y = b.mean + 2 * b.beta_offset();
            &&& x <= y ==> ba * ub <= bb * ua
            &&& x == y ==> ba * ub == bb * ua
            &&& ba > 0 <==> x >= 16
            &&& ba >= 0
            &&& x >= 51 ==> ba == 64 * ua
        }),
{
    lemma_mean(a);
    lemma_mean(b);
    lemma_unit(sa.bit_depth_luma as int);
    lemma_unit(sb.bit_depth_luma as int);
    let (ua, ub) = (unit_of(sa.bit_depth_luma as int), unit_of(sb.bit_depth_luma as int));
    let i = arith::clip3(0, 51, a.mean + 2 * a.beta_offset());
    let j = arith::clip3(0, 51, b.mean + 2 * b.beta_offset());
    lemma_beta_entry(i);
    lemma_beta_entry(j);
    let (va, vb) = (BETA_TABLE@[i] as int, BETA_TABLE@[j] as int);
    lemma_scaled(va, va, ua, ua);
    lemma_scaled(vb, vb, ub, ub);
    if i <= j {
        lemma_beta_rises(i, j);
        lemma_scaled(va, vb, ua, ub);
    } else {
        lemma_beta_rises(j, i);
        lemma_scaled(vb, va, ub, ua);
    }
}

proof fn lemma_chroma_map(q: int)
    ensures
        q < 30 ==> filters::deblock_chroma_qp(q) == q,
        q >= 43 ==> filters::deblock_chroma_qp(q) == q - 6,
        q - 6 <= filters::deblock_chroma_qp(q) <= q,
        filters::deblock_chroma_qp(q) <= filters::deblock_chroma_qp(q + 1)
            <= filters::deblock_chroma_qp(q) + 1,
{
    if 0 <= q <= 57 {
        assert(q < 30 ==> CHROMA_QP_420@[q] == q);
        assert(q >= 43 ==> CHROMA_QP_420@[q] == q - 6);
        assert(q - 6 <= CHROMA_QP_420@[q] <= q);
        if q < 57 {
            assert(CHROMA_QP_420@[q] <= CHROMA_QP_420@[q + 1] <= CHROMA_QP_420@[q] + 1);
        } else {
            assert(CHROMA_QP_420@[57] == 51);
        }
    }
}

proof fn lemma_chroma_map_rises(q: int, r: int)
    requires
        q <= r,
    ensures
        filters::deblock_chroma_qp(q) <= filters::deblock_chroma_qp(r),
    decreases r - q,
{
    if q < r {
        lemma_chroma_map_rises(q, r - 1);
        lemma_chroma_map(r - 1);
    }
}

/// Chroma samples may move as far as luma ones at an edge of strength 2 whose
/// mean quantization parameter is the chroma one: the mean with the picture's
/// offset for the component, as it is below 30, 6 less from 43 on, and between
/// these elsewhere; more for a larger one.
pub proof fn lemma_chroma_limit(a: Edge, b: Edge, sps: Sps, pa: Pps, pb: Pps, c: int)
    requires
        a.ok(),
        b.ok(),
        c == 1 || c == 2,
        8 <= sps.bit_depth_chroma <= 16,
        sps.bit_depth_luma == sps.bit_depth_chroma,
        a.tc_offset() == b.tc_offset(),
        b.strength == 2,
    ensures
        ({
            let q = a.mean + if c == 1 {
                pa.cb_qp_offset
            } else {
                pa.cr_qp_offset
            };
            let chroma = a.params(sps, pa, c).tc;
            let luma = b.params(sps, pb, 0).tc;
            &&& q < 30 && b.mean == q ==> chroma == luma
            &&& q >= 43 && b.mean == q - 6 ==> chroma == luma
            &&& b.mean >= q ==> chroma <= luma
            &&& b.mean <= q - 6 ==> luma <= chroma
        }),
{
    lemma_mean(a);
    lemma_mean(b);
    lemma_unit(sps.bit_depth_chroma as int);
    let u = unit_of(sps.bit_depth_chroma as int);
    let q = a.mean + if c == 1 {
        pa.cb_qp_offset
    } else {
        pa.cr_qp_offset
    };
    lemma_chroma_map(q);
    let i = arith::clip3(0, 53, filters::deblock_chroma_qp(q) + 2 + 2 * a.tc_offset());
    let j = arith::clip3(0, 53, b.mean + 2 * (b.strength - 1) + 2 * b.tc_offset());
    lemma_tc_entry(i);
    lemma_tc_entry(j);
    let (va, vb) = (TC_TABLE@[i] as int, TC_TABLE@[j] as int);
    lemma_scaled(va, va, u, u);
    lemma_scaled(vb, vb, u, u);
    if i <= j {
        lemma_tc_rises(i, j);
        assert(va * u <= vb * u) by (nonlinear_arith)
            requires
                va <= vb,
                u >= 1,
        ;
    }
    if j <= i {
        lemma_tc_rises(j, i);
        assert(vb * u <= va * u) by (nonlinear_arith)
            requires
                vb <= va,
                u >= 1,
        ;
    }
}

/// A chroma edge with a larger quantization parameter allows no less.
pub proof fn lemma_chroma_limit_rises(a: Edge, b: Edge, sps: Sps, pa: Pps, pb: Pps, c: int, d: int)
    requires
        a.ok(),
        b.ok(),
        1 <= c <= 2,
        1 <= d <= 2,
        8 <= sps.bit_depth_chroma <= 16,
        ({
            let (q, r) = (
                a.mean + if c == 1 {
                    pa.cb_qp_offset
                } else {
                    pa.cr_qp_offset
                },
                b.mean + if d == 1 {
                    pb.cb_qp_offset
                } else {
                    pb.cr_qp_offset
                },
            );
            q <= r && a.tc_offset() <= b.tc_offset()
        }),
    ensures
        a.params(sps, pa, c).tc <= b.params(sps, pb, d).tc,
{
    lemma_mean(a);
    lemma_mean(b);
    lemma_unit(sps.bit_depth_chroma as int);
    let u = unit_of(sps.bit_depth_chroma as int);
    let q = a.mean + if c == 1 {
        pa.cb_qp_offset
    } else {
        pa.cr_qp_offset
    };
    let r = b.mean + if d == 1 {
        pb.cb_qp_offset
    } else {
        pb.cr_qp_offset
    };
    lemma_chroma_map_rises(q, r);
    let i = arith::clip3(0, 53, filters::deblock_chroma_qp(q) + 2 + 2 * a.tc_offset());
    let j = arith::clip3(0, 53, filters::deblock_chroma_qp(r) + 2 + 2 * b.tc_offset());
    lemma_tc_rises(i, j);
    lemma_tc_entry(j);
    let (va, vb) = (TC_TABLE@[i] as int, TC_TABLE@[j] as int);
    lemma_scaled(va, vb, u, u);
    assert(va * u <= vb * u) by (nonlinear_arith)
        requires
            va <= vb,
            u >= 1,
    ;
}

/// Each side of an edge is left alone if and only if its own block is.
pub proof fn lemma_sides_left_alone(a: Edge, sps: Sps, pps: Pps, c: int)
    requires
        a.ok(),
    ensures
        ({
            let i = a.y4 * a.st.w4 + a.x4;
            let e = a.params(sps, pps, c);
            &&& e.no_q <==> a.st.filter_bypass@[i] != 0
            &&& e.no_p <==> a.st.filter_bypass@[other_side(a.st, a.dir, i)] != 0
        }),
{
    lemma_mean(a);
}

// ---- boundary strength ----

/// The vectors of list `i` of one block and list `j` of the other agree: the same
/// picture, and less than a sample apart in both directions.
pub open spec fn vectors_agree(p: Motion, i: int, q: Motion, j: int) -> bool {
    let dx = p.mv@[i]@[0] - q.mv@[j]@[0];
    let dy = p.mv@[i]@[1] - q.mv@[j]@[1];
    p.ref_poc@[i] == q.ref_poc@[j] && -4 < dx < 4 && -4 < dy < 4
}

/// The vectors of two blocks can be paired off so that each pair agrees.
pub open spec fn motion_agrees(p: Motion, q: Motion) -> bool {
    match (p.pred_flags, q.pred_flags) {
        (1, 1) => vectors_agree(p, 0, q, 0),
        (1, 2) => vectors_agree(p, 0, q, 1),
        (2, 1) => vectors_agree(p, 1, q, 0),
        (2, 2) => vectors_agree(p, 1, q, 1),
        (3, 3) => vectors_agree(p, 0, q, 0) && vectors_agree(p, 1, q, 1) || vectors_agree(
            p,
            0,
            q,
            1,
        ) && vectors_agree(p, 1, q, 0),
        _ => false,
    }
}

/// §8.7.2.4: the motion of two inter blocks calls for a filter at their edge if
/// and only if their vectors cannot be paired off.
pub proof fn lemma_motion_differs(p: Motion, q: Motion)
    requires
        1 <= p.pred_flags <= 3,
        1 <= q.pred_flags <= 3,
    ensures
        filters::motion_differs(p, q) <==> !motion_agrees(p, q),
{
    reveal_with_fuel(filters::ones, 3);
}

/// The strength of an edge: 2 if and only if a block at it is intra; else 1 if
/// and only if it is a transform edge with coefficients on a side, or the motion
/// differs. It does not matter which side is which.
pub proof fn lemma_strength(st: PicState, p: int, q: int, tu: bool)
    requires
        st.pred_mode@[p] != PRED_INTRA ==> 1 <= st.motion@[p].pred_flags <= 3,
        st.pred_mode@[q] != PRED_INTRA ==> 1 <= st.motion@[q].pred_flags <= 3,
    ensures
        ({
            let b = filters::strength(st, p, q, tu);
            let intra = st.pred_mode@[p] == PRED_INTRA || st.pred_mode@[q] == PRED_INTRA;
            let coeffs = st.nz@[p] != 0 || st.nz@[q] != 0;
            &&& b <= 2
            &&& b == 2 <==> intra
            &&& b == 0 <==> !intra && !(tu && coeffs) && motion_agrees(
                st.motion@[p],
                st.motion@[q],
            )
            &&& b == filters::strength(st, q, p, tu)
        }),
{
    if st.pred_mode@[p] != PRED_INTRA && st.pred_mode@[q] != PRED_INTRA {
        lemma_motion_differs(st.motion@[p], st.motion@[q]);
        lemma_motion_differs(st.motion@[q], st.motion@[p]);
    }
}

// ---- filters ----

/// The line seen from the other side.
pub open spec fn mirrored(l: Line) -> Line {
    Line {
        p0: l.q0,
        p1: l.q1,
        p2: l.q2,
        p3: l.q3,
        q0: l.p0,
        q1: l.p1,
        q2: l.p2,
        q3: l.p3,
    }
}

/// The line moved up or down.
pub open spec fn raised(l: Line, k: int) -> Line {
    Line {
        p0: l.p0 + k,
        p1: l.p1 + k,
        p2: l.p2 + k,
        p3: l.p3 + k,
        q0: l.q0 + k,
        q1: l.q1 + k,
        q2: l.q2 + k,
        q3: l.q3 + k,
    }
}

/// The decision for an edge is the same from both sides, from both ends, and at
/// every height; only the sides change places.
pub proof fn lemma_decision_from_both_sides(l0: Line, l3: Line, beta: int, tc: int, k: int)
    ensures
        ({
            let d = deblock::decide(l0, l3, beta, tc);
            let m = deblock::decide(mirrored(l0), mirrored(l3), beta, tc);
            &&& m.de == d.de && m.dep == d.deq && m.deq == d.dep
            &&& deblock::decide(l3, l0, beta, tc) == d
            &&& deblock::decide(raised(l0, k), raised(l3, k), beta, tc) == d
        }),
{
}

/// Larger limits never filter less.
pub proof fn lemma_decision_rises(l0: Line, l3: Line, b1: int, t1: int, b2: int, t2: int)
    requires
        0 <= b1 <= b2,
        0 <= t1 <= t2,
    ensures
        ({
            let d = deblock::decide(l0, l3, b1, t1);
            let e = deblock::decide(l0, l3, b2, t2);
            d.de <= e.de && (d.dep ==> e.dep) && (d.deq ==> e.deq)
        }),
{
}

/// An edge is filtered at all if and only if the bends of its outer lines on both
/// sides add up to less than beta; a side is flat enough for a second sample to
/// be changed if and only if its own bends do not reach three sixteenths of it.
pub proof fn lemma_decision_by_bends(l0: Line, l3: Line, beta: int, tc: int)
    requires
        beta >= 0,
    ensures
        ({
            let bend = |a: int, b: int, c: int|
                if a + c >= 2 * b {
                    a + c - 2 * b
                } else {
                    2 * b - a - c
                };
            let p = bend(l0.p0, l0.p1, l0.p2) + bend(l3.p0, l3.p1, l3.p2);
            let q = bend(l0.q0, l0.q1, l0.q2) + bend(l3.q0, l3.q1, l3.q2);
            let d = deblock::decide(l0, l3, beta, tc);
            &&& d.de == 0 <==> p + q >= beta
            &&& d.de != 0 ==> (d.dep <==> 16 * p + 16 <= 3 * beta || 8 * p + 8 <= beta + beta / 2)
            &&& d.de != 0 ==> (d.deq <==> 16 * q + 16 <= 3 * beta || 8 * q + 8 <= beta + beta / 2)
        }),
{
}

/// A step between two flat sides is filtered with the strong filter if and only
/// if it is less than two and a half times tc, rounded, and with the weak one
/// else.
pub proof fn lemma_step_decision(a: int, b: int, beta: int, tc: int)
    requires
        beta >= 8,
        tc >= 0,
    ensures
        ({
            let l = Line { p0: a, p1: a, p2: a, p3: a, q0: b, q1: b, q2: b, q3: b };
            let h = if a < b {
                b - a
            } else {
                a - b
            };
            let d = deblock::decide(l, l, beta, tc);
            d.de == (if 2 * h + 1 <= 5 * tc {
                2
            } else {
                1int
            }) && d.dep && d.deq
        }),
{
}

/// A slope is filtered with the strong filter only if its rise over the three
/// samples on each side adds up to less than an eighth of beta.
pub proof fn lemma_slope_decision(a: int, s: int, beta: int, tc: int)
    requires
        beta >= 8,
        s >= 0,
        2 * s + 1 <= 5 * tc,
    ensures
        ({
            let l = Line {
                p0: a,
                p1: a - s,
                p2: a - 2 * s,
                p3: a - 3 * s,
                q0: a + s,
                q1: a + 2 * s,
                q2: a + 3 * s,
                q3: a + 4 * s,
            };
            deblock::decide(l, l, beta, tc).de == (if 8 * (6 * s + 1) <= beta {
                2
            } else {
                1int
            })
        }),
{
}

/// The distance of two numbers.
pub open spec fn apart(a: int, b: int) -> int {
    if a < b {
        b - a
    } else {
        a - b
    }
}

/// How much a line bends, on both sides of the edge together.
pub open spec fn bend(l: Line) -> int {
    apart(l.p2 + l.p0, 2 * l.p1) + apart(l.q2 + l.q0, 2 * l.q1)
}

/// A line that the strong filter suits: it bends by less than an eighth of the limit,
/// its sides rise by less than that, and its step is less than two and a half tc.
pub open spec fn suits_strong(l: Line, beta: int, tc: int) -> bool {
    &&& 8 * bend(l) + 4 <= beta
    &&& 8 * (apart(l.p3, l.p0) + apart(l.q0, l.q3)) + 8 <= beta
    &&& 2 * apart(l.p0, l.q0) + 1 <= 5 * tc
}

/// A segment is filtered if its first and last line together bend by less than the
/// limit, and strongly if both suit the strong filter. The second sample of a side
/// moves if that side bends by less than three sixteenths of the limit.
pub proof fn lemma_decision(l0: Line, l3: Line, beta: int, tc: int)
    requires
        beta >= 0,
        tc >= 0,
    ensures
        ({
            let d = deblock::decide(l0, l3, beta, tc);
            let on = bend(l0) + bend(l3) < beta;
            let p = apart(l0.p2 + l0.p0, 2 * l0.p1) + apart(l3.p2 + l3.p0, 2 * l3.p1);
            let q = apart(l0.q2 + l0.q0, 2 * l0.q1) + apart(l3.q2 + l3.q0, 2 * l3.q1);
            &&& d.de == if !on {
                0int
            } else if suits_strong(l0, beta, tc) && suits_strong(l3, beta, tc) {
                2
            } else {
                1
            }
            &&& d.dep <==> on && 8 * p + 8 <= beta + beta / 2
            &&& d.deq <==> on && 8 * q + 8 <= beta + beta / 2
        }),
{
}

/// The smallest and largest of a line lie around `lo` and `hi`.
pub open spec fn between(l: Line, lo: int, hi: int) -> bool {
    &&& lo <= l.p0 <= hi
    &&& lo <= l.p1 <= hi
    &&& lo <= l.p2 <= hi
    &&& lo <= l.p3 <= hi
    &&& lo <= l.q0 <= hi
    &&& lo <= l.q1 <= hi
    &&& lo <= l.q2 <= hi
    &&& lo <= l.q3 <= hi
}

/// The strong filter treats both sides alike.
pub proof fn lemma_strong_from_both_sides(l: Line, tc: int)
    ensures
        deblock::strong_line(mirrored(l), tc) == mirrored(deblock::strong_line(l, tc)),
{
    let f = deblock::strong(l);
    let g = deblock::strong(mirrored(l));
    assert(g.p0 == f.q0 && g.p1 == f.q1 && g.p2 == f.q2);
    assert(g.q0 == f.p0 && g.q1 == f.p1 && g.q2 == f.p2);
}

/// The strong filter does the same at every height.
pub proof fn lemma_strong_at_every_height(l: Line, tc: int, k: int)
    ensures
        deblock::strong_line(raised(l, k), tc) == raised(deblock::strong_line(l, tc), k),
{
    let f = deblock::strong(l);
    let g = deblock::strong(raised(l, k));
    lemma_eighths(l.p2 + 2 * l.p1 + 2 * l.p0 + 2 * l.q0 + l.q1 + 4, k);
    lemma_eighths(2 * l.p3 + 3 * l.p2 + l.p1 + l.p0 + l.q0 + 4, k);
    lemma_eighths(l.p1 + 2 * l.p0 + 2 * l.q0 + 2 * l.q1 + l.q2 + 4, k);
    lemma_eighths(l.p0 + l.q0 + l.q1 + 3 * l.q2 + 2 * l.q3 + 4, k);
    lemma_quarters(l.p2 + l.p1 + l.p0 + l.q0 + 2, k);
    lemma_quarters(l.p0 + l.q0 + l.q1 + l.q2 + 2, k);
    lemma_near_raised(l.p0, f.p0, tc, k);
    lemma_near_raised(l.p1, f.p1, tc, k);
    lemma_near_raised(l.p2, f.p2, tc, k);
    lemma_near_raised(l.q0, f.q0, tc, k);
    lemma_near_raised(l.q1, f.q1, tc, k);
    lemma_near_raised(l.q2, f.q2, tc, k);
}

proof fn lemma_eighths(a: int, k: int)
    ensures
        (a + 8 * k) / 8 == a / 8 + k,
{
}

proof fn lemma_quarters(a: int, k: int)
    ensures
        (a + 4 * k) / 4 == a / 4 + k,
{
}

proof fn lemma_near_raised(v: int, f: int, tc: int, k: int)
    ensures
        deblock::near_old(v + k, f + k, tc) == deblock::near_old(v, f, tc) + k,
{
}

/// The strong filter stays among the samples that it smooths.
pub proof fn lemma_strong_stays_between(l: Line, tc: int, lo: int, hi: int)
    requires
        tc >= 0,
        between(l, lo, hi),
    ensures
        between(deblock::strong_line(l, tc), lo, hi),
{
    let f = deblock::strong(l);
    assert(lo <= f.p0 <= hi && lo <= f.p1 <= hi && lo <= f.p2 <= hi);
    assert(lo <= f.q0 <= hi && lo <= f.q1 <= hi && lo <= f.q2 <= hi);
}

/// The strong filter turns a step into a ramp: between two flat sides far enough
/// from clipping, the samples rise in even steps, as far as rounding lets them.
pub proof fn lemma_strong_makes_a_ramp(a: int, h: int, tc: int)
    requires
        0 <= h <= 2 * tc,
    ensures
        ({
            let b = a + 8 * h;
            let l = Line { p0: a, p1: a, p2: a, p3: a, q0: b, q1: b, q2: b, q3: b };
            let r = deblock::strong_line(l, 4 * tc);
            &&& r.p2 == a + h
            &&& r.p1 == a + 2 * h
            &&& r.p0 == a + 3 * h
            &&& r.q0 == a + 5 * h
            &&& r.q1 == a + 6 * h
            &&& r.q2 == a + 7 * h
        }),
{
}

/// `v` is the mean of `n` samples with the sum `sum`, rounded to the nearest, up
/// from the middle.
pub open spec fn is_mean(v: int, sum: int, n: int) -> bool {
    n * v <= sum + n / 2 < n * v + n
}

/// A sample moves to `v`, or as far towards it as twice tc.
pub open spec fn moves_to(old_v: int, new_v: int, v: int, tc: int) -> bool {
    &&& -2 * tc <= v - old_v <= 2 * tc ==> new_v == v
    &&& v - old_v > 2 * tc ==> new_v == old_v + 2 * tc
    &&& v - old_v < -2 * tc ==> new_v == old_v - 2 * tc
}

/// The strong filter moves each of the three samples on the `p` side to a mean of
/// those around it: the first to that of five, its own, its two neighbours' and the
/// one across doubled; the second to that of four; the third to that of the rest
/// with its own thrice and the last twice. The `q` side mirrors it.
pub proof fn lemma_strong_weights(l: Line, tc: int, v0: int, v1: int, v2: int)
    requires
        tc >= 0,
        is_mean(v0, l.p2 + l.p1 + l.p1 + l.p0 + l.p0 + l.q0 + l.q0 + l.q1, 8),
        is_mean(v1, l.p2 + l.p1 + l.p0 + l.q0, 4),
        is_mean(v2, l.p3 + l.p3 + l.p2 + l.p2 + l.p2 + l.p1 + l.p0 + l.q0, 8),
    ensures
        ({
            let r = deblock::strong_line(l, tc);
            let m = deblock::strong_line(mirrored(l), tc);
            &&& moves_to(l.p0, r.p0, v0, tc)
            &&& moves_to(l.p1, r.p1, v1, tc)
            &&& moves_to(l.p2, r.p2, v2, tc)
            &&& r.p3 == l.p3
            &&& m == mirrored(r)
        }),
{
    lemma_strong_from_both_sides(l, tc);
    let f = deblock::strong(l);
    assert(f.p0 == v0 && f.p1 == v1 && f.p2 == v2);
}

/// The weak filter moves the two samples at the edge towards each other by the
/// same amount, at most tc: nine sixteenths of the step less three sixteenths of
/// the step between their neighbours, rounded. It leaves a step of ten times tc
/// and more alone. Where a side is flat, its second sample moves half as far as
/// would put it in line, at most half of tc.
pub proof fn lemma_weak_moves(l: Line, d: Decision, tc: int, max: int)
    requires
        tc >= 0,
        tc <= l.p0 <= max - tc,
        tc <= l.q0 <= max - tc,
        tc <= l.p1 <= max - tc,
        tc <= l.q1 <= max - tc,
    ensures
        ({
            let r = deblock::weak_line(l, d, tc, max);
            let n = 9 * (l.q0 - l.p0) - 3 * (l.q1 - l.p1);
            let m = r.p0 - l.p0;
            let p = r.p1 - l.p1;
            let q = r.q1 - l.q1;
            let wp = l.p2 + l.p0 - 2 * l.p1 + 2 * m;
            let wq = l.q2 + l.q0 - 2 * l.q1 - 2 * m;
            &&& r.p0 + r.q0 == l.p0 + l.q0
            &&& -tc <= m <= tc
            &&& r.p2 == l.p2 && r.p3 == l.p3 && r.q2 == l.q2 && r.q3 == l.q3
            &&& n >= 160 * tc || n < -160 * tc ==> r == l
            &&& -160 * tc + 8 <= n < 160 * tc - 8 ==> {
                &&& -tc < m < tc ==> n - 8 < 16 * m <= n + 8
                &&& m == tc ==> n + 8 >= 16 * tc
                &&& m == -tc ==> n - 8 < -16 * tc || tc == 0
                &&& !d.dep ==> p == 0
                &&& !d.deq ==> q == 0
                &&& -(tc / 2) <= p <= tc / 2
                &&& -(tc / 2) <= q <= tc / 2
                &&& d.dep && -(tc / 2) < p < tc / 2 ==> wp - 5 < 4 * p <= wp + 1
                &&& d.deq && -(tc / 2) < q < tc / 2 ==> wq - 5 < 4 * q <= wq + 1
                &&& d.dep && wp >= 2 * tc + 4 ==> p == tc / 2
                &&& d.dep && wp <= -2 * tc - 4 ==> p == -(tc / 2)
                &&& d.deq && wq >= 2 * tc + 4 ==> q == tc / 2
                &&& d.deq && wq <= -2 * tc - 4 ==> q == -(tc / 2)
            }
        }),
{
}

/// The chroma filter moves the two samples at the edge towards each other by the
/// same amount, at most tc: half of the step, corrected by an eighth of what the
/// next samples differ, rounded. It changes nothing else.
pub proof fn lemma_chroma_moves(l: Line, e: EdgeParams)
    requires
        e.tc >= 0,
        !e.no_p,
        !e.no_q,
        e.tc <= l.p0 <= e.max - e.tc,
        e.tc <= l.q0 <= e.max - e.tc,
    ensures
        ({
            let r = deblock::chroma_line(l, e);
            let n = 4 * (l.q0 - l.p0) + l.p1 - l.q1;
            let m = r.p0 - l.p0;
            &&& r.p0 + r.q0 == l.p0 + l.q0
            &&& -e.tc <= m <= e.tc
            &&& -e.tc < m < e.tc ==> n - 4 < 8 * m <= n + 4
            &&& n >= 8 * e.tc ==> m == e.tc
            &&& n <= -8 * e.tc ==> m == -e.tc
            &&& r == (Line { p0: r.p0, q0: r.q0, ..l })
        }),
{
}

/// A side whose samples may not be touched keeps them, and the other side is filtered
/// as if both could be: what holds on one side makes no difference on the other.
pub proof fn lemma_sides_apart(l: Line, d: Decision, e: EdgeParams, f: EdgeParams)
    requires
        f == (EdgeParams { no_p: false, no_q: false, ..e }),
    ensures
        ({
            let r = deblock::luma_line(l, d, e);
            let u = deblock::luma_line(l, d, f);
            let c = deblock::chroma_line(l, e);
            let w = deblock::chroma_line(l, f);
            let p = if e.no_p {
                l
            } else {
                u
            };
            let q = if e.no_q {
                l
            } else {
                u
            };
            &&& r.p0 == p.p0 && r.p1 == p.p1 && r.p2 == p.p2 && r.p3 == l.p3
            &&& r.q0 == q.q0 && r.q1 == q.q1 && r.q2 == q.q2 && r.q3 == l.q3
            &&& c.p0 == if e.no_p {
                l.p0
            } else {
                w.p0
            }
            &&& c.q0 == if e.no_q {
                l.q0
            } else {
                w.q0
            }
        }),
        d.de == 0 ==> deblock::luma_line(l, d, f) == l,
        d.de == 2 ==> deblock::luma_line(l, d, f) == deblock::strong_line(l, e.tc as int),
        d.de == 1 ==> deblock::luma_line(l, d, f) == (Line {
            p3: l.p3,
            q3: l.q3,
            ..deblock::weak_line(l, d, e.tc as int, e.max as int)
        }),
{
}

// ---- where deblocking reaches ----

proof fn lemma_outer_samples_kept(
    f: spec_fn(int, int) -> int,
    c: int,
    dir: int,
    ex: int,
    ey: int,
    e: EdgeParams,
    x: int,
    y: int,
)
    requires
        dir == 0 || dir == 1,
        ({
            let t = deblock::tap_of(dir, ex, ey, x, y);
            if c == 0 {
                t == -4 || t == 3
            } else {
                -4 <= t <= -2 || 1 <= t <= 3
            }
        }),
    ensures
        (if c == 0 {
            deblock::luma_cell(f, dir, ex, ey, e, x, y)
        } else {
            deblock::chroma_cell(f, dir, ex, ey, e, x, y)
        }) == f(x, y),
{
    let t = deblock::tap_of(dir, ex, ey, x, y);
    let k = deblock::line_of(dir, ex, ey, x, y);
    assert(if dir == 0 {
        x == ex + t && y == ey + k
    } else {
        y == ey + t && x == ex + k
    });
    assert(deblock::line_at(f, dir, ex, ey, k).tap(t) == f(x, y));
}

proof fn lemma_nearest_edge(c: int, dir: int, x: int, y: int)
    requires
        0 <= c <= 2,
        x >= 0,
        y >= 0,
        dir == 0 || dir == 1,
    ensures
        ({
            let (x4, y4) = filters::edge_block(c, dir, x, y);
            let t = deblock::tap_of(
                dir,
                filters::span(c) * x4,
                filters::span(c) * y4,
                x,
                y,
            );
            let v = if dir == 0 {
                x
            } else {
                y
            };
            t == v - 8 * ((v + 4) / 8)
        }),
{
    if c == 0 {
    } else {
        assert(filters::span(c) == 2 && filters::grid(c) == 4);
    }
}

/// Luma samples more than three from an edge of the 8×8 grid are left as they
/// are, and so are chroma samples that do not touch one of their own 8×8 grid.
pub proof fn lemma_reach(
    st: PicState,
    sps: Sps,
    pps: Pps,
    c: int,
    dir: int,
    f: spec_fn(int, int) -> int,
    x: int,
    y: int,
)
    requires
        0 <= c <= 2,
        dir == 0 || dir == 1,
        x >= 0,
        y >= 0,
        ({
            let along = if dir == 0 {
                x % 8
            } else {
                y % 8
            };
            if c == 0 {
                along == 3 || along == 4
            } else {
                1 <= along <= 6
            }
        }),
    ensures
        filters::deblocked(st, sps, pps, c, dir, f, x, y) == f(x, y),
{
    let (x4, y4) = filters::edge_block(c, dir, x, y);
    let (ex, ey) = (filters::span(c) * x4, filters::span(c) * y4);
    let b = filters::edge_strength(st, pps, dir, x4, y4);
    let e = filters::edge_params(st, sps, pps, c, dir, x4, y4, b as int);
    lemma_nearest_edge(c, dir, x, y);
    lemma_outer_samples_kept(f, c, dir, ex, ey, e, x, y);
    reveal(filters::deblocked);
}

/// Edges of strength 0 change nothing; chroma is changed at edges of strength 2
/// only.
pub proof fn lemma_weak_edges(
    st: PicState,
    sps: Sps,
    pps: Pps,
    c: int,
    dir: int,
    f: spec_fn(int, int) -> int,
    x: int,
    y: int,
)
    requires
        0 <= c <= 2,
        ({
            let (x4, y4) = filters::edge_block(c, dir, x, y);
            let b = filters::edge_strength(st, pps, dir, x4, y4);
            b == 0 || c > 0 && b == 1
        }),
    ensures
        filters::deblocked(st, sps, pps, c, dir, f, x, y) == f(x, y),
{
    reveal(filters::deblocked);
}

} // verus!
