//! What weighted prediction is for (§8.5.3.3.4.3): each prediction counts with
//! the weight of its own list, and the result is rounded to the sample range.

use crate::arith;
use crate::mcscratch;
use crate::pixel;
use crate::slice::WeightEntry;
use vstd::arithmetic::div_mod::*;
use vstd::arithmetic::power2::*;
use vstd::prelude::*;

verus! {

/// The weight that a reference has for component `c`: its entry's for that
/// component, or one where it has no entry.
pub open spec fn own_weight(e: Option<WeightEntry>, denom: nat, c: int) -> int {
    match e {
        None => pow2(denom) as int,
        Some(e) => if c == 0 {
            e.luma_weight as int
        } else if c == 1 {
            e.chroma_weight@[0] as int
        } else {
            e.chroma_weight@[1] as int
        },
    }
}

/// The offset that a reference has for component `c`.
pub open spec fn own_offset(e: Option<WeightEntry>, c: int) -> int {
    match e {
        None => 0,
        Some(e) => if c == 0 {
            e.luma_offset as int
        } else if c == 1 {
            e.chroma_offset@[0] as int
        } else {
            e.chroma_offset@[1] as int
        },
    }
}

/// `r` is `n / d` rounded down and kept in `0..=max`.
pub open spec fn is_quotient(r: int, n: int, d: int, max: int) -> bool {
    &&& 0 <= r <= max
    &&& r > 0 ==> d * r <= n
    &&& r < max ==> n < d * (r + 1)
}

/// What a block is predicted from: two predictions, stored row by row, and the
/// weights of their references.
pub struct Source {
    pub pred0: Seq<i16>,
    pub pred1: Seq<i16>,
    pub e0: Option<WeightEntry>,
    pub e1: Option<WeightEntry>,
}

impl Source {
    pub open spec fn ok(self) -> bool {
        &&& self.e0 matches Some(e) ==> e.wf()
        &&& self.e1 matches Some(e) ==> e.wf()
    }

    /// The rows that weighting by both lists, or by one, leaves.
    pub open spec fn gives(
        self,
        used: (bool, bool),
        out: Seq<u16>,
        from: Seq<u16>,
        stride: int,
        denom: nat,
        c: int,
        w: int,
        h: int,
        bit_depth: int,
    ) -> bool {
        mcscratch::rows_weighted(
            out,
            from,
            stride,
            if used.0 {
                self.pred0
            } else {
                self.pred1
            },
            self.pred1,
            w,
            h,
            mcscratch::block_weighting(used, self.e0, self.e1, denom, c, bit_depth),
            pow2(bit_depth as nat) - 1,
        )
    }
}

proof fn lemma_address(x: int, y: int, stride: int, w: int, h: int)
    requires
        0 <= x < w <= stride,
        0 <= y < h,
    ensures
        (y * stride + x) % stride == x,
        (y * stride + x) / stride == y,
        0 <= y * stride + x,
{
    lemma_fundamental_div_mod_converse(y * stride + x, stride, y, x);
    arith::lemma_product_fits(y, stride);
}

proof fn lemma_entry_bounds(e: Option<WeightEntry>, denom: nat, c: int)
    requires
        e matches Some(w) ==> w.wf(),
        denom <= 7,
        0 <= c <= 2,
    ensures
        mcscratch::weight_of(e, denom, c) == (own_weight(e, denom, c), own_offset(e, c)),
        -0x1fff <= own_weight(e, denom, c) <= 0x1fff,
        -0x8000 <= own_offset(e, c) <= 0x7fff,
{
    arith::lemma_pow2_le(denom, 7);
    lemma2_to64();
}

proof fn lemma_quotient(n: int, d: int, max: int)
    requires
        d > 0,
        max >= 0,
    ensures
        is_quotient(arith::clip3(0, max, n / d), n, d, max),
{
    lemma_fundamental_div_mod(n, d);
    lemma_mod_bound(n, d);
    let q = n / d;
    let r = arith::clip3(0, max, q);
    assert(d * (q + 1) == d * q + d) by (nonlinear_arith);
    assert(d * (r + 1) == d * r + d) by (nonlinear_arith);
    if q < r {
        assert(d * (q + 1) <= d * r) by (nonlinear_arith)
            requires
                q + 1 <= r,
                d > 0,
        ;
    }
    if q > r {
        assert(d * (r + 1) <= d * q) by (nonlinear_arith)
            requires
                r + 1 <= q,
                d > 0,
        ;
    }
}

/// Bi-prediction: every sample is the sum of both predictions, each with the
/// weight of its own list, and of both offsets, over twice the unit of the
/// weights, rounded and kept in the sample range.
pub proof fn lemma_two_lists(
    s: Source,
    out: Seq<u16>,
    from: Seq<u16>,
    stride: int,
    denom: nat,
    c: int,
    w: int,
    h: int,
    bit_depth: int,
    x: int,
    y: int,
)
    requires
        s.ok(),
        denom <= 7,
        0 <= c <= 2,
        8 <= bit_depth <= 14,
        0 <= x < w <= stride,
        0 <= y < h,
        y * stride + x < out.len(),
        s.gives((true, true), out, from, stride, denom, c, w, h, bit_depth),
    ensures
        ({
            let unit = pow2((denom + 14 - bit_depth) as nat) as int;
            is_quotient(
                out[y * stride + x] as int,
                s.pred0[y * w + x] * own_weight(s.e0, denom, c) + s.pred1[y * w + x] * own_weight(
                    s.e1,
                    denom,
                    c,
                ) + (own_offset(s.e0, c) + own_offset(s.e1, c) + 1) * unit,
                2 * unit,
                pow2(bit_depth as nat) - 1,
            )
        }),
{
    let log2wd = (denom + 14 - bit_depth) as nat;
    let unit = pow2(log2wd) as int;
    lemma_address(x, y, stride, w, h);
    lemma_entry_bounds(s.e0, denom, c);
    lemma_entry_bounds(s.e1, denom, c);
    arith::lemma_pow2_le(log2wd, 13);
    lemma_pow2_pos(log2wd);
    lemma_pow2_pos(bit_depth as nat);
    lemma_pow2_adds(log2wd, 1);
    lemma2_to64();
    let o = own_offset(s.e0, c) + own_offset(s.e1, c) + 1;
    assert(-0x2000_4000 <= o * unit <= 0x2000_4000) by (nonlinear_arith)
        requires
            -0xffff <= o <= 0xffff,
            1 <= unit <= 8192,
    ;
    let n = s.pred0[y * w + x] * own_weight(s.e0, denom, c) + s.pred1[y * w + x] * own_weight(
        s.e1,
        denom,
        c,
    ) + o * unit;
    lemma_quotient(n, 2 * unit, pow2(bit_depth as nat) - 1);
    assert(out[y * stride + x] == out[y * stride + x]);
}

/// Which list is called the first does not matter: with predictions and weights
/// exchanged together every sample is the same.
pub proof fn lemma_lists_exchanged(
    s: Source,
    a: Seq<u16>,
    b: Seq<u16>,
    from: Seq<u16>,
    stride: int,
    denom: nat,
    c: int,
    w: int,
    h: int,
    bit_depth: int,
)
    requires
        s.ok(),
        denom <= 7,
        0 <= c <= 2,
        8 <= bit_depth <= 14,
        0 < w <= stride,
        s.gives((true, true), a, from, stride, denom, c, w, h, bit_depth),
        (Source { pred0: s.pred1, pred1: s.pred0, e0: s.e1, e1: s.e0 }).gives(
            (true, true),
            b,
            from,
            stride,
            denom,
            c,
            w,
            h,
            bit_depth,
        ),
    ensures
        a == b,
{
    let log2wd = (denom + 14 - bit_depth) as nat;
    let unit = pow2(log2wd) as int;
    lemma_entry_bounds(s.e0, denom, c);
    lemma_entry_bounds(s.e1, denom, c);
    arith::lemma_pow2_le(log2wd, 13);
    lemma2_to64();
    assert forall|i: int| #![trigger a[i]] 0 <= i < a.len() implies a[i] == b[i] by {
        assert(b[i] == b[i]);
    }
    assert(a =~= b);
}

/// Prediction from one list: every sample is the prediction of that list with its
/// weight, over the unit of the weights and rounded, and its offset, kept in the
/// sample range. The other list makes no difference.
pub proof fn lemma_one_list(
    s: Source,
    first: bool,
    out: Seq<u16>,
    from: Seq<u16>,
    stride: int,
    denom: nat,
    c: int,
    w: int,
    h: int,
    bit_depth: int,
    x: int,
    y: int,
)
    requires
        s.ok(),
        denom <= 7,
        0 <= c <= 2,
        8 <= bit_depth <= 14,
        0 <= x < w <= stride,
        0 <= y < h,
        y * stride + x < out.len(),
        s.gives((first, !first), out, from, stride, denom, c, w, h, bit_depth),
    ensures
        ({
            let unit = pow2((denom + 14 - bit_depth) as nat) as int;
            let (p, e) = if first {
                (s.pred0, s.e0)
            } else {
                (s.pred1, s.e1)
            };
            let n = 2 * (p[y * w + x] * own_weight(e, denom, c) + own_offset(e, c) * unit) + unit;
            is_quotient(
                out[y * stride + x] as int,
                n,
                2 * unit,
                pow2(bit_depth as nat) - 1,
            )
        }),
{
    let log2wd = (denom + 14 - bit_depth) as nat;
    let unit = pow2(log2wd) as int;
    let half = if log2wd == 0 {
        0
    } else {
        pow2((log2wd - 1) as nat) as int
    };
    let (p, e) = if first {
        (s.pred0, s.e0)
    } else {
        (s.pred1, s.e1)
    };
    lemma_address(x, y, stride, w, h);
    lemma_entry_bounds(s.e0, denom, c);
    lemma_entry_bounds(s.e1, denom, c);
    lemma_pow2_pos(log2wd);
    lemma_pow2_pos(bit_depth as nat);
    if log2wd > 0 {
        lemma_pow2_adds((log2wd - 1) as nat, 1);
    }
    lemma2_to64();
    let o = own_offset(e, c);
    let a = p[y * w + x] * own_weight(e, denom, c) + half;
    let n = 2 * (p[y * w + x] * own_weight(e, denom, c) + o * unit) + unit;
    lemma_quotient(n, 2 * unit, pow2(bit_depth as nat) - 1);
    lemma_fundamental_div_mod(a, unit);
    lemma_mod_bound(a, unit);
    let q = a / unit;
    assert(n / (2 * unit) == q + o) by {
        let rest = 2 * (a % unit) + unit - 2 * half;
        assert(n == (q + o) * (2 * unit) + rest) by (nonlinear_arith)
            requires
                a == unit * q + a % unit,
                n == 2 * (a - half) + 2 * (o * unit) + unit,
                rest == 2 * (a % unit) + unit - 2 * half,
        ;
        lemma_fundamental_div_mod_converse(n, 2 * unit, q + o, rest);
    }
    assert(out[y * stride + x] == out[y * stride + x]);
}

/// Samples outside the block stay as they are.
pub proof fn lemma_rest_kept(
    s: Source,
    used: (bool, bool),
    out: Seq<u16>,
    from: Seq<u16>,
    stride: int,
    denom: nat,
    c: int,
    w: int,
    h: int,
    bit_depth: int,
    i: int,
)
    requires
        s.gives(used, out, from, stride, denom, c, w, h, bit_depth),
        0 <= i < out.len(),
        stride > 0,
        i % stride >= w || i / stride >= h,
    ensures
        out.len() == from.len(),
        out[i] == from[i],
{
}

} // verus!
