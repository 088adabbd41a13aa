//! Sample kernels: adding a residual to a prediction, and weighted sample
//! prediction.

use crate::arith;
use crate::frame::Plane;
use vstd::arithmetic::power2::*;
use vstd::prelude::*;

verus! {

/// Column `x`, row `y` lies in the `n`×`n` block at (`xb`, `yb`).
pub open spec fn in_block(x: int, y: int, xb: int, yb: int, n: int) -> bool {
    xb <= x < xb + n && yb <= y < yb + n
}

/// `p` is `o` with the samples of a block replaced by `f`, by column and row
/// inside the block.
pub open spec fn block_set(
    p: Plane,
    o: Plane,
    xb: int,
    yb: int,
    n: int,
    f: spec_fn(int, int) -> int,
) -> bool {
    &&& p.same_shape(o)
    &&& forall|x: int, y: int|
        #![trigger p.at(x, y)]
        0 <= x < o.stride && 0 <= y < o.height ==> p.at(x, y) as int == (if in_block(
            x,
            y,
            xb,
            yb,
            n,
        ) {
            f(x - xb, y - yb)
        } else {
            o.at(x, y) as int
        })
}

/// The part of a block before column `i` of row `j`.
spec fn before(x: int, y: int, xb: int, yb: int, n: int, j: int, i: int) -> bool {
    in_block(x, y, xb, yb, n) && (y < yb + j || y == yb + j && x < xb + i)
}

/// A sample of the block plus its residual, confined to the sample range. The
/// base is the block's own sample, or one value for all of it.
pub open spec fn residual_sum(
    o: Plane,
    base: Option<u16>,
    res: Seq<i32>,
    xb: int,
    yb: int,
    n: int,
    max: int,
) -> spec_fn(int, int) -> int {
    |i: int, j: int|
        arith::clip3(
            0,
            max,
            (match base {
                Some(v) => v as int,
                None => o.at(xb + i, yb + j) as int,
            }) + res[j * n + i],
        )
}

/// Adds a residual to a block of a plane: to the samples there, or to one
/// value where the whole prediction is that value.
pub fn add_residual(
    plane: &mut Plane,
    xb: usize,
    yb: usize,
    n: usize,
    base: Option<u16>,
    res: &Vec<i32>,
    max: i32,
)
    requires
        old(plane).wf(),
        xb + n <= old(plane).width,
        yb + n <= old(plane).height,
        res@.len() == n * n,
        0 <= max <= 0xffff,
        forall|i: int| #![trigger res@[i]] 0 <= i < res@.len() ==> res@[i] <= i32::MAX - 0xffff,
    ensures
        final(plane).wf(),
        block_set(
            *final(plane),
            *old(plane),
            xb as int,
            yb as int,
            n as int,
            residual_sum(*old(plane), base, res@, xb as int, yb as int, n as int, max as int),
        ),
{
    let ghost o = *plane;
    let ghost f = residual_sum(o, base, res@, xb as int, yb as int, n as int, max as int);
    let mut j: usize = 0;
    while j < n
        invariant
            j <= n,
            o.wf(),
            plane.wf(),
            plane.same_shape(o),
            xb + n <= o.width,
            yb + n <= o.height,
            res@.len() == n * n,
            0 <= max <= 0xffff,
            f == residual_sum(o, base, res@, xb as int, yb as int, n as int, max as int),
            forall|i: int| #![trigger res@[i]] 0 <= i < res@.len() ==> res@[i] <= i32::MAX - 0xffff,
            forall|x: int, y: int|
                #![trigger plane.at(x, y)]
                0 <= x < o.stride && 0 <= y < o.height ==> plane.at(x, y) as int == (if before(
                    x,
                    y,
                    xb as int,
                    yb as int,
                    n as int,
                    j as int,
                    0,
                ) {
                    f(x - xb, y - yb)
                } else {
                    o.at(x, y) as int
                }),
        decreases n - j,
    {
        let mut i: usize = 0;
        while i < n
            invariant
                i <= n,
                j < n,
                o.wf(),
                plane.wf(),
                plane.same_shape(o),
                xb + n <= o.width,
                yb + n <= o.height,
                res@.len() == n * n,
                0 <= max <= 0xffff,
                f == residual_sum(o, base, res@, xb as int, yb as int, n as int, max as int),
                forall|i: int|
                    #![trigger res@[i]]
                    0 <= i < res@.len() ==> res@[i] <= i32::MAX - 0xffff,
                forall|x: int, y: int|
                    #![trigger plane.at(x, y)]
                    0 <= x < o.stride && 0 <= y < o.height ==> plane.at(x, y) as int == (if before(
                        x,
                        y,
                        xb as int,
                        yb as int,
                        n as int,
                        j as int,
                        i as int,
                    ) {
                        f(x - xb, y - yb)
                    } else {
                        o.at(x, y) as int
                    }),
            decreases n - i,
        {
            let (x, y) = (xb + i, yb + j);
            proof {
                arith::lemma_flat_bound(x as int, y as int, o.stride as int, o.height as int);
                arith::lemma_flat_bound(i as int, j as int, n as int, n as int);
                assert(res@.len() == res.len());
                assert(plane.at(x as int, y as int) == o.at(x as int, y as int));
            }
            let p = match base {
                Some(v) => v,
                None => plane.get(x, y),
            };
            let v = arith::clip_i32(0, max, p as i32 + res[j * n + i]);
            let ghost prev = *plane;
            plane.set(x, y, v as u16);
            proof {
                assert(v == f(i as int, j as int));
                assert forall|a: int, b: int|
                    #![trigger plane.at(a, b)]
                    0 <= a < o.stride && 0 <= b < o.height implies plane.at(a, b) as int == (
                if before(a, b, xb as int, yb as int, n as int, j as int, i + 1) {
                    f(a - xb, b - yb)
                } else {
                    o.at(a, b) as int
                }) by {
                    arith::lemma_flat_bound(a, b, o.stride as int, o.height as int);
                    if b * o.stride + a == y * o.stride + x {
                        arith::lemma_flat_inj(a, b, x as int, y as int, o.stride as int);
                    } else {
                        assert(plane.at(a, b) == prev.at(a, b));
                    }
                }
            }
            i += 1;
        }
        j += 1;
    }
}

// ---- weighted sample prediction (§8.5.3.3.4.3) ----

/// One reference: the prediction weighted, rounded and offset.
pub open spec fn weighted_one(p: int, w: int, o: int, log2wd: nat) -> int {
    if log2wd >= 1 {
        (p * w + pow2((log2wd - 1) as nat)) / (pow2(log2wd) as int) + o
    } else {
        p * w + o
    }
}

/// Two references: both predictions weighted, with the rounding and offset
/// term already scaled.
pub open spec fn weighted_two(
    p0: int,
    p1: int,
    w0: int,
    w1: int,
    round: int,
    log2wd: nat,
) -> int {
    (p0 * w0 + p1 * w1 + round) / (pow2(log2wd + 1) as int)
}

/// The weighting of a block: from one prediction, or from two.
#[derive(Debug, Clone, Copy)]
pub enum Weighting {
    Uni { w: i32, o: i32, log2wd: u32 },
    Bi { w0: i32, w1: i32, round: i32, log2wd: u32 },
}

impl Weighting {
    /// The weighted sample before it is confined to the sample range.
    pub open spec fn value(self, p0: int, p1: int) -> int {
        match self {
            Weighting::Uni { w, o, log2wd } => weighted_one(
                p0,
                w as int,
                o as int,
                log2wd as nat,
            ),
            Weighting::Bi { w0, w1, round, log2wd } => weighted_two(
                p0,
                p1,
                w0 as int,
                w1 as int,
                round as int,
                log2wd as nat,
            ),
        }
    }

    /// The weights are small enough for 32-bit arithmetic.
    pub open spec fn wf(self) -> bool {
        match self {
            Weighting::Uni { w, o, log2wd } => -0x1fff <= w <= 0x1fff && -0x8000 <= o <= 0x8000
                && log2wd <= 16,
            Weighting::Bi { w0, w1, round, log2wd } => -0x1fff <= w0 <= 0x1fff && -0x1fff <= w1
                <= 0x1fff && -0x4800_0000 <= round <= 0x4800_0000 && log2wd <= 16,
        }
    }

    fn sample(&self, p0: i16, p1: i16, max: i32) -> (r: u16)
        requires
            self.wf(),
            0 <= max <= 0xffff,
        ensures
            r as int == arith::clip3(0, max as int, self.value(p0 as int, p1 as int)),
    {
        match *self {
            Weighting::Uni { w, o, log2wd } => {
                proof {
                    lemma_product_bound(p0 as int, w as int);
                }
                let t = p0 as i32 * w;
                let v = if log2wd >= 1 {
                    let half = arith::pow2_i32(log2wd - 1);
                    proof {
                        arith::lemma_pow2_le((log2wd - 1) as nat, 15);
                        lemma2_to64();
                        lemma_quotient_bound(t + half, pow2(log2wd as nat) as int);
                        lemma_pow2_pos(log2wd as nat);
                    }
                    arith::asr(t + half, log2wd) + o
                } else {
                    t + o
                };
                arith::clip_i32(0, max, v) as u16
            },
            Weighting::Bi { w0, w1, round, log2wd } => {
                proof {
                    lemma_product_bound(p0 as int, w0 as int);
                    lemma_product_bound(p1 as int, w1 as int);
                }
                let t = p0 as i32 * w0 + p1 as i32 * w1 + round;
                arith::clip_i32(0, max, arith::asr(t, log2wd + 1)) as u16
            },
        }
    }
}

/// A 16-bit sample times a weight.
proof fn lemma_product_bound(p: int, w: int)
    requires
        -0x8000 <= p <= 0x7fff,
        -0x1fff <= w <= 0x1fff,
    ensures
        -0x1000_0000 < p * w < 0x1000_0000,
{
    assert(-0x1000_0000 < p * w < 0x1000_0000) by (nonlinear_arith)
        requires
            -0x8000 <= p <= 0x7fff,
            -0x1fff <= w <= 0x1fff,
    ;
}

/// A quotient is no larger than what is divided.
proof fn lemma_quotient_bound(v: int, d: int)
    requires
        d > 0,
        -0x2000_0000 < v < 0x2000_0000,
    ensures
        -0x2000_0000 <= v / d <= 0x2000_0000,
{
    vstd::arithmetic::div_mod::lemma_fundamental_div_mod(v, d);
    let q = v / d;
    assert(-0x2000_0000 <= q <= 0x2000_0000) by (nonlinear_arith)
        requires
            v == d * q + v % d,
            0 <= v % d < d,
            d > 0,
            -0x2000_0000 < v < 0x2000_0000,
    ;
}

/// `out` is `from` with a `w`×`h` block of rows of `stride` replaced by `f`,
/// by column and row.
pub open spec fn rows_set(
    out: Seq<u16>,
    from: Seq<u16>,
    stride: int,
    w: int,
    h: int,
    f: spec_fn(int, int) -> int,
) -> bool {
    &&& out.len() == from.len()
    &&& forall|i: int|
        #![trigger out[i]]
        0 <= i < out.len() ==> out[i] as int == (if 0 < w && i % stride < w && i / stride < h {
            f(i % stride, i / stride)
        } else {
            from[i] as int
        })
}

/// The weighted samples of a block, by column and row; the predictions are
/// stored row by row without gaps.
pub open spec fn weighted_samples(
    k: Weighting,
    pred0: Seq<i16>,
    pred1: Seq<i16>,
    w: int,
    max: int,
) -> spec_fn(int, int) -> int {
    |x: int, y: int|
        arith::clip3(0, max, k.value(pred0[y * w + x] as int, pred1[y * w + x] as int))
}

/// Writes the weighted samples of a `w`×`h` block into rows of `stride`.
pub fn write_weighted(
    dst: &mut [u16],
    stride: usize,
    pred0: &Vec<i16>,
    pred1: &Vec<i16>,
    w: usize,
    h: usize,
    k: &Weighting,
    max: i32,
)
    requires
        0 < w <= stride,
        h > 0 ==> (h - 1) * stride + w <= old(dst)@.len(),
        w * h <= pred0@.len(),
        w * h <= pred1@.len(),
        k.wf(),
        0 <= max <= 0xffff,
    ensures
        rows_set(
            final(dst)@,
            old(dst)@,
            stride as int,
            w as int,
            h as int,
            weighted_samples(*k, pred0@, pred1@, w as int, max as int),
        ),
{
    let ghost d0 = dst@;
    let ghost f = weighted_samples(*k, pred0@, pred1@, w as int, max as int);
    let mut y: usize = 0;
    proof {
        assert forall|i: int|
            #![trigger dst@[i]]
            0 <= i < dst@.len() implies dst@[i] as int == (if rows_before(
            i,
            stride as int,
            w as int,
            0,
            0,
        ) {
            f(i % stride as int, i / stride as int)
        } else {
            d0[i] as int
        }) by {
            vstd::arithmetic::div_mod::lemma_div_pos_is_pos(i, stride as int);
        }
    }
    while y < h
        invariant
            y <= h,
            0 < w <= stride,
            h > 0 ==> (h - 1) * stride + w <= d0.len(),
            dst@.len() == d0.len(),
            w * h <= pred0@.len(),
            w * h <= pred1@.len(),
            k.wf(),
            0 <= max <= 0xffff,
            f == weighted_samples(*k, pred0@, pred1@, w as int, max as int),
            forall|i: int|
                #![trigger dst@[i]]
                0 <= i < dst@.len() ==> dst@[i] as int == (if rows_before(
                    i,
                    stride as int,
                    w as int,
                    y as int,
                    0,
                ) {
                    f(i % stride as int, i / stride as int)
                } else {
                    d0[i] as int
                }),
        decreases h - y,
    {
        let mut x: usize = 0;
        while x < w
            invariant
                x <= w,
                y < h,
                0 < w <= stride,
                h > 0 ==> (h - 1) * stride + w <= d0.len(),
                dst@.len() == d0.len(),
                w * h <= pred0@.len(),
                w * h <= pred1@.len(),
                k.wf(),
                0 <= max <= 0xffff,
                f == weighted_samples(*k, pred0@, pred1@, w as int, max as int),
                forall|i: int|
                    #![trigger dst@[i]]
                    0 <= i < dst@.len() ==> dst@[i] as int == (if rows_before(
                        i,
                        stride as int,
                        w as int,
                        y as int,
                        x as int,
                    ) {
                        f(i % stride as int, i / stride as int)
                    } else {
                        d0[i] as int
                    }),
            decreases w - x,
        {
            proof {
                arith::lemma_flat_bound(x as int, y as int, w as int, h as int);
                lemma_row_inside(x as int, y as int, stride as int, w as int, h as int);
                assert(dst@.len() == dst.len());
                assert(pred0@.len() == pred0.len());
            }
            let v = k.sample(pred0[y * w + x], pred1[y * w + x], max);
            let at = y * stride + x;
            let ghost prev = dst@;
            dst[at] = v;
            proof {
                let st = stride as int;
                vstd::arithmetic::div_mod::lemma_fundamental_div_mod_converse(
                    at as int,
                    st,
                    y as int,
                    x as int,
                );
                assert forall|i: int|
                    #![trigger dst@[i]]
                    0 <= i < dst@.len() implies dst@[i] as int == (if rows_before(
                    i,
                    st,
                    w as int,
                    y as int,
                    x + 1,
                ) {
                    f(i % st, i / st)
                } else {
                    d0[i] as int
                }) by {
                    assert(dst@[i] == if i == at {
                        v
                    } else {
                        prev[i]
                    });
                    if i != at {
                        vstd::arithmetic::div_mod::lemma_fundamental_div_mod(i, st);
                        if i % st == x && i / st == y {
                            vstd::arithmetic::mul::lemma_mul_is_commutative(st, y as int);
                        }
                    }
                }
            }
            x += 1;
        }
        y += 1;
    }
}

/// Address `i` precedes column `x` of row `y` in the first `w` columns.
spec fn rows_before(i: int, stride: int, w: int, y: int, x: int) -> bool {
    i % stride < w && (i / stride < y || i / stride == y && i % stride < x)
}

/// The block's addresses lie before its last one.
proof fn lemma_row_inside(x: int, y: int, stride: int, w: int, h: int)
    requires
        0 <= x < w <= stride,
        0 <= y < h,
    ensures
        0 <= y * stride + x < (h - 1) * stride + w,
        0 <= y * stride,
{
    assert(0 <= y * stride <= (h - 1) * stride) by (nonlinear_arith)
        requires
            0 <= y <= h - 1,
            0 <= stride,
    ;
}

} // verus!
