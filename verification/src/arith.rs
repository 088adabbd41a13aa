//! Integer arithmetic shared by the sample filters and the syntax parser:
//! clipping, powers of two, arithmetic shifts, and row-major addressing.

use vstd::arithmetic::div_mod::*;
use vstd::arithmetic::mul::*;
use vstd::arithmetic::power2::*;
use vstd::bits::*;
use vstd::prelude::*;

verus! {

/// `Clip3(lo, hi, v)`: `v` confined to `lo..=hi`.
pub open spec fn clip3(lo: int, hi: int, v: int) -> int {
    if v < lo {
        lo
    } else if v > hi {
        hi
    } else {
        v
    }
}

/// The smaller of two integers.
pub open spec fn min2(a: int, b: int) -> int {
    if a <= b {
        a
    } else {
        b
    }
}

/// The larger of two integers.
pub open spec fn max2(a: int, b: int) -> int {
    if a >= b {
        a
    } else {
        b
    }
}

/// The sign of an integer: -1, 0 or 1.
pub open spec fn sign(v: int) -> int {
    if v < 0 {
        -1
    } else if v > 0 {
        1
    } else {
        0
    }
}

/// The distance of an integer from zero.
pub open spec fn magnitude(v: int) -> int {
    if v < 0 {
        -v
    } else {
        v
    }
}

/// The quotient `a / b` rounded up, for `b > 0`.
pub open spec fn ceil_div(a: int, b: int) -> int {
    (a + b - 1) / b
}

pub fn clip_i32(lo: i32, hi: i32, v: i32) -> (r: i32)
    ensures
        r == clip3(lo as int, hi as int, v as int),
{
    if v < lo {
        lo
    } else if v > hi {
        hi
    } else {
        v
    }
}

pub fn min_usize(a: usize, b: usize) -> (r: usize)
    ensures
        r == min2(a as int, b as int),
{
    if a <= b {
        a
    } else {
        b
    }
}

pub fn max_usize(a: usize, b: usize) -> (r: usize)
    ensures
        r == max2(a as int, b as int),
{
    if a >= b {
        a
    } else {
        b
    }
}

pub fn sign_i32(v: i32) -> (r: i32)
    ensures
        r == sign(v as int),
{
    if v < 0 {
        -1
    } else if v > 0 {
        1
    } else {
        0
    }
}

/// `a / b` rounded up.
pub fn ceil_div_usize(a: usize, b: usize) -> (r: usize)
    requires
        b > 0,
    ensures
        r == ceil_div(a as int, b as int),
{
    let q = a / b;
    let rem = a % b;
    proof {
        lemma_fundamental_div_mod(a as int, b as int);
        let ai = a as int;
        let bi = b as int;
        let q0 = ai / bi;
        let r0 = ai % bi;
        assert(bi * (q0 + 1) == bi * q0 + bi) by (nonlinear_arith);
        if r0 == 0 {
            lemma_fundamental_div_mod_converse(ai + bi - 1, bi, q0, bi - 1);
        } else {
            lemma_fundamental_div_mod_converse(ai + bi - 1, bi, q0 + 1, r0 - 1);
            assert(q0 < ai || ai == 0) by (nonlinear_arith)
                requires
                    ai == bi * q0 + r0,
                    0 < r0,
                    bi >= 1,
                    q0 >= 0,
            ;
        }
    }
    if rem == 0 {
        q
    } else {
        q + 1
    }
}

/// `2^k` as a positive `i32`.
pub fn pow2_i32(k: u32) -> (r: i32)
    requires
        k <= 30,
    ensures
        r == pow2(k as nat),
        r >= 1,
{
    proof {
        lemma_u32_pow2_no_overflow(k as nat);
        lemma_u32_shl_is_mul(1u32, k);
        lemma_pow2_pos(k as nat);
        lemma_pow2_le(k as nat, 30);
        lemma2_to64();
    }
    let v = 1u32 << k;
    v as i32
}

/// `2^k` as a `usize`, for the block sizes that occur.
pub fn pow2_usize(k: usize) -> (r: usize)
    requires
        k <= 30,
    ensures
        r == pow2(k as nat),
        r >= 1,
{
    let r = pow2_i32(k as u32);
    r as usize
}

/// `pow2` is monotonic.
pub proof fn lemma_pow2_le(a: nat, b: nat)
    requires
        a <= b,
    ensures
        pow2(a) <= pow2(b),
{
    if a < b {
        lemma_pow2_strictly_increases(a, b);
    }
}

/// An arithmetic right shift rounds towards minus infinity.
pub proof fn lemma_asr(v: i32, k: u32)
    requires
        k <= 31,
    ensures
        (v >> k) as int == (v as int) / (pow2(k as nat) as int),
    decreases k,
{
    if k == 0 {
        lemma2_to64();
        assert(v >> k == v) by (bit_vector)
            requires
                k == 0,
        ;
    } else {
        let j = (k - 1) as u32;
        lemma_asr(v, j);
        let w = v >> j;
        assert((v >> k) == (w >> 1u32)) by (bit_vector)
            requires
                0 < k <= 31,
                j == k - 1,
                w == v >> j,
        ;
        assert((w >> 1u32) == w / 2) by (bit_vector);
        lemma_pow2_adds(j as nat, 1);
        lemma2_to64();
        lemma_pow2_pos(j as nat);
        let a = pow2(j as nat) as int;
        let q = (v as int) / a;
        let r = (v as int) % a;
        let t = q % 2;
        lemma_fundamental_div_mod(v as int, a);
        assert(v as int == (2 * a) * (q / 2) + (a * t + r)) by (nonlinear_arith)
            requires
                v as int == a * q + r,
                q == 2 * (q / 2) + t,
        ;
        assert(0 <= a * t + r < 2 * a) by (nonlinear_arith)
            requires
                0 <= t <= 1,
                0 <= r < a,
        ;
        lemma_fundamental_div_mod_converse(v as int, 2 * a, q / 2, a * t + r);
        assert(pow2(k as nat) == 2 * a) by {
            assert(pow2(1) == 2);
            assert(j as nat + 1 == k as nat);
        }
        assert(w as int == q);
        assert((w / 2) as int == q / 2);
    }
}

/// `v >> k`, the floor of `v / 2^k`.
pub fn asr(v: i32, k: u32) -> (r: i32)
    requires
        k <= 31,
    ensures
        r == (v as int) / (pow2(k as nat) as int),
{
    proof {
        lemma_asr(v, k);
    }
    v >> k
}

/// `v >> k`, the floor of `v / 2^k`.
pub fn shr_usize(v: usize, k: usize) -> (r: usize)
    requires
        k < 32,
    ensures
        r == (v as int) / (pow2(k as nat) as int),
{
    proof {
        lemma_usize_shr_is_div(v, k);
    }
    v >> k
}

/// Bit `i` of `v`.
pub open spec fn bit_of(v: int, i: nat) -> bool {
    (v / (pow2(i) as int)) % 2 == 1
}

/// A row offset is no larger than an address in that row.
pub proof fn lemma_product_fits(y: int, stride: int)
    requires
        0 <= y,
        0 <= stride,
    ensures
        0 <= y * stride,
{
    assert(0 <= y * stride) by (nonlinear_arith)
        requires
            0 <= y,
            0 <= stride,
    ;
}

/// Row-major addresses determine their coordinates.
pub proof fn lemma_flat_inj(x1: int, y1: int, x2: int, y2: int, stride: int)
    requires
        0 <= x1 < stride,
        0 <= x2 < stride,
        y1 * stride + x1 == y2 * stride + x2,
    ensures
        x1 == x2,
        y1 == y2,
{
    assert(y1 == y2) by (nonlinear_arith)
        requires
            0 <= x1 < stride,
            0 <= x2 < stride,
            y1 * stride + x1 == y2 * stride + x2,
    ;
}

/// A row-major address lies inside the rows it is taken from.
pub proof fn lemma_flat_bound(x: int, y: int, stride: int, rows: int)
    requires
        0 <= x < stride,
        0 <= y < rows,
    ensures
        0 <= y * stride + x < stride * rows,
        0 <= y * stride,
{
    assert(0 <= y * stride && y * stride + x < stride * rows) by (nonlinear_arith)
        requires
            0 <= x < stride,
            0 <= y < rows,
    ;
}

/// Every address of a row-major table is that of its quotient and remainder.
pub proof fn lemma_flat_split(i: int, stride: int, rows: int)
    requires
        0 <= i < stride * rows,
        0 < stride,
    ensures
        0 <= i % stride < stride,
        0 <= i / stride < rows,
        i == (i / stride) * stride + i % stride,
{
    lemma_fundamental_div_mod(i, stride);
    lemma_mul_is_commutative(stride, i / stride);
    assert(0 <= i / stride < rows) by (nonlinear_arith)
        requires
            i == stride * (i / stride) + i % stride,
            0 <= i % stride < stride,
            0 <= i < stride * rows,
            0 < stride,
    ;
}

} // verus!
