//! The bins of a transform block's coefficients as an encoder writes them
//! (§7.3.8.11), and that decoding gives the coefficients back.

use crate::arith;
use crate::binarization;
use crate::binarization::{coded, gives, past, raw, Bin};
use crate::cabac;
use crate::cabac::{
    BinDecoder, CodeError, CTX_CSBF, CTX_GT1, CTX_GT2, CTX_SIG, CTX_TRANSFORM_SKIP,
};
use crate::residual;
use crate::residual::{Block, Filled, Progress, ResidualParams};
use crate::tables;
use vstd::arithmetic::div_mod::*;
use vstd::arithmetic::power2::*;
use vstd::prelude::*;

verus! {

pub open spec fn size_of(v: int) -> int {
    if v < 0 {
        -v
    } else {
        v
    }
}

/// Coefficients that can be coded: not zero, and of 16 bits.
pub open spec fn codable(vals: Seq<int>) -> bool {
    forall|k: int|
        #![trigger vals[k]]
        0 <= k < vals.len() ==> vals[k] != 0 && -32768 <= vals[k] <= 32767
}

// ---- levels ----

/// The first coefficient, from `k` on and before `n`, that is larger than 1; `n`
/// if there is none.
pub open spec fn first_big(vals: Seq<int>, k: int, n: int) -> int
    decreases n - k,
{
    if k >= n {
        n
    } else if size_of(vals[k]) > 1 {
        k
    } else {
        first_big(vals, k + 1, n)
    }
}

proof fn lemma_first_big(vals: Seq<int>, k: int, n: int)
    requires
        0 <= k <= n,
    ensures
        k <= first_big(vals, k, n) <= n,
        forall|j: int|
            #![trigger vals[j]]
            k <= j < first_big(vals, k, n) ==> size_of(vals[j]) <= 1,
        first_big(vals, k, n) < n ==> size_of(vals[first_big(vals, k, n)]) > 1,
    decreases n - k,
{
    if k < n && size_of(vals[k]) <= 1 {
        lemma_first_big(vals, k + 1, n);
    }
}

/// How many coefficients have a flag for being larger than 1.
pub open spec fn flagged(vals: Seq<int>) -> int {
    if vals.len() < 8 {
        vals.len() as int
    } else {
        8
    }
}

/// Flags for being larger than 1, from the `k`-th on: the context counts the
/// flags up to 3, and is 0 once a flag was set.
pub open spec fn big_flags(vals: Seq<int>, base: int, k: int) -> Seq<Bin>
    decreases flagged(vals) - k,
{
    let n = flagged(vals);
    if k >= n {
        Seq::empty()
    } else {
        let ctx = if first_big(vals, 0, n) < k {
            0
        } else if k < 2 {
            k + 1
        } else {
            3
        };
        seq![coded(base + ctx, size_of(vals[k]) > 1)] + big_flags(vals, base, k + 1)
    }
}

pub open spec fn are_big(vals: Seq<int>, n: int) -> Seq<bool> {
    Seq::new(n as nat, |k: int| size_of(vals[k]) > 1)
}

proof fn lemma_big_flags_read_back<B: BinDecoder>(s: B::State, vals: Seq<int>, base: int, k: int)
    requires
        0 <= k <= flagged(vals),
        gives::<B>(s, big_flags(vals, base, k)),
    ensures
        ({
            let n = flagged(vals);
            let fb = first_big(vals, 0, n);
            let at = |k: int|
                if fb < k {
                    0
                } else if k < 2 {
                    k + 1
                } else {
                    3int
                };
            residual::gt1_scan::<B>(s, base, n, at(k), are_big(vals, k)) == (
                past::<B>(s, big_flags(vals, base, k)),
                at(n),
                are_big(vals, n),
            )
        }),
    decreases flagged(vals) - k,
{
    let n = flagged(vals);
    lemma_first_big(vals, 0, n);
    let fb = first_big(vals, 0, n);
    if k < n {
        let ctx = if fb < k {
            0
        } else if k < 2 {
            k + 1
        } else {
            3
        };
        let b = coded(base + ctx, size_of(vals[k]) > 1);
        binarization::lemma_joined::<B>(s, seq![b], big_flags(vals, base, k + 1));
        binarization::lemma_single::<B>(s, b);
        lemma_big_flags_read_back::<B>(past::<B>(s, seq![b]), vals, base, k + 1);
        assert(are_big(vals, k).push(b.bit) =~= are_big(vals, k + 1));
    }
}

proof fn lemma_first_set(vals: Seq<int>, n: int, m: int)
    requires
        0 <= m <= n,
    ensures
        residual::first_set(are_big(vals, m)) == (if first_big(vals, 0, n) < m {
            first_big(vals, 0, n)
        } else {
            m
        }),
    decreases m,
{
    lemma_first_big(vals, 0, n);
    if m > 0 {
        assert(are_big(vals, m).drop_last() =~= are_big(vals, m - 1));
        lemma_first_set(vals, n, m - 1);
    }
}

/// The smallest level that the flags of coefficient `k` do not tell: beyond it a
/// remainder is written. The first eight have a flag, and the first of them that
/// is larger than 1 a second one.
pub open spec fn told(vals: Seq<int>, k: int) -> int {
    if k >= 8 {
        1
    } else if k == first_big(vals, 0, flagged(vals)) {
        3
    } else {
        2
    }
}

/// The remainders from coefficient `k` on. The Rice parameter grows by one, up to
/// 4, after a level above three times its unit.
pub open spec fn remainders(vals: Seq<int>, k: int, rice: nat) -> Seq<Bin>
    decreases vals.len() - k,
{
    if k >= vals.len() {
        Seq::empty()
    } else {
        let a = size_of(vals[k]);
        if a >= told(vals, k) {
            binarization::remainder_code((a - told(vals, k)) as nat, rice) + remainders(
                vals,
                k + 1,
                if a > 3 * pow2(rice) && rice < 4 {
                    rice + 1
                } else {
                    rice
                },
            )
        } else {
            remainders(vals, k + 1, rice)
        }
    }
}

pub open spec fn sizes(vals: Seq<int>, n: int) -> Seq<i32> {
    Seq::new(n as nat, |k: int| size_of(vals[k]) as i32)
}

/// What the flags tell of coefficient `k`.
proof fn lemma_told(vals: Seq<int>, gt2: bool, k: int)
    requires
        codable(vals),
        0 <= k < vals.len(),
        ({
            let n = flagged(vals);
            let fb = first_big(vals, 0, n);
            gt2 == (fb < n && size_of(vals[fb]) > 2)
        }),
    ensures
        ({
            let gt1 = are_big(vals, flagged(vals));
            let first = residual::first_set(gt1);
            let base = residual::base_level(gt1, first, gt2, k);
            &&& size_of(vals[k]) >= told(vals, k) ==> base == told(vals, k) && base
                == residual::escape_level(gt1, first, k)
            &&& size_of(vals[k]) < told(vals, k) ==> base == size_of(vals[k]) && base
                != residual::escape_level(gt1, first, k)
        }),
{
    let n = flagged(vals);
    lemma_first_big(vals, 0, n);
    lemma_first_set(vals, n, n);
    if k < first_big(vals, 0, n) {
        assert(size_of(vals[k]) <= 1);
    }
    assert(vals[k] != 0);
}

#[verifier::spinoff_prover]
proof fn lemma_remainders_read_back<B: BinDecoder>(
    s: B::State,
    vals: Seq<int>,
    gt2: bool,
    k: int,
    rice: nat,
)
    requires
        codable(vals),
        0 <= k <= vals.len(),
        rice <= 4,
        gives::<B>(s, remainders(vals, k, rice)),
        ({
            let n = flagged(vals);
            let fb = first_big(vals, 0, n);
            gt2 == (fb < n && size_of(vals[fb]) > 2)
        }),
    ensures
        residual::abs_scan::<B>(
            s,
            are_big(vals, flagged(vals)),
            gt2,
            vals.len() as int,
            rice,
            sizes(vals, k),
        ) == (
            past::<B>(s, remainders(vals, k, rice)),
            Ok::<Seq<i32>, CodeError>(sizes(vals, vals.len() as int)),
        ),
    decreases vals.len() - k,
{
    let gt1 = are_big(vals, flagged(vals));
    if k < vals.len() {
        let a = size_of(vals[k]);
        let t = told(vals, k);
        assert(1 <= a <= 32768);
        lemma_told(vals, gt2, k);
        assert(sizes(vals, k).push(a as i32) =~= sizes(vals, k + 1));
        if a >= t {
            let code = binarization::remainder_code((a - t) as nat, rice);
            let next = if a > 3 * pow2(rice) && rice < 4 {
                rice + 1
            } else {
                rice
            };
            binarization::lemma_joined::<B>(s, code, remainders(vals, k + 1, next));
            binarization::lemma_remainder_reads_back::<B>(s, (a - t) as nat, rice);
            lemma_remainders_read_back::<B>(past::<B>(s, code), vals, gt2, k + 1, next);
        } else {
            lemma_remainders_read_back::<B>(s, vals, gt2, k + 1, rice);
        }
    } else {
        binarization::lemma_nothing::<B>(s);
    }
}

// ---- signs ----

/// The signs of the first `m` coefficients: one for negative.
pub open spec fn sign_bits(vals: Seq<int>, m: int) -> Seq<Bin>
    decreases m,
{
    if m <= 0 {
        Seq::empty()
    } else {
        sign_bits(vals, m - 1).push(raw(vals[m - 1] < 0))
    }
}

/// The same as a number, the first sign at the top.
spec fn sign_number(vals: Seq<int>, m: int) -> int
    decreases m,
{
    if m <= 0 {
        0
    } else {
        2 * sign_number(vals, m - 1) + if vals[m - 1] < 0 {
            1int
        } else {
            0
        }
    }
}

proof fn lemma_signs_read_back<B: BinDecoder>(s: B::State, vals: Seq<int>, m: int)
    requires
        0 <= m,
        gives::<B>(s, sign_bits(vals, m)),
    ensures
        cabac::raw_bits::<B>(s, m as nat) == (past::<B>(s, sign_bits(vals, m)), sign_number(vals, m)),
    decreases m,
{
    if m > 0 {
        let b = raw(vals[m - 1] < 0);
        let head = sign_bits(vals, m - 1);
        assert(sign_bits(vals, m) =~= head + seq![b]);
        binarization::lemma_joined::<B>(s, head, seq![b]);
        binarization::lemma_single::<B>(past::<B>(s, head), b);
        lemma_signs_read_back::<B>(s, vals, m - 1);
    }
}

proof fn lemma_sign_of(vals: Seq<int>, m: int, k: int)
    requires
        0 <= k < m,
    ensures
        sign_number(vals, m) >= 0,
        (sign_number(vals, m) / (pow2((m - 1 - k) as nat) as int)) % 2 == 1 <==> vals[k] < 0,
    decreases m,
{
    lemma2_to64();
    lemma_sign_number(vals, m);
    let v = sign_number(vals, m);
    if k == m - 1 {
        assert(v / 1 == v);
    } else {
        lemma_sign_of(vals, m - 1, k);
        let d = pow2((m - 2 - k) as nat) as int;
        lemma_pow2_pos((m - 2 - k) as nat);
        lemma_pow2_adds((m - 2 - k) as nat, 1);
        lemma_div_denominator(v, 2, d);
        assert(2 * d == pow2((m - 1 - k) as nat));
        assert(v / 2 == sign_number(vals, m - 1));
    }
}

proof fn lemma_sign_number(vals: Seq<int>, m: int)
    ensures
        sign_number(vals, m) >= 0,
    decreases m,
{
    if m > 0 {
        lemma_sign_number(vals, m - 1);
    }
}

/// The sum of the levels.
pub open spec fn size_sum(vals: Seq<int>, n: int) -> int
    decreases n,
{
    if n <= 0 {
        0
    } else {
        size_sum(vals, n - 1) + size_of(vals[n - 1])
    }
}

proof fn lemma_size_sum(vals: Seq<int>, n: int)
    requires
        codable(vals),
        0 <= n <= vals.len(),
    ensures
        residual::level_sum(sizes(vals, n)) == size_sum(vals, n),
    decreases n,
{
    if n > 0 {
        assert(sizes(vals, n).drop_last() =~= sizes(vals, n - 1));
        lemma_size_sum(vals, n - 1);
    }
}

// ---- the levels of a sub-block ----

/// The sign of the last coefficient of a sub-block is hidden in the parity of its
/// levels: where signs are hidden, and more than three positions lie between its
/// first and its last.
pub open spec fn sign_hidden(b: Block, sig: Seq<u8>) -> bool {
    b.hiding && sig[0] - sig.last() > 3
}

/// The context set of a sub-block: luma has sets of its own past the first
/// sub-block, and where the sub-block before it had a large level another one is
/// used.
pub open spec fn level_set(b: Block, i: int, after_big: bool) -> int {
    (if b.c_idx == 0 && i > 0 {
        2int
    } else {
        0
    }) + if after_big {
        1int
    } else {
        0
    }
}

/// The levels and signs of a sub-block's coefficients, in falling scan order.
pub open spec fn levels_code(b: Block, i: int, after_big: bool, sig: Seq<u8>, vals: Seq<int>)
    -> Seq<Bin> {
    let set = level_set(b, i, after_big);
    let fb = first_big(vals, 0, flagged(vals));
    let (g1, g2) = if b.c_idx == 0 {
        (CTX_GT1 as int, CTX_GT2 as int)
    } else {
        (CTX_GT1 + 16, CTX_GT2 + 4)
    };
    let second = if fb < flagged(vals) {
        seq![coded(g2 + set, size_of(vals[fb]) > 2)]
    } else {
        Seq::empty()
    };
    let signs = if sign_hidden(b, sig) {
        vals.len() - 1
    } else {
        vals.len() as int
    };
    big_flags(vals, g1 + 4 * set, 0) + second + sign_bits(vals, signs) + remainders(vals, 0, 0)
}

/// What decoding the levels of a sub-block puts in place: a coefficient at each
/// significant position.
pub open spec fn put(
    f: Filled,
    b: Block,
    xs: int,
    ys: int,
    sig: Seq<u8>,
    vals: Seq<int>,
    k: int,
) -> Filled
    decreases k,
{
    if k <= 0 {
        f
    } else {
        let g = put(f, b, xs, ys, sig, vals, k - 1);
        let (xp, yp) = b.cell(sig[k - 1] as int);
        let (x, y) = (4 * xs + xp, 4 * ys + yp);
        Filled {
            coeffs: g.coeffs.update(y * b.n() + x, vals[k - 1] as i32),
            nz_w: arith::max2(g.nz_w, x + 1),
            nz_h: arith::max2(g.nz_h, y + 1),
        }
    }
}

proof fn lemma_put(
    f: Filled,
    b: Block,
    xs: int,
    ys: int,
    sig: Seq<u8>,
    vals: Seq<int>,
    levels: Seq<i32>,
    nsigns: int,
    signs: int,
    k: int,
)
    requires
        0 <= k <= vals.len(),
        forall|j: int|
            #![trigger vals[j]]
            0 <= j < vals.len() ==> residual::coeff_value(levels, nsigns, signs, j) == vals[j]
                as i32,
    ensures
        residual::placed(f, b, xs, ys, sig, levels, nsigns, signs, k) == put(
            f,
            b,
            xs,
            ys,
            sig,
            vals,
            k,
        ),
    decreases k,
{
    if k > 0 {
        lemma_put(f, b, xs, ys, sig, vals, levels, nsigns, signs, k - 1);
        assert(residual::coeff_value(levels, nsigns, signs, k - 1) == vals[k - 1] as i32);
    }
}

/// The levels and signs of a sub-block read back. Where a sign is hidden, the
/// levels have an odd sum if and only if that coefficient is negative.
pub proof fn lemma_levels_read_back<B: BinDecoder>(
    b: Block,
    i: int,
    st: Progress<B::State>,
    xs: int,
    ys: int,
    sig: Seq<u8>,
    vals: Seq<int>,
    after_big: bool,
)
    requires
        codable(vals),
        0 < vals.len() == sig.len(),
        i >= 0,
        after_big == (st.c1 == 0),
        sign_hidden(b, sig) ==> (size_sum(vals, vals.len() as int) % 2 == 1 <==> vals.last() < 0),
        gives::<B>(st.s, levels_code(b, i, after_big, sig, vals)),
    ensures
        ({
            let (n, e) = residual::sub_block_levels::<B>(b, i, st, xs, ys, sig);
            &&& e is None
            &&& n.s == past::<B>(st.s, levels_code(b, i, after_big, sig, vals))
            &&& n.coded == st.coded
            &&& n.c1 == 0 <==> first_big(vals, 0, flagged(vals)) < flagged(vals)
            &&& n.fill == put(st.fill, b, xs, ys, sig, vals, vals.len() as int)
        }),
{
    let num = vals.len() as int;
    let n = flagged(vals);
    let set = level_set(b, i, after_big);
    let fb = first_big(vals, 0, n);
    lemma_first_big(vals, 0, n);
    lemma_first_set(vals, n, n);
    assert(set == residual::ctx_set(b.c_idx as int, i, st.c1));
    let g1 = residual::gt1_base(b.c_idx as int) + 4 * set;
    let g2 = residual::gt2_base(b.c_idx as int) + set;
    let flags = big_flags(vals, g1, 0);
    let second = if fb < n {
        seq![coded(g2, size_of(vals[fb]) > 2)]
    } else {
        Seq::empty()
    };
    let nsigns = if sign_hidden(b, sig) {
        num - 1
    } else {
        num
    };
    let signs = sign_bits(vals, nsigns);
    let rest = remainders(vals, 0, 0);
    assert(levels_code(b, i, after_big, sig, vals) == flags + second + signs + rest);
    binarization::lemma_joined::<B>(st.s, flags + second + signs, rest);
    binarization::lemma_joined::<B>(st.s, flags + second, signs);
    binarization::lemma_joined::<B>(st.s, flags, second);
    let s1 = past::<B>(st.s, flags);
    let s2 = past::<B>(s1, second);
    let s3 = past::<B>(s2, signs);
    assert(arith::min2(num, 8) == n);
    assert(are_big(vals, 0) =~= Seq::empty());
    assert(sizes(vals, 0) =~= Seq::empty());
    lemma_big_flags_read_back::<B>(st.s, vals, g1, 0);
    binarization::lemma_nothing::<B>(s1);
    if fb < n {
        binarization::lemma_single::<B>(s1, coded(g2, size_of(vals[fb]) > 2));
    }
    let gt2 = fb < n && size_of(vals[fb]) > 2;
    lemma_signs_read_back::<B>(s2, vals, nsigns);
    lemma_remainders_read_back::<B>(s3, vals, gt2, 0, 0);
    let levels = sizes(vals, num);
    let number = sign_number(vals, nsigns);
    lemma_size_sum(vals, num);
    assert forall|k: int| #![trigger vals[k]] 0 <= k < num implies residual::coeff_value(
        levels,
        nsigns,
        number,
        k,
    ) == vals[k] as i32 by {
        if k < nsigns {
            lemma_sign_of(vals, nsigns, k);
        } else {
            assert(vals.last() == vals[k]);
        }
        assert(levels[k] == size_of(vals[k]));
        assert(residual::is_negative(levels, nsigns, number, k) <==> vals[k] < 0);
    }
    lemma_put(st.fill, b, xs, ys, sig, vals, levels, nsigns, number, num);
}

// ---- scans ----

/// A cell comes before the one to its right and the one below it, in every scan.
proof fn lemma_neighbours_later(size: int, scan_idx: int, x: int, y: int)
    requires
        1 <= size,
        0 <= x < size,
        0 <= y < size,
    ensures
        x + 1 < size ==> tables::scan_pos(size, scan_idx, x + 1, y) > tables::scan_pos(
            size,
            scan_idx,
            x,
            y,
        ),
        y + 1 < size ==> tables::scan_pos(size, scan_idx, x, y + 1) > tables::scan_pos(
            size,
            scan_idx,
            x,
            y,
        ),
{
    assert((y + 1) * size == y * size + size) by (nonlinear_arith);
    assert((x + 1) * size == x * size + size) by (nonlinear_arith);
    tables::lemma_diag_pos_bound(size, x, y);
    if x + 1 < size {
        tables::lemma_diag_pos_bound(size, x + 1, y);
        tables::lemma_diag_start_mono(size, x + y, x + y + 1);
    }
    if y + 1 < size {
        tables::lemma_diag_pos_bound(size, x, y + 1);
        tables::lemma_diag_start_mono(size, x + y, x + y + 1);
    }
}

// ---- significance ----

/// Coefficient (`xp`, `yp`) of sub-block (`xs`, `ys`).
pub open spec fn inside(t: spec_fn(int, int) -> int, xs: int, ys: int, xp: int, yp: int) -> int {
    t(4 * xs + xp, 4 * ys + yp)
}

/// The coefficient at position `p` of a sub-block's scan.
pub open spec fn along(t: spec_fn(int, int) -> int, b: Block, xs: int, ys: int, p: int) -> int {
    inside(t, xs, ys, b.cell(p).0, b.cell(p).1)
}

/// A sub-block with a coefficient that is not zero.
pub open spec fn holds(t: spec_fn(int, int) -> int, xs: int, ys: int) -> bool {
    exists|xp: int, yp: int|
        #![trigger inside(t, xs, ys, xp, yp)]
        0 <= xp < 4 && 0 <= yp < 4 && inside(t, xs, ys, xp, yp) != 0
}

/// The positions, from `p` down, whose coefficient is not zero.
pub open spec fn nonzero(t: spec_fn(int, int) -> int, b: Block, xs: int, ys: int, p: int) -> Seq<u8>
    decreases p + 1,
{
    if p < 0 {
        Seq::empty()
    } else if along(t, b, xs, ys, p) != 0 {
        seq![p as u8] + nonzero(t, b, xs, ys, p - 1)
    } else {
        nonzero(t, b, xs, ys, p - 1)
    }
}

/// Their coefficients.
pub open spec fn values(t: spec_fn(int, int) -> int, b: Block, xs: int, ys: int, sig: Seq<u8>)
    -> Seq<int> {
    Seq::new(sig.len(), |k: int| along(t, b, xs, ys, sig[k] as int))
}

/// The context variable of a significance flag. In a 4×4 block each quarter but
/// the first has contexts of its own, by column, by row or one for all. In larger
/// ones it goes by the distance from the coded neighbours, or from the corner
/// where there is none.
pub open spec fn significance_ctx(
    b: Block,
    xs: int,
    ys: int,
    xp: int,
    yp: int,
    right: bool,
    below: bool,
) -> int {
    let first = if b.c_idx == 0 {
        CTX_SIG as int
    } else {
        CTX_SIG + 27
    };
    let distance = if right && below {
        0
    } else if right {
        yp
    } else if below {
        xp
    } else {
        (xp + yp + 1) / 2
    };
    let near = if distance < 2 {
        2 - distance
    } else {
        0
    };
    first + if b.log2 == 2 {
        if xp < 2 && yp < 2 {
            2 * yp + xp
        } else if yp < 2 {
            xp + 2
        } else if xp < 2 {
            yp + 4
        } else {
            8
        }
    } else if xs == 0 && ys == 0 && xp == 0 && yp == 0 {
        0
    } else if b.c_idx != 0 {
        near + if b.log2 == 3 {
            9int
        } else {
            12
        }
    } else {
        near + (if xs == 0 && ys == 0 {
            0int
        } else {
            3
        }) + if b.log2 > 3 {
            21int
        } else if b.scan_idx == 0 {
            9
        } else {
            15
        }
    }
}

proof fn lemma_significance_ctx(
    b: Block,
    xs: int,
    ys: int,
    xp: int,
    yp: int,
    right: bool,
    below: bool,
)
    requires
        b.wf(),
        0 <= xs < b.nsb(),
        0 <= ys < b.nsb(),
        0 <= xp < 4,
        0 <= yp < 4,
    ensures
        residual::sig_base(b.c_idx as int) + residual::sig_ctx(b, xs, ys, xp, yp, right, below)
            == significance_ctx(b, xs, ys, xp, yp, right, below),
{
    residual::lemma_block_size(b);
    lemma2_to64();
}

/// The significance flags from position `p` down. Where the sub-block is known to
/// hold something, `known`, and nothing was found yet, the last flag is left out.
pub open spec fn significance_code(
    t: spec_fn(int, int) -> int,
    b: Block,
    xs: int,
    ys: int,
    right: bool,
    below: bool,
    p: int,
    known: bool,
) -> Seq<Bin>
    decreases p + 1,
{
    if p < 0 || p == 0 && known {
        Seq::empty()
    } else {
        let v = along(t, b, xs, ys, p);
        seq![
            coded(
                significance_ctx(b, xs, ys, b.cell(p).0, b.cell(p).1, right, below),
                v != 0,
            ),
        ] + significance_code(t, b, xs, ys, right, below, p - 1, known && v == 0)
    }
}

proof fn lemma_significance_reads_back<B: BinDecoder>(
    s: B::State,
    t: spec_fn(int, int) -> int,
    b: Block,
    pos: Seq<(u8, u8)>,
    xs: int,
    ys: int,
    right: bool,
    below: bool,
    p: int,
    known: bool,
    acc: Seq<u8>,
)
    requires
        b.wf(),
        tables::is_scan(pos, 4, b.scan_idx as int),
        0 <= xs < b.nsb(),
        0 <= ys < b.nsb(),
        -1 <= p < 16,
        known ==> nonzero(t, b, xs, ys, p).len() > 0,
        gives::<B>(s, significance_code(t, b, xs, ys, right, below, p, known)),
    ensures
        residual::sig_scan::<B>(s, b, xs, ys, right, below, p, known, acc) == (
            past::<B>(s, significance_code(t, b, xs, ys, right, below, p, known)),
            acc + nonzero(t, b, xs, ys, p),
        ),
    decreases p + 1,
{
    if p < 0 {
        assert(acc + Seq::<u8>::empty() =~= acc);
    } else if p == 0 && known {
        reveal_with_fuel(nonzero, 2);
        assert(acc + seq![0u8] =~= acc.push(0));
        assert(nonzero(t, b, xs, ys, 0) =~= seq![0u8]);
    } else {
        let v = along(t, b, xs, ys, p);
        residual::lemma_scan_cell(pos, 4, b.scan_idx as int, p);
        lemma_significance_ctx(b, xs, ys, b.cell(p).0, b.cell(p).1, right, below);
        let bin = coded(
            significance_ctx(b, xs, ys, b.cell(p).0, b.cell(p).1, right, below),
            v != 0,
        );
        let rest = significance_code(t, b, xs, ys, right, below, p - 1, known && v == 0);
        binarization::lemma_joined::<B>(s, seq![bin], rest);
        binarization::lemma_single::<B>(s, bin);
        let next = if v != 0 {
            acc.push(p as u8)
        } else {
            acc
        };
        lemma_significance_reads_back::<B>(
            past::<B>(s, seq![bin]),
            t,
            b,
            pos,
            xs,
            ys,
            right,
            below,
            p - 1,
            known && v == 0,
            next,
        );
        if v != 0 {
            assert(next + nonzero(t, b, xs, ys, p - 1) =~= acc + (seq![p as u8] + nonzero(
                t,
                b,
                xs,
                ys,
                p - 1,
            )));
        }
    }
}

proof fn lemma_nonzero(t: spec_fn(int, int) -> int, b: Block, xs: int, ys: int, p: int)
    requires
        -1 <= p < 16,
    ensures
        forall|k: int|
            #![trigger nonzero(t, b, xs, ys, p)[k]]
            0 <= k < nonzero(t, b, xs, ys, p).len() ==> nonzero(t, b, xs, ys, p)[k] <= p && along(
                t,
                b,
                xs,
                ys,
                nonzero(t, b, xs, ys, p)[k] as int,
            ) != 0,
        forall|q: int|
            #![trigger along(t, b, xs, ys, q)]
            0 <= q <= p && along(t, b, xs, ys, q) != 0 ==> nonzero(t, b, xs, ys, p).contains(
                q as u8,
            ),
    decreases p + 1,
{
    if p >= 0 {
        lemma_nonzero(t, b, xs, ys, p - 1);
        let rest = nonzero(t, b, xs, ys, p - 1);
        let all = nonzero(t, b, xs, ys, p);
        if along(t, b, xs, ys, p) != 0 {
            assert forall|k: int| #![trigger all[k]] 0 <= k < all.len() implies all[k] <= p
                && along(t, b, xs, ys, all[k] as int) != 0 by {
                if k > 0 {
                    assert(all[k] == rest[k - 1]);
                }
            }
            assert forall|q: int|
                #![trigger along(t, b, xs, ys, q)]
                0 <= q <= p && along(t, b, xs, ys, q) != 0 implies all.contains(q as u8) by {
                if q == p {
                    assert(all[0] == q as u8);
                } else {
                    let k = choose|k: int| 0 <= k < rest.len() && rest[k] == q as u8;
                    assert(all[k + 1] == q as u8);
                }
            }
        }
    }
}

/// Zeros at the top of a sub-block change nothing.
proof fn lemma_nonzero_below(t: spec_fn(int, int) -> int, b: Block, xs: int, ys: int, p: int, q: int)
    requires
        -1 <= q <= p < 16,
        forall|k: int| #![trigger along(t, b, xs, ys, k)] q < k <= p ==> along(t, b, xs, ys, k) == 0,
    ensures
        nonzero(t, b, xs, ys, p) == nonzero(t, b, xs, ys, q),
    decreases p - q,
{
    if q < p {
        assert(along(t, b, xs, ys, p) == 0);
        lemma_nonzero_below(t, b, xs, ys, p - 1, q);
    }
}

proof fn lemma_holds(
    t: spec_fn(int, int) -> int,
    b: Block,
    pos: Seq<(u8, u8)>,
    xs: int,
    ys: int,
)
    requires
        tables::is_scan(pos, 4, b.scan_idx as int),
    ensures
        holds(t, xs, ys) <==> nonzero(t, b, xs, ys, 15).len() > 0,
{
    lemma_nonzero(t, b, xs, ys, 15);
    let all = nonzero(t, b, xs, ys, 15);
    if holds(t, xs, ys) {
        let (xp, yp) = choose|xp: int, yp: int|
            #![trigger inside(t, xs, ys, xp, yp)]
            0 <= xp < 4 && 0 <= yp < 4 && inside(t, xs, ys, xp, yp) != 0;
        let p = tables::scan_pos(4, b.scan_idx as int, xp, yp);
        residual::lemma_scan_cell(pos, 4, b.scan_idx as int, p);
        assert(along(t, b, xs, ys, p) != 0);
        assert(all.contains(p as u8));
    }
    if all.len() > 0 {
        let p = all[0] as int;
        residual::lemma_scan_cell(pos, 4, b.scan_idx as int, p);
        assert(along(t, b, xs, ys, p) != 0);
        assert(inside(t, xs, ys, b.cell(p).0, b.cell(p).1) != 0);
    }
}

// ---- sub-blocks ----

/// The bins of sub-block `i` of the scan: its own flag where it lies between the
/// first and the last, its significance flags, its levels.
pub open spec fn sub_block_code(
    t: spec_fn(int, int) -> int,
    b: Block,
    i: int,
    after_big: bool,
) -> Seq<Bin> {
    let (xs, ys) = b.sub_cell(i);
    let right = xs + 1 < b.nsb() && holds(t, xs + 1, ys);
    let below = ys + 1 < b.nsb() && holds(t, xs, ys + 1);
    let own = 0 < i < b.last_sb;
    let sig = nonzero(t, b, xs, ys, 15);
    let head = if own {
        seq![
            coded(
                CTX_CSBF + (if right || below {
                    1int
                } else {
                    0
                }) + if b.c_idx == 0 {
                    0int
                } else {
                    2
                },
                holds(t, xs, ys),
            ),
        ]
    } else {
        Seq::empty()
    };
    let top = if i == b.last_sb {
        b.last_pos - 1
    } else {
        15
    };
    let flags = if own && !holds(t, xs, ys) {
        Seq::empty()
    } else {
        significance_code(t, b, xs, ys, right, below, top, own)
    };
    let levels = if sig.len() > 0 {
        levels_code(b, i, after_big, sig, values(t, b, xs, ys, sig))
    } else {
        Seq::empty()
    };
    head + flags + levels
}

/// Whether the sub-block after `i` comes after a large level.
pub open spec fn next_after_big(
    t: spec_fn(int, int) -> int,
    b: Block,
    i: int,
    after_big: bool,
) -> bool {
    let (xs, ys) = b.sub_cell(i);
    let vals = values(t, b, xs, ys, nonzero(t, b, xs, ys, 15));
    if vals.len() > 0 {
        first_big(vals, 0, flagged(vals)) < flagged(vals)
    } else {
        after_big
    }
}

/// Where a sign of sub-block `i` is hidden, the sum of its levels is odd if and
/// only if that coefficient is negative.
pub open spec fn parity_tells(t: spec_fn(int, int) -> int, b: Block, i: int) -> bool {
    let (xs, ys) = b.sub_cell(i);
    let sig = nonzero(t, b, xs, ys, 15);
    let vals = values(t, b, xs, ys, sig);
    sig.len() > 0 && sign_hidden(b, sig) ==> (size_sum(vals, vals.len() as int) % 2 == 1
        <==> vals.last() < 0)
}

/// `b` describes a block with the coefficients `t`, by column and row: they have
/// 16 bits, the last that is not zero in scan order is where `b` says, and hidden
/// signs can be told.
pub open spec fn describes(b: Block, t: spec_fn(int, int) -> int) -> bool {
    let idx = b.scan_idx as int;
    &&& b.wf()
    &&& forall|x: int, y: int|
        #![trigger t(x, y)]
        0 <= x < b.n() && 0 <= y < b.n() ==> -32768 <= t(x, y) <= 32767
    &&& along(t, b, b.sub_cell(b.last_sb as int).0, b.sub_cell(b.last_sb as int).1, b.last_pos as int)
        != 0
    &&& forall|x: int, y: int|
        #![trigger t(x, y)]
        0 <= x < b.n() && 0 <= y < b.n() && t(x, y) != 0 ==> {
            let sub = tables::scan_pos(b.nsb(), idx, x / 4, y / 4);
            sub < b.last_sb || sub == b.last_sb && tables::scan_pos(4, idx, x % 4, y % 4)
                <= b.last_pos
        }
    &&& forall|i: int| #![trigger b.sub_cell(i)] 0 <= i <= b.last_sb ==> parity_tells(t, b, i)
}

/// The sub-blocks after `i` that hold something.
pub open spec fn coded_after(
    c: Set<(int, int)>,
    t: spec_fn(int, int) -> int,
    b: Block,
    i: int,
) -> bool {
    forall|x: int, y: int|
        #![trigger c.contains((x, y))]
        c.contains((x, y)) <==> 0 <= x < b.nsb() && 0 <= y < b.nsb() && tables::scan_pos(
            b.nsb(),
            b.scan_idx as int,
            x,
            y,
        ) > i && holds(t, x, y)
}

/// The significant positions that decoding finds in a sub-block.
proof fn lemma_sub_block_found<B: BinDecoder>(
    s: B::State,
    t: spec_fn(int, int) -> int,
    b: Block,
    sb: Seq<(u8, u8)>,
    pos: Seq<(u8, u8)>,
    i: int,
    right: bool,
    below: bool,
)
    requires
        describes(b, t),
        tables::is_scan(sb, b.nsb(), b.scan_idx as int),
        tables::is_scan(pos, 4, b.scan_idx as int),
        0 <= i <= b.last_sb,
        ({
            let (xs, ys) = b.sub_cell(i);
            let own = 0 < i < b.last_sb;
            let top = if i == b.last_sb {
                b.last_pos - 1
            } else {
                15
            };
            &&& own ==> holds(t, xs, ys)
            &&& gives::<B>(s, significance_code(t, b, xs, ys, right, below, top, own))
        }),
    ensures
        ({
            let (xs, ys) = b.sub_cell(i);
            let own = 0 < i < b.last_sb;
            let top = if i == b.last_sb {
                b.last_pos - 1
            } else {
                15
            };
            let sig0 = if i == b.last_sb {
                seq![b.last_pos as u8]
            } else {
                Seq::<u8>::empty()
            };
            residual::sig_scan::<B>(s, b, xs, ys, right, below, top, own, sig0) == (
                past::<B>(s, significance_code(t, b, xs, ys, right, below, top, own)),
                nonzero(t, b, xs, ys, 15),
            )
        }),
{
    let (xs, ys) = b.sub_cell(i);
    let own = 0 < i < b.last_sb;
    let top = if i == b.last_sb {
        b.last_pos - 1
    } else {
        15
    };
    let sig0 = if i == b.last_sb {
        seq![b.last_pos as u8]
    } else {
        Seq::<u8>::empty()
    };
    residual::lemma_scan_cell(sb, b.nsb(), b.scan_idx as int, i);
    residual::lemma_block_size(b);
    lemma_holds(t, b, pos, xs, ys);
    lemma_significance_reads_back::<B>(s, t, b, pos, xs, ys, right, below, top, own, sig0);
    if i == b.last_sb {
        let last = b.last_pos as int;
        assert forall|k: int| #![trigger along(t, b, xs, ys, k)] last < k <= 15 implies along(
            t,
            b,
            xs,
            ys,
            k,
        ) == 0 by {
            residual::lemma_scan_cell(pos, 4, b.scan_idx as int, k);
            let (x, y) = (4 * xs + b.cell(k).0, 4 * ys + b.cell(k).1);
            assert(x / 4 == xs && y / 4 == ys && x % 4 == b.cell(k).0 && y % 4 == b.cell(k).1);
            assert(t(x, y) == along(t, b, xs, ys, k));
        }
        lemma_nonzero_below(t, b, xs, ys, 15, last);
        assert(sig0 + nonzero(t, b, xs, ys, last - 1) =~= nonzero(t, b, xs, ys, last));
    } else {
        assert(sig0 + nonzero(t, b, xs, ys, 15) =~= nonzero(t, b, xs, ys, 15));
    }
}

proof fn lemma_values_codable(
    t: spec_fn(int, int) -> int,
    b: Block,
    sb: Seq<(u8, u8)>,
    pos: Seq<(u8, u8)>,
    i: int,
)
    requires
        describes(b, t),
        tables::is_scan(sb, b.nsb(), b.scan_idx as int),
        tables::is_scan(pos, 4, b.scan_idx as int),
        0 <= i <= b.last_sb,
    ensures
        ({
            let (xs, ys) = b.sub_cell(i);
            codable(values(t, b, xs, ys, nonzero(t, b, xs, ys, 15)))
        }),
{
    let (xs, ys) = b.sub_cell(i);
    let sig = nonzero(t, b, xs, ys, 15);
    let vals = values(t, b, xs, ys, sig);
    residual::lemma_scan_cell(sb, b.nsb(), b.scan_idx as int, i);
    residual::lemma_block_size(b);
    lemma_nonzero(t, b, xs, ys, 15);
    assert forall|k: int| #![trigger vals[k]] 0 <= k < vals.len() implies vals[k] != 0 && -32768
        <= vals[k] <= 32767 by {
        let p = sig[k] as int;
        residual::lemma_scan_cell(pos, 4, b.scan_idx as int, p);
        assert(vals[k] == t(4 * xs + b.cell(p).0, 4 * ys + b.cell(p).1));
    }
}

/// Which sub-blocks are known to hold something once `i` is read.
proof fn lemma_coded_next(
    c: Set<(int, int)>,
    t: spec_fn(int, int) -> int,
    b: Block,
    sb: Seq<(u8, u8)>,
    i: int,
)
    requires
        tables::is_scan(sb, b.nsb(), b.scan_idx as int),
        0 <= i < sb.len(),
        coded_after(c, t, b, i),
    ensures
        holds(t, b.sub_cell(i).0, b.sub_cell(i).1) ==> coded_after(
            c.insert(b.sub_cell(i)),
            t,
            b,
            i - 1,
        ),
        !holds(t, b.sub_cell(i).0, b.sub_cell(i).1) ==> coded_after(
            c.remove(b.sub_cell(i)),
            t,
            b,
            i - 1,
        ),
{
    let own = b.sub_cell(i);
    residual::lemma_scan_cell(sb, b.nsb(), b.scan_idx as int, i);
    let d = if holds(t, own.0, own.1) {
        c.insert(own)
    } else {
        c.remove(own)
    };
    assert forall|x: int, y: int| #![trigger d.contains((x, y))] d.contains((x, y)) <==> 0 <= x
        < b.nsb() && 0 <= y < b.nsb() && tables::scan_pos(b.nsb(), b.scan_idx as int, x, y) > i - 1
        && holds(t, x, y) by {
        assert(c.contains((x, y)) <==> 0 <= x < b.nsb() && 0 <= y < b.nsb() && tables::scan_pos(
            b.nsb(),
            b.scan_idx as int,
            x,
            y,
        ) > i && holds(t, x, y));
        assert(sb[i].0 == own.0 && sb[i].1 == own.1);
    }
}

/// A sub-block reads back.
#[verifier::spinoff_prover]
proof fn lemma_sub_block_reads_back<B: BinDecoder>(
    st: Progress<B::State>,
    t: spec_fn(int, int) -> int,
    b: Block,
    sb: Seq<(u8, u8)>,
    pos: Seq<(u8, u8)>,
    i: int,
    after_big: bool,
)
    requires
        describes(b, t),
        tables::is_scan(sb, b.nsb(), b.scan_idx as int),
        tables::is_scan(pos, 4, b.scan_idx as int),
        0 <= i <= b.last_sb,
        coded_after(st.coded, t, b, i),
        after_big <==> st.c1 == 0,
        gives::<B>(st.s, sub_block_code(t, b, i, after_big)),
    ensures
        ({
            let (n, e) = residual::sub_block::<B>(b, i, st);
            let (xs, ys) = b.sub_cell(i);
            let sig = nonzero(t, b, xs, ys, 15);
            &&& e is None
            &&& n.s == past::<B>(st.s, sub_block_code(t, b, i, after_big))
            &&& i > 0 ==> coded_after(n.coded, t, b, i - 1)
            &&& n.c1 == 0 <==> next_after_big(t, b, i, after_big)
            &&& n.fill == put(
                st.fill,
                b,
                xs,
                ys,
                sig,
                values(t, b, xs, ys, sig),
                sig.len() as int,
            )
        }),
{
    let (xs, ys) = b.sub_cell(i);
    residual::lemma_scan_cell(sb, b.nsb(), b.scan_idx as int, i);
    residual::lemma_block_size(b);
    lemma_neighbours_later(b.nsb(), b.scan_idx as int, xs, ys);
    assert(tables::scan_pos(b.nsb(), b.scan_idx as int, xs, ys) == i);
    let right = xs + 1 < b.nsb() && holds(t, xs + 1, ys);
    let below = ys + 1 < b.nsb() && holds(t, xs, ys + 1);
    assert(st.coded.contains((xs + 1, ys)) == right);
    assert(st.coded.contains((xs, ys + 1)) == below);
    let own = 0 < i < b.last_sb;
    let here = holds(t, xs, ys);
    let sig = nonzero(t, b, xs, ys, 15);
    let vals = values(t, b, xs, ys, sig);
    let bin = coded(
        CTX_CSBF + (if right || below {
            1int
        } else {
            0
        }) + if b.c_idx == 0 {
            0int
        } else {
            2
        },
        here,
    );
    let head = if own {
        seq![bin]
    } else {
        Seq::empty()
    };
    let top = if i == b.last_sb {
        b.last_pos - 1
    } else {
        15
    };
    let flags = if own && !here {
        Seq::empty()
    } else {
        significance_code(t, b, xs, ys, right, below, top, own)
    };
    let levels = if sig.len() > 0 {
        levels_code(b, i, after_big, sig, vals)
    } else {
        Seq::empty()
    };
    assert(sub_block_code(t, b, i, after_big) == head + flags + levels);
    binarization::lemma_joined::<B>(st.s, head + flags, levels);
    binarization::lemma_joined::<B>(st.s, head, flags);
    let s1 = past::<B>(st.s, head);
    let s2 = past::<B>(s1, flags);
    if own {
        binarization::lemma_single::<B>(st.s, bin);
    } else {
        binarization::lemma_nothing::<B>(st.s);
    }
    binarization::lemma_nothing::<B>(s1);
    binarization::lemma_nothing::<B>(s2);
    lemma_holds(t, b, pos, xs, ys);
    if !own || here {
        lemma_sub_block_found::<B>(s1, t, b, sb, pos, i, right, below);
    }
    lemma_coded_next(st.coded, t, b, sb, i);
    if i == b.last_sb {
        lemma_nonzero(t, b, xs, ys, 15);
        assert(along(t, b, xs, ys, b.last_pos as int) != 0);
        assert(sig.contains(b.last_pos as u8));
        assert(here);
    }
    let coded_set = if own && !here {
        st.coded.remove((xs, ys))
    } else {
        st.coded.insert((xs, ys))
    };
    let st2 = Progress { s: s2, coded: coded_set, ..st };
    if sig.len() > 0 {
        lemma_values_codable(t, b, sb, pos, i);
        assert(parity_tells(t, b, i));
        lemma_levels_read_back::<B>(b, i, st2, xs, ys, sig, vals, after_big);
    }
}

// ---- the coefficients in their places ----

/// The cells of sub-block (`xs`, `ys`) whose position is among the first `k` of
/// `sig` have their coefficient, and no other cell changed.
proof fn lemma_put_cells(
    f: Filled,
    t: spec_fn(int, int) -> int,
    b: Block,
    pos: Seq<(u8, u8)>,
    xs: int,
    ys: int,
    sig: Seq<u8>,
    k: int,
    x: int,
    y: int,
)
    requires
        b.wf(),
        tables::is_scan(pos, 4, b.scan_idx as int),
        0 <= xs < b.nsb(),
        0 <= ys < b.nsb(),
        0 <= k <= sig.len(),
        f.coeffs.len() == b.n() * b.n(),
        forall|j: int| #![trigger sig[j]] 0 <= j < sig.len() ==> sig[j] < 16,
        0 <= x < b.n(),
        0 <= y < b.n(),
        -32768 <= t(x, y) <= 32767,
    ensures
        ({
            let g = put(f, b, xs, ys, sig, values(t, b, xs, ys, sig), k);
            let p = tables::scan_pos(4, b.scan_idx as int, x % 4, y % 4);
            let new = x / 4 == xs && y / 4 == ys && sig.take(k).contains(p as u8);
            &&& g.coeffs.len() == b.n() * b.n()
            &&& g.coeffs[y * b.n() + x] == if new {
                t(x, y) as i32
            } else {
                f.coeffs[y * b.n() + x]
            }
            &&& g.nz_w >= f.nz_w && g.nz_h >= f.nz_h
            &&& new ==> x < g.nz_w && y < g.nz_h
        }),
    decreases k,
{
    residual::lemma_block_size(b);
    let idx = b.scan_idx as int;
    let n = b.n();
    let p = tables::scan_pos(4, idx, x % 4, y % 4);
    arith::lemma_flat_bound(x, y, n, n);
    if k > 0 {
        lemma_put_cells(f, t, b, pos, xs, ys, sig, k - 1, x, y);
        let q = sig[k - 1] as int;
        residual::lemma_scan_cell(pos, 4, idx, q);
        residual::lemma_scan_cell(pos, 4, idx, p);
        let (x1, y1) = (4 * xs + b.cell(q).0, 4 * ys + b.cell(q).1);
        arith::lemma_flat_bound(x1, y1, n, n);
        assert(x1 / 4 == xs && y1 / 4 == ys && x1 % 4 == b.cell(q).0 && y1 % 4 == b.cell(q).1);
        assert(sig.take(k) =~= sig.take(k - 1).push(sig[k - 1]));
        if x1 == x && y1 == y {
            assert(q == p);
            assert(sig.take(k)[k - 1] == p as u8);
        } else {
            if y1 * n + x1 == y * n + x {
                arith::lemma_flat_inj(x, y, x1, y1, n);
            }
            if x / 4 == xs && y / 4 == ys {
                assert(x == 4 * xs + x % 4 && y == 4 * ys + y % 4);
                assert(p != q);
            }
        }
        if sig.take(k).contains(p as u8) {
            let j = choose|j: int| 0 <= j < k && sig.take(k)[j] == p as u8;
            if j < k - 1 {
                assert(sig.take(k - 1)[j] == p as u8);
            }
        }
        if sig.take(k - 1).contains(p as u8) {
            let j = choose|j: int| #![trigger sig.take(k - 1)[j]] 0 <= j < k - 1 && sig.take(k - 1)[j] == p as u8;
            assert(sig.take(k)[j] == p as u8);
        }
    }
}

/// The bounds grow only to where a coefficient was put.
proof fn lemma_put_bounds(
    f: Filled,
    t: spec_fn(int, int) -> int,
    b: Block,
    xs: int,
    ys: int,
    sig: Seq<u8>,
    k: int,
)
    requires
        0 <= k <= sig.len(),
    ensures
        ({
            let g = put(f, b, xs, ys, sig, values(t, b, xs, ys, sig), k);
            &&& g.nz_w == f.nz_w || exists|j: int|
                #![trigger sig[j]]
                0 <= j < k && g.nz_w == 4 * xs + b.cell(sig[j] as int).0 + 1
            &&& g.nz_h == f.nz_h || exists|j: int|
                #![trigger sig[j]]
                0 <= j < k && g.nz_h == 4 * ys + b.cell(sig[j] as int).1 + 1
        }),
    decreases k,
{
    if k > 0 {
        lemma_put_bounds(f, t, b, xs, ys, sig, k - 1);
        let q = sig[k - 1];
    }
}

/// The coefficients of the sub-blocks after `i` stand in their places, and zeros
/// everywhere else.
pub open spec fn filled_after(
    f: Filled,
    t: spec_fn(int, int) -> int,
    b: Block,
    i: int,
) -> bool {
    let n = b.n();
    &&& f.coeffs.len() == n * n
    &&& forall|x: int, y: int|
        #![trigger f.coeffs[y * n + x]]
        #![trigger t(x, y)]
        0 <= x < n && 0 <= y < n ==> f.coeffs[y * n + x] == if tables::scan_pos(
            b.nsb(),
            b.scan_idx as int,
            x / 4,
            y / 4,
        ) > i {
            t(x, y)
        } else {
            0
        }
}

/// The rectangle holds every coefficient of the sub-blocks after `i` that is not
/// zero.
pub open spec fn bounded_after(f: Filled, t: spec_fn(int, int) -> int, b: Block, i: int) -> bool {
    forall|x: int, y: int|
        #![trigger t(x, y)]
        0 <= x < b.n() && 0 <= y < b.n() && t(x, y) != 0 && tables::scan_pos(
            b.nsb(),
            b.scan_idx as int,
            x / 4,
            y / 4,
        ) > i ==> x < f.nz_w && y < f.nz_h
}

/// No smaller rectangle would do: its last column and its last row hold something.
pub open spec fn bounds_met(f: Filled, t: spec_fn(int, int) -> int, n: int) -> bool {
    &&& f.nz_w == 0 || exists|x: int, y: int|
        #![trigger t(x, y)]
        0 <= x < n && 0 <= y < n && t(x, y) != 0 && x + 1 == f.nz_w
    &&& f.nz_h == 0 || exists|x: int, y: int|
        #![trigger t(x, y)]
        0 <= x < n && 0 <= y < n && t(x, y) != 0 && y + 1 == f.nz_h
}

proof fn lemma_sub_block_filled(
    f: Filled,
    t: spec_fn(int, int) -> int,
    b: Block,
    sb: Seq<(u8, u8)>,
    pos: Seq<(u8, u8)>,
    i: int,
)
    requires
        describes(b, t),
        tables::is_scan(sb, b.nsb(), b.scan_idx as int),
        tables::is_scan(pos, 4, b.scan_idx as int),
        0 <= i <= b.last_sb,
        filled_after(f, t, b, i),
        bounded_after(f, t, b, i),
        bounds_met(f, t, b.n()),
    ensures
        ({
            let (xs, ys) = b.sub_cell(i);
            let sig = nonzero(t, b, xs, ys, 15);
            let g = put(f, b, xs, ys, sig, values(t, b, xs, ys, sig), sig.len() as int);
            &&& filled_after(g, t, b, i - 1)
            &&& bounded_after(g, t, b, i - 1)
            &&& bounds_met(g, t, b.n())
        }),
{
    let (xs, ys) = b.sub_cell(i);
    let idx = b.scan_idx as int;
    let n = b.n();
    let sig = nonzero(t, b, xs, ys, 15);
    let k = sig.len() as int;
    let g = put(f, b, xs, ys, sig, values(t, b, xs, ys, sig), k);
    residual::lemma_scan_cell(sb, b.nsb(), idx, i);
    residual::lemma_block_size(b);
    lemma_nonzero(t, b, xs, ys, 15);
    assert(sig.take(k) =~= sig);
    assert forall|x: int, y: int| 0 <= x < n && 0 <= y < n implies ({
        let after = tables::scan_pos(b.nsb(), idx, x / 4, y / 4) > i - 1;
        &&& g.coeffs.len() == n * n
        &&& #[trigger] g.coeffs[y * n + x] == if after {
            t(x, y)
        } else {
            0
        }
        &&& after && t(x, y) != 0 ==> x < g.nz_w && y < g.nz_h
    }) by {
        lemma_put_cells(f, t, b, pos, xs, ys, sig, k, x, y);
        let sub = tables::scan_pos(b.nsb(), idx, x / 4, y / 4);
        let p = tables::scan_pos(4, idx, x % 4, y % 4);
        residual::lemma_scan_cell(pos, 4, idx, p);
        assert(sub == i <==> x / 4 == xs && y / 4 == ys) by {
            assert(sb[i].0 == xs && sb[i].1 == ys);
        }
        if sub == i {
            assert(x == 4 * xs + b.cell(p).0 && y == 4 * ys + b.cell(p).1);
            assert(along(t, b, xs, ys, p) == t(x, y));
            if sig.contains(p as u8) {
                let j = choose|j: int| 0 <= j < sig.len() && sig[j] == p as u8;
                assert(along(t, b, xs, ys, sig[j] as int) != 0);
            }
        }
        assert(f.coeffs[y * n + x] == if sub > i {
            t(x, y)
        } else {
            0
        });
    }
    assert(filled_after(g, t, b, i - 1)) by {
        lemma_put_cells(f, t, b, pos, xs, ys, sig, k, 0, 0);
        assert forall|x: int, y: int|
            #![trigger t(x, y)]
            0 <= x < n && 0 <= y < n implies g.coeffs[y * n + x] == if tables::scan_pos(
            b.nsb(),
            idx,
            x / 4,
            y / 4,
        ) > i - 1 {
            t(x, y)
        } else {
            0
        } by {
            let c = g.coeffs[y * n + x];
        }
    }
    assert(bounded_after(g, t, b, i - 1)) by {
        assert forall|x: int, y: int|
            #![trigger t(x, y)]
            0 <= x < b.n() && 0 <= y < b.n() && t(x, y) != 0 && tables::scan_pos(
                b.nsb(),
                b.scan_idx as int,
                x / 4,
                y / 4,
            ) > i - 1 implies x < g.nz_w && y < g.nz_h by {
            let c = g.coeffs[y * n + x];
        }
    }
    lemma_put_bounds(f, t, b, xs, ys, sig, k);
    assert(bounds_met(g, t, n)) by {
        assert forall|j: int| #![trigger sig[j]] 0 <= j < k implies ({
            let (x, y) = (4 * xs + b.cell(sig[j] as int).0, 4 * ys + b.cell(sig[j] as int).1);
            0 <= x < n && 0 <= y < n && t(x, y) != 0
        }) by {
            residual::lemma_scan_cell(pos, 4, idx, sig[j] as int);
            assert(along(t, b, xs, ys, sig[j] as int) != 0);
        }
    }
}

// ---- the block ----

/// The sub-blocks from `i` down to the first.
pub open spec fn sub_blocks_code(
    t: spec_fn(int, int) -> int,
    b: Block,
    i: int,
    after_big: bool,
) -> Seq<Bin>
    decreases i + 1,
{
    if i < 0 {
        Seq::empty()
    } else {
        sub_block_code(t, b, i, after_big) + sub_blocks_code(
            t,
            b,
            i - 1,
            next_after_big(t, b, i, after_big),
        )
    }
}

proof fn lemma_sub_blocks_read_back<B: BinDecoder>(
    st: Progress<B::State>,
    t: spec_fn(int, int) -> int,
    b: Block,
    sb: Seq<(u8, u8)>,
    pos: Seq<(u8, u8)>,
    i: int,
    after_big: bool,
)
    requires
        describes(b, t),
        tables::is_scan(sb, b.nsb(), b.scan_idx as int),
        tables::is_scan(pos, 4, b.scan_idx as int),
        -1 <= i <= b.last_sb,
        i >= 0 ==> coded_after(st.coded, t, b, i),
        after_big <==> st.c1 == 0,
        filled_after(st.fill, t, b, i),
        bounded_after(st.fill, t, b, i),
        bounds_met(st.fill, t, b.n()),
        gives::<B>(st.s, sub_blocks_code(t, b, i, after_big)),
    ensures
        ({
            let (n, e) = residual::sub_blocks::<B>(b, i, st);
            &&& e is None
            &&& n.s == past::<B>(st.s, sub_blocks_code(t, b, i, after_big))
            &&& filled_after(n.fill, t, b, -1)
            &&& bounded_after(n.fill, t, b, -1)
            &&& bounds_met(n.fill, t, b.n())
        }),
    decreases i + 1,
{
    if i < 0 {
        binarization::lemma_nothing::<B>(st.s);
    } else {
        let next = next_after_big(t, b, i, after_big);
        binarization::lemma_joined::<B>(
            st.s,
            sub_block_code(t, b, i, after_big),
            sub_blocks_code(t, b, i - 1, next),
        );
        lemma_sub_block_reads_back::<B>(st, t, b, sb, pos, i, after_big);
        lemma_sub_block_filled(st.fill, t, b, sb, pos, i);
        let st1 = residual::sub_block::<B>(b, i, st).0;
        lemma_sub_blocks_read_back::<B>(st1, t, b, sb, pos, i - 1, next);
    }
}

/// The bins of a transform block with the coefficients `t`, the last of which in
/// scan order is the one at (`x`, `y`): whether the transform is skipped, that
/// position, with its coordinates exchanged for the vertical scan, and the
/// sub-blocks back from it.
pub open spec fn block_code(
    p: ResidualParams,
    b: Block,
    skip: bool,
    t: spec_fn(int, int) -> int,
    x: int,
    y: int,
) -> Seq<Bin> {
    let (log2, c_idx) = (b.log2 as int, b.c_idx as int);
    (if p.transform_skip_enabled && !p.cu_transquant_bypass && log2
        <= p.log2_max_transform_skip_block_size {
        seq![
            coded(
                if c_idx == 0 {
                    CTX_TRANSFORM_SKIP as int
                } else {
                    CTX_TRANSFORM_SKIP + 1
                },
                skip,
            ),
        ]
    } else {
        Seq::empty()
    }) + (if b.scan_idx == 2 {
        binarization::last_code(log2, c_idx, y, x)
    } else {
        binarization::last_code(log2, c_idx, x, y)
    }) + sub_blocks_code(t, b, b.last_sb as int, false)
}

/// A transform block as an encoder sees it: intra 4×4 blocks, and intra 8×8 ones
/// of luma, are scanned across the direction they are predicted from, by columns
/// near the horizontal directions and by rows near the vertical ones; every other
/// block along its diagonals. Signs are hidden where that is enabled and the
/// quantisation is not bypassed.
pub open spec fn block_of(
    p: ResidualParams,
    log2: int,
    c_idx: int,
    mode: int,
    x: int,
    y: int,
    b: Block,
) -> bool {
    let small = log2 == 2 || log2 == 3 && c_idx == 0;
    &&& 2 <= log2 <= 5
    &&& 0 <= c_idx <= 2
    &&& b.log2 == log2
    &&& b.c_idx == c_idx
    &&& b.scan_idx == if p.cu_intra && small && -4 <= mode - 10 <= 4 {
        2int
    } else if p.cu_intra && small && -4 <= mode - 26 <= 4 {
        1
    } else {
        0
    }
    &&& b.hiding == (p.sign_data_hiding_enabled && !p.cu_transquant_bypass)
    &&& 0 <= x < b.n()
    &&& 0 <= y < b.n()
    &&& b.last_sb == tables::scan_pos(b.nsb(), b.scan_idx as int, x / 4, y / 4)
    &&& b.last_pos == tables::scan_pos(4, b.scan_idx as int, x % 4, y % 4)
}

proof fn lemma_start<S>(t: spec_fn(int, int) -> int, b: Block, s: S)
    requires
        describes(b, t),
    ensures
        ({
            let st = residual::at_start(s, b.log2 as int);
            &&& coded_after(st.coded, t, b, b.last_sb as int)
            &&& filled_after(st.fill, t, b, b.last_sb as int)
            &&& bounded_after(st.fill, t, b, b.last_sb as int)
            &&& bounds_met(st.fill, t, b.n())
        }),
{
    let st = residual::at_start(s, b.log2 as int);
    let idx = b.scan_idx as int;
    let n = b.n();
    residual::lemma_block_size(b);
    assert(n * n >= 0) by (nonlinear_arith)
        requires
            n >= 0,
    ;
    assert forall|i: int, j: int|
        #![trigger t(i, j)]
        0 <= i < n && 0 <= j < n implies t(i, j) == 0 || tables::scan_pos(
        b.nsb(),
        idx,
        i / 4,
        j / 4,
    ) <= b.last_sb by {}
    assert forall|i: int, j: int|
        #![trigger holds(t, i, j)]
        0 <= i < b.nsb() && 0 <= j < b.nsb() && tables::scan_pos(b.nsb(), idx, i, j)
            > b.last_sb implies !holds(t, i, j) by {
        assert forall|xp: int, yp: int|
            #![trigger inside(t, i, j, xp, yp)]
            0 <= xp < 4 && 0 <= yp < 4 implies inside(t, i, j, xp, yp) == 0 by {
            let (u, v) = (4 * i + xp, 4 * j + yp);
            assert(u / 4 == i && v / 4 == j);
            assert(t(u, v) == inside(t, i, j, xp, yp));
        }
    }
    assert forall|i: int, j: int|
        #![trigger st.fill.coeffs[j * n + i]]
        0 <= i < n && 0 <= j < n implies st.fill.coeffs[j * n + i] == 0 by {
        arith::lemma_flat_bound(i, j, n, n);
    }
}

/// What comes before the sub-blocks.
proof fn lemma_block_head<B: BinDecoder>(
    s: B::State,
    p: ResidualParams,
    b: Block,
    mode: int,
    skip: bool,
    t: spec_fn(int, int) -> int,
    x: int,
    y: int,
) -> (s2: B::State)
    requires
        block_of(p, b.log2 as int, b.c_idx as int, mode, x, y, b),
        gives::<B>(s, block_code(p, b, skip, t, x, y)),
    ensures
        ({
            let rest = sub_blocks_code(t, b, b.last_sb as int, false);
            let q = residual::parsed_block::<B>(s, p, b.log2 as int, b.c_idx as int, mode);
            let (st, e) = residual::sub_blocks::<B>(
                b,
                b.last_sb as int,
                residual::at_start(s2, b.log2 as int),
            );
            &&& gives::<B>(s2, rest)
            &&& past::<B>(s2, rest) == past::<B>(s, block_code(p, b, skip, t, x, y))
            &&& e is None ==> q.error is None
            &&& q.s == st.s
            &&& q.fill == st.fill
            &&& q.transform_skip == (skip && p.skip_coded(b.log2 as int))
        }),
{
    let (log2, c_idx, idx) = (b.log2 as int, b.c_idx as int, b.scan_idx as int);
    residual::lemma_block_size(b);
    let bin = coded(
        if c_idx == 0 {
            CTX_TRANSFORM_SKIP as int
        } else {
            CTX_TRANSFORM_SKIP + 1
        },
        skip,
    );
    let head = if p.skip_coded(log2) {
        seq![bin]
    } else {
        Seq::empty()
    };
    let (cx, cy) = if idx == 2 {
        (y, x)
    } else {
        (x, y)
    };
    let last = binarization::last_code(log2, c_idx, cx, cy);
    let rest = sub_blocks_code(t, b, b.last_sb as int, false);
    assert(block_code(p, b, skip, t, x, y) == head + last + rest);
    binarization::lemma_joined::<B>(s, head + last, rest);
    binarization::lemma_joined::<B>(s, head, last);
    let s1 = past::<B>(s, head);
    let s2 = past::<B>(s1, last);
    binarization::lemma_nothing::<B>(s);
    if p.skip_coded(log2) {
        binarization::lemma_single::<B>(s, bin);
    }
    binarization::lemma_last_reads_back::<B>(s1, log2, c_idx, cx, cy);
    assert(residual::block_at(p, log2, c_idx, mode, cx, cy) == b);
    s2
}

/// A transform block reads back: from the bins that its coefficients are written
/// as, decoding gives the same coefficients, in the same places, and the smallest
/// rectangle that holds them. `sb` and `pos` are the scans of its sub-blocks and
/// of their cells.
pub proof fn lemma_block_reads_back<B: BinDecoder>(
    s: B::State,
    p: ResidualParams,
    b: Block,
    mode: int,
    sb: Seq<(u8, u8)>,
    pos: Seq<(u8, u8)>,
    skip: bool,
    t: spec_fn(int, int) -> int,
    x: int,
    y: int,
)
    requires
        block_of(p, b.log2 as int, b.c_idx as int, mode, x, y, b),
        describes(b, t),
        tables::is_scan(sb, b.nsb(), b.scan_idx as int),
        tables::is_scan(pos, 4, b.scan_idx as int),
        gives::<B>(s, block_code(p, b, skip, t, x, y)),
    ensures
        ({
            let n = b.n();
            let q = residual::parsed_block::<B>(s, p, b.log2 as int, b.c_idx as int, mode);
            &&& q.error is None
            &&& q.s == past::<B>(s, block_code(p, b, skip, t, x, y))
            &&& q.transform_skip == (skip && p.skip_coded(b.log2 as int))
            &&& q.fill.coeffs.len() == n * n
            &&& forall|i: int, j: int|
                #![trigger q.fill.coeffs[j * n + i]]
                #![trigger t(i, j)]
                0 <= i < n && 0 <= j < n ==> q.fill.coeffs[j * n + i] == t(i, j)
            &&& forall|i: int, j: int|
                #![trigger t(i, j)]
                0 <= i < n && 0 <= j < n && t(i, j) != 0 ==> i < q.fill.nz_w && j < q.fill.nz_h
            &&& bounds_met(q.fill, t, n)
        }),
{
    let n = b.n();
    let s2 = lemma_block_head::<B>(s, p, b, mode, skip, t, x, y);
    let st = residual::at_start(s2, b.log2 as int);
    lemma_start(t, b, s2);
    lemma_sub_blocks_read_back::<B>(st, t, b, sb, pos, b.last_sb as int, false);
    residual::lemma_block_size(b);
    let q = residual::parsed_block::<B>(s, p, b.log2 as int, b.c_idx as int, mode);
    assert forall|i: int, j: int|
        #![trigger t(i, j)]
        0 <= i < n && 0 <= j < n implies q.fill.coeffs[j * n + i] == t(i, j) && (t(i, j) != 0 ==> i
        < q.fill.nz_w && j < q.fill.nz_h) by {
        assert(0 <= i / 4 < b.nsb() && 0 <= j / 4 < b.nsb());
        assert(tables::scan_pos(b.nsb(), b.scan_idx as int, i / 4, j / 4) > -1);
    }
    assert forall|i: int, j: int|
        #![trigger q.fill.coeffs[j * n + i]]
        0 <= i < n && 0 <= j < n implies q.fill.coeffs[j * n + i] == t(i, j) by {
        let c = t(i, j);
    }
}

/// The diagonal scan goes up and to the right, from the left or lower end of a
/// diagonal to its other end, then on to the next.
pub proof fn lemma_diagonal_scan(size: int, x: int, y: int)
    requires
        1 <= size,
        0 <= x < size,
        0 <= y < size,
    ensures
        tables::scan_pos(size, 0, 0, 0) == 0,
        x + 1 < size && y > 0 ==> tables::scan_pos(size, 0, x + 1, y - 1) == tables::scan_pos(
            size,
            0,
            x,
            y,
        ) + 1,
        y == 0 && x + 1 < size ==> tables::scan_pos(size, 0, 0, x + 1) == tables::scan_pos(
            size,
            0,
            x,
            y,
        ) + 1,
        x == size - 1 && y + 1 < size ==> tables::scan_pos(size, 0, y + 1, size - 1)
            == tables::scan_pos(size, 0, x, y) + 1,
{
    reveal_with_fuel(tables::diag_start, 2);
}

/// The horizontal scan goes row by row, the vertical one column by column.
pub proof fn lemma_straight_scans(size: int, x: int, y: int)
    requires
        1 <= size,
        0 <= x < size,
        0 <= y < size,
    ensures
        tables::scan_pos(size, 1, 0, 0) == 0,
        x + 1 < size ==> tables::scan_pos(size, 1, x + 1, y) == tables::scan_pos(size, 1, x, y) + 1,
        y + 1 < size ==> tables::scan_pos(size, 1, 0, y + 1) == tables::scan_pos(
            size,
            1,
            size - 1,
            y,
        ) + 1,
        tables::scan_pos(size, 2, y, x) == tables::scan_pos(size, 1, x, y),
{
    assert((y + 1) * size == y * size + size) by (nonlinear_arith);
    assert(0 * size == 0);
}

} // verus!
