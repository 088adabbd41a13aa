//! What an encoder writes: the bins of syntax elements (§9.3.3), and that
//! decoding gives back what was written.
//!
//! A source of bins is described by what it gives to the requests that an
//! encoder expects. The codes here are written down from the values; nothing of
//! the decoding side is used for them.

use crate::arith;
use crate::cabac;
use crate::cabac::{
    BinDecoder, CodeError, CTX_CU_QP_DELTA, CTX_LAST_X_PREFIX, CTX_LAST_Y_PREFIX,
};
use crate::ctu;
use crate::residual;
use vstd::arithmetic::div_mod::*;
use vstd::arithmetic::power2::*;
use vstd::prelude::*;

verus! {

/// One bin as it is written: with a context variable, or in bypass mode.
pub struct Bin {
    pub ctx: Option<int>,
    pub bit: bool,
}

pub open spec fn raw(bit: bool) -> Bin {
    Bin { ctx: None, bit }
}

pub open spec fn coded(ctx: int, bit: bool) -> Bin {
    Bin { ctx: Some(ctx), bit }
}

/// What a source gives when it is asked as a bin was written.
pub open spec fn answer<B: BinDecoder>(s: B::State, b: Bin) -> (B::State, bool) {
    match b.ctx {
        Some(c) => B::ctx_bin(s, c),
        None => B::raw_bin(s),
    }
}

/// The source gives these bins.
pub open spec fn gives<B: BinDecoder>(s: B::State, bins: Seq<Bin>) -> bool
    decreases bins.len(),
{
    bins.len() == 0 || answer::<B>(s, bins[0]).1 == bins[0].bit && gives::<B>(
        answer::<B>(s, bins[0]).0,
        bins.drop_first(),
    )
}

/// The source after these bins.
pub open spec fn past<B: BinDecoder>(s: B::State, bins: Seq<Bin>) -> B::State
    decreases bins.len(),
{
    if bins.len() == 0 {
        s
    } else {
        past::<B>(answer::<B>(s, bins[0]).0, bins.drop_first())
    }
}

/// Bins that follow one another.
pub proof fn lemma_joined<B: BinDecoder>(s: B::State, a: Seq<Bin>, b: Seq<Bin>)
    ensures
        gives::<B>(s, a + b) <==> gives::<B>(s, a) && gives::<B>(past::<B>(s, a), b),
        past::<B>(s, a + b) == past::<B>(past::<B>(s, a), b),
    decreases a.len(),
{
    if a.len() == 0 {
        assert(a + b =~= b);
    } else {
        assert((a + b).drop_first() =~= a.drop_first() + b);
        lemma_joined::<B>(answer::<B>(s, a[0]).0, a.drop_first(), b);
    }
}

/// A single bin.
pub proof fn lemma_single<B: BinDecoder>(s: B::State, b: Bin)
    ensures
        gives::<B>(s, seq![b]) <==> answer::<B>(s, b).1 == b.bit,
        past::<B>(s, seq![b]) == answer::<B>(s, b).0,
{
    let q = seq![b];
    assert(q.drop_first() =~= Seq::empty());
    reveal_with_fuel(gives, 2);
    reveal_with_fuel(past, 2);
}

/// No bins.
pub proof fn lemma_nothing<B: BinDecoder>(s: B::State)
    ensures
        gives::<B>(s, Seq::empty()),
        past::<B>(s, Seq::empty()) == s,
{
}

// ---- numbers ----

/// A number in `n` bypass bins, most significant first (§9.3.3.6).
pub open spec fn fixed(v: int, n: nat) -> Seq<Bin>
    decreases n,
{
    if n == 0 {
        Seq::empty()
    } else {
        fixed(v / 2, (n - 1) as nat).push(raw(v % 2 == 1))
    }
}

/// A number in unary: that many ones and a zero, in bypass mode.
pub open spec fn unary(p: nat) -> Seq<Bin>
    decreases p,
{
    if p == 0 {
        seq![raw(false)]
    } else {
        seq![raw(true)] + unary((p - 1) as nat)
    }
}

/// k-th order Exp-Golomb (§9.3.3.5): a one for each power of two that is taken
/// off, then what is left.
pub open spec fn exp_golomb_code(v: nat, k: nat) -> Seq<Bin>
    decreases v, 
{
    if v < pow2(k) || pow2(k) == 0 {
        seq![raw(false)] + fixed(v as int, k)
    } else {
        seq![raw(true)] + exp_golomb_code((v - pow2(k)) as nat, k + 1)
    }
}

/// A number reads back.
pub proof fn lemma_fixed_reads_back<B: BinDecoder>(s: B::State, v: int, n: nat)
    requires
        0 <= v < pow2(n),
        gives::<B>(s, fixed(v, n)),
    ensures
        cabac::raw_bits::<B>(s, n) == (past::<B>(s, fixed(v, n)), v),
    decreases n,
{
    lemma2_to64();
    if n > 0 {
        lemma_pow2_adds((n - 1) as nat, 1);
        let high = fixed(v / 2, (n - 1) as nat);
        let low = raw(v % 2 == 1);
        assert(fixed(v, n) =~= high + seq![low]);
        lemma_joined::<B>(s, high, seq![low]);
        lemma_single::<B>(past::<B>(s, high), low);
        lemma_fixed_reads_back::<B>(s, v / 2, (n - 1) as nat);
    }
}

/// A count reads back.
pub proof fn lemma_unary_reads_back<B: BinDecoder>(s: B::State, p: nat, k: int, max: int)
    requires
        k + p < max,
        gives::<B>(s, unary(p)),
    ensures
        cabac::raw_ones::<B>(s, k, max) == (past::<B>(s, unary(p)), k + p),
    decreases p,
{
    if p == 0 {
        lemma_single::<B>(s, raw(false));
    } else {
        let one = seq![raw(true)];
        lemma_joined::<B>(s, one, unary((p - 1) as nat));
        lemma_single::<B>(s, raw(true));
        lemma_unary_reads_back::<B>(past::<B>(s, one), (p - 1) as nat, k + 1, max);
    }
}

/// An Exp-Golomb code is a count of ones and a number of that many more bits.
proof fn lemma_exp_golomb_shape(v: nat, k: nat) -> (r: (nat, nat))
    ensures
        ({
            let (j, rem) = r;
            &&& rem < pow2(k + j)
            &&& v == pow2(k + j) - pow2(k) + rem
            &&& exp_golomb_code(v, k) == unary(j) + fixed(rem as int, k + j)
        }),
    decreases v,
{
    lemma_pow2_pos(k);
    if v < pow2(k) {
        assert(exp_golomb_code(v, k) == unary(0) + fixed(v as int, k));
        (0nat, v)
    } else {
        lemma_pow2_adds(k, 1);
        lemma2_to64();
        let (j, rem) = lemma_exp_golomb_shape((v - pow2(k)) as nat, k + 1);
        assert(k + 1 + j == k + (j + 1));
        assert(unary(j + 1) =~= seq![raw(true)] + unary(j));
        assert(exp_golomb_code(v, k) =~= unary(j + 1) + fixed(rem as int, k + (j + 1)));
        (j + 1, rem)
    }
}

/// An Exp-Golomb code reads back.
pub proof fn lemma_exp_golomb_reads_back<B: BinDecoder>(s: B::State, v: nat, k: nat)
    requires
        v + pow2(k) < pow2(30),
        gives::<B>(s, exp_golomb_code(v, k)),
    ensures
        cabac::exp_golomb::<B>(s, k) == (past::<B>(s, exp_golomb_code(v, k)), Some(v as int)),
{
    let (j, rem) = lemma_exp_golomb_shape(v, k);
    assert(k + j < 30) by {
        if k + j >= 30 {
            arith::lemma_pow2_le(30, k + j);
        }
    }
    lemma_joined::<B>(s, unary(j), fixed(rem as int, k + j));
    lemma_unary_reads_back::<B>(s, j, 0, 30 - k);
    lemma_fixed_reads_back::<B>(past::<B>(s, unary(j)), rem as int, k + j);
}

// ---- coeff_abs_level_remaining (§9.3.3.11) ----

/// The code of a remainder with a Rice parameter: up to four times the unit, the
/// units in unary and the rest in bits; above it four ones and an Exp-Golomb
/// code of what exceeds it.
pub open spec fn remainder_code(v: nat, rice: nat) -> Seq<Bin> {
    let unit = pow2(rice);
    if v < 4 * unit {
        unary(v / unit) + fixed((v % unit) as int, rice)
    } else {
        seq![raw(true), raw(true), raw(true), raw(true)] + exp_golomb_code(
            (v - 4 * unit) as nat,
            rice + 1,
        )
    }
}

/// Four ones before a count add to it.
proof fn lemma_unary_four(j: nat)
    ensures
        seq![raw(true), raw(true), raw(true), raw(true)] + unary(j) == unary(j + 4),
{
    assert(unary(j + 1) =~= seq![raw(true)] + unary(j));
    assert(unary(j + 2) =~= seq![raw(true)] + unary(j + 1));
    assert(unary(j + 3) =~= seq![raw(true)] + unary(j + 2));
    assert(unary(j + 4) =~= seq![raw(true)] + unary(j + 3));
    assert(seq![raw(true), raw(true), raw(true), raw(true)] + unary(j) =~= unary(j + 4));
}

/// Decoding inverts the binarization of `coeff_abs_level_remaining`: the code of
/// a value, with any Rice parameter, reads back as the value.
pub proof fn lemma_remainder_reads_back<B: BinDecoder>(s: B::State, v: nat, rice: nat)
    requires
        rice <= 4,
        v < 0x1000_0000,
        gives::<B>(s, remainder_code(v, rice)),
    ensures
        residual::remaining::<B>(s, rice) == (
            past::<B>(s, remainder_code(v, rice)),
            Ok::<int, CodeError>(v as int),
        ),
{
    let unit = pow2(rice);
    lemma_pow2_pos(rice);
    arith::lemma_pow2_le(rice, 4);
    lemma2_to64();
    if v < 4 * unit {
        let p = v / unit;
        let low = (v % unit) as int;
        lemma_fundamental_div_mod(v as int, unit as int);
        assert(p < 4 && p * unit + low == v && 0 <= low < unit) by (nonlinear_arith)
            requires
                v == unit * (v / unit) + v % unit,
                0 <= v % unit < unit,
                p == v / unit,
                low == v % unit,
                v < 4 * unit,
                unit > 0,
        ;
        lemma_joined::<B>(s, unary(p), fixed(low, rice));
        lemma_unary_reads_back::<B>(s, p, 0, 32);
        lemma_fixed_reads_back::<B>(past::<B>(s, unary(p)), low, rice);
        if p == 3 {
            assert((1 + 2) * unit + low == v) by (nonlinear_arith)
                requires
                    3 * unit + low == v,
            ;
            assert(0nat + rice == rice);
        }
    } else {
        let four = seq![raw(true), raw(true), raw(true), raw(true)];
        let (j, rem) = lemma_exp_golomb_shape((v - 4 * unit) as nat, rice + 1);
        let tail = fixed(rem as int, rice + 1 + j);
        lemma_unary_four(j);
        assert(remainder_code(v, rice) =~= unary(j + 4) + tail);
        lemma_pow2_adds(rice, 1);
        assert(rice + 1 + j < 28) by {
            if rice + 1 + j >= 28 {
                arith::lemma_pow2_le(28, rice + 1 + j);
            }
        }
        lemma_joined::<B>(s, unary(j + 4), tail);
        lemma_unary_reads_back::<B>(s, j + 4, 0, 32);
        lemma_fixed_reads_back::<B>(past::<B>(s, unary(j + 4)), rem as int, rice + 1 + j);
        assert((j + 4 - 3) as nat + rice == rice + 1 + j);
        lemma_pow2_adds((j + 1) as nat, rice);
        assert((pow2((j + 1) as nat) + 2) * unit == pow2((j + 1) as nat) * unit + 2 * unit)
            by (nonlinear_arith);
        assert(j + 1 + rice == rice + 1 + j);
    }
}

// ---- last_sig_coeff_x/y (§7.3.8.11, §9.3.3, §9.3.4.2.3) ----

/// The group of a coordinate: each pair of groups from the fourth on is twice as
/// wide as the pair before it.
pub open spec fn group_of(v: int) -> int {
    if v < 4 {
        v
    } else if v < 6 {
        4
    } else if v < 8 {
        5
    } else if v < 12 {
        6
    } else if v < 16 {
        7
    } else if v < 24 {
        8
    } else {
        9
    }
}

/// The first coordinate of a group.
pub open spec fn group_start(g: int) -> int {
    if g < 4 {
        g
    } else if g == 4 {
        4
    } else if g == 5 {
        6
    } else if g == 6 {
        8
    } else if g == 7 {
        12
    } else if g == 8 {
        16
    } else {
        24
    }
}

/// The bits that tell the coordinates of a group apart.
pub open spec fn group_bits(g: int) -> nat {
    if g < 4 {
        0
    } else if g < 6 {
        1
    } else if g < 8 {
        2
    } else {
        3
    }
}

/// The context of bin `k` of a prefix: each size of luma block has its own
/// contexts, one for each bin of a 4×4 block and one for two bins of a larger
/// one; chroma blocks share theirs, stretched to the block's size.
pub open spec fn group_ctx(log2: int, c_idx: int, k: int) -> int {
    if c_idx == 0 {
        if log2 == 2 {
            k
        } else if log2 == 3 {
            3 + k / 2
        } else if log2 == 4 {
            6 + k / 2
        } else {
            10 + k / 2
        }
    } else {
        15 + (if log2 == 2 {
            k
        } else if log2 == 3 {
            k / 2
        } else if log2 == 4 {
            k / 4
        } else {
            k / 8
        })
    }
}

/// The group in truncated unary, from bin `k` on: the last group of a block
/// size needs no zero.
pub open spec fn group_code(g: int, base: int, log2: int, c_idx: int, k: int) -> Seq<Bin>
    decreases 2 * log2 - 1 - k,
{
    if k >= 2 * log2 - 1 {
        Seq::empty()
    } else if k < g {
        seq![coded(base + group_ctx(log2, c_idx, k), true)] + group_code(
            g,
            base,
            log2,
            c_idx,
            k + 1,
        )
    } else {
        seq![coded(base + group_ctx(log2, c_idx, k), false)]
    }
}

/// The last significant position as it is written: both groups, then the places
/// in them.
pub open spec fn last_code(log2: int, c_idx: int, x: int, y: int) -> Seq<Bin> {
    let (gx, gy) = (group_of(x), group_of(y));
    group_code(gx, CTX_LAST_X_PREFIX as int, log2, c_idx, 0) + group_code(
        gy,
        CTX_LAST_Y_PREFIX as int,
        log2,
        c_idx,
        0,
    ) + fixed(x - group_start(gx), group_bits(gx)) + fixed(y - group_start(gy), group_bits(gy))
}

proof fn lemma_group_ctx(log2: int, c_idx: int, k: int)
    requires
        2 <= log2 <= 5,
        0 <= k,
    ensures
        residual::last_ctx(log2, c_idx, k) == group_ctx(log2, c_idx, k),
{
    lemma2_to64();
    let d = pow2((if c_idx == 0 {
        (log2 + 1) / 4
    } else {
        log2 - 2
    }) as nat) as int;
    assert(d == if log2 == 2 {
        1int
    } else if c_idx == 0 || log2 == 3 {
        2
    } else if log2 == 4 {
        4
    } else {
        8
    });
    assert(k / d == if d == 1 {
        k
    } else if d == 2 {
        k / 2
    } else if d == 4 {
        k / 4
    } else {
        k / 8
    });
}

proof fn lemma_group_reads_back<B: BinDecoder>(
    s: B::State,
    g: int,
    base: int,
    log2: int,
    c_idx: int,
    k: int,
)
    requires
        2 <= log2 <= 5,
        0 <= k <= g <= 2 * log2 - 1,
        gives::<B>(s, group_code(g, base, log2, c_idx, k)),
    ensures
        residual::last_prefix::<B>(s, base, log2, c_idx, k) == (
            past::<B>(s, group_code(g, base, log2, c_idx, k)),
            g,
        ),
    decreases 2 * log2 - 1 - k,
{
    lemma2_to64();
    if k < 2 * log2 - 1 {
        lemma_group_ctx(log2, c_idx, k);
        let b = coded(base + group_ctx(log2, c_idx, k), k < g);
        lemma_single::<B>(s, b);
        if k < g {
            let rest = group_code(g, base, log2, c_idx, k + 1);
            lemma_joined::<B>(s, seq![b], rest);
            lemma_group_reads_back::<B>(past::<B>(s, seq![b]), g, base, log2, c_idx, k + 1);
        }
    }
}

proof fn lemma_place_reads_back<B: BinDecoder>(s: B::State, v: int)
    requires
        0 <= v < 32,
        gives::<B>(s, fixed(v - group_start(group_of(v)), group_bits(group_of(v)))),
    ensures
        residual::last_coord::<B>(s, group_of(v)) == (
            past::<B>(s, fixed(v - group_start(group_of(v)), group_bits(group_of(v)))),
            v,
        ),
{
    lemma2_to64();
    let g = group_of(v);
    if g > 3 {
        lemma_fixed_reads_back::<B>(s, v - group_start(g), group_bits(g));
        assert((g / 2 - 1) as nat == group_bits(g));
        assert((2 + g % 2) * pow2(group_bits(g)) == group_start(g)) by {
            if g == 4 {
            } else if g == 5 {
            } else if g == 6 {
            } else if g == 7 {
            } else if g == 8 {
            } else {
                assert(g == 9);
            }
        }
    } else {
        lemma_nothing::<B>(s);
        assert(fixed(v - group_start(g), 0) =~= Seq::empty());
    }
}

/// The last significant position reads back, wherever in the block it is.
pub proof fn lemma_last_reads_back<B: BinDecoder>(
    s: B::State,
    log2: int,
    c_idx: int,
    x: int,
    y: int,
)
    requires
        2 <= log2 <= 5,
        0 <= x < pow2(log2 as nat),
        0 <= y < pow2(log2 as nat),
        gives::<B>(s, last_code(log2, c_idx, x, y)),
    ensures
        residual::last_position::<B>(s, log2, c_idx) == (
            past::<B>(s, last_code(log2, c_idx, x, y)),
            x,
            y,
        ),
{
    lemma2_to64();
    let (gx, gy) = (group_of(x), group_of(y));
    assert(gx <= 2 * log2 - 1 && gy <= 2 * log2 - 1) by {
        if log2 == 2 {
        } else if log2 == 3 {
        } else if log2 == 4 {
        } else {
            assert(log2 == 5);
        }
    }
    let a = group_code(gx, CTX_LAST_X_PREFIX as int, log2, c_idx, 0);
    let b = group_code(gy, CTX_LAST_Y_PREFIX as int, log2, c_idx, 0);
    let c = fixed(x - group_start(gx), group_bits(gx));
    let d = fixed(y - group_start(gy), group_bits(gy));
    lemma_joined::<B>(s, a + b + c, d);
    lemma_joined::<B>(s, a + b, c);
    lemma_joined::<B>(s, a, b);
    lemma_group_reads_back::<B>(s, gx, CTX_LAST_X_PREFIX as int, log2, c_idx, 0);
    let s1 = past::<B>(s, a);
    lemma_group_reads_back::<B>(s1, gy, CTX_LAST_Y_PREFIX as int, log2, c_idx, 0);
    let s2 = past::<B>(s1, b);
    lemma_place_reads_back::<B>(s2, x);
    lemma_place_reads_back::<B>(past::<B>(s2, c), y);
}

// ---- cu_qp_delta_abs and its sign (§9.3.3.10) ----

/// The first five of `cu_qp_delta_abs` in truncated unary, from bin `k` on: the
/// first bin has a context of its own.
pub open spec fn delta_prefix_code(v: int, k: int) -> Seq<Bin>
    decreases 5 - k,
{
    let ctx = if k == 0 {
        CTX_CU_QP_DELTA as int
    } else {
        CTX_CU_QP_DELTA + 1
    };
    if k >= 5 {
        Seq::empty()
    } else if k < v {
        seq![coded(ctx, true)] + delta_prefix_code(v, k + 1)
    } else {
        seq![coded(ctx, false)]
    }
}

/// `CuQpDeltaVal` as it is written: up to five in unary, the rest in Exp-Golomb,
/// and a sign where it is not zero.
pub open spec fn delta_code(d: int) -> Seq<Bin> {
    let v = if d < 0 {
        -d
    } else {
        d
    };
    let tail = if v >= 5 {
        exp_golomb_code((v - 5) as nat, 0)
    } else {
        Seq::empty()
    };
    let sign = if d == 0 {
        Seq::empty()
    } else {
        seq![raw(d < 0)]
    };
    delta_prefix_code(v, 0) + tail + sign
}

proof fn lemma_delta_prefix_reads_back<B: BinDecoder>(s: B::State, v: int, k: int)
    requires
        0 <= k <= v,
        k <= 5,
        gives::<B>(s, delta_prefix_code(v, k)),
    ensures
        ctu::delta_prefix::<B>(s, k) == (
            past::<B>(s, delta_prefix_code(v, k)),
            if v < 5 {
                v
            } else {
                5
            },
        ),
    decreases 5 - k,
{
    if k < 5 {
        let ctx = if k == 0 {
            CTX_CU_QP_DELTA as int
        } else {
            CTX_CU_QP_DELTA + 1
        };
        let b = coded(ctx, k < v);
        lemma_single::<B>(s, b);
        if k < v {
            let rest = delta_prefix_code(v, k + 1);
            lemma_joined::<B>(s, seq![b], rest);
            lemma_delta_prefix_reads_back::<B>(past::<B>(s, seq![b]), v, k + 1);
        }
    }
}

/// The change of the quantization parameter reads back with its sign.
pub proof fn lemma_delta_reads_back<B: BinDecoder>(s: B::State, d: int)
    requires
        -0x1000_0000 < d < 0x1000_0000,
        gives::<B>(s, delta_code(d)),
    ensures
        ctu::delta_value::<B>(s) == (past::<B>(s, delta_code(d)), Some(d)),
{
    lemma2_to64();
    let v = if d < 0 {
        -d
    } else {
        d
    };
    let head = delta_prefix_code(v, 0);
    let tail = if v >= 5 {
        exp_golomb_code((v - 5) as nat, 0)
    } else {
        Seq::empty()
    };
    let sign = if d == 0 {
        Seq::empty()
    } else {
        seq![raw(d < 0)]
    };
    lemma_joined::<B>(s, head + tail, sign);
    lemma_joined::<B>(s, head, tail);
    lemma_delta_prefix_reads_back::<B>(s, v, 0);
    let s1 = past::<B>(s, head);
    lemma_nothing::<B>(s1);
    if v >= 5 {
        assert(pow2(30) == 0x4000_0000);
        lemma_exp_golomb_reads_back::<B>(s1, (v - 5) as nat, 0);
    }
    let s2 = past::<B>(s1, tail);
    lemma_nothing::<B>(s2);
    lemma_single::<B>(s2, raw(d < 0));
}

} // verus!
