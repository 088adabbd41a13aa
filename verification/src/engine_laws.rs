//! Arithmetic decoding as the splitting of an interval (§9.3.4.3): what a bin
//! says of the number that the bits ahead make up, and what is left of it.

use crate::cabac;
use crate::cabac::{EngineState, RANGE_LPS, TRANS_LPS};
use vstd::arithmetic::power2::*;
use vstd::prelude::*;

verus! {

/// Bit `pos` of a byte string, counted from the top of its first byte; zeros
/// follow its end.
pub open spec fn bit_at(data: Seq<u8>, pos: int) -> int {
    if pos < 8 * data.len() {
        (data[pos / 8] as int / pow2((7 - pos % 8) as nat) as int) % 2
    } else {
        0
    }
}

/// The next `n` bits as a number.
pub open spec fn ahead(data: Seq<u8>, pos: int, n: nat) -> int
    decreases n,
{
    if n == 0 {
        0
    } else {
        2 * ahead(data, pos, (n - 1) as nat) + bit_at(data, pos + n - 1)
    }
}

/// How far into its interval the code lies, to `n` more bits: as a count of the
/// parts, 2^`n` of them to each unit of the range.
pub open spec fn code_value(s: EngineState, n: nat) -> int {
    s.offset * pow2(n) + ahead(s.data, s.pos, n)
}

proof fn lemma_bit(data: Seq<u8>, pos: int)
    requires
        pos >= 0,
    ensures
        cabac::data_bit(data, pos) == bit_at(data, pos),
        0 <= bit_at(data, pos) <= 1,
{
}

/// The first of the bits ahead counts for most.
proof fn lemma_first_bit(data: Seq<u8>, pos: int, n: nat)
    ensures
        ahead(data, pos, n + 1) == bit_at(data, pos) * pow2(n) + ahead(data, pos + 1, n),
    decreases n,
{
    lemma2_to64();
    if n == 0 {
        assert(ahead(data, pos, 0) == 0);
        assert(ahead(data, pos + 1, 0) == 0);
        assert(ahead(data, pos, 1) == 2 * ahead(data, pos, 0) + bit_at(data, pos));
        assert(bit_at(data, pos) * 1 == bit_at(data, pos));
    } else {
        let m = (n - 1) as nat;
        lemma_first_bit(data, pos, m);
        lemma_pow2_adds(m, 1);
        let b = bit_at(data, pos);
        assert(2 * (b * pow2(m)) == b * pow2(n)) by (nonlinear_arith)
            requires
                pow2(n) == pow2(m) * 2,
        ;
        assert(ahead(data, pos, n + 1) == 2 * ahead(data, pos, n) + bit_at(data, pos + n));
        assert(ahead(data, pos + 1, n) == 2 * ahead(data, pos + 1, m) + bit_at(data, pos + n));
    }
}

/// Past the end there are only zeros, wherever one looks.
proof fn lemma_past_end(data: Seq<u8>, pos: int, n: nat)
    requires
        pos >= 8 * data.len(),
    ensures
        ahead(data, pos, n) == 0,
    decreases n,
{
    if n > 0 {
        lemma_past_end(data, pos, (n - 1) as nat);
    }
}

/// Reading a bit into the offset.
proof fn lemma_step(s: EngineState, n: nat)
    requires
        s.pos >= 0,
    ensures
        (2 * s.offset + cabac::data_bit(s.data, s.pos)) * pow2(n) + ahead(
            s.data,
            cabac::bit_after(s.data, s.pos),
            n,
        ) == code_value(s, n + 1),
{
    lemma_bit(s.data, s.pos);
    lemma_first_bit(s.data, s.pos, n);
    lemma_pow2_adds(n, 1);
    lemma2_to64();
    let b = bit_at(s.data, s.pos);
    let o = s.offset;
    assert((2 * o + b) * pow2(n) == o * pow2(n + 1) + b * pow2(n)) by (nonlinear_arith)
        requires
            pow2(n + 1) == pow2(n) * 2,
    ;
    if s.pos >= 8 * s.data.len() {
        lemma_past_end(s.data, s.pos, n);
        lemma_past_end(s.data, s.pos + 1, n);
    }
}

/// Doubling the range until it is large enough again keeps the place of the code.
proof fn lemma_renormed(s: EngineState) -> (k: nat)
    requires
        s.pos >= 0,
        0 < s.range < 512,
    ensures
        ({
            let r = cabac::renormed(s);
            &&& r.range == s.range * pow2(k)
            &&& 256 <= r.range < 512
            &&& r.data == s.data
            &&& r.ctx == s.ctx
            &&& forall|n: nat| #![trigger code_value(r, n)] code_value(r, n) == code_value(s, n + k)
        }),
    decreases 512 - s.range,
{
    lemma2_to64();
    if s.range >= 256 {
        0
    } else {
        let t = EngineState {
            pos: cabac::bit_after(s.data, s.pos),
            range: 2 * s.range,
            offset: 2 * s.offset + cabac::data_bit(s.data, s.pos),
            ..s
        };
        let j = lemma_renormed(t);
        lemma_pow2_adds(1, j);
        assert((2 * s.range) * pow2(j) == s.range * pow2(j + 1)) by (nonlinear_arith)
            requires
                pow2(j + 1) == 2 * pow2(j),
        ;
        let r = cabac::renormed(s);
        assert(r == cabac::renormed(t));
        assert forall|n: nat| #![trigger code_value(r, n)] code_value(r, n) == code_value(
            s,
            n + (j + 1),
        ) by {
            lemma_step(s, n + j);
            assert(code_value(t, n + j) == code_value(s, n + j + 1));
        }
        j + 1
    }
}

/// The lower part of the interval belongs to the more probable value of a context,
/// the upper part, as long as the table says for the state and the size of the
/// range, to the other. The bin is the value whose part the code lies in; that part
/// is the interval from there on, doubled until it is large enough.
pub proof fn lemma_bin_splits_interval(s: EngineState, ctx: int, n: nat) -> (k: nat)
    requires
        s.pos >= 0,
        256 <= s.range < 512,
        0 <= s.offset < s.range,
        0 <= ctx < s.ctx.len(),
        s.ctx[ctx].p_state < 64,
    ensures
        ({
            let c = s.ctx[ctx];
            let upper = RANGE_LPS@[c.p_state as int]@[(s.range - 256) / 64] as int;
            let lower = s.range - upper;
            let (t, bin) = cabac::engine_ctx_bin(s, ctx);
            let likely = s.offset < lower;
            &&& bin == (if likely {
                c.val_mps
            } else {
                !c.val_mps
            })
            &&& t.range == (if likely {
                lower
            } else {
                upper
            }) * pow2(k)
            &&& 256 <= t.range < 512
            &&& code_value(t, n) == code_value(s, n + k) - (if likely {
                0
            } else {
                lower * pow2(n + k)
            })
            &&& t.data == s.data
        }),
{
    let c = s.ctx[ctx];
    reveal(cabac::range_lps);
    let q = (s.range / 64) % 4;
    assert(q == (s.range - 256) / 64);
    let lps = cabac::range_lps(c.p_state as int, q);
    lemma_table(c.p_state as int, q);
    let mps = s.range - lps;
    let (t, bin) = cabac::engine_ctx_bin(s, ctx);
    if s.offset >= mps {
        let next = cabac::Context {
            p_state: cabac::trans_lps(c.p_state as int),
            val_mps: if c.p_state == 0 {
                !c.val_mps
            } else {
                c.val_mps
            },
        };
        let v = EngineState {
            range: lps,
            offset: s.offset - mps,
            ctx: s.ctx.update(ctx, next),
            ..s
        };
        let k = lemma_renormed(v);
        assert(t == cabac::renormed(v));
        assert(code_value(t, n) == code_value(v, n + k));
        assert((s.offset - mps) * pow2(n + k) == s.offset * pow2(n + k) - mps * pow2(n + k))
            by (nonlinear_arith);
        k
    } else {
        let next = cabac::Context {
            p_state: if c.p_state < 62 {
                (c.p_state + 1) as u8
            } else {
                c.p_state
            },
            val_mps: c.val_mps,
        };
        let v = EngineState { range: mps, ctx: s.ctx.update(ctx, next), ..s };
        let k = lemma_renormed(v);
        assert(t == cabac::renormed(v));
        assert(code_value(t, n) == code_value(v, n + k));
        k
    }
}

/// The table's parts leave something of every range.
proof fn lemma_table(p: int, q: int)
    requires
        0 <= p < 64,
        0 <= q < 4,
    ensures
        2 <= RANGE_LPS@[p]@[q] <= 240,
{
}

/// A context becomes surer of its value each time that it comes, up to a limit, and
/// less sure when the other one comes; when it is not sure at all, it changes its
/// mind. Other contexts stay as they are.
pub proof fn lemma_context_learns(s: EngineState, ctx: int, other: int)
    requires
        s.pos >= 0,
        256 <= s.range < 512,
        0 <= s.offset < s.range,
        0 <= ctx < s.ctx.len(),
        s.ctx[ctx].p_state < 63,
        0 <= other < s.ctx.len(),
        other != ctx,
    ensures
        ({
            let c = s.ctx[ctx];
            let (t, bin) = cabac::engine_ctx_bin(s, ctx);
            let d = t.ctx[ctx];
            &&& t.ctx.len() == s.ctx.len()
            &&& t.ctx[other] == s.ctx[other]
            &&& bin == c.val_mps && c.p_state < 62 ==> d.p_state == c.p_state + 1 && d.val_mps
                == c.val_mps
            &&& bin == c.val_mps && c.p_state == 62 ==> d == c
            &&& bin != c.val_mps ==> d.p_state == TRANS_LPS@[c.p_state as int]
            &&& bin != c.val_mps && c.p_state > 0 ==> d.p_state < c.p_state && d.val_mps
                == c.val_mps
            &&& bin != c.val_mps && c.p_state == 0 ==> d.p_state == 0 && d.val_mps == bin
        }),
{
    reveal(cabac::range_lps);
    reveal(cabac::trans_lps);
    let c = s.ctx[ctx];
    let q = (s.range / 64) % 4;
    lemma_table(c.p_state as int, q);
    let lps = cabac::range_lps(c.p_state as int, q);
    let mps = s.range - lps;
    lemma_trans(c.p_state as int);
    if s.offset >= mps {
        let next = cabac::Context {
            p_state: cabac::trans_lps(c.p_state as int),
            val_mps: if c.p_state == 0 {
                !c.val_mps
            } else {
                c.val_mps
            },
        };
        let _ = lemma_renormed(
            EngineState {
                range: lps,
                offset: s.offset - mps,
                ctx: s.ctx.update(ctx, next),
                ..s
            },
        );
    } else {
        let next = cabac::Context {
            p_state: if c.p_state < 62 {
                (c.p_state + 1) as u8
            } else {
                c.p_state
            },
            val_mps: c.val_mps,
        };
        let _ = lemma_renormed(EngineState { range: mps, ctx: s.ctx.update(ctx, next), ..s });
    }
}

proof fn lemma_trans(p: int)
    requires
        0 <= p < 63,
    ensures
        p > 0 ==> TRANS_LPS@[p] < p,
        p == 0 ==> TRANS_LPS@[p] == 0,
{
}

/// A bypass bin splits the interval in halves, the upper for 1: reading one more
/// bit doubles the offset, and the range stays.
pub proof fn lemma_raw_bin_halves_interval(s: EngineState, n: nat)
    requires
        s.pos >= 0,
        0 <= s.offset < s.range,
    ensures
        ({
            let (t, bin) = cabac::engine_raw_bin(s);
            &&& bin <==> 2 * s.offset + bit_at(s.data, s.pos) >= s.range
            &&& t.range == s.range
            &&& 0 <= t.offset < t.range
            &&& code_value(t, n) == code_value(s, n + 1) - (if bin {
                s.range * pow2(n)
            } else {
                0
            })
            &&& t.ctx == s.ctx
            &&& t.data == s.data
        }),
{
    lemma_step(s, n);
    lemma_bit(s.data, s.pos);
    let o = 2 * s.offset + cabac::data_bit(s.data, s.pos);
    assert((o - s.range) * pow2(n) == o * pow2(n) - s.range * pow2(n)) by (nonlinear_arith);
}

/// A decoder starts with the first bits of its data, as they stand.
pub proof fn lemma_first_bits(data: Seq<u8>, n: nat)
    ensures
        cabac::Cabac::first_bits(data, n) == ahead(data, 0, n),
    decreases n,
{
    if n > 0 {
        lemma_first_bits(data, (n - 1) as nat);
        lemma_bit(data, n - 1);
    }
}

} // verus!
