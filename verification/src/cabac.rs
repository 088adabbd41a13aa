//! CABAC decoding (§9.3): the arithmetic decoding engine, and the fixed-length
//! and Exp-Golomb binarizations that are read through it.

use crate::arith;
use crate::error::Error;
use vstd::arithmetic::power2::*;
use vstd::prelude::*;

verus! {

// ---- context variables, by syntax element ----

/// `split_transform_flag`, by 5 − log2TrafoSize.
pub const CTX_SPLIT_TRANSFORM: usize = 0;

/// `cbf_luma`, by whether the block is the root of its tree.
pub const CTX_CBF_LUMA: usize = 3;

/// `cbf_cb` and `cbf_cr`, by trafoDepth.
pub const CTX_CBF_CHROMA: usize = 5;

/// `cu_qp_delta_abs`: the first bin, then the others.
pub const CTX_CU_QP_DELTA: usize = 9;

/// `transform_skip_flag`: luma, then chroma.
pub const CTX_TRANSFORM_SKIP: usize = 11;

pub const CTX_LAST_X_PREFIX: usize = 13;

pub const CTX_LAST_Y_PREFIX: usize = 31;

/// `coded_sub_block_flag`: two for luma, two for chroma.
pub const CTX_CSBF: usize = 49;

/// `sig_coeff_flag`: 27 for luma, 15 for chroma.
pub const CTX_SIG: usize = 53;

/// `coeff_abs_level_greater1_flag`: 16 for luma, 8 for chroma.
pub const CTX_GT1: usize = 95;

/// `coeff_abs_level_greater2_flag`: 4 for luma, 2 for chroma.
pub const CTX_GT2: usize = 119;

/// The number of context variables.
pub const N_CTX: usize = 125;

/// A source of decoded bins. `State` is what a bin depends on: two sources in
/// the same state give the same bins for the same sequence of requests.
pub trait BinDecoder: Sized {
    type State;

    /// The source can be asked for bins.
    spec fn ready(&self) -> bool;

    spec fn state(&self) -> Self::State;

    /// The bin decoded with context variable `ctx`, and the state after it.
    spec fn ctx_bin(s: Self::State, ctx: int) -> (Self::State, bool);

    /// The bin decoded in bypass mode, and the state after it.
    spec fn raw_bin(s: Self::State) -> (Self::State, bool);

    /// Decodes one bin with a context variable.
    fn decode(&mut self, ctx: usize) -> (b: bool)
        requires
            old(self).ready(),
            ctx < N_CTX,
        ensures
            final(self).ready(),
            Self::ctx_bin(old(self).state(), ctx as int) == (final(self).state(), b),
    ;

    /// Decodes one bin in bypass mode.
    fn bypass(&mut self) -> (b: bool)
        requires
            old(self).ready(),
        ensures
            final(self).ready(),
            Self::raw_bin(old(self).state()) == (final(self).state(), b),
    ;
}

// ---- binarizations ----

/// `n` bypass bins read as a number, most significant first.
pub open spec fn raw_bits<B: BinDecoder>(s: B::State, n: nat) -> (B::State, int)
    decreases n,
{
    if n == 0 {
        (s, 0)
    } else {
        let (s1, v) = raw_bits::<B>(s, (n - 1) as nat);
        let (s2, b) = B::raw_bin(s1);
        (s2, 2 * v + (if b {
            1int
        } else {
            0
        }))
    }
}

/// The bypass bins that are 1 before the first 0, counted on from `k`; at
/// `max` the reading stops without a terminating 0.
pub open spec fn raw_ones<B: BinDecoder>(s: B::State, k: int, max: int) -> (B::State, int)
    decreases max - k,
{
    if k >= max {
        (s, k)
    } else {
        let (s1, b) = B::raw_bin(s);
        if b {
            raw_ones::<B>(s1, k + 1, max)
        } else {
            (s1, k)
        }
    }
}

/// The bits read are a number of that many bits.
pub proof fn lemma_raw_bits_bound<B: BinDecoder>(s: B::State, n: nat)
    ensures
        0 <= raw_bits::<B>(s, n).1 < pow2(n),
    decreases n,
{
    lemma2_to64();
    if n > 0 {
        lemma_raw_bits_bound::<B>(s, (n - 1) as nat);
        lemma_pow2_adds((n - 1) as nat, 1);
    }
}

/// Reads `n` bypass bins, most significant first.
pub fn bypass_bits<B: BinDecoder>(cab: &mut B, n: u32) -> (v: u32)
    requires
        old(cab).ready(),
        n <= 32,
    ensures
        final(cab).ready(),
        raw_bits::<B>(old(cab).state(), n as nat) == (final(cab).state(), v as int),
        v < pow2(n as nat),
{
    let mut v: u32 = 0;
    let mut i: u32 = 0;
    while i < n
        invariant
            i <= n <= 32,
            cab.ready(),
            raw_bits::<B>(old(cab).state(), i as nat) == (cab.state(), v as int),
        decreases n - i,
    {
        proof {
            lemma_raw_bits_bound::<B>(old(cab).state(), (i + 1) as nat);
            arith::lemma_pow2_le((i + 1) as nat, 32);
            lemma2_to64();
        }
        let b = cab.bypass();
        v = 2 * v + (if b {
            1
        } else {
            0
        });
        i += 1;
    }
    proof {
        lemma_raw_bits_bound::<B>(old(cab).state(), n as nat);
    }
    v
}

/// Counts bypass bins that are 1, up to `max`.
pub fn bypass_ones<B: BinDecoder>(cab: &mut B, max: u32) -> (k: u32)
    requires
        old(cab).ready(),
    ensures
        final(cab).ready(),
        raw_ones::<B>(old(cab).state(), 0, max as int) == (final(cab).state(), k as int),
        k <= max,
{
    let ghost s0 = cab.state();
    let mut k: u32 = 0;
    while k < max
        invariant_except_break
            k <= max,
            cab.ready(),
            raw_ones::<B>(s0, 0, max as int) == raw_ones::<B>(cab.state(), k as int, max as int),
        ensures
            k <= max,
            cab.ready(),
            raw_ones::<B>(s0, 0, max as int) == (cab.state(), k as int),
        decreases max - k,
    {
        let b = cab.bypass();
        if !b {
            break;
        }
        k += 1;
    }
    k
}

/// Why a binarization was refused, if it was.
pub enum CodeError {
    /// The unary prefix is longer than any value has.
    Prefix,
    /// The suffix has more bits than a value can take.
    Suffix,
}

/// k-th order Exp-Golomb (§9.3.3.5): each 1 of the prefix adds 2^order and
/// raises the order; the suffix has the final order's bits.
pub open spec fn exp_golomb<B: BinDecoder>(s: B::State, k: nat) -> (B::State, Option<int>) {
    let (s1, p) = raw_ones::<B>(s, 0, 30 - k);
    if p >= 30 - k {
        (s1, None)
    } else {
        let (s2, v) = raw_bits::<B>(s1, (p + k) as nat);
        (s2, Some(pow2((p + k) as nat) - pow2(k) + v))
    }
}

/// Reads a k-th order Exp-Golomb code; `None` when it does not fit 30 bits.
pub fn eg_k<B: BinDecoder>(cab: &mut B, k: u32) -> (r: Option<u32>)
    requires
        old(cab).ready(),
        k < 30,
    ensures
        final(cab).ready(),
        exp_golomb::<B>(old(cab).state(), k as nat).0 == final(cab).state(),
        match r {
            Some(v) => exp_golomb::<B>(old(cab).state(), k as nat).1 == Some(v as int) && v
                < 0x4000_0000,
            None => exp_golomb::<B>(old(cab).state(), k as nat).1 is None,
        },
{
    let p = bypass_ones(cab, 30 - k);
    if p >= 30 - k {
        return None;
    }
    let n = p + k;
    let v = bypass_bits(cab, n);
    proof {
        arith::lemma_pow2_le(n as nat, 29);
        arith::lemma_pow2_le(k as nat, n as nat);
        lemma_pow2_pos(k as nat);
        lemma2_to64();
        vstd::bits::lemma_u32_pow2_no_overflow(n as nat);
        vstd::bits::lemma_u32_pow2_no_overflow(k as nat);
        vstd::bits::lemma_u32_shl_is_mul(1u32, n);
        vstd::bits::lemma_u32_shl_is_mul(1u32, k);
    }
    Some((1u32 << n) - (1u32 << k) + v)
}

// ---- the arithmetic decoding engine (§9.3.4.3) ----

/// `rangeTabLps`, by `pStateIdx` and the quantised range.
pub const RANGE_LPS: [[u16; 4]; 64] = [
    [128, 176, 208, 240], [128, 167, 197, 227], [128, 158, 187, 216], [123, 150, 178, 205],
    [116, 142, 169, 195], [111, 135, 160, 185], [105, 128, 152, 175], [100, 122, 144, 166],
    [95, 116, 137, 158], [90, 110, 130, 150], [85, 104, 123, 142], [81, 99, 117, 135],
    [77, 94, 111, 128], [73, 89, 105, 122], [69, 85, 100, 116], [66, 80, 95, 110],
    [62, 76, 90, 104], [59, 72, 86, 99], [56, 69, 81, 94], [53, 65, 77, 89],
    [51, 62, 73, 85], [48, 59, 69, 80], [46, 56, 66, 76], [43, 53, 63, 72],
    [41, 50, 59, 69], [39, 48, 56, 65], [37, 45, 54, 62], [35, 43, 51, 59],
    [33, 41, 48, 56], [32, 39, 46, 53], [30, 37, 43, 50], [29, 35, 41, 48],
    [27, 33, 39, 45], [26, 31, 37, 43], [24, 30, 35, 41], [23, 28, 33, 39],
    [22, 27, 32, 37], [21, 26, 30, 35], [20, 24, 29, 33], [19, 23, 27, 31],
    [18, 22, 26, 30], [17, 21, 25, 28], [16, 20, 23, 27], [15, 19, 22, 25],
    [14, 18, 21, 24], [14, 17, 20, 23], [13, 16, 19, 22], [12, 15, 18, 21],
    [12, 14, 17, 20], [11, 14, 16, 19], [11, 13, 15, 18], [10, 12, 15, 17],
    [10, 12, 14, 16], [9, 11, 13, 15], [9, 11, 12, 14], [8, 10, 12, 14],
    [8, 9, 11, 13], [7, 9, 11, 12], [7, 9, 10, 12], [7, 8, 10, 11],
    [6, 8, 9, 11], [6, 7, 9, 10], [6, 7, 8, 9], [2, 2, 2, 2],
];

/// `transIdxLps`: the probability state after a least probable symbol.
pub const TRANS_LPS: [u8; 64] = [
    0, 0, 1, 2, 2, 4, 4, 5, 6, 7, 8, 9, 9, 11, 11, 12, 13, 13, 15, 15, 16, 16, 18, 18, 19, 19, 21,
    21, 22, 22, 23, 24, 24, 25, 26, 26, 27, 27, 28, 29, 29, 30, 30, 30, 31, 32, 32, 33, 33, 33, 34,
    34, 35, 35, 35, 36, 36, 36, 37, 37, 37, 38, 38, 63,
];

#[verifier::opaque]
pub open spec fn range_lps(p: int, q: int) -> int {
    RANGE_LPS@[p]@[q] as int
}

#[verifier::opaque]
pub open spec fn trans_lps(p: int) -> u8 {
    TRANS_LPS@[p]
}

/// A context variable: `pStateIdx` and `valMps`.
#[derive(Debug, Clone, Copy, PartialEq, Eq, Structural)]
pub struct Context {
    pub p_state: u8,
    pub val_mps: bool,
}

/// What the engine's bins depend on.
pub struct EngineState {
    pub data: Seq<u8>,
    /// The next bit to read.
    pub pos: int,
    pub range: int,
    pub offset: int,
    pub ctx: Seq<Context>,
}

/// Bit `pos` of the data, most significant bit of each byte first; 0 past
/// its end.
pub open spec fn data_bit(data: Seq<u8>, pos: int) -> int {
    if 0 <= pos / 8 < data.len() {
        (data[pos / 8] as int / pow2((7 - pos % 8) as nat) as int) % 2
    } else {
        0
    }
}

/// The position after one bit is read: the end of the data is not passed.
pub open spec fn bit_after(data: Seq<u8>, pos: int) -> int {
    if pos < 8 * data.len() {
        pos + 1
    } else {
        pos
    }
}

/// `ivlCurrRange` and `ivlOffset` doubled until the range reaches 256.
pub open spec fn renormed(s: EngineState) -> EngineState
    decreases 512 - s.range,
{
    if s.range >= 256 || s.range <= 0 {
        s
    } else {
        renormed(
            EngineState {
                pos: bit_after(s.data, s.pos),
                range: 2 * s.range,
                offset: 2 * s.offset + data_bit(s.data, s.pos),
                ..s
            },
        )
    }
}

/// §9.3.4.3.2: one context-coded bin.
pub open spec fn engine_ctx_bin(s: EngineState, ctx: int) -> (EngineState, bool) {
    let c = s.ctx[ctx];
    let lps = range_lps(c.p_state as int, (s.range / 64) % 4);
    let mps_range = s.range - lps;
    if s.offset >= mps_range {
        let next = Context {
            p_state: trans_lps(c.p_state as int),
            val_mps: if c.p_state == 0 {
                !c.val_mps
            } else {
                c.val_mps
            },
        };
        (
            renormed(
                EngineState {
                    range: lps,
                    offset: s.offset - mps_range,
                    ctx: s.ctx.update(ctx, next),
                    ..s
                },
            ),
            !c.val_mps,
        )
    } else {
        let next = Context {
            p_state: if c.p_state < 62 {
                (c.p_state + 1) as u8
            } else {
                c.p_state
            },
            val_mps: c.val_mps,
        };
        (
            renormed(EngineState { range: mps_range, ctx: s.ctx.update(ctx, next), ..s }),
            c.val_mps,
        )
    }
}

/// §9.3.4.3.4: one bypass bin.
pub open spec fn engine_raw_bin(s: EngineState) -> (EngineState, bool) {
    let offset = 2 * s.offset + data_bit(s.data, s.pos);
    if offset >= s.range {
        (EngineState { pos: bit_after(s.data, s.pos), offset: offset - s.range, ..s }, true)
    } else {
        (EngineState { pos: bit_after(s.data, s.pos), offset, ..s }, false)
    }
}

/// The arithmetic decoding engine over one slice segment's data.
pub struct Cabac {
    data: Vec<u8>,
    byte: usize,
    bit: u8,
    range: u32,
    offset: u32,
    ctx: Vec<Context>,
}

impl Cabac {
    /// The first `n` bits of `data` as a number.
    pub open spec fn first_bits(data: Seq<u8>, n: nat) -> int
        decreases n,
    {
        if n == 0 {
            0
        } else {
            2 * Self::first_bits(data, (n - 1) as nat) + data_bit(data, n - 1)
        }
    }

    /// Starts decoding (§9.3.2.5) with the given context variables. Fails on
    /// data whose first nine bits no encoder produces.
    pub fn new(data: Vec<u8>, ctx: Vec<Context>) -> (r: core::result::Result<Self, Error>)
        requires
            ctx@.len() == N_CTX,
            forall|i: int| #![trigger ctx@[i]] 0 <= i < ctx@.len() ==> ctx@[i].p_state < 64,
        ensures
            r is Ok <==> Self::first_bits(data@, 9) < 510,
            match r {
                Ok(c) => c.ready() && c.state() == (EngineState {
                    data: data@,
                    pos: if data@.len() == 0 {
                        0
                    } else if data@.len() == 1 {
                        8
                    } else {
                        9
                    },
                    range: 510,
                    offset: Self::first_bits(data@, 9),
                    ctx: ctx@,
                }),
                Err(e) => e.says_invalid("CABAC offset out of range"@),
            },
    {
        let mut c = Cabac { data, byte: 0, bit: 0, range: 510, offset: 0, ctx };
        let mut i: u32 = 0;
        proof {
            lemma2_to64();
        }
        while i < 9
            invariant
                i <= 9,
                c.pos_ok(),
                c.data@ == data@,
                c.ctx@ == ctx@,
                c.range == 510,
                c.pos() == arith::min2(i as int, 8 * data@.len() as int),
                c.offset == Self::first_bits(data@, i as nat),
                c.offset < pow2(i as nat),
            decreases 9 - i,
        {
            proof {
                arith::lemma_pow2_le(i as nat, 8);
                lemma_pow2_adds(i as nat, 1);
                lemma2_to64();
            }
            let b = c.read_bit();
            c.offset = 2 * c.offset + b;
            i += 1;
        }
        if c.offset >= 510 {
            return Err(Error::invalid("CABAC offset out of range"));
        }
        Ok(c)
    }

    spec fn pos_ok(&self) -> bool {
        self.bit < 8 && (self.byte < self.data@.len() || self.byte == self.data@.len() && self.bit
            == 0)
    }

    /// The position of the next bit.
    spec fn pos(&self) -> int {
        self.byte * 8 + self.bit
    }

    fn read_bit(&mut self) -> (b: u32)
        requires
            old(self).pos_ok(),
        ensures
            final(self).pos_ok(),
            final(self).pos() == bit_after(old(self).data@, old(self).pos()),
            b == data_bit(old(self).data@, old(self).pos()),
            b <= 1,
            final(self).data@ == old(self).data@,
            final(self).range == old(self).range,
            final(self).offset == old(self).offset,
            final(self).ctx@ == old(self).ctx@,
    {
        if self.byte >= self.data.len() {
            return 0;
        }
        let v = self.data[self.byte] as usize;
        let b = (arith::shr_usize(v, (7 - self.bit) as usize) % 2) as u32;
        if self.bit == 7 {
            self.bit = 0;
            self.byte += 1;
        } else {
            self.bit += 1;
        }
        b
    }

    /// Doubles range and offset until the range reaches 256.
    fn renorm(&mut self)
        requires
            old(self).pos_ok(),
            1 <= old(self).range <= 510,
            old(self).offset < old(self).range,
        ensures
            final(self).pos_ok(),
            256 <= final(self).range <= 510,
            final(self).offset < final(self).range,
            final(self).ctx@ == old(self).ctx@,
            final(self).engine() == renormed(old(self).engine()),
    {
        while self.range < 256
            invariant
                self.pos_ok(),
                1 <= self.range <= 510,
                self.offset < self.range,
                self.ctx@ == old(self).ctx@,
                renormed(self.engine()) == renormed(old(self).engine()),
            decreases 512 - self.range,
        {
            let b = self.read_bit();
            self.range = 2 * self.range;
            self.offset = 2 * self.offset + b;
        }
    }

    spec fn engine(&self) -> EngineState {
        EngineState {
            data: self.data@,
            pos: self.pos(),
            range: self.range as int,
            offset: self.offset as int,
            ctx: self.ctx@,
        }
    }
}

/// Looks up `rangeTabLps`.
fn lps_of(p: u8, q: u32) -> (r: u32)
    requires
        p < 64,
        q < 4,
    ensures
        r == range_lps(p as int, q as int),
        2 <= r <= 240,
{
    reveal(range_lps);
    RANGE_LPS[p as usize][q as usize] as u32
}

/// Looks up `transIdxLps`.
fn after_lps(p: u8) -> (r: u8)
    requires
        p < 64,
    ensures
        r == trans_lps(p as int),
        r < 64,
{
    reveal(trans_lps);
    TRANS_LPS[p as usize]
}

impl BinDecoder for Cabac {
    type State = EngineState;

    closed spec fn ready(&self) -> bool {
        &&& self.pos_ok()
        &&& 256 <= self.range <= 510
        &&& self.offset < self.range
        &&& self.ctx@.len() == N_CTX
        &&& forall|i: int| #![trigger self.ctx@[i]] 0 <= i < N_CTX ==> self.ctx@[i].p_state < 64
    }

    closed spec fn state(&self) -> EngineState {
        self.engine()
    }

    open spec fn ctx_bin(s: EngineState, ctx: int) -> (EngineState, bool) {
        engine_ctx_bin(s, ctx)
    }

    open spec fn raw_bin(s: EngineState) -> (EngineState, bool) {
        engine_raw_bin(s)
    }

    fn decode(&mut self, ctx: usize) -> (b: bool) {
        let c = self.ctx[ctx];
        let q = (self.range / 64) % 4;
        let lps = lps_of(c.p_state, q);
        let mps_range = self.range - lps;
        if self.offset >= mps_range {
            let next = Context {
                p_state: after_lps(c.p_state),
                val_mps: if c.p_state == 0 {
                    !c.val_mps
                } else {
                    c.val_mps
                },
            };
            self.ctx[ctx] = next;
            self.offset = self.offset - mps_range;
            self.range = lps;
            self.renorm();
            !c.val_mps
        } else {
            let next = Context {
                p_state: if c.p_state < 62 {
                    c.p_state + 1
                } else {
                    c.p_state
                },
                val_mps: c.val_mps,
            };
            self.ctx[ctx] = next;
            self.range = mps_range;
            self.renorm();
            c.val_mps
        }
    }

    fn bypass(&mut self) -> (b: bool) {
        let bit = self.read_bit();
        let offset = 2 * self.offset + bit;
        if offset >= self.range {
            self.offset = offset - self.range;
            true
        } else {
            self.offset = offset;
            false
        }
    }
}

} // verus!
