//! Residual coding (§7.3.8.11): the coefficients of one transform block, read
//! bin by bin.

use crate::arith;
use crate::cabac;
use crate::cabac::{
    BinDecoder, CodeError, CTX_CSBF, CTX_GT1, CTX_GT2, CTX_LAST_X_PREFIX, CTX_LAST_Y_PREFIX,
    CTX_SIG, CTX_TRANSFORM_SKIP, N_CTX,
};
use crate::error::Error;
use crate::tables;
use crate::tables::SIG_CTX_MAP_4X4;
use vstd::arithmetic::power2::*;
use vstd::prelude::*;

verus! {

// ---- coeff_abs_level_remaining (§9.3.3.11) ----

/// An integer cut to 32 bits, two's complement.
pub open spec fn wrap32(v: int) -> int {
    (v + 0x8000_0000) % 0x1_0000_0000 - 0x8000_0000
}

/// The value of `coeff_abs_level_remaining` with Rice parameter `rice`: a
/// prefix of fewer than three ones and `rice` bits, or an escape whose suffix
/// grows with the prefix.
pub open spec fn remaining<B: BinDecoder>(s: B::State, rice: nat) -> (
    B::State,
    core::result::Result<int, CodeError>,
) {
    let (s1, prefix) = cabac::raw_ones::<B>(s, 0, 32);
    if prefix >= 32 {
        (s1, Err(CodeError::Prefix))
    } else if prefix < 3 {
        let (s2, v) = cabac::raw_bits::<B>(s1, rice);
        (s2, Ok(prefix * pow2(rice) + v))
    } else if prefix - 3 + rice > 31 {
        (s1, Err(CodeError::Suffix))
    } else {
        let l = (prefix - 3) as nat;
        let (s2, v) = cabac::raw_bits::<B>(s1, l + rice);
        (s2, Ok(wrap32((pow2(l) + 2) * pow2(rice) + v)))
    }
}

/// The error that a refused code becomes.
pub open spec fn code_error_text(e: CodeError) -> Seq<char> {
    match e {
        CodeError::Prefix => "coeff_abs_level_remaining prefix"@,
        CodeError::Suffix => "coeff_abs_level_remaining suffix"@,
    }
}

/// `v` as a 32-bit two's complement number.
fn to_i32(v: u32) -> (r: i32)
    ensures
        r == wrap32(v as int),
{
    if v < 0x8000_0000 {
        v as i32
    } else {
        (v - 0x8000_0000) as i32 + i32::MIN
    }
}

/// Wrapping depends on the value modulo 2^32 only.
proof fn lemma_wrap32_mod(v: int, w: int)
    requires
        w == v % 0x1_0000_0000,
    ensures
        wrap32(w) == wrap32(v),
{
}

fn coeff_remaining<B: BinDecoder>(cab: &mut B, rice: u32) -> (r: core::result::Result<i32, Error>)
    requires
        old(cab).ready(),
        rice <= 4,
    ensures
        final(cab).ready(),
        final(cab).state() == remaining::<B>(old(cab).state(), rice as nat).0,
        match r {
            Ok(v) => remaining::<B>(old(cab).state(), rice as nat).1 == Ok::<int, CodeError>(
                v as int,
            ),
            Err(e) => remaining::<B>(old(cab).state(), rice as nat).1 matches Err(c)
                && e.says_invalid(code_error_text(c)),
        },
{
    let prefix = cabac::bypass_ones(cab, 32);
    if prefix >= 32 {
        return Err(Error::invalid("coeff_abs_level_remaining prefix"));
    }
    proof {
        arith::lemma_pow2_le(rice as nat, 4);
        lemma2_to64();
    }
    if prefix < 3 {
        let unit = arith::pow2_i32(rice) as u32;
        assert(prefix * unit <= 2 * 16) by (nonlinear_arith)
            requires
                prefix <= 2,
                unit <= 16,
        ;
        let v = cabac::bypass_bits(cab, rice);
        Ok((prefix * unit + v) as i32)
    } else {
        let l = prefix - 3;
        if l + rice > 31 {
            return Err(Error::invalid("coeff_abs_level_remaining suffix"));
        }
        let high = arith::pow2_i32(l) as u32;
        let unit = arith::pow2_i32(rice) as u32;
        proof {
            arith::lemma_pow2_le((l + rice) as nat, 31);
            lemma_pow2_adds(l as nat, rice as nat);
            assert((high + 2) * unit == pow2((l + rice) as nat) + 2 * unit) by (nonlinear_arith)
                requires
                    high * unit == pow2((l + rice) as nat),
            ;
        }
        let base = (high + 2) * unit;
        let v = cabac::bypass_bits(cab, l + rice);
        let sum = base.wrapping_add(v);
        proof {
            lemma_wrap32_mod(base + v, sum as int);
        }
        Ok(to_i32(sum))
    }
}

// ---- last significant coefficient (§7.3.8.11, §9.3.4.2.3) ----

/// The context of bin `k` of a last-position prefix, relative to the first.
pub open spec fn last_ctx(log2: int, c_idx: int, k: int) -> int {
    if c_idx == 0 {
        3 * (log2 - 2) + (log2 - 1) / 4 + k / (pow2(((log2 + 1) / 4) as nat) as int)
    } else {
        15 + k / (pow2((log2 - 2) as nat) as int)
    }
}

/// A last-position prefix, counted on from `k`.
pub open spec fn last_prefix<B: BinDecoder>(
    s: B::State,
    base: int,
    log2: int,
    c_idx: int,
    k: int,
) -> (B::State, int)
    decreases 2 * log2 - 1 - k,
{
    if k >= 2 * log2 - 1 {
        (s, k)
    } else {
        let (s1, b) = B::ctx_bin(s, base + last_ctx(log2, c_idx, k));
        if b {
            last_prefix::<B>(s1, base, log2, c_idx, k + 1)
        } else {
            (s1, k)
        }
    }
}

/// The coordinate that a prefix stands for, with the suffix of a long one.
pub open spec fn last_coord<B: BinDecoder>(s: B::State, prefix: int) -> (B::State, int) {
    if prefix > 3 {
        let nb = (prefix / 2 - 1) as nat;
        let (s1, v) = cabac::raw_bits::<B>(s, nb);
        (s1, (2 + prefix % 2) * pow2(nb) + v)
    } else {
        (s, prefix)
    }
}

/// The last significant position as it is coded: both prefixes, then both
/// suffixes.
pub open spec fn last_position<B: BinDecoder>(s: B::State, log2: int, c_idx: int) -> (
    B::State,
    int,
    int,
) {
    let (s1, px) = last_prefix::<B>(s, CTX_LAST_X_PREFIX as int, log2, c_idx, 0);
    let (s2, py) = last_prefix::<B>(s1, CTX_LAST_Y_PREFIX as int, log2, c_idx, 0);
    let (s3, x) = last_coord::<B>(s2, px);
    let (s4, y) = last_coord::<B>(s3, py);
    (s4, x, y)
}

/// The prefix contexts stay among the eighteen of their coordinate.
proof fn lemma_last_ctx(log2: int, c_idx: int, k: int)
    requires
        2 <= log2 <= 5,
        0 <= k < 2 * log2 - 1,
    ensures
        0 <= last_ctx(log2, c_idx, k) < 18,
{
    lemma2_to64();
    let d = pow2((if c_idx == 0 {
        (log2 + 1) / 4
    } else {
        log2 - 2
    }) as nat) as int;
    assert(d == if log2 == 2 {
        1int
    } else if c_idx == 0 || log2 == 3 {
        2
    } else if log2 == 4 {
        4
    } else {
        8
    });
    assert(k / d == if d == 1 {
        k
    } else if d == 2 {
        k / 2
    } else if d == 4 {
        k / 4
    } else {
        k / 8
    });
}

fn read_last_prefix<B: BinDecoder>(cab: &mut B, base: usize, log2: usize, c_idx: usize) -> (r:
    usize)
    requires
        old(cab).ready(),
        2 <= log2 <= 5,
        base + 18 <= N_CTX,
    ensures
        final(cab).ready(),
        last_prefix::<B>(old(cab).state(), base as int, log2 as int, c_idx as int, 0) == (
            final(cab).state(),
            r as int,
        ),
        r <= 2 * log2 - 1,
{
    let ghost s0 = cab.state();
    let (off, shift): (usize, usize) = if c_idx == 0 {
        (3 * (log2 - 2) + (log2 - 1) / 4, (log2 + 1) / 4)
    } else {
        (15, log2 - 2)
    };
    let cmax = 2 * log2 - 1;
    let mut k: usize = 0;
    while k < cmax
        invariant_except_break
            k <= cmax,
            cab.ready(),
            cmax == 2 * log2 - 1,
            2 <= log2 <= 5,
            base + 18 <= N_CTX,
            off == (if c_idx == 0 {
                3 * (log2 - 2) + (log2 - 1) / 4
            } else {
                15
            }),
            shift == (if c_idx == 0 {
                (log2 + 1) / 4
            } else {
                log2 - 2
            }),
            last_prefix::<B>(s0, base as int, log2 as int, c_idx as int, 0) == last_prefix::<B>(
                cab.state(),
                base as int,
                log2 as int,
                c_idx as int,
                k as int,
            ),
        ensures
            k <= cmax,
            cab.ready(),
            last_prefix::<B>(s0, base as int, log2 as int, c_idx as int, 0) == (
                cab.state(),
                k as int,
            ),
        decreases cmax - k,
    {
        proof {
            lemma_last_ctx(log2 as int, c_idx as int, k as int);
        }
        let b = cab.decode(base + off + arith::shr_usize(k, shift));
        if !b {
            break;
        }
        k += 1;
    }
    k
}

fn read_last_coord<B: BinDecoder>(cab: &mut B, prefix: usize) -> (r: usize)
    requires
        old(cab).ready(),
        prefix <= 9,
    ensures
        final(cab).ready(),
        last_coord::<B>(old(cab).state(), prefix as int) == (final(cab).state(), r as int),
{
    if prefix > 3 {
        let nb = prefix / 2 - 1;
        let v = cabac::bypass_bits(cab, nb as u32) as usize;
        let unit = arith::pow2_usize(nb);
        proof {
            lemma2_to64();
            arith::lemma_pow2_le(nb as nat, 3);
            assert((2 + prefix % 2) * unit <= 3 * 8) by (nonlinear_arith)
                requires
                    unit <= 8,
                    2 + prefix % 2 <= 3,
            ;
        }
        (2 + prefix % 2) * unit + v
    } else {
        prefix
    }
}

/// The scan that the intra prediction direction selects (§7.4.9.11).
pub open spec fn scan_for(cu_intra: bool, log2: int, c_idx: int, mode: int) -> int {
    if cu_intra && (log2 == 2 || log2 == 3 && c_idx == 0) {
        if 6 <= mode <= 14 {
            2
        } else if 22 <= mode <= 30 {
            1
        } else {
            0
        }
    } else {
        0
    }
}

fn scan_choice(cu_intra: bool, log2: usize, c_idx: usize, mode: u8) -> (r: usize)
    ensures
        r == scan_for(cu_intra, log2 as int, c_idx as int, mode as int),
        r <= 2,
{
    if cu_intra && (log2 == 2 || log2 == 3 && c_idx == 0) {
        if 6 <= mode && mode <= 14 {
            2
        } else if 22 <= mode && mode <= 30 {
            1
        } else {
            0
        }
    } else {
        0
    }
}

/// The cell at position `i` of a scan.
pub open spec fn scan_cell(size: int, scan_idx: int, i: int) -> (int, int) {
    choose|c: (int, int)|
        #![trigger tables::scan_pos(size, scan_idx, c.0, c.1)]
        0 <= c.0 < size && 0 <= c.1 < size && tables::scan_pos(size, scan_idx, c.0, c.1) == i
}

/// A scan table lists its cells.
pub proof fn lemma_scan_cell(s: Seq<(u8, u8)>, size: int, scan_idx: int, i: int)
    requires
        tables::is_scan(s, size, scan_idx),
        0 <= i < s.len(),
    ensures
        scan_cell(size, scan_idx, i) == (s[i].0 as int, s[i].1 as int),
        0 <= scan_cell(size, scan_idx, i).0 < size,
        0 <= scan_cell(size, scan_idx, i).1 < size,
{
    let c = (s[i].0 as int, s[i].1 as int);
    assert(tables::scan_pos(size, scan_idx, c.0, c.1) == i);
    let d = scan_cell(size, scan_idx, i);
    assert(tables::scan_pos(size, scan_idx, d.0, d.1) == i);
}

fn find_cell(s: &Vec<(u8, u8)>, size: usize, scan_idx: usize, x: usize, y: usize) -> (r: usize)
    requires
        tables::is_scan(s@, size as int, scan_idx as int),
        x < size,
        y < size,
    ensures
        r == tables::scan_pos(size as int, scan_idx as int, x as int, y as int),
        r < s@.len(),
{
    let ghost p = tables::scan_pos(size as int, scan_idx as int, x as int, y as int);
    let mut k: usize = 0;
    while s[k].0 as usize != x || s[k].1 as usize != y
        invariant
            tables::is_scan(s@, size as int, scan_idx as int),
            x < size,
            y < size,
            p == tables::scan_pos(size as int, scan_idx as int, x as int, y as int),
            0 <= k <= p < s@.len() == s.len(),
        decreases p - k,
    {
        k += 1;
    }
    k
}

// ---- one 4×4 sub-block ----

/// What the parsing of a transform block's sub-blocks goes by.
#[derive(Debug, Clone, Copy)]
pub struct Block {
    pub log2: usize,
    pub c_idx: usize,
    pub scan_idx: usize,
    /// The sub-block, in scan order, that holds the last significant position.
    pub last_sb: usize,
    /// The last significant position inside that sub-block, in scan order.
    pub last_pos: usize,
    /// Whether signs may be hidden in the parity of the levels.
    pub hiding: bool,
}

impl Block {
    /// The width of the block in sub-blocks.
    pub open spec fn nsb(self) -> int {
        pow2((self.log2 - 2) as nat) as int
    }

    /// The width of the block in samples.
    pub open spec fn n(self) -> int {
        pow2(self.log2 as nat) as int
    }

    pub open spec fn wf(self) -> bool {
        &&& 2 <= self.log2 <= 5
        &&& self.c_idx <= 2
        &&& self.scan_idx <= 2
        &&& self.last_sb < self.nsb() * self.nsb()
        &&& self.last_pos < 16
    }

    /// The sub-block at position `i` of the scan.
    pub open spec fn sub_cell(self, i: int) -> (int, int) {
        scan_cell(self.nsb(), self.scan_idx as int, i)
    }

    /// The cell at position `p` of a sub-block's scan.
    pub open spec fn cell(self, p: int) -> (int, int) {
        scan_cell(4, self.scan_idx as int, p)
    }
}

/// The sizes of a transform block.
pub proof fn lemma_block_size(b: Block)
    requires
        2 <= b.log2 <= 5,
    ensures
        b.n() == 4 * b.nsb(),
        b.nsb() == 1 || b.nsb() == 2 || b.nsb() == 4 || b.nsb() == 8,
        b.nsb() == tables::scan_size(b.log2 - 2),
{
    lemma2_to64();
    lemma_pow2_adds((b.log2 - 2) as nat, 2);
}

/// The part of the significance context that the neighbouring sub-blocks and
/// the position give (§9.3.4.2.5).
pub open spec fn near_ctx(right: bool, below: bool, xp: int, yp: int) -> int {
    if right && below {
        2
    } else if right {
        if yp == 0 {
            2
        } else if yp == 1 {
            1
        } else {
            0
        }
    } else if below {
        if xp == 0 {
            2
        } else if xp == 1 {
            1
        } else {
            0
        }
    } else if xp + yp == 0 {
        2
    } else if xp + yp < 3 {
        1
    } else {
        0
    }
}

/// `sigCtx` (§9.3.4.2.5) of position (`xp`, `yp`) of sub-block (`xs`, `ys`).
pub open spec fn sig_ctx(
    b: Block,
    xs: int,
    ys: int,
    xp: int,
    yp: int,
    right: bool,
    below: bool,
) -> int {
    let xc = 4 * xs + xp;
    let yc = 4 * ys + yp;
    if b.log2 == 2 {
        SIG_CTX_MAP_4X4@[4 * yc + xc] as int
    } else if xc + yc == 0 {
        0
    } else {
        near_ctx(right, below, xp, yp) + (if b.c_idx == 0 {
            (if xs > 0 || ys > 0 {
                3int
            } else {
                0
            }) + (if b.log2 == 3 {
                if b.scan_idx == 0 {
                    9int
                } else {
                    15
                }
            } else {
                21
            })
        } else if b.log2 == 3 {
            9
        } else {
            12
        })
    }
}

fn sig_ctx_of(b: &Block, xs: usize, ys: usize, xp: usize, yp: usize, right: bool, below: bool) -> (r:
    usize)
    requires
        b.wf(),
        xs < b.nsb(),
        ys < b.nsb(),
        xp < 4,
        yp < 4,
    ensures
        r == sig_ctx(*b, xs as int, ys as int, xp as int, yp as int, right, below),
        b.c_idx == 0 ==> r < 27,
        b.c_idx != 0 ==> r < 15,
{
    proof {
        lemma_block_size(*b);
    }
    let xc = 4 * xs + xp;
    let yc = 4 * ys + yp;
    if b.log2 == 2 {
        return SIG_CTX_MAP_4X4[4 * yc + xc] as usize;
    }
    if xc + yc == 0 {
        return 0;
    }
    let near: usize = if right && below {
        2
    } else if right {
        if yp == 0 {
            2
        } else if yp == 1 {
            1
        } else {
            0
        }
    } else if below {
        if xp == 0 {
            2
        } else if xp == 1 {
            1
        } else {
            0
        }
    } else if xp + yp == 0 {
        2
    } else if xp + yp < 3 {
        1
    } else {
        0
    };
    if b.c_idx == 0 {
        let inner: usize = if xs > 0 || ys > 0 {
            3
        } else {
            0
        };
        let size: usize = if b.log2 == 3 {
            if b.scan_idx == 0 {
                9
            } else {
                15
            }
        } else {
            21
        };
        near + inner + size
    } else if b.log2 == 3 {
        near + 9
    } else {
        near + 12
    }
}

/// The first context variable of `sig_coeff_flag` for the component.
pub open spec fn sig_base(c_idx: int) -> int {
    if c_idx == 0 {
        CTX_SIG as int
    } else {
        CTX_SIG + 27
    }
}

/// The significant positions of a sub-block, from position `p` down to 0 in
/// scan order, after those already in `acc`. While `infer` holds and nothing
/// else was significant, position 0 is significant without a flag.
pub open spec fn sig_scan<B: BinDecoder>(
    s: B::State,
    b: Block,
    xs: int,
    ys: int,
    right: bool,
    below: bool,
    p: int,
    infer: bool,
    acc: Seq<u8>,
) -> (B::State, Seq<u8>)
    decreases p + 1,
{
    if p < 0 {
        (s, acc)
    } else if p > 0 || !infer {
        let (xp, yp) = b.cell(p);
        let (s1, flag) = B::ctx_bin(
            s,
            sig_base(b.c_idx as int) + sig_ctx(b, xs, ys, xp, yp, right, below),
        );
        sig_scan::<B>(
            s1,
            b,
            xs,
            ys,
            right,
            below,
            p - 1,
            infer && !flag,
            if flag {
                acc.push(p as u8)
            } else {
                acc
            },
        )
    } else {
        (s, acc.push(0))
    }
}

/// Significant positions come in falling scan order.
pub open spec fn falling(sig: Seq<u8>) -> bool {
    forall|i: int, j: int|
        #![trigger sig[i], sig[j]]
        0 <= i < j < sig.len() ==> sig[j] < sig[i]
}

/// Reads the significance flags of a sub-block below position `start`.
fn read_sig<B: BinDecoder>(
    cab: &mut B,
    b: &Block,
    pos_scan: &Vec<(u8, u8)>,
    xs: usize,
    ys: usize,
    right: bool,
    below: bool,
    start: usize,
    infer0: bool,
    sig: &mut Vec<u8>,
)
    requires
        old(cab).ready(),
        b.wf(),
        tables::is_scan(pos_scan@, 4, b.scan_idx as int),
        xs < b.nsb(),
        ys < b.nsb(),
        start <= 16,
        old(sig)@.len() <= 16 - start,
        falling(old(sig)@),
        forall|i: int|
            #![trigger old(sig)@[i]]
            0 <= i < old(sig)@.len() ==> start <= old(sig)@[i] < 16,
    ensures
        final(cab).ready(),
        sig_scan::<B>(
            old(cab).state(),
            *b,
            xs as int,
            ys as int,
            right,
            below,
            start - 1,
            infer0,
            old(sig)@,
        ) == (final(cab).state(), final(sig)@),
        final(sig)@.len() <= 16,
        falling(final(sig)@),
        forall|i: int| #![trigger final(sig)@[i]] 0 <= i < final(sig)@.len() ==> final(sig)@[i] < 16,
{
    let ghost s0 = cab.state();
    let ghost sig0 = sig@;
    let mut infer = infer0;
    let mut k: usize = start;
    let base: usize = if b.c_idx == 0 {
        CTX_SIG
    } else {
        CTX_SIG + 27
    };
    while k > 0
        invariant
            cab.ready(),
            b.wf(),
            tables::is_scan(pos_scan@, 4, b.scan_idx as int),
            xs < b.nsb(),
            ys < b.nsb(),
            k <= start <= 16,
            base == sig_base(b.c_idx as int),
            sig@.len() <= 16 - k,
            falling(sig@),
            forall|i: int| #![trigger sig@[i]] 0 <= i < sig@.len() ==> k <= sig@[i] < 16,
            sig_scan::<B>(
                s0,
                *b,
                xs as int,
                ys as int,
                right,
                below,
                start - 1,
                infer0,
                sig0,
            ) == sig_scan::<B>(
                cab.state(),
                *b,
                xs as int,
                ys as int,
                right,
                below,
                k - 1,
                infer,
                sig@,
            ),
        decreases k,
    {
        let p = k - 1;
        if p > 0 || !infer {
            proof {
                lemma_scan_cell(pos_scan@, 4, b.scan_idx as int, p as int);
            }
            let (xp, yp) = (pos_scan[p].0 as usize, pos_scan[p].1 as usize);
            let ctx = base + sig_ctx_of(b, xs, ys, xp, yp, right, below);
            let flag = cab.decode(ctx);
            if flag {
                infer = false;
                sig.push(p as u8);
            }
        } else {
            sig.push(0);
        }
        k = p;
    }
}

/// The first context variable of `coeff_abs_level_greater1_flag`.
pub open spec fn gt1_base(c_idx: int) -> int {
    if c_idx == 0 {
        CTX_GT1 as int
    } else {
        CTX_GT1 + 16
    }
}

/// The first context variable of `coeff_abs_level_greater2_flag`.
pub open spec fn gt2_base(c_idx: int) -> int {
    if c_idx == 0 {
        CTX_GT2 as int
    } else {
        CTX_GT2 + 4
    }
}

/// `ctxSet` (§9.3.4.2.6): chroma and the first sub-block use the lower sets; a
/// level above 1 at the end of the sub-block before moves to the next set.
pub open spec fn ctx_set(c_idx: int, i: int, c1: int) -> int {
    (if i == 0 || c_idx > 0 {
        0int
    } else {
        2
    }) + (if c1 == 0 {
        1int
    } else {
        0
    })
}

/// `greater1Ctx` after a flag: 0 from the first 1 on, else rising to 3.
pub open spec fn next_c1(c1: int, flag: bool) -> int {
    if flag {
        0
    } else if 1 <= c1 < 3 {
        c1 + 1
    } else {
        c1
    }
}

/// The greater-than-1 flags from the `k`-th on, up to `num`, after those in
/// `acc`; with `greater1Ctx` at the end.
pub open spec fn gt1_scan<B: BinDecoder>(
    s: B::State,
    base: int,
    num: int,
    c1: int,
    acc: Seq<bool>,
) -> (B::State, int, Seq<bool>)
    decreases num - acc.len(),
{
    if acc.len() >= num {
        (s, c1, acc)
    } else {
        let (s1, flag) = B::ctx_bin(s, base + c1);
        gt1_scan::<B>(s1, base, num, next_c1(c1, flag), acc.push(flag))
    }
}

/// The first flag that is set; the length when none is.
pub open spec fn first_set(flags: Seq<bool>) -> int
    decreases flags.len(),
{
    if flags.len() == 0 {
        0
    } else if first_set(flags.drop_last()) < flags.len() - 1 {
        first_set(flags.drop_last())
    } else if flags.last() {
        flags.len() - 1
    } else {
        flags.len() as int
    }
}

/// Reads the greater-than-1 flags of up to eight levels. Returns the flags,
/// `greater1Ctx` at the end, and the index of the first flag set.
fn read_gt1<B: BinDecoder>(cab: &mut B, base: usize, num: usize) -> (r: (Vec<bool>, usize, usize))
    requires
        old(cab).ready(),
        base + 4 <= N_CTX,
    ensures
        final(cab).ready(),
        gt1_scan::<B>(old(cab).state(), base as int, num as int, 1, Seq::empty()) == (
            final(cab).state(),
            r.1 as int,
            r.0@,
        ),
        r.0@.len() == num,
        r.1 < 4,
        r.2 == first_set(r.0@),
        r.2 <= num,
{
    let ghost s0 = cab.state();
    let mut flags: Vec<bool> = Vec::new();
    let mut c1: usize = 1;
    let mut first: usize = 0;
    assert(flags@ =~= Seq::empty());
    while flags.len() < num
        invariant
            cab.ready(),
            base + 4 <= N_CTX,
            c1 < 4,
            flags@.len() <= num,
            first == first_set(flags@),
            first <= flags@.len(),
            gt1_scan::<B>(s0, base as int, num as int, 1, Seq::empty()) == gt1_scan::<B>(
                cab.state(),
                base as int,
                num as int,
                c1 as int,
                flags@,
            ),
        decreases num - flags@.len(),
    {
        let flag = cab.decode(base + c1);
        let n = flags.len();
        let ghost before = flags@;
        flags.push(flag);
        assert(flags@.drop_last() =~= before);
        if first == n && !flag {
            first = n + 1;
        }
        if flag {
            c1 = 0;
        } else if 1 <= c1 && c1 < 3 {
            c1 += 1;
        }
    }
    (flags, c1, first)
}

/// The level that the flags alone give to coefficient `k`.
pub open spec fn base_level(gt1: Seq<bool>, first: int, gt2: bool, k: int) -> int {
    1 + (if k < gt1.len() && gt1[k] {
        1int
    } else {
        0
    }) + (if k == first && k < gt1.len() && gt2 {
        1int
    } else {
        0
    })
}

/// The level at which the flags of coefficient `k` say no more and a remainder
/// follows.
pub open spec fn escape_level(gt1: Seq<bool>, first: int, k: int) -> int {
    if k >= 8 {
        1
    } else if k == first && k < gt1.len() {
        3
    } else {
        2
    }
}

/// The absolute levels of the coefficients from `acc.len()` on, up to `num`,
/// after those in `acc`; the Rice parameter grows with large levels.
pub open spec fn abs_scan<B: BinDecoder>(
    s: B::State,
    gt1: Seq<bool>,
    gt2: bool,
    num: int,
    rice: nat,
    acc: Seq<i32>,
) -> (B::State, core::result::Result<Seq<i32>, CodeError>)
    decreases num - acc.len(),
{
    let k = acc.len() as int;
    if k >= num {
        (s, Ok(acc))
    } else {
        let base = base_level(gt1, first_set(gt1), gt2, k);
        if base == escape_level(gt1, first_set(gt1), k) {
            let (s1, r) = remaining::<B>(s, rice);
            match r {
                Err(e) => (s1, Err(e)),
                Ok(rem) => {
                    let v = wrap32(base + rem);
                    abs_scan::<B>(
                        s1,
                        gt1,
                        gt2,
                        num,
                        if v > 3 * pow2(rice) && rice < 4 {
                            rice + 1
                        } else {
                            rice
                        },
                        acc.push(v as i32),
                    )
                },
            }
        } else {
            abs_scan::<B>(s, gt1, gt2, num, rice, acc.push(base as i32))
        }
    }
}

/// Reads the absolute levels of `num` coefficients.
fn read_abs<B: BinDecoder>(cab: &mut B, gt1: &Vec<bool>, first: usize, gt2: bool, num: usize) -> (r:
    core::result::Result<Vec<i32>, Error>)
    requires
        old(cab).ready(),
        first == first_set(gt1@),
        num <= 16,
    ensures
        final(cab).ready(),
        final(cab).state() == abs_scan::<B>(
            old(cab).state(),
            gt1@,
            gt2,
            num as int,
            0,
            Seq::empty(),
        ).0,
        match r {
            Ok(v) => abs_scan::<B>(old(cab).state(), gt1@, gt2, num as int, 0, Seq::empty()).1
                == Ok::<Seq<i32>, CodeError>(v@) && v@.len() == num,
            Err(e) => abs_scan::<B>(old(cab).state(), gt1@, gt2, num as int, 0, Seq::empty()).1
                matches Err(c) && e.says_invalid(code_error_text(c)),
        },
{
    let ghost s0 = cab.state();
    let mut out: Vec<i32> = Vec::new();
    let mut rice: u32 = 0;
    assert(out@ =~= Seq::empty());
    while out.len() < num
        invariant
            cab.ready(),
            first == first_set(gt1@),
            num <= 16,
            rice <= 4,
            out@.len() <= num,
            s0 == old(cab).state(),
            abs_scan::<B>(s0, gt1@, gt2, num as int, 0, Seq::empty()) == abs_scan::<B>(
                cab.state(),
                gt1@,
                gt2,
                num as int,
                rice as nat,
                out@,
            ),
        decreases num - out@.len(),
    {
        let k = out.len();
        let is_first = k == first && k < gt1.len();
        let mut base: i32 = 1;
        if k < gt1.len() && gt1[k] {
            base += 1;
        }
        if is_first && gt2 {
            base += 1;
        }
        let escape: i32 = if k >= 8 {
            1
        } else if is_first {
            3
        } else {
            2
        };
        if base == escape {
            match coeff_remaining(cab, rice) {
                Err(e) => {
                    return Err(e);
                },
                Ok(rem) => {
                    let v = base.wrapping_add(rem);
                    proof {
                        arith::lemma_pow2_le(rice as nat, 4);
                        lemma2_to64();
                        assert(v == wrap32(base + rem));
                    }
                    if v > 3 * arith::pow2_i32(rice) && rice < 4 {
                        rice += 1;
                    }
                    out.push(v);
                },
            }
        } else {
            out.push(base);
        }
    }
    Ok(out)
}

/// The sum of absolute levels.
pub open spec fn level_sum(levels: Seq<i32>) -> int
    decreases levels.len(),
{
    if levels.len() == 0 {
        0
    } else {
        level_sum(levels.drop_last()) + levels.last()
    }
}

/// Whether coefficient `k` is negative: by its sign bit, or, where the sign is
/// hidden, by the parity of the levels.
pub open spec fn is_negative(levels: Seq<i32>, nsigns: int, signs: int, k: int) -> bool {
    if k < nsigns {
        (signs / (pow2((nsigns - 1 - k) as nat) as int)) % 2 == 1
    } else {
        level_sum(levels) % 2 == 1
    }
}

/// The value of coefficient `k`: its level with its sign, confined to 16 bits.
pub open spec fn coeff_value(levels: Seq<i32>, nsigns: int, signs: int, k: int) -> i32 {
    let v = if is_negative(levels, nsigns, signs, k) {
        wrap32(-(levels[k] as int))
    } else {
        levels[k] as int
    };
    arith::clip3(-32768, 32767, v) as i32
}

/// The coefficients of a block and the rectangle that holds the non-zero ones.
pub struct Filled {
    pub coeffs: Seq<i32>,
    pub nz_w: int,
    pub nz_h: int,
}

impl Filled {
    /// Every coefficient fits 16 bits, and those outside the rectangle of an
    /// `n`×`n` block are zero.
    pub open spec fn wf(self, n: int) -> bool {
        &&& self.coeffs.len() == n * n
        &&& 0 <= self.nz_w <= n
        &&& 0 <= self.nz_h <= n
        &&& forall|i: int|
            #![trigger self.coeffs[i]]
            0 <= i < self.coeffs.len() ==> -32768 <= self.coeffs[i] <= 32767
        &&& forall|x: int, y: int|
            #![trigger self.coeffs[y * n + x]]
            0 <= x < n && 0 <= y < n && (x >= self.nz_w || y >= self.nz_h) ==> self.coeffs[y * n
                + x] == 0
    }
}

/// The first `k` coefficients of sub-block (`xs`, `ys`) put in their places.
pub open spec fn placed(
    f: Filled,
    b: Block,
    xs: int,
    ys: int,
    sig: Seq<u8>,
    levels: Seq<i32>,
    nsigns: int,
    signs: int,
    k: int,
) -> Filled
    decreases k,
{
    if k <= 0 {
        f
    } else {
        let g = placed(f, b, xs, ys, sig, levels, nsigns, signs, k - 1);
        let (xp, yp) = b.cell(sig[k - 1] as int);
        let xc = 4 * xs + xp;
        let yc = 4 * ys + yp;
        Filled {
            coeffs: g.coeffs.update(
                yc * b.n() + xc,
                coeff_value(levels, nsigns, signs, k - 1),
            ),
            nz_w: arith::max2(g.nz_w, xc + 1),
            nz_h: arith::max2(g.nz_h, yc + 1),
        }
    }
}

/// Negation in 32 bits.
fn negate(v: i32) -> (r: i32)
    ensures
        r == wrap32(-(v as int)),
{
    0i32.wrapping_sub(v)
}

/// The parity of a sum of levels.
fn odd_sum(levels: &Vec<i32>) -> (r: bool)
    ensures
        r == (level_sum(levels@) % 2 == 1),
{
    let mut odd = false;
    let mut k: usize = 0;
    assert(levels@.take(0) =~= Seq::empty());
    while k < levels.len()
        invariant
            k <= levels@.len(),
            odd == (level_sum(levels@.take(k as int)) % 2 == 1),
        decreases levels@.len() - k,
    {
        assert(levels@.take(k + 1).drop_last() =~= levels@.take(k as int));
        let v = levels[k] as i64;
        if v % 2 != 0 {
            odd = !odd;
        }
        k += 1;
    }
    assert(levels@.take(k as int) =~= levels@);
    odd
}

/// Puts the coefficients of a sub-block in their places.
fn place(
    b: &Block,
    n: usize,
    pos_scan: &Vec<(u8, u8)>,
    xs: usize,
    ys: usize,
    sig: &Vec<u8>,
    levels: &Vec<i32>,
    nsigns: usize,
    signs: u32,
    coeffs: &mut Vec<i32>,
    nz: (usize, usize),
) -> (r: (usize, usize))
    requires
        b.wf(),
        n == b.n(),
        tables::is_scan(pos_scan@, 4, b.scan_idx as int),
        xs < b.nsb(),
        ys < b.nsb(),
        sig@.len() == levels@.len() <= 16,
        sig@.len() - 1 <= nsigns <= sig@.len(),
        forall|i: int| #![trigger sig@[i]] 0 <= i < sig@.len() ==> sig@[i] < 16,
        (Filled { coeffs: old(coeffs)@, nz_w: nz.0 as int, nz_h: nz.1 as int }).wf(n as int),
    ensures
        (Filled { coeffs: final(coeffs)@, nz_w: r.0 as int, nz_h: r.1 as int }) == placed(
            Filled { coeffs: old(coeffs)@, nz_w: nz.0 as int, nz_h: nz.1 as int },
            *b,
            xs as int,
            ys as int,
            sig@,
            levels@,
            nsigns as int,
            signs as int,
            sig@.len() as int,
        ),
        (Filled { coeffs: final(coeffs)@, nz_w: r.0 as int, nz_h: r.1 as int }).wf(n as int),
{
    let ghost f0 = Filled { coeffs: coeffs@, nz_w: nz.0 as int, nz_h: nz.1 as int };
    let odd = odd_sum(levels);
    let mut nz_w = nz.0;
    let mut nz_h = nz.1;
    let mut k: usize = 0;
    while k < sig.len()
        invariant
            b.wf(),
            n == b.n(),
            tables::is_scan(pos_scan@, 4, b.scan_idx as int),
            xs < b.nsb(),
            ys < b.nsb(),
            k <= sig@.len(),
            sig@.len() == levels@.len() <= 16,
            sig@.len() - 1 <= nsigns <= sig@.len(),
            forall|i: int| #![trigger sig@[i]] 0 <= i < sig@.len() ==> sig@[i] < 16,
            odd == (level_sum(levels@) % 2 == 1),
            (Filled { coeffs: coeffs@, nz_w: nz_w as int, nz_h: nz_h as int }) == placed(
                f0,
                *b,
                xs as int,
                ys as int,
                sig@,
                levels@,
                nsigns as int,
                signs as int,
                k as int,
            ),
            (Filled { coeffs: coeffs@, nz_w: nz_w as int, nz_h: nz_h as int }).wf(n as int),
        decreases sig@.len() - k,
    {
        let p = sig[k] as usize;
        proof {
            lemma_scan_cell(pos_scan@, 4, b.scan_idx as int, p as int);
            lemma_block_size(*b);
        }
        let xc = 4 * xs + pos_scan[p].0 as usize;
        let yc = 4 * ys + pos_scan[p].1 as usize;
        let neg = if k < nsigns {
            (arith::shr_usize(signs as usize, nsigns - 1 - k)) % 2 == 1
        } else {
            odd
        };
        let a = levels[k];
        let v = if neg {
            negate(a)
        } else {
            a
        };
        proof {
            arith::lemma_flat_bound(xc as int, yc as int, n as int, n as int);
            assert(coeffs@.len() == coeffs.len());
        }
        nz_w = arith::max_usize(nz_w, xc + 1);
        nz_h = arith::max_usize(nz_h, yc + 1);
        let ghost before = coeffs@;
        coeffs[yc * n + xc] = arith::clip_i32(-32768, 32767, v);
        proof {
            assert forall|x: int, y: int|
                #![trigger coeffs@[y * n + x]]
                0 <= x < n && 0 <= y < n && (x >= nz_w || y >= nz_h) implies coeffs@[y * n + x]
                == 0 by {
                arith::lemma_flat_bound(x, y, n as int, n as int);
                if y * n + x == yc * n + xc {
                    arith::lemma_flat_inj(x, y, xc as int, yc as int, n as int);
                }
                assert(before[y * n + x] == 0);
            }
        }
        k += 1;
    }
    (nz_w, nz_h)
}

// ---- the sub-blocks of a transform block ----

/// The state of the sub-block loop.
#[verifier::reject_recursive_types(S)]
pub struct Progress<S> {
    pub s: S,
    /// The sub-blocks whose coded flag is set.
    pub coded: Set<(int, int)>,
    /// `greater1Ctx` at the end of the last sub-block that had levels.
    pub c1: int,
    pub fill: Filled,
}

/// Sub-block `i` of the scan read and placed.
pub open spec fn sub_block<B: BinDecoder>(b: Block, i: int, st: Progress<B::State>) -> (
    Progress<B::State>,
    Option<CodeError>,
) {
    let (xs, ys) = b.sub_cell(i);
    let right = st.coded.contains((xs + 1, ys));
    let below = st.coded.contains((xs, ys + 1));
    let flagged = 0 < i < b.last_sb;
    let (s1, coded) = if flagged {
        B::ctx_bin(
            st.s,
            CTX_CSBF + (if right || below {
                1int
            } else {
                0
            }) + (if b.c_idx == 0 {
                0int
            } else {
                2
            }),
        )
    } else {
        (st.s, true)
    };
    let coded_set = if coded {
        st.coded.insert((xs, ys))
    } else {
        st.coded.remove((xs, ys))
    };
    let sig0 = if i == b.last_sb {
        seq![b.last_pos as u8]
    } else {
        Seq::<u8>::empty()
    };
    let top = if i == b.last_sb {
        b.last_pos - 1
    } else {
        15
    };
    let (s2, sig) = if coded {
        sig_scan::<B>(s1, b, xs, ys, right, below, top, flagged, sig0)
    } else {
        (s1, sig0)
    };
    let st2 = Progress { s: s2, coded: coded_set, ..st };
    if sig.len() == 0 {
        (st2, None)
    } else {
        sub_block_levels::<B>(b, i, st2, xs, ys, sig)
    }
}

/// The levels of a sub-block with the significant positions `sig`.
pub open spec fn sub_block_levels<B: BinDecoder>(
    b: Block,
    i: int,
    st: Progress<B::State>,
    xs: int,
    ys: int,
    sig: Seq<u8>,
) -> (Progress<B::State>, Option<CodeError>) {
    let num = sig.len() as int;
    let set = ctx_set(b.c_idx as int, i, st.c1);
    let (s3, c1, gt1) = gt1_scan::<B>(
        st.s,
        gt1_base(b.c_idx as int) + 4 * set,
        arith::min2(num, 8),
        1,
        Seq::empty(),
    );
    let (s4, gt2) = if first_set(gt1) < gt1.len() {
        B::ctx_bin(s3, gt2_base(b.c_idx as int) + set)
    } else {
        (s3, false)
    };
    let nsigns = if b.hiding && sig[0] - sig.last() > 3 {
        num - 1
    } else {
        num
    };
    let (s5, signs) = cabac::raw_bits::<B>(s4, nsigns as nat);
    let (s6, r) = abs_scan::<B>(s5, gt1, gt2, num, 0, Seq::empty());
    match r {
        Err(e) => (Progress { s: s6, c1, ..st }, Some(e)),
        Ok(levels) => (
            Progress {
                s: s6,
                c1,
                fill: placed(st.fill, b, xs, ys, sig, levels, nsigns, signs, num),
                ..st
            },
            None,
        ),
    }
}

/// The sub-blocks from position `i` of the scan down to the first.
pub open spec fn sub_blocks<B: BinDecoder>(b: Block, i: int, st: Progress<B::State>) -> (
    Progress<B::State>,
    Option<CodeError>,
)
    decreases i + 1,
{
    if i < 0 {
        (st, None)
    } else {
        match sub_block::<B>(b, i, st) {
            (st1, Some(e)) => (st1, Some(e)),
            (st1, None) => sub_blocks::<B>(b, i - 1, st1),
        }
    }
}

/// The running state that the sub-block loop keeps.
struct Running {
    coded: [[bool; 8]; 8],
    c1: usize,
    coeffs: Vec<i32>,
    nz: (usize, usize),
}

impl Running {
    spec fn models(self, b: Block, coded: Set<(int, int)>, c1: int, fill: Filled) -> bool {
        &&& forall|x: int, y: int|
            #![trigger coded.contains((x, y))]
            coded.contains((x, y)) ==> 0 <= x < b.nsb() && 0 <= y < b.nsb()
        &&& forall|x: int, y: int|
            #![trigger self.coded@[x]@[y]]
            0 <= x < 8 && 0 <= y < 8 ==> self.coded@[x]@[y] == coded.contains((x, y))
        &&& self.c1 == c1
        &&& self.coeffs@ == fill.coeffs
        &&& self.nz.0 == fill.nz_w
        &&& self.nz.1 == fill.nz_h
        &&& fill.wf(b.n())
    }
}

/// Reads the levels of a sub-block and places them.
fn read_levels<B: BinDecoder>(
    cab: &mut B,
    b: &Block,
    i: usize,
    pos_scan: &Vec<(u8, u8)>,
    xs: usize,
    ys: usize,
    sig: &Vec<u8>,
    run: &mut Running,
    Ghost(st): Ghost<Progress<B::State>>,
) -> (r: core::result::Result<(), Error>)
    requires
        old(cab).ready(),
        b.wf(),
        tables::is_scan(pos_scan@, 4, b.scan_idx as int),
        xs < b.nsb(),
        ys < b.nsb(),
        1 <= sig@.len() <= 16,
        falling(sig@),
        forall|i: int| #![trigger sig@[i]] 0 <= i < sig@.len() ==> sig@[i] < 16,
        old(run).models(*b, st.coded, st.c1, st.fill),
        st.s == old(cab).state(),
    ensures
        final(cab).ready(),
        ({
            let (st1, e) = sub_block_levels::<B>(*b, i as int, st, xs as int, ys as int, sig@);
            &&& st1.s == final(cab).state()
            &&& match r {
                Ok(_) => e is None && final(run).models(*b, st1.coded, st1.c1, st1.fill),
                Err(err) => e matches Some(c) && err.says_invalid(code_error_text(c)),
            }
        }),
{
    let num = sig.len();
    let mut set: usize = if i == 0 || b.c_idx > 0 {
        0
    } else {
        2
    };
    if run.c1 == 0 {
        set += 1;
    }
    let g1: usize = if b.c_idx == 0 {
        CTX_GT1
    } else {
        CTX_GT1 + 16
    };
    let g2: usize = if b.c_idx == 0 {
        CTX_GT2
    } else {
        CTX_GT2 + 4
    };
    let (gt1, c1, first) = read_gt1(cab, g1 + 4 * set, arith::min_usize(num, 8));
    run.c1 = c1;
    let gt2 = if first < gt1.len() {
        cab.decode(g2 + set)
    } else {
        false
    };
    assert(sig@[num - 1] <= sig@[0]) by {
        if num > 1 {
            assert(sig@[num - 1] < sig@[0]);
        }
    }
    let hidden = b.hiding && sig[0] - sig[num - 1] > 3;
    let nsigns = if hidden {
        num - 1
    } else {
        num
    };
    let signs = cabac::bypass_bits(cab, nsigns as u32);
    match read_abs(cab, &gt1, first, gt2, num) {
        Err(e) => Err(e),
        Ok(levels) => {
            let n = arith::pow2_usize(b.log2);
            let nz = place(
                b,
                n,
                pos_scan,
                xs,
                ys,
                sig,
                &levels,
                nsigns,
                signs,
                &mut run.coeffs,
                run.nz,
            );
            run.nz = nz;
            Ok(())
        },
    }
}

/// Reads one sub-block and places its coefficients.
fn read_sub_block<B: BinDecoder>(
    cab: &mut B,
    b: &Block,
    i: usize,
    sb_scan: &Vec<(u8, u8)>,
    pos_scan: &Vec<(u8, u8)>,
    run: &mut Running,
    Ghost(st): Ghost<Progress<B::State>>,
) -> (r: core::result::Result<(), Error>)
    requires
        old(cab).ready(),
        b.wf(),
        i <= b.last_sb,
        tables::is_scan(sb_scan@, b.nsb(), b.scan_idx as int),
        tables::is_scan(pos_scan@, 4, b.scan_idx as int),
        old(run).models(*b, st.coded, st.c1, st.fill),
        st.s == old(cab).state(),
    ensures
        final(cab).ready(),
        ({
            let (st1, e) = sub_block::<B>(*b, i as int, st);
            &&& st1.s == final(cab).state()
            &&& match r {
                Ok(_) => e is None && final(run).models(*b, st1.coded, st1.c1, st1.fill),
                Err(err) => e matches Some(c) && err.says_invalid(code_error_text(c)),
            }
        }),
{
    proof {
        lemma_scan_cell(sb_scan@, b.nsb(), b.scan_idx as int, i as int);
        lemma_block_size(*b);
    }
    let nsb = arith::pow2_usize(b.log2 - 2);
    let (xs, ys) = (sb_scan[i].0 as usize, sb_scan[i].1 as usize);
    let ghost before = run.coded;
    assert(xs + 1 < 8 ==> before@[xs + 1]@[ys as int] == st.coded.contains((xs + 1, ys as int)));
    assert(ys + 1 < 8 ==> before@[xs as int]@[ys + 1] == st.coded.contains((xs as int, ys + 1)));
    let right = xs + 1 < nsb && run.coded[xs + 1][ys];
    let below = ys + 1 < nsb && run.coded[xs][ys + 1];
    let flagged = i < b.last_sb && i > 0;
    let coded = if flagged {
        let mut ctx: usize = CTX_CSBF;
        if right || below {
            ctx += 1;
        }
        if b.c_idx != 0 {
            ctx += 2;
        }
        cab.decode(ctx)
    } else {
        true
    };
    let ghost coded_set = if coded {
        st.coded.insert((xs as int, ys as int))
    } else {
        st.coded.remove((xs as int, ys as int))
    };
    run.coded[xs][ys] = coded;
    proof {
        assert forall|x: int, y: int|
            #![trigger run.coded@[x]@[y]]
            0 <= x < 8 && 0 <= y < 8 implies run.coded@[x]@[y] == coded_set.contains((x, y)) by {
            assert(before@[x]@[y] == st.coded.contains((x, y)));
            if x == xs && y == ys {
            } else {
                assert(run.coded@[x]@[y] == before@[x]@[y]);
            }
        }
    }
    let mut sig: Vec<u8> = Vec::new();
    let mut start: usize = 16;
    if i == b.last_sb {
        sig.push(b.last_pos as u8);
        start = b.last_pos;
    }
    assert(sig@ =~= (if i == b.last_sb {
        seq![b.last_pos as u8]
    } else {
        Seq::<u8>::empty()
    }));
    if coded {
        read_sig(cab, b, pos_scan, xs, ys, right, below, start, flagged, &mut sig);
    }
    if sig.len() == 0 {
        return Ok(());
    }
    let ghost st2 = Progress { s: cab.state(), coded: coded_set, ..st };
    read_levels(cab, b, i, pos_scan, xs, ys, &sig, run, Ghost(st2))
}

// ---- the block ----

/// A parsed transform block: its coefficients row by row, and the rectangle
/// outside which they are zero.
#[derive(Debug)]
pub struct ResidualBlock {
    pub transform_skip: bool,
    pub coeffs: Vec<i32>,
    pub nz_w: usize,
    pub nz_h: usize,
}

/// What residual coding reads of the parameter sets and the coding unit.
#[derive(Debug, Clone, Copy)]
pub struct ResidualParams {
    pub transform_skip_enabled: bool,
    pub log2_max_transform_skip_block_size: u8,
    pub sign_data_hiding_enabled: bool,
    pub cu_transquant_bypass: bool,
    pub cu_intra: bool,
}

impl ResidualParams {
    /// Whether `transform_skip_flag` is coded for a block of that size.
    pub open spec fn skip_coded(self, log2: int) -> bool {
        self.transform_skip_enabled && !self.cu_transquant_bypass && log2
            <= self.log2_max_transform_skip_block_size
    }
}

/// The sub-block loop of a block whose last significant position is (`x`, `y`)
/// in the scan's own orientation.
pub open spec fn block_at(
    p: ResidualParams,
    log2: int,
    c_idx: int,
    mode: int,
    last_x: int,
    last_y: int,
) -> Block {
    let scan_idx = scan_for(p.cu_intra, log2, c_idx, mode);
    let (x, y) = if scan_idx == 2 {
        (last_y, last_x)
    } else {
        (last_x, last_y)
    };
    let nsb = pow2((log2 - 2) as nat) as int;
    Block {
        log2: log2 as usize,
        c_idx: c_idx as usize,
        scan_idx: scan_idx as usize,
        last_sb: tables::scan_pos(nsb, scan_idx, x / 4, y / 4) as usize,
        last_pos: tables::scan_pos(4, scan_idx, x % 4, y % 4) as usize,
        hiding: p.sign_data_hiding_enabled && !p.cu_transquant_bypass,
    }
}

/// What a transform block's bins say.
#[verifier::reject_recursive_types(S)]
pub struct ParsedBlock<S> {
    pub s: S,
    pub transform_skip: bool,
    pub fill: Filled,
    /// Why the block was refused, if it was.
    pub error: Option<Seq<char>>,
}

/// A block with no coefficient yet.
pub open spec fn empty_fill(log2: int) -> Filled {
    let n = pow2(log2 as nat) as int;
    Filled { coeffs: Seq::new((n * n) as nat, |i: int| 0i32), nz_w: 0, nz_h: 0 }
}

/// The sub-block loop before its first sub-block.
pub open spec fn at_start<S>(s: S, log2: int) -> Progress<S> {
    Progress { s, coded: Set::empty(), c1: 1, fill: empty_fill(log2) }
}

/// §7.3.8.11: the transform block read from state `s`.
pub open spec fn parsed_block<B: BinDecoder>(
    s: B::State,
    p: ResidualParams,
    log2: int,
    c_idx: int,
    mode: int,
) -> ParsedBlock<B::State> {
    let (s1, skip) = if p.skip_coded(log2) {
        B::ctx_bin(s, CTX_TRANSFORM_SKIP + (if c_idx > 0 {
            1int
        } else {
            0
        }))
    } else {
        (s, false)
    };
    let n = pow2(log2 as nat) as int;
    let (s2, x, y) = last_position::<B>(s1, log2, c_idx);
    if x >= n || y >= n {
        ParsedBlock {
            s: s2,
            transform_skip: skip,
            fill: empty_fill(log2),
            error: Some("last significant coefficient outside the block"@),
        }
    } else {
        let b = block_at(p, log2, c_idx, mode, x, y);
        let (st, e) = sub_blocks::<B>(b, b.last_sb as int, at_start(s2, log2));
        ParsedBlock {
            s: st.s,
            transform_skip: skip,
            fill: st.fill,
            error: match e {
                Some(c) => Some(code_error_text(c)),
                None => None,
            },
        }
    }
}

/// Reads the sub-blocks of a block from the last significant one down.
fn read_coefficients<B: BinDecoder>(
    cab: &mut B,
    b: &Block,
    sb_scan: &Vec<(u8, u8)>,
    pos_scan: &Vec<(u8, u8)>,
) -> (r: core::result::Result<Running, Error>)
    requires
        old(cab).ready(),
        b.wf(),
        tables::is_scan(sb_scan@, b.nsb(), b.scan_idx as int),
        tables::is_scan(pos_scan@, 4, b.scan_idx as int),
    ensures
        final(cab).ready(),
        ({
            let (end, e) = sub_blocks::<B>(
                *b,
                b.last_sb as int,
                at_start(old(cab).state(), b.log2 as int),
            );
            &&& end.s == final(cab).state()
            &&& match r {
                Ok(run) => e is None && run.models(*b, end.coded, end.c1, end.fill),
                Err(err) => e matches Some(c) && err.says_invalid(code_error_text(c)),
            }
        }),
{
    let n = arith::pow2_usize(b.log2);
    proof {
        arith::lemma_pow2_le(b.log2 as nat, 5);
        lemma2_to64();
        assert(0 <= n * n <= 32 * 32) by (nonlinear_arith)
            requires
                0 <= n <= 32,
        ;
        assert(sb_scan@.len() == sb_scan.len());
    }
    let mut run = Running { coded: [[false; 8]; 8], c1: 1, coeffs: vec![0i32; n * n], nz: (0, 0) };
    let ghost st0 = at_start(cab.state(), b.log2 as int);
    proof {
        assert(run.coeffs@ =~= st0.fill.coeffs);
        assert forall|x: int, y: int|
            #![trigger st0.fill.coeffs[y * n + x]]
            0 <= x < n && 0 <= y < n implies st0.fill.coeffs[y * n + x] == 0 by {
            arith::lemma_flat_bound(x, y, n as int, n as int);
        }
    }
    let ghost mut st = st0;
    let mut i: usize = b.last_sb + 1;
    while i > 0
        invariant
            cab.ready(),
            b.wf(),
            i <= b.last_sb + 1,
            tables::is_scan(sb_scan@, b.nsb(), b.scan_idx as int),
            tables::is_scan(pos_scan@, 4, b.scan_idx as int),
            run.models(*b, st.coded, st.c1, st.fill),
            st.s == cab.state(),
            st0 == at_start(old(cab).state(), b.log2 as int),
            sub_blocks::<B>(*b, b.last_sb as int, st0) == sub_blocks::<B>(*b, i - 1, st),
        decreases i,
    {
        let ghost next = sub_block::<B>(*b, i - 1, st);
        match read_sub_block(cab, b, i - 1, sb_scan, pos_scan, &mut run, Ghost(st)) {
            Err(e) => {
                return Err(e);
            },
            Ok(_) => {},
        }
        proof {
            st = next.0;
        }
        i -= 1;
    }
    Ok(run)
}

/// Reads the last significant position.
fn read_last_position<B: BinDecoder>(cab: &mut B, log2: usize, c_idx: usize) -> (r: (usize, usize))
    requires
        old(cab).ready(),
        2 <= log2 <= 5,
    ensures
        final(cab).ready(),
        last_position::<B>(old(cab).state(), log2 as int, c_idx as int) == (
            final(cab).state(),
            r.0 as int,
            r.1 as int,
        ),
{
    let px = read_last_prefix(cab, CTX_LAST_X_PREFIX, log2, c_idx);
    let py = read_last_prefix(cab, CTX_LAST_Y_PREFIX, log2, c_idx);
    let x = read_last_coord(cab, px);
    let y = read_last_coord(cab, py);
    (x, y)
}

/// The scans of a block, and where its last significant position stands in
/// them.
fn scan_block(
    p: &ResidualParams,
    log2: usize,
    c_idx: usize,
    mode: u8,
    last_x: usize,
    last_y: usize,
) -> (r: (Block, Vec<(u8, u8)>, Vec<(u8, u8)>))
    requires
        2 <= log2 <= 5,
        c_idx <= 2,
        last_x < pow2(log2 as nat),
        last_y < pow2(log2 as nat),
    ensures
        r.0 == block_at(
            *p,
            log2 as int,
            c_idx as int,
            mode as int,
            last_x as int,
            last_y as int,
        ),
        r.0.wf(),
        r.0.log2 == log2,
        tables::is_scan(r.1@, r.0.nsb(), r.0.scan_idx as int),
        tables::is_scan(r.2@, 4, r.0.scan_idx as int),
{
    let scan_idx = scan_choice(p.cu_intra, log2, c_idx, mode);
    let (x, y) = if scan_idx == 2 {
        (last_y, last_x)
    } else {
        (last_x, last_y)
    };
    let nsb = arith::pow2_usize(log2 - 2);
    let sb_scan = tables::scan_order(log2 - 2, scan_idx);
    let pos_scan = tables::scan_order(2, scan_idx);
    proof {
        lemma_block_size(
            Block { log2, c_idx, scan_idx, last_sb: 0, last_pos: 0, hiding: false },
        );
    }
    let last_sb = find_cell(&sb_scan, nsb, scan_idx, x / 4, y / 4);
    let last_pos = find_cell(&pos_scan, 4, scan_idx, x % 4, y % 4);
    let b = Block {
        log2,
        c_idx,
        scan_idx,
        last_sb,
        last_pos,
        hiding: p.sign_data_hiding_enabled && !p.cu_transquant_bypass,
    };
    (b, sb_scan, pos_scan)
}

/// Reads the coefficients of a transform block of component `c_idx`.
pub fn residual_block<B: BinDecoder>(
    cab: &mut B,
    p: &ResidualParams,
    log2: usize,
    c_idx: usize,
    mode: u8,
) -> (r: core::result::Result<ResidualBlock, Error>)
    requires
        old(cab).ready(),
        2 <= log2 <= 5,
        c_idx <= 2,
    ensures
        final(cab).ready(),
        ({
            let q = parsed_block::<B>(
                old(cab).state(),
                *p,
                log2 as int,
                c_idx as int,
                mode as int,
            );
            &&& q.s == final(cab).state()
            &&& match r {
                Ok(blk) => {
                    &&& q.error is None
                    &&& blk.transform_skip == q.transform_skip
                    &&& blk.coeffs@ == q.fill.coeffs
                    &&& blk.nz_w == q.fill.nz_w
                    &&& blk.nz_h == q.fill.nz_h
                    &&& q.fill.wf(pow2(log2 as nat) as int)
                },
                Err(e) => q.error matches Some(text) && e.says_invalid(text),
            }
        }),
{
    let mut transform_skip = false;
    if p.transform_skip_enabled && !p.cu_transquant_bypass && log2
        <= p.log2_max_transform_skip_block_size as usize {
        let ctx: usize = if c_idx > 0 {
            CTX_TRANSFORM_SKIP + 1
        } else {
            CTX_TRANSFORM_SKIP
        };
        transform_skip = cab.decode(ctx);
    }
    let (last_x, last_y) = read_last_position(cab, log2, c_idx);
    let n = arith::pow2_usize(log2);
    if last_x >= n || last_y >= n {
        return Err(Error::invalid("last significant coefficient outside the block"));
    }
    let (b, sb_scan, pos_scan) = scan_block(p, log2, c_idx, mode, last_x, last_y);
    match read_coefficients(cab, &b, &sb_scan, &pos_scan) {
        Err(e) => Err(e),
        Ok(run) => Ok(
            ResidualBlock {
                transform_skip,
                coeffs: run.coeffs,
                nz_w: run.nz.0,
                nz_h: run.nz.1,
            },
        ),
    }
}

} // verus!
