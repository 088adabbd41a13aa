//! Picture order count (§8.3.1) and the reference picture set (§8.3.2).

use crate::arith;
use crate::slice::{LongTermRef, SliceHeader};
use vstd::arithmetic::power2::*;
use vstd::prelude::*;

verus! {

// ---- picture order count ----

/// The least significant part of a picture order count.
pub open spec fn lsb_of(poc: int, max_lsb: int) -> int {
    poc % max_lsb
}

/// `PicOrderCntVal` from the coded least significant bits and the previous
/// TemporalId-0 picture: the value closest to it. An IRAP picture that starts
/// a sequence counts from 0.
#[verifier::opaque]
pub open spec fn poc_value(starts: bool, prev: int, lsb: int, max_lsb: int) -> int {
    let prev_lsb = lsb_of(prev, max_lsb);
    let prev_msb = prev - prev_lsb;
    let msb = if starts {
        0
    } else if lsb < prev_lsb && prev_lsb - lsb >= max_lsb / 2 {
        prev_msb + max_lsb
    } else if lsb > prev_lsb && lsb - prev_lsb > max_lsb / 2 {
        prev_msb - max_lsb
    } else {
        prev_msb
    };
    msb + lsb
}

/// The low `k` bits of a picture order count.
pub fn low_bits(poc: i32, k: u8) -> (r: i32)
    requires
        k <= 16,
    ensures
        r == lsb_of(poc as int, pow2(k as nat) as int),
        0 <= r < pow2(k as nat) <= 0x1_0000,
{
    let high = arith::asr(poc, k as u32) as i64;
    let unit = arith::pow2_i32(k as u32) as i64;
    proof {
        lemma_pow2_pos(k as nat);
        arith::lemma_pow2_le(k as nat, 16);
        lemma2_to64();
        let m = pow2(k as nat) as int;
        vstd::arithmetic::div_mod::lemma_fundamental_div_mod(poc as int, m);
        vstd::arithmetic::mul::lemma_mul_is_commutative(m, poc as int / m);
        assert(-0x8000_0000 * 0x1_0000 <= high * unit <= 0x8000_0000 * 0x1_0000) by (nonlinear_arith)
            requires
                -0x8000_0000 <= high <= 0x7fff_ffff,
                1 <= unit <= 0x1_0000,
        ;
    }
    (poc as i64 - high * unit) as i32
}

/// A count that a picture can have.
pub open spec fn fits(poc: int) -> bool {
    i32::MIN <= poc <= i32::MAX
}

/// The decoded picture order count, which may leave the range of counts.
pub fn wide_poc(starts: bool, prev: i32, lsb: u32, log2_max: u8) -> (r: i64)
    requires
        log2_max <= 16,
    ensures
        r == poc_value(starts, prev as int, lsb as int, pow2(log2_max as nat) as int),
{
    reveal(poc_value);
    let max = arith::pow2_i32(log2_max as u32) as i64;
    let prev_lsb = low_bits(prev, log2_max) as i64;
    let prev_msb = prev as i64 - prev_lsb;
    let lsb = lsb as i64;
    let msb = if starts {
        0
    } else if lsb < prev_lsb && prev_lsb - lsb >= max / 2 {
        prev_msb + max
    } else if lsb > prev_lsb && lsb - prev_lsb > max / 2 {
        prev_msb - max
    } else {
        prev_msb
    };
    msb + lsb
}

/// The decoded picture order count of a picture.
pub fn picture_poc(starts: bool, prev: i32, lsb: u32, log2_max: u8) -> (r: i32)
    requires
        log2_max <= 16,
        fits(poc_value(starts, prev as int, lsb as int, pow2(log2_max as nat) as int)),
    ensures
        r == poc_value(starts, prev as int, lsb as int, pow2(log2_max as nat) as int),
{
    wide_poc(starts, prev, lsb, log2_max) as i32
}

/// §8.3.1: the decoded count has the coded low bits.
pub proof fn lemma_poc_has_lsb(starts: bool, prev: int, lsb: int, max_lsb: int)
    requires
        0 < max_lsb,
        0 <= lsb < max_lsb,
    ensures
        lsb_of(poc_value(starts, prev, lsb, max_lsb), max_lsb) == lsb,
{
    reveal(poc_value);
    let q = prev / max_lsb;
    vstd::arithmetic::div_mod::lemma_fundamental_div_mod(prev, max_lsb);
    let p = poc_value(starts, prev, lsb, max_lsb);
    let m = if starts {
        0
    } else if p == prev - prev % max_lsb + max_lsb + lsb {
        q + 1
    } else if p == prev - prev % max_lsb - max_lsb + lsb {
        q - 1
    } else {
        q
    };
    assert(p == max_lsb * m + lsb) by (nonlinear_arith)
        requires
            prev == max_lsb * q + prev % max_lsb,
            m == 0 && p == lsb || m == q + 1 && p == prev - prev % max_lsb + max_lsb + lsb || m == q
                - 1 && p == prev - prev % max_lsb - max_lsb + lsb || m == q && p == prev - prev
                % max_lsb + lsb,
    ;
    vstd::arithmetic::div_mod::lemma_fundamental_div_mod_converse(p, max_lsb, m, lsb);
}

/// §8.3.1: inside a sequence the decoded count is the one with those low bits
/// within half a period of the previous picture's, forward of it where two are
/// equally near.
pub proof fn lemma_poc_is_near(prev: int, lsb: int, max_lsb: int)
    requires
        0 < max_lsb,
        max_lsb % 2 == 0,
        0 <= lsb < max_lsb,
    ensures
        -(max_lsb / 2) < poc_value(false, prev, lsb, max_lsb) - prev <= max_lsb / 2,
{
    reveal(poc_value);
}

// ---- the reference picture set ----

/// The POC lists of a picture's reference picture set. Long-term entries carry
/// their `delta_poc_msb_present_flag`; without it only the low bits count.
#[verifier::ext_equal]
pub struct RpsView {
    pub before: Seq<i32>,
    pub after: Seq<i32>,
    pub foll: Seq<i32>,
    pub lt_curr: Seq<(i32, bool)>,
    pub lt_foll: Seq<(i32, bool)>,
}

/// The counts of a short-term list whose `used_by_curr_pic` flag is `used`.
pub open spec fn st_pocs(list: Seq<(i32, bool)>, poc: int, used: bool) -> Seq<i32>
    decreases list.len(),
{
    if list.len() == 0 {
        Seq::empty()
    } else {
        let rest = st_pocs(list.drop_last(), poc, used);
        if list.last().1 == used {
            rest.push((poc + list.last().0) as i32)
        } else {
            rest
        }
    }
}

/// The count of a long-term picture (7-52): its low bits, with the high bits
/// of the current picture less the coded cycles where they are present.
pub open spec fn lt_poc(lt: LongTermRef, poc: int, max_lsb: int) -> int {
    if lt.delta_poc_msb_present {
        lt.poc_lsb + poc - lt.delta_poc_msb_cycle * max_lsb - lsb_of(poc, max_lsb)
    } else {
        lt.poc_lsb as int
    }
}

/// The long-term pictures whose `used_by_curr_pic` flag is `used`.
pub open spec fn lt_pocs(list: Seq<LongTermRef>, poc: int, max_lsb: int, used: bool) -> Seq<
    (i32, bool),
>
    decreases list.len(),
{
    if list.len() == 0 {
        Seq::empty()
    } else {
        let rest = lt_pocs(list.drop_last(), poc, max_lsb, used);
        let lt = list.last();
        if lt.used_by_curr_pic == used {
            rest.push((lt_poc(lt, poc, max_lsb) as i32, lt.delta_poc_msb_present))
        } else {
            rest
        }
    }
}

/// §8.3.2 (8-5): the reference picture set of a slice's picture.
pub open spec fn rps_of(sh: SliceHeader, poc: int, max_lsb: int) -> RpsView {
    RpsView {
        before: st_pocs(sh.st_rps.neg@, poc, true),
        after: st_pocs(sh.st_rps.pos@, poc, true),
        foll: st_pocs(sh.st_rps.neg@, poc, false) + st_pocs(sh.st_rps.pos@, poc, false),
        lt_curr: lt_pocs(sh.long_term@, poc, max_lsb, true),
        lt_foll: lt_pocs(sh.long_term@, poc, max_lsb, false),
    }
}

impl SliceHeader {
    /// The ranges that the slice header syntax guarantees (§7.4.7.1), for the
    /// given number of picture order count bits.
    pub open spec fn wf(self, log2_max: int) -> bool {
        &&& self.poc_lsb < pow2(log2_max as nat)
        &&& self.st_rps.neg@.len() <= 64
        &&& self.st_rps.pos@.len() <= 64
        &&& self.long_term@.len() <= 64
        &&& self.segment_address <= i32::MAX
    }

    /// Every reference of a picture with that count has a count itself.
    pub open spec fn refs_fit(self, poc: int, max_lsb: int) -> bool {
        &&& deltas_fit(self.st_rps.neg@, poc)
        &&& deltas_fit(self.st_rps.pos@, poc)
        &&& forall|i: int|
            #![trigger self.long_term@[i]]
            0 <= i < self.long_term@.len() ==> fits(lt_poc(self.long_term@[i], poc, max_lsb))
    }
}

/// Every entry of a short-term list has a count.
pub open spec fn deltas_fit(list: Seq<(i32, bool)>, poc: int) -> bool {
    forall|i: int| #![trigger list[i]] 0 <= i < list.len() ==> fits(poc + list[i].0)
}

/// The reference picture set as lists.
#[derive(Debug)]
pub struct Rps {
    pub before: Vec<i32>,
    pub after: Vec<i32>,
    pub foll: Vec<i32>,
    pub lt_curr: Vec<(i32, bool)>,
    pub lt_foll: Vec<(i32, bool)>,
}

impl View for Rps {
    type V = RpsView;

    open spec fn view(&self) -> RpsView {
        RpsView {
            before: self.before@,
            after: self.after@,
            foll: self.foll@,
            lt_curr: self.lt_curr@,
            lt_foll: self.lt_foll@,
        }
    }
}

/// Splits a short-term list into the pictures the current one uses and those
/// it keeps for later.
fn split_short_term(list: &Vec<(i32, bool)>, poc: i32, used: &mut Vec<i32>, kept: &mut Vec<i32>)
    requires
        deltas_fit(list@, poc as int),
    ensures
        final(used)@ == old(used)@ + st_pocs(list@, poc as int, true),
        final(kept)@ == old(kept)@ + st_pocs(list@, poc as int, false),
{
    let ghost u0 = used@;
    let ghost k0 = kept@;
    let mut i: usize = 0;
    proof {
        assert(list@.take(0) =~= Seq::<(i32, bool)>::empty());
        assert(used@ =~= u0 + st_pocs(list@.take(0), poc as int, true));
        assert(kept@ =~= k0 + st_pocs(list@.take(0), poc as int, false));
    }
    while i < list.len()
        invariant
            i <= list@.len(),
            deltas_fit(list@, poc as int),
            used@ == u0 + st_pocs(list@.take(i as int), poc as int, true),
            kept@ == k0 + st_pocs(list@.take(i as int), poc as int, false),
        decreases list@.len() - i,
    {
        let (d, flag) = list[i];
        proof {
            assert(list@.take(i + 1).drop_last() =~= list@.take(i as int));
            assert(list@.take(i + 1).last() == list@[i as int]);
        }
        if flag {
            used.push(poc + d);
        } else {
            kept.push(poc + d);
        }
        i += 1;
        assert(used@ =~= u0 + st_pocs(list@.take(i as int), poc as int, true));
        assert(kept@ =~= k0 + st_pocs(list@.take(i as int), poc as int, false));
    }
    assert(list@.take(i as int) =~= list@);
}

/// The count of a long-term picture, which may leave the range of counts.
pub fn wide_long_term_poc(lt: &LongTermRef, poc: i32, log2_max: u8) -> (p: i64)
    requires
        log2_max <= 16,
    ensures
        p == lt_poc(*lt, poc as int, pow2(log2_max as nat) as int),
{
    let low = low_bits(poc, log2_max) as i64;
    let p = lt.poc_lsb as i64;
    if lt.delta_poc_msb_present {
        let max = arith::pow2_i32(log2_max as u32) as i64;
        let cycle = lt.delta_poc_msb_cycle as i64;
        proof {
            arith::lemma_pow2_le(log2_max as nat, 16);
            lemma2_to64();
            assert(0 <= cycle * max <= 0x1_0000_0000_0000) by (nonlinear_arith)
                requires
                    0 <= cycle <= 0xffff_ffff,
                    1 <= max <= 0x1_0000,
            ;
        }
        p + poc as i64 - cycle * max - low
    } else {
        p
    }
}

/// §8.3.2: derives the reference picture set.
pub fn derive_rps(log2_max: u8, sh: &SliceHeader, poc: i32) -> (r: Rps)
    requires
        log2_max <= 16,
        sh.refs_fit(poc as int, pow2(log2_max as nat) as int),
    ensures
        r@ == rps_of(*sh, poc as int, pow2(log2_max as nat) as int),
{
    let ghost max = pow2(log2_max as nat) as int;
    let mut before: Vec<i32> = Vec::new();
    let mut after: Vec<i32> = Vec::new();
    let mut foll: Vec<i32> = Vec::new();
    split_short_term(&sh.st_rps.neg, poc, &mut before, &mut foll);
    split_short_term(&sh.st_rps.pos, poc, &mut after, &mut foll);
    let mut lt_curr: Vec<(i32, bool)> = Vec::new();
    let mut lt_foll: Vec<(i32, bool)> = Vec::new();
    let mut i: usize = 0;
    proof {
        assert(sh.long_term@.take(0) =~= Seq::<LongTermRef>::empty());
        assert(lt_curr@ =~= lt_pocs(sh.long_term@.take(0), poc as int, max, true));
        assert(lt_foll@ =~= lt_pocs(sh.long_term@.take(0), poc as int, max, false));
    }
    while i < sh.long_term.len()
        invariant
            i <= sh.long_term@.len(),
            log2_max <= 16,
            max == pow2(log2_max as nat),
            sh.refs_fit(poc as int, max),
            lt_curr@ == lt_pocs(sh.long_term@.take(i as int), poc as int, max, true),
            lt_foll@ == lt_pocs(sh.long_term@.take(i as int), poc as int, max, false),
        decreases sh.long_term@.len() - i,
    {
        let lt = sh.long_term[i];
        proof {
            assert(sh.long_term@.take(i + 1).drop_last() =~= sh.long_term@.take(i as int));
            assert(sh.long_term@.take(i + 1).last() == lt);
        }
        let p = wide_long_term_poc(&lt, poc, log2_max) as i32;
        if lt.used_by_curr_pic {
            lt_curr.push((p, lt.delta_poc_msb_present));
        } else {
            lt_foll.push((p, lt.delta_poc_msb_present));
        }
        i += 1;
    }
    let r = Rps { before, after, foll, lt_curr, lt_foll };
    proof {
        assert(sh.long_term@.take(i as int) =~= sh.long_term@);
        assert(r@ =~= rps_of(*sh, poc as int, max));
    }
    r
}

/// §8.3.2: every entry of the slice header's sets lands in exactly one list.
pub proof fn lemma_rps_sizes(sh: SliceHeader, poc: int, max_lsb: int)
    ensures
        ({
            let r = rps_of(sh, poc, max_lsb);
            &&& r.before.len() + r.after.len() + r.foll.len() == sh.st_rps.neg@.len()
                + sh.st_rps.pos@.len()
            &&& r.lt_curr.len() + r.lt_foll.len() == sh.long_term@.len()
        }),
{
    lemma_st_sizes(sh.st_rps.neg@, poc);
    lemma_st_sizes(sh.st_rps.pos@, poc);
    lemma_lt_sizes(sh.long_term@, poc, max_lsb);
}

proof fn lemma_st_sizes(list: Seq<(i32, bool)>, poc: int)
    ensures
        st_pocs(list, poc, true).len() + st_pocs(list, poc, false).len() == list.len(),
    decreases list.len(),
{
    if list.len() > 0 {
        lemma_st_sizes(list.drop_last(), poc);
    }
}

proof fn lemma_lt_sizes(list: Seq<LongTermRef>, poc: int, max_lsb: int)
    ensures
        lt_pocs(list, poc, max_lsb, true).len() + lt_pocs(list, poc, max_lsb, false).len()
            == list.len(),
    decreases list.len(),
{
    if list.len() > 0 {
        lemma_lt_sizes(list.drop_last(), poc, max_lsb);
    }
}

/// The entries of a short-term list that the current picture uses.
pub open spec fn used_short(list: Seq<(i32, bool)>) -> nat
    decreases list.len(),
{
    if list.len() == 0 {
        0
    } else {
        used_short(list.drop_last()) + (if list.last().1 {
            1nat
        } else {
            0nat
        })
    }
}

/// The long-term entries that the current picture uses.
pub open spec fn used_long(list: Seq<LongTermRef>) -> nat
    decreases list.len(),
{
    if list.len() == 0 {
        0
    } else {
        used_long(list.drop_last()) + (if list.last().used_by_curr_pic {
            1nat
        } else {
            0nat
        })
    }
}

/// The references that the current picture uses (`NumPicTotalCurr`).
pub open spec fn used_refs(sh: SliceHeader) -> nat {
    used_short(sh.st_rps.neg@) + used_short(sh.st_rps.pos@) + used_long(sh.long_term@)
}

/// The number of references used does not depend on the picture order count.
pub proof fn lemma_used_refs(sh: SliceHeader, poc: int, max_lsb: int)
    ensures
        ({
            let r = rps_of(sh, poc, max_lsb);
            r.before.len() + r.after.len() + r.lt_curr.len() == used_refs(sh)
        }),
{
    lemma_used_short(sh.st_rps.neg@, poc);
    lemma_used_short(sh.st_rps.pos@, poc);
    lemma_used_long(sh.long_term@, poc, max_lsb);
}

proof fn lemma_used_short(list: Seq<(i32, bool)>, poc: int)
    ensures
        st_pocs(list, poc, true).len() == used_short(list),
    decreases list.len(),
{
    if list.len() > 0 {
        lemma_used_short(list.drop_last(), poc);
    }
}

proof fn lemma_used_long(list: Seq<LongTermRef>, poc: int, max_lsb: int)
    ensures
        lt_pocs(list, poc, max_lsb, true).len() == used_long(list),
    decreases list.len(),
{
    if list.len() > 0 {
        lemma_used_long(list.drop_last(), poc, max_lsb);
    }
}

} // verus!
