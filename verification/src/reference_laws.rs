//! Which pictures a slice refers to: the reference picture set (§8.3.2), its
//! marking, and the reference picture lists (§8.3.4).

use crate::dpb;
use crate::dpb::{RefMark, Slot};
use crate::frame::PlaneView;
use crate::ps::{Sps, SubLayerOrder};
use crate::reflists;
use crate::reflists::RefView;
use crate::rps;
use crate::rps::RpsView;
use crate::slice::{LongTermRef, SliceHeader, SliceType};
use vstd::arithmetic::div_mod::*;
use vstd::arithmetic::power2::*;
use vstd::prelude::*;

verus! {

// ---- picture order count ----

/// A picture that starts a sequence counts from 0: its count is what is coded.
pub proof fn lemma_poc_starts(prev: int, lsb: int, max_lsb: int)
    ensures
        rps::poc_value(true, prev, lsb, max_lsb) == lsb,
{
    reveal(rps::poc_value);
}

// ---- the reference picture set ----

/// The entries before the `i`-th whose flag is `used`.
pub open spec fn before_short(list: Seq<(i32, bool)>, used: bool, i: int) -> nat
    decreases i,
{
    if i <= 0 {
        0
    } else {
        before_short(list, used, i - 1) + if list[i - 1].1 == used {
            1nat
        } else {
            0
        }
    }
}

pub open spec fn before_long(list: Seq<LongTermRef>, used: bool, i: int) -> nat
    decreases i,
{
    if i <= 0 {
        0
    } else {
        before_long(list, used, i - 1) + if list[i - 1].used_by_curr_pic == used {
            1nat
        } else {
            0
        }
    }
}

proof fn lemma_before_short_kept(a: Seq<(i32, bool)>, b: Seq<(i32, bool)>, used: bool, i: int)
    requires
        i <= a.len(),
        i <= b.len(),
        forall|j: int| #![trigger a[j]] 0 <= j < i ==> a[j] == b[j],
    ensures
        before_short(a, used, i) == before_short(b, used, i),
    decreases i,
{
    if i > 0 {
        lemma_before_short_kept(a, b, used, i - 1);
        assert(a[i - 1] == b[i - 1]);
    }
}

proof fn lemma_before_long_kept(a: Seq<LongTermRef>, b: Seq<LongTermRef>, used: bool, i: int)
    requires
        i <= a.len(),
        i <= b.len(),
        forall|j: int| #![trigger a[j]] 0 <= j < i ==> a[j] == b[j],
    ensures
        before_long(a, used, i) == before_long(b, used, i),
    decreases i,
{
    if i > 0 {
        lemma_before_long_kept(a, b, used, i - 1);
        assert(a[i - 1] == b[i - 1]);
    }
}

proof fn lemma_st_pocs(list: Seq<(i32, bool)>, poc: int, used: bool, i: int)
    requires
        0 <= i <= list.len(),
        rps::deltas_fit(list, poc),
    ensures
        rps::st_pocs(list, poc, used).len() == before_short(list, used, list.len() as int),
        before_short(list, used, i) <= rps::st_pocs(list, poc, used).len(),
        i < list.len() && list[i].1 == used ==> before_short(list, used, i) < rps::st_pocs(
            list,
            poc,
            used,
        ).len() && rps::st_pocs(list, poc, used)[before_short(list, used, i) as int] == poc
            + list[i].0,
    decreases list.len(),
{
    if list.len() > 0 {
        let rest = list.drop_last();
        let n = list.len() - 1;
        assert forall|j: int| #![trigger rest[j]] 0 <= j < rest.len() implies rps::fits(
            poc + rest[j].0,
        ) by {
            assert(rest[j] == list[j]);
        }
        lemma_before_short_kept(list, rest, used, n);
        assert(rps::fits(poc + list[n].0));
        if i <= n {
            lemma_st_pocs(rest, poc, used, i);
            lemma_before_short_kept(list, rest, used, i);
        } else {
            lemma_st_pocs(rest, poc, used, n);
        }
    }
}

/// Each short-term entry of the slice header stands in the set at its distance
/// from the picture, in the order of the header: the earlier pictures that are
/// used, the later ones that are used, and apart from them those that are only
/// kept, earlier ones first.
pub proof fn lemma_short_term_sets(sh: SliceHeader, poc: int, max_lsb: int, i: int)
    requires
        sh.refs_fit(poc, max_lsb),
        0 <= i,
    ensures
        ({
            let r = rps::rps_of(sh, poc, max_lsb);
            let (neg, pos) = (sh.st_rps.neg@, sh.st_rps.pos@);
            let (nu, nk) = (before_short(neg, true, i) as int, before_short(neg, false, i) as int);
            let (pu, pk) = (before_short(pos, true, i) as int, before_short(pos, false, i) as int);
            let kept = before_short(neg, false, neg.len() as int);
            &&& i < neg.len() && neg[i].1 ==> nu < r.before.len() && r.before[nu] - poc == neg[i].0
            &&& i < neg.len() && !neg[i].1 ==> nk < r.foll.len() && r.foll[nk] - poc == neg[i].0
            &&& i < pos.len() && pos[i].1 ==> pu < r.after.len() && r.after[pu] - poc == pos[i].0
            &&& i < pos.len() && !pos[i].1 ==> kept + pk < r.foll.len() && r.foll[kept + pk] - poc
                == pos[i].0
            &&& r.before.len() == before_short(neg, true, neg.len() as int)
            &&& r.after.len() == before_short(pos, true, pos.len() as int)
        }),
{
    let (neg, pos) = (sh.st_rps.neg@, sh.st_rps.pos@);
    lemma_st_pocs(neg, poc, true, 0);
    lemma_st_pocs(neg, poc, false, 0);
    lemma_st_pocs(pos, poc, true, 0);
    lemma_st_pocs(pos, poc, false, 0);
    if i < neg.len() {
        lemma_st_pocs(neg, poc, true, i);
        lemma_st_pocs(neg, poc, false, i);
    }
    if i < pos.len() {
        lemma_st_pocs(pos, poc, true, i);
        lemma_st_pocs(pos, poc, false, i);
    }
}

proof fn lemma_lt_pocs(list: Seq<LongTermRef>, poc: int, max_lsb: int, used: bool, i: int)
    requires
        0 <= i <= list.len(),
        forall|j: int|
            #![trigger list[j]]
            0 <= j < list.len() ==> rps::fits(rps::lt_poc(list[j], poc, max_lsb)),
    ensures
        rps::lt_pocs(list, poc, max_lsb, used).len() == before_long(list, used, list.len() as int),
        before_long(list, used, i) <= rps::lt_pocs(list, poc, max_lsb, used).len(),
        i < list.len() && list[i].used_by_curr_pic == used ==> ({
            let k = before_long(list, used, i) as int;
            let l = rps::lt_pocs(list, poc, max_lsb, used);
            k < l.len() && l[k].0 == rps::lt_poc(list[i], poc, max_lsb) && l[k].1
                == list[i].delta_poc_msb_present
        }),
    decreases list.len(),
{
    if list.len() > 0 {
        let rest = list.drop_last();
        let n = list.len() - 1;
        assert forall|j: int| #![trigger rest[j]] 0 <= j < rest.len() implies rps::fits(
            rps::lt_poc(rest[j], poc, max_lsb),
        ) by {
            assert(rest[j] == list[j]);
        }
        lemma_before_long_kept(list, rest, used, n);
        assert(rps::fits(rps::lt_poc(list[n], poc, max_lsb)));
        if i <= n {
            lemma_lt_pocs(rest, poc, max_lsb, used, i);
            lemma_before_long_kept(list, rest, used, i);
        } else {
            lemma_lt_pocs(rest, poc, max_lsb, used, n);
        }
    }
}

/// Each long-term entry stands in the set, in the order of the header, with the
/// low bits that are coded. Where its high bits are told, they are those of the
/// picture less the coded number of cycles; where not, the count is the low bits
/// alone.
pub proof fn lemma_long_term_sets(sh: SliceHeader, poc: int, max_lsb: int, i: int)
    requires
        sh.refs_fit(poc, max_lsb),
        0 < max_lsb,
        0 <= i < sh.long_term@.len(),
        sh.long_term@[i].poc_lsb < max_lsb,
    ensures
        ({
            let r = rps::rps_of(sh, poc, max_lsb);
            let lt = sh.long_term@[i];
            let k = before_long(sh.long_term@, lt.used_by_curr_pic, i) as int;
            let l = if lt.used_by_curr_pic {
                r.lt_curr
            } else {
                r.lt_foll
            };
            &&& k < l.len()
            &&& l[k].1 == lt.delta_poc_msb_present
            &&& l[k].0 as int % max_lsb == lt.poc_lsb
            &&& l[k].0 as int / max_lsb == if lt.delta_poc_msb_present {
                poc / max_lsb - lt.delta_poc_msb_cycle
            } else {
                0
            }
        }),
{
    let lt = sh.long_term@[i];
    lemma_lt_pocs(sh.long_term@, poc, max_lsb, lt.used_by_curr_pic, i);
    lemma_fundamental_div_mod(poc, max_lsb);
    let q = poc / max_lsb;
    let c = lt.delta_poc_msb_cycle as int;
    let v = rps::lt_poc(lt, poc, max_lsb);
    let h = if lt.delta_poc_msb_present {
        q - c
    } else {
        0
    };
    assert(v == max_lsb * h + lt.poc_lsb) by (nonlinear_arith)
        requires
            poc == max_lsb * q + poc % max_lsb,
            h == q - c && v == lt.poc_lsb + poc - c * max_lsb - poc % max_lsb || h == 0 && v
                == lt.poc_lsb,
    ;
    lemma_fundamental_div_mod_converse(v, max_lsb, h, lt.poc_lsb as int);
}

// ---- marking ----

/// Marking only ever takes away: a picture is a short-term reference afterwards
/// only if it was one and a short-term entry has its count, and a long-term one
/// only if it was a reference and a long-term entry fits it. A long-term
/// reference never becomes short-term again.
pub proof fn lemma_marks(d: Seq<Slot>, r: RpsView, max_lsb: int, i: int)
    requires
        0 <= i < d.len(),
    ensures
        ({
            let a = dpb::remarked(d, r, max_lsb)[i];
            let st = r.before + r.after + r.foll;
            let lt = r.lt_curr + r.lt_foll;
            &&& a.mark == RefMark::ShortTerm ==> d[i].mark == RefMark::ShortTerm && exists|k: int|
                #![trigger st[k]]
                0 <= k < st.len() && st[k] == d[i].poc
            &&& a.mark == RefMark::LongTerm ==> d[i].mark != RefMark::Unused && exists|k: int|
                #![trigger lt[k]]
                0 <= k < lt.len() && if lt[k].1 {
                    lt[k].0 == d[i].poc
                } else {
                    lt[k].0 as int % max_lsb == d[i].poc % max_lsb
                }
            &&& a.pic == d[i].pic && a.poc == d[i].poc && a.waiting == d[i].waiting && a.pts
                == d[i].pts
        }),
{
    let st = r.before + r.after + r.foll;
    let lt = r.lt_curr + r.lt_foll;
    if dpb::named_long_term(d, lt, max_lsb, i) {
        let k = choose|k: int|
            #![trigger lt[k]]
            0 <= k < lt.len() && dpb::is_first(
                d,
                dpb::ref_test(lt[k].0 as int, !lt[k].1, max_lsb),
                i,
            );
        assert(0 <= k < lt.len());
    } else if dpb::named_short_term(d, st, i) {
        let k = choose|k: int|
            #![trigger st[k]]
            0 <= k < st.len() && dpb::is_first(d, dpb::short_term_test(st[k] as int), i);
        assert(0 <= k < st.len());
    }
}

/// A short-term reference that the set names stays a reference, used or only kept
/// by the picture, if it is the only one with its count.
pub proof fn lemma_named_stays(d: Seq<Slot>, r: RpsView, max_lsb: int, i: int, k: int)
    requires
        0 <= i < d.len(),
        d[i].mark == RefMark::ShortTerm,
        forall|j: int| #![trigger d[j]] 0 <= j < d.len() && j != i ==> d[j].poc != d[i].poc,
        0 <= k,
        k < r.before.len() && r.before[k] == d[i].poc || k < r.after.len() && r.after[k] == d[i].poc
            || k < r.foll.len() && r.foll[k] == d[i].poc,
    ensures
        dpb::remarked(d, r, max_lsb)[i].mark != RefMark::Unused,
{
    let st = r.before + r.after + r.foll;
    let at = if k < r.before.len() && r.before[k] == d[i].poc {
        k
    } else if k < r.after.len() && r.after[k] == d[i].poc {
        r.before.len() + k
    } else {
        r.before.len() + r.after.len() + k
    };
    assert(st[at] == d[i].poc);
    assert(dpb::is_first(d, dpb::short_term_test(st[at] as int), i));
}

/// Every sample of a plane is half its range.
pub open spec fn all_at(p: PlaneView, bit_depth: nat) -> bool {
    forall|i: int| #![trigger p.data[i]] 0 <= i < p.data.len() ==> 2 * p.data[i] == pow2(bit_depth)
}

/// A generated reference is mid-grey throughout, a reference at once, and never
/// output.
pub proof fn lemma_generated(sps: Sps, poc: i32, long_term: bool)
    requires
        1 <= sps.bit_depth_luma <= 16,
        1 <= sps.bit_depth_chroma <= 16,
    ensures
        ({
            let s = dpb::grey_slot(sps, poc, long_term);
            &&& s.poc == poc
            &&& s.mark == if long_term {
                RefMark::LongTerm
            } else {
                RefMark::ShortTerm
            }
            &&& !s.waiting && !s.output_flag
            &&& all_at(s.pic.y, sps.bit_depth_luma as nat)
            &&& all_at(s.pic.cb, sps.bit_depth_chroma as nat)
            &&& all_at(s.pic.cr, sps.bit_depth_chroma as nat)
            &&& s.pic.y.width == sps.width && s.pic.y.height == sps.height
        }),
{
    lemma_half(sps.bit_depth_luma as nat);
    lemma_half(sps.bit_depth_chroma as nat);
}

proof fn lemma_half(k: nat)
    requires
        1 <= k <= 16,
    ensures
        2 * (pow2((k - 1) as nat) as u16) == pow2(k),
{
    lemma2_to64();
    lemma_pow2_adds(1, (k - 1) as nat);
    crate::arith::lemma_pow2_le((k - 1) as nat, 15);
}

// ---- what leaves and what is added ----

/// Pictures leave the buffer only when they neither wait nor are references; the
/// others stay in their order.
pub proof fn lemma_kept_exactly(d: Seq<Slot>, i: int)
    requires
        0 <= i < d.len(),
    ensures
        d[i].waiting || d[i].mark != RefMark::Unused ==> dpb::kept(d).contains(d[i]),
        forall|k: int|
            #![trigger dpb::kept(d)[k]]
            0 <= k < dpb::kept(d).len() ==> (dpb::kept(d)[k].waiting || dpb::kept(d)[k].mark
                != RefMark::Unused) && d.contains(dpb::kept(d)[k]),
        dpb::kept(d).len() <= d.len(),
    decreases d.len(),
{
    let rest = d.drop_last();
    let n = d.len() - 1;
    let k0 = dpb::kept(rest);
    let k1 = dpb::kept(d);
    if n > 0 {
        lemma_kept_exactly(rest, if i < n {
            i
        } else {
            0
        });
    } else {
        assert(rest =~= Seq::empty());
    }
    if i < n {
        assert(rest[i] == d[i]);
        if d[i].waiting || d[i].mark != RefMark::Unused {
            let k = choose|k: int| 0 <= k < k0.len() && k0[k] == d[i];
            assert(k1[k] == d[i]);
        }
    } else if d[i].waiting || d[i].mark != RefMark::Unused {
        assert(k1[k0.len() as int] == d[i]);
    }
    assert forall|k: int| #![trigger k1[k]] 0 <= k < k1.len() implies (k1[k].waiting || k1[k].mark
        != RefMark::Unused) && d.contains(k1[k]) by {
        if k < k0.len() {
            assert(k1[k] == k0[k]);
            let j = choose|j: int| 0 <= j < rest.len() && rest[j] == k0[k];
            assert(d[j] == k1[k]);
        } else {
            assert(d[n] == k1[k]);
        }
    }
}

proof fn lemma_missing_short(d: Seq<Slot>, list: Seq<i32>, k: int)
    requires
        0 <= k < dpb::missing_short_term(d, list).len(),
    ensures
        ({
            let m = dpb::missing_short_term(d, list)[k];
            &&& !m.1
            &&& list.contains(m.0)
            &&& dpb::none_of(d, dpb::short_term_test(m.0 as int))
        }),
    decreases list.len(),
{
    let rest = list.drop_last();
    let a = dpb::missing_short_term(d, rest);
    if k < a.len() {
        lemma_missing_short(d, rest, k);
        let p = a[k].0;
        let j = choose|j: int| 0 <= j < rest.len() && rest[j] == p;
        assert(list[j] == p);
    } else {
        assert(list[list.len() - 1] == list.last());
    }
}

proof fn lemma_missing_long(d: Seq<Slot>, list: Seq<(i32, bool)>, max_lsb: int, k: int)
    requires
        0 <= k < dpb::missing_long_term(d, list, max_lsb).len(),
    ensures
        ({
            let m = dpb::missing_long_term(d, list, max_lsb)[k];
            &&& m.1
            &&& exists|j: int|
                #![trigger list[j]]
                0 <= j < list.len() && list[j].0 == m.0 && dpb::none_of(
                    d,
                    dpb::ref_test(m.0 as int, !list[j].1, max_lsb),
                )
        }),
    decreases list.len(),
{
    let rest = list.drop_last();
    let a = dpb::missing_long_term(d, rest, max_lsb);
    let m = dpb::missing_long_term(d, list, max_lsb)[k];
    if k < a.len() {
        lemma_missing_long(d, rest, max_lsb, k);
        let j = choose|j: int|
            #![trigger rest[j]]
            0 <= j < rest.len() && rest[j].0 == m.0 && dpb::none_of(
                d,
                dpb::ref_test(m.0 as int, !rest[j].1, max_lsb),
            );
        assert(list[j] == rest[j]);
    } else {
        assert(list[list.len() - 1] == list.last());
    }
}

/// A reference is generated only where the picture uses it and no reference in the
/// buffer answers to it: by its count, or, for a long-term one of which only low bits
/// are told, by those.
pub proof fn lemma_only_missing(d: Seq<Slot>, r: RpsView, max_lsb: int, k: int, i: int)
    requires
        0 <= k < dpb::missing(d, r, max_lsb).len(),
        0 <= i < d.len(),
    ensures
        ({
            let (poc, long_term) = dpb::missing(d, r, max_lsb)[k];
            &&& !long_term ==> (r.before.contains(poc) || r.after.contains(poc)) && !(d[i].mark
                == RefMark::ShortTerm && d[i].poc == poc)
            &&& long_term ==> exists|j: int|
                #![trigger r.lt_curr[j]]
                0 <= j < r.lt_curr.len() && r.lt_curr[j].0 == poc && (d[i].mark == RefMark::Unused
                    || (r.lt_curr[j].1 && d[i].poc != poc) || (!r.lt_curr[j].1 && d[i].poc % max_lsb
                    != poc as int % max_lsb))
        }),
{
    let st = r.before + r.after;
    let a = dpb::missing_short_term(d, st);
    if k < a.len() {
        lemma_missing_short(d, st, k);
        let p = a[k].0;
        let j = choose|j: int| 0 <= j < st.len() && st[j] == p;
        if j < r.before.len() {
            assert(r.before[j] == p);
        } else {
            assert(r.after[j - r.before.len()] == p);
        }
        assert(!dpb::short_term_test(p as int)(d[i]));
    } else {
        let q = k - a.len();
        lemma_missing_long(d, r.lt_curr, max_lsb, q);
        let m = dpb::missing_long_term(d, r.lt_curr, max_lsb)[q];
        let j = choose|j: int|
            #![trigger r.lt_curr[j]]
            0 <= j < r.lt_curr.len() && r.lt_curr[j].0 == m.0 && dpb::none_of(
                d,
                dpb::ref_test(m.0 as int, !r.lt_curr[j].1, max_lsb),
            );
        assert(!dpb::ref_test(m.0 as int, !r.lt_curr[j].1, max_lsb)(d[i]));
        assert(r.lt_curr[j].0 == m.0);
    }
}

// ---- output ----

/// A picture is due for output if and only if more pictures wait than may be
/// reordered, or one has waited for as many pictures as the latency limit allows,
/// where there is one, or one waits while room is needed in a buffer that is full.
pub proof fn lemma_output_due(d: Seq<Slot>, ord: SubLayerOrder, for_room: bool)
    ensures
        ({
            let limit = ord.max_num_reorder_pics + ord.max_latency_increase_plus1 - 1;
            let late = exists|i: int|
                #![trigger d[i]]
                0 <= i < d.len() && d[i].waiting && d[i].latency >= limit;
            let size = ord.max_dec_pic_buffering_minus1 + 1;
            dpb::must_bump(d, ord, for_room) <==> {
                ||| dpb::n_waiting(d) >= ord.max_num_reorder_pics + 1
                ||| ord.max_latency_increase_plus1 > 0 && late
                ||| for_room && d.len() >= size && dpb::n_waiting(d) != 0
            }
        }),
{
}

// ---- reference picture lists ----

/// The buffer holds the picture of entry `e`, as a short-term reference with the
/// count `poc`.
pub open spec fn is_short_entry(d: Seq<Slot>, e: RefView, poc: int) -> bool {
    &&& !e.is_long_term
    &&& e.poc == poc
    &&& exists|i: int|
        #![trigger d[i]]
        0 <= i < d.len() && d[i].mark == RefMark::ShortTerm && d[i].poc == poc && d[i].pic == e.pic
}

/// The buffer holds the picture of entry `e`, as a reference with that count, or,
/// where only low bits are told, with those.
pub open spec fn is_long_entry(d: Seq<Slot>, e: RefView, named: (i32, bool), max_lsb: int) -> bool {
    &&& e.is_long_term
    &&& if named.1 {
        e.poc == named.0
    } else {
        e.poc % max_lsb == named.0 as int % max_lsb
    }
    &&& exists|i: int|
        #![trigger d[i]]
        0 <= i < d.len() && d[i].mark != RefMark::Unused && d[i].poc == e.poc && d[i].pic == e.pic
}

/// Entry `j` of the initial order, which starts over at its end: the pictures of
/// `first`, then those of `second`, then the long-term ones.
pub open spec fn is_initial(
    d: Seq<Slot>,
    e: RefView,
    first: Seq<i32>,
    second: Seq<i32>,
    lt: Seq<(i32, bool)>,
    max_lsb: int,
    j: int,
) -> bool {
    let k = j % ((first.len() + second.len() + lt.len()) as int);
    if k < first.len() {
        is_short_entry(d, e, first[k] as int)
    } else if k < first.len() + second.len() {
        is_short_entry(d, e, second[k - first.len()] as int)
    } else {
        is_long_entry(d, e, lt[k - first.len() - second.len()], max_lsb)
    }
}

proof fn lemma_found(d: Seq<Slot>, c: reflists::Candidate, max_lsb: int)
    requires
        !reflists::lacks(d, c, max_lsb),
    ensures
        dpb::is_first(d, c.test(max_lsb), reflists::slot_for(d, c, max_lsb)),
{
    let j = choose|j: int| #![trigger d[j]] 0 <= j < d.len() && c.test(max_lsb)(d[j]);
    lemma_first_exists(d, c.test(max_lsb), j);
    let i = choose|i: int| #![trigger d[i]] dpb::is_first(d, c.test(max_lsb), i);
    assert(d[i] == d[i]);
}

proof fn lemma_first_exists(d: Seq<Slot>, p: spec_fn(Slot) -> bool, j: int)
    requires
        0 <= j < d.len(),
        p(d[j]),
    ensures
        exists|i: int| #![trigger d[i]] dpb::is_first(d, p, i),
    decreases j,
{
    if exists|k: int| #![trigger d[k]] 0 <= k < j && p(d[k]) {
        let k = choose|k: int| #![trigger d[k]] 0 <= k < j && p(d[k]);
        lemma_first_exists(d, p, k);
    } else {
        assert(dpb::is_first(d, p, j));
        assert(d[j] == d[j]);
    }
}

/// One list of a slice, where it can be built.
proof fn lemma_list(d: Seq<Slot>, sh: SliceHeader, r: RpsView, max_lsb: int, list: int, i: int)
    requires
        0 <= list <= 1,
        r.before.len() + r.after.len() + r.lt_curr.len() > 0,
        reflists::slice_list(d, sh, r, max_lsb, list) is Ok,
        0 <= i < reflists::active(sh, list),
        reflists::modification(sh, list) matches Some(m) ==> m.len() >= reflists::active(sh, list),
    ensures
        ({
            let l = reflists::slice_list(d, sh, r, max_lsb, list)->Ok_0;
            let j = reflists::list_index(reflists::modification(sh, list), i);
            let (first, second) = if list == 0 {
                (r.before, r.after)
            } else {
                (r.after, r.before)
            };
            &&& l.len() == reflists::active(sh, list)
            &&& is_initial(d, l[i], first, second, r.lt_curr, max_lsb, j)
        }),
{
    let cs = reflists::candidates(r, list);
    let m = reflists::modification(sh, list);
    let n = crate::arith::max2(reflists::active(sh, list), sh.num_pic_total_curr as int);
    let tk = reflists::taken(cs, n);
    let j = reflists::list_index(m, i);
    let k = j % (cs.len() as int);
    assert(cs.len() == r.before.len() + r.after.len() + r.lt_curr.len());
    assert(0 <= j < n);
    lemma_mod_bound(j, cs.len() as int);
    if n < cs.len() {
        lemma_small_mod(j as nat, cs.len());
    }
    assert(k < tk.len() && tk[k] == cs[k]);
    let c = cs[k];
    if reflists::lacks(d, c, max_lsb) {
        lemma_first_lacking_exists(d, tk, max_lsb, k);
    }
    lemma_found(d, c, max_lsb);
    let s = reflists::slot_for(d, c, max_lsb);
    assert(c.test(max_lsb)(d[s]));
}

proof fn lemma_first_lacking_exists(
    d: Seq<Slot>,
    cs: Seq<reflists::Candidate>,
    max_lsb: int,
    k: int,
)
    requires
        0 <= k < cs.len(),
        reflists::lacks(d, cs[k], max_lsb),
    ensures
        exists|k: int| reflists::first_lacking(d, cs, max_lsb, k),
    decreases k,
{
    if exists|j: int| #![trigger cs[j]] 0 <= j < k && reflists::lacks(d, cs[j], max_lsb) {
        let j = choose|j: int| #![trigger cs[j]] 0 <= j < k && reflists::lacks(d, cs[j], max_lsb);
        lemma_first_lacking_exists(d, cs, max_lsb, j);
    } else {
        assert(reflists::first_lacking(d, cs, max_lsb, k));
    }
}

/// The lists that a slice gets. List 0 starts with the earlier pictures, list 1
/// with the later ones; both end with the long-term ones and start over where
/// they are longer. A slice may pick from that order by position. Only a B slice
/// has a second list.
pub proof fn lemma_lists(d: Seq<Slot>, sh: SliceHeader, r: RpsView, max_lsb: int, i: int)
    requires
        sh.lists_ok(),
        r.before.len() + r.after.len() + r.lt_curr.len() > 0,
        reflists::slice_lists(d, sh, r, max_lsb) is Ok,
        0 <= i,
    ensures
        ({
            let (l0, l1) = reflists::slice_lists(d, sh, r, max_lsb)->Ok_0;
            let at = |m: Option<Vec<u32>>|
                match m {
                    Some(m) => m@[i] as int,
                    None => i,
                };
            &&& l0.len() == sh.num_ref_idx_l0_active
            &&& l1.len() == if sh.slice_type == SliceType::B {
                sh.num_ref_idx_l1_active as int
            } else {
                0
            }
            &&& i < l0.len() ==> is_initial(
                d,
                l0[i],
                r.before,
                r.after,
                r.lt_curr,
                max_lsb,
                at(sh.ref_pic_list_modification_l0),
            )
            &&& i < l1.len() ==> is_initial(
                d,
                l1[i],
                r.after,
                r.before,
                r.lt_curr,
                max_lsb,
                at(sh.ref_pic_list_modification_l1),
            )
        }),
{
    if i < sh.num_ref_idx_l0_active {
        lemma_list(d, sh, r, max_lsb, 0, i);
    }
    if sh.slice_type == SliceType::B && i < sh.num_ref_idx_l1_active {
        lemma_list(d, sh, r, max_lsb, 1, i);
    }
}

/// A slice that takes the initial order as it is, and refers to short-term
/// pictures only, all of them in the buffer, gets its lists if and only if it
/// counts at least one reference.
pub proof fn lemma_lists_owed(d: Seq<Slot>, sh: SliceHeader, r: RpsView, max_lsb: int)
    requires
        sh.lists_ok(),
        forall|k: int|
            #![trigger r.before[k]]
            0 <= k < r.before.len() ==> exists|i: int|
                #![trigger d[i]]
                0 <= i < d.len() && d[i].mark == RefMark::ShortTerm && d[i].poc == r.before[k],
        forall|k: int|
            #![trigger r.after[k]]
            0 <= k < r.after.len() ==> exists|i: int|
                #![trigger d[i]]
                0 <= i < d.len() && d[i].mark == RefMark::ShortTerm && d[i].poc == r.after[k],
        r.lt_curr.len() == 0,
        sh.ref_pic_list_modification_l0 is None,
        sh.ref_pic_list_modification_l1 is None,
    ensures
        reflists::slice_lists(d, sh, r, max_lsb) is Ok <==> sh.num_pic_total_curr > 0,
{
    assert forall|list: int, k: int|
        #![trigger reflists::candidates(r, list)[k]]
        0 <= k < reflists::candidates(r, list).len() implies !reflists::lacks(
        d,
        reflists::candidates(r, list)[k],
        max_lsb,
    ) by {
        let c = reflists::candidates(r, list)[k];
        let (nb, na) = (r.before.len() as int, r.after.len() as int);
        let p = if list == 0 {
            if k < nb {
                r.before[k]
            } else {
                r.after[k - nb]
            }
        } else if k < na {
            r.after[k]
        } else {
            r.before[k - na]
        };
        assert(c == reflists::Candidate::Short(p));
        let i = choose|i: int|
            #![trigger d[i]]
            0 <= i < d.len() && d[i].mark == RefMark::ShortTerm && d[i].poc == p;
        assert(c.test(max_lsb)(d[i]));
    }
    lemma_no_complaint(d, sh, r, max_lsb, 0);
    lemma_no_complaint(d, sh, r, max_lsb, 1);
}

proof fn lemma_no_complaint(d: Seq<Slot>, sh: SliceHeader, r: RpsView, max_lsb: int, list: int)
    requires
        reflists::modification(sh, list) is None,
        forall|k: int|
            #![trigger reflists::candidates(r, list)[k]]
            0 <= k < reflists::candidates(r, list).len() ==> !reflists::lacks(
                d,
                reflists::candidates(r, list)[k],
                max_lsb,
            ),
    ensures
        reflists::slice_list(d, sh, r, max_lsb, list) is Ok,
{
    let cs = reflists::candidates(r, list);
    let n = crate::arith::max2(reflists::active(sh, list), sh.num_pic_total_curr as int);
    let tk = reflists::taken(cs, n);
    if exists|k: int| reflists::first_lacking(d, tk, max_lsb, k) {
        let k = choose|k: int| reflists::first_lacking(d, tk, max_lsb, k);
        assert(tk[k] == cs[k]);
    }
}

} // verus!
