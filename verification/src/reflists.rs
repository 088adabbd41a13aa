//! Reference picture list construction (§8.3.4).

use std::sync::Arc;

use crate::arith;
use crate::dpb;
use crate::dpb::{Buffered, DpbEntry, RefMark, Slot};
use crate::error;
use crate::error::Error;
use crate::frame::{Picture, PictureView};
use crate::ps::{Sps, SubLayerOrder};
use crate::rps;
use crate::rps::{Rps, RpsView};
use crate::share::share;
use crate::slice::{SliceHeader, SliceType};
use vstd::arithmetic::power2::*;
use vstd::prelude::*;

verus! {

/// A reference picture list entry.
#[derive(Debug, Clone)]
pub struct RefPic {
    pub pic: Arc<Picture>,
    pub poc: i32,
    pub is_long_term: bool,
}

/// An entry as its contents.
pub struct RefView {
    pub pic: PictureView,
    pub poc: int,
    pub is_long_term: bool,
}

impl View for RefPic {
    type V = RefView;

    open spec fn view(&self) -> RefView {
        RefView { pic: self.pic@, poc: self.poc as int, is_long_term: self.is_long_term }
    }
}

/// The entries of a list.
pub open spec fn refs(list: Seq<RefPic>) -> Seq<RefView> {
    Seq::new(list.len(), |i: int| list[i]@)
}

/// The reference picture lists of one slice.
#[derive(Debug, Clone)]
pub struct RefLists {
    pub l0: Vec<RefPic>,
    pub l1: Vec<RefPic>,
}

impl Default for RefLists {
    /// Both lists empty.
    fn default() -> (r: Self)
        ensures
            r.l0@.len() == 0,
            r.l1@.len() == 0,
    {
        RefLists { l0: Vec::new(), l1: Vec::new() }
    }
}

/// A picture that the reference picture set names for the current picture.
#[derive(Debug, Clone, Copy, PartialEq, Eq, Structural)]
pub enum Candidate {
    Short(i32),
    /// With its `delta_poc_msb_present_flag`.
    Long(i32, bool),
}

impl Candidate {
    /// The test that its picture passes.
    pub open spec fn test(self, max_lsb: int) -> spec_fn(Slot) -> bool {
        match self {
            Candidate::Short(p) => dpb::short_term_test(p as int),
            Candidate::Long(p, msb) => dpb::ref_test(p as int, !msb, max_lsb),
        }
    }

    /// What is said when its picture is missing.
    pub open spec fn complaint(self) -> Seq<char> {
        match self {
            Candidate::Short(p) => "missing short-term reference POC "@ + error::decimal(p as int),
            Candidate::Long(p, _) => "missing long-term reference POC "@ + error::decimal(p as int),
        }
    }
}

/// The candidates in the order of a list: list 0 takes the earlier pictures
/// first, list 1 the later ones, both the long-term ones last.
pub open spec fn candidates(r: RpsView, list: int) -> Seq<Candidate> {
    let before = Seq::new(r.before.len(), |i: int| Candidate::Short(r.before[i]));
    let after = Seq::new(r.after.len(), |i: int| Candidate::Short(r.after[i]));
    let lt = Seq::new(r.lt_curr.len(), |i: int| Candidate::Long(r.lt_curr[i].0, r.lt_curr[i].1));
    if list == 0 {
        before + after + lt
    } else {
        after + before + lt
    }
}

/// The picture of a candidate: the first slot that answers to it.
pub open spec fn slot_for(d: Seq<Slot>, c: Candidate, max_lsb: int) -> int {
    choose|i: int| #![trigger d[i]] dpb::is_first(d, c.test(max_lsb), i)
}

/// The list entry of a candidate.
pub open spec fn entry_for(d: Seq<Slot>, c: Candidate, max_lsb: int) -> RefView {
    let s = d[slot_for(d, c, max_lsb)];
    RefView { pic: s.pic, poc: s.poc, is_long_term: c is Long }
}

/// A candidate has no picture.
pub open spec fn lacks(d: Seq<Slot>, c: Candidate, max_lsb: int) -> bool {
    dpb::none_of(d, c.test(max_lsb))
}

/// `k` is the first candidate without a picture.
pub open spec fn first_lacking(d: Seq<Slot>, cs: Seq<Candidate>, max_lsb: int, k: int) -> bool {
    &&& 0 <= k < cs.len()
    &&& lacks(d, cs[k], max_lsb)
    &&& forall|j: int| #![trigger cs[j]] 0 <= j < k ==> !lacks(d, cs[j], max_lsb)
}

/// The candidates that a list of `n` entries takes: all, or the first `n`.
pub open spec fn taken(cs: Seq<Candidate>, n: int) -> Seq<Candidate> {
    cs.take(arith::min2(n, cs.len() as int))
}

/// Entry `i` of the final list is this entry of the initial one.
pub open spec fn list_index(modif: Option<Seq<u32>>, i: int) -> int {
    match modif {
        Some(l) => l[i] as int,
        None => i,
    }
}

/// §8.3.4 for one list. The candidates are repeated in a cycle up to `n`
/// entries, from which the modification, or the order itself, picks `active`.
pub open spec fn list_of(
    d: Seq<Slot>,
    cs: Seq<Candidate>,
    max_lsb: int,
    n: int,
    modif: Option<Seq<u32>>,
    active: int,
) -> core::result::Result<Seq<RefView>, Seq<char>> {
    if exists|k: int| first_lacking(d, taken(cs, n), max_lsb, k) {
        let k = choose|k: int| first_lacking(d, taken(cs, n), max_lsb, k);
        Err(taken(cs, n)[k].complaint())
    } else if exists|i: int| 0 <= i < active && #[trigger] list_index(modif, i) >= n {
        Err("list_entry out of range"@)
    } else {
        Ok(
            Seq::new(
                active as nat,
                |i: int| entry_for(d, cs[list_index(modif, i) % (cs.len() as int)], max_lsb),
            ),
        )
    }
}

/// What a slice header says of a list: its modification and active length.
pub open spec fn modification(sh: SliceHeader, list: int) -> Option<Seq<u32>> {
    match if list == 0 {
        sh.ref_pic_list_modification_l0
    } else {
        sh.ref_pic_list_modification_l1
    } {
        Some(l) => Some(l@),
        None => None,
    }
}

pub open spec fn active(sh: SliceHeader, list: int) -> int {
    if list == 0 {
        sh.num_ref_idx_l0_active as int
    } else {
        sh.num_ref_idx_l1_active as int
    }
}

/// One list of a slice.
pub open spec fn slice_list(
    d: Seq<Slot>,
    sh: SliceHeader,
    r: RpsView,
    max_lsb: int,
    list: int,
) -> core::result::Result<Seq<RefView>, Seq<char>> {
    list_of(
        d,
        candidates(r, list),
        max_lsb,
        arith::max2(active(sh, list), sh.num_pic_total_curr as int),
        modification(sh, list),
        active(sh, list),
    )
}

/// Both lists of a P or B slice.
pub open spec fn slice_lists(d: Seq<Slot>, sh: SliceHeader, r: RpsView, max_lsb: int)
    -> core::result::Result<(Seq<RefView>, Seq<RefView>), Seq<char>> {
    if sh.num_pic_total_curr == 0 {
        Err("no reference pictures for a P/B slice"@)
    } else {
        match slice_list(d, sh, r, max_lsb, 0) {
            Err(e) => Err(e),
            Ok(l0) => if sh.slice_type == SliceType::B {
                match slice_list(d, sh, r, max_lsb, 1) {
                    Err(e) => Err(e),
                    Ok(l1) => Ok((l0, l1)),
                }
            } else {
                Ok((l0, Seq::empty()))
            },
        }
    }
}

impl SliceHeader {
    /// A slice that names references has some, and the modifications of the lists
    /// that it has name an entry for each active one.
    pub open spec fn lists_ok(self) -> bool {
        &&& self.num_pic_total_curr > 0 ==> rps::used_refs(self) > 0
        &&& self.ref_pic_list_modification_l0 matches Some(l) ==> l@.len()
            >= self.num_ref_idx_l0_active
        &&& self.slice_type == SliceType::B ==> (self.ref_pic_list_modification_l1 matches Some(l)
            ==> l@.len() >= self.num_ref_idx_l1_active)
    }
}

/// Appends a short-term list to the candidates.
fn push_short(out: &mut Vec<Candidate>, list: &Vec<i32>)
    ensures
        final(out)@ == old(out)@ + Seq::new(list@.len(), |i: int| Candidate::Short(list@[i])),
{
    let ghost o = out@;
    let mut i: usize = 0;
    assert(out@ =~= o + Seq::new(0, |i: int| Candidate::Short(list@[i])));
    while i < list.len()
        invariant
            i <= list@.len(),
            out@ == o + Seq::new(i as nat, |i: int| Candidate::Short(list@[i])),
        decreases list@.len() - i,
    {
        out.push(Candidate::Short(list[i]));
        i += 1;
        assert(out@ =~= o + Seq::new(i as nat, |i: int| Candidate::Short(list@[i])));
    }
}

/// The candidates of a list.
fn list_candidates(r: &Rps, list: usize) -> (out: Vec<Candidate>)
    requires
        list <= 1,
    ensures
        out@ == candidates(r@, list as int),
{
    let mut out: Vec<Candidate> = Vec::new();
    if list == 0 {
        push_short(&mut out, &r.before);
        push_short(&mut out, &r.after);
    } else {
        push_short(&mut out, &r.after);
        push_short(&mut out, &r.before);
    }
    let ghost o = out@;
    let mut i: usize = 0;
    let ghost lt = |i: int| Candidate::Long(r.lt_curr@[i].0, r.lt_curr@[i].1);
    assert(out@ =~= o + Seq::new(0, lt));
    while i < r.lt_curr.len()
        invariant
            i <= r.lt_curr@.len(),
            lt == (|i: int| Candidate::Long(r.lt_curr@[i].0, r.lt_curr@[i].1)),
            out@ == o + Seq::new(i as nat, lt),
        decreases r.lt_curr@.len() - i,
    {
        let (p, msb) = r.lt_curr[i];
        out.push(Candidate::Long(p, msb));
        i += 1;
        assert(out@ =~= o + Seq::new(i as nat, lt));
    }
    assert(out@ =~= candidates(r@, list as int));
    out
}

/// The list entry of a candidate, or the complaint that it is missing.
fn resolve(d: &Vec<DpbEntry>, c: Candidate, log2_max: u8) -> (r: core::result::Result<
    RefPic,
    Error,
>)
    requires
        log2_max <= 16,
    ensures
        match r {
            Ok(e) => !lacks(dpb::slots(d@), c, pow2(log2_max as nat) as int) && e@ == entry_for(
                dpb::slots(d@),
                c,
                pow2(log2_max as nat) as int,
            ),
            Err(e) => lacks(dpb::slots(d@), c, pow2(log2_max as nat) as int) && e.says_invalid(
                c.complaint(),
            ),
        },
{
    let ghost max = pow2(log2_max as nat) as int;
    let ghost s = dpb::slots(d@);
    let hit = match c {
        Candidate::Short(p) => dpb::find_short_term(d, p),
        Candidate::Long(p, msb) => dpb::find_ref(d, p, !msb, log2_max),
    };
    match hit {
        Some(i) => {
            proof {
                assert(dpb::is_first(s, c.test(max), i as int));
                assert(s[i as int] == d@[i as int]@);
                let k = slot_for(s, c, max);
                assert(s[k] == s[k]);
                assert(k == i);
            }
            let e = &d[i];
            let is_long_term = matches!(c, Candidate::Long(_, _));
            Ok(RefPic { pic: share(&e.pic), poc: e.poc, is_long_term })
        },
        None => {
            let text = match c {
                Candidate::Short(p) => error::with_number(
                    "missing short-term reference POC ",
                    p as i64,
                ),
                Candidate::Long(p, _) => error::with_number(
                    "missing long-term reference POC ",
                    p as i64,
                ),
            };
            Err(Error::invalid(text.as_str()))
        },
    }
}

/// Builds one list.
fn build_list(
    d: &Vec<DpbEntry>,
    cs: &Vec<Candidate>,
    log2_max: u8,
    n: usize,
    modif: &Option<Vec<u32>>,
    active: usize,
) -> (r: core::result::Result<Vec<RefPic>, Error>)
    requires
        log2_max <= 16,
        cs@.len() > 0,
        modif matches Some(l) ==> l@.len() >= active,
    ensures
        ({
            let want = list_of(
                dpb::slots(d@),
                cs@,
                pow2(log2_max as nat) as int,
                n as int,
                match modif {
                    Some(l) => Some(l@),
                    None => None,
                },
                active as int,
            );
            match r {
                Ok(l) => want == Ok::<Seq<RefView>, Seq<char>>(refs(l@)),
                Err(e) => want matches Err(text) && e.says_invalid(text),
            }
        }),
{
    let ghost s = dpb::slots(d@);
    let ghost max = pow2(log2_max as nat) as int;
    let ghost tk = taken(cs@, n as int);
    let ghost m = match modif {
        Some(l) => Some(l@),
        None => None,
    };
    let count = arith::min_usize(n, cs.len());
    let mut temp: Vec<RefPic> = Vec::new();
    while temp.len() < count
        invariant
            temp@.len() <= count <= cs@.len(),
            log2_max <= 16,
            s == dpb::slots(d@),
            max == pow2(log2_max as nat),
            tk == cs@.take(count as int),
            tk == taken(cs@, n as int),
            m == (match modif {
                Some(l) => Some(l@),
                None => None,
            }),
            forall|j: int|
                #![trigger tk[j]]
                0 <= j < temp@.len() ==> !lacks(s, tk[j], max) && temp@[j]@ == entry_for(
                    s,
                    tk[j],
                    max,
                ),
        decreases count - temp@.len(),
    {
        let k = temp.len();
        match resolve(d, cs[k], log2_max) {
            Ok(e) => {
                temp.push(e);
            },
            Err(e) => {
                proof {
                    assert(tk[k as int] == cs@[k as int]);
                    assert(first_lacking(s, tk, max, k as int));
                    let c = choose|k: int| first_lacking(s, tk, max, k);
                    lemma_first_lacking_unique(s, tk, max, k as int, c);
                }
                return Err(e);
            },
        }
    }
    assert(!exists|k: int| first_lacking(s, tk, max, k)) by {
        if exists|k: int| first_lacking(s, tk, max, k) {
            let c = choose|k: int| first_lacking(s, tk, max, k);
            assert(!lacks(s, tk[c], max));
        }
    }
    let mut out: Vec<RefPic> = Vec::new();
    let len = cs.len();
    while out.len() < active
        invariant
            out@.len() <= active,
            modif matches Some(l) ==> l@.len() >= active,
            m == (match modif {
                Some(l) => Some(l@),
                None => None,
            }),
            len == cs@.len(),
            len > 0,
            count == arith::min2(n as int, len as int),
            temp@.len() == count,
            s == dpb::slots(d@),
            tk == cs@.take(count as int),
            max == pow2(log2_max as nat),
            !exists|k: int| first_lacking(s, taken(cs@, n as int), max, k),
            forall|j: int|
                #![trigger tk[j]]
                0 <= j < temp@.len() ==> temp@[j]@ == entry_for(s, tk[j], max),
            forall|i: int| 0 <= i < out@.len() ==> #[trigger] list_index(m, i) < n,
            forall|i: int|
                #![trigger out@[i]]
                0 <= i < out@.len() ==> out@[i]@ == entry_for(
                    s,
                    cs@[list_index(m, i) % (len as int)],
                    max,
                ),
        decreases active - out@.len(),
    {
        let i = out.len();
        let idx = match modif {
            Some(l) => l[i] as usize,
            None => i,
        };
        assert(idx == list_index(m, i as int));
        if idx >= n {
            return Err(Error::invalid("list_entry out of range"));
        }
        let at = idx % len;
        proof {
            if n < len {
                vstd::arithmetic::div_mod::lemma_small_mod(idx as nat, len as nat);
            }
            assert(tk[at as int] == cs@[at as int]);
        }
        let e = &temp[at];
        out.push(RefPic { pic: share(&e.pic), poc: e.poc, is_long_term: e.is_long_term });
    }
    assert(refs(out@) =~= Seq::new(
        active as nat,
        |i: int| entry_for(s, cs@[list_index(m, i) % (cs@.len() as int)], max),
    ));
    Ok(out)
}

/// There is one first missing candidate.
proof fn lemma_first_lacking_unique(
    d: Seq<Slot>,
    cs: Seq<Candidate>,
    max_lsb: int,
    a: int,
    b: int,
)
    requires
        first_lacking(d, cs, max_lsb, a),
        first_lacking(d, cs, max_lsb, b),
    ensures
        a == b,
{
    if a < b {
        assert(!lacks(d, cs[a], max_lsb));
    } else if b < a {
        assert(!lacks(d, cs[b], max_lsb));
    }
}

/// §8.3.4: the lists agree with a result.
pub open spec fn lists_agree(
    r: core::result::Result<RefLists, Error>,
    want: core::result::Result<(Seq<RefView>, Seq<RefView>), Seq<char>>,
) -> bool {
    match r {
        Ok(l) => want == Ok::<(Seq<RefView>, Seq<RefView>), Seq<char>>((refs(l.l0@), refs(l.l1@))),
        Err(e) => want matches Err(text) && e.says_invalid(text),
    }
}

/// §8.3.4: RefPicList0/1 for a P/B slice.
pub fn build_ref_lists(d: &Vec<DpbEntry>, sh: &SliceHeader, poc: i32, log2_max: u8) -> (lists:
    core::result::Result<RefLists, Error>)
    requires
        log2_max <= 16,
        sh.lists_ok(),
        sh.refs_fit(poc as int, pow2(log2_max as nat) as int),
    ensures
        lists_agree(
            lists,
            slice_lists(
                dpb::slots(d@),
                *sh,
                rps::rps_of(*sh, poc as int, pow2(log2_max as nat) as int),
                pow2(log2_max as nat) as int,
            ),
        ),
{
    let r = rps::derive_rps(log2_max, sh, poc);
    proof {
        rps::lemma_used_refs(*sh, poc as int, pow2(log2_max as nat) as int);
    }
    let total = sh.num_pic_total_curr as usize;
    if total == 0 {
        return Err(Error::invalid("no reference pictures for a P/B slice"));
    }
    let n0 = arith::max_usize(sh.num_ref_idx_l0_active as usize, total);
    let c0 = list_candidates(&r, 0);
    let l0 = match build_list(
        d,
        &c0,
        log2_max,
        n0,
        &sh.ref_pic_list_modification_l0,
        sh.num_ref_idx_l0_active as usize,
    ) {
        Ok(l) => l,
        Err(e) => {
            return Err(e);
        },
    };
    let mut l1: Vec<RefPic> = Vec::new();
    if sh.slice_type.is_b() {
        let n1 = arith::max_usize(sh.num_ref_idx_l1_active as usize, total);
        let c1 = list_candidates(&r, 1);
        l1 = match build_list(
            d,
            &c1,
            log2_max,
            n1,
            &sh.ref_pic_list_modification_l1,
            sh.num_ref_idx_l1_active as usize,
        ) {
            Ok(l) => l,
            Err(e) => {
                return Err(e);
            },
        };
    }
    proof {
        if !(sh.slice_type == SliceType::B) {
            assert(refs(l1@) =~= Seq::empty());
        }
    }
    Ok(RefLists { l0, l1 })
}

// ---- laws ----

/// A list that is built has as many entries as the slice has active ones.
pub proof fn lemma_list_length(
    d: Seq<Slot>,
    cs: Seq<Candidate>,
    max_lsb: int,
    n: int,
    modif: Option<Seq<u32>>,
    active: int,
)
    requires
        active >= 0,
    ensures
        list_of(d, cs, max_lsb, n, modif, active) matches Ok(l) ==> l.len() == active,
{
}

/// Once the missing references of a picture are generated, every candidate for
/// its lists has a picture.
pub proof fn lemma_completed_has_candidates(
    d: Seq<Slot>,
    sps: Sps,
    r: RpsView,
    max_lsb: int,
    list: int,
    k: int,
)
    requires
        0 <= k < candidates(r, list).len(),
    ensures
        !lacks(
            dpb::completed(d, sps, dpb::missing(d, r, max_lsb)),
            candidates(r, list)[k],
            max_lsb,
        ),
{
    let c = candidates(r, list)[k];
    let lost = dpb::missing(d, r, max_lsb);
    let full = dpb::completed(d, sps, lost);
    if lacks(d, c, max_lsb) {
        let st = dpb::missing_short_term(d, r.before + r.after);
        let lt = dpb::missing_long_term(d, r.lt_curr, max_lsb);
        match c {
            Candidate::Short(p) => {
                let nb = r.before.len() as int;
                let na = r.after.len() as int;
                let at = if list == 0 {
                    k
                } else if k < na {
                    nb + k
                } else {
                    k - na
                };
                assert((r.before + r.after)[at] == p);
                let j = lemma_missing_short_term(d, r.before + r.after, at);
                assert(lost[j] == st[j]);
                assert(full[d.len() + j] == dpb::grey_slot(sps, p, false));
                assert(c.test(max_lsb)(full[d.len() + j]));
            },
            Candidate::Long(p, msb) => {
                let at = k - r.before.len() - r.after.len();
                assert(r.lt_curr[at] == (p, msb));
                let j = lemma_missing_long_term(d, r.lt_curr, max_lsb, at);
                assert(lost[st.len() + j] == lt[j]);
                let i = d.len() + st.len() + j;
                assert(full[i] == dpb::grey_slot(sps, p, true));
                assert(c.test(max_lsb)(full[i]));
            },
        }
    } else {
        let i = choose|i: int| #![trigger d[i]] 0 <= i < d.len() && c.test(max_lsb)(d[i]);
        assert(full[i] == d[i]);
        assert(c.test(max_lsb)(full[i]));
    }
}

proof fn lemma_missing_short_term(d: Seq<Slot>, list: Seq<i32>, at: int) -> (j: int)
    requires
        0 <= at < list.len(),
        dpb::none_of(d, dpb::short_term_test(list[at] as int)),
    ensures
        0 <= j < dpb::missing_short_term(d, list).len(),
        dpb::missing_short_term(d, list)[j] == (list[at], false),
    decreases list.len(),
{
    if at == list.len() - 1 {
        dpb::missing_short_term(d, list).len() - 1
    } else {
        lemma_missing_short_term(d, list.drop_last(), at)
    }
}

proof fn lemma_missing_long_term(
    d: Seq<Slot>,
    list: Seq<(i32, bool)>,
    max_lsb: int,
    at: int,
) -> (j: int)
    requires
        0 <= at < list.len(),
        dpb::none_of(d, dpb::ref_test(list[at].0 as int, !list[at].1, max_lsb)),
    ensures
        0 <= j < dpb::missing_long_term(d, list, max_lsb).len(),
        dpb::missing_long_term(d, list, max_lsb)[j] == (list[at].0, true),
    decreases list.len(),
{
    if at == list.len() - 1 {
        dpb::missing_long_term(d, list, max_lsb).len() - 1
    } else {
        lemma_missing_long_term(d, list.drop_last(), max_lsb, at)
    }
}

/// A buffer that still holds every reference of another one.
pub open spec fn keeps_references(a: Seq<Slot>, b: Seq<Slot>) -> bool {
    forall|i: int|
        #![trigger b[i]]
        0 <= i < b.len() && b[i].mark != RefMark::Unused ==> exists|j: int|
            #![trigger a[j]]
            0 <= j < a.len() && a[j] == (Slot { waiting: a[j].waiting, ..b[i] })
}

/// A candidate that has a picture keeps it as long as the references stay.
pub proof fn lemma_candidate_kept(a: Seq<Slot>, b: Seq<Slot>, c: Candidate, max_lsb: int)
    requires
        keeps_references(a, b),
        !lacks(b, c, max_lsb),
    ensures
        !lacks(a, c, max_lsb),
{
    let i = choose|i: int| #![trigger b[i]] 0 <= i < b.len() && c.test(max_lsb)(b[i]);
    assert(b[i].mark != RefMark::Unused);
    let j = choose|j: int|
        #![trigger a[j]]
        0 <= j < a.len() && a[j] == (Slot { waiting: a[j].waiting, ..b[i] });
    assert(c.test(max_lsb)(a[j]));
}

/// Keeping references is transitive.
proof fn lemma_keeps_trans(a: Seq<Slot>, b: Seq<Slot>, c: Seq<Slot>)
    requires
        keeps_references(a, b),
        keeps_references(b, c),
    ensures
        keeps_references(a, c),
{
    assert forall|i: int|
        #![trigger c[i]]
        0 <= i < c.len() && c[i].mark != RefMark::Unused implies exists|j: int|
        #![trigger a[j]]
        0 <= j < a.len() && a[j] == (Slot { waiting: a[j].waiting, ..c[i] }) by {
        let k = choose|k: int|
            #![trigger b[k]]
            0 <= k < b.len() && b[k] == (Slot { waiting: b[k].waiting, ..c[i] });
        let j = choose|j: int|
            #![trigger a[j]]
            0 <= j < a.len() && a[j] == (Slot { waiting: a[j].waiting, ..b[k] });
        assert(a[j] == (Slot { waiting: a[j].waiting, ..c[i] }));
    }
}

/// Meeting the limits of the buffer loses no reference picture.
pub proof fn lemma_settled_keeps(b: Buffered, ord: SubLayerOrder, for_room: bool)
    ensures
        keeps_references(dpb::settled(b, ord, for_room).d, b.d),
    decreases dpb::n_waiting(b.d),
{
    if dpb::must_bump(b.d, ord, for_room) {
        dpb::lemma_must_bump(b.d, ord, for_room);
        dpb::lemma_bumped(b);
        let a = dpb::bumped(b);
        lemma_settled_keeps(a, ord, for_room);
        assert forall|i: int|
            #![trigger b.d[i]]
            0 <= i < b.d.len() && b.d[i].mark != RefMark::Unused implies exists|j: int|
            #![trigger a.d[j]]
            0 <= j < a.d.len() && a.d[j] == (Slot { waiting: a.d[j].waiting, ..b.d[i] }) by {
            dpb::lemma_bump_keeps_references(b, i);
        }
        lemma_keeps_trans(dpb::settled(b, ord, for_room).d, a.d, b.d);
    } else {
        assert forall|i: int|
            #![trigger b.d[i]]
            0 <= i < b.d.len() && b.d[i].mark != RefMark::Unused implies exists|j: int|
            #![trigger b.d[j]]
            0 <= j < b.d.len() && b.d[j] == (Slot { waiting: b.d[j].waiting, ..b.d[i] }) by {
            assert(b.d[i] == (Slot { waiting: b.d[i].waiting, ..b.d[i] }));
        }
    }
}

/// Dropping what is of no use loses no reference picture.
pub proof fn lemma_kept_keeps(d: Seq<Slot>)
    ensures
        keeps_references(dpb::kept(d), d),
    decreases d.len(),
{
    let a = dpb::kept(d);
    if d.len() > 0 {
        let e = d.drop_last();
        lemma_kept_keeps(e);
        let ke = dpb::kept(e);
        assert forall|i: int|
            #![trigger d[i]]
            0 <= i < d.len() && d[i].mark != RefMark::Unused implies exists|j: int|
            #![trigger a[j]]
            0 <= j < a.len() && a[j] == (Slot { waiting: a[j].waiting, ..d[i] }) by {
            if i < e.len() {
                assert(e[i] == d[i]);
                let j = choose|j: int|
                    #![trigger ke[j]]
                    0 <= j < ke.len() && ke[j] == (Slot { waiting: ke[j].waiting, ..e[i] });
                assert(a[j] == ke[j]);
            } else {
                assert(a[a.len() - 1] == (Slot { waiting: a[a.len() - 1].waiting, ..d[i] }));
            }
        }
    }
}

/// Making room for a picture loses no reference picture.
pub proof fn lemma_room_keeps(b: Buffered, ord: SubLayerOrder)
    ensures
        ({
            let s = dpb::settled(Buffered { d: dpb::kept(b.d), out: b.out }, ord, true);
            keeps_references(s.d, b.d) && keeps_references(dpb::kept(s.d), b.d)
        }),
{
    let b1 = Buffered { d: dpb::kept(b.d), out: b.out };
    let s = dpb::settled(b1, ord, true);
    lemma_kept_keeps(b.d);
    lemma_settled_keeps(b1, ord, true);
    lemma_kept_keeps(s.d);
    lemma_keeps_trans(s.d, b1.d, b.d);
    lemma_keeps_trans(dpb::kept(s.d), s.d, b.d);
}

} // verus!
