//! The decoded picture buffer: reference marking (§8.3.2), missing references
//! (§8.3.3), and output by bumping (§C.5.2).

use std::collections::VecDeque;
use std::sync::Arc;

use crate::arith;
use crate::frame;
use crate::frame::{Frame, Picture, PictureView};
use crate::ps::{Sps, SubLayerOrder};
use crate::rps;
use crate::rps::{Rps, RpsView};
use crate::share::share;
use vstd::arithmetic::power2::*;
use vstd::multiset::Multiset;
use vstd::prelude::*;

verus! {

/// Reference marking of a DPB picture.
#[derive(Debug, Clone, Copy, PartialEq, Eq, Structural)]
pub enum RefMark {
    Unused,
    ShortTerm,
    LongTerm,
}

/// One decoded picture buffer slot.
#[derive(Debug, Clone)]
pub struct DpbEntry {
    pub pic: Arc<Picture>,
    pub poc: i32,
    pub mark: RefMark,
    pub needed_for_output: bool,
    pub pic_latency: u32,
    pub pts: Option<i64>,
    /// `pic_output_flag` after the RASL rule (§8.1.3): false for generated pictures.
    pub output_flag: bool,
}

/// A slot as its contents.
pub struct Slot {
    pub pic: PictureView,
    pub poc: int,
    pub mark: RefMark,
    pub waiting: bool,
    pub latency: int,
    pub pts: Option<i64>,
    pub output_flag: bool,
}

impl View for DpbEntry {
    type V = Slot;

    open spec fn view(&self) -> Slot {
        Slot {
            pic: self.pic@,
            poc: self.poc as int,
            mark: self.mark,
            waiting: self.needed_for_output,
            latency: self.pic_latency as int,
            pts: self.pts,
            output_flag: self.output_flag,
        }
    }
}

/// The slots of a buffer.
pub open spec fn slots(dpb: Seq<DpbEntry>) -> Seq<Slot> {
    Seq::new(dpb.len(), |i: int| dpb[i]@)
}

/// An output frame as its contents.
pub struct FrameView {
    pub pic: PictureView,
    pub poc: int,
    pub pts: Option<i64>,
    pub width: int,
    pub height: int,
}

impl View for Frame {
    type V = FrameView;

    open spec fn view(&self) -> FrameView {
        FrameView {
            pic: self.picture@,
            poc: self.poc as int,
            pts: self.pts,
            width: self.width as int,
            height: self.height as int,
        }
    }
}

/// The frames of an output queue.
pub open spec fn frames(q: Seq<Frame>) -> Seq<FrameView> {
    Seq::new(q.len(), |i: int| q[i]@)
}

// ---- finding references ----

/// A reference picture with that count: of the marked pictures, by the whole
/// count or by its low bits.
pub open spec fn is_ref(s: Slot, poc: int, lsb_only: bool, max_lsb: int) -> bool {
    s.mark != RefMark::Unused && (if lsb_only {
        rps::lsb_of(s.poc, max_lsb) == rps::lsb_of(poc, max_lsb)
    } else {
        s.poc == poc
    })
}

/// A short-term reference picture with that count.
pub open spec fn is_short_term(s: Slot, poc: int) -> bool {
    s.mark == RefMark::ShortTerm && s.poc == poc
}

/// `i` is the first slot for which `p` holds.
pub open spec fn is_first(d: Seq<Slot>, p: spec_fn(Slot) -> bool, i: int) -> bool {
    &&& 0 <= i < d.len()
    &&& p(d[i])
    &&& forall|j: int| #![trigger d[j]] 0 <= j < i ==> !p(d[j])
}

pub open spec fn ref_test(poc: int, lsb_only: bool, max_lsb: int) -> spec_fn(Slot) -> bool {
    |s: Slot| is_ref(s, poc, lsb_only, max_lsb)
}

pub open spec fn short_term_test(poc: int) -> spec_fn(Slot) -> bool {
    |s: Slot| is_short_term(s, poc)
}

/// No slot passes a test.
pub open spec fn none_of(d: Seq<Slot>, p: spec_fn(Slot) -> bool) -> bool {
    forall|j: int| #![trigger d[j]] 0 <= j < d.len() ==> !p(d[j])
}

/// Finds a reference picture by POC (full or LSB-only) among the pictures that
/// are marked as used for reference.
pub fn find_ref(dpb: &Vec<DpbEntry>, poc: i32, lsb_only: bool, log2_max: u8) -> (r: Option<usize>)
    requires
        log2_max <= 16,
    ensures
        match r {
            Some(i) => is_first(
                slots(dpb@),
                ref_test(poc as int, lsb_only, pow2(log2_max as nat) as int),
                i as int,
            ),
            None => none_of(
                slots(dpb@),
                ref_test(poc as int, lsb_only, pow2(log2_max as nat) as int),
            ),
        },
{
    let ghost max = pow2(log2_max as nat) as int;
    let low = rps::low_bits(poc, log2_max);
    let mut i: usize = 0;
    while i < dpb.len()
        invariant
            i <= dpb@.len(),
            log2_max <= 16,
            max == pow2(log2_max as nat),
            low == rps::lsb_of(poc as int, max),
            forall|j: int|
                #![trigger slots(dpb@)[j]]
                0 <= j < i ==> !is_ref(slots(dpb@)[j], poc as int, lsb_only, max),
        decreases dpb@.len() - i,
    {
        let e = &dpb[i];
        let hit = e.mark != RefMark::Unused && if lsb_only {
            rps::low_bits(e.poc, log2_max) == low
        } else {
            e.poc == poc
        };
        assert(hit == is_ref(slots(dpb@)[i as int], poc as int, lsb_only, max));
        if hit {
            return Some(i);
        }
        i += 1;
    }
    None
}

/// Finds a short-term reference picture by POC.
pub fn find_short_term(dpb: &Vec<DpbEntry>, poc: i32) -> (r: Option<usize>)
    ensures
        match r {
            Some(i) => is_first(slots(dpb@), short_term_test(poc as int), i as int),
            None => none_of(slots(dpb@), short_term_test(poc as int)),
        },
{
    let mut i: usize = 0;
    while i < dpb.len()
        invariant
            i <= dpb@.len(),
            forall|j: int|
                #![trigger slots(dpb@)[j]]
                0 <= j < i ==> !is_short_term(slots(dpb@)[j], poc as int),
        decreases dpb@.len() - i,
    {
        let e = &dpb[i];
        let hit = e.mark == RefMark::ShortTerm && e.poc == poc;
        assert(hit == is_short_term(slots(dpb@)[i as int], poc as int));
        if hit {
            return Some(i);
        }
        i += 1;
    }
    None
}

// ---- marking (§8.3.2) ----

/// Slot `i` is what a long-term entry among the first `n` refers to.
pub open spec fn named_long_term(
    d: Seq<Slot>,
    list: Seq<(i32, bool)>,
    max_lsb: int,
    i: int,
) -> bool {
    exists|k: int|
        #![trigger list[k]]
        0 <= k < list.len() && is_first(d, ref_test(list[k].0 as int, !list[k].1, max_lsb), i)
}

/// Slot `i` is what a short-term entry refers to.
pub open spec fn named_short_term(d: Seq<Slot>, list: Seq<i32>, i: int) -> bool {
    exists|k: int|
        #![trigger list[k]]
        0 <= k < list.len() && is_first(d, short_term_test(list[k] as int), i)
}

/// The marking of slot `i` after the reference picture set is applied: what a
/// long-term entry names is long-term, what a short-term entry names is
/// short-term, and nothing else is a reference any more.
pub open spec fn new_mark(d: Seq<Slot>, r: RpsView, max_lsb: int, i: int) -> RefMark {
    if named_long_term(d, r.lt_curr + r.lt_foll, max_lsb, i) {
        RefMark::LongTerm
    } else if named_short_term(d, r.before + r.after + r.foll, i) {
        RefMark::ShortTerm
    } else {
        RefMark::Unused
    }
}

/// The buffer with its reference picture set applied.
pub open spec fn remarked(d: Seq<Slot>, r: RpsView, max_lsb: int) -> Seq<Slot> {
    Seq::new(d.len(), |i: int| Slot { mark: new_mark(d, r, max_lsb, i), ..d[i] })
}

/// The buffer with no references: before an IDR picture.
pub open spec fn unmarked(d: Seq<Slot>) -> Seq<Slot> {
    Seq::new(d.len(), |i: int| Slot { mark: RefMark::Unused, ..d[i] })
}

/// Marks what the long-term entries name, over the first entries of `keep`.
fn keep_long_term(
    dpb: &Vec<DpbEntry>,
    list: &Vec<(i32, bool)>,
    log2_max: u8,
    keep: &mut Vec<RefMark>,
    Ghost(done): Ghost<Seq<(i32, bool)>>,
)
    requires
        log2_max <= 16,
        old(keep)@.len() == dpb@.len(),
        forall|i: int|
            #![trigger old(keep)@[i]]
            0 <= i < dpb@.len() ==> old(keep)@[i] == (if named_long_term(
                slots(dpb@),
                done,
                pow2(log2_max as nat) as int,
                i,
            ) {
                RefMark::LongTerm
            } else {
                RefMark::Unused
            }),
    ensures
        final(keep)@.len() == dpb@.len(),
        forall|i: int|
            #![trigger final(keep)@[i]]
            0 <= i < dpb@.len() ==> final(keep)@[i] == (if named_long_term(
                slots(dpb@),
                done + list@,
                pow2(log2_max as nat) as int,
                i,
            ) {
                RefMark::LongTerm
            } else {
                RefMark::Unused
            }),
{
    let ghost d = slots(dpb@);
    let ghost max = pow2(log2_max as nat) as int;
    let mut k: usize = 0;
    assert(done + list@.take(0) =~= done);
    while k < list.len()
        invariant
            k <= list@.len(),
            log2_max <= 16,
            max == pow2(log2_max as nat),
            d == slots(dpb@),
            keep@.len() == dpb@.len(),
            forall|i: int|
                #![trigger keep@[i]]
                0 <= i < dpb@.len() ==> keep@[i] == (if named_long_term(
                    d,
                    done + list@.take(k as int),
                    max,
                    i,
                ) {
                    RefMark::LongTerm
                } else {
                    RefMark::Unused
                }),
        decreases list@.len() - k,
    {
        let (p, msb) = list[k];
        let ghost before = keep@;
        let ghost seen = done + list@.take(k as int);
        let ghost next = done + list@.take(k + 1);
        let hit = find_ref(dpb, p, !msb, log2_max);
        match hit {
            Some(i) => {
                keep[i] = RefMark::LongTerm;
            },
            None => {},
        }
        proof {
            assert(next =~= seen.push(list@[k as int]));
            assert forall|i: int|
                #![trigger keep@[i]]
                0 <= i < dpb@.len() implies keep@[i] == (if named_long_term(d, next, max, i) {
                RefMark::LongTerm
            } else {
                RefMark::Unused
            }) by {
                lemma_named_long_term_push(d, seen, list@[k as int], max, i);
                assert(before[i] == (if named_long_term(d, seen, max, i) {
                    RefMark::LongTerm
                } else {
                    RefMark::Unused
                }));
                lemma_first_unique(d, ref_test(p as int, !msb, max), i, match hit {
                    Some(h) => h as int,
                    None => -1,
                });
            }
        }
        k += 1;
    }
    assert(list@.take(k as int) =~= list@);
}

/// Naming with one more entry.
proof fn lemma_named_long_term_push(
    d: Seq<Slot>,
    list: Seq<(i32, bool)>,
    e: (i32, bool),
    max_lsb: int,
    i: int,
)
    ensures
        named_long_term(d, list.push(e), max_lsb, i) <==> named_long_term(d, list, max_lsb, i)
            || is_first(d, ref_test(e.0 as int, !e.1, max_lsb), i),
{
    let more = list.push(e);
    if named_long_term(d, list, max_lsb, i) {
        let k = choose|k: int|
            #![trigger list[k]]
            0 <= k < list.len() && is_first(d, ref_test(list[k].0 as int, !list[k].1, max_lsb), i);
        assert(more[k] == list[k]);
    }
    if is_first(d, ref_test(e.0 as int, !e.1, max_lsb), i) {
        assert(more[list.len() as int] == e);
    }
    if named_long_term(d, more, max_lsb, i) {
        let k = choose|k: int|
            #![trigger more[k]]
            0 <= k < more.len() && is_first(d, ref_test(more[k].0 as int, !more[k].1, max_lsb), i);
        if k < list.len() {
            assert(list[k] == more[k]);
        }
    }
}

/// There is one first slot at most.
proof fn lemma_first_unique(d: Seq<Slot>, p: spec_fn(Slot) -> bool, i: int, j: int)
    ensures
        is_first(d, p, i) && is_first(d, p, j) ==> i == j,
        none_of(d, p) ==> !is_first(d, p, i),
{
}

/// Marks what the short-term entries name, where nothing else is marked yet.
fn keep_short_term(
    dpb: &Vec<DpbEntry>,
    list: &Vec<i32>,
    keep: &mut Vec<RefMark>,
    Ghost(done): Ghost<Seq<i32>>,
    Ghost(lt): Ghost<spec_fn(int) -> bool>,
)
    requires
        old(keep)@.len() == dpb@.len(),
        forall|i: int|
            #![trigger old(keep)@[i]]
            0 <= i < dpb@.len() ==> old(keep)@[i] == mark_by(lt(i), named_short_term(
                slots(dpb@),
                done,
                i,
            )),
    ensures
        final(keep)@.len() == dpb@.len(),
        forall|i: int|
            #![trigger final(keep)@[i]]
            0 <= i < dpb@.len() ==> final(keep)@[i] == mark_by(lt(i), named_short_term(
                slots(dpb@),
                done + list@,
                i,
            )),
{
    let ghost d = slots(dpb@);
    let mut k: usize = 0;
    assert(done + list@.take(0) =~= done);
    while k < list.len()
        invariant
            k <= list@.len(),
            d == slots(dpb@),
            keep@.len() == dpb@.len(),
            forall|i: int|
                #![trigger keep@[i]]
                0 <= i < dpb@.len() ==> keep@[i] == mark_by(lt(i), named_short_term(
                    d,
                    done + list@.take(k as int),
                    i,
                )),
        decreases list@.len() - k,
    {
        let p = list[k];
        let ghost before = keep@;
        let ghost seen = done + list@.take(k as int);
        let ghost next = done + list@.take(k + 1);
        let hit = find_short_term(dpb, p);
        match hit {
            Some(i) => {
                if keep[i] == RefMark::Unused {
                    keep[i] = RefMark::ShortTerm;
                }
            },
            None => {},
        }
        proof {
            assert(next =~= seen.push(p));
            assert forall|i: int|
                #![trigger keep@[i]]
                0 <= i < dpb@.len() implies keep@[i] == mark_by(lt(i), named_short_term(d, next, i)) by {
                lemma_named_short_term_push(d, seen, p, i);
                assert(before[i] == mark_by(lt(i), named_short_term(d, seen, i)));
                lemma_first_unique(d, short_term_test(p as int), i, match hit {
                    Some(h) => h as int,
                    None => -1,
                });
            }
        }
        k += 1;
    }
    assert(list@.take(k as int) =~= list@);
}

spec fn mark_by(lt: bool, st: bool) -> RefMark {
    if lt {
        RefMark::LongTerm
    } else if st {
        RefMark::ShortTerm
    } else {
        RefMark::Unused
    }
}

/// Naming with one more entry.
proof fn lemma_named_short_term_push(d: Seq<Slot>, list: Seq<i32>, e: i32, i: int)
    ensures
        named_short_term(d, list.push(e), i) <==> named_short_term(d, list, i) || is_first(
            d,
            short_term_test(e as int),
            i,
        ),
{
    let more = list.push(e);
    if named_short_term(d, list, i) {
        let k = choose|k: int|
            #![trigger list[k]]
            0 <= k < list.len() && is_first(d, short_term_test(list[k] as int), i);
        assert(more[k] == list[k]);
    }
    if is_first(d, short_term_test(e as int), i) {
        assert(more[list.len() as int] == e);
    }
    if named_short_term(d, more, i) {
        let k = choose|k: int|
            #![trigger more[k]]
            0 <= k < more.len() && is_first(d, short_term_test(more[k] as int), i);
        if k < list.len() {
            assert(list[k] == more[k]);
        }
    }
}

/// Gives every slot the marking of `keep`.
fn set_marks(dpb: &mut Vec<DpbEntry>, keep: &Vec<RefMark>)
    requires
        keep@.len() == old(dpb)@.len(),
    ensures
        slots(final(dpb)@) == Seq::new(
            old(dpb)@.len(),
            |i: int| Slot { mark: keep@[i], ..slots(old(dpb)@)[i] },
        ),
        same_pictures(final(dpb)@, old(dpb)@),
{
    let ghost d0 = dpb@;
    let mut i: usize = 0;
    while i < dpb.len()
        invariant
            i <= dpb@.len() == d0.len(),
            keep@.len() == d0.len(),
            forall|j: int|
                #![trigger dpb@[j]]
                0 <= j < d0.len() ==> dpb@[j].pic == d0[j].pic && dpb@[j]@ == (if j < i {
                    Slot { mark: keep@[j], ..d0[j]@ }
                } else {
                    d0[j]@
                }),
        decreases dpb@.len() - i,
    {
        dpb[i].mark = keep[i];
        i += 1;
    }
    assert(slots(dpb@) =~= Seq::new(d0.len(), |i: int| Slot { mark: keep@[i], ..slots(d0)[i] }));
}

/// The slots hold the same pictures.
pub open spec fn same_pictures(a: Seq<DpbEntry>, b: Seq<DpbEntry>) -> bool {
    &&& a.len() == b.len()
    &&& forall|i: int| #![trigger a[i]] 0 <= i < a.len() ==> a[i].pic == b[i].pic
}

/// Applies a picture's reference picture set to the buffer.
pub fn mark_references(dpb: &mut Vec<DpbEntry>, r: &Rps, log2_max: u8)
    requires
        log2_max <= 16,
    ensures
        slots(final(dpb)@) == remarked(slots(old(dpb)@), r@, pow2(log2_max as nat) as int),
        same_pictures(final(dpb)@, old(dpb)@),
{
    let ghost d = slots(dpb@);
    let ghost max = pow2(log2_max as nat) as int;
    let mut keep: Vec<RefMark> = Vec::new();
    while keep.len() < dpb.len()
        invariant
            keep@.len() <= dpb@.len(),
            forall|i: int|
                #![trigger keep@[i]]
                0 <= i < keep@.len() ==> keep@[i] == RefMark::Unused,
        decreases dpb@.len() - keep@.len(),
    {
        keep.push(RefMark::Unused);
    }
    keep_long_term(dpb, &r.lt_curr, log2_max, &mut keep, Ghost(Seq::empty()));
    assert(Seq::<(i32, bool)>::empty() + r.lt_curr@ =~= r.lt_curr@);
    keep_long_term(dpb, &r.lt_foll, log2_max, &mut keep, Ghost(r.lt_curr@));
    let ghost lt = |i: int| named_long_term(d, r.lt_curr@ + r.lt_foll@, max, i);
    keep_short_term(dpb, &r.before, &mut keep, Ghost(Seq::empty()), Ghost(lt));
    assert(Seq::<i32>::empty() + r.before@ =~= r.before@);
    keep_short_term(dpb, &r.after, &mut keep, Ghost(r.before@), Ghost(lt));
    keep_short_term(dpb, &r.foll, &mut keep, Ghost(r.before@ + r.after@), Ghost(lt));
    set_marks(dpb, &keep);
    assert(slots(dpb@) =~= remarked(d, r@, max));
}

/// Takes every picture out of use as a reference.
pub fn unmark_all(dpb: &mut Vec<DpbEntry>)
    ensures
        slots(final(dpb)@) == unmarked(slots(old(dpb)@)),
        same_pictures(final(dpb)@, old(dpb)@),
{
    let ghost d0 = dpb@;
    let mut i: usize = 0;
    while i < dpb.len()
        invariant
            i <= dpb@.len() == d0.len(),
            forall|j: int|
                #![trigger dpb@[j]]
                0 <= j < d0.len() ==> dpb@[j].pic == d0[j].pic && dpb@[j]@ == (if j < i {
                    Slot { mark: RefMark::Unused, ..d0[j]@ }
                } else {
                    d0[j]@
                }),
        decreases dpb@.len() - i,
    {
        dpb[i].mark = RefMark::Unused;
        i += 1;
    }
    assert(slots(dpb@) =~= unmarked(slots(d0)));
}

// ---- missing references (§8.3.3) ----

/// The short-term entries that no picture answers to.
pub open spec fn missing_short_term(d: Seq<Slot>, list: Seq<i32>) -> Seq<(i32, bool)>
    decreases list.len(),
{
    if list.len() == 0 {
        Seq::empty()
    } else {
        let rest = missing_short_term(d, list.drop_last());
        if none_of(d, short_term_test(list.last() as int)) {
            rest.push((list.last(), false))
        } else {
            rest
        }
    }
}

/// The long-term entries that no picture answers to.
pub open spec fn missing_long_term(d: Seq<Slot>, list: Seq<(i32, bool)>, max_lsb: int) -> Seq<
    (i32, bool),
>
    decreases list.len(),
{
    if list.len() == 0 {
        Seq::empty()
    } else {
        let rest = missing_long_term(d, list.drop_last(), max_lsb);
        let (p, msb) = list.last();
        if none_of(d, ref_test(p as int, !msb, max_lsb)) {
            rest.push((p, true))
        } else {
            rest
        }
    }
}

/// The references of the current picture that are missing: their counts, and
/// whether they are long-term.
pub open spec fn missing(d: Seq<Slot>, r: RpsView, max_lsb: int) -> Seq<(i32, bool)> {
    missing_short_term(d, r.before + r.after) + missing_long_term(d, r.lt_curr, max_lsb)
}

/// §8.3.3.2: an unavailable reference picture: mid-grey.
pub open spec fn grey_picture(sps: Sps, poc: i32) -> PictureView {
    PictureView {
        poc,
        ..frame::flat_picture(
            sps.width as usize,
            sps.height as usize,
            sps.chroma_format_idc,
            sps.bit_depth_luma,
            sps.bit_depth_chroma,
            pow2((sps.bit_depth_luma - 1) as nat) as u16,
            pow2((sps.bit_depth_chroma - 1) as nat) as u16,
        )
    }
}

/// The slot of a generated reference: not for output.
pub open spec fn grey_slot(sps: Sps, poc: i32, long_term: bool) -> Slot {
    Slot {
        pic: grey_picture(sps, poc),
        poc: poc as int,
        mark: if long_term {
            RefMark::LongTerm
        } else {
            RefMark::ShortTerm
        },
        waiting: false,
        latency: 0,
        pts: None,
        output_flag: false,
    }
}

/// The buffer with its missing references generated.
pub open spec fn completed(d: Seq<Slot>, sps: Sps, lost: Seq<(i32, bool)>) -> Seq<Slot> {
    d + Seq::new(lost.len(), |i: int| grey_slot(sps, lost[i].0, lost[i].1))
}

/// Sets every sample of a plane.
fn fill_plane(p: &mut frame::Plane, v: u16)
    ensures
        final(p)@ == (frame::PlaneView {
            data: Seq::new(old(p)@.data.len(), |i: int| v),
            ..old(p)@
        }),
{
    let n = p.data.len();
    let mut i: usize = 0;
    while i < n
        invariant
            i <= n == p.data@.len() == old(p).data@.len(),
            p.width == old(p).width,
            p.height == old(p).height,
            p.stride == old(p).stride,
            forall|j: int| #![trigger p.data@[j]] 0 <= j < i ==> p.data@[j] == v,
        decreases n - i,
    {
        p.data[i] = v;
        i += 1;
    }
    assert(p.data@ =~= Seq::new(old(p)@.data.len(), |i: int| v));
}

/// Generates an unavailable reference picture.
pub fn generate_picture(sps: &Sps, poc: i32) -> (pic: Picture)
    requires
        sps.wf(),
    ensures
        pic@ == grey_picture(*sps, poc),
        pic.wf(),
{
    let (w, h) = (sps.width as usize, sps.height as usize);
    proof {
        assert(w * h <= 0xffff * 0xffff) by (nonlinear_arith)
            requires
                0 <= w <= 0xffff,
                0 <= h <= 0xffff,
        ;
        arith::lemma_pow2_le((sps.bit_depth_luma - 1) as nat, 15);
        arith::lemma_pow2_le((sps.bit_depth_chroma - 1) as nat, 15);
        lemma2_to64();
    }
    let mut pic = Picture::new(
        w,
        h,
        sps.chroma_format_idc,
        sps.bit_depth_luma,
        sps.bit_depth_chroma,
    );
    let vl = arith::pow2_i32((sps.bit_depth_luma - 1) as u32) as u16;
    let vc = arith::pow2_i32((sps.bit_depth_chroma - 1) as u32) as u16;
    fill_plane(&mut pic.planes[0], vl);
    fill_plane(&mut pic.planes[1], vc);
    fill_plane(&mut pic.planes[2], vc);
    pic.poc = poc;
    proof {
        let g = grey_picture(*sps, poc);
        assert(pic@.y =~= g.y);
        assert(pic@.cb =~= g.cb);
        assert(pic@.cr =~= g.cr);
    }
    pic
}

/// Collects the missing references of the current picture.
pub fn find_missing(dpb: &Vec<DpbEntry>, r: &Rps, log2_max: u8) -> (lost: Vec<(i32, bool)>)
    requires
        log2_max <= 16,
    ensures
        lost@ == missing(slots(dpb@), r@, pow2(log2_max as nat) as int),
        lost@.len() <= r@.before.len() + r@.after.len() + r@.lt_curr.len(),
{
    let ghost d = slots(dpb@);
    let ghost max = pow2(log2_max as nat) as int;
    let mut lost: Vec<(i32, bool)> = Vec::new();
    let ghost all = r@.before + r@.after;
    assert(all.take(0) =~= Seq::empty());
    assert(lost@ =~= Seq::empty());
    lost_short_term(dpb, &r.before, &mut lost, Ghost(Seq::empty()));
    assert(Seq::<i32>::empty() + r.before@ =~= r.before@);
    lost_short_term(dpb, &r.after, &mut lost, Ghost(r.before@));
    let ghost st = missing_short_term(d, all);
    let mut k: usize = 0;
    proof {
        assert(r.lt_curr@.take(0) =~= Seq::empty());
        assert(lost@ =~= st + missing_long_term(d, r.lt_curr@.take(0), max));
    }
    while k < r.lt_curr.len()
        invariant
            k <= r.lt_curr@.len(),
            log2_max <= 16,
            d == slots(dpb@),
            max == pow2(log2_max as nat),
            lost@ == st + missing_long_term(d, r.lt_curr@.take(k as int), max),
            lost@.len() <= r@.before.len() + r@.after.len() + k,
        decreases r.lt_curr@.len() - k,
    {
        let (p, msb) = r.lt_curr[k];
        proof {
            assert(r.lt_curr@.take(k + 1).drop_last() =~= r.lt_curr@.take(k as int));
            assert(r.lt_curr@.take(k + 1).last() == (p, msb));
        }
        match find_ref(dpb, p, !msb, log2_max) {
            None => {
                lost.push((p, true));
            },
            Some(i) => {
                assert(ref_test(p as int, !msb, max)(d[i as int]));
            },
        }
        k += 1;
        assert(lost@ =~= st + missing_long_term(d, r.lt_curr@.take(k as int), max));
    }
    assert(r.lt_curr@.take(k as int) =~= r.lt_curr@);
    lost
}

/// Collects the missing entries of a short-term list.
fn lost_short_term(
    dpb: &Vec<DpbEntry>,
    list: &Vec<i32>,
    lost: &mut Vec<(i32, bool)>,
    Ghost(done): Ghost<Seq<i32>>,
)
    requires
        old(lost)@ == missing_short_term(slots(dpb@), done),
    ensures
        final(lost)@ == missing_short_term(slots(dpb@), done + list@),
        final(lost)@.len() <= old(lost)@.len() + list@.len(),
{
    let ghost d = slots(dpb@);
    let ghost n0 = lost@.len();
    let mut k: usize = 0;
    assert(done + list@.take(0) =~= done);
    while k < list.len()
        invariant
            k <= list@.len(),
            d == slots(dpb@),
            lost@ == missing_short_term(d, done + list@.take(k as int)),
            lost@.len() <= n0 + k,
        decreases list@.len() - k,
    {
        let p = list[k];
        proof {
            let next = done + list@.take(k + 1);
            assert(next.drop_last() =~= done + list@.take(k as int));
            assert(next.last() == p);
        }
        match find_short_term(dpb, p) {
            None => {
                lost.push((p, false));
            },
            Some(i) => {
                assert(short_term_test(p as int)(d[i as int]));
            },
        }
        k += 1;
    }
    assert(list@.take(k as int) =~= list@);
}

/// Generates the missing references into the buffer.
pub fn generate_missing(dpb: &mut Vec<DpbEntry>, sps: &Sps, lost: &Vec<(i32, bool)>)
    requires
        sps.wf(),
    ensures
        slots(final(dpb)@) == completed(slots(old(dpb)@), *sps, lost@),
        forall|i: int|
            #![trigger final(dpb)@[i]]
            0 <= i < old(dpb)@.len() ==> final(dpb)@[i] == old(dpb)@[i],
        final(dpb)@.len() == old(dpb)@.len() + lost@.len(),
        forall|i: int|
            #![trigger final(dpb)@[i]]
            old(dpb)@.len() <= i < final(dpb)@.len() ==> final(dpb)@[i].pic.wf(),
{
    let ghost d0 = dpb@;
    let mut k: usize = 0;
    assert(slots(dpb@) =~= completed(slots(d0), *sps, lost@.take(0)));
    while k < lost.len()
        invariant
            k <= lost@.len(),
            sps.wf(),
            dpb@.len() == d0.len() + k,
            slots(dpb@) == completed(slots(d0), *sps, lost@.take(k as int)),
            forall|i: int| #![trigger dpb@[i]] 0 <= i < d0.len() ==> dpb@[i] == d0[i],
            forall|i: int| #![trigger dpb@[i]] d0.len() <= i < dpb@.len() ==> dpb@[i].pic.wf(),
        decreases lost@.len() - k,
    {
        let (p, lt) = lost[k];
        let ghost before = dpb@;
        let pic = generate_picture(sps, p);
        dpb.push(
            DpbEntry {
                pic: Arc::new(pic),
                poc: p,
                mark: if lt {
                    RefMark::LongTerm
                } else {
                    RefMark::ShortTerm
                },
                needed_for_output: false,
                pic_latency: 0,
                pts: None,
                output_flag: false,
            },
        );
        k += 1;
        assert(slots(dpb@) =~= slots(before).push(grey_slot(*sps, p, lt)));
        assert(slots(dpb@) =~= completed(slots(d0), *sps, lost@.take(k as int)));
    }
    assert(lost@.take(k as int) =~= lost@);
}

// ---- output (§C.5.2.4) ----

/// The waiting picture with the smallest count, the first of them if several
/// have it; -1 when none is waiting.
pub open spec fn lowest(d: Seq<Slot>) -> int
    decreases d.len(),
{
    if d.len() == 0 {
        -1
    } else {
        let m = lowest(d.drop_last());
        if d.last().waiting && (m < 0 || d.last().poc < d[m].poc) {
            d.len() - 1
        } else {
            m
        }
    }
}

/// The number of pictures waiting for output.
pub open spec fn n_waiting(d: Seq<Slot>) -> nat
    decreases d.len(),
{
    if d.len() == 0 {
        0
    } else {
        n_waiting(d.drop_last()) + (if d.last().waiting {
            1nat
        } else {
            0nat
        })
    }
}

/// The frame that a slot gives: its picture in its crop window.
pub open spec fn frame_of(s: Slot) -> FrameView {
    FrameView {
        pic: s.pic,
        poc: s.poc,
        pts: s.pts,
        width: s.pic.crop.2 as int,
        height: s.pic.crop.3 as int,
    }
}

/// A buffer and its output queue.
#[verifier::ext_equal]
pub struct Buffered {
    pub d: Seq<Slot>,
    pub out: Seq<FrameView>,
}

/// C.5.2.4: the smallest waiting picture is output, and leaves the buffer if
/// it is no reference.
pub open spec fn bumped(b: Buffered) -> Buffered {
    let i = lowest(b.d);
    if i < 0 {
        b
    } else {
        let s = b.d[i];
        Buffered {
            d: if s.mark == RefMark::Unused {
                b.d.remove(i)
            } else {
                b.d.update(i, Slot { waiting: false, ..s })
            },
            out: b.out.push(frame_of(s)),
        }
    }
}

/// What `lowest` finds.
pub proof fn lemma_lowest(d: Seq<Slot>)
    ensures
        -1 <= lowest(d) < d.len(),
        lowest(d) >= 0 ==> d[lowest(d)].waiting && forall|j: int|
            #![trigger d[j]]
            0 <= j < d.len() && d[j].waiting ==> d[lowest(d)].poc <= d[j].poc && (j < lowest(d)
                ==> d[lowest(d)].poc < d[j].poc),
        lowest(d) < 0 ==> forall|j: int| #![trigger d[j]] 0 <= j < d.len() ==> !d[j].waiting,
        lowest(d) >= 0 <==> n_waiting(d) > 0,
    decreases d.len(),
{
    if d.len() > 0 {
        let e = d.drop_last();
        lemma_lowest(e);
        let m = lowest(e);
        assert forall|j: int| #![trigger d[j]] 0 <= j < e.len() implies d[j] == e[j] by {}
        if m >= 0 {
            assert(e[m] == d[m]);
        }
    }
}

/// Removing or clearing a slot.
proof fn lemma_n_waiting_change(d: Seq<Slot>, i: int, s: Slot)
    requires
        0 <= i < d.len(),
    ensures
        n_waiting(d.remove(i)) + (if d[i].waiting {
            1nat
        } else {
            0nat
        }) == n_waiting(d),
        n_waiting(d.update(i, s)) + (if d[i].waiting {
            1nat
        } else {
            0nat
        }) == n_waiting(d) + (if s.waiting {
            1nat
        } else {
            0nat
        }),
    decreases d.len(),
{
    if i == d.len() - 1 {
        assert(d.remove(i) =~= d.drop_last());
        assert(d.update(i, s).drop_last() =~= d.drop_last());
    } else {
        lemma_n_waiting_change(d.drop_last(), i, s);
        assert(d.remove(i).drop_last() =~= d.drop_last().remove(i));
        assert(d.update(i, s).drop_last() =~= d.drop_last().update(i, s));
    }
}

/// A bump takes one picture off the waiting ones.
pub proof fn lemma_bumped(b: Buffered)
    ensures
        n_waiting(b.d) > 0 ==> n_waiting(bumped(b).d) == n_waiting(b.d) - 1 && bumped(b).out.len()
            == b.out.len() + 1,
        n_waiting(b.d) == 0 ==> bumped(b) == b,
{
    lemma_lowest(b.d);
    let i = lowest(b.d);
    if i >= 0 {
        lemma_n_waiting_change(b.d, i, Slot { waiting: false, ..b.d[i] });
    }
}

/// Outputs the smallest-POC picture waiting for output.
pub fn bump(dpb: &mut Vec<DpbEntry>, output: &mut VecDeque<Frame>)
    ensures
        (Buffered { d: slots(final(dpb)@), out: frames(final(output)@) }) == bumped(
            Buffered { d: slots(old(dpb)@), out: frames(old(output)@) },
        ),
{
    let ghost d = slots(dpb@);
    let mut best: Option<usize> = None;
    let mut i: usize = 0;
    assert(d.take(0) =~= Seq::empty());
    while i < dpb.len()
        invariant
            i <= dpb@.len(),
            d == slots(dpb@),
            match best {
                Some(b) => lowest(d.take(i as int)) == b && b < i,
                None => lowest(d.take(i as int)) < 0,
            },
        decreases dpb@.len() - i,
    {
        let e = &dpb[i];
        proof {
            assert(d.take(i + 1).drop_last() =~= d.take(i as int));
            assert(d.take(i + 1).last() == d[i as int]);
        }
        if e.needed_for_output {
            let better = match best {
                None => true,
                Some(b) => e.poc < dpb[b].poc,
            };
            if better {
                best = Some(i);
            }
        }
        i += 1;
    }
    assert(d.take(i as int) =~= d);
    match best {
        None => {},
        Some(i) => {
            let ghost s = d[i as int];
            dpb[i].needed_for_output = false;
            let e = &dpb[i];
            let (_, _, w, h) = e.pic.crop;
            let f = Frame {
                picture: share(&e.pic),
                poc: e.poc,
                pts: e.pts,
                width: w,
                height: h,
            };
            let unused = e.mark == RefMark::Unused;
            let ghost out0 = output@;
            output.push_back(f);
            assert(frames(output@) =~= frames(out0).push(frame_of(s)));
            if unused {
                let _ = dpb.remove(i);
                assert(slots(dpb@) =~= d.remove(i as int));
            } else {
                assert(slots(dpb@) =~= d.update(i as int, Slot { waiting: false, ..s }));
            }
        },
    }
}

/// Every waiting picture output in turn.
pub open spec fn drained(b: Buffered) -> Buffered
    decreases n_waiting(b.d),
{
    if n_waiting(b.d) == 0 {
        b
    } else {
        proof {
            lemma_bumped(b);
        }
        drained(bumped(b))
    }
}

/// The number of waiting pictures.
fn count_waiting(dpb: &Vec<DpbEntry>) -> (n: usize)
    ensures
        n == n_waiting(slots(dpb@)),
        n <= dpb@.len(),
{
    let ghost d = slots(dpb@);
    let mut n: usize = 0;
    let mut i: usize = 0;
    assert(d.take(0) =~= Seq::empty());
    while i < dpb.len()
        invariant
            n <= i <= dpb@.len(),
            d == slots(dpb@),
            n == n_waiting(d.take(i as int)),
        decreases dpb@.len() - i,
    {
        proof {
            assert(d.take(i + 1).drop_last() =~= d.take(i as int));
            assert(d.take(i + 1).last() == d[i as int]);
        }
        if dpb[i].needed_for_output {
            n += 1;
        }
        i += 1;
    }
    assert(d.take(i as int) =~= d);
    n
}

/// Outputs every waiting picture in POC order and empties the buffer.
pub fn flush_dpb_output(dpb: &mut Vec<DpbEntry>, output: &mut VecDeque<Frame>)
    ensures
        final(dpb)@.len() == 0,
        frames(final(output)@) == drained(
            Buffered { d: slots(old(dpb)@), out: frames(old(output)@) },
        ).out,
{
    let ghost b0 = Buffered { d: slots(dpb@), out: frames(output@) };
    while count_waiting(dpb) > 0
        invariant
            drained(b0) == drained(Buffered { d: slots(dpb@), out: frames(output@) }),
        decreases n_waiting(slots(dpb@)),
    {
        proof {
            lemma_bumped(Buffered { d: slots(dpb@), out: frames(output@) });
        }
        bump(dpb, output);
    }
    dpb.clear();
}

// ---- the order of output ----

/// The frames of the pictures waiting for output, in buffer order.
pub open spec fn waiting_frames(d: Seq<Slot>) -> Seq<FrameView>
    decreases d.len(),
{
    if d.len() == 0 {
        Seq::empty()
    } else if d.last().waiting {
        waiting_frames(d.drop_last()).push(frame_of(d.last()))
    } else {
        waiting_frames(d.drop_last())
    }
}

/// Output counts do not fall from index `n` on.
pub open spec fn rising_from(out: Seq<FrameView>, n: int) -> bool {
    forall|i: int, j: int|
        #![trigger out[i], out[j]]
        n <= i < j < out.len() ==> out[i].poc <= out[j].poc
}

/// No picture still waiting comes before a frame from index `n` on.
pub open spec fn none_overtaken(b: Buffered, n: int) -> bool {
    forall|i: int, k: int|
        #![trigger b.out[i], b.d[k]]
        n <= i < b.out.len() && 0 <= k < b.d.len() && b.d[k].waiting ==> b.out[i].poc
            <= b.d[k].poc
}

proof fn lemma_waiting_frames_change(d: Seq<Slot>, i: int, s: Slot)
    requires
        0 <= i < d.len(),
        d[i].waiting,
        !s.waiting,
    ensures
        waiting_frames(d).to_multiset() == waiting_frames(d.remove(i)).to_multiset().insert(
            frame_of(d[i]),
        ),
        waiting_frames(d.update(i, s)) == waiting_frames(d.remove(i)),
    decreases d.len(),
{
    broadcast use vstd::seq_lib::group_to_multiset_ensures;

    let e = d.drop_last();
    if i == d.len() - 1 {
        assert(d.remove(i) =~= e);
        assert(d.update(i, s).drop_last() =~= e);
    } else {
        lemma_waiting_frames_change(e, i, s);
        assert(d.remove(i).drop_last() =~= e.remove(i));
        assert(d.update(i, s).drop_last() =~= e.update(i, s));
        assert(d.remove(i).last() == d.last());
        assert(d.update(i, s).last() == d.last());
        if d.last().waiting {
            let f = frame_of(d.last());
            assert(waiting_frames(d) == waiting_frames(e).push(f));
            assert(waiting_frames(d.remove(i)) == waiting_frames(e.remove(i)).push(f));
            let m = waiting_frames(e.remove(i)).to_multiset();
            assert(m.insert(frame_of(d[i])).insert(f) =~= m.insert(f).insert(frame_of(d[i])));
        }
    }
}

/// A bump outputs the frame of a waiting picture with the smallest count.
proof fn lemma_bumped_frames(b: Buffered, n: int)
    requires
        n_waiting(b.d) > 0,
        0 <= n <= b.out.len(),
        rising_from(b.out, n),
        none_overtaken(b, n),
    ensures
        bumped(b).out.drop_last() == b.out,
        bumped(b).out.len() == b.out.len() + 1,
        rising_from(bumped(b).out, n),
        none_overtaken(bumped(b), n),
        waiting_frames(b.d).to_multiset() == waiting_frames(bumped(b).d).to_multiset().insert(
            bumped(b).out.last(),
        ),
{
    lemma_lowest(b.d);
    let i = lowest(b.d);
    let s = b.d[i];
    let a = bumped(b);
    lemma_waiting_frames_change(b.d, i, Slot { waiting: false, ..s });
    assert(a.out.drop_last() =~= b.out);
    assert forall|j: int, k: int|
        #![trigger a.out[j], a.d[k]]
        n <= j < a.out.len() && 0 <= k < a.d.len() && a.d[k].waiting implies a.out[j].poc
        <= a.d[k].poc by {
        let k0 = if s.mark == RefMark::Unused && k >= i {
            k + 1
        } else {
            k
        };
        assert(a.d[k] == b.d[k0]);
        if j < b.out.len() {
            assert(a.out[j] == b.out[j]);
        }
    }
    assert forall|j: int, k: int|
        #![trigger a.out[j], a.out[k]]
        n <= j < k < a.out.len() implies a.out[j].poc <= a.out[k].poc by {
        assert(a.out[j] == b.out[j]);
        if k < b.out.len() {
            assert(a.out[k] == b.out[k]);
        } else {
            assert(b.out[j].poc <= b.d[i].poc);
        }
    }
}

/// Draining keeps a queue that rises from `n` on rising, keeps its front, and
/// appends every waiting picture once.
pub proof fn lemma_drained_from(b: Buffered, n: int)
    requires
        0 <= n <= b.out.len(),
        rising_from(b.out, n),
        none_overtaken(b, n),
    ensures
        rising_from(drained(b).out, n),
        n_waiting(drained(b).d) == 0,
        drained(b).out.len() >= b.out.len(),
        drained(b).out.take(b.out.len() as int) == b.out,
        drained(b).out.skip(b.out.len() as int).to_multiset() == waiting_frames(
            b.d,
        ).to_multiset(),
    decreases n_waiting(b.d),
{
    broadcast use vstd::seq_lib::group_to_multiset_ensures;

    let len = b.out.len() as int;
    if n_waiting(b.d) == 0 {
        assert(b.out.take(len) =~= b.out);
        assert(b.out.skip(len) =~= Seq::empty());
        lemma_none_waiting(b.d);
    } else {
        lemma_bumped(b);
        lemma_bumped_frames(b, n);
        let a = bumped(b);
        lemma_drained_from(a, n);
        let r = drained(b).out;
        assert(r.take(len) =~= r.take(len + 1).drop_last());
        let f = a.out.last();
        assert(r[len] == r.take(len + 1)[len]);
        assert(r.skip(len) =~= seq![f] + r.skip(len + 1));
        vstd::seq_lib::lemma_multiset_commutative(seq![f], r.skip(len + 1));
        assert(seq![f] =~= Seq::empty().push(f));
        assert(r.skip(len).to_multiset() =~= r.skip(len + 1).to_multiset().insert(f));
    }
}

proof fn lemma_none_waiting(d: Seq<Slot>)
    requires
        n_waiting(d) == 0,
    ensures
        waiting_frames(d) == Seq::<FrameView>::empty(),
    decreases d.len(),
{
    if d.len() > 0 {
        lemma_none_waiting(d.drop_last());
    }
}

/// Draining outputs every waiting picture exactly once, in POC order, after
/// what was queued before, and leaves none waiting.
pub proof fn lemma_drained_in_order(b: Buffered)
    ensures
        n_waiting(drained(b).d) == 0,
        drained(b).out.take(b.out.len() as int) == b.out,
        rising_from(drained(b).out, b.out.len() as int),
        drained(b).out.skip(b.out.len() as int).to_multiset() == waiting_frames(
            b.d,
        ).to_multiset(),
{
    lemma_drained_from(b, b.out.len() as int);
}

/// The frames that are queued or will be: with every frame as often as it
/// occurs.
pub open spec fn pending(b: Buffered) -> Multiset<FrameView> {
    b.out.to_multiset().add(waiting_frames(b.d).to_multiset())
}

/// A bump neither loses nor repeats a frame.
pub proof fn lemma_bumped_pending(b: Buffered)
    ensures
        pending(bumped(b)) == pending(b),
{
    broadcast use vstd::seq_lib::group_to_multiset_ensures;

    lemma_lowest(b.d);
    let i = lowest(b.d);
    if i >= 0 {
        let s = b.d[i];
        lemma_waiting_frames_change(b.d, i, Slot { waiting: false, ..s });
        let f = frame_of(s);
        let w = waiting_frames(bumped(b).d).to_multiset();
        assert(bumped(b).out.to_multiset() =~= b.out.to_multiset().insert(f));
        assert(b.out.to_multiset().insert(f).add(w) =~= b.out.to_multiset().add(w.insert(f)));
    }
}

/// Draining queues exactly the frames that waited.
pub proof fn lemma_drained_pending(b: Buffered)
    ensures
        drained(b).out.to_multiset() == pending(b),
    decreases n_waiting(b.d),
{
    broadcast use vstd::seq_lib::group_to_multiset_ensures;

    if n_waiting(b.d) == 0 {
        lemma_none_waiting(b.d);
        assert(pending(b) =~= b.out.to_multiset());
    } else {
        lemma_bumped(b);
        lemma_bumped_pending(b);
        lemma_drained_pending(bumped(b));
    }
}

/// Slots that show the same frames to the output wait for the same frames.
pub proof fn lemma_same_waiting(a: Seq<Slot>, b: Seq<Slot>)
    requires
        a.len() == b.len(),
        forall|i: int|
            #![trigger a[i]]
            0 <= i < a.len() ==> a[i].waiting == b[i].waiting && frame_of(a[i]) == frame_of(b[i]),
    ensures
        waiting_frames(a) == waiting_frames(b),
    decreases a.len(),
{
    if a.len() > 0 {
        assert forall|i: int| #![trigger a.drop_last()[i]] 0 <= i < a.drop_last().len() implies {
            &&& a.drop_last()[i].waiting == b.drop_last()[i].waiting
            &&& frame_of(a.drop_last()[i]) == frame_of(b.drop_last()[i])
        } by {
            assert(a[i].waiting == b[i].waiting);
        }
        lemma_same_waiting(a.drop_last(), b.drop_last());
        assert(a[a.len() - 1].waiting == b[a.len() - 1].waiting);
    }
}

/// Slots at the end that do not wait change nothing.
pub proof fn lemma_waiting_prefix(d: Seq<Slot>, more: Seq<Slot>)
    requires
        forall|i: int| #![trigger more[i]] 0 <= i < more.len() ==> !more[i].waiting,
    ensures
        waiting_frames(d + more) == waiting_frames(d),
    decreases more.len(),
{
    if more.len() == 0 {
        assert(d + more =~= d);
    } else {
        let rest = more.drop_last();
        assert((d + more).drop_last() =~= d + rest);
        assert((d + more).last() == more.last());
        assert(!more[more.len() - 1].waiting);
        assert forall|i: int| #![trigger rest[i]] 0 <= i < rest.len() implies !rest[i].waiting by {
            assert(!more[i].waiting);
        }
        lemma_waiting_prefix(d, rest);
    }
}

// ---- limits (§C.5.2.2, §C.5.2.3) ----

/// A waiting picture has waited as long as the sequence allows.
pub open spec fn latency_hit(d: Seq<Slot>, ord: SubLayerOrder) -> bool {
    ord.max_latency_increase_plus1 != 0 && exists|i: int|
        #![trigger d[i]]
        0 <= i < d.len() && d[i].waiting && d[i].latency >= ord.max_num_reorder_pics
            + ord.max_latency_increase_plus1 - 1
}

/// The buffer must output a picture: too many wait, one waited too long, or,
/// before a new picture is decoded, the buffer is full.
pub open spec fn must_bump(d: Seq<Slot>, ord: SubLayerOrder, for_room: bool) -> bool {
    ||| n_waiting(d) > ord.max_num_reorder_pics
    ||| latency_hit(d, ord)
    ||| for_room && d.len() > ord.max_dec_pic_buffering_minus1 && n_waiting(d) > 0
}

/// Only a buffer with a waiting picture must output one.
pub proof fn lemma_must_bump(d: Seq<Slot>, ord: SubLayerOrder, for_room: bool)
    requires
        must_bump(d, ord, for_room),
    ensures
        n_waiting(d) > 0,
{
    if latency_hit(d, ord) {
        lemma_lowest(d);
    }
}

/// Pictures output for as long as the limits demand it.
pub open spec fn settled(b: Buffered, ord: SubLayerOrder, for_room: bool) -> Buffered
    decreases n_waiting(b.d),
{
    if must_bump(b.d, ord, for_room) {
        proof {
            lemma_must_bump(b.d, ord, for_room);
            lemma_bumped(b);
        }
        settled(bumped(b), ord, for_room)
    } else {
        b
    }
}

fn has_latency_hit(dpb: &Vec<DpbEntry>, ord: &SubLayerOrder) -> (r: bool)
    requires
        ord.max_num_reorder_pics + ord.max_latency_increase_plus1 <= u32::MAX,
    ensures
        r == latency_hit(slots(dpb@), *ord),
{
    if ord.max_latency_increase_plus1 == 0 {
        return false;
    }
    let limit = ord.max_num_reorder_pics + ord.max_latency_increase_plus1 - 1;
    let ghost d = slots(dpb@);
    let mut i: usize = 0;
    while i < dpb.len()
        invariant
            i <= dpb@.len(),
            d == slots(dpb@),
            forall|j: int|
                #![trigger d[j]]
                0 <= j < i ==> !(d[j].waiting && d[j].latency >= limit),
            limit == ord.max_num_reorder_pics + ord.max_latency_increase_plus1 - 1,
            ord.max_latency_increase_plus1 != 0,
        decreases dpb@.len() - i,
    {
        let e = &dpb[i];
        let hit = e.needed_for_output && e.pic_latency >= limit;
        assert(hit == (d[i as int].waiting && d[i as int].latency >= limit));
        if hit {
            return true;
        }
        i += 1;
    }
    false
}

/// Outputs pictures for as long as the limits demand it.
pub fn settle(
    dpb: &mut Vec<DpbEntry>,
    output: &mut VecDeque<Frame>,
    ord: &SubLayerOrder,
    for_room: bool,
)
    requires
        ord.max_num_reorder_pics + ord.max_latency_increase_plus1 <= u32::MAX,
    ensures
        (Buffered { d: slots(final(dpb)@), out: frames(final(output)@) }) == settled(
            Buffered { d: slots(old(dpb)@), out: frames(old(output)@) },
            *ord,
            for_room,
        ),
{
    let ghost b0 = Buffered { d: slots(dpb@), out: frames(output@) };
    loop
        invariant_except_break
            ord.max_num_reorder_pics + ord.max_latency_increase_plus1 <= u32::MAX,
            settled(b0, *ord, for_room) == settled(
                Buffered { d: slots(dpb@), out: frames(output@) },
                *ord,
                for_room,
            ),
        ensures
            (Buffered { d: slots(dpb@), out: frames(output@) }) == settled(b0, *ord, for_room),
        decreases n_waiting(slots(dpb@)),
    {
        let n = count_waiting(dpb);
        let full = dpb.len() > ord.max_dec_pic_buffering_minus1 as usize;
        let must = n > ord.max_num_reorder_pics as usize || has_latency_hit(dpb, ord) || (for_room
            && full && n > 0);
        assert(must == must_bump(slots(dpb@), *ord, for_room));
        if !must {
            break;
        }
        proof {
            lemma_must_bump(slots(dpb@), *ord, for_room);
            lemma_bumped(Buffered { d: slots(dpb@), out: frames(output@) });
        }
        bump(dpb, output);
    }
}

/// Output as far as the limits demand keeps a queue that rises from `n` on
/// rising, and keeps its front.
pub proof fn lemma_settled_from(b: Buffered, ord: SubLayerOrder, for_room: bool, n: int)
    requires
        0 <= n <= b.out.len(),
        rising_from(b.out, n),
        none_overtaken(b, n),
    ensures
        rising_from(settled(b, ord, for_room).out, n),
        none_overtaken(settled(b, ord, for_room), n),
        !must_bump(settled(b, ord, for_room).d, ord, for_room),
        settled(b, ord, for_room).out.len() >= b.out.len(),
        settled(b, ord, for_room).out.take(b.out.len() as int) == b.out,
    decreases n_waiting(b.d),
{
    let len = b.out.len() as int;
    if must_bump(b.d, ord, for_room) {
        lemma_must_bump(b.d, ord, for_room);
        lemma_bumped(b);
        lemma_bumped_frames(b, n);
        lemma_settled_from(bumped(b), ord, for_room, n);
        let r = settled(b, ord, for_room).out;
        assert(r.take(len) =~= r.take(len + 1).drop_last());
    } else {
        assert(b.out.take(len) =~= b.out);
    }
}

/// Once the limits are met, no more pictures wait than may be reordered, none
/// has waited too long, and the frames that this took were queued in POC
/// order, none of them after a picture that still waits.
pub proof fn lemma_settled_within_limits(b: Buffered, ord: SubLayerOrder, for_room: bool)
    ensures
        ({
            let a = settled(b, ord, for_room);
            &&& n_waiting(a.d) <= ord.max_num_reorder_pics
            &&& !latency_hit(a.d, ord)
            &&& for_room && n_waiting(a.d) > 0 ==> a.d.len() <= ord.max_dec_pic_buffering_minus1
            &&& a.out.take(b.out.len() as int) == b.out
            &&& rising_from(a.out, b.out.len() as int)
            &&& none_overtaken(a, b.out.len() as int)
        }),
{
    lemma_settled_from(b, ord, for_room, b.out.len() as int);
}

/// Meeting the limits neither loses nor repeats a frame.
pub proof fn lemma_settled_pending(b: Buffered, ord: SubLayerOrder, for_room: bool)
    ensures
        pending(settled(b, ord, for_room)) == pending(b),
    decreases n_waiting(b.d),
{
    if must_bump(b.d, ord, for_room) {
        lemma_must_bump(b.d, ord, for_room);
        lemma_bumped(b);
        lemma_bumped_pending(b);
        lemma_settled_pending(bumped(b), ord, for_room);
    }
}

/// A bump loses no reference picture: each one is still in the buffer, under
/// the same count and mark.
pub proof fn lemma_bump_keeps_references(b: Buffered, i: int)
    requires
        0 <= i < b.d.len(),
        b.d[i].mark != RefMark::Unused,
    ensures
        exists|j: int|
            #![trigger bumped(b).d[j]]
            {
                &&& 0 <= j < bumped(b).d.len()
                &&& bumped(b).d[j] == (Slot { waiting: bumped(b).d[j].waiting, ..b.d[i] })
            },
{
    lemma_lowest(b.d);
    let l = lowest(b.d);
    let a = bumped(b);
    let j = if l >= 0 && b.d[l].mark == RefMark::Unused && i > l {
        i - 1
    } else {
        i
    };
    assert(a.d[j] == (Slot { waiting: a.d[j].waiting, ..b.d[i] }));
}

/// A slot is still of use: waiting for output, or a reference.
pub open spec fn in_use(s: Slot) -> bool {
    s.waiting || s.mark != RefMark::Unused
}

/// The slots still of use, in order.
pub open spec fn kept(d: Seq<Slot>) -> Seq<Slot>
    decreases d.len(),
{
    if d.len() == 0 {
        Seq::empty()
    } else if in_use(d.last()) {
        kept(d.drop_last()).push(d.last())
    } else {
        kept(d.drop_last())
    }
}

/// What is dropped was not waiting.
pub proof fn lemma_kept_waiting(d: Seq<Slot>)
    ensures
        waiting_frames(kept(d)) == waiting_frames(d),
    decreases d.len(),
{
    if d.len() > 0 {
        lemma_kept_waiting(d.drop_last());
        if in_use(d.last()) {
            assert(kept(d).drop_last() =~= kept(d.drop_last()));
        }
    }
}

/// Drops the slots that are of no use any more.
pub fn drop_unused(dpb: &mut Vec<DpbEntry>)
    ensures
        slots(final(dpb)@) == kept(slots(old(dpb)@)),
        final(dpb)@.len() <= old(dpb)@.len(),
{
    let ghost d0 = slots(dpb@);
    let ghost mut done: int = 0;
    let mut i: usize = 0;
    proof {
        assert(d0.take(0) =~= Seq::empty());
        assert(slots(dpb@) =~= kept(d0.take(0)) + d0.skip(0));
    }
    while i < dpb.len()
        invariant
            0 <= done <= d0.len(),
            i <= done,
            i == kept(d0.take(done)).len(),
            dpb@.len() == i + d0.len() - done,
            slots(dpb@) == kept(d0.take(done)) + d0.skip(done),
        decreases dpb@.len() - i,
    {
        let ghost cur = slots(dpb@);
        proof {
            assert(cur[i as int] == d0[done]);
            assert(d0.take(done + 1).drop_last() =~= d0.take(done));
            assert(d0.take(done + 1).last() == d0[done]);
        }
        let e = &dpb[i];
        if e.needed_for_output || e.mark != RefMark::Unused {
            i += 1;
            assert(slots(dpb@) =~= kept(d0.take(done + 1)) + d0.skip(done + 1));
        } else {
            let _ = dpb.remove(i);
            assert(slots(dpb@) =~= cur.remove(i as int));
            assert(slots(dpb@) =~= kept(d0.take(done + 1)) + d0.skip(done + 1));
        }
        proof {
            done = done + 1;
        }
    }
    proof {
        assert(d0.take(done) =~= d0);
        assert(slots(dpb@) =~= kept(d0));
    }
}

} // verus!
