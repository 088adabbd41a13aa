//! The decoder state machine: NAL dispatch, parameter-set activation, picture
//! boundaries, picture order count, reference marking, and output.
//!
//! Parsing and slice reconstruction happen outside: a NAL unit comes in with
//! its parsed contents, a slice that is to be decoded comes out as a task, and
//! what became of it is reported back.

use std::collections::VecDeque;
use std::sync::Arc;

pub use crate::dpb::{DpbEntry, RefMark};
pub use crate::reflists::{RefLists, RefPic};

use crate::arith;
use crate::dpb;
use crate::dpb::{Buffered, Slot};
use crate::error;
use crate::error::Error;
use crate::filters;
use crate::filters::FilterSwitches;
use crate::frame;
use crate::frame::{Frame, Picture, PictureView};
use crate::nal::{NalHeader, NalType};
use crate::pic::{Motion, PicState};
use crate::ps::{
    Pps, ScalingFactors, Sps, SubLayerOrder, TileLayout, Vps, PROFILE_MAIN, PROFILE_MAIN10,
    PROFILE_MAIN_STILL,
};
use crate::reflists;
use crate::rps;
use crate::share::share;
use crate::slice::{SliceHeader, SliceType};
use vstd::arithmetic::power2::*;
use vstd::multiset::Multiset;
use vstd::prelude::*;

verus! {

/// A decoded picture hash (SEI): its method and one digest per plane.
#[derive(Debug)]
pub struct PictureHash {
    pub method: u8,
    pub digest: [Vec<u8>; 3],
}

/// The picture being decoded.
pub struct CurrentPicture {
    pub pic: Picture,
    pub poc: i32,
    pub sps: Arc<Sps>,
    pub pps: Arc<Pps>,
    pub tiles: Arc<TileLayout>,
    pub nal_type: NalType,
    pub temporal_id: u8,
    pub output_flag: bool,
    pub pts: Option<i64>,
    /// Last independent slice header (for dependent slice segments).
    pub last_indep_header: Option<Arc<SliceHeader>>,
    /// Per-slice reference lists in decoding order (index = slice number).
    pub ref_lists: Vec<RefLists>,
    /// Number of slice segments decoded so far.
    pub slice_segments: u32,
    /// `StCurrBefore ∪ StCurrAfter ∪ LtCurr` POCs, for sanity.
    pub num_refs: usize,
    /// Set when a slice of this picture failed to decode.
    pub errored: bool,
    /// Per-4×4 syntax/reconstruction state.
    pub state: PicState,
    /// Slice headers in decoding order.
    pub headers: Vec<Arc<SliceHeader>>,
    /// `SliceAddrRs` of the current slice (dependent segments inherit it).
    pub slice_addr_rs: i32,
    /// Decoded picture hash SEI attached to this picture.
    pub expected_hash: Option<PictureHash>,
    /// Scaling factors when scaling lists are enabled.
    pub scaling: Option<Arc<ScalingFactors>>,
    /// Reused deblocked-sample buffer for SAO.
    pub sao_scratch: Vec<u16>,
    /// Deblocking boundary strengths.
    pub deblock_bs_v: Vec<u8>,
    pub deblock_bs_h: Vec<u8>,
}

impl CurrentPicture {
    /// The parameter sets are in range, and the planes and maps have the
    /// picture's size, samples in range.
    #[verifier::opaque]
    pub open spec fn wf(self) -> bool {
        &&& self.sps.wf()
        &&& self.pps.wf()
        &&& self.state.wf()
        &&& filters::planes_ok(self.pic.planes@, self.state, *self.sps)
        &&& self.pic.crop_ok()
    }
}

impl CurrentPicture {
    /// Decoding a slice changes the samples, the maps and the filters' scratch;
    /// what the headers decided stays.
    pub open spec fn decoded_from(self, o: Self) -> bool {
        &&& self.poc == o.poc
        &&& self.sps == o.sps
        &&& self.pps == o.pps
        &&& self.tiles == o.tiles
        &&& self.nal_type == o.nal_type
        &&& self.temporal_id == o.temporal_id
        &&& self.output_flag == o.output_flag
        &&& self.pts == o.pts
        &&& self.last_indep_header == o.last_indep_header
        &&& self.ref_lists == o.ref_lists
        &&& self.slice_segments == o.slice_segments
        &&& self.num_refs == o.num_refs
        &&& self.errored == o.errored
        &&& self.headers == o.headers
        &&& self.slice_addr_rs == o.slice_addr_rs
        &&& self.expected_hash == o.expected_hash
        &&& self.scaling == o.scaling
    }
}

impl CurrentPicture {
    /// Everything but the samples and the filters' scratch is the same.
    pub open spec fn same_but_samples(self, o: Self) -> bool {
        &&& self.pic.same_info(o.pic)
        &&& self.poc == o.poc
        &&& self.sps == o.sps
        &&& self.pps == o.pps
        &&& self.tiles == o.tiles
        &&& self.nal_type == o.nal_type
        &&& self.temporal_id == o.temporal_id
        &&& self.output_flag == o.output_flag
        &&& self.pts == o.pts
        &&& self.last_indep_header == o.last_indep_header
        &&& self.ref_lists == o.ref_lists
        &&& self.slice_segments == o.slice_segments
        &&& self.num_refs == o.num_refs
        &&& self.errored == o.errored
        &&& self.state == o.state
        &&& self.headers == o.headers
        &&& self.slice_addr_rs == o.slice_addr_rs
        &&& self.expected_hash == o.expected_hash
        &&& self.scaling == o.scaling
    }
}

/// Decoder statistics.
#[derive(Debug, Clone, Copy, PartialEq, Eq, Structural)]
pub struct Stats {
    pub pictures: u64,
    pub slices: u64,
    pub errors: u64,
    pub skipped_rasl: u64,
    pub generated_refs: u64,
    /// Pictures whose decoded-picture-hash SEI was checked / did not match.
    pub sei_checked: u64,
    pub sei_mismatch: u64,
}

impl Default for Stats {
    fn default() -> (r: Self)
        ensures
            r == (Stats {
                pictures: 0,
                slices: 0,
                errors: 0,
                skipped_rasl: 0,
                generated_refs: 0,
                sei_checked: 0,
                sei_mismatch: 0,
            }),
    {
        Stats {
            pictures: 0,
            slices: 0,
            errors: 0,
            skipped_rasl: 0,
            generated_refs: 0,
            sei_checked: 0,
            sei_mismatch: 0,
        }
    }
}

/// A finished picture whose hash is to be compared with the one that came with
/// it.
#[derive(Debug)]
pub struct HashCheck {
    pub poc: i32,
    pub hash: PictureHash,
    pub picture: Arc<Picture>,
}

// ---- scope ----

/// What is wrong with a stream, and whether it is merely out of scope.
pub struct Complaint {
    pub unsupported: bool,
    pub text: Seq<char>,
}

impl Complaint {
    pub open spec fn is_said_by(self, e: Error) -> bool {
        if self.unsupported {
            e.says_unsupported(self.text)
        } else {
            e.says_invalid(self.text)
        }
    }
}

pub open spec fn out_of_scope(text: Seq<char>) -> Option<Complaint> {
    Some(Complaint { unsupported: true, text })
}

/// The scope of the decoder: Main, Main 10 and Main Still Picture, 4:2:0, at
/// most 10 bit, no extensions, no larger than level 6.2.
pub open spec fn scope_complaint(sps: Sps, pps: Pps) -> Option<Complaint> {
    if !(sps.profile == 0 || sps.profile == PROFILE_MAIN || sps.profile == PROFILE_MAIN10
        || sps.profile == PROFILE_MAIN_STILL) {
        out_of_scope(
            "general_profile_idc "@ + error::decimal(sps.profile as int)
                + " (only Main / Main 10 / Main Still Picture)"@,
        )
    } else if sps.chroma_format_idc != 1 {
        out_of_scope(
            "chroma_format_idc "@ + error::decimal(sps.chroma_format_idc as int)
                + " (only 4:2:0)"@,
        )
    } else if sps.bit_depth_luma > 10 || sps.bit_depth_chroma > 10 {
        out_of_scope(
            "bit depth "@ + error::decimal(sps.bit_depth_luma as int) + "/"@ + error::decimal(
                sps.bit_depth_chroma as int,
            ) + " (max 10)"@,
        )
    } else if sps.range_extension || sps.multilayer_extension || sps.ext_3d || sps.scc_extension {
        out_of_scope("SPS extensions (RExt/SHVC/3D/SCC)"@)
    } else if pps.range_extension || pps.multilayer_extension || pps.ext_3d || pps.scc_extension {
        out_of_scope("PPS extensions (RExt/SHVC/3D/SCC)"@)
    } else if pps.sps_id != sps.id {
        Some(Complaint { unsupported: false, text: "PPS/SPS id mismatch"@ })
    } else if sps.width > 16888 || sps.height > 16888 || sps.width * sps.height > 35_651_584 {
        out_of_scope("picture larger than level 6.2"@)
    } else {
        None
    }
}

/// Refuses streams that are out of scope.
pub fn check_scope(sps: &Sps, pps: &Pps) -> (r: core::result::Result<(), Error>)
    ensures
        match r {
            Ok(_) => scope_complaint(*sps, *pps) is None,
            Err(e) => scope_complaint(*sps, *pps) matches Some(c) && c.is_said_by(e),
        },
{
    let prof = sps.profile;
    if !(prof == 0 || prof == PROFILE_MAIN || prof == PROFILE_MAIN10 || prof
        == PROFILE_MAIN_STILL) {
        let a = error::with_number("general_profile_idc ", prof as i64);
        let t = error::joined(a.as_str(), " (only Main / Main 10 / Main Still Picture)");
        return Err(Error::unsupported(t.as_str()));
    }
    if sps.chroma_format_idc != 1 {
        let a = error::with_number("chroma_format_idc ", sps.chroma_format_idc as i64);
        let t = error::joined(a.as_str(), " (only 4:2:0)");
        return Err(Error::unsupported(t.as_str()));
    }
    if sps.bit_depth_luma > 10 || sps.bit_depth_chroma > 10 {
        let a = error::with_number("bit depth ", sps.bit_depth_luma as i64);
        let b = error::joined(a.as_str(), "/");
        let c = error::with_number(b.as_str(), sps.bit_depth_chroma as i64);
        let t = error::joined(c.as_str(), " (max 10)");
        return Err(Error::unsupported(t.as_str()));
    }
    if sps.range_extension || sps.multilayer_extension || sps.ext_3d || sps.scc_extension {
        return Err(Error::unsupported("SPS extensions (RExt/SHVC/3D/SCC)"));
    }
    if pps.range_extension || pps.multilayer_extension || pps.ext_3d || pps.scc_extension {
        return Err(Error::unsupported("PPS extensions (RExt/SHVC/3D/SCC)"));
    }
    if pps.sps_id != sps.id {
        return Err(Error::invalid("PPS/SPS id mismatch"));
    }
    assert(sps.width as u64 * sps.height as u64 <= u64::MAX) by (nonlinear_arith)
        requires
            0 <= sps.width <= 0xffff_ffff,
            0 <= sps.height <= 0xffff_ffff,
    ;
    if sps.width > 16888 || sps.height > 16888 || sps.width as u64 * sps.height as u64
        > 35_651_584 {
        return Err(Error::unsupported("picture larger than level 6.2"));
    }
    Ok(())
}

// ---- the control state ----

/// What the decoder decides by: the sequence state, the counters, and the
/// decoded picture buffer with its output queue.
pub struct Control {
    pub active_sps_id: Option<u8>,
    pub prev_tid0_poc: int,
    pub first_in_sequence: bool,
    pub no_rasl_output_flag: bool,
    pub skipping_picture: bool,
    pub pending_pts: Option<i64>,
    pub stats: Stats,
    pub buf: Buffered,
}

/// A pure HEVC decoder core. Push NAL units in, pull [`Frame`]s out in output
/// order.
pub struct Decoder {
    pub(crate) vps: Vec<Option<Arc<Vps>>>,
    pub(crate) sps: Vec<Option<Arc<Sps>>>,
    pub(crate) pps: Vec<Option<Arc<Pps>>>,
    pub(crate) active_sps_id: Option<u8>,
    pub(crate) dpb: Vec<DpbEntry>,
    pub(crate) output: VecDeque<Frame>,
    pub(crate) cur: Option<CurrentPicture>,
    /// POC of the previous TemporalId-0 picture that is not RASL/RADL/SLNR.
    pub(crate) prev_tid0_poc: i32,
    /// True before the first picture and after an end-of-sequence NAL.
    pub(crate) first_in_sequence: bool,
    /// `NoRaslOutputFlag` of the most recent IRAP picture.
    pub(crate) no_rasl_output_flag: bool,
    /// Set while the slices of a skipped RASL picture stream by.
    pub(crate) skipping_picture: bool,
    /// A time stamp for the next slice segment's picture.
    pub(crate) pending_pts: Option<i64>,
    /// A picture hash from a prefix SEI, for the next picture.
    pub(crate) pending_hash: Option<PictureHash>,
    /// Verify every picture against its decoded-picture-hash SEI.
    pub verify_sei: bool,
    /// Finished pictures whose hash is still to be compared, oldest first.
    pub(crate) hash_checks: VecDeque<HashCheck>,
    /// Per checked picture: (POC, hash matched).
    pub sei_results: Vec<(i32, bool)>,
    pub stats: Stats,
    /// Decode nothing past the slice header.
    pub headers_only: bool,
    /// Loop filter switches.
    pub switches: FilterSwitches,
}

impl Decoder {
    pub open(crate) spec fn control(self) -> Control {
        Control {
            active_sps_id: self.active_sps_id,
            prev_tid0_poc: self.prev_tid0_poc as int,
            first_in_sequence: self.first_in_sequence,
            no_rasl_output_flag: self.no_rasl_output_flag,
            skipping_picture: self.skipping_picture,
            pending_pts: self.pending_pts,
            stats: self.stats,
            buf: Buffered { d: dpb::slots(self.dpb@), out: dpb::frames(self.output@) },
        }
    }

    /// The picture in flight.
    pub open(crate) spec fn in_flight(self) -> Option<CurrentPicture> {
        self.cur
    }

    /// The frames that are queued for output.
    pub open(crate) spec fn queued(self) -> Seq<Frame> {
        self.output@
    }

    /// The entries of the decoded picture buffer.
    pub open(crate) spec fn entries(self) -> Seq<DpbEntry> {
        self.dpb@
    }

    /// The pictures whose hash is still to be compared, oldest first.
    pub open(crate) spec fn unchecked(self) -> Seq<HashCheck> {
        self.hash_checks@
    }

    /// The results of the comparisons, oldest first.
    pub open(crate) spec fn checked(self) -> Seq<(i32, bool)> {
        self.sei_results@
    }

    /// The picture hash that waits for the next picture.
    pub open(crate) spec fn waiting_hash(self) -> Option<PictureHash> {
        self.pending_hash
    }

    /// Whether pictures are compared with their hashes.
    pub open(crate) spec fn compares_hashes(self) -> bool {
        self.verify_sei
    }

    /// Everything but the queue is the same.
    pub open(crate) spec fn same_but_queue(self, o: Self) -> bool {
        self == (Decoder { output: self.output, ..o })
    }

    /// Everything is the same, with another picture in flight.
    pub open(crate) spec fn with_in_flight(self, c: Option<CurrentPicture>) -> Self {
        Decoder { cur: c, ..self }
    }

    /// The parameter set tables hold sets under their own ids, the picture in
    /// flight is consistent, and every picture can be written out.
    pub open(crate) spec fn wf(self) -> bool {
        &&& self.vps@.len() == 16
        &&& self.sps@.len() == 16
        &&& self.pps@.len() == 64
        &&& forall|i: int|
            #![trigger self.sps@[i]]
            0 <= i < 16 ==> (self.sps@[i] matches Some(s) ==> s.wf() && s.id == i)
        &&& forall|i: int|
            #![trigger self.pps@[i]]
            0 <= i < 64 ==> (self.pps@[i] matches Some(p) ==> p.wf() && p.id == i)
        &&& self.cur matches Some(c) ==> c.wf()
        &&& buffer_ok(self.control().buf, self.stats.pictures as int)
    }

    /// The parameter sets are the same.
    pub open(crate) spec fn same_sets(self, o: Self) -> bool {
        self.vps == o.vps && self.sps == o.sps && self.pps == o.pps
    }

    /// The options are the same.
    pub open(crate) spec fn same_options(self, o: Self) -> bool {
        &&& self.verify_sei == o.verify_sei
        &&& self.headers_only == o.headers_only
        &&& self.switches == o.switches
    }
}

/// Every picture of a buffer and its queue can be written out, and none has
/// waited for more pictures than there were.
pub open spec fn buffer_ok(b: Buffered, pictures: int) -> bool {
    &&& forall|i: int|
        #![trigger b.d[i]]
        0 <= i < b.d.len() ==> b.d[i].pic.crop_ok() && 0 <= b.d[i].latency <= pictures
    &&& forall|i: int| #![trigger b.out[i]] 0 <= i < b.out.len() ==> b.out[i].pic.crop_ok()
}

/// Bumping keeps that.
proof fn lemma_bumped_ok(b: Buffered, pictures: int)
    requires
        buffer_ok(b, pictures),
    ensures
        buffer_ok(dpb::bumped(b), pictures),
{
    dpb::lemma_lowest(b.d);
    let i = dpb::lowest(b.d);
    if i >= 0 {
        let a = dpb::bumped(b);
        assert(b.d[i].pic.crop_ok());
        assert forall|j: int| #![trigger a.d[j]] 0 <= j < a.d.len() implies a.d[j].pic.crop_ok()
            && 0 <= a.d[j].latency <= pictures by {
            if b.d[i].mark == RefMark::Unused {
                let k = if j < i {
                    j
                } else {
                    j + 1
                };
                assert(a.d[j] == b.d[k]);
            } else {
                assert(b.d[j].pic.crop_ok());
            }
        }
        assert forall|j: int| #![trigger a.out[j]] 0 <= j < a.out.len() implies a.out[j].pic.crop_ok() by {
            if j < b.out.len() {
                assert(a.out[j] == b.out[j]);
            }
        }
    }
}

proof fn lemma_settled_ok(b: Buffered, ord: SubLayerOrder, for_room: bool, pictures: int)
    requires
        buffer_ok(b, pictures),
    ensures
        buffer_ok(dpb::settled(b, ord, for_room), pictures),
    decreases dpb::n_waiting(b.d),
{
    if dpb::must_bump(b.d, ord, for_room) {
        dpb::lemma_must_bump(b.d, ord, for_room);
        dpb::lemma_bumped(b);
        lemma_bumped_ok(b, pictures);
        lemma_settled_ok(dpb::bumped(b), ord, for_room, pictures);
    }
}

/// Draining keeps that.
pub proof fn lemma_drained_ok(b: Buffered, pictures: int)
    requires
        buffer_ok(b, pictures),
    ensures
        buffer_ok(dpb::drained(b), pictures),
    decreases dpb::n_waiting(b.d),
{
    if dpb::n_waiting(b.d) > 0 {
        dpb::lemma_bumped(b);
        lemma_bumped_ok(b, pictures);
        lemma_drained_ok(dpb::bumped(b), pictures);
    }
}

proof fn lemma_kept_ok(d: Seq<Slot>, out: Seq<dpb::FrameView>, pictures: int)
    requires
        buffer_ok(Buffered { d, out }, pictures),
    ensures
        buffer_ok(Buffered { d: dpb::kept(d), out }, pictures),
    decreases d.len(),
{
    let b = Buffered { d, out };
    if d.len() > 0 {
        let e = d.drop_last();
        assert forall|i: int| #![trigger e[i]] 0 <= i < e.len() implies e[i].pic.crop_ok() && 0
            <= e[i].latency <= pictures by {
            assert(e[i] == b.d[i]);
        }
        lemma_kept_ok(e, out, pictures);
        assert(b.d[d.len() - 1] == d.last());
    }
}

// ---- finishing a picture (§C.5.2.3) ----

/// The slots after one more picture was output late: those waiting have waited
/// for it.
pub open spec fn aged(d: Seq<Slot>) -> Seq<Slot> {
    Seq::new(
        d.len(),
        |i: int|
            if d[i].waiting {
                Slot { latency: d[i].latency + 1, ..d[i] }
            } else {
                d[i]
            },
    )
}

/// The motion field at one vector per 16×16 block (§8.5.3.2.9).
pub open spec fn motion_per_16(st: PicState) -> Seq<Motion> {
    let w16 = arith::ceil_div(st.width as int, 16);
    let h16 = arith::ceil_div(st.height as int, 16);
    Seq::new(
        (w16 * h16) as nat,
        |i: int| st.motion@[st.block_of(16 * (i % w16), 16 * (i / w16))],
    )
}

/// The finished picture: filtered, with its motion field.
pub open spec fn finished(c: CurrentPicture, sw: FilterSwitches) -> PictureView {
    let f = |i: int| filters::loop_filtered(c.pic.planes@[i], c.state, *c.sps, *c.pps, i, sw);
    PictureView {
        y: f(0),
        cb: f(1),
        cr: f(2),
        motion16: motion_per_16(c.state),
        motion16_w: arith::ceil_div(c.state.width as int, 16),
        ..c.pic@
    }
}

/// The slot of a finished picture.
pub open spec fn finished_slot(c: CurrentPicture, pic: PictureView) -> Slot {
    Slot {
        pic,
        poc: c.poc as int,
        mark: RefMark::ShortTerm,
        waiting: c.output_flag,
        latency: 0,
        pts: c.pts,
        output_flag: c.output_flag,
    }
}

/// The control state after the picture in flight is done: stored, marked as a
/// short-term reference, and output as far as the limits demand.
pub open spec fn after_picture(
    k: Control,
    c: CurrentPicture,
    headers_only: bool,
    verify_sei: bool,
    sw: FilterSwitches,
) -> Control {
    let pic = if headers_only {
        c.pic@
    } else {
        finished(c, sw)
    };
    let d = if c.output_flag {
        aged(k.buf.d)
    } else {
        k.buf.d
    };
    Control {
        stats: Stats {
            pictures: (k.stats.pictures + 1) as u64,
            sei_checked: if verify_sei && c.expected_hash is Some {
                (k.stats.sei_checked + 1) as u64
            } else {
                k.stats.sei_checked
            },
            ..k.stats
        },
        buf: dpb::settled(
            Buffered { d: d.push(finished_slot(c, pic)), out: k.buf.out },
            c.sps.order(),
            false,
        ),
        ..k
    }
}

/// The control state after the picture in flight, if there is one, is done.
pub open(crate) spec fn picture_done(d: Decoder) -> Control {
    match d.cur {
        Some(c) => after_picture(
            d.control(),
            c,
            d.headers_only,
            d.verify_sei,
            d.switches,
        ),
        None => d.control(),
    }
}

/// Compresses the motion field of a picture.
fn compress_motion(st: &PicState) -> (m: Vec<Motion>)
    requires
        st.wf(),
    ensures
        m@ == motion_per_16(*st),
{
    let w16 = arith::ceil_div_usize(st.width, 16);
    let h16 = arith::ceil_div_usize(st.height, 16);
    let ghost want = motion_per_16(*st);
    let mut m: Vec<Motion> = Vec::new();
    let mut y: usize = 0;
    while y < h16
        invariant
            st.wf(),
            y <= h16,
            w16 == arith::ceil_div(st.width as int, 16),
            h16 == arith::ceil_div(st.height as int, 16),
            want == motion_per_16(*st),
            m@.len() == y * w16,
            forall|i: int| #![trigger m@[i]] 0 <= i < m@.len() ==> m@[i] == want[i],
        decreases h16 - y,
    {
        let mut x: usize = 0;
        while x < w16
            invariant
                st.wf(),
                y < h16,
                x <= w16,
                w16 == arith::ceil_div(st.width as int, 16),
                h16 == arith::ceil_div(st.height as int, 16),
                want == motion_per_16(*st),
                m@.len() == y * w16 + x,
                forall|i: int| #![trigger m@[i]] 0 <= i < m@.len() ==> m@[i] == want[i],
            decreases w16 - x,
        {
            proof {
                st.lemma_inside(16 * x, 16 * y);
                vstd::arithmetic::div_mod::lemma_fundamental_div_mod_converse(
                    y * w16 + x,
                    w16 as int,
                    y as int,
                    x as int,
                );
                arith::lemma_flat_bound(x as int, y as int, w16 as int, h16 as int);
            }
            m.push(st.motion[st.idx4(x * 16, y * 16)]);
            x += 1;
        }
        assert((y + 1) * w16 == y * w16 + w16) by (nonlinear_arith);
        y += 1;
    }
    proof {
        vstd::arithmetic::mul::lemma_mul_is_commutative(w16 as int, h16 as int);
        assert(m@ =~= want);
    }
    m
}

/// Counts one more picture of waiting.
fn age(dpb: &mut Vec<DpbEntry>)
    requires
        forall|i: int|
            #![trigger old(dpb)@[i]]
            0 <= i < old(dpb)@.len() ==> old(dpb)@[i].pic_latency < u32::MAX,
    ensures
        dpb::slots(final(dpb)@) == aged(dpb::slots(old(dpb)@)),
        dpb::same_pictures(final(dpb)@, old(dpb)@),
{
    let ghost d0 = dpb@;
    let mut i: usize = 0;
    while i < dpb.len()
        invariant
            i <= dpb@.len() == d0.len(),
            forall|j: int|
                #![trigger d0[j]]
                0 <= j < d0.len() ==> d0[j].pic_latency < u32::MAX,
            forall|j: int|
                #![trigger dpb@[j]]
                0 <= j < d0.len() ==> dpb@[j].pic == d0[j].pic && dpb@[j]@ == (if j < i
                    && d0[j].needed_for_output {
                    Slot { latency: d0[j].pic_latency + 1, ..d0[j]@ }
                } else {
                    d0[j]@
                }),
        decreases dpb@.len() - i,
    {
        assert(dpb@[i as int]@ == d0[i as int]@);
        if dpb[i].needed_for_output {
            let l = dpb[i].pic_latency;
            dpb[i].pic_latency = l + 1;
        }
        i += 1;
    }
    assert(dpb::slots(dpb@) =~= aged(dpb::slots(d0)));
}

impl Decoder {
    /// C.5.2.3: the current picture is done: filter, store, mark, bump.
    pub(crate) fn finish_picture(&mut self)
        requires
            old(self).wf(),
            old(self).cur is Some ==> old(self).stats.pictures < 0xffff_ffff,
            old(self).stats.sei_checked < u64::MAX,
        ensures
            final(self).wf(),
            picture_finished(*old(self), *final(self)),
    {
        let mut cur = match self.cur.take() {
            Some(c) => c,
            None => {
                assert(self.control() == old(self).control());
                return ;
            },
        };
        proof {
            reveal(CurrentPicture::wf);
        }
        let ghost c0 = cur;
        let ghost k0 = old(self).control();
        let ghost n0 = self.stats.pictures as int;
        self.stats.pictures += 1;
        if !self.headers_only {
            filters::apply_in_loop_filters(&mut cur, self.switches);
            let m16 = compress_motion(&cur.state);
            cur.pic.motion16 = m16;
            cur.pic.motion16_w = arith::ceil_div_usize(cur.state.width, 16);
            assert(cur.pic@ =~= finished(c0, self.switches));
        }
        let ghost pic = cur.pic@;
        proof {
            if !self.headers_only {
                lemma_finished_crop(c0, self.switches);
            }
            assert(pic.crop_ok());
        }
        let picture = Arc::new(cur.pic);
        if self.verify_sei {
            match cur.expected_hash {
                Some(hash) => {
                    self.stats.sei_checked += 1;
                    self.hash_checks.push_back(
                        HashCheck { poc: cur.poc, hash, picture: share(&picture) },
                    );
                    assert(self.hash_checks@.drop_last() =~= old(self).hash_checks@);
                },
                None => {},
            }
        }
        let ord = cur.sps.ordering[cur.sps.max_sub_layers_minus1 as usize];
        let ghost d0 = dpb::slots(self.dpb@);
        if cur.output_flag {
            proof {
                assert forall|i: int|
                    #![trigger self.dpb@[i]]
                    0 <= i < self.dpb@.len() implies self.dpb@[i].pic_latency < u32::MAX by {
                    assert(d0[i].latency <= n0);
                }
            }
            age(&mut self.dpb);
        }
        let ghost d1 = dpb::slots(self.dpb@);
        let ghost slot = finished_slot(c0, pic);
        self.dpb.push(
            DpbEntry {
                pic: picture,
                poc: cur.poc,
                mark: RefMark::ShortTerm,
                needed_for_output: cur.output_flag,
                pic_latency: 0,
                pts: cur.pts,
                output_flag: cur.output_flag,
            },
        );
        let ghost b2 = Buffered { d: dpb::slots(self.dpb@), out: dpb::frames(self.output@) };
        proof {
            assert(b2.d =~= d1.push(slot));
            assert(buffer_ok(b2, n0 + 1)) by {
                assert forall|i: int| #![trigger b2.d[i]] 0 <= i < b2.d.len() implies b2.d[i].pic.crop_ok()
                    && 0 <= b2.d[i].latency <= n0 + 1 by {
                    if i < d1.len() {
                        assert(d0[i].pic.crop_ok());
                    }
                }
                assert forall|i: int|
                    #![trigger b2.out[i]]
                    0 <= i < b2.out.len() implies b2.out[i].pic.crop_ok() by {
                    assert(k0.buf.out[i].pic.crop_ok());
                }
            }
            lemma_settled_ok(b2, ord, false, n0 + 1);
        }
        dpb::settle(&mut self.dpb, &mut self.output, &ord, false);
        assert(self.control() == picture_done(*old(self)));
    }
}

/// What finishing the picture in flight does.
pub open(crate) spec fn picture_finished(o: Decoder, n: Decoder) -> bool {
    &&& n.cur is None
    &&& n.control() == picture_done(o)
    &&& n.same_sets(o)
    &&& n.same_options(o)
    &&& n.pending_hash == o.pending_hash
    &&& n.sei_results == o.sei_results
    &&& checks_added(n.hash_checks@, o)
}

/// A picture's hash was queued for comparison where one came with it.
pub open(crate) spec fn checks_added(checks: Seq<HashCheck>, o: Decoder) -> bool {
    match o.cur {
        Some(c) => match c.expected_hash {
            Some(h) => if o.verify_sei {
                &&& checks.len() == o.hash_checks@.len() + 1
                &&& checks.drop_last() == o.hash_checks@
                &&& checks.last().poc == c.poc
                &&& checks.last().hash == h
                &&& checks.last().picture@ == (if o.headers_only {
                    c.pic@
                } else {
                    finished(c, o.switches)
                })
            } else {
                checks == o.hash_checks@
            },
            None => checks == o.hash_checks@,
        },
        None => checks == o.hash_checks@,
    }
}

/// The frames that are queued or wait, and that of the picture in flight if it
/// is for output: with every frame as often as it occurs.
pub open(crate) spec fn due(o: Decoder) -> Multiset<dpb::FrameView> {
    match o.cur {
        Some(c) => if c.output_flag {
            dpb::pending(o.control().buf).insert(
                dpb::frame_of(
                    finished_slot(
                        c,
                        if o.headers_only {
                            c.pic@
                        } else {
                            finished(c, o.switches)
                        },
                    ),
                ),
            )
        } else {
            dpb::pending(o.control().buf)
        },
        None => dpb::pending(o.control().buf),
    }
}

/// Finishing a picture that is for output adds its frame, once, to those that
/// are queued or wait; nothing else is added, and none is lost.
pub proof fn lemma_picture_comes_out_once(o: Decoder, n: Decoder)
    requires
        picture_finished(o, n),
    ensures
        dpb::pending(n.control().buf) == due(o),
{
    broadcast use vstd::seq_lib::group_to_multiset_ensures;

    if o.cur is Some {
        let c = o.cur.unwrap();
        let k = o.control();
        let pic = if o.headers_only {
            c.pic@
        } else {
            finished(c, o.switches)
        };
        let d = if c.output_flag {
            aged(k.buf.d)
        } else {
            k.buf.d
        };
        let slot = finished_slot(c, pic);
        let b = Buffered { d: d.push(slot), out: k.buf.out };
        dpb::lemma_settled_pending(b, shared(c.sps).order(), false);
        dpb::lemma_same_waiting(d, k.buf.d);
        assert(b.d.drop_last() =~= d);
        if c.output_flag {
            let w = dpb::waiting_frames(d).to_multiset();
            let f = dpb::frame_of(slot);
            assert(dpb::waiting_frames(b.d).to_multiset() =~= w.insert(f));
            assert(b.out.to_multiset().add(w.insert(f)) =~= b.out.to_multiset().add(w).insert(f));
        }
    }
}

/// Filtering keeps the crop window inside the planes.
proof fn lemma_finished_crop(c: CurrentPicture, sw: FilterSwitches)
    requires
        c.wf(),
    ensures
        finished(c, sw).crop_ok(),
{
    reveal(CurrentPicture::wf);
    let a = c.pic@;
    let b = finished(c, sw);
    assert forall|i: int|
        #![trigger b.crop_window(i)]
        0 <= i < 3 && (i == 0 || b.chroma_format_idc != 0) implies {
        let (x, y, w, h) = b.crop_window(i);
        y + h <= usize::MAX && x + w <= usize::MAX && frame::window_ok(b.plane(i), x, y, w, h)
    } by {
        assert(a.crop_window(i) == b.crop_window(i));
        let (x, y, w, h) = a.crop_window(i);
        assert(frame::window_ok(a.plane(i), x, y, w, h));
        assert(b.plane(i).stride == a.plane(i).stride);
        assert(b.plane(i).data.len() == a.plane(i).data.len());
        assert forall|r: int|
            #![trigger r * b.plane(i).stride]
            y <= r < y + h implies r * b.plane(i).stride + x + w <= b.plane(i).data.len() by {
            assert(r * a.plane(i).stride + x + w <= a.plane(i).data.len());
        }
    }
}

// ---- starting a picture ----

/// What comes of a first slice segment.
pub enum StartOutcome {
    /// The picture is started.
    Started,
    /// The picture is not decodable and its slices are to be ignored.
    Skipped,
    Refused(Complaint),
    /// The tile layout is invalid.
    NoTiles,
}

pub open spec fn refused(text: Seq<char>) -> StartOutcome {
    StartOutcome::Refused(Complaint { unsupported: false, text })
}

/// `NoRaslOutputFlag` as a picture sees it: its own for an IRAP picture, else
/// that of the IRAP picture before it (§8.1.3).
pub open spec fn rasl_flag(k: Control, nt: NalType) -> bool {
    if nt.irap() {
        nt.idr() || nt.bla() || k.first_in_sequence
    } else {
        k.no_rasl_output_flag
    }
}

/// The picture starts a coded video sequence.
pub open spec fn starts_sequence(k: Control, nt: NalType) -> bool {
    nt.irap() && rasl_flag(k, nt)
}

pub open spec fn max_lsb(sps: Sps) -> int {
    pow2(sps.log2_max_poc_lsb as nat) as int
}

/// The picture order count of a picture.
pub open spec fn poc_of(k: Control, nt: NalType, sh: SliceHeader, sps: Sps) -> int {
    rps::poc_value(starts_sequence(k, nt), k.prev_tid0_poc, sh.poc_lsb as int, max_lsb(sps))
}

/// The picture is not decodable: a RASL picture whose IRAP picture started the
/// sequence, or one before the first IRAP picture.
pub open spec fn skips(k: Control, nt: NalType) -> bool {
    nt.rasl() && rasl_flag(k, nt) || !nt.irap() && k.first_in_sequence
}

/// The count of a picture, and those of its references, are in range.
pub open spec fn counts_fit(k: Control, nt: NalType, sh: SliceHeader, sps: Sps) -> bool {
    let poc = poc_of(k, nt, sh, sps);
    rps::fits(poc) && sh.refs_fit(poc, max_lsb(sps))
}

/// The references that a picture is missing; an IDR picture needs none.
#[verifier::opaque]
pub open spec fn lost_refs(
    d: Seq<Slot>,
    nt: NalType,
    sh: SliceHeader,
    sps: Sps,
    poc: int,
) -> Seq<(i32, bool)> {
    let r = rps::rps_of(sh, poc, max_lsb(sps));
    if nt.idr() {
        Seq::empty()
    } else {
        dpb::missing(dpb::remarked(d, r, max_lsb(sps)), r, max_lsb(sps))
    }
}

/// The buffer with its references marked and completed for a picture.
#[verifier::opaque]
pub open spec fn referenced(
    d: Seq<Slot>,
    nt: NalType,
    sh: SliceHeader,
    sps: Sps,
    poc: int,
) -> Seq<Slot> {
    let r = rps::rps_of(sh, poc, max_lsb(sps));
    if nt.idr() {
        dpb::unmarked(d)
    } else {
        dpb::completed(
            dpb::remarked(d, r, max_lsb(sps)),
            sps,
            lost_refs(d, nt, sh, sps, poc),
        )
    }
}

/// C.5.2.2: output and removal of pictures before the current one. A picture
/// that starts a sequence, other than the first of all, discards the pictures
/// before it or has them output; any other picture makes room for itself.
#[verifier::opaque]
pub open spec fn cleared(
    b: Buffered,
    starts_later: bool,
    discard: bool,
    ord: SubLayerOrder,
) -> Buffered {
    if starts_later {
        if discard {
            Buffered { d: Seq::empty(), out: b.out }
        } else {
            Buffered { d: Seq::empty(), out: dpb::drained(b).out }
        }
    } else {
        let s = dpb::settled(Buffered { d: dpb::kept(b.d), out: b.out }, ord, true);
        if s.d.len() > ord.max_dec_pic_buffering_minus1 {
            Buffered { d: dpb::kept(s.d), out: s.out }
        } else {
            s
        }
    }
}

/// The control state of a picture that is started.
pub open spec fn started(
    k: Control,
    nt: NalType,
    temporal_id: u8,
    sh: SliceHeader,
    sps: Sps,
) -> Control {
    let poc = poc_of(k, nt, sh, sps);
    let starts = starts_sequence(k, nt);
    Control {
        active_sps_id: Some(sps.id),
        prev_tid0_poc: if temporal_id == 0 && !nt.rasl() && !nt.radl() && !nt.sub_layer_non_ref() {
            poc
        } else {
            k.prev_tid0_poc
        },
        first_in_sequence: false,
        no_rasl_output_flag: rasl_flag(k, nt),
        pending_pts: None,
        stats: Stats {
            generated_refs: (k.stats.generated_refs + lost_refs(
                k.buf.d,
                nt,
                sh,
                sps,
                poc,
            ).len()) as u64,
            ..k.stats
        },
        buf: cleared(
            Buffered { d: referenced(k.buf.d, nt, sh, sps, poc), out: k.buf.out },
            starts && k.stats.pictures > 0,
            nt.cra() || sh.no_output_of_prior_pics,
            sps.order(),
        ),
        ..k
    }
}

/// Starting a picture neither loses nor repeats a frame that is queued or
/// waits, unless the picture starts a sequence that discards them.
pub proof fn lemma_start_loses_none(
    k: Control,
    nt: NalType,
    temporal_id: u8,
    sh: SliceHeader,
    sps: Sps,
)
    requires
        !(starts_sequence(k, nt) && k.stats.pictures > 0 && (nt.cra()
            || sh.no_output_of_prior_pics)),
    ensures
        dpb::pending(started(k, nt, temporal_id, sh, sps).buf) == dpb::pending(k.buf),
{
    broadcast use vstd::seq_lib::group_to_multiset_ensures;

    reveal(cleared);
    let poc = poc_of(k, nt, sh, sps);
    let b = Buffered { d: referenced(k.buf.d, nt, sh, sps, poc), out: k.buf.out };
    lemma_referenced_waiting(k.buf.d, nt, sh, sps, poc);
    assert(dpb::pending(b) == dpb::pending(k.buf));
    let ord = sps.order();
    if starts_sequence(k, nt) && k.stats.pictures > 0 {
        dpb::lemma_drained_pending(b);
        let a = started(k, nt, temporal_id, sh, sps).buf;
        assert(dpb::waiting_frames(a.d) =~= Seq::<dpb::FrameView>::empty());
        assert(dpb::pending(a) =~= a.out.to_multiset());
    } else {
        let b1 = Buffered { d: dpb::kept(b.d), out: b.out };
        let s = dpb::settled(b1, ord, true);
        dpb::lemma_kept_waiting(b.d);
        dpb::lemma_settled_pending(b1, ord, true);
        dpb::lemma_kept_waiting(s.d);
    }
}

/// Marking and completing the references changes nothing that waits.
proof fn lemma_referenced_waiting(
    d: Seq<Slot>,
    nt: NalType,
    sh: SliceHeader,
    sps: Sps,
    poc: int,
)
    ensures
        dpb::waiting_frames(referenced(d, nt, sh, sps, poc)) == dpb::waiting_frames(d),
{
    reveal(referenced);
    let max = max_lsb(sps);
    let r = rps::rps_of(sh, poc, max);
    if nt.idr() {
        dpb::lemma_same_waiting(dpb::unmarked(d), d);
    } else {
        let marked = dpb::remarked(d, r, max);
        let lost = lost_refs(d, nt, sh, sps, poc);
        let grey = Seq::new(lost.len(), |i: int| dpb::grey_slot(sps, lost[i].0, lost[i].1));
        dpb::lemma_same_waiting(marked, d);
        dpb::lemma_waiting_prefix(marked, grey);
    }
}

/// A picture that does not start a sequence finds every reference that its
/// slices may name: none of its lists fails for a missing picture.
pub proof fn lemma_references_found(
    k: Control,
    nt: NalType,
    temporal_id: u8,
    sh: SliceHeader,
    sps: Sps,
    list: int,
)
    requires
        !starts_sequence(k, nt),
        !nt.idr(),
    ensures
        ({
            let d = started(k, nt, temporal_id, sh, sps).buf.d;
            let r = rps::rps_of(sh, poc_of(k, nt, sh, sps), max_lsb(sps));
            reflists::slice_list(d, sh, r, max_lsb(sps), list) matches Err(text) ==> text
                == "list_entry out of range"@
        }),
{
    reveal(lost_refs);
    reveal(referenced);
    reveal(cleared);
    let max = max_lsb(sps);
    let poc = poc_of(k, nt, sh, sps);
    let r = rps::rps_of(sh, poc, max);
    let d = started(k, nt, temporal_id, sh, sps).buf.d;
    let marked = dpb::remarked(k.buf.d, r, max);
    let full = referenced(k.buf.d, nt, sh, sps, poc);
    assert(full == dpb::completed(marked, sps, dpb::missing(marked, r, max)));
    reflists::lemma_room_keeps(Buffered { d: full, out: k.buf.out }, sps.order());
    assert(reflists::keeps_references(d, full));
    let cs = reflists::candidates(r, list);
    let n = arith::max2(reflists::active(sh, list), sh.num_pic_total_curr as int);
    let tk = reflists::taken(cs, n);
    assert forall|i: int| !reflists::first_lacking(d, tk, max, i) by {
        if 0 <= i < tk.len() {
            assert(tk[i] == cs[i]);
            reflists::lemma_completed_has_candidates(marked, sps, r, max, list, i);
            reflists::lemma_candidate_kept(d, full, cs[i], max);
        }
    }
}

/// The control state and outcome of a first slice segment.
pub open spec fn start(
    k: Control,
    nt: NalType,
    temporal_id: u8,
    sh: SliceHeader,
    pps: Option<Pps>,
    sps: Option<Sps>,
    tiles_ok: bool,
) -> (Control, StartOutcome) {
    // A time stamp belongs to this picture, whatever becomes of it.
    let k0 = Control { pending_pts: None, ..k };
    if pps is None {
        (k0, refused("PPS"@))
    } else if sps is None {
        (k0, refused("SPS"@))
    } else {
        let sps = sps.unwrap();
        let flag = rasl_flag(k, nt);
        let k1 = Control { no_rasl_output_flag: flag, ..k0 };
        if nt.rasl() && flag {
            // Its IRAP picture started the sequence: it has no references.
            (
                Control {
                    skipping_picture: true,
                    stats: Stats {
                        skipped_rasl: (k.stats.skipped_rasl + 1) as u64,
                        ..k.stats
                    },
                    ..k1
                },
                StartOutcome::Skipped,
            )
        } else if !nt.irap() && k.first_in_sequence {
            // The stream does not start with an IRAP picture.
            (Control { skipping_picture: true, ..k1 }, StartOutcome::Skipped)
        } else {
            match scope_complaint(sps, pps.unwrap()) {
                Some(c) => (k1, StartOutcome::Refused(c)),
                None => if !(nt.irap() && flag) && k.active_sps_id != Some(sps.id) {
                    (k1, refused("SPS changed outside an IRAP"@))
                } else if !tiles_ok {
                    (Control { active_sps_id: Some(sps.id), ..k1 }, StartOutcome::NoTiles)
                } else {
                    (started(k, nt, temporal_id, sh, sps), StartOutcome::Started)
                },
            }
        }
    }
}

/// The blank picture that decoding fills, in its display window.
pub open spec fn blank_picture(sps: Sps, poc: int) -> PictureView {
    let (x, y, w, h) = sps.window();
    PictureView {
        crop: (x as usize, y as usize, w as usize, h as usize),
        poc: poc as i32,
        ..frame::flat_picture(
            sps.width as usize,
            sps.height as usize,
            sps.chroma_format_idc,
            sps.bit_depth_luma,
            sps.bit_depth_chroma,
            0,
            0,
        )
    }
}

/// The scaling factors that apply: the picture's, else the sequence's, where
/// scaling lists are in use.
pub open spec fn scaling_of(sps: Sps, pps: Pps) -> Option<Arc<ScalingFactors>> {
    if sps.scaling_list_enabled {
        match pps.scaling_list {
            Some(f) => Some(f),
            None => sps.scaling_list,
        }
    } else {
        None
    }
}

/// A picture before its first slice is decoded.
pub open(crate) spec fn is_new_picture(
    c: CurrentPicture,
    o: Decoder,
    hdr: NalHeader,
    sh: SliceHeader,
    sps: Arc<Sps>,
    pps: Arc<Pps>,
    tiles: TileLayout,
) -> bool {
    let poc = poc_of(o.control(), hdr.nal_type, sh, *sps);
    let r = rps::rps_of(sh, poc, max_lsb(*sps));
    &&& c.pic@ == blank_picture(*sps, poc)
    &&& c.poc == poc
    &&& c.sps == sps
    &&& c.pps == pps
    &&& *c.tiles == tiles
    &&& c.nal_type == hdr.nal_type
    &&& c.temporal_id == hdr.temporal_id
    &&& c.output_flag == sh.pic_output_flag
    &&& c.pts == o.pending_pts
    &&& c.last_indep_header is None
    &&& c.ref_lists@.len() == 0
    &&& c.slice_segments == 0
    &&& c.num_refs == r.before.len() + r.after.len() + r.lt_curr.len()
    &&& !c.errored
    &&& c.state.is_new_for(*sps, tiles)
    &&& c.headers@.len() == 0
    &&& c.slice_addr_rs == sh.segment_address
    &&& c.expected_hash == o.pending_hash
    &&& c.scaling == scaling_of(*sps, *pps)
    &&& c.wf()
}

impl Decoder {
    /// The parameter sets that a slice refers to.
    pub open(crate) spec fn pps_for(self, id: u8) -> Option<Arc<Pps>> {
        self.pps@[id as int]
    }

    pub open(crate) spec fn sps_for(self, id: u8) -> Option<Arc<Sps>> {
        match self.pps_for(id) {
            Some(p) => self.sps@[p.sps_id as int],
            None => None,
        }
    }

    /// A first slice segment that starts a picture gives it and its references
    /// counts in range.
    pub open(crate) spec fn counts_ok(self, nt: NalType, sh: SliceHeader) -> bool {
        self.sps_for(sh.pps_id) matches Some(sps) ==> !skips(self.control(), nt) ==> counts_fit(
            self.control(),
            nt,
            sh,
            *sps,
        )
    }

    /// A slice header that parses against the current parameter sets is in the
    /// ranges that they give.
    pub open(crate) spec fn header_ok(self, sh: SliceHeader, tiles: core::result::Result<
        TileLayout,
        Error,
    >) -> bool {
        &&& sh.pps_id < 64
        &&& sh.slice_type != SliceType::I ==> sh.lists_ok()
        &&& self.sps_for(sh.pps_id) matches Some(sps) ==> {
            &&& sh.wf(sps.log2_max_poc_lsb as int)
            &&& tiles matches Ok(t) ==> t.wf(sps.pic_width_in_ctbs * sps.pic_height_in_ctbs)
        }
    }

    /// The counters have room for another picture; the latency counts of the
    /// buffer have 32 bits.
    pub open(crate) spec fn has_room(self) -> bool {
        &&& self.can_start()
        &&& self.stats.pictures < 0xffff_ffff
        &&& self.stats.slices < u64::MAX
        &&& self.stats.errors < u64::MAX
        &&& self.stats.sei_checked < u64::MAX
    }

    /// What starting a picture counts has room.
    pub open(crate) spec fn can_start(self) -> bool {
        &&& self.stats.skipped_rasl < u64::MAX
        &&& self.stats.generated_refs <= u64::MAX - 192
    }
}

/// What a handle points at.
pub open spec fn shared<T>(a: Arc<T>) -> T {
    *a
}

pub open spec fn plain<T>(a: Option<Arc<T>>) -> Option<T> {
    match a {
        Some(x) => Some(*x),
        None => None,
    }
}

/// What starting a picture does.
pub open(crate) spec fn picture_started(
    o: Decoder,
    n: Decoder,
    hdr: NalHeader,
    sh: SliceHeader,
    tiles: core::result::Result<TileLayout, Error>,
    r: core::result::Result<(), Error>,
) -> bool {
    let (k, out) = start(
        o.control(),
        hdr.nal_type,
        hdr.temporal_id,
        sh,
        plain(o.pps_for(sh.pps_id)),
        plain(o.sps_for(sh.pps_id)),
        tiles is Ok,
    );
    &&& n.control() == k
    // A pending hash, too, belongs to this picture only.
    &&& n.pending_hash is None
    &&& match out {
        StartOutcome::Started => {
            &&& r is Ok
            &&& n.cur matches Some(c) && is_new_picture(
                c,
                o,
                hdr,
                sh,
                o.sps_for(sh.pps_id).unwrap(),
                o.pps_for(sh.pps_id).unwrap(),
                tiles->Ok_0,
            )
        },
        StartOutcome::Skipped => r is Ok && n.cur is None,
        StartOutcome::Refused(c) => (r matches Err(e) && c.is_said_by(e)) && n.cur is None,
        StartOutcome::NoTiles => {
            &&& r matches Err(e) && tiles == Err::<TileLayout, Error>(e)
            &&& n.cur is None
        },
    }
}

/// Applies a picture's reference picture set to the buffer and generates what
/// is missing. Returns the set and the number of pictures generated.
fn reference_buffer(
    d: &mut Vec<DpbEntry>,
    nt: NalType,
    sh: &SliceHeader,
    sps: &Sps,
    poc: i32,
) -> (r: (rps::Rps, usize))
    requires
        sps.wf(),
        sh.wf(sps.log2_max_poc_lsb as int),
        sh.refs_fit(poc as int, max_lsb(*sps)),
    ensures
        r.0@ == rps::rps_of(*sh, poc as int, max_lsb(*sps)),
        r.1 == lost_refs(dpb::slots(old(d)@), nt, *sh, *sps, poc as int).len(),
        r.1 <= 192,
        r.0@.before.len() + r.0@.after.len() + r.0@.lt_curr.len() <= 192,
        dpb::slots(final(d)@) == referenced(
            dpb::slots(old(d)@),
            nt,
            *sh,
            *sps,
            poc as int,
        ),
{
    let set = rps::derive_rps(sps.log2_max_poc_lsb, sh, poc);
    proof {
        reveal(lost_refs);
        reveal(referenced);
        rps::lemma_rps_sizes(*sh, poc as int, max_lsb(*sps));
    }
    if nt.is_idr() {
        dpb::unmark_all(d);
        return (set, 0);
    }
    dpb::mark_references(d, &set, sps.log2_max_poc_lsb);
    let lost = dpb::find_missing(d, &set, sps.log2_max_poc_lsb);
    dpb::generate_missing(d, sps, &lost);
    let n = lost.len();
    (set, n)
}

/// C.5.2.2: output and removal of pictures before the current one.
fn clear_buffer(
    d: &mut Vec<DpbEntry>,
    output: &mut VecDeque<Frame>,
    starts_later: bool,
    discard: bool,
    ord: &SubLayerOrder,
)
    requires
        ord.max_num_reorder_pics + ord.max_latency_increase_plus1 <= u32::MAX,
    ensures
        (Buffered { d: dpb::slots(final(d)@), out: dpb::frames(final(output)@) }) == cleared(
            Buffered { d: dpb::slots(old(d)@), out: dpb::frames(old(output)@) },
            starts_later,
            discard,
            *ord,
        ),
{
    reveal(cleared);
    if starts_later {
        if discard {
            d.clear();
        } else {
            dpb::flush_dpb_output(d, output);
        }
        assert(dpb::slots(d@) =~= Seq::empty());
    } else {
        dpb::drop_unused(d);
        dpb::settle(d, output, ord, true);
        // A full buffer with nothing left to output: drop unreferenced pictures.
        if d.len() > ord.max_dec_pic_buffering_minus1 as usize {
            dpb::drop_unused(d);
        }
    }
}

/// The generated pictures can be written out like any other.
proof fn lemma_referenced_ok(
    d: Seq<Slot>,
    out: Seq<dpb::FrameView>,
    nt: NalType,
    sh: SliceHeader,
    sps: Sps,
    poc: int,
    pictures: int,
)
    requires
        sps.wf(),
        buffer_ok(Buffered { d, out }, pictures),
        0 <= pictures,
    ensures
        buffer_ok(Buffered { d: referenced(d, nt, sh, sps, poc), out }, pictures),
{
    reveal(lost_refs);
    reveal(referenced);
    let e = referenced(d, nt, sh, sps, poc);
    let b = Buffered { d, out };
    let a = Buffered { d: e, out };
    assert forall|i: int| #![trigger a.d[i]] 0 <= i < a.d.len() implies a.d[i].pic.crop_ok() && 0
        <= a.d[i].latency <= pictures by {
        if i < d.len() {
            assert(b.d[i].pic.crop_ok());
            assert(a.d[i].pic == b.d[i].pic);
        } else {
            let k = lost_refs(d, nt, sh, sps, poc)[i - d.len()];
            assert(a.d[i] == dpb::grey_slot(sps, k.0, k.1));
            lemma_flat_crop(sps, dpb::grey_picture(sps, k.0));
        }
    }
    assert forall|i: int| #![trigger a.out[i]] 0 <= i < a.out.len() implies a.out[i].pic.crop_ok() by {
        assert(b.out[i].pic.crop_ok());
    }
}

/// A picture of the sequence's size whose window lies inside it.
proof fn lemma_flat_crop(sps: Sps, v: PictureView)
    requires
        sps.wf(),
        ({
            let (cw, ch) = frame::chroma_size(
                sps.width as int,
                sps.height as int,
                sps.chroma_format_idc as int,
            );
            &&& v.chroma_format_idc == sps.chroma_format_idc
            &&& v.y.stride == sps.width
            &&& v.y.data.len() == sps.width * sps.height
            &&& v.cb.stride == cw
            &&& v.cb.data.len() == cw * ch
            &&& v.cr.stride == cw
            &&& v.cr.data.len() == cw * ch
        }),
        v.crop.0 + v.crop.2 <= sps.width,
        v.crop.1 + v.crop.3 <= sps.height,
    ensures
        v.crop_ok(),
{
    let (cw, ch) = frame::chroma_size(
        sps.width as int,
        sps.height as int,
        sps.chroma_format_idc as int,
    );
    assert forall|c: int|
        #![trigger v.crop_window(c)]
        0 <= c < 3 && (c == 0 || v.chroma_format_idc != 0) implies {
        let (x, y, w, h) = v.crop_window(c);
        y + h <= usize::MAX && x + w <= usize::MAX && frame::window_ok(v.plane(c), x, y, w, h)
    } by {
        let (x, y, w, h) = v.crop_window(c);
        let p = v.plane(c);
        let (pw, ph) = if c == 0 {
            (sps.width as int, sps.height as int)
        } else {
            (cw, ch)
        };
        assert(p.stride == pw && p.data.len() == pw * ph);
        let (sw, sv) = frame::subsampling(v.chroma_format_idc as int);
        lemma_scaled_window(v.crop.0 as int, v.crop.2 as int, sps.width as int, sw);
        lemma_scaled_window(v.crop.1 as int, v.crop.3 as int, sps.height as int, sv);
        assert(0 <= x && 0 <= w && x + w <= pw && 0 <= y && 0 <= h && y + h <= ph);
        assert forall|r: int| #![trigger r * p.stride] y <= r < y + h implies r * p.stride + x + w
            <= p.data.len() by {
            assert(r * pw + x + w <= pw * ph) by (nonlinear_arith)
                requires
                    0 <= r,
                    r + 1 <= ph,
                    0 <= x + w <= pw,
            ;
        }
    }
}

/// A window scaled down stays inside what it is scaled down with.
proof fn lemma_scaled_window(at: int, len: int, size: int, s: int)
    requires
        s == 1 || s == 2,
        0 <= at,
        0 <= len,
        at + len <= size,
    ensures
        0 <= at / s,
        0 <= len / s,
        s == 1 ==> at / s + len / s <= size,
        s == 2 ==> at / s + len / s <= arith::ceil_div(size, 2),
{
    if s == 1 {
        assert(at / 1 == at && len / 1 == len);
    } else {
        assert(at / 2 + len / 2 <= (size + 1) / 2);
    }
}

proof fn lemma_cleared_ok(
    b: Buffered,
    starts_later: bool,
    discard: bool,
    ord: SubLayerOrder,
    pictures: int,
)
    requires
        buffer_ok(b, pictures),
    ensures
        buffer_ok(cleared(b, starts_later, discard, ord), pictures),
{
    reveal(cleared);
    if starts_later {
        lemma_drained_ok(b, pictures);
    } else {
        lemma_kept_ok(b.d, b.out, pictures);
        let k = Buffered { d: dpb::kept(b.d), out: b.out };
        lemma_settled_ok(k, ord, true, pictures);
        let s = dpb::settled(k, ord, true);
        lemma_kept_ok(s.d, s.out, pictures);
    }
}

/// The samples of a blank picture are in range, and it has the sequence's
/// size.
proof fn lemma_blank_ok(p: Picture, sps: Sps, st: PicState)
    requires
        sps.wf(),
        sps.chroma_format_idc == 1,
        p@ == blank_picture(sps, p.poc as int),
        st.shape_ok(),
        st.width == sps.width,
        st.height == sps.height,
    ensures
        filters::planes_ok(p.planes@, st, sps),
        p.crop_ok(),
{
    let (x, y, w, h) = sps.window();
    assert(0 <= x && 0 <= y && 0 <= w && 0 <= h && x + w <= sps.width && y + h <= sps.height) by {
        lemma_window(sps);
    }
    lemma_flat_crop(sps, p@);
    assert forall|c: int| #![trigger p.planes@[c]] 0 <= c < 3 implies filters::plane_fits(
        p.planes@[c],
        st,
        c,
    ) && p.planes@[c].bounded(pow2(filters::depth_of(sps, c)) - 1) by {
        lemma_pow2_pos(filters::depth_of(sps, c));
        let q = p.planes@[c];
        if c == 0 {
            assert(q@ == p@.y);
        } else if c == 1 {
            assert(q@ == p@.cb);
        } else {
            assert(q@ == p@.cr);
        }
        assert(q.data@ == q@.data);
        assert(forall|i: int| #![trigger q.data@[i]] 0 <= i < q.data@.len() ==> q.data@[i] == 0);
    }
}

/// The display window lies inside the picture.
proof fn lemma_window(sps: Sps)
    requires
        sps.wf(),
    ensures
        ({
            let (x, y, w, h) = sps.window();
            &&& 0 <= x
            &&& 0 <= y
            &&& 0 < w
            &&& 0 < h
            &&& x + w <= sps.width
            &&& y + h <= sps.height
        }),
{
    let (a, b, c, d) = (sps.conf_win@[0], sps.conf_win@[1], sps.conf_win@[2], sps.conf_win@[3]);
    assert(0 <= sps.sub_width_c * a <= sps.sub_width_c * (a + b)) by (nonlinear_arith)
        requires
            0 <= sps.sub_width_c,
            0 <= a,
            0 <= b,
    ;
    assert(0 <= sps.sub_height_c * c <= sps.sub_height_c * (c + d)) by (nonlinear_arith)
        requires
            0 <= sps.sub_height_c,
            0 <= c,
            0 <= d,
    ;
}

impl Decoder {
    /// Starts the picture of a first slice segment: activates its parameter
    /// sets, derives its order count, marks and completes the buffer, makes
    /// room, and sets up the picture.
    fn start_picture(
        &mut self,
        hdr: &NalHeader,
        sh: &SliceHeader,
        tiles: core::result::Result<TileLayout, Error>,
    ) -> (r: core::result::Result<(), Error>)
        requires
            old(self).wf(),
            old(self).cur is None,
            old(self).can_start(),
            old(self).header_ok(*sh, tiles),
            old(self).counts_ok(hdr.nal_type, *sh),
        ensures
            final(self).wf(),
            final(self).same_sets(*old(self)),
            final(self).same_options(*old(self)),
            final(self).hash_checks == old(self).hash_checks,
            final(self).sei_results == old(self).sei_results,
            picture_started(*old(self), *final(self), *hdr, *sh, tiles, r),
    {
        let ghost k0 = self.control();
        let pts = self.pending_pts.take();
        let hash = self.pending_hash.take();
        let ghost k = self.control();
        assert(k == (Control { pending_pts: None, ..k0 }));
        let pps = match &self.pps[sh.pps_id as usize] {
            Some(p) => share(p),
            None => {
                return Err(Error::invalid("PPS"));
            },
        };
        let sps = match &self.sps[pps.sps_id as usize] {
            Some(s) => share(s),
            None => {
                return Err(Error::invalid("SPS"));
            },
        };
        let nt = hdr.nal_type;
        match self.activate(nt, &sps, &pps) {
            Err(e) => {
                return Err(e);
            },
            Ok(goes_on) => {
                if !goes_on {
                    return Ok(());
                }
            },
        }
        let tiles = match tiles {
            Err(e) => {
                return Err(e);
            },
            Ok(t) => t,
        };
        let ghost k1 = self.control();
        proof {
            assert(counts_fit(k1, nt, *sh, shared(sps)));
            assert(started(k1, nt, hdr.temporal_id, *sh, shared(sps)) == started(
                k0,
                nt,
                hdr.temporal_id,
                *sh,
                shared(sps),
            ));
        }
        let starts = nt.is_irap() && self.no_rasl_output_flag;
        self.open_picture(hdr, sh, sps, pps, tiles, starts, pts, hash);
        Ok(())
    }

    /// Decides whether a picture is decoded (`Ok(true)`), skipped or refused,
    /// and activates its parameter set.
    fn activate(&mut self, nt: NalType, sps: &Sps, pps: &Pps) -> (r: core::result::Result<
        bool,
        Error,
    >)
        requires
            old(self).wf(),
            old(self).can_start(),
        ensures
            final(self).wf(),
            *final(self) == (Decoder {
                no_rasl_output_flag: rasl_flag(old(self).control(), nt),
                skipping_picture: old(self).skipping_picture || skips(old(self).control(), nt),
                active_sps_id: if r == Ok::<bool, Error>(true) {
                    Some(sps.id)
                } else {
                    old(self).active_sps_id
                },
                stats: Stats {
                    skipped_rasl: (old(self).stats.skipped_rasl + if nt.rasl() && rasl_flag(
                        old(self).control(),
                        nt,
                    ) {
                        1int
                    } else {
                        0
                    }) as u64,
                    ..old(self).stats
                },
                ..*old(self)
            }),
            match r {
                Ok(false) => skips(old(self).control(), nt),
                Ok(true) => {
                    &&& !skips(old(self).control(), nt)
                    &&& scope_complaint(*sps, *pps) is None
                    &&& starts_sequence(old(self).control(), nt) || old(self).active_sps_id == Some(
                        sps.id,
                    )
                },
                Err(e) => !skips(old(self).control(), nt) && match scope_complaint(*sps, *pps) {
                    Some(c) => c.is_said_by(e),
                    None => {
                        &&& e.says_invalid("SPS changed outside an IRAP"@)
                        &&& !starts_sequence(old(self).control(), nt)
                        &&& old(self).active_sps_id != Some(sps.id)
                    },
                },
            },
    {
        // NoRaslOutputFlag (§8.1.3).
        if nt.is_irap() {
            self.no_rasl_output_flag = nt.is_idr() || nt.is_bla() || self.first_in_sequence;
        }
        let flag = self.no_rasl_output_flag;
        if nt.is_rasl() && flag {
            self.skipping_picture = true;
            self.stats.skipped_rasl += 1;
            return Ok(false);
        }
        if !nt.is_irap() && self.first_in_sequence {
            self.skipping_picture = true;
            return Ok(false);
        }
        // Activation and scope.
        match check_scope(sps, pps) {
            Err(e) => {
                return Err(e);
            },
            Ok(_) => {},
        }
        let is_active = match self.active_sps_id {
            Some(id) => id == sps.id,
            None => false,
        };
        if nt.is_irap() && flag {
            self.active_sps_id = Some(sps.id);
        } else if !is_active {
            return Err(Error::invalid("SPS changed outside an IRAP"));
        }
        Ok(true)
    }

    /// Sets up a picture that is to be decoded.
    #[verifier::rlimit(40)]
    fn open_picture(
        &mut self,
        hdr: &NalHeader,
        sh: &SliceHeader,
        sps: Arc<Sps>,
        pps: Arc<Pps>,
        tiles: TileLayout,
        starts: bool,
        pts: Option<i64>,
        hash: Option<PictureHash>,
    )
        requires
            old(self).wf(),
            old(self).cur is None,
            old(self).can_start(),
            counts_fit(old(self).control(), hdr.nal_type, *sh, *sps),
            sps.wf(),
            pps.wf(),
            sps.chroma_format_idc == 1,
            sh.wf(sps.log2_max_poc_lsb as int),
            tiles.wf(sps.pic_width_in_ctbs * sps.pic_height_in_ctbs),
            starts == starts_sequence(old(self).control(), hdr.nal_type),
            old(self).no_rasl_output_flag == rasl_flag(old(self).control(), hdr.nal_type),
            old(self).active_sps_id == Some(sps.id),
            old(self).pending_pts is None,
        ensures
            final(self).wf(),
            final(self).same_sets(*old(self)),
            final(self).same_options(*old(self)),
            final(self).hash_checks == old(self).hash_checks,
            final(self).sei_results == old(self).sei_results,
            final(self).pending_hash == old(self).pending_hash,
            final(self).control() == started(
                old(self).control(),
                hdr.nal_type,
                hdr.temporal_id,
                *sh,
                *sps,
            ),
            final(self).cur matches Some(c) && is_new_picture(
                c,
                (Decoder { pending_pts: pts, pending_hash: hash, ..*old(self) }),
                *hdr,
                *sh,
                sps,
                pps,
                tiles,
            ),
    {
        let ghost k0 = self.control();
        let nt = hdr.nal_type;
        // POC (§8.3.1).
        let poc = rps::picture_poc(
            starts,
            self.prev_tid0_poc,
            sh.poc_lsb,
            sps.log2_max_poc_lsb,
        );
        if hdr.temporal_id == 0 && !nt.is_rasl() && !nt.is_radl() && !nt.is_sub_layer_non_ref() {
            self.prev_tid0_poc = poc;
        }
        // References, then output and removal before the current picture.
        let (num_refs, generated) = prepare_buffer(
            &mut self.dpb,
            &mut self.output,
            nt,
            sh,
            &sps,
            poc,
            starts && self.stats.pictures > 0,
            Ghost(self.stats.pictures as int),
        );
        self.stats.generated_refs += generated as u64;
        let cur = new_picture(
            hdr,
            sh,
            sps,
            pps,
            tiles,
            poc,
            num_refs,
            pts,
            hash,
        );
        self.cur = Some(cur);
        self.first_in_sequence = false;
        assert(self.control() == started(k0, nt, hdr.temporal_id, *sh, *sps));
    }
}

/// Marks and completes the buffer for a picture and makes room for it. Returns
/// the number of its references and of those generated.
fn prepare_buffer(
    d: &mut Vec<DpbEntry>,
    output: &mut VecDeque<Frame>,
    nt: NalType,
    sh: &SliceHeader,
    sps: &Sps,
    poc: i32,
    starts_later: bool,
    Ghost(pictures): Ghost<int>,
) -> (r: (usize, usize))
    requires
        sps.wf(),
        sh.wf(sps.log2_max_poc_lsb as int),
        sh.refs_fit(poc as int, max_lsb(*sps)),
        buffer_ok(
            Buffered { d: dpb::slots(old(d)@), out: dpb::frames(old(output)@) },
            pictures,
        ),
        0 <= pictures,
    ensures
        ({
            let set = rps::rps_of(*sh, poc as int, max_lsb(*sps));
            r.0 == set.before.len() + set.after.len() + set.lt_curr.len()
        }),
        r.1 == lost_refs(dpb::slots(old(d)@), nt, *sh, *sps, poc as int).len(),
        r.1 <= 192,
        (Buffered { d: dpb::slots(final(d)@), out: dpb::frames(final(output)@) }) == cleared(
            Buffered {
                d: referenced(dpb::slots(old(d)@), nt, *sh, *sps, poc as int),
                out: dpb::frames(old(output)@),
            },
            starts_later,
            nt.cra() || sh.no_output_of_prior_pics,
            sps.order(),
        ),
        buffer_ok(
            Buffered { d: dpb::slots(final(d)@), out: dpb::frames(final(output)@) },
            pictures,
        ),
{
    proof {
        lemma_referenced_ok(
            dpb::slots(d@),
            dpb::frames(output@),
            nt,
            *sh,
            *sps,
            poc as int,
            pictures,
        );
    }
    let (set, generated) = reference_buffer(d, nt, sh, sps, poc);
    let ord = sps.ordering[sps.max_sub_layers_minus1 as usize];
    proof {
        lemma_cleared_ok(
            Buffered { d: dpb::slots(d@), out: dpb::frames(output@) },
            starts_later,
            nt.cra() || sh.no_output_of_prior_pics,
            ord,
            pictures,
        );
    }
    clear_buffer(d, output, starts_later, nt.is_cra() || sh.no_output_of_prior_pics, &ord);
    (set.before.len() + set.after.len() + set.lt_curr.len(), generated)
}

/// Sets up a picture for decoding.
fn new_picture(
    hdr: &NalHeader,
    sh: &SliceHeader,
    sps: Arc<Sps>,
    pps: Arc<Pps>,
    tiles: TileLayout,
    poc: i32,
    num_refs: usize,
    pts: Option<i64>,
    expected_hash: Option<PictureHash>,
) -> (c: CurrentPicture)
    requires
        sps.wf(),
        pps.wf(),
        sps.chroma_format_idc == 1,
        tiles.wf(sps.pic_width_in_ctbs * sps.pic_height_in_ctbs),
        sh.segment_address <= i32::MAX,
    ensures
        c.wf(),
        c.pic@ == blank_picture(*sps, poc as int),
        c.poc == poc,
        c.sps == sps,
        c.pps == pps,
        *c.tiles == tiles,
        c.nal_type == hdr.nal_type,
        c.temporal_id == hdr.temporal_id,
        c.output_flag == sh.pic_output_flag,
        c.pts == pts,
        c.last_indep_header is None,
        c.ref_lists@.len() == 0,
        c.slice_segments == 0,
        c.num_refs == num_refs,
        !c.errored,
        c.state.is_new_for(*sps, tiles),
        c.headers@.len() == 0,
        c.slice_addr_rs == sh.segment_address,
        c.expected_hash == expected_hash,
        c.scaling == scaling_of(*sps, *pps),
{
    let (w, h) = (sps.width as usize, sps.height as usize);
    let ghost sps_now = shared(sps);
    proof {
        reveal(CurrentPicture::wf);
        reveal(PicState::is_new_for);
        assert(w * h <= 0xffff * 0xffff) by (nonlinear_arith)
            requires
                0 <= w <= 0xffff,
                0 <= h <= 0xffff,
        ;
        lemma_window(sps_now);
        let (a, b, e, d) = (
            sps.conf_win@[0],
            sps.conf_win@[1],
            sps.conf_win@[2],
            sps.conf_win@[3],
        );
        let (cw, ch) = (sps.sub_width_c, sps.sub_height_c);
        assert(a + b <= cw * (a + b) && cw * a <= cw * (a + b) && 0 <= cw * a) by (nonlinear_arith)
            requires
                1 <= cw,
                0 <= a,
                0 <= b,
        ;
        assert(e + d <= ch * (e + d) && ch * e <= ch * (e + d) && 0 <= ch * e) by (nonlinear_arith)
            requires
                1 <= ch,
                0 <= e,
                0 <= d,
        ;
    }
    let mut pic = Picture::new(
        w,
        h,
        sps.chroma_format_idc,
        sps.bit_depth_luma,
        sps.bit_depth_chroma,
    );
    let (sw, sv) = (sps.sub_width_c as u32, sps.sub_height_c as u32);
    let win = sps.conf_win;
    pic.crop =
    (
        (sw * win[0]) as usize,
        (sv * win[2]) as usize,
        (sps.width - sw * (win[0] + win[1])) as usize,
        (sps.height - sv * (win[2] + win[3])) as usize,
    );
    pic.poc = poc;
    assert(pic@ =~= blank_picture(*sps, poc as int));
    let state = PicState::new(&sps, &tiles);
    proof {
        lemma_blank_ok(pic, sps_now, state);
    }
    let scaling = if sps.scaling_list_enabled {
        match &pps.scaling_list {
            Some(f) => Some(share(f)),
            None => match &sps.scaling_list {
                Some(f) => Some(share(f)),
                None => None,
            },
        }
    } else {
        None
    };
    CurrentPicture {
        pic,
        poc,
        sps,
        pps,
        tiles: Arc::new(tiles),
        nal_type: hdr.nal_type,
        temporal_id: hdr.temporal_id,
        output_flag: sh.pic_output_flag,
        pts,
        last_indep_header: None,
        ref_lists: Vec::new(),
        slice_segments: 0,
        num_refs,
        errored: false,
        state,
        headers: Vec::new(),
        slice_addr_rs: sh.segment_address as i32,
        expected_hash,
        scaling,
        sao_scratch: Vec::new(),
        deblock_bs_v: Vec::new(),
        deblock_bs_h: Vec::new(),
    }
}

// ---- slices ----

/// A slice segment as parsed: whether it is the first of its picture, its
/// header, and the tile layout of the parameter sets it names.
#[derive(Debug)]
pub struct SliceUnit {
    pub first: bool,
    pub header: core::result::Result<SliceHeader, Error>,
    pub tiles: core::result::Result<TileLayout, Error>,
}

/// A slice that is to be decoded into the picture in flight.
#[derive(Debug)]
pub struct SliceTask {
    /// The number of the slice in its picture.
    pub slice_idx: u16,
    pub header: Arc<SliceHeader>,
}

/// The picture in flight with one more slice.
pub open spec fn with_slice(
    n: CurrentPicture,
    c: CurrentPicture,
    sh: SliceHeader,
    lists: RefLists,
    headers_only: bool,
) -> bool {
    &&& n.pic == c.pic
    &&& n.poc == c.poc
    &&& n.sps == c.sps
    &&& n.pps == c.pps
    &&& n.tiles == c.tiles
    &&& n.nal_type == c.nal_type
    &&& n.temporal_id == c.temporal_id
    &&& n.output_flag == c.output_flag
    &&& n.pts == c.pts
    &&& n.num_refs == c.num_refs
    &&& n.errored == c.errored
    &&& n.state == c.state
    &&& n.expected_hash == c.expected_hash
    &&& n.scaling == c.scaling
    &&& n.ref_lists@ == c.ref_lists@.push(lists)
    &&& n.slice_segments == c.slice_segments + 1
    &&& if sh.dependent_slice_segment {
        n.last_indep_header == c.last_indep_header && n.slice_addr_rs == c.slice_addr_rs
    } else {
        &&& n.last_indep_header matches Some(h) && *h == sh
        &&& n.slice_addr_rs == sh.segment_address
    }
    &&& if headers_only {
        n.headers@ == c.headers@
    } else {
        &&& n.headers@.len() == c.headers@.len() + 1
        &&& n.headers@.drop_last() == c.headers@
        &&& *n.headers@.last() == sh
    }
}

/// The lists of a slice: none for an intra slice.
pub open spec fn lists_for(d: Seq<Slot>, sh: SliceHeader, c: CurrentPicture)
    -> core::result::Result<(Seq<reflists::RefView>, Seq<reflists::RefView>), Seq<char>> {
    if sh.slice_type == SliceType::I {
        Ok((Seq::empty(), Seq::empty()))
    } else {
        reflists::slice_lists(
            d,
            sh,
            rps::rps_of(sh, c.poc as int, max_lsb(*c.sps)),
            max_lsb(*c.sps),
        )
    }
}

/// The references of a slice of a picture have counts in range.
pub open spec fn slice_fits(c: CurrentPicture, sh: SliceHeader) -> bool {
    sh.pps_id == c.pps.id && sh.slice_type != SliceType::I ==> sh.refs_fit(
        c.poc as int,
        max_lsb(*c.sps),
    )
}

impl Decoder {
    /// Adds a slice to the picture in flight.
    fn add_slice(&mut self, sh: SliceHeader) -> (r: core::result::Result<Option<SliceTask>, Error>)
        requires
            old(self).wf(),
            old(self).stats.slices < u64::MAX,
            sh.slice_type != SliceType::I ==> sh.lists_ok(),
            sh.segment_address <= i32::MAX,
            old(self).cur matches Some(c) ==> c.slice_segments < u32::MAX && slice_fits(c, sh),
        ensures
            final(self).wf(),
            final(self).same_sets(*old(self)),
            final(self).same_options(*old(self)),
            final(self).pending_hash == old(self).pending_hash,
            final(self).hash_checks == old(self).hash_checks,
            final(self).sei_results == old(self).sei_results,
            slice_added(*old(self), *final(self), sh, r),
    {
        let ghost o = *self;
        let cur = match self.cur.as_mut() {
            Some(c) => c,
            None => {
                return Err(Error::invalid("no current picture"));
            },
        };
        let ghost c0 = *cur;
        proof {
            reveal(CurrentPicture::wf);
        }
        if sh.pps_id != cur.pps.id {
            return Err(Error::invalid("slice PPS differs within a picture"));
        }
        // Reference lists for this slice (§8.3.4).
        let lists = if sh.slice_type.is_intra() {
            RefLists::default()
        } else {
            match reflists::build_ref_lists(&self.dpb, &sh, cur.poc, cur.sps.log2_max_poc_lsb) {
                Ok(l) => l,
                Err(e) => {
                    return Err(e);
                },
            }
        };
        let ghost added = lists;
        proof {
            if sh.slice_type == SliceType::I {
                assert(reflists::refs(added.l0@) =~= Seq::empty());
                assert(reflists::refs(added.l1@) =~= Seq::empty());
            }
            assert(lists_for(dpb::slots(o.dpb@), sh, c0) == Ok::<
                (Seq<reflists::RefView>, Seq<reflists::RefView>),
                Seq<char>,
            >((reflists::refs(added.l0@), reflists::refs(added.l1@))));
        }
        cur.ref_lists.push(lists);
        let header = Arc::new(sh);
        if !header.dependent_slice_segment {
            cur.last_indep_header = Some(share(&header));
            cur.slice_addr_rs = header.segment_address as i32;
        }
        cur.slice_segments += 1;
        self.stats.slices += 1;
        if self.headers_only {
            assert(with_slice(*cur, c0, sh, added, true));
            return Ok(None);
        }
        let n = cur.headers.len();
        let slice_idx = (n % 0x1_0000) as u16;
        cur.headers.push(share(&header));
        assert(cur.headers@.drop_last() =~= c0.headers@);
        assert(with_slice(*cur, c0, sh, added, false));
        Ok(Some(SliceTask { slice_idx, header }))
    }
}

/// What adding a slice does.
pub open(crate) spec fn slice_added(
    o: Decoder,
    n: Decoder,
    sh: SliceHeader,
    r: core::result::Result<Option<SliceTask>, Error>,
) -> bool {
    match o.cur {
        None => r matches Err(e) && e.says_invalid("no current picture"@) && n == o,
        Some(c) => if sh.pps_id != c.pps.id {
            &&& r matches Err(e) && e.says_invalid("slice PPS differs within a picture"@)
            &&& n == o
        } else {
            match lists_for(dpb::slots(o.dpb@), sh, c) {
                Err(text) => r matches Err(e) && e.says_invalid(text) && n == o,
                Ok((l0, l1)) => {
                    &&& n == (Decoder {
                        cur: n.cur,
                        stats: Stats { slices: (o.stats.slices + 1) as u64, ..o.stats },
                        ..o
                    })
                    &&& n.cur matches Some(m) && exists|l: RefLists|
                        #![trigger reflists::refs(l.l0@)]
                        reflists::refs(l.l0@) == l0 && reflists::refs(l.l1@) == l1 && with_slice(
                            m,
                            c,
                            sh,
                            l,
                            o.headers_only,
                        )
                    &&& r matches Ok(t) && if o.headers_only {
                        t is None
                    } else {
                        t matches Some(task) && task.slice_idx == c.headers@.len() % 0x1_0000
                            && *task.header == sh
                    }
                },
            }
        },
    }
}

/// What a slice segment does that is not the first of its picture.
pub open(crate) spec fn later_slice(
    o: Decoder,
    n: Decoder,
    unit: SliceUnit,
    r: core::result::Result<Option<SliceTask>, Error>,
) -> bool {
    if o.skipping_picture {
        r == Ok::<Option<SliceTask>, Error>(None) && n == o
    } else {
        match unit.header {
            Err(e) => r == Err::<Option<SliceTask>, Error>(e) && n == o,
            Ok(sh) => if o.cur is None {
                &&& r matches Err(e) && e.says_invalid("slice without a first slice segment"@)
                &&& n == o
            } else {
                slice_added(o, n, sh, r)
            },
        }
    }
}

/// What the first slice segment of a picture does, once the picture before it
/// is finished (`m`).
pub open(crate) spec fn first_slice(
    m: Decoder,
    n: Decoder,
    hdr: NalHeader,
    unit: SliceUnit,
    r: core::result::Result<Option<SliceTask>, Error>,
) -> bool {
    match unit.header {
        Err(e) => r == Err::<Option<SliceTask>, Error>(e) && n == (Decoder {
            pending_pts: None,
            pending_hash: None,
            ..m
        }),
        Ok(sh) => exists|s: Decoder, q: core::result::Result<(), Error>|
            #![trigger picture_started(m, s, hdr, sh, unit.tiles, q)]
            {
                &&& picture_started(m, s, hdr, sh, unit.tiles, q)
                &&& s.same_sets(m)
                &&& s.same_options(m)
                &&& s.hash_checks == m.hash_checks
                &&& s.sei_results == m.sei_results
                &&& match q {
                    Err(e) => r == Err::<Option<SliceTask>, Error>(e) && n == s,
                    Ok(_) => if s.skipping_picture {
                        r == Ok::<Option<SliceTask>, Error>(None) && n == s
                    } else {
                        slice_added(s, n, sh, r)
                    },
                }
            },
    }
}

/// What a slice segment does: the first of a picture ends the one before it.
pub open(crate) spec fn slice_pushed(
    o: Decoder,
    n: Decoder,
    hdr: NalHeader,
    unit: SliceUnit,
    r: core::result::Result<Option<SliceTask>, Error>,
) -> bool {
    if unit.first {
        exists|m: Decoder|
            #![trigger picture_finished(o, m)]
            picture_finished(o, m) && first_slice(
                (Decoder { skipping_picture: false, ..m }),
                n,
                hdr,
                unit,
                r,
            )
    } else {
        later_slice(stamped(o), n, unit, r)
    }
}

/// A time stamp that came with a later segment of a picture is that picture's,
/// unless it has one; without a picture in flight it is nobody's.
pub open(crate) spec fn stamped(o: Decoder) -> Decoder {
    Decoder {
        pending_pts: None,
        cur: match o.cur {
            Some(c) => Some(
                CurrentPicture {
                    pts: match c.pts {
                        Some(t) => Some(t),
                        None => o.pending_pts,
                    },
                    ..c
                },
            ),
            None => None,
        },
        ..o
    }
}

impl Decoder {
    /// A slice unit that was parsed in the decoder's current state.
    pub open(crate) spec fn unit_ok(self, nt: NalType, unit: SliceUnit) -> bool {
        unit.header matches Ok(sh) ==> {
            &&& self.header_ok(sh, unit.tiles)
            &&& if unit.first {
                self.counts_ok(nt, sh)
            } else {
                &&& sh.segment_address <= i32::MAX
                &&& self.cur matches Some(c) ==> c.slice_segments < u32::MAX && slice_fits(c, sh)
            }
        }
    }

    /// Hands the pending time stamp to the picture in flight.
    fn stamp(&mut self)
        requires
            old(self).wf(),
        ensures
            final(self).wf(),
            *final(self) == stamped(*old(self)),
    {
        let pts = self.pending_pts.take();
        proof {
            reveal(CurrentPicture::wf);
        }
        match self.cur.as_mut() {
            Some(c) => {
                if c.pts.is_none() {
                    c.pts = pts;
                }
            },
            None => {},
        }
    }

    /// Feeds one slice segment.
    pub fn push_slice(&mut self, hdr: &NalHeader, unit: SliceUnit) -> (r: core::result::Result<
        Option<SliceTask>,
        Error,
    >)
        requires
            old(self).wf(),
            old(self).has_room(),
            old(self).unit_ok(hdr.nal_type, unit),
        ensures
            final(self).wf(),
            slice_pushed(*old(self), *final(self), *hdr, unit, r),
    {
        if !unit.first {
            self.stamp();
            if self.skipping_picture {
                return Ok(None);
            }
            let sh = match unit.header {
                Ok(h) => h,
                Err(e) => {
                    return Err(e);
                },
            };
            if self.cur.is_none() {
                return Err(Error::invalid("slice without a first slice segment"));
            }
            return self.add_slice(sh);
        }
        self.finish_picture();
        let ghost done = *self;
        self.skipping_picture = false;
        let ghost m = *self;
        assert(m == (Decoder { skipping_picture: false, ..done }));
        let sh = match unit.header {
            Ok(h) => h,
            Err(e) => {
                self.pending_pts = None;
                self.pending_hash = None;
                return Err(e);
            },
        };
        let q = self.start_picture(hdr, &sh, unit.tiles);
        let ghost s = *self;
        assert(picture_started(m, s, *hdr, sh, unit.tiles, q));
        match q {
            Err(e) => {
                return Err(e);
            },
            Ok(_) => {},
        }
        if self.skipping_picture {
            return Ok(None);
        }
        self.add_slice(sh)
    }
}

// ---- construction ----

impl Decoder {
    /// A decoder before its first NAL unit.
    pub open(crate) spec fn is_new(self) -> bool {
        &&& forall|i: int| #![trigger self.vps@[i]] 0 <= i < 16 ==> self.vps@[i] is None
        &&& forall|i: int| #![trigger self.sps@[i]] 0 <= i < 16 ==> self.sps@[i] is None
        &&& forall|i: int| #![trigger self.pps@[i]] 0 <= i < 64 ==> self.pps@[i] is None
        &&& self.active_sps_id is None
        &&& self.dpb@.len() == 0
        &&& self.output@.len() == 0
        &&& self.cur is None
        &&& self.prev_tid0_poc == 0
        &&& self.first_in_sequence
        &&& self.no_rasl_output_flag
        &&& !self.skipping_picture
        &&& self.pending_pts is None
        &&& self.pending_hash is None
        &&& !self.verify_sei
        &&& self.hash_checks@.len() == 0
        &&& self.sei_results@.len() == 0
        &&& self.stats == (Stats {
            pictures: 0,
            slices: 0,
            errors: 0,
            skipped_rasl: 0,
            generated_refs: 0,
            sei_checked: 0,
            sei_mismatch: 0,
        })
        &&& !self.headers_only
        &&& self.switches == (FilterSwitches { skip_all: false, skip_sao: false })
    }

    /// A decoder before its first NAL unit.
    pub fn new() -> (d: Self)
        ensures
            d.wf(),
            d.is_new(),
    {
        let mut vps: Vec<Option<Arc<Vps>>> = Vec::new();
        let mut sps: Vec<Option<Arc<Sps>>> = Vec::new();
        let mut pps: Vec<Option<Arc<Pps>>> = Vec::new();
        while vps.len() < 16
            invariant
                vps@.len() <= 16,
                forall|i: int| #![trigger vps@[i]] 0 <= i < vps@.len() ==> vps@[i] is None,
            decreases 16 - vps@.len(),
        {
            vps.push(None);
        }
        while sps.len() < 16
            invariant
                sps@.len() <= 16,
                forall|i: int| #![trigger sps@[i]] 0 <= i < sps@.len() ==> sps@[i] is None,
            decreases 16 - sps@.len(),
        {
            sps.push(None);
        }
        while pps.len() < 64
            invariant
                pps@.len() <= 64,
                forall|i: int| #![trigger pps@[i]] 0 <= i < pps@.len() ==> pps@[i] is None,
            decreases 64 - pps@.len(),
        {
            pps.push(None);
        }
        Decoder {
            vps,
            sps,
            pps,
            active_sps_id: None,
            dpb: Vec::new(),
            output: VecDeque::new(),
            cur: None,
            prev_tid0_poc: 0,
            first_in_sequence: true,
            no_rasl_output_flag: true,
            skipping_picture: false,
            pending_pts: None,
            pending_hash: None,
            verify_sei: false,
            hash_checks: VecDeque::new(),
            sei_results: Vec::new(),
            stats: Stats::default(),
            headers_only: false,
            switches: FilterSwitches { skip_all: false, skip_sao: false },
        }
    }
}

impl Default for Decoder {
    fn default() -> (d: Self)
        ensures
            d.wf(),
            d.is_new(),
    {
        Self::new()
    }
}

} // verus!
