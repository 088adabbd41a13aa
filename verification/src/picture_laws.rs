//! What happens to pictures: which streams are decoded, which pictures are
//! started or skipped, what a start does to the pictures before, and what is kept
//! of a finished picture.

use crate::arith;
use crate::decoder;
use crate::decoder::{Control, CurrentPicture, RefLists};
use crate::dpb;
use crate::dpb::{Buffered, RefMark, Slot};
use crate::frame::PictureView;
use crate::nal::NalType;
use crate::pic::PicState;
use crate::ps::{Pps, Sps};
use crate::slice::SliceHeader;
use vstd::prelude::*;

verus! {

// ---- scope ----

/// A stream is decoded if and only if it is of one of the three Main profiles or
/// names none, 4:2:0 with at most 10 bits, uses no extension, and is no larger than
/// its limits allow in either direction and in all. The only complaint that finds a
/// stream invalid is that of parameter sets that do not belong together.
pub proof fn lemma_scope(sps: Sps, pps: Pps)
    ensures
        ({
            let c = decoder::scope_complaint(sps, pps);
            let extended = sps.range_extension || sps.multilayer_extension || sps.ext_3d
                || sps.scc_extension || pps.range_extension || pps.multilayer_extension || pps.ext_3d
                || pps.scc_extension;
            &&& c is None <==> {
                &&& sps.profile <= 3
                &&& sps.chroma_format_idc == 1
                &&& sps.bit_depth_luma <= 10
                &&& sps.bit_depth_chroma <= 10
                &&& !extended
                &&& pps.sps_id == sps.id
                &&& sps.width <= 16888
                &&& sps.height <= 16888
                &&& sps.width * sps.height <= 35_651_584
            }
            &&& c matches Some(c) ==> (c.unsupported || pps.sps_id != sps.id)
        }),
{
}

// ---- kinds of pictures ----

/// The kinds of pictures by the number of their NAL unit type (Table 7-1).
pub proof fn lemma_kinds(nt: NalType)
    ensures
        nt.radl() <==> nt.id == 6 || nt.id == 7,
        nt.rasl() <==> nt.id == 8 || nt.id == 9,
        nt.bla() <==> nt.id == 16 || nt.id == 17 || nt.id == 18,
        nt.idr() <==> nt.id == 19 || nt.id == 20,
        nt.cra() <==> nt.id == 21,
        nt.irap() <==> nt.bla() || nt.idr() || nt.cra() || nt.id == 22 || nt.id == 23,
        nt.sub_layer_non_ref() <==> nt.id < 16 && nt.id % 2 == 0,
{
}

// ---- starting a picture ----

/// A first slice segment starts its picture if and only if its parameter sets are
/// there and in scope, it can be decoded from where the stream stands, its sequence
/// parameters are those of the sequence or it starts one, and its tiles are valid.
/// A picture that cannot be decoded is skipped: one before any random access point,
/// and a RASL picture that refers past one that starts the sequence. Only a picture
/// that is started touches the buffer, the count and the state of the sequence. A
/// time stamp is used up in any case.
pub proof fn lemma_start(
    k: Control,
    nt: NalType,
    temporal_id: u8,
    sh: SliceHeader,
    pps: Option<Pps>,
    sps: Option<Sps>,
    tiles_ok: bool,
)
    ensures
        ({
            let (n, out) = decoder::start(k, nt, temporal_id, sh, pps, sps, tiles_ok);
            let sets = pps is Some && sps is Some;
            let access = 16 <= nt.id <= 23;
            let fresh = access && (nt.id <= 20 || k.first_in_sequence);
            let lost = !access && (k.first_in_sequence || (nt.id == 8 || nt.id == 9)
                && k.no_rasl_output_flag);
            let rasl_lost = (nt.id == 8 || nt.id == 9) && k.no_rasl_output_flag;
            &&& out is Skipped <==> sets && lost
            &&& out is Started <==> {
                &&& sets
                &&& !lost
                &&& decoder::scope_complaint(sps.unwrap(), pps.unwrap()) is None
                &&& fresh || k.active_sps_id == Some(sps.unwrap().id)
                &&& tiles_ok
            }
            &&& n.pending_pts is None
            &&& out !is Started ==> n.buf == k.buf && n.prev_tid0_poc == k.prev_tid0_poc
                && n.first_in_sequence == k.first_in_sequence
            &&& out is Started ==> !n.first_in_sequence && n.active_sps_id == Some(sps.unwrap().id)
            &&& out is Skipped ==> n.skipping_picture && n.stats.skipped_rasl == if rasl_lost {
                (k.stats.skipped_rasl + 1) as u64
            } else {
                k.stats.skipped_rasl
            }
            &&& sets && access ==> n.no_rasl_output_flag == fresh
            &&& !access ==> n.no_rasl_output_flag == k.no_rasl_output_flag
        }),
{
}

/// The count that later pictures are counted from is that of the last picture of
/// the lowest temporal layer that others may refer to and that does not lead a
/// random access point.
pub proof fn lemma_count_carried(k: Control, nt: NalType, temporal_id: u8, sh: SliceHeader, sps: Sps)
    ensures
        ({
            let n = decoder::started(k, nt, temporal_id, sh, sps);
            let leading = 6 <= nt.id <= 9;
            let unused = nt.id < 16 && nt.id % 2 == 0;
            n.prev_tid0_poc == if temporal_id == 0 && !leading && !unused {
                decoder::poc_of(k, nt, sh, sps)
            } else {
                k.prev_tid0_poc
            }
        }),
{
}

/// A picture that starts a sequence other than the first empties the buffer. The
/// pictures that wait are dropped if it is a CRA picture or says so, and are all
/// output else.
pub proof fn lemma_sequence_start_empties(
    k: Control,
    nt: NalType,
    temporal_id: u8,
    sh: SliceHeader,
    sps: Sps,
)
    requires
        decoder::starts_sequence(k, nt),
        k.stats.pictures > 0,
    ensures
        ({
            let n = decoder::started(k, nt, temporal_id, sh, sps);
            &&& n.buf.d.len() == 0
            &&& if nt.id == 21 || sh.no_output_of_prior_pics {
                n.buf.out == k.buf.out
            } else {
                dpb::pending(n.buf) == dpb::pending(k.buf)
            }
        }),
{
    reveal(decoder::cleared);
    if !(nt.id == 21 || sh.no_output_of_prior_pics) {
        decoder::lemma_start_loses_none(k, nt, temporal_id, sh, sps);
    }
}

/// An IDR picture ends the use of every picture for reference, and misses none.
pub proof fn lemma_idr_needs_none(
    d: Seq<Slot>,
    nt: NalType,
    sh: SliceHeader,
    sps: Sps,
    poc: int,
    i: int,
)
    requires
        nt.id == 19 || nt.id == 20,
        0 <= i < d.len(),
    ensures
        ({
            let r = decoder::referenced(d, nt, sh, sps, poc);
            &&& r.len() == d.len()
            &&& r[i].mark == RefMark::Unused
            &&& r[i] == (Slot { mark: RefMark::Unused, ..d[i] })
            &&& decoder::lost_refs(d, nt, sh, sps, poc).len() == 0
        }),
{
    reveal(decoder::referenced);
    reveal(decoder::lost_refs);
}

/// The scaling lists of a picture are its own, else those of its sequence, and
/// none where scaling lists are not enabled.
pub proof fn lemma_scaling(sps: Sps, pps: Pps)
    ensures
        !sps.scaling_list_enabled ==> decoder::scaling_of(sps, pps) is None,
        sps.scaling_list_enabled && pps.scaling_list is Some ==> decoder::scaling_of(sps, pps)
            == pps.scaling_list,
        sps.scaling_list_enabled && pps.scaling_list is None ==> decoder::scaling_of(sps, pps)
            == sps.scaling_list,
{
}

/// The display window and the four margins make up the picture: left and right of
/// it, and above and below it, the margins are counted in chroma samples.
pub proof fn lemma_window(sps: Sps)
    ensures
        ({
            let (x, y, w, h) = sps.window();
            let (left, right, top, bottom) = (
                sps.conf_win@[0] as int,
                sps.conf_win@[1] as int,
                sps.conf_win@[2] as int,
                sps.conf_win@[3] as int,
            );
            &&& x == left * sps.sub_width_c
            &&& y == top * sps.sub_height_c
            &&& x + w + right * sps.sub_width_c == sps.width
            &&& y + h + bottom * sps.sub_height_c == sps.height
        }),
{
    let (a, b) = (sps.sub_width_c as int, sps.sub_height_c as int);
    let (left, right, top, bottom) = (
        sps.conf_win@[0] as int,
        sps.conf_win@[1] as int,
        sps.conf_win@[2] as int,
        sps.conf_win@[3] as int,
    );
    assert(a * left == left * a && b * top == top * b) by (nonlinear_arith);
    assert(a * (left + right) == left * a + right * a) by (nonlinear_arith);
    assert(b * (top + bottom) == top * b + bottom * b) by (nonlinear_arith);
}

// ---- slices ----

/// A slice brings its own lists. An independent slice segment is the one that those
/// after it depend on, and its address is the slice's; a dependent one keeps both.
pub proof fn lemma_slice_joins(
    n: CurrentPicture,
    c: CurrentPicture,
    sh: SliceHeader,
    lists: RefLists,
    headers_only: bool,
)
    requires
        decoder::with_slice(n, c, sh, lists, headers_only),
    ensures
        n.ref_lists@.len() == c.ref_lists@.len() + 1,
        n.ref_lists@.last() == lists,
        n.slice_segments == c.slice_segments + 1,
        sh.dependent_slice_segment ==> n.slice_addr_rs == c.slice_addr_rs && n.last_indep_header
            == c.last_indep_header,
        !sh.dependent_slice_segment ==> n.slice_addr_rs == sh.segment_address
            && n.last_indep_header is Some && *n.last_indep_header.unwrap() == sh,
        n.poc == c.poc && n.pts == c.pts && n.output_flag == c.output_flag,
{
}

// ---- finishing a picture ----

/// A finished picture is a short-term reference, waits for output if it is for
/// output, and has not waited for any picture yet. Those that wait have waited for
/// one more.
pub proof fn lemma_finished(c: CurrentPicture, pic: PictureView, d: Seq<Slot>, i: int)
    requires
        0 <= i < d.len(),
    ensures
        ({
            let s = decoder::finished_slot(c, pic);
            &&& s.pic == pic
            &&& s.poc == c.poc
            &&& s.pts == c.pts
            &&& s.mark == RefMark::ShortTerm
            &&& s.waiting == c.output_flag
            &&& s.latency == 0
        }),
        ({
            let a = decoder::aged(d);
            &&& a.len() == d.len()
            &&& d[i].waiting ==> a[i] == (Slot { latency: d[i].latency + 1, ..d[i] })
            &&& !d[i].waiting ==> a[i] == d[i]
        }),
{
}

/// What is kept of the motion of a picture is that of the upper left corner of
/// every block of 16×16 samples.
pub proof fn lemma_motion_kept(st: PicState, i: int, j: int)
    requires
        st.wf(),
        0 <= 16 * i < st.width,
        0 <= 16 * j < st.height,
    ensures
        ({
            let w16 = (st.width + 15) / 16;
            let m = decoder::motion_per_16(st);
            &&& j * w16 + i < m.len()
            &&& m[j * w16 + i] == st.motion@[(4 * j) * st.w4 + 4 * i]
        }),
{
    let w16 = arith::ceil_div(st.width as int, 16);
    let h16 = arith::ceil_div(st.height as int, 16);
    arith::lemma_flat_bound(i, j, w16, h16);
    vstd::arithmetic::mul::lemma_mul_is_commutative(j, w16);
    vstd::arithmetic::div_mod::lemma_fundamental_div_mod_converse(j * w16 + i, w16, j, i);
}

/// Slot `i` holds the picture to be output next: of those that wait, the one with the
/// smallest count, and the first of them if several have it.
pub open spec fn is_next(d: Seq<Slot>, i: int) -> bool {
    &&& 0 <= i < d.len()
    &&& d[i].waiting
    &&& forall|j: int|
        #![trigger d[j]]
        0 <= j < d.len() && d[j].waiting ==> d[i].poc < d[j].poc || d[i].poc == d[j].poc && i <= j
}

/// Output takes the next picture, if one waits: its frame, in the size of its crop
/// rectangle, is the last of the queue, and it leaves the buffer unless it is still a
/// reference.
pub proof fn lemma_output(b: Buffered, i: int)
    requires
        is_next(b.d, i),
    ensures
        ({
            let n = dpb::bumped(b);
            let (_, _, w, h) = b.d[i].pic.crop;
            &&& n.out.len() == b.out.len() + 1
            &&& n.out.drop_last() == b.out
            &&& n.out.last().pic == b.d[i].pic
            &&& n.out.last().poc == b.d[i].poc
            &&& n.out.last().pts == b.d[i].pts
            &&& n.out.last().width == w
            &&& n.out.last().height == h
            &&& b.d[i].mark == RefMark::Unused ==> n.d == b.d.remove(i)
            &&& b.d[i].mark != RefMark::Unused ==> n.d == b.d.update(
                i,
                (Slot { waiting: false, ..b.d[i] }),
            )
        }),
{
    let l = dpb::lowest(b.d);
    dpb::lemma_lowest(b.d);
    assert(b.d[i].waiting);
    assert(b.d[l].waiting);
    assert(i == l);
    assert(dpb::bumped(b).out.drop_last() =~= b.out);
}

} // verus!
