//! What the NAL units of a stream do to a decoder, and the order of its output.

use crate::decoder;
use crate::decoder::{CurrentPicture, Decoder, SliceTask};
use crate::error::Error;
use crate::frame::Frame;
use crate::nal::NalHeader;
use crate::ps::{Pps, Sps, TileLayout};
use crate::slice::SliceHeader;
use crate::stream;
use crate::stream::{NalBody, NalUnit};
use std::sync::Arc;
use vstd::prelude::*;

verus! {

/// A parameter set replaces the one with its number, and no other; one that does
/// not parse replaces none, and the error is handed on. Nothing else changes, except
/// that a time stamp is taken note of.
pub proof fn lemma_sets_stored(
    o: Decoder,
    n: Decoder,
    h: NalHeader,
    body: NalBody,
    pts: Option<i64>,
    r: core::result::Result<Option<SliceTask>, Error>,
    id: u8,
)
    requires
        o.wf(),
        stream::nal_pushed(o, n, (NalUnit { header: Some(h), body }), pts, r),
        h.layer_id == 0,
        id < 64,
    ensures
        h.nal_type.id == 34 ==> match body->Pps_0 {
            Ok(p) => {
                &&& r == Ok::<Option<SliceTask>, Error>(None)
                &&& id == p.id ==> n.pps_for(id) is Some && *n.pps_for(id).unwrap() == p
                &&& id != p.id ==> n.pps_for(id) == o.pps_for(id)
            },
            Err(e) => r == Err::<Option<SliceTask>, Error>(e) && n.pps_for(id) == o.pps_for(id),
        },
        h.nal_type.id == 33 ==> match body->Sps_0 {
            Ok(s) => {
                &&& r == Ok::<Option<SliceTask>, Error>(None)
                &&& n.pps_for(id) == o.pps_for(id)
                &&& o.pps_for(id) matches Some(p) ==> if p.sps_id == s.id {
                    n.sps_for(id) is Some && *n.sps_for(id).unwrap() == s
                } else {
                    n.sps_for(id) == o.sps_for(id)
                }
            },
            Err(e) => r == Err::<Option<SliceTask>, Error>(e) && n.sps_for(id) == o.sps_for(id),
        },
        32 <= h.nal_type.id <= 34 ==> n.in_flight() == o.in_flight() && n.control() == (
        decoder::Control {
            pending_pts: if pts is Some {
                pts
            } else {
                o.control().pending_pts
            },
            ..o.control()
        }),
{
    if h.nal_type.id == 33 || h.nal_type.id == 34 {
        let p = o.pps_for(id);
        assert(p matches Some(q) ==> q.wf());
    }
}

/// A picture hash counts only where hashes are compared. One that comes before a
/// picture waits for the next one, one that comes after the slices of a picture
/// belongs to it.
pub proof fn lemma_hash_attached(
    o: Decoder,
    n: Decoder,
    h: NalHeader,
    body: NalBody,
    pts: Option<i64>,
    r: core::result::Result<Option<SliceTask>, Error>,
)
    requires
        stream::nal_pushed(o, n, (NalUnit { header: Some(h), body }), pts, r),
        h.layer_id == 0,
        h.nal_type.id == 39 || h.nal_type.id == 40,
        body is Sei,
    ensures
        r == Ok::<Option<SliceTask>, Error>(None),
        !o.compares_hashes() || body->Sei_0 is None ==> n.waiting_hash() == o.waiting_hash()
            && n.in_flight() == o.in_flight(),
        o.compares_hashes() && body->Sei_0 is Some && h.nal_type.id == 39 ==> n.waiting_hash()
            == body->Sei_0 && n.in_flight() == o.in_flight(),
        o.compares_hashes() && body->Sei_0 is Some && h.nal_type.id == 40 ==> {
            &&& n.waiting_hash() == o.waiting_hash()
            &&& n.in_flight() is Some <==> o.in_flight() is Some
            &&& n.in_flight() matches Some(c) ==> c.expected_hash == body->Sei_0 && c.pic
                == o.in_flight().unwrap().pic && c.poc == o.in_flight().unwrap().poc
        },
{
}

/// Units of other layers, and those of types that are reserved or say nothing of
/// the samples, change nothing but the time stamp that waits.
pub proof fn lemma_ignored(
    o: Decoder,
    n: Decoder,
    h: NalHeader,
    body: NalBody,
    pts: Option<i64>,
    r: core::result::Result<Option<SliceTask>, Error>,
)
    requires
        stream::nal_pushed(o, n, (NalUnit { header: Some(h), body }), pts, r),
        h.layer_id != 0 || 22 <= h.nal_type.id <= 31 || h.nal_type.id == 35 || h.nal_type.id == 38
            || h.nal_type.id >= 41,
    ensures
        r == Ok::<Option<SliceTask>, Error>(None),
        n.in_flight() == o.in_flight(),
        n.same_sets(o),
        n.entries() == o.entries(),
        n.queued() == o.queued(),
        n.waiting_hash() == o.waiting_hash(),
        n.control().pending_pts == if pts is Some {
            pts
        } else {
            o.control().pending_pts
        },
{
}

/// A new picture takes what waits for it, the time stamp and the hash; its header
/// says whether it is output, and its count is the decoded one. It has no slice yet.
pub proof fn lemma_new_picture(
    c: CurrentPicture,
    o: Decoder,
    h: NalHeader,
    sh: SliceHeader,
    sps: Arc<Sps>,
    pps: Arc<Pps>,
    tiles: TileLayout,
)
    requires
        decoder::is_new_picture(c, o, h, sh, sps, pps, tiles),
    ensures
        c.pts == o.control().pending_pts,
        c.expected_hash == o.waiting_hash(),
        c.output_flag == sh.pic_output_flag,
        c.poc == decoder::poc_of(o.control(), h.nal_type, sh, *sps),
        c.nal_type == h.nal_type,
        c.temporal_id == h.temporal_id,
        *c.sps == *sps,
        *c.pps == *pps,
        c.ref_lists@.len() == 0,
        c.headers@.len() == 0,
        c.slice_segments == 0,
        !c.errored,
        c.pic@.y.width == sps.width,
        c.pic@.y.height == sps.height,
        c.pic@.bit_depth_luma == sps.bit_depth_luma,
        c.pic@.bit_depth_chroma == sps.bit_depth_chroma,
{
}

/// Frames are written one after the other.
pub proof fn lemma_frames_in_order(a: Seq<Frame>, b: Seq<Frame>, f: Frame)
    ensures
        stream::frames_bytes(a + b) == stream::frames_bytes(a) + stream::frames_bytes(b),
        stream::frames_bytes(seq![f]) == f.picture.yuv_bytes(),
    decreases a.len(),
{
    assert(seq![f].drop_first() =~= Seq::<Frame>::empty());
    assert(stream::frames_bytes(Seq::<Frame>::empty()) =~= Seq::<u8>::empty());
    assert(stream::frames_bytes(seq![f]) =~= f.picture.yuv_bytes());
    if a.len() == 0 {
        assert(a + b =~= b);
        assert(stream::frames_bytes(a) + stream::frames_bytes(b) =~= stream::frames_bytes(b));
    } else {
        assert((a + b).drop_first() =~= a.drop_first() + b);
        assert((a + b).first() == a.first());
        lemma_frames_in_order(a.drop_first(), b, f);
        assert(stream::frames_bytes(a + b) =~= stream::frames_bytes(a) + stream::frames_bytes(b));
    }
}

/// Frames are taken in the order in which they were queued, each once; with none
/// left, more input is asked for.
pub proof fn lemma_frames_taken(
    o: Seq<Frame>,
    n: Seq<Frame>,
    r: core::result::Result<Frame, Error>,
)
    requires
        stream::frame_taken(o, n, r),
    ensures
        o.len() > 0 <==> r is Ok,
        r matches Ok(f) ==> o == seq![f] + n,
        r matches Err(e) ==> e is Again && n.len() == 0,
{
    if r is Ok {
        assert(o =~= seq![r->Ok_0] + n);
    }
}

} // verus!
