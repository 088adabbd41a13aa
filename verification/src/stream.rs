//! The stream side of the decoder: NAL dispatch, chunks of NAL units, output.
//!
//! A NAL unit comes in with its parsed contents. A slice that is to be decoded
//! goes out as a task, and what became of it is reported back.

use std::sync::Arc;

use crate::decoder;
use crate::decoder::{
    CurrentPicture, Decoder, HashCheck, PictureHash, SliceTask, SliceUnit, Stats,
};
use crate::dpb;
use crate::dpb::{Buffered, DpbEntry};
use crate::error::Error;
use crate::frame::Frame;
use crate::nal::{
    NalHeader, NalType, NAL_EOB, NAL_EOS, NAL_PPS, NAL_PREFIX_SEI, NAL_SPS, NAL_SUFFIX_SEI, NAL_VPS,
};
use crate::ps::{Pps, Sps, TileLayout, Vps};
use crate::slice::SliceHeader;
use vstd::prelude::*;

verus! {

// ---- NAL units ----

/// The parsed contents of a NAL unit.
#[derive(Debug)]
pub enum NalBody {
    Vps(core::result::Result<Vps, Error>),
    Sps(core::result::Result<Sps, Error>),
    Pps(core::result::Result<Pps, Error>),
    /// A decoded picture hash, if the SEI message holds one.
    Sei(Option<PictureHash>),
    Slice(SliceUnit),
    /// Contents that decoding does not use.
    Other,
}

/// A NAL unit: its header, if it has a valid one, and its contents.
#[derive(Debug)]
pub struct NalUnit {
    pub header: Option<NalHeader>,
    pub body: NalBody,
}

/// A slice type that is not reserved.
pub open spec fn is_slice(nt: NalType) -> bool {
    nt.id < 22
}

/// A slice segment of the base layer.
pub open spec fn base_segment(u: NalUnit) -> bool {
    u.header matches Some(h) && h.layer_id == 0 && is_slice(h.nal_type) && u.body is Slice
}

/// The first slice segment of a picture of the base layer.
pub open spec fn first_segment(u: NalUnit) -> bool {
    base_segment(u) && u.body->Slice_0.first
}

impl Decoder {
    /// A NAL unit that was parsed in the decoder's current state: its contents
    /// are those of its type, and in the ranges that its syntax gives.
    pub open(crate) spec fn nal_ok(self, u: NalUnit) -> bool {
        u.header matches Some(h) ==> h.layer_id == 0 ==> self.body_ok(h, u.body)
    }

    pub open(crate) spec fn body_ok(self, h: NalHeader, body: NalBody) -> bool {
        let id = h.nal_type.id;
        &&& id == NAL_VPS ==> (body matches NalBody::Vps(r) && (r matches Ok(v) ==> v.id < 16))
        &&& id == NAL_SPS ==> (body matches NalBody::Sps(r) && (r matches Ok(s) ==> s.wf()))
        &&& id == NAL_PPS ==> (body matches NalBody::Pps(r) && (r matches Ok(p) ==> p.wf()))
        &&& id == NAL_PREFIX_SEI || id == NAL_SUFFIX_SEI ==> body is Sei
        &&& is_slice(h.nal_type) ==> (body matches NalBody::Slice(su) && self.unit_ok(h.nal_type, su))
    }
}

/// A table with one entry set.
pub open spec fn table_set<T>(n: Seq<Option<Arc<T>>>, o: Seq<Option<Arc<T>>>, id: int, v: T) -> bool {
    &&& n.len() == o.len()
    &&& forall|i: int| #![trigger n[i]] 0 <= i < n.len() && i != id ==> n[i] == o[i]
    &&& n[id] matches Some(a) && *a == v
}

/// What the end of a sequence does. The buffer keeps its pictures until the
/// next IRAP picture decides their fate.
pub open(crate) spec fn sequence_ended(o: Decoder, n: Decoder) -> bool {
    exists|m: Decoder|
        #![trigger decoder::picture_finished(o, m)]
        decoder::picture_finished(o, m) && n == (Decoder { first_in_sequence: true, ..m })
}

/// What a base-layer NAL unit does.
pub open(crate) spec fn base_nal_pushed(
    o: Decoder,
    n: Decoder,
    hdr: NalHeader,
    body: NalBody,
    r: core::result::Result<Option<SliceTask>, Error>,
) -> bool {
    let id = hdr.nal_type.id;
    let nothing = r == Ok::<Option<SliceTask>, Error>(None);
    if id == NAL_VPS {
        match body->Vps_0 {
            Ok(v) => {
                &&& nothing
                &&& n == (Decoder { vps: n.vps, ..o })
                &&& table_set(n.vps@, o.vps@, v.id as int, v)
            },
            Err(e) => r == Err::<Option<SliceTask>, Error>(e) && n == o,
        }
    } else if id == NAL_SPS {
        match body->Sps_0 {
            Ok(v) => {
                &&& nothing
                &&& n == (Decoder { sps: n.sps, ..o })
                &&& table_set(n.sps@, o.sps@, v.id as int, v)
            },
            Err(e) => r == Err::<Option<SliceTask>, Error>(e) && n == o,
        }
    } else if id == NAL_PPS {
        match body->Pps_0 {
            Ok(v) => {
                &&& nothing
                &&& n == (Decoder { pps: n.pps, ..o })
                &&& table_set(n.pps@, o.pps@, v.id as int, v)
            },
            Err(e) => r == Err::<Option<SliceTask>, Error>(e) && n == o,
        }
    } else if id == NAL_EOS || id == NAL_EOB {
        nothing && sequence_ended(o, n)
    } else if id == NAL_PREFIX_SEI || id == NAL_SUFFIX_SEI {
        nothing && match body->Sei_0 {
            Some(h) => if !o.verify_sei {
                n == o
            } else if id == NAL_PREFIX_SEI {
                n == (Decoder { pending_hash: Some(h), ..o })
            } else if o.cur is Some {
                n == (Decoder {
                    cur: Some(CurrentPicture { expected_hash: Some(h), ..o.cur.unwrap() }),
                    ..o
                })
            } else {
                n == o
            },
            None => n == o,
        }
    } else if is_slice(hdr.nal_type) {
        decoder::slice_pushed(o, n, hdr, body->Slice_0, r)
    } else {
        nothing && n == o
    }
}

/// What a NAL unit does. Enhancement layers are ignored.
pub open(crate) spec fn nal_pushed(
    o: Decoder,
    n: Decoder,
    u: NalUnit,
    pts: Option<i64>,
    r: core::result::Result<Option<SliceTask>, Error>,
) -> bool {
    match u.header {
        None => r matches Err(e) && e.says_invalid("bad NAL header"@) && n == o,
        Some(hdr) => {
            let o1 = Decoder {
                pending_pts: if pts is Some {
                    pts
                } else {
                    o.pending_pts
                },
                ..o
            };
            if hdr.layer_id != 0 {
                r == Ok::<Option<SliceTask>, Error>(None) && n == o1
            } else {
                base_nal_pushed(o1, n, hdr, u.body, r)
            }
        },
    }
}

/// What the report on a slice task does: a failure marks the picture in flight.
pub open(crate) spec fn slice_finished(o: Decoder, r: core::result::Result<(), Error>) -> Decoder {
    if r is Err && o.cur is Some {
        Decoder { cur: Some(CurrentPicture { errored: true, ..o.cur.unwrap() }), ..o }
    } else {
        o
    }
}

impl Decoder {
    fn store_vps(&mut self, v: Vps)
        requires
            old(self).wf(),
            v.id < 16,
        ensures
            final(self).wf(),
            *final(self) == (Decoder { vps: final(self).vps, ..*old(self) }),
            table_set(final(self).vps@, old(self).vps@, v.id as int, v),
    {
        let at = v.id as usize;
        self.vps[at] = Some(Arc::new(v));
    }

    fn store_sps(&mut self, v: Sps)
        requires
            old(self).wf(),
            v.wf(),
        ensures
            final(self).wf(),
            *final(self) == (Decoder { sps: final(self).sps, ..*old(self) }),
            table_set(final(self).sps@, old(self).sps@, v.id as int, v),
    {
        let at = v.id as usize;
        self.sps[at] = Some(Arc::new(v));
    }

    fn store_pps(&mut self, v: Pps)
        requires
            old(self).wf(),
            v.wf(),
        ensures
            final(self).wf(),
            *final(self) == (Decoder { pps: final(self).pps, ..*old(self) }),
            table_set(final(self).pps@, old(self).pps@, v.id as int, v),
    {
        let at = v.id as usize;
        self.pps[at] = Some(Arc::new(v));
    }

    /// The end of a sequence or of the stream.
    fn end_sequence(&mut self)
        requires
            old(self).wf(),
            old(self).has_room(),
        ensures
            final(self).wf(),
            sequence_ended(*old(self), *final(self)),
    {
        let ghost o = *self;
        self.finish_picture();
        let ghost m = *self;
        assert(decoder::picture_finished(o, m));
        self.first_in_sequence = true;
    }

    /// Feeds one NAL unit of the base layer.
    fn push_base_nal(&mut self, hdr: &NalHeader, body: NalBody) -> (r: core::result::Result<
        Option<SliceTask>,
        Error,
    >)
        requires
            old(self).wf(),
            old(self).has_room(),
            old(self).body_ok(*hdr, body),
        ensures
            final(self).wf(),
            base_nal_pushed(*old(self), *final(self), *hdr, body, r),
    {
        let id = hdr.nal_type.id;
        if id == NAL_EOS || id == NAL_EOB {
            self.end_sequence();
            return Ok(None);
        }
        match body {
            NalBody::Vps(Ok(v)) => {
                if id == NAL_VPS {
                    self.store_vps(v);
                }
                Ok(None)
            },
            NalBody::Sps(Ok(v)) => {
                if id == NAL_SPS {
                    self.store_sps(v);
                }
                Ok(None)
            },
            NalBody::Pps(Ok(v)) => {
                if id == NAL_PPS {
                    self.store_pps(v);
                }
                Ok(None)
            },
            NalBody::Vps(Err(e)) => {
                if id == NAL_VPS {
                    Err(e)
                } else {
                    Ok(None)
                }
            },
            NalBody::Sps(Err(e)) => {
                if id == NAL_SPS {
                    Err(e)
                } else {
                    Ok(None)
                }
            },
            NalBody::Pps(Err(e)) => {
                if id == NAL_PPS {
                    Err(e)
                } else {
                    Ok(None)
                }
            },
            NalBody::Sei(h) => {
                if id == NAL_PREFIX_SEI || id == NAL_SUFFIX_SEI {
                    self.attach_hash(h, id == NAL_SUFFIX_SEI);
                }
                Ok(None)
            },
            NalBody::Slice(su) => {
                if id < 22 {
                    self.push_slice(hdr, su)
                } else {
                    Ok(None)
                }
            },
            NalBody::Other => Ok(None),
        }
    }

    /// Feeds one NAL unit. A slice that is to be decoded comes back as a task;
    /// what became of it is reported to [`Decoder::finish_slice`].
    pub fn push_nal(&mut self, unit: NalUnit, pts: Option<i64>) -> (r: core::result::Result<
        Option<SliceTask>,
        Error,
    >)
        requires
            old(self).wf(),
            old(self).has_room(),
            old(self).nal_ok(unit),
        ensures
            final(self).wf(),
            nal_pushed(*old(self), *final(self), unit, pts, r),
    {
        let hdr = match unit.header {
            Some(h) => h,
            None => {
                return Err(Error::invalid("bad NAL header"));
            },
        };
        if pts.is_some() {
            self.pending_pts = pts;
        }
        if hdr.layer_id != 0 {
            return Ok(None);
        }
        assert(self.wf()) by {
            assert(self.control().buf == old(self).control().buf);
        }
        self.push_base_nal(&hdr, unit.body)
    }

    /// Attaches a picture hash: that of a suffix SEI to the picture in flight, if
    /// there is one, that of a prefix SEI to the next picture.
    fn attach_hash(&mut self, h: Option<PictureHash>, suffix: bool)
        requires
            old(self).wf(),
        ensures
            final(self).wf(),
            match h {
                Some(h) => if !old(self).verify_sei {
                    *final(self) == *old(self)
                } else if !suffix {
                    *final(self) == (Decoder { pending_hash: Some(h), ..*old(self) })
                } else if old(self).cur is Some {
                    *final(self) == (Decoder {
                        cur: Some(
                            CurrentPicture { expected_hash: Some(h), ..old(self).cur.unwrap() },
                        ),
                        ..*old(self)
                    })
                } else {
                    *final(self) == *old(self)
                },
                None => *final(self) == *old(self),
            },
    {
        proof {
            reveal(CurrentPicture::wf);
        }
        if !self.verify_sei {
            return ;
        }
        match h {
            None => {},
            Some(h) => {
                if suffix {
                    match self.cur.as_mut() {
                        Some(c) => {
                            c.expected_hash = Some(h);
                        },
                        None => {},
                    }
                } else {
                    self.pending_hash = Some(h);
                }
            },
        }
    }

    /// Reports what became of a slice task.
    pub fn finish_slice(&mut self, result: core::result::Result<(), Error>) -> (r:
        core::result::Result<(), Error>)
        requires
            old(self).wf(),
        ensures
            final(self).wf(),
            r == result,
            *final(self) == slice_finished(*old(self), result),
    {
        proof {
            reveal(CurrentPicture::wf);
        }
        if result.is_err() {
            match self.cur.as_mut() {
                Some(c) => {
                    c.errored = true;
                },
                None => {},
            }
        }
        result
    }
}

// ---- sequences ----

/// The end of a sequence or of the stream, with no picture in flight, outputs
/// and drops nothing: only the next picture is affected.
pub proof fn lemma_sequence_end_keeps(
    o: Decoder,
    n: Decoder,
    u: NalUnit,
    pts: Option<i64>,
    r: core::result::Result<Option<SliceTask>, Error>,
)
    requires
        nal_pushed(o, n, u, pts, r),
        u.header matches Some(h) && h.layer_id == 0 && (h.nal_type.id == NAL_EOS || h.nal_type.id
            == NAL_EOB),
        o.in_flight() is None,
    ensures
        r == Ok::<Option<SliceTask>, Error>(None),
        n.in_flight() is None,
        n.control() == (decoder::Control {
            first_in_sequence: true,
            pending_pts: if pts is Some {
                pts
            } else {
                o.control().pending_pts
            },
            ..o.control()
        }),
        n.same_sets(o),
        n.same_options(o),
        n.unchecked() == o.unchecked(),
        n.checked() == o.checked(),
        n.waiting_hash() == o.waiting_hash(),
{
    let o1 = Decoder {
        pending_pts: if pts is Some {
            pts
        } else {
            o.pending_pts
        },
        ..o
    };
    let m = choose|m: Decoder|
        #![trigger decoder::picture_finished(o1, m)]
        decoder::picture_finished(o1, m) && n == (Decoder { first_in_sequence: true, ..m });
    assert(m.control() == o1.control());
    assert(n.control() == (decoder::Control { first_in_sequence: true, ..m.control() }));
}

/// Before the first picture and after the end of a sequence, the next IRAP
/// picture, a CRA picture included, starts a sequence: its count is what its
/// header codes, and the RASL pictures after it are skipped. Pictures before it
/// are skipped.
pub proof fn lemma_sequence_starts_at_irap(
    k: decoder::Control,
    nt: NalType,
    temporal_id: u8,
    sh: SliceHeader,
    pps: Pps,
    sps: Sps,
    tiles_ok: bool,
    rasl: NalType,
)
    requires
        k.first_in_sequence,
        rasl.rasl(),
    ensures
        ({
            let (n, out) = decoder::start(
                k,
                nt,
                temporal_id,
                sh,
                Some(pps),
                Some(sps),
                tiles_ok,
            );
            if nt.irap() {
                &&& decoder::starts_sequence(k, nt)
                &&& decoder::poc_of(k, nt, sh, sps) == sh.poc_lsb
                &&& !(out is Skipped)
                &&& n.no_rasl_output_flag
                &&& out is Started ==> !n.first_in_sequence
                &&& decoder::skips(n, rasl)
            } else {
                &&& out is Skipped
                &&& n.first_in_sequence
                &&& n.buf == k.buf
            }
        }),
{
    let (n, out) = decoder::start(k, nt, temporal_id, sh, Some(pps), Some(sps), tiles_ok);
    if nt.irap() {
        assert(decoder::poc_of(k, nt, sh, sps) == sh.poc_lsb) by {
            reveal(crate::rps::poc_value);
        }
        assert(!(out is Skipped));
    }
}

/// Whether RASL pictures are skipped is decided by IRAP pictures alone: any
/// other NAL unit keeps it as it is.
pub proof fn lemma_rasl_flag_kept(
    o: Decoder,
    n: Decoder,
    u: NalUnit,
    pts: Option<i64>,
    r: core::result::Result<Option<SliceTask>, Error>,
)
    requires
        nal_pushed(o, n, u, pts, r),
        !(first_segment(u) && u.header.unwrap().nal_type.irap()),
        u.header matches Some(h) && h.layer_id == 0 && is_slice(h.nal_type) ==> u.body is Slice,
    ensures
        n.control().no_rasl_output_flag == o.control().no_rasl_output_flag,
{
    if u.header is Some && u.header.unwrap().layer_id == 0 {
        let hdr = u.header.unwrap();
        let id = hdr.nal_type.id;
        let o1 = Decoder {
            pending_pts: if pts is Some {
                pts
            } else {
                o.pending_pts
            },
            ..o
        };
        if id == NAL_EOS || id == NAL_EOB {
            let m = choose|m: Decoder|
                #![trigger decoder::picture_finished(o1, m)]
                decoder::picture_finished(o1, m) && n == (Decoder { first_in_sequence: true, ..m });
            assert(m.control().no_rasl_output_flag == o.no_rasl_output_flag);
        } else if is_slice(hdr.nal_type) {
            let unit = u.body->Slice_0;
            if unit.first {
                let m = choose|m: Decoder|
                    #![trigger decoder::picture_finished(o1, m)]
                    decoder::picture_finished(o1, m) && decoder::first_slice(
                        (Decoder { skipping_picture: false, ..m }),
                        n,
                        hdr,
                        unit,
                        r,
                    );
                let m1 = Decoder { skipping_picture: false, ..m };
                assert(m.control().no_rasl_output_flag == o.no_rasl_output_flag);
                if unit.header is Ok {
                    let sh = unit.header->Ok_0;
                    let (s, q) = choose|s: Decoder, q: core::result::Result<(), Error>|
                        #![trigger decoder::picture_started(m1, s, hdr, sh, unit.tiles, q)]
                        {
                            &&& decoder::picture_started(m1, s, hdr, sh, unit.tiles, q)
                            &&& s.same_sets(m1)
                            &&& s.same_options(m1)
                            &&& s.hash_checks == m1.hash_checks
                            &&& s.sei_results == m1.sei_results
                            &&& match q {
                                Err(e) => r == Err::<Option<SliceTask>, Error>(e) && n == s,
                                Ok(_) => if s.skipping_picture {
                                    r == Ok::<Option<SliceTask>, Error>(None) && n == s
                                } else {
                                    decoder::slice_added(s, n, sh, r)
                                },
                            }
                        };
                    lemma_started_rasl_flag(m1, s, hdr, sh, unit.tiles, q);
                    lemma_added_rasl_flag(s, n, sh, r);
                }
            } else {
                let o2 = decoder::stamped(o1);
                if unit.header is Ok {
                    lemma_added_rasl_flag(o2, n, unit.header->Ok_0, r);
                }
            }
        }
    }
}

proof fn lemma_started_rasl_flag(
    o: Decoder,
    n: Decoder,
    hdr: NalHeader,
    sh: SliceHeader,
    tiles: core::result::Result<TileLayout, Error>,
    r: core::result::Result<(), Error>,
)
    requires
        decoder::picture_started(o, n, hdr, sh, tiles, r),
        !hdr.nal_type.irap(),
    ensures
        n.no_rasl_output_flag == o.no_rasl_output_flag,
{
    assert(n.control().no_rasl_output_flag == n.no_rasl_output_flag);
}

proof fn lemma_added_rasl_flag(
    o: Decoder,
    n: Decoder,
    sh: SliceHeader,
    r: core::result::Result<Option<SliceTask>, Error>,
)
    ensures
        decoder::slice_added(o, n, sh, r) ==> n.no_rasl_output_flag == o.no_rasl_output_flag,
{
}

// ---- time stamps ----

/// A slice segment takes the time stamp that came with it or before it, whatever
/// becomes of it: none is left for a later picture. A picture that its first
/// segment starts has that time stamp and no other.
pub proof fn lemma_stamp_stays_with_its_picture(
    o: Decoder,
    n: Decoder,
    u: NalUnit,
    pts: Option<i64>,
    r: core::result::Result<Option<SliceTask>, Error>,
)
    requires
        nal_pushed(o, n, u, pts, r),
        u.header matches Some(h) && h.layer_id == 0 && is_slice(h.nal_type),
        u.body is Slice,
    ensures
        n.control().pending_pts is None,
        u.body->Slice_0.first ==> match n.in_flight() {
            Some(c) => c.pts == (if pts is Some {
                pts
            } else {
                o.control().pending_pts
            }),
            None => true,
        },
{
    let hdr = u.header.unwrap();
    let unit = u.body->Slice_0;
    let o1 = Decoder {
        pending_pts: if pts is Some {
            pts
        } else {
            o.pending_pts
        },
        ..o
    };
    if unit.first {
        let m = choose|m: Decoder|
            #![trigger decoder::picture_finished(o1, m)]
            decoder::picture_finished(o1, m) && decoder::first_slice(
                (Decoder { skipping_picture: false, ..m }),
                n,
                hdr,
                unit,
                r,
            );
        let m1 = Decoder { skipping_picture: false, ..m };
        assert(m.control().pending_pts == o1.pending_pts);
        if unit.header is Ok {
            let sh = unit.header->Ok_0;
            let (s, q) = choose|s: Decoder, q: core::result::Result<(), Error>|
                #![trigger decoder::picture_started(m1, s, hdr, sh, unit.tiles, q)]
                {
                    &&& decoder::picture_started(m1, s, hdr, sh, unit.tiles, q)
                    &&& s.same_sets(m1)
                    &&& s.same_options(m1)
                    &&& s.hash_checks == m1.hash_checks
                    &&& s.sei_results == m1.sei_results
                    &&& match q {
                        Err(e) => r == Err::<Option<SliceTask>, Error>(e) && n == s,
                        Ok(_) => if s.skipping_picture {
                            r == Ok::<Option<SliceTask>, Error>(None) && n == s
                        } else {
                            decoder::slice_added(s, n, sh, r)
                        },
                    }
                };
            lemma_started_stamp(m1, s, hdr, sh, unit.tiles, q);
            if q is Ok && !s.skipping_picture {
                lemma_added_stamp(s, n, sh, r);
            }
        }
    } else {
        let o2 = decoder::stamped(o1);
        if !o2.skipping_picture && unit.header is Ok && o2.cur is Some {
            lemma_added_stamp(o2, n, unit.header->Ok_0, r);
        }
    }
}

proof fn lemma_started_stamp(
    o: Decoder,
    n: Decoder,
    hdr: NalHeader,
    sh: SliceHeader,
    tiles: core::result::Result<TileLayout, Error>,
    r: core::result::Result<(), Error>,
)
    requires
        decoder::picture_started(o, n, hdr, sh, tiles, r),
    ensures
        n.pending_pts is None,
        n.cur matches Some(c) ==> c.pts == o.pending_pts,
{
    assert(n.control().pending_pts is None);
}

proof fn lemma_added_stamp(
    o: Decoder,
    n: Decoder,
    sh: SliceHeader,
    r: core::result::Result<Option<SliceTask>, Error>,
)
    requires
        decoder::slice_added(o, n, sh, r),
    ensures
        n.pending_pts == o.pending_pts,
        n.cur is Some <==> o.cur is Some,
        n.cur matches Some(c) ==> c.pts == o.cur.unwrap().pts,
{
}

// ---- chunks ----

/// A chunk of NAL units that are fed one after the other, such as an access
/// unit: its time stamp, until a NAL unit took it, and its first error.
#[derive(Debug)]
pub struct Chunk {
    pub pts: Option<i64>,
    pub first_err: Option<Error>,
}

impl Chunk {
    pub fn new(pts: Option<i64>) -> (c: Self)
        ensures
            c.pts == pts,
            c.first_err is None,
    {
        Chunk { pts, first_err: None }
    }

    /// The result of the whole chunk: its first error, if there was one.
    pub fn finish(self) -> (r: core::result::Result<(), Error>)
        ensures
            r == (match self.first_err {
                Some(e) => Err(e),
                None => Ok(()),
            }),
    {
        match self.first_err {
            Some(e) => Err(e),
            None => Ok(()),
        }
    }
}

/// An error noted: counted, and kept if it is the chunk's first.
pub open(crate) spec fn noted(n: Decoder, c: Chunk, o: Decoder, b: Chunk, e: Error) -> bool {
    &&& n == (Decoder {
        stats: Stats { errors: (o.stats.errors + 1) as u64, ..o.stats },
        ..o
    })
    &&& c.pts == b.pts
    &&& c.first_err == Some(kept_error(b.first_err, e))
}

/// Of an earlier error and a new one, the one that is kept.
pub open spec fn kept_error(first: Option<Error>, e: Error) -> Error {
    match first {
        Some(f) => f,
        None => e,
    }
}

/// What feeding the next NAL unit of a chunk does; `t` is what the unit came to.
pub open(crate) spec fn unit_pushed(
    o: Decoder,
    b: Chunk,
    n: Decoder,
    c: Chunk,
    u: NalUnit,
    task: Option<SliceTask>,
    t: core::result::Result<Option<SliceTask>, Error>,
) -> bool {
    exists|m: Decoder|
        #![trigger nal_pushed(o, m, u, b.pts, t)]
        {
            &&& nal_pushed(o, m, u, b.pts, t)
            &&& c.pts is None
            &&& match t {
                Ok(x) => task == x && n == m && c.first_err == b.first_err,
                Err(e) => task is None && noted(
                    n,
                    c,
                    m,
                    (Chunk { pts: None, first_err: b.first_err }),
                    e,
                ),
            }
        }
}

/// What the report on a slice task of a chunk does.
pub open(crate) spec fn slice_noted(
    o: Decoder,
    b: Chunk,
    n: Decoder,
    c: Chunk,
    r: core::result::Result<(), Error>,
) -> bool {
    match r {
        Ok(_) => n == o && c == b,
        Err(e) => noted(n, c, slice_finished(o, r), b, e),
    }
}

impl Decoder {
    /// Counts an error and keeps the first of a chunk.
    fn note(&mut self, chunk: &mut Chunk, e: Error)
        requires
            old(self).wf(),
            old(self).stats.errors < u64::MAX,
        ensures
            final(self).wf(),
            noted(*final(self), *final(chunk), *old(self), *old(chunk), e),
    {
        self.stats.errors += 1;
        if chunk.first_err.is_none() {
            chunk.first_err = Some(e);
        }
    }

    /// Feeds the next NAL unit of a chunk. Only the first of them takes the
    /// chunk's time stamp, and an error does not stop the chunk.
    pub fn push_annexb(&mut self, chunk: &mut Chunk, unit: NalUnit) -> (task: Option<SliceTask>)
        requires
            old(self).wf(),
            old(self).has_room(),
            old(self).nal_ok(unit),
        ensures
            final(self).wf(),
            exists|t: core::result::Result<Option<SliceTask>, Error>|
                unit_pushed(
                    *old(self),
                    *old(chunk),
                    *final(self),
                    *final(chunk),
                    unit,
                    task,
                    t,
                ),
    {
        let ghost o = *self;
        let ghost c0 = *chunk;
        let pts = chunk.pts.take();
        let r = self.push_nal(unit, pts);
        let ghost m = *self;
        proof {
            assert(nal_pushed(o, m, unit, c0.pts, r));
            lemma_counts_kept(o, m, unit, c0.pts, r);
        }
        let task = match r {
            Ok(t) => t,
            Err(e) => {
                self.note(chunk, e);
                None
            },
        };
        assert(unit_pushed(o, c0, *self, *chunk, unit, task, r));
        task
    }

    /// Reports what became of a slice task of a chunk.
    pub fn finish_chunk_slice(
        &mut self,
        chunk: &mut Chunk,
        result: core::result::Result<(), Error>,
    )
        requires
            old(self).wf(),
            old(self).control().stats.errors < u64::MAX,
        ensures
            final(self).wf(),
            slice_noted(*old(self), *old(chunk), *final(self), *final(chunk), result),
    {
        match self.finish_slice(result) {
            Ok(_) => {},
            Err(e) => {
                self.note(chunk, e);
            },
        }
    }
}

/// The error count, the mismatches and the results are untouched, and every
/// picture that is newly counted as checked is queued for its comparison.
pub open(crate) spec fn counts_kept(o: Decoder, n: Decoder) -> bool {
    &&& n.stats.errors == o.stats.errors
    &&& n.stats.sei_mismatch == o.stats.sei_mismatch
    &&& n.sei_results == o.sei_results
    &&& n.stats.sei_checked - o.stats.sei_checked == n.hash_checks@.len() - o.hash_checks@.len()
}

/// A NAL unit keeps the counts.
proof fn lemma_counts_kept(
    o: Decoder,
    n: Decoder,
    u: NalUnit,
    pts: Option<i64>,
    r: core::result::Result<Option<SliceTask>, Error>,
)
    requires
        o.stats.sei_checked < u64::MAX,
        nal_pushed(o, n, u, pts, r),
    ensures
        counts_kept(o, n),
{
    if u.header is Some && u.header.unwrap().layer_id == 0 {
        let hdr = u.header.unwrap();
        let id = hdr.nal_type.id;
        let o1 = Decoder {
            pending_pts: if pts is Some {
                pts
            } else {
                o.pending_pts
            },
            ..o
        };
        if id == NAL_EOS || id == NAL_EOB {
            let m = choose|m: Decoder|
                #![trigger decoder::picture_finished(o1, m)]
                decoder::picture_finished(o1, m) && n == (Decoder { first_in_sequence: true, ..m });
            lemma_finished_counts(o1, m);
        } else if is_slice(hdr.nal_type) {
            lemma_slice_counts(o1, n, hdr, u.body->Slice_0, r);
        }
    }
}

proof fn lemma_slice_counts(
    o: Decoder,
    n: Decoder,
    hdr: NalHeader,
    unit: SliceUnit,
    r: core::result::Result<Option<SliceTask>, Error>,
)
    requires
        o.stats.sei_checked < u64::MAX,
        decoder::slice_pushed(o, n, hdr, unit, r),
    ensures
        counts_kept(o, n),
{
    if unit.first {
        let m = choose|m: Decoder|
            #![trigger decoder::picture_finished(o, m)]
            decoder::picture_finished(o, m) && decoder::first_slice(
                (Decoder { skipping_picture: false, ..m }),
                n,
                hdr,
                unit,
                r,
            );
        let m1 = Decoder { skipping_picture: false, ..m };
        lemma_finished_counts(o, m);
        if unit.header is Ok {
            let sh = unit.header->Ok_0;
            let (s, q) = choose|s: Decoder, q: core::result::Result<(), Error>|
                #![trigger decoder::picture_started(m1, s, hdr, sh, unit.tiles, q)]
                {
                    &&& decoder::picture_started(m1, s, hdr, sh, unit.tiles, q)
                    &&& s.same_sets(m1)
                    &&& s.same_options(m1)
                    &&& s.hash_checks == m1.hash_checks
                    &&& s.sei_results == m1.sei_results
                    &&& match q {
                        Err(e) => r == Err::<Option<SliceTask>, Error>(e) && n == s,
                        Ok(_) => if s.skipping_picture {
                            r == Ok::<Option<SliceTask>, Error>(None) && n == s
                        } else {
                            decoder::slice_added(s, n, sh, r)
                        },
                    }
                };
            assert(counts_kept(m1, s)) by {
                assert(s.control().stats.errors == m1.stats.errors);
            }
            lemma_added_counts(s, n, sh, r);
        }
    } else if unit.header is Ok {
        lemma_added_counts(o, n, unit.header->Ok_0, r);
    }
}

proof fn lemma_added_counts(
    o: Decoder,
    n: Decoder,
    sh: SliceHeader,
    r: core::result::Result<Option<SliceTask>, Error>,
)
    ensures
        decoder::slice_added(o, n, sh, r) ==> counts_kept(o, n),
{
}

proof fn lemma_finished_counts(o: Decoder, n: Decoder)
    requires
        o.stats.sei_checked < u64::MAX,
        decoder::picture_finished(o, n),
    ensures
        counts_kept(o, n),
{
    assert(n.stats == n.control().stats);
}

/// The decoder with another error count.
pub open(crate) spec fn with_errors(d: Decoder, e: u64) -> Decoder {
    Decoder { stats: Stats { errors: e, ..d.stats }, ..d }
}

/// Decoding a slice touches nothing but the samples and maps of the picture in
/// flight.
pub open(crate) spec fn slice_decoded(o: Decoder, n: Decoder) -> bool {
    &&& n == o.with_in_flight(n.cur)
    &&& match o.cur {
        Some(c) => n.cur matches Some(d) && d.decoded_from(c),
        None => n.cur is None,
    }
}

/// What a NAL unit does by itself, with the decoding of the slice that it hands
/// out; `r` is what it comes to.
pub open(crate) spec fn unit_decoded(
    o: Decoder,
    n: Decoder,
    u: NalUnit,
    pts: Option<i64>,
    r: core::result::Result<(), Error>,
) -> bool {
    exists|m: Decoder, t: core::result::Result<Option<SliceTask>, Error>, p: Decoder|
        #![trigger nal_pushed(o, m, u, pts, t), slice_decoded(m, p)]
        {
            &&& nal_pushed(o, m, u, pts, t)
            &&& slice_decoded(m, p)
            &&& match t {
                Ok(Some(_)) => n == slice_finished(p, r),
                Ok(None) => n == m && r is Ok,
                Err(e) => n == m && r == Err::<(), Error>(e),
            }
        }
}

/// What a NAL unit of a chunk does: it is fed, and the slice that it hands out
/// is decoded and reported; `r` is what it comes to.
pub open(crate) spec fn unit_fed(
    o: Decoder,
    b: Chunk,
    n: Decoder,
    c: Chunk,
    u: NalUnit,
    r: core::result::Result<(), Error>,
) -> bool {
    exists|
        m: Decoder,
        a: Chunk,
        task: Option<SliceTask>,
        t: core::result::Result<Option<SliceTask>, Error>,
        p: Decoder,
    |
        #![trigger unit_pushed(o, b, m, a, u, task, t), slice_decoded(m, p)]
        {
            &&& unit_pushed(o, b, m, a, u, task, t)
            &&& slice_decoded(m, p)
            &&& match task {
                Some(_) => slice_noted(p, a, n, c, r),
                None => n == m && c == a && r == (match t {
                    Ok(_) => Ok::<(), Error>(()),
                    Err(e) => Err::<(), Error>(e),
                }),
            }
        }
}

/// How many of the results are errors.
pub open spec fn failures(rs: Seq<core::result::Result<(), Error>>) -> nat
    decreases rs.len(),
{
    if rs.len() == 0 {
        0
    } else {
        failures(rs.drop_last()) + if rs.last() is Err {
            1nat
        } else {
            0nat
        }
    }
}

/// Result `k` is the first that is an error.
pub open spec fn fails_first(rs: Seq<core::result::Result<(), Error>>, k: int) -> bool {
    &&& 0 <= k < rs.len()
    &&& rs[k] is Err
    &&& forall|i: int| #![trigger rs[i]] 0 <= i < k ==> rs[i] is Ok
}

/// The first error of a list of results, if there is one.
pub open spec fn first_error(rs: Seq<core::result::Result<(), Error>>, e: Option<Error>) -> bool {
    match e {
        Some(x) => exists|k: int| #[trigger]
            fails_first(rs, k) && rs[k] == Err::<(), Error>(x),
        None => forall|i: int| #![trigger rs[i]] 0 <= i < rs.len() ==> rs[i] is Ok,
    }
}

/// A chunk feeds every one of its NAL units, those after a failure too, as they
/// would be fed by themselves with the time stamp going to the first; its error
/// is that of the first unit that failed, if one did; and the error count grows
/// by the number of units that failed, while all else is as if they had been
/// fed by themselves.
pub proof fn lemma_chunk_feeds_all(
    ds: Seq<Decoder>,
    cs: Seq<Chunk>,
    units: Seq<NalUnit>,
    rs: Seq<core::result::Result<(), Error>>,
)
    requires
        ds.len() == units.len() + 1,
        cs.len() == units.len() + 1,
        rs.len() == units.len(),
        cs[0].first_err is None,
        forall|i: int|
            #![trigger rs[i]]
            0 <= i < rs.len() ==> ds[i].has_room() && unit_fed(
                ds[i],
                cs[i],
                ds[i + 1],
                cs[i + 1],
                units[i],
                rs[i],
            ),
    ensures
        forall|i: int|
            #![trigger rs[i]]
            0 <= i < rs.len() ==> unit_decoded(
                with_errors(ds[i], ds[0].control().stats.errors),
                with_errors(ds[i + 1], ds[0].control().stats.errors),
                units[i],
                if i == 0 {
                    cs[0].pts
                } else {
                    None
                },
                rs[i],
            ),
        first_error(rs, cs.last().first_err),
        ds.last().control().stats.errors == ds[0].control().stats.errors + failures(rs),
{
    let e0 = ds[0].stats.errors;
    let fe = Seq::new(cs.len(), |i: int| cs[i].first_err);
    let es = Seq::new(ds.len(), |i: int| ds[i].stats.errors as int);
    assert forall|i: int| #![trigger rs[i]] 0 <= i < rs.len() implies unit_decoded(
        with_errors(ds[i], e0),
        with_errors(ds[i + 1], e0),
        units[i],
        if i == 0 {
            cs[0].pts
        } else {
            None
        },
        rs[i],
    ) by {
        lemma_unit_fed(ds[i], cs[i], ds[i + 1], cs[i + 1], units[i], rs[i], e0);
        if i > 0 {
            let j = i - 1;
            assert(rs[j] == rs[j]);
            lemma_unit_fed(ds[j], cs[j], ds[j + 1], cs[j + 1], units[j], rs[j], e0);
        }
    }
    assert forall|i: int| #![trigger rs[i]] 0 <= i < rs.len() implies fe[i + 1] == (match rs[i] {
        Ok(_) => fe[i],
        Err(x) => Some(kept_error(fe[i], x)),
    }) && es[i + 1] == es[i] + failures(seq![rs[i]]) by {
        lemma_unit_fed(ds[i], cs[i], ds[i + 1], cs[i + 1], units[i], rs[i], e0);
        assert(seq![rs[i]].drop_last() =~= Seq::empty());
        reveal_with_fuel(failures, 2);
    }
    lemma_first_error_kept(fe, rs);
    lemma_failures_counted(es, rs);
}

/// What is kept of results that come one after the other is the first error.
proof fn lemma_first_error_kept(
    fe: Seq<Option<Error>>,
    rs: Seq<core::result::Result<(), Error>>,
)
    requires
        fe.len() == rs.len() + 1,
        fe[0] is None,
        forall|i: int|
            #![trigger rs[i]]
            0 <= i < rs.len() ==> fe[i + 1] == (match rs[i] {
                Ok(_) => fe[i],
                Err(x) => Some(kept_error(fe[i], x)),
            }),
    ensures
        first_error(rs, fe.last()),
    decreases rs.len(),
{
    if rs.len() > 0 {
        let k = rs.len() - 1;
        let (fe1, rs1) = (fe.drop_last(), rs.drop_last());
        assert forall|i: int| #![trigger rs1[i]] 0 <= i < rs1.len() implies fe1[i + 1] == (
        match rs1[i] {
            Ok(_) => fe1[i],
            Err(x) => Some(kept_error(fe1[i], x)),
        }) by {
            assert(rs1[i] == rs[i]);
        }
        lemma_first_error_kept(fe1, rs1);
        assert(rs[k] == rs.last());
        assert(fe1.last() == fe[k]);
        match fe[k] {
            Some(x) => {
                let q = choose|q: int| #[trigger]
                    fails_first(rs1, q) && rs1[q] == Err::<(), Error>(x);
                assert(rs1[q] == rs[q]);
                assert forall|i: int| #![trigger rs[i]] 0 <= i < q implies rs[i] is Ok by {
                    assert(rs1[i] is Ok);
                }
                assert(fails_first(rs, q));
            },
            None => {
                assert forall|i: int| #![trigger rs[i]] 0 <= i < k implies rs[i] is Ok by {
                    assert(rs1[i] is Ok);
                }
                if rs[k] is Err {
                    assert(fails_first(rs, k));
                }
            },
        }
    }
}

/// A count that goes up at each error goes up by the number of errors.
proof fn lemma_failures_counted(es: Seq<int>, rs: Seq<core::result::Result<(), Error>>)
    requires
        es.len() == rs.len() + 1,
        forall|i: int|
            #![trigger rs[i]]
            0 <= i < rs.len() ==> es[i + 1] == es[i] + failures(seq![rs[i]]),
    ensures
        es.last() == es[0] + failures(rs),
    decreases rs.len(),
{
    if rs.len() > 0 {
        let k = rs.len() - 1;
        let (es1, rs1) = (es.drop_last(), rs.drop_last());
        assert forall|i: int| #![trigger rs1[i]] 0 <= i < rs1.len() implies es1[i + 1] == es1[i]
            + failures(seq![rs1[i]]) by {
            assert(rs1[i] == rs[i]);
        }
        lemma_failures_counted(es1, rs1);
        assert(rs[k] == rs.last());
        assert(seq![rs[k]].drop_last() =~= Seq::empty());
        reveal_with_fuel(failures, 2);
    }
}

/// One NAL unit of a chunk: what it does to the decoder, whatever the error
/// count, and what the chunk keeps of it.
proof fn lemma_unit_fed(
    o: Decoder,
    b: Chunk,
    n: Decoder,
    c: Chunk,
    u: NalUnit,
    r: core::result::Result<(), Error>,
    e: u64,
)
    requires
        o.has_room(),
        unit_fed(o, b, n, c, u, r),
    ensures
        unit_decoded(with_errors(o, e), with_errors(n, e), u, b.pts, r),
        c.pts is None,
        c.first_err == (match r {
            Ok(_) => b.first_err,
            Err(x) => Some(kept_error(b.first_err, x)),
        }),
        n.stats.errors == o.stats.errors + if r is Err {
            1int
        } else {
            0int
        },
{
    let (m, a, task, t, p) = choose|
        m: Decoder,
        a: Chunk,
        task: Option<SliceTask>,
        t: core::result::Result<Option<SliceTask>, Error>,
        p: Decoder,
    |
        #![trigger unit_pushed(o, b, m, a, u, task, t), slice_decoded(m, p)]
        {
            &&& unit_pushed(o, b, m, a, u, task, t)
            &&& slice_decoded(m, p)
            &&& match task {
                Some(_) => slice_noted(p, a, n, c, r),
                None => n == m && c == a && r == (match t {
                    Ok(_) => Ok::<(), Error>(()),
                    Err(e) => Err::<(), Error>(e),
                }),
            }
        };
    let d = choose|d: Decoder|
        #![trigger nal_pushed(o, d, u, b.pts, t)]
        {
            &&& nal_pushed(o, d, u, b.pts, t)
            &&& a.pts is None
            &&& match t {
                Ok(x) => task == x && m == d && a.first_err == b.first_err,
                Err(e) => task is None && noted(
                    m,
                    a,
                    d,
                    (Chunk { pts: None, first_err: b.first_err }),
                    e,
                ),
            }
        };
    lemma_counts_kept(o, d, u, b.pts, t);
    lemma_pushed_any_count(o, d, u, b.pts, t, e);
    let q = if task is Some {
        p
    } else {
        d
    };
    assert(slice_decoded(with_errors(d, e), with_errors(q, e)));
    assert(nal_pushed(with_errors(o, e), with_errors(d, e), u, b.pts, t));
}

/// The error count plays no part in what a NAL unit does.
proof fn lemma_pushed_any_count(
    o: Decoder,
    n: Decoder,
    u: NalUnit,
    pts: Option<i64>,
    r: core::result::Result<Option<SliceTask>, Error>,
    e: u64,
)
    requires
        nal_pushed(o, n, u, pts, r),
    ensures
        nal_pushed(with_errors(o, e), with_errors(n, e), u, pts, r),
{
    if u.header is Some && u.header.unwrap().layer_id == 0 {
        let hdr = u.header.unwrap();
        let id = hdr.nal_type.id;
        let o1 = Decoder {
            pending_pts: if pts is Some {
                pts
            } else {
                o.pending_pts
            },
            ..o
        };
        if id == NAL_EOS || id == NAL_EOB {
            let m = choose|m: Decoder|
                #![trigger decoder::picture_finished(o1, m)]
                decoder::picture_finished(o1, m) && n == (Decoder { first_in_sequence: true, ..m });
            lemma_finished_any_count(o1, m, e);
            assert(with_errors(n, e) == (Decoder { first_in_sequence: true, ..with_errors(m, e) }));
        } else if is_slice(hdr.nal_type) {
            lemma_slice_any_count(o1, n, hdr, u.body->Slice_0, r, e);
        }
    }
}

proof fn lemma_finished_any_count(o: Decoder, n: Decoder, e: u64)
    requires
        decoder::picture_finished(o, n),
    ensures
        decoder::picture_finished(with_errors(o, e), with_errors(n, e)),
{
    assert(decoder::picture_done(with_errors(o, e)) == (decoder::Control {
        stats: Stats { errors: e, ..decoder::picture_done(o).stats },
        ..decoder::picture_done(o)
    }));
    assert(n.stats == n.control().stats);
}

proof fn lemma_slice_any_count(
    o: Decoder,
    n: Decoder,
    hdr: NalHeader,
    unit: SliceUnit,
    r: core::result::Result<Option<SliceTask>, Error>,
    e: u64,
)
    requires
        decoder::slice_pushed(o, n, hdr, unit, r),
    ensures
        decoder::slice_pushed(with_errors(o, e), with_errors(n, e), hdr, unit, r),
{
    if unit.first {
        let m = choose|m: Decoder|
            #![trigger decoder::picture_finished(o, m)]
            decoder::picture_finished(o, m) && decoder::first_slice(
                (Decoder { skipping_picture: false, ..m }),
                n,
                hdr,
                unit,
                r,
            );
        let m1 = Decoder { skipping_picture: false, ..m };
        lemma_finished_any_count(o, m, e);
        assert(with_errors(m1, e) == (Decoder { skipping_picture: false, ..with_errors(m, e) }));
        if unit.header is Ok {
            let sh = unit.header->Ok_0;
            let (s, q) = choose|s: Decoder, q: core::result::Result<(), Error>|
                #![trigger decoder::picture_started(m1, s, hdr, sh, unit.tiles, q)]
                {
                    &&& decoder::picture_started(m1, s, hdr, sh, unit.tiles, q)
                    &&& s.same_sets(m1)
                    &&& s.same_options(m1)
                    &&& s.hash_checks == m1.hash_checks
                    &&& s.sei_results == m1.sei_results
                    &&& match q {
                        Err(e) => r == Err::<Option<SliceTask>, Error>(e) && n == s,
                        Ok(_) => if s.skipping_picture {
                            r == Ok::<Option<SliceTask>, Error>(None) && n == s
                        } else {
                            decoder::slice_added(s, n, sh, r)
                        },
                    }
                };
            lemma_started_any_count(m1, s, hdr, sh, unit.tiles, q, e);
            if q is Ok && !s.skipping_picture {
                lemma_added_any_count(s, n, sh, r, e);
            }
        }
    } else {
        let o1 = decoder::stamped(o);
        assert(with_errors(o1, e) == decoder::stamped(with_errors(o, e)));
        if !o1.skipping_picture && unit.header is Ok && o1.cur is Some {
            lemma_added_any_count(o1, n, unit.header->Ok_0, r, e);
        }
    }
}

proof fn lemma_started_any_count(
    o: Decoder,
    n: Decoder,
    hdr: NalHeader,
    sh: SliceHeader,
    tiles: core::result::Result<TileLayout, Error>,
    r: core::result::Result<(), Error>,
    e: u64,
)
    requires
        decoder::picture_started(o, n, hdr, sh, tiles, r),
    ensures
        decoder::picture_started(with_errors(o, e), with_errors(n, e), hdr, sh, tiles, r),
{
    let k = o.control();
    let k1 = with_errors(o, e).control();
    assert(k1 == (decoder::Control { stats: Stats { errors: e, ..k.stats }, ..k }));
    let pps = decoder::plain(o.pps_for(sh.pps_id));
    let sps = decoder::plain(o.sps_for(sh.pps_id));
    let (a, x) = decoder::start(k, hdr.nal_type, hdr.temporal_id, sh, pps, sps, tiles is Ok);
    let (b, y) = decoder::start(k1, hdr.nal_type, hdr.temporal_id, sh, pps, sps, tiles is Ok);
    assert(b == (decoder::Control { stats: Stats { errors: e, ..a.stats }, ..a }));
    assert(x == y);
    assert(n.stats == n.control().stats);
    assert(with_errors(n, e).control() == b);
}

proof fn lemma_added_any_count(
    o: Decoder,
    n: Decoder,
    sh: SliceHeader,
    r: core::result::Result<Option<SliceTask>, Error>,
    e: u64,
)
    requires
        decoder::slice_added(o, n, sh, r),
    ensures
        decoder::slice_added(with_errors(o, e), with_errors(n, e), sh, r),
{
}

// ---- the time stamp of an access unit ----

/// Of a time stamp that came with a unit and one that was waiting, the one that
/// counts.
pub open spec fn newest(pts: Option<i64>, waiting: Option<i64>) -> Option<i64> {
    if pts is Some {
        pts
    } else {
        waiting
    }
}

/// The time stamp that waits, and that of the picture in flight, after a NAL
/// unit and the slice that it hands out.
proof fn lemma_unit_stamp(
    o: Decoder,
    n: Decoder,
    u: NalUnit,
    pts: Option<i64>,
    r: core::result::Result<(), Error>,
)
    requires
        unit_decoded(o, n, u, pts, r),
        u.header is Some,
        u.header.unwrap().layer_id == 0 && is_slice(u.header.unwrap().nal_type) ==> u.body is Slice,
    ensures
        n.pending_pts == (if base_segment(u) {
            None
        } else {
            newest(pts, o.pending_pts)
        }),
        n.cur matches Some(c) ==> if first_segment(u) {
            c.pts == newest(pts, o.pending_pts)
        } else {
            o.cur matches Some(b) && c.pts == (if base_segment(u) {
                newest(b.pts, newest(pts, o.pending_pts))
            } else {
                b.pts
            })
        },
{
    let (m, t, p) = choose|
        m: Decoder,
        t: core::result::Result<Option<SliceTask>, Error>,
        p: Decoder,
    |
        #![trigger nal_pushed(o, m, u, pts, t), slice_decoded(m, p)]
        {
            &&& nal_pushed(o, m, u, pts, t)
            &&& slice_decoded(m, p)
            &&& match t {
                Ok(Some(_)) => n == slice_finished(p, r),
                Ok(None) => n == m && r is Ok,
                Err(e) => n == m && r == Err::<(), Error>(e),
            }
        };
    lemma_pushed_stamp(o, m, u, pts, t);
}

proof fn lemma_pushed_stamp(
    o: Decoder,
    n: Decoder,
    u: NalUnit,
    pts: Option<i64>,
    r: core::result::Result<Option<SliceTask>, Error>,
)
    requires
        nal_pushed(o, n, u, pts, r),
        u.header is Some,
        u.header.unwrap().layer_id == 0 && is_slice(u.header.unwrap().nal_type) ==> u.body is Slice,
    ensures
        n.pending_pts == (if base_segment(u) {
            None
        } else {
            newest(pts, o.pending_pts)
        }),
        n.cur matches Some(c) ==> if first_segment(u) {
            c.pts == newest(pts, o.pending_pts)
        } else {
            o.cur matches Some(b) && c.pts == (if base_segment(u) {
                newest(b.pts, newest(pts, o.pending_pts))
            } else {
                b.pts
            })
        },
{
    let hdr = u.header.unwrap();
    let id = hdr.nal_type.id;
    let o1 = Decoder { pending_pts: newest(pts, o.pending_pts), ..o };
    if base_segment(u) {
        lemma_stamp_stays_with_its_picture(o, n, u, pts, r);
        let unit = u.body->Slice_0;
        if !unit.first {
            let o2 = decoder::stamped(o1);
            assert(decoder::later_slice(o2, n, unit, r));
            if !o2.skipping_picture && unit.header is Ok && o2.cur is Some {
                lemma_added_stamp(o2, n, unit.header->Ok_0, r);
            }
        }
    } else if hdr.layer_id == 0 && (id == NAL_EOS || id == NAL_EOB) {
        let m = choose|m: Decoder|
            #![trigger decoder::picture_finished(o1, m)]
            decoder::picture_finished(o1, m) && n == (Decoder { first_in_sequence: true, ..m });
        assert(m.control().pending_pts == o1.pending_pts);
    }
}

/// NAL units fed one after the other, with what each came to: the first comes
/// with a time stamp, the others with none.
pub open spec fn run(
    ds: Seq<Decoder>,
    units: Seq<NalUnit>,
    pts: Option<i64>,
    rs: Seq<core::result::Result<(), Error>>,
) -> bool {
    &&& ds.len() == units.len() + 1
    &&& rs.len() == units.len()
    &&& forall|i: int|
        #![trigger rs[i]]
        0 <= i < rs.len() ==> unit_decoded(
            ds[i],
            ds[i + 1],
            units[i],
            if i == 0 {
                pts
            } else {
                None
            },
            rs[i],
        )
}

/// The units of one access unit: their headers are valid and their slices are
/// slices; unit `j` holds the first slice segment of its picture, and no other
/// segment comes before it, nor another first one after it.
pub open spec fn access_unit(units: Seq<NalUnit>, j: int) -> bool {
    &&& 0 <= j < units.len()
    &&& forall|i: int|
        #![trigger units[i]]
        0 <= i < units.len() ==> {
            &&& units[i].header is Some
            &&& units[i].header.unwrap().layer_id == 0 && is_slice(
                units[i].header.unwrap().nal_type,
            ) ==> units[i].body is Slice
            &&& i < j ==> !base_segment(units[i])
            &&& i > j ==> !first_segment(units[i])
        }
    &&& first_segment(units[j])
}

/// The time stamp of an access unit goes to its picture, if it starts one, and to
/// no other: none is left after it.
pub proof fn lemma_access_unit_stamp(
    ds: Seq<Decoder>,
    units: Seq<NalUnit>,
    pts: Option<i64>,
    rs: Seq<core::result::Result<(), Error>>,
    j: int,
)
    requires
        run(ds, units, pts, rs),
        access_unit(units, j),
        ds[0].control().pending_pts is None,
    ensures
        ds.last().control().pending_pts is None,
        ds.last().in_flight() matches Some(c) ==> c.pts == pts,
{
    lemma_stamp_in_run(ds, units, pts, rs, j, units.len() as int);
}

/// The same after the first `k` units.
proof fn lemma_stamp_in_run(
    ds: Seq<Decoder>,
    units: Seq<NalUnit>,
    pts: Option<i64>,
    rs: Seq<core::result::Result<(), Error>>,
    j: int,
    k: int,
)
    requires
        run(ds, units, pts, rs),
        access_unit(units, j),
        ds[0].pending_pts is None,
        0 <= k <= units.len(),
    ensures
        ds[k].pending_pts == (if 0 < k <= j {
            pts
        } else {
            None
        }),
        k > j ==> (ds[k].cur matches Some(c) ==> c.pts == pts),
    decreases k,
{
    if k > 0 {
        let i = k - 1;
        lemma_stamp_in_run(ds, units, pts, rs, j, i);
        let given = if i == 0 {
            pts
        } else {
            None
        };
        assert(rs[i] == rs[i]);
        assert(unit_decoded(ds[i], ds[i + 1], units[i], given, rs[i]));
        assert(units[i] == units[i]);
        lemma_unit_stamp(ds[i], ds[i + 1], units[i], given, rs[i]);
    }
}

/// A frame has the time stamp of the access unit that produced it, or none if
/// that came with none, whatever came before it: the time stamp of an access
/// unit before it, skipped or refused, belongs to no frame.
pub proof fn lemma_frame_has_its_own_stamp(
    das: Seq<Decoder>,
    ua: Seq<NalUnit>,
    pa: Option<i64>,
    ra: Seq<core::result::Result<(), Error>>,
    ja: int,
    dbs: Seq<Decoder>,
    ub: Seq<NalUnit>,
    pb: Option<i64>,
    rb: Seq<core::result::Result<(), Error>>,
    jb: int,
    n: Decoder,
)
    requires
        run(das, ua, pa, ra),
        access_unit(ua, ja),
        das[0].control().pending_pts is None,
        dbs[0] == das.last(),
        run(dbs, ub, pb, rb),
        access_unit(ub, jb),
        dbs.last().in_flight() is Some,
        dbs.last().in_flight().unwrap().output_flag,
        flushed(dbs.last(), n),
    ensures
        exists|i: int|
            #![trigger n.control().buf.out[i]]
            {
                &&& 0 <= i < n.control().buf.out.len()
                &&& n.control().buf.out[i].poc == dbs.last().in_flight().unwrap().poc
                &&& n.control().buf.out[i].pts == pb
            },
{
    lemma_access_unit_stamp(das, ua, pa, ra, ja);
    lemma_access_unit_stamp(dbs, ub, pb, rb, jb);
    lemma_flushed_stamp(dbs.last(), n);
}

// ---- output ----

/// What the end of the stream does: the picture in flight is finished, every
/// waiting picture is queued in POC order, and the buffer is emptied.
pub open(crate) spec fn flushed(o: Decoder, n: Decoder) -> bool {
    exists|m: Decoder|
        #![trigger decoder::picture_finished(o, m)]
        {
            &&& decoder::picture_finished(o, m)
            &&& n == (Decoder { first_in_sequence: true, dpb: n.dpb, output: n.output, ..m })
            &&& n.dpb@.len() == 0
            &&& dpb::frames(n.output@) == dpb::drained(m.control().buf).out
        }
}

/// Flushing empties the buffer and keeps what was queued at the front of the
/// queue. Behind it, in POC order, comes everything else that was to be output:
/// each picture that waited and the picture in flight, if it is for output, all
/// exactly once.
pub proof fn lemma_flushed_in_order(o: Decoder, n: Decoder)
    requires
        flushed(o, n),
    ensures
        ({
            let len = o.control().buf.out.len() as int;
            let out = n.control().buf.out;
            &&& n.control().buf.d.len() == 0
            &&& n.in_flight() is None
            &&& len <= out.len()
            &&& out.take(len) == o.control().buf.out
            &&& dpb::rising_from(out, len)
            &&& out.to_multiset() == decoder::due(o)
        }),
{
    let m = choose|m: Decoder|
        #![trigger decoder::picture_finished(o, m)]
        {
            &&& decoder::picture_finished(o, m)
            &&& n == (Decoder { first_in_sequence: true, dpb: n.dpb, output: n.output, ..m })
            &&& n.dpb@.len() == 0
            &&& dpb::frames(n.output@) == dpb::drained(m.control().buf).out
        };
    let len = o.output@.len() as int;
    let b = o.control().buf;
    let a = m.control().buf;
    assert(b.out.len() == len);
    if o.cur is Some {
        let c = o.cur.unwrap();
        let pic = if o.headers_only {
            c.pic@
        } else {
            decoder::finished(c, o.switches)
        };
        let d = if c.output_flag {
            decoder::aged(b.d)
        } else {
            b.d
        };
        dpb::lemma_settled_from(
            Buffered { d: d.push(decoder::finished_slot(c, pic)), out: b.out },
            decoder::shared(c.sps).order(),
            false,
            len,
        );
    } else {
        assert(b.out.take(len) =~= b.out);
    }
    dpb::lemma_drained_from(a, len);
    dpb::lemma_drained_pending(a);
    decoder::lemma_picture_comes_out_once(o, m);
    let out = dpb::frames(n.output@);
    assert(out.take(len) =~= out.take(a.out.len() as int).take(len));
}

/// A second flush changes nothing.
pub proof fn lemma_flush_twice(o: Decoder, n: Decoder, m: Decoder)
    requires
        flushed(o, n),
        flushed(n, m),
    ensures
        m.control() == n.control(),
        m.in_flight() is None,
        m.same_sets(n),
        m.same_options(n),
        m.unchecked() == n.unchecked(),
        m.checked() == n.checked(),
        m.waiting_hash() == n.waiting_hash(),
{
    let a = choose|a: Decoder|
        #![trigger decoder::picture_finished(o, a)]
        {
            &&& decoder::picture_finished(o, a)
            &&& n == (Decoder { first_in_sequence: true, dpb: n.dpb, output: n.output, ..a })
            &&& n.dpb@.len() == 0
            &&& dpb::frames(n.output@) == dpb::drained(a.control().buf).out
        };
    let b = choose|b: Decoder|
        #![trigger decoder::picture_finished(n, b)]
        {
            &&& decoder::picture_finished(n, b)
            &&& m == (Decoder { first_in_sequence: true, dpb: m.dpb, output: m.output, ..b })
            &&& m.dpb@.len() == 0
            &&& dpb::frames(m.output@) == dpb::drained(b.control().buf).out
        };
    assert(b.control() == n.control());
    assert(b.control().buf.d.len() == 0);
    assert(dpb::drained(b.control().buf) == b.control().buf);
    assert(m.control().buf.d =~= n.control().buf.d);
    assert(m.control().buf.out == n.control().buf.out);
    assert(m.control() == n.control()) by {
        assert(b.control().prev_tid0_poc == n.control().prev_tid0_poc);
    }
}

/// The picture in flight, if it is for output, comes out of a flush with its own
/// count and time stamp.
pub proof fn lemma_flushed_stamp(o: Decoder, n: Decoder)
    requires
        flushed(o, n),
        o.in_flight() is Some,
        o.in_flight().unwrap().output_flag,
    ensures
        exists|i: int|
            #![trigger n.control().buf.out[i]]
            {
                &&& 0 <= i < n.control().buf.out.len()
                &&& n.control().buf.out[i].poc == o.in_flight().unwrap().poc
                &&& n.control().buf.out[i].pts == o.in_flight().unwrap().pts
            },
{
    broadcast use vstd::seq_lib::group_to_multiset_ensures;

    lemma_flushed_in_order(o, n);
    let c = o.cur.unwrap();
    let pic = if o.headers_only {
        c.pic@
    } else {
        decoder::finished(c, o.switches)
    };
    let f = dpb::frame_of(decoder::finished_slot(c, pic));
    let out = n.control().buf.out;
    assert(out.to_multiset().count(f) > 0);
    assert(out.contains(f));
    let i = choose|i: int| 0 <= i < out.len() && out[i] == f;
    assert(out[i].poc == c.poc && out[i].pts == c.pts);
}

/// The bytes of frames one after the other, as `write_yuv` writes them.
pub open spec fn frames_bytes(q: Seq<Frame>) -> Seq<u8>
    decreases q.len(),
{
    if q.len() == 0 {
        Seq::empty()
    } else {
        q.first().picture.yuv_bytes() + frames_bytes(q.drop_first())
    }
}

/// The size and bit depth of a sequence of frames: those of the last one, or
/// zeros.
pub open spec fn last_geometry(q: Seq<Frame>) -> (usize, usize, u8) {
    if q.len() == 0 {
        (0, 0, 0)
    } else {
        (q.last().width, q.last().height, q.last().picture.bit_depth_luma)
    }
}

/// What taking a frame does to the queue: the oldest one leaves, if there is one.
pub open spec fn frame_taken(
    o: Seq<Frame>,
    n: Seq<Frame>,
    r: core::result::Result<Frame, Error>,
) -> bool {
    match r {
        Ok(f) => o.len() > 0 && f == o.first() && n == o.drop_first(),
        Err(e) => o.len() == 0 && e == Error::Again && n == o,
    }
}

impl Decoder {
    /// Ends the stream: finishes the picture in flight and outputs everything.
    pub fn flush(&mut self)
        requires
            old(self).wf(),
            old(self).has_room(),
        ensures
            final(self).wf(),
            flushed(*old(self), *final(self)),
    {
        let ghost o = *self;
        self.finish_picture();
        let ghost m = *self;
        assert(decoder::picture_finished(o, m));
        dpb::flush_dpb_output(&mut self.dpb, &mut self.output);
        self.first_in_sequence = true;
        proof {
            decoder::lemma_drained_ok(m.control().buf, m.stats.pictures as int);
        }
    }

    /// Next frame in output order, or [`Error::Again`].
    pub fn next_frame(&mut self) -> (r: core::result::Result<Frame, Error>)
        requires
            old(self).wf(),
        ensures
            final(self).wf(),
            final(self).same_but_queue(*old(self)),
            frame_taken(old(self).queued(), final(self).queued(), r),
            r matches Ok(f) ==> f.picture.crop_ok(),
    {
        let ghost b = self.control().buf;
        let r = self.output.pop_front();
        match r {
            Some(f) => {
                proof {
                    assert(b.out[0].pic.crop_ok());
                    assert(f == old(self).output@[0]);
                    assert(f.picture.crop_ok());
                    let a = self.control().buf;
                    assert forall|i: int|
                        #![trigger a.out[i]]
                        0 <= i < a.out.len() implies a.out[i].pic.crop_ok() by {
                        assert(a.out[i] == b.out[i + 1]);
                    }
                    assert(a.d == b.d);
                    assert(self.output@ =~= old(self).output@.drop_first());
                }
                Ok(f)
            },
            None => {
                assert(self.control().buf =~= b);
                Err(Error::Again)
            },
        }
    }

    /// Writes every queued frame to `out`; gives the size and bit depth of the
    /// last one (zeros if there was none) and the number of frames.
    pub fn drain(&mut self, out: &mut Vec<u8>) -> (r: ((usize, usize, u8), u64))
        requires
            old(self).wf(),
        ensures
            final(self).wf(),
            final(self).queued().len() == 0,
            final(self).same_but_queue(*old(self)),
            final(out)@ == old(out)@ + frames_bytes(old(self).queued()),
            r.0 == last_geometry(old(self).queued()),
            r.1 == old(self).queued().len(),
    {
        let ghost q = self.output@;
        let ghost before = out@;
        let mut geom: (usize, usize, u8) = (0, 0, 0);
        let mut n: u64 = 0;
        assert(q.len() <= usize::MAX) by {
            assert(q.len() == self.output.len());
        }
        assert(q.skip(0) =~= q);
        assert(before + frames_bytes(q) =~= before + frames_bytes(q.skip(0)));
        loop
            invariant_except_break
                self.wf(),
                n <= q.len(),
                q.len() <= usize::MAX,
                self.output@ == q.skip(n as int),
                *self == (Decoder { output: self.output, ..*old(self) }),
                before + frames_bytes(q) == out@ + frames_bytes(q.skip(n as int)),
                geom == last_geometry(q.take(n as int)),
            ensures
                self.wf(),
                self.output@.len() == 0,
                *self == (Decoder { output: self.output, ..*old(self) }),
                out@ == before + frames_bytes(q),
                geom == last_geometry(q),
                n == q.len(),
            decreases self.output@.len(),
        {
            let f = match self.next_frame() {
                Ok(f) => f,
                Err(_) => {
                    proof {
                        assert(q.take(n as int) =~= q);
                        assert(out@ + frames_bytes(q.skip(n as int)) =~= out@);
                    }
                    break ;
                },
            };
            proof {
                let rest = q.skip(n as int);
                assert(rest.drop_first() =~= q.skip(n + 1));
                assert(rest.first() == f);
                assert(out@ + (f.picture.yuv_bytes() + frames_bytes(q.skip(n + 1))) =~= (out@
                    + f.picture.yuv_bytes()) + frames_bytes(q.skip(n + 1)));
                assert(q.take(n + 1).last() == f);
            }
            f.write_yuv(out);
            geom = (f.width, f.height, f.bit_depth());
            n += 1;
        }
        (geom, n)
    }

    /// The decoded picture buffer.
    pub fn dpb(&self) -> (d: &[DpbEntry])
        ensures
            d@ == self.entries(),
    {
        self.dpb.as_slice()
    }

    /// The parameter sets that a slice refers to, if they have arrived.
    pub fn lookup(&self, pps_id: u8) -> (r: Option<(&Sps, &Pps)>)
        requires
            self.wf(),
        ensures
            match r {
                Some((sps, pps)) => {
                    &&& pps_id < 64
                    &&& self.pps_for(pps_id) matches Some(p) && *pps == *p
                    &&& self.sps_for(pps_id) matches Some(s) && *sps == *s
                },
                None => pps_id >= 64 || self.sps_for(pps_id) is None,
            },
    {
        if pps_id >= 64 {
            return None;
        }
        match &self.pps[pps_id as usize] {
            None => None,
            Some(pps) => match &self.sps[pps.sps_id as usize] {
                None => None,
                Some(sps) => Some((&**sps, &**pps)),
            },
        }
    }

    /// The picture in flight.
    pub fn current(&self) -> (r: Option<&CurrentPicture>)
        ensures
            match r {
                Some(c) => self.in_flight() == Some(*c),
                None => self.in_flight() is None,
            },
    {
        self.cur.as_ref()
    }

    /// Hands out the picture in flight, for a slice to be decoded into it.
    pub fn lend_picture(&mut self) -> (r: Option<CurrentPicture>)
        requires
            old(self).wf(),
        ensures
            final(self).wf(),
            r == old(self).in_flight(),
            r matches Some(c) ==> c.wf(),
            *final(self) == old(self).with_in_flight(None),
    {
        self.cur.take()
    }

    /// Takes the picture in flight back.
    pub fn return_picture(&mut self, picture: CurrentPicture)
        requires
            old(self).wf(),
            picture.wf(),
        ensures
            final(self).wf(),
            *final(self) == old(self).with_in_flight(Some(picture)),
    {
        self.cur = Some(picture);
    }

    /// The last independent slice header of the picture in flight, which a
    /// dependent slice segment continues.
    pub fn previous_header(&self) -> (r: Option<&SliceHeader>)
        ensures
            match r {
                Some(h) => self.in_flight() matches Some(c) && c.last_indep_header matches Some(a)
                    && *h == *a,
                None => self.in_flight() matches Some(c) ==> c.last_indep_header is None,
            },
    {
        match &self.cur {
            None => None,
            Some(c) => match &c.last_indep_header {
                None => None,
                Some(h) => Some(&**h),
            },
        }
    }
}

// ---- picture hashes ----

/// What recording the result of a comparison does.
pub open(crate) spec fn check_recorded(o: Decoder, n: Decoder, matched: bool) -> bool {
    if o.hash_checks@.len() == 0 {
        n == (Decoder { hash_checks: n.hash_checks, ..o }) && n.hash_checks@ == o.hash_checks@
    } else {
        &&& n.hash_checks@ == o.hash_checks@.drop_first()
        &&& n.sei_results@ == o.sei_results@.push((o.hash_checks@.first().poc, matched))
        &&& n == (Decoder {
            hash_checks: n.hash_checks,
            sei_results: n.sei_results,
            stats: Stats {
                sei_mismatch: (o.stats.sei_mismatch + if matched {
                    0int
                } else {
                    1int
                }) as u64,
                ..o.stats
            },
            ..o
        })
    }
}

/// The pictures that did not match their hash.
pub open spec fn mismatches(results: Seq<(i32, bool)>) -> nat
    decreases results.len(),
{
    if results.len() == 0 {
        0
    } else {
        mismatches(results.drop_last()) + if results.last().1 {
            0nat
        } else {
            1nat
        }
    }
}

impl Decoder {
    /// The statistics count every picture that has been or is still to be
    /// compared with its hash, and every mismatch.
    pub open(crate) spec fn checks_counted(self) -> bool {
        &&& self.stats.sei_checked == self.sei_results@.len() + self.hash_checks@.len()
        &&& self.stats.sei_mismatch == mismatches(self.sei_results@)
    }
}

/// Recording a comparison keeps the counts right.
pub proof fn lemma_recorded_counted(o: Decoder, n: Decoder, matched: bool)
    requires
        o.checks_counted(),
        o.control().stats.sei_mismatch < u64::MAX,
        check_recorded(o, n, matched),
    ensures
        n.checks_counted(),
{
    if o.hash_checks@.len() > 0 {
        assert(n.sei_results@.drop_last() =~= o.sei_results@);
    }
}

/// Feeding a NAL unit keeps the counts right.
pub proof fn lemma_pushed_counted(
    o: Decoder,
    n: Decoder,
    u: NalUnit,
    pts: Option<i64>,
    r: core::result::Result<Option<SliceTask>, Error>,
)
    requires
        o.checks_counted(),
        o.control().stats.sei_checked < u64::MAX,
        nal_pushed(o, n, u, pts, r),
    ensures
        n.checks_counted(),
{
    lemma_counts_kept(o, n, u, pts, r);
}

impl Decoder {
    /// The oldest finished picture whose hash is still to be compared.
    pub fn next_hash_check(&self) -> (r: Option<&HashCheck>)
        ensures
            match r {
                Some(h) => self.unchecked().len() > 0 && *h == self.unchecked().first(),
                None => self.unchecked().len() == 0,
            },
    {
        if self.hash_checks.len() == 0 {
            None
        } else {
            Some(&self.hash_checks[0])
        }
    }

    /// Records whether the oldest picture to be compared matched its hash.
    pub fn hash_checked(&mut self, matched: bool)
        requires
            old(self).wf(),
            old(self).control().stats.sei_mismatch < u64::MAX,
        ensures
            final(self).wf(),
            check_recorded(*old(self), *final(self), matched),
    {
        match self.hash_checks.pop_front() {
            None => {},
            Some(h) => {
                assert(self.hash_checks@ =~= old(self).hash_checks@.drop_first());
                self.sei_results.push((h.poc, matched));
                if !matched {
                    self.stats.sei_mismatch += 1;
                }
            },
        }
    }

    /// How the first checked picture fared, in a word.
    pub fn first_sei(&self) -> (r: &'static str)
        ensures
            r@ == (if self.checked().len() == 0 {
                "none"@
            } else if self.checked()[0].1 {
                "ok"@
            } else {
                "bad"@
            }),
    {
        if self.sei_results.len() == 0 {
            "none"
        } else if self.sei_results[0].1 {
            "ok"
        } else {
            "bad"
        }
    }

    /// Whether a stream that gave that many frames was decoded: one that gave
    /// none, or an error, was not.
    pub fn succeeded(&self, frames: u64) -> (r: bool)
        ensures
            r == (frames > 0 && self.control().stats.errors == 0),
    {
        !(frames == 0 || self.stats.errors > 0)
    }
}

} // verus!
