use rusty_h265::decoder::{check_scope, Decoder, PictureHash, SliceUnit, Stats};
use rusty_h265::error::Error;
use rusty_h265::frame::Picture;
use rusty_h265::nal::{
    NalHeader, NalType, NAL_AUD, NAL_EOS, NAL_PPS, NAL_PREFIX_SEI, NAL_SPS, NAL_SUFFIX_SEI,
    NAL_VPS,
};
use rusty_h265::ps::{Pps, Sps, SubLayerOrder, TileLayout, Vps};
use rusty_h265::slice::{LongTermRef, SliceHeader, SliceType, StRps};
use rusty_h265::stream::{Chunk, NalBody, NalUnit};
use std::sync::Arc;

const TRAIL_N: u8 = 0;
const TRAIL_R: u8 = 1;
const RASL_N: u8 = 8;
const IDR: u8 = 19;
const CRA: u8 = 21;

fn sps(reorder: u32) -> Sps {
    let order = SubLayerOrder {
        max_dec_pic_buffering_minus1: 4,
        max_num_reorder_pics: reorder,
        max_latency_increase_plus1: 0,
    };
    Sps {
        id: 0,
        profile: 1,
        width: 16,
        height: 16,
        chroma_format_idc: 1,
        bit_depth_luma: 8,
        bit_depth_chroma: 8,
        log2_max_poc_lsb: 4,
        max_sub_layers_minus1: 0,
        ordering: [order; 7],
        sub_width_c: 2,
        sub_height_c: 2,
        conf_win: [0; 4],
        log2_ctb_size: 4,
        pic_width_in_ctbs: 1,
        pic_height_in_ctbs: 1,
        log2_min_tb_size: 2,
        log2_max_tb_size: 4,
        max_transform_hierarchy_depth_inter: 1,
        qp_bd_offset_y: 0,
        qp_bd_offset_c: 0,
        sao_enabled: false,
        strong_intra_smoothing_enabled: false,
        scaling_list_enabled: false,
        scaling_list: None,
        range_extension: false,
        multilayer_extension: false,
        ext_3d: false,
        scc_extension: false,
    }
}

fn pps() -> Pps {
    Pps {
        id: 0,
        sps_id: 0,
        cb_qp_offset: 0,
        cr_qp_offset: 0,
        cu_qp_delta_enabled: false,
        constrained_intra_pred: false,
        transform_skip_enabled: false,
        log2_max_transform_skip_block_size: 2,
        sign_data_hiding_enabled: false,
        loop_filter_across_tiles_enabled: true,
        scaling_list: None,
        range_extension: false,
        multilayer_extension: false,
        ext_3d: false,
        scc_extension: false,
    }
}

fn nal(id: u8, body: NalBody) -> NalUnit {
    let header = Some(NalHeader { nal_type: NalType { id }, layer_id: 0, temporal_id: 0 });
    NalUnit { header, body }
}

/// A slice header; a reference at each delta.
fn slice_header(poc_lsb: u32, deltas: &[i32]) -> SliceHeader {
    let n = deltas.len() as u32;
    SliceHeader {
        pps_id: 0,
        dependent_slice_segment: false,
        segment_address: 0,
        slice_type: if n == 0 { SliceType::I } else { SliceType::P },
        pic_output_flag: true,
        no_output_of_prior_pics: false,
        poc_lsb,
        st_rps: StRps { neg: deltas.iter().map(|&d| (d, true)).collect(), pos: Vec::new() },
        long_term: Vec::new(),
        num_pic_total_curr: n,
        num_ref_idx_l0_active: n,
        num_ref_idx_l1_active: 0,
        ref_pic_list_modification_l0: None,
        ref_pic_list_modification_l1: None,
        cb_qp_offset: 0,
        cr_qp_offset: 0,
    }
}

fn slice_unit(first: bool, sh: SliceHeader) -> SliceUnit {
    let tiles = TileLayout { rs_to_ts: vec![0], tile_id: vec![0] };
    SliceUnit { first, header: Ok(sh), tiles: Ok(tiles) }
}

fn slice(id: u8, sh: SliceHeader) -> NalUnit {
    nal(id, NalBody::Slice(slice_unit(true, sh)))
}

/// A decoder with its parameter sets, that stops at slice headers.
fn decoder(reorder: u32) -> Decoder {
    let mut d = Decoder::new();
    d.headers_only = true;
    d.push_nal(nal(NAL_VPS, NalBody::Vps(Ok(Vps { id: 0 }))), None).unwrap();
    d.push_nal(nal(NAL_SPS, NalBody::Sps(Ok(sps(reorder)))), None).unwrap();
    d.push_nal(nal(NAL_PPS, NalBody::Pps(Ok(pps()))), None).unwrap();
    d
}

/// The counts of the queued frames.
fn frames(d: &mut Decoder) -> Vec<i32> {
    let mut out = Vec::new();
    while let Ok(f) = d.next_frame() {
        out.push(f.poc);
    }
    out
}

fn text<T>(r: Result<T, Error>) -> String {
    r.err().unwrap().message()
}

#[test]
fn frames_come_out_in_output_order() {
    let mut d = decoder(1);
    d.push_nal(slice(IDR, slice_header(0, &[])), Some(40)).unwrap();
    assert_eq!(d.next_frame().err().unwrap(), Error::Again);
    d.push_nal(slice(TRAIL_R, slice_header(2, &[-2])), None).unwrap();
    assert_eq!(frames(&mut d), vec![], "one picture may be reordered");
    d.push_nal(slice(TRAIL_N, slice_header(1, &[-1])), None).unwrap();
    let f = d.next_frame().unwrap();
    assert_eq!((f.poc, f.pts, f.width, f.height), (0, Some(40), 16, 16));
    d.flush();
    assert_eq!(frames(&mut d), vec![1, 2]);
    assert_eq!(d.dpb().len(), 0);
    assert_eq!((d.stats.pictures, d.stats.slices, d.stats.errors), (3, 3, 0));
    assert!(d.current().is_none());
}

#[test]
fn the_latency_limit_forces_output() {
    let mut d = Decoder::new();
    d.headers_only = true;
    let mut s = sps(2);
    for o in s.ordering.iter_mut() {
        o.max_latency_increase_plus1 = 1;
    }
    d.push_nal(nal(NAL_SPS, NalBody::Sps(Ok(s))), None).unwrap();
    d.push_nal(nal(NAL_PPS, NalBody::Pps(Ok(pps()))), None).unwrap();
    d.push_nal(slice(IDR, slice_header(0, &[])), None).unwrap();
    d.push_nal(slice(TRAIL_R, slice_header(4, &[-4])), None).unwrap();
    d.push_nal(slice(TRAIL_R, slice_header(2, &[-2])), None).unwrap();
    assert_eq!(frames(&mut d), vec![]);
    d.push_nal(slice(TRAIL_R, slice_header(3, &[-1])), None).unwrap();
    assert_eq!(frames(&mut d), vec![0], "two pictures came after it");
}

#[test]
fn slices_become_tasks() {
    let mut d = decoder(0);
    d.headers_only = false;
    let t = d.push_nal(slice(IDR, slice_header(0, &[])), None).unwrap().unwrap();
    assert_eq!((t.slice_idx, t.header.poc_lsb), (0, 0));
    let mut second = slice_header(0, &[]);
    second.segment_address = 5;
    let t = d
        .push_nal(nal(IDR, NalBody::Slice(slice_unit(false, second))), None)
        .unwrap()
        .unwrap();
    assert_eq!(t.slice_idx, 1);
    let cur = d.current().unwrap();
    assert_eq!((cur.slice_segments, cur.slice_addr_rs, cur.headers.len()), (2, 5, 2));
    assert_eq!(d.previous_header().unwrap().segment_address, 5);
    let mut p = d.lend_picture().unwrap();
    assert!(d.current().is_none() && p.is_valid());
    p.pic.planes[0].set(3, 2, 255);
    assert!(p.is_valid());
    p.pic.planes[0].set(3, 2, 256);
    assert!(!p.is_valid(), "more than eight bits");
    p.pic.planes[0].set(3, 2, 77);
    d.return_picture(p);
    assert!(d.finish_slice(Ok(())).is_ok());
    assert!(!d.current().unwrap().errored);
    assert_eq!(text(d.finish_slice(Err(Error::invalid("x")))), "invalid data: x");
    assert!(d.current().unwrap().errored);
    d.flush();
    let f = d.next_frame().unwrap();
    assert_eq!(f.picture.motion16.len(), 1);
    assert_eq!(f.picture.planes[0].get(3, 2), 77);
}

#[test]
fn a_dependent_segment_keeps_the_header_before_it() {
    let mut d = decoder(0);
    d.push_nal(slice(IDR, slice_header(0, &[])), None).unwrap();
    let mut dep = slice_header(0, &[]);
    dep.dependent_slice_segment = true;
    dep.segment_address = 9;
    d.push_nal(nal(IDR, NalBody::Slice(slice_unit(false, dep))), None).unwrap();
    assert_eq!(d.previous_header().unwrap().segment_address, 0);
    assert_eq!(d.current().unwrap().slice_addr_rs, 0);
}

#[test]
fn a_cra_after_the_end_of_sequence_discards() {
    let mut d = decoder(2);
    d.push_nal(slice(IDR, slice_header(0, &[])), None).unwrap();
    d.push_nal(nal(NAL_EOS, NalBody::Other), None).unwrap();
    assert!(d.current().is_none());
    assert_eq!(frames(&mut d), vec![], "the end of a sequence outputs nothing");
    d.push_nal(slice(CRA, slice_header(3, &[])), None).unwrap();
    d.flush();
    assert_eq!(frames(&mut d), vec![3]);
}

#[test]
fn an_idr_outputs_what_waits_or_discards_it() {
    let mut d = decoder(2);
    d.push_nal(slice(IDR, slice_header(0, &[])), None).unwrap();
    d.push_nal(slice(IDR, slice_header(0, &[])), None).unwrap();
    assert_eq!(frames(&mut d), vec![0]);
    let mut sh = slice_header(0, &[]);
    sh.no_output_of_prior_pics = true;
    d.push_nal(slice(IDR, sh), None).unwrap();
    assert_eq!(frames(&mut d), vec![]);
    d.flush();
    assert_eq!(frames(&mut d), vec![0]);
}

#[test]
fn leading_pictures_of_the_first_cra_are_skipped() {
    let mut d = decoder(2);
    d.push_nal(slice(TRAIL_R, slice_header(1, &[-1])), None).unwrap();
    assert!(d.current().is_none(), "the stream does not start with an IRAP picture");
    d.push_nal(slice(CRA, slice_header(8, &[])), None).unwrap();
    assert_eq!(d.current().unwrap().poc, 8);
    d.push_nal(slice(RASL_N, slice_header(6, &[-2])), None).unwrap();
    assert!(d.current().is_none());
    let more = nal(RASL_N, NalBody::Slice(slice_unit(false, slice_header(6, &[-2]))));
    d.push_nal(more, None).unwrap();
    d.push_nal(slice(TRAIL_R, slice_header(9, &[-1])), None).unwrap();
    d.flush();
    assert_eq!(frames(&mut d), vec![8, 9]);
    assert_eq!(d.stats.skipped_rasl, 1);
}

#[test]
fn missing_references_are_generated() {
    let mut d = decoder(2);
    d.push_nal(slice(IDR, slice_header(0, &[])), None).unwrap();
    d.push_nal(slice(TRAIL_R, slice_header(5, &[-5, -2])), None).unwrap();
    assert_eq!(d.stats.generated_refs, 1);
    let grey = d.dpb().iter().find(|e| e.poc == 3).unwrap();
    assert!(!grey.needed_for_output && !grey.output_flag);
    assert!(grey.pic.planes[0].data.iter().all(|&v| v == 128));
    let cur = d.current().unwrap();
    let l0: Vec<i32> = cur.ref_lists[0].l0.iter().map(|r| r.poc).collect();
    assert_eq!(l0, vec![0, 3]);
    assert_eq!(cur.num_refs, 2);
    d.flush();
    assert_eq!(frames(&mut d), vec![0, 5], "a generated picture is never output");
}

#[test]
fn the_count_wraps_with_its_low_bits() {
    let mut d = decoder(0);
    d.push_nal(slice(IDR, slice_header(0, &[])), None).unwrap();
    for lsb in [6u32, 12, 2, 8] {
        d.push_nal(slice(TRAIL_R, slice_header(lsb, &[-6])), None).unwrap();
    }
    d.flush();
    assert_eq!(frames(&mut d), vec![0, 6, 12, 18, 24]);
}

#[test]
fn other_layers_are_ignored() {
    let mut d = decoder(0);
    let header = Some(NalHeader { nal_type: NalType { id: IDR }, layer_id: 1, temporal_id: 0 });
    let r = d.push_nal(
        NalUnit { header, body: NalBody::Slice(slice_unit(true, slice_header(0, &[]))) },
        Some(5),
    );
    assert!(r.unwrap().is_none());
    assert!(d.current().is_none());
    assert!(d.push_nal(nal(NAL_AUD, NalBody::Other), None).unwrap().is_none());
    assert!(d.push_nal(nal(22, NalBody::Other), None).unwrap().is_none(), "a reserved type");
    d.push_nal(slice(IDR, slice_header(0, &[])), None).unwrap();
    assert_eq!(d.current().unwrap().pts, Some(5), "the time stamp waited");
}

#[test]
fn refused_units() {
    let mut d = decoder(0);
    let r = d.push_nal(NalUnit { header: None, body: NalBody::Other }, None);
    assert_eq!(text(r), "invalid data: bad NAL header");
    let r = d.push_nal(nal(NAL_SPS, NalBody::Sps(Err(Error::invalid("bad SPS")))), None);
    assert_eq!(text(r), "invalid data: bad SPS");
    let r = d.push_nal(nal(NAL_PPS, NalBody::Pps(Err(Error::invalid("bad PPS")))), None);
    assert_eq!(text(r), "invalid data: bad PPS");
    let r = d.push_nal(nal(NAL_VPS, NalBody::Vps(Err(Error::invalid("bad VPS")))), None);
    assert_eq!(text(r), "invalid data: bad VPS");
    let later = |sh| nal(TRAIL_R, NalBody::Slice(slice_unit(false, sh)));
    let r = d.push_nal(later(slice_header(0, &[])), None);
    assert_eq!(text(r), "invalid data: slice without a first slice segment");
    let mut sh = slice_header(0, &[]);
    sh.pps_id = 7;
    assert_eq!(text(d.push_nal(slice(IDR, sh), None)), "invalid data: PPS");
    let mut lone = pps();
    lone.id = 7;
    lone.sps_id = 3;
    d.push_nal(nal(NAL_PPS, NalBody::Pps(Ok(lone))), None).unwrap();
    let mut sh = slice_header(0, &[]);
    sh.pps_id = 7;
    assert_eq!(text(d.push_nal(slice(IDR, sh), None)), "invalid data: SPS");
    let mut unit = slice_unit(true, slice_header(0, &[]));
    unit.tiles = Err(Error::invalid("tile columns"));
    let r = d.push_nal(nal(IDR, NalBody::Slice(unit)), None);
    assert_eq!(text(r), "invalid data: tile columns");
    let mut unit = slice_unit(true, slice_header(0, &[]));
    unit.header = Err(Error::invalid("slice header"));
    let r = d.push_nal(nal(IDR, NalBody::Slice(unit)), None);
    assert_eq!(text(r), "invalid data: slice header");
}

#[test]
fn slices_of_a_picture_share_their_parameter_sets() {
    let mut d = decoder(0);
    let mut other = pps();
    other.id = 1;
    d.push_nal(nal(NAL_PPS, NalBody::Pps(Ok(other))), None).unwrap();
    d.push_nal(slice(IDR, slice_header(0, &[])), None).unwrap();
    let mut sh = slice_header(0, &[]);
    sh.pps_id = 1;
    let r = d.push_nal(nal(IDR, NalBody::Slice(slice_unit(false, sh))), None);
    assert_eq!(text(r), "invalid data: slice PPS differs within a picture");
}

#[test]
fn a_sequence_keeps_its_parameter_set() {
    let mut d = decoder(0);
    d.push_nal(slice(IDR, slice_header(0, &[])), None).unwrap();
    let mut s = sps(0);
    s.id = 1;
    let mut p = pps();
    p.id = 1;
    p.sps_id = 1;
    d.push_nal(nal(NAL_SPS, NalBody::Sps(Ok(s))), None).unwrap();
    d.push_nal(nal(NAL_PPS, NalBody::Pps(Ok(p))), None).unwrap();
    let mut sh = slice_header(1, &[-1]);
    sh.pps_id = 1;
    let r = d.push_nal(slice(TRAIL_R, sh), None);
    assert_eq!(text(r), "invalid data: SPS changed outside an IRAP");
    let mut sh = slice_header(0, &[]);
    sh.pps_id = 1;
    d.push_nal(slice(IDR, sh), None).unwrap();
}

#[test]
fn scope_refusals() {
    assert!(check_scope(&sps(0), &pps()).is_ok());
    let with = |f: &dyn Fn(&mut Sps)| {
        let mut s = sps(0);
        f(&mut s);
        text(check_scope(&s, &pps()))
    };
    assert_eq!(
        with(&|s| s.profile = 4),
        "unsupported: general_profile_idc 4 (only Main / Main 10 / Main Still Picture)"
    );
    assert_eq!(
        with(&|s| s.chroma_format_idc = 2),
        "unsupported: chroma_format_idc 2 (only 4:2:0)"
    );
    assert_eq!(with(&|s| s.bit_depth_luma = 12), "unsupported: bit depth 12/8 (max 10)");
    assert_eq!(
        with(&|s| s.scc_extension = true),
        "unsupported: SPS extensions (RExt/SHVC/3D/SCC)"
    );
    assert_eq!(with(&|s| s.id = 2), "invalid data: PPS/SPS id mismatch");
    assert_eq!(with(&|s| s.width = 16896), "unsupported: picture larger than level 6.2");
    assert_eq!(
        with(&|s| {
            s.width = 16888;
            s.height = 4096;
        }),
        "unsupported: picture larger than level 6.2"
    );
    let mut p = pps();
    p.range_extension = true;
    assert_eq!(
        text(check_scope(&sps(0), &p)),
        "unsupported: PPS extensions (RExt/SHVC/3D/SCC)"
    );
}

#[test]
fn parameter_sets_are_looked_up() {
    let d = decoder(0);
    let (s, p) = d.lookup(0).unwrap();
    assert_eq!((s.width, p.sps_id), (16, 0));
    assert!(d.lookup(1).is_none());
    assert!(d.lookup(200).is_none());
    assert!(Decoder::default().lookup(0).is_none());
    assert_eq!(Decoder::default().stats, Stats::default());
}

#[test]
fn a_chunk_reports_its_first_error() {
    let mut d = decoder(0);
    let mut chunk = Chunk::new(Some(9));
    assert!(d.push_annexb(&mut chunk, slice(IDR, slice_header(0, &[]))).is_none());
    assert_eq!(chunk.pts, None, "the first unit takes the time stamp");
    let bad = |t: &str| nal(NAL_SPS, NalBody::Sps(Err(Error::invalid(t))));
    assert!(d.push_annexb(&mut chunk, bad("one")).is_none());
    assert!(d.push_annexb(&mut chunk, bad("two")).is_none());
    d.finish_chunk_slice(&mut chunk, Err(Error::invalid("three")));
    d.finish_chunk_slice(&mut chunk, Ok(()));
    assert_eq!(d.stats.errors, 3);
    assert!(d.current().unwrap().errored);
    assert_eq!(text(chunk.finish()), "invalid data: one");
    d.flush();
    assert_eq!(d.next_frame().unwrap().pts, Some(9));
    assert!(Chunk::new(None).finish().is_ok());
    assert!(!d.succeeded(1), "there were errors");
    assert!(!decoder(0).succeeded(0), "there were no frames");
    assert!(decoder(0).succeeded(1));
}

/// The time stamps of the queued frames.
fn stamps(d: &mut Decoder) -> Vec<(i32, Option<i64>)> {
    let mut out = Vec::new();
    while let Ok(f) = d.next_frame() {
        out.push((f.poc, f.pts));
    }
    out
}

#[test]
fn a_time_stamp_belongs_to_its_picture_alone() {
    for pts in [None, Some(77)] {
        let mut d = decoder(2);
        d.push_nal(slice(CRA, slice_header(8, &[])), Some(1)).unwrap();
        let mut a = Chunk::new(Some(10));
        d.push_annexb(&mut a, slice(RASL_N, slice_header(6, &[-2])));
        assert!(a.finish().is_ok());
        let mut b = Chunk::new(pts);
        d.push_annexb(&mut b, slice(TRAIL_R, slice_header(9, &[-1])));
        assert!(b.finish().is_ok());
        d.flush();
        assert_eq!(stamps(&mut d), vec![(8, Some(1)), (9, pts)], "the skipped one took 10");
    }
    let mut d = decoder(2);
    d.push_nal(slice(TRAIL_R, slice_header(1, &[-1])), Some(10)).unwrap();
    d.push_nal(slice(IDR, slice_header(0, &[])), None).unwrap();
    d.flush();
    assert_eq!(stamps(&mut d), vec![(0, None)], "skipped before the first IRAP picture");
}

#[test]
fn a_refused_picture_takes_its_time_stamp_with_it() {
    let mut d = decoder(0);
    d.push_nal(slice(IDR, slice_header(0, &[])), Some(1)).unwrap();
    let mut sh = slice_header(1, &[-1]);
    sh.pps_id = 7;
    assert!(d.push_nal(slice(TRAIL_R, sh), Some(2)).is_err());
    d.push_nal(slice(TRAIL_R, slice_header(2, &[-2])), None).unwrap();
    let unread = SliceUnit {
        first: true,
        header: Err(Error::invalid("x")),
        tiles: Err(Error::invalid("x")),
    };
    assert!(d.push_nal(nal(TRAIL_R, NalBody::Slice(unread)), Some(3)).is_err());
    d.push_nal(slice(TRAIL_R, slice_header(4, &[-2])), None).unwrap();
    let mut unit = slice_unit(true, slice_header(5, &[-1]));
    unit.tiles = Err(Error::invalid("tiles"));
    assert!(d.push_nal(nal(TRAIL_R, NalBody::Slice(unit)), Some(4)).is_err());
    d.push_nal(slice(TRAIL_R, slice_header(6, &[-2])), None).unwrap();
    d.flush();
    let expected = vec![(0, Some(1)), (2, None), (4, None), (6, None)];
    assert_eq!(stamps(&mut d), expected);
}

#[test]
fn a_time_stamp_may_come_with_a_later_segment() {
    let mut d = decoder(0);
    let later = || nal(IDR, NalBody::Slice(slice_unit(false, slice_header(0, &[]))));
    d.push_nal(slice(IDR, slice_header(0, &[])), None).unwrap();
    d.push_nal(later(), Some(5)).unwrap();
    d.push_nal(later(), Some(6)).unwrap();
    d.push_nal(slice(TRAIL_R, slice_header(1, &[-1])), None).unwrap();
    d.flush();
    assert_eq!(stamps(&mut d), vec![(0, Some(5)), (1, None)]);
    assert!(d.push_nal(later(), Some(9)).is_err(), "no picture is in flight");
    d.push_nal(slice(IDR, slice_header(0, &[])), None).unwrap();
    d.flush();
    assert_eq!(stamps(&mut d), vec![(0, None)]);
}

#[test]
fn a_chunk_does_what_its_units_do() {
    let units = |i: usize| match i {
        0 => slice(IDR, slice_header(0, &[])),
        1 => nal(NAL_SPS, NalBody::Sps(Err(Error::invalid("one")))),
        2 => slice(TRAIL_R, slice_header(1, &[-1])),
        3 => NalUnit { header: None, body: NalBody::Other },
        _ => slice(TRAIL_R, slice_header(2, &[-1])),
    };
    let mut d = decoder(0);
    let mut chunk = Chunk::new(Some(3));
    for i in 0..5 {
        d.push_annexb(&mut chunk, units(i));
    }
    let mut alone = decoder(0);
    let mut results = Vec::new();
    for i in 0..5 {
        results.push(alone.push_nal(units(i), if i == 0 { Some(3) } else { None }).map(|_| ()));
    }
    assert_eq!(text(chunk.finish()), text(results[1].clone()));
    assert_eq!(results.iter().filter(|r| r.is_err()).count(), 2);
    assert_eq!(d.stats, Stats { errors: 2, ..alone.stats });
    d.flush();
    alone.flush();
    let expected = vec![(0, Some(3)), (1, None), (2, None)];
    assert_eq!(stamps(&mut d), expected);
    assert_eq!(stamps(&mut alone), expected);
}

#[test]
fn a_second_flush_changes_nothing() {
    let mut d = decoder(2);
    d.push_nal(slice(IDR, slice_header(0, &[])), Some(4)).unwrap();
    d.push_nal(slice(TRAIL_R, slice_header(2, &[-2])), None).unwrap();
    d.flush();
    let stats = d.stats;
    d.flush();
    assert_eq!(d.stats, stats);
    assert!(d.dpb().is_empty() && d.current().is_none());
    assert_eq!(stamps(&mut d), vec![(0, Some(4)), (2, None)]);
}

#[test]
fn the_end_of_a_sequence_alone_changes_nothing_else() {
    let mut d = decoder(2);
    d.push_nal(slice(IDR, slice_header(0, &[])), None).unwrap();
    d.push_nal(slice(TRAIL_R, slice_header(7, &[-7])), None).unwrap();
    d.push_nal(nal(NAL_EOS, NalBody::Other), None).unwrap();
    let (stats, held) = (d.stats, d.dpb().len());
    d.push_nal(nal(NAL_EOS, NalBody::Other), None).unwrap();
    assert_eq!((d.stats, d.dpb().len()), (stats, held));
    d.push_nal(slice(TRAIL_R, slice_header(9, &[-2])), None).unwrap();
    assert!(d.current().is_none(), "skipped until an IRAP picture comes");
    d.push_nal(slice(CRA, slice_header(3, &[])), None).unwrap();
    assert_eq!(d.current().unwrap().poc, 3, "the count starts anew");
    d.push_nal(slice(TRAIL_R, slice_header(5, &[-2])), None).unwrap();
    d.push_nal(slice(RASL_N, slice_header(2, &[-1])), None).unwrap();
    assert!(d.current().is_none());
    assert_eq!(d.stats.skipped_rasl, 1);
}

#[test]
fn flushing_appends_to_what_is_queued() {
    let mut d = decoder(1);
    d.push_nal(slice(IDR, slice_header(0, &[])), None).unwrap();
    d.push_nal(slice(TRAIL_R, slice_header(4, &[-4])), None).unwrap();
    d.push_nal(slice(TRAIL_R, slice_header(2, &[-2])), None).unwrap();
    d.push_nal(slice(TRAIL_R, slice_header(3, &[-1])), None).unwrap();
    d.flush();
    assert_eq!(frames(&mut d), vec![0, 2, 3, 4], "0 and 2 were queued before");
}

#[test]
fn a_hash_that_belongs_to_no_picture_is_dropped() {
    let mut d = decoder(0);
    d.verify_sei = true;
    d.push_nal(nal(NAL_SUFFIX_SEI, NalBody::Sei(Some(hash(0)))), None).unwrap();
    d.push_nal(slice(IDR, slice_header(0, &[])), None).unwrap();
    d.push_nal(nal(NAL_EOS, NalBody::Other), None).unwrap();
    d.push_nal(nal(NAL_SUFFIX_SEI, NalBody::Sei(Some(hash(0)))), None).unwrap();
    d.push_nal(slice(CRA, slice_header(8, &[])), None).unwrap();
    // A prefix hash of a skipped picture is not the next picture's.
    d.push_nal(nal(NAL_PREFIX_SEI, NalBody::Sei(Some(hash(1)))), None).unwrap();
    d.push_nal(slice(RASL_N, slice_header(6, &[-2])), None).unwrap();
    d.push_nal(nal(NAL_SUFFIX_SEI, NalBody::Sei(Some(hash(2)))), None).unwrap();
    d.push_nal(slice(TRAIL_R, slice_header(9, &[-1])), None).unwrap();
    d.flush();
    assert!(d.next_hash_check().is_none());
    assert_eq!((d.stats.sei_checked, d.stats.sei_mismatch), (0, 0));
    assert!(d.sei_results.is_empty());
    assert_eq!(d.stats.skipped_rasl, 1);
}

fn hash(method: u8) -> PictureHash {
    PictureHash { method, digest: [vec![1], vec![2], vec![3]] }
}

#[test]
fn picture_hashes_wait_for_their_comparison() {
    let mut d = decoder(0);
    d.verify_sei = true;
    assert_eq!(d.first_sei(), "none");
    d.push_nal(nal(NAL_PREFIX_SEI, NalBody::Sei(Some(hash(0)))), None).unwrap();
    d.push_nal(slice(IDR, slice_header(0, &[])), None).unwrap();
    assert_eq!(d.current().unwrap().expected_hash.as_ref().unwrap().method, 0);
    d.push_nal(nal(NAL_SUFFIX_SEI, NalBody::Sei(Some(hash(2)))), None).unwrap();
    d.push_nal(nal(NAL_SUFFIX_SEI, NalBody::Sei(None)), None).unwrap();
    d.push_nal(slice(TRAIL_R, slice_header(1, &[-1])), None).unwrap();
    d.push_nal(nal(NAL_SUFFIX_SEI, NalBody::Sei(Some(hash(1)))), None).unwrap();
    d.flush();
    assert_eq!(d.stats.sei_checked, 2);
    let check = d.next_hash_check().unwrap();
    assert_eq!((check.poc, check.hash.method), (0, 2), "the suffix replaced the prefix");
    d.hash_checked(false);
    assert_eq!(d.next_hash_check().unwrap().poc, 1);
    d.hash_checked(true);
    assert!(d.next_hash_check().is_none());
    d.hash_checked(true);
    assert_eq!(d.sei_results, vec![(0, false), (1, true)]);
    assert_eq!((d.stats.sei_checked, d.stats.sei_mismatch), (2, 1));
    assert_eq!(d.first_sei(), "bad");
}

#[test]
fn hashes_are_ignored_unless_asked_for() {
    let mut d = decoder(0);
    d.push_nal(nal(NAL_PREFIX_SEI, NalBody::Sei(Some(hash(0)))), None).unwrap();
    d.push_nal(slice(IDR, slice_header(0, &[])), None).unwrap();
    d.push_nal(nal(NAL_SUFFIX_SEI, NalBody::Sei(Some(hash(2)))), None).unwrap();
    d.flush();
    assert!(d.next_hash_check().is_none());
    assert_eq!(d.stats.sei_checked, 0);
}

#[test]
fn draining_writes_every_frame() {
    let mut d = decoder(0);
    let mut out = vec![1u8];
    assert_eq!(d.drain(&mut out), ((0, 0, 0), 0));
    d.push_nal(slice(IDR, slice_header(0, &[])), None).unwrap();
    d.push_nal(slice(TRAIL_R, slice_header(1, &[-1])), None).unwrap();
    d.flush();
    let (geometry, n) = d.drain(&mut out);
    assert_eq!((geometry, n), ((16, 16, 8), 2));
    assert_eq!(out.len(), 1 + 2 * 16 * 16 * 3 / 2);
    assert_eq!(out[0], 1);
    assert_eq!(d.next_frame().err().unwrap(), Error::Again);
}

#[test]
fn the_conformance_window_crops() {
    let mut d = Decoder::new();
    d.headers_only = true;
    let mut s = sps(0);
    s.conf_win = [1, 2, 0, 3];
    d.push_nal(nal(NAL_SPS, NalBody::Sps(Ok(s))), None).unwrap();
    d.push_nal(nal(NAL_PPS, NalBody::Pps(Ok(pps()))), None).unwrap();
    d.push_nal(slice(IDR, slice_header(0, &[])), None).unwrap();
    d.flush();
    let f = d.next_frame().unwrap();
    assert_eq!((f.width, f.height), (10, 10));
    assert_eq!(f.picture.crop, (2, 0, 10, 10));
}

#[test]
fn long_term_references_by_their_low_bits() {
    let mut d = decoder(0);
    d.push_nal(slice(IDR, slice_header(0, &[])), None).unwrap();
    d.push_nal(slice(TRAIL_R, slice_header(1, &[-1])), None).unwrap();
    let mut sh = slice_header(2, &[-1]);
    sh.long_term = vec![LongTermRef {
        poc_lsb: 0,
        used_by_curr_pic: true,
        delta_poc_msb_present: false,
        delta_poc_msb_cycle: 0,
    }];
    sh.num_pic_total_curr = 2;
    sh.num_ref_idx_l0_active = 3;
    d.push_nal(slice(TRAIL_R, sh), None).unwrap();
    let l0 = &d.current().unwrap().ref_lists[0].l0;
    let seen: Vec<(i32, bool)> = l0.iter().map(|r| (r.poc, r.is_long_term)).collect();
    assert_eq!(seen, vec![(1, false), (0, true), (1, false)], "the list repeats");
}

#[test]
fn an_output_frame_shares_its_picture() {
    let mut d = decoder(0);
    d.push_nal(slice(IDR, slice_header(0, &[])), None).unwrap();
    d.push_nal(slice(TRAIL_R, slice_header(1, &[-1])), None).unwrap();
    let f = d.next_frame().unwrap();
    let stored: &Arc<Picture> = &d.dpb()[0].pic;
    assert!(Arc::ptr_eq(&f.picture, stored));
    assert!(Arc::ptr_eq(&d.current().unwrap().ref_lists[0].l0[0].pic, stored));
}

#[test]
fn every_picture_comes_out_once() {
    let mut d = decoder(2);
    let mut seen = Vec::new();
    d.push_nal(slice(IDR, slice_header(0, &[])), None).unwrap();
    for lsb in [8u32, 4, 2, 6, 14, 12, 10] {
        let mut sh = slice_header(lsb, &[-1]);
        sh.pic_output_flag = lsb != 6;
        d.push_nal(slice(TRAIL_R, sh), None).unwrap();
        seen.extend(frames(&mut d));
    }
    d.flush();
    seen.extend(frames(&mut d));
    seen.sort();
    assert_eq!(seen, vec![0, 2, 4, 8, 10, 12, 14]);
}

#[test]
fn units_are_checked_before_they_are_fed() {
    let d = decoder(0);
    assert!(d.accepts(&slice(IDR, slice_header(0, &[]))));
    assert!(!d.accepts(&slice(IDR, slice_header(16, &[]))), "four bits of the count");
    let mut sh = slice_header(0, &[]);
    sh.pps_id = 64;
    assert!(!d.accepts(&slice(IDR, sh)));
    let mut sh = slice_header(0, &[-1]);
    sh.ref_pic_list_modification_l0 = Some(Vec::new());
    assert!(!d.accepts(&slice(TRAIL_R, sh)));
    let mut sh = slice_header(0, &[]);
    sh.num_pic_total_curr = 1;
    sh.slice_type = SliceType::P;
    assert!(!d.accepts(&slice(TRAIL_R, sh)));
    let mut sh = slice_header(0, &[-1]);
    sh.num_ref_idx_l1_active = 2;
    sh.ref_pic_list_modification_l1 = Some(Vec::new());
    assert!(d.accepts(&slice(TRAIL_R, sh)), "a P slice has one list");
    let mut sh = slice_header(0, &[-1]);
    sh.slice_type = SliceType::B;
    sh.num_ref_idx_l1_active = 2;
    sh.ref_pic_list_modification_l1 = Some(Vec::new());
    assert!(!d.accepts(&slice(TRAIL_R, sh)));
    let mut unit = slice_unit(true, slice_header(0, &[]));
    unit.tiles = Ok(TileLayout { rs_to_ts: vec![1], tile_id: vec![0] });
    assert!(!d.accepts(&nal(IDR, NalBody::Slice(unit))));
    assert!(!d.accepts(&nal(IDR, NalBody::Other)), "not what the type holds");
    assert!(d.accepts(&nal(NAL_AUD, NalBody::Other)));
    assert!(d.accepts(&NalUnit { header: None, body: NalBody::Other }));
    let mut s = sps(0);
    s.width = 20;
    assert!(!d.accepts(&nal(NAL_SPS, NalBody::Sps(Ok(s)))));
    let mut p = pps();
    p.cb_qp_offset = 13;
    assert!(!d.accepts(&nal(NAL_PPS, NalBody::Pps(Ok(p)))));
    assert!(!d.accepts(&nal(NAL_VPS, NalBody::Vps(Ok(Vps { id: 16 })))));
    let mut full = decoder(0);
    full.stats.slices = u64::MAX;
    assert!(!full.room_left() && !full.accepts(&nal(NAL_AUD, NalBody::Other)));
}

#[test]
fn tile_layouts_are_permutations() {
    let layout = |a: Vec<u32>| TileLayout { tile_id: vec![0; a.len()], rs_to_ts: a };
    assert!(layout(vec![2, 0, 1]).is_valid(3));
    assert!(!layout(vec![2, 0, 2]).is_valid(3));
    assert!(!layout(vec![3, 0, 1]).is_valid(3));
    assert!(!layout(vec![1, 0]).is_valid(3));
}
