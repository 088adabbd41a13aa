use rusty_h265::dpb::{
    bump, drop_unused, find_missing, find_ref, find_short_term, flush_dpb_output,
    generate_picture, mark_references, settle, unmark_all, DpbEntry, RefMark,
};
use rusty_h265::error::Error;
use rusty_h265::frame::{Frame, Picture};
use rusty_h265::ps::{Sps, SubLayerOrder};
use rusty_h265::reflists::build_ref_lists;
use rusty_h265::rps::{derive_rps, low_bits, picture_poc};
use rusty_h265::slice::{LongTermRef, SliceHeader, SliceType, StRps};
use std::collections::VecDeque;
use std::sync::Arc;

fn entry(poc: i32, mark: RefMark, waiting: bool) -> DpbEntry {
    DpbEntry {
        pic: Arc::new(Picture::new(8, 8, 1, 8, 8)),
        poc,
        mark,
        needed_for_output: waiting,
        pic_latency: 0,
        pts: Some(poc as i64),
        output_flag: waiting,
    }
}

fn pocs(q: &VecDeque<Frame>) -> Vec<i32> {
    q.iter().map(|f| f.poc).collect()
}

fn header() -> SliceHeader {
    SliceHeader {
        pps_id: 0,
        dependent_slice_segment: false,
        segment_address: 0,
        slice_type: SliceType::P,
        pic_output_flag: true,
        no_output_of_prior_pics: false,
        poc_lsb: 0,
        st_rps: StRps { neg: Vec::new(), pos: Vec::new() },
        long_term: Vec::new(),
        num_pic_total_curr: 0,
        num_ref_idx_l0_active: 0,
        num_ref_idx_l1_active: 0,
        ref_pic_list_modification_l0: None,
        ref_pic_list_modification_l1: None,
        cb_qp_offset: 0,
        cr_qp_offset: 0,
    }
}

fn long(poc_lsb: u32, used: bool, msb: Option<u32>) -> LongTermRef {
    LongTermRef {
        poc_lsb,
        used_by_curr_pic: used,
        delta_poc_msb_present: msb.is_some(),
        delta_poc_msb_cycle: msb.unwrap_or(0),
    }
}

#[test]
fn a_bump_outputs_the_smallest_count() {
    let mut d = vec![
        entry(8, RefMark::ShortTerm, true),
        entry(3, RefMark::Unused, true),
        entry(1, RefMark::ShortTerm, false),
    ];
    let mut q = VecDeque::new();
    bump(&mut d, &mut q);
    assert_eq!(pocs(&q), vec![3]);
    assert_eq!(q[0].pts, Some(3));
    assert_eq!(d.len(), 2, "what is no reference leaves");
    bump(&mut d, &mut q);
    assert_eq!(pocs(&q), vec![3, 8]);
    assert_eq!(d.len(), 2, "a reference stays");
    assert!(!d[0].needed_for_output);
    bump(&mut d, &mut q);
    assert_eq!(pocs(&q), vec![3, 8], "nothing waits");
}

#[test]
fn a_flush_outputs_everything_in_order() {
    let mut d = vec![
        entry(5, RefMark::ShortTerm, true),
        entry(-2, RefMark::Unused, true),
        entry(4, RefMark::LongTerm, false),
        entry(0, RefMark::ShortTerm, true),
    ];
    let mut q = VecDeque::new();
    q.push_back(Frame {
        picture: Arc::new(Picture::new(8, 8, 1, 8, 8)),
        poc: 99,
        pts: None,
        width: 8,
        height: 8,
    });
    flush_dpb_output(&mut d, &mut q);
    assert_eq!(pocs(&q), vec![99, -2, 0, 5]);
    assert!(d.is_empty());
}

#[test]
fn the_limits_of_the_buffer() {
    let order = |dpb: u32, reorder: u32, latency: u32| SubLayerOrder {
        max_dec_pic_buffering_minus1: dpb,
        max_num_reorder_pics: reorder,
        max_latency_increase_plus1: latency,
    };
    let make = || {
        vec![
            entry(6, RefMark::ShortTerm, true),
            entry(2, RefMark::ShortTerm, true),
            entry(4, RefMark::Unused, true),
        ]
    };
    let mut q = VecDeque::new();
    settle(&mut make(), &mut q, &order(9, 3, 0), false);
    assert_eq!(pocs(&q), vec![]);
    settle(&mut make(), &mut q, &order(9, 1, 0), false);
    assert_eq!(pocs(&q), vec![2, 4]);
    let mut q = VecDeque::new();
    let mut late = make();
    late[0].pic_latency = 4;
    settle(&mut late, &mut q, &order(9, 3, 2), false);
    assert_eq!(pocs(&q), vec![2, 4, 6], "until the late one is out");
    let mut q = VecDeque::new();
    let mut full = make();
    settle(&mut full, &mut q, &order(2, 3, 0), true);
    assert_eq!(pocs(&q), vec![2, 4], "until there is room");
    assert_eq!(full.len(), 2);
}

#[test]
fn what_is_of_no_use_is_dropped() {
    let mut d = vec![
        entry(0, RefMark::Unused, false),
        entry(1, RefMark::ShortTerm, false),
        entry(2, RefMark::Unused, true),
        entry(3, RefMark::Unused, false),
    ];
    drop_unused(&mut d);
    assert_eq!(d.iter().map(|e| e.poc).collect::<Vec<i32>>(), vec![1, 2]);
    unmark_all(&mut d);
    assert!(d.iter().all(|e| e.mark == RefMark::Unused));
}

#[test]
fn references_are_found_by_count_or_low_bits() {
    let d = vec![
        entry(19, RefMark::Unused, false),
        entry(35, RefMark::LongTerm, false),
        entry(3, RefMark::ShortTerm, false),
    ];
    assert_eq!(find_ref(&d, 3, false, 4), Some(2));
    assert_eq!(find_ref(&d, 3, true, 4), Some(1));
    assert_eq!(find_ref(&d, 19, false, 4), None);
    assert_eq!(find_short_term(&d, 3), Some(2));
    assert_eq!(find_short_term(&d, 35), None);
}

#[test]
fn the_reference_picture_set() {
    let mut sh = header();
    sh.st_rps.neg = vec![(-1, true), (-3, false)];
    sh.st_rps.pos = vec![(2, true)];
    sh.long_term = vec![long(5, true, None), long(1, true, Some(2)), long(6, false, None)];
    let r = derive_rps(4, &sh, 70);
    assert_eq!((r.before, r.after, r.foll), (vec![69], vec![72], vec![67]));
    // 70 − 2·16 − 6 + 1 = 33.
    assert_eq!(r.lt_curr, vec![(5, false), (33, true)]);
    assert_eq!(r.lt_foll, vec![(6, false)]);
}

#[test]
fn counts_reach_the_ends_of_their_range() {
    assert_eq!(picture_poc(false, i32::MAX - 1, 15, 4), i32::MAX);
    assert_eq!(picture_poc(false, i32::MIN, 0, 4), i32::MIN);
    assert_eq!(picture_poc(false, 0x4000_0000, 1, 4), 0x4000_0001);
    assert_eq!(picture_poc(false, -0x7fff_fff0, 14, 4), -0x7fff_fff2);
    let mut sh = header();
    sh.st_rps.neg = vec![(-1, true)];
    sh.st_rps.pos = vec![(2, true)];
    let r = derive_rps(4, &sh, i32::MAX - 2);
    assert_eq!((r.before, r.after), (vec![i32::MAX - 3], vec![i32::MAX]));
    sh.st_rps.pos = Vec::new();
    sh.long_term = vec![long(15, true, Some(0))];
    let r = derive_rps(4, &sh, i32::MIN + 1);
    assert_eq!((r.before, r.lt_curr), (vec![i32::MIN], vec![(i32::MIN + 15, true)]));
}

#[test]
fn marking_keeps_what_the_set_names() {
    let mut sh = header();
    sh.st_rps.neg = vec![(-1, true), (-4, false)];
    sh.long_term = vec![long(2, true, None)];
    let r = derive_rps(4, &sh, 20);
    let mut d = vec![
        entry(19, RefMark::ShortTerm, false),
        entry(18, RefMark::ShortTerm, true),
        entry(16, RefMark::ShortTerm, false),
        entry(17, RefMark::ShortTerm, false),
    ];
    mark_references(&mut d, &r, 4);
    let marks: Vec<RefMark> = d.iter().map(|e| e.mark).collect();
    assert_eq!(
        marks,
        vec![RefMark::ShortTerm, RefMark::LongTerm, RefMark::ShortTerm, RefMark::Unused]
    );
    assert_eq!(find_missing(&d, &r, 4), vec![]);
    d.remove(1);
    d.remove(0);
    assert_eq!(find_missing(&d, &r, 4), vec![(19, false), (2, true)]);
}

#[test]
fn counts_from_low_bits() {
    assert_eq!(low_bits(-1, 4), 15);
    assert_eq!(low_bits(37, 4), 5);
    assert_eq!(picture_poc(true, 100, 7, 4), 7);
    assert_eq!(picture_poc(false, 14, 1, 4), 17, "the next cycle");
    assert_eq!(picture_poc(false, 17, 14, 4), 14, "the cycle before");
    assert_eq!(picture_poc(false, 8, 0, 4), 16, "half a cycle back counts forward");
    assert_eq!(picture_poc(false, 0, 8, 4), 8, "half a cycle ahead does not count back");
    // The result has the low bits it was made from, near the count before.
    for prev in -40..40 {
        for lsb in 0..16u32 {
            let p = picture_poc(false, prev, lsb, 4);
            assert_eq!(low_bits(p, 4) as u32, lsb);
            assert!(-8 < p - prev && p - prev <= 8);
        }
    }
}

fn poc_list(sh: &SliceHeader, d: &Vec<DpbEntry>) -> Result<(Vec<i32>, Vec<i32>), Error> {
    build_ref_lists(d, sh, 10, 4).map(|l| {
        (l.l0.iter().map(|r| r.poc).collect(), l.l1.iter().map(|r| r.poc).collect())
    })
}

#[test]
fn lists_of_a_b_slice() {
    let d = vec![
        entry(8, RefMark::ShortTerm, false),
        entry(9, RefMark::ShortTerm, false),
        entry(12, RefMark::ShortTerm, false),
    ];
    let mut sh = header();
    sh.slice_type = SliceType::B;
    sh.st_rps.neg = vec![(-1, true), (-2, true)];
    sh.st_rps.pos = vec![(2, true)];
    sh.num_pic_total_curr = 3;
    sh.num_ref_idx_l0_active = 2;
    sh.num_ref_idx_l1_active = 4;
    assert_eq!(poc_list(&sh, &d).unwrap(), (vec![9, 8], vec![12, 9, 8, 12]));
    sh.ref_pic_list_modification_l0 = Some(vec![2, 2]);
    assert_eq!(poc_list(&sh, &d).unwrap().0, vec![12, 12]);
    sh.ref_pic_list_modification_l0 = Some(vec![3, 0]);
    assert_eq!(poc_list(&sh, &d).err().unwrap(), Error::invalid("list_entry out of range"));
    sh.slice_type = SliceType::P;
    sh.ref_pic_list_modification_l0 = None;
    assert_eq!(poc_list(&sh, &d).unwrap().1, vec![]);
}

#[test]
fn lists_need_their_references() {
    let d = vec![entry(9, RefMark::LongTerm, false)];
    let mut sh = header();
    assert_eq!(
        poc_list(&sh, &d).err().unwrap(),
        Error::invalid("no reference pictures for a P/B slice")
    );
    sh.st_rps.neg = vec![(-1, true)];
    sh.num_pic_total_curr = 1;
    sh.num_ref_idx_l0_active = 1;
    assert_eq!(
        poc_list(&sh, &d).err().unwrap(),
        Error::invalid("missing short-term reference POC 9")
    );
    sh.st_rps.neg = Vec::new();
    sh.long_term = vec![long(4, true, None)];
    assert_eq!(
        poc_list(&sh, &d).err().unwrap(),
        Error::invalid("missing long-term reference POC 4")
    );
    sh.long_term = vec![long(9, true, None)];
    assert_eq!(poc_list(&sh, &d).unwrap().0, vec![9]);
}

#[test]
fn a_generated_picture_is_grey() {
    let order = SubLayerOrder {
        max_dec_pic_buffering_minus1: 0,
        max_num_reorder_pics: 0,
        max_latency_increase_plus1: 0,
    };
    let sps = Sps {
        id: 0,
        profile: 2,
        width: 16,
        height: 8,
        chroma_format_idc: 1,
        bit_depth_luma: 10,
        bit_depth_chroma: 9,
        log2_max_poc_lsb: 4,
        max_sub_layers_minus1: 0,
        ordering: [order; 7],
        sub_width_c: 2,
        sub_height_c: 2,
        conf_win: [0; 4],
        log2_ctb_size: 4,
        pic_width_in_ctbs: 1,
        pic_height_in_ctbs: 1,
        log2_min_tb_size: 2,
        log2_max_tb_size: 4,
        max_transform_hierarchy_depth_inter: 0,
        qp_bd_offset_y: 12,
        qp_bd_offset_c: 6,
        sao_enabled: false,
        strong_intra_smoothing_enabled: false,
        scaling_list_enabled: false,
        scaling_list: None,
        range_extension: false,
        multilayer_extension: false,
        ext_3d: false,
        scc_extension: false,
    };
    let p = generate_picture(&sps, -4);
    assert_eq!(p.poc, -4);
    assert!(p.planes[0].data.iter().all(|&v| v == 512));
    assert!(p.planes[2].data.iter().all(|&v| v == 256));
    assert_eq!((p.width(), p.height()), (16, 8));
}
