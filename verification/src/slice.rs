//! The slice segment header, as far as decoding reads it (§7.3.6).

use vstd::prelude::*;

verus! {

#[derive(Debug, Clone, Copy, PartialEq, Eq, Structural)]
pub enum SliceType {
    B,
    P,
    I,
}

impl SliceType {
    pub fn is_intra(&self) -> (r: bool)
        ensures
            r == (*self == SliceType::I),
    {
        matches!(self, SliceType::I)
    }

    pub fn is_b(&self) -> (r: bool)
        ensures
            r == (*self == SliceType::B),
    {
        matches!(self, SliceType::B)
    }
}

/// A short-term reference picture set: POC deltas with their
/// `used_by_curr_pic` flags, before and after the current picture.
#[derive(Debug)]
pub struct StRps {
    pub neg: Vec<(i32, bool)>,
    pub pos: Vec<(i32, bool)>,
}

/// One long-term reference picture of a slice.
#[derive(Debug, Clone, Copy, PartialEq, Eq, Structural)]
pub struct LongTermRef {
    pub poc_lsb: u32,
    pub used_by_curr_pic: bool,
    pub delta_poc_msb_present: bool,
    pub delta_poc_msb_cycle: u32,
}

/// Explicit weights of one reference picture (§7.4.7.3).
#[derive(Debug, Clone, Copy)]
pub struct WeightEntry {
    pub luma_weight: i32,
    pub luma_offset: i32,
    pub chroma_weight: [i32; 2],
    pub chroma_offset: [i32; 2],
}

/// The slice segment header.
#[derive(Debug)]
pub struct SliceHeader {
    pub pps_id: u8,
    pub dependent_slice_segment: bool,
    pub segment_address: u32,
    pub slice_type: SliceType,
    pub pic_output_flag: bool,
    pub no_output_of_prior_pics: bool,
    pub poc_lsb: u32,
    pub st_rps: StRps,
    pub long_term: Vec<LongTermRef>,
    /// `NumPicTotalCurr`.
    pub num_pic_total_curr: u32,
    pub num_ref_idx_l0_active: u32,
    pub num_ref_idx_l1_active: u32,
    pub ref_pic_list_modification_l0: Option<Vec<u32>>,
    pub ref_pic_list_modification_l1: Option<Vec<u32>>,
    pub cb_qp_offset: i32,
    pub cr_qp_offset: i32,
}

} // verus!
