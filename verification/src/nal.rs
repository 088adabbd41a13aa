//! NAL unit types (Table 7-1) and the two-byte NAL unit header (§7.3.1.2).

use vstd::prelude::*;

verus! {

pub const NAL_VPS: u8 = 32;
pub const NAL_SPS: u8 = 33;
pub const NAL_PPS: u8 = 34;
pub const NAL_AUD: u8 = 35;
pub const NAL_EOS: u8 = 36;
pub const NAL_EOB: u8 = 37;
pub const NAL_FD: u8 = 38;
pub const NAL_PREFIX_SEI: u8 = 39;
pub const NAL_SUFFIX_SEI: u8 = 40;

/// `nal_unit_type`.
#[derive(Debug, Clone, Copy, PartialEq, Eq, Structural)]
pub struct NalType {
    pub id: u8,
}

impl NalType {
    /// A slice segment of a coded picture.
    pub open spec fn vcl(self) -> bool {
        self.id < 32
    }

    /// Intra random access point: BLA, IDR, CRA and the reserved types beside them.
    pub open spec fn irap(self) -> bool {
        16 <= self.id <= 23
    }

    pub open spec fn bla(self) -> bool {
        16 <= self.id <= 18
    }

    pub open spec fn idr(self) -> bool {
        19 <= self.id <= 20
    }

    pub open spec fn cra(self) -> bool {
        self.id == 21
    }

    pub open spec fn radl(self) -> bool {
        6 <= self.id <= 7
    }

    pub open spec fn rasl(self) -> bool {
        8 <= self.id <= 9
    }

    /// Sub-layer non-reference picture: the even types below 16.
    pub open spec fn sub_layer_non_ref(self) -> bool {
        self.id <= 14 && self.id % 2 == 0
    }

    pub fn is_vcl(&self) -> (r: bool)
        ensures
            r == self.vcl(),
    {
        self.id < 32
    }

    pub fn is_irap(&self) -> (r: bool)
        ensures
            r == self.irap(),
    {
        16 <= self.id && self.id <= 23
    }

    pub fn is_bla(&self) -> (r: bool)
        ensures
            r == self.bla(),
    {
        16 <= self.id && self.id <= 18
    }

    pub fn is_idr(&self) -> (r: bool)
        ensures
            r == self.idr(),
    {
        19 <= self.id && self.id <= 20
    }

    pub fn is_cra(&self) -> (r: bool)
        ensures
            r == self.cra(),
    {
        self.id == 21
    }

    pub fn is_radl(&self) -> (r: bool)
        ensures
            r == self.radl(),
    {
        6 <= self.id && self.id <= 7
    }

    pub fn is_rasl(&self) -> (r: bool)
        ensures
            r == self.rasl(),
    {
        8 <= self.id && self.id <= 9
    }

    pub fn is_sub_layer_non_ref(&self) -> (r: bool)
        ensures
            r == self.sub_layer_non_ref(),
    {
        self.id <= 14 && self.id % 2 == 0
    }
}

/// The NAL unit header.
#[derive(Debug, Clone, Copy, PartialEq, Eq, Structural)]
pub struct NalHeader {
    pub nal_type: NalType,
    pub layer_id: u8,
    pub temporal_id: u8,
}

} // verus!
