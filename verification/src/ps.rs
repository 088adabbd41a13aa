//! Parameter sets, as far as decoding reads them: the sequence and picture
//! parameter sets and the tile layout of a picture.

use vstd::prelude::*;

verus! {

pub const PROFILE_MAIN: u8 = 1;
pub const PROFILE_MAIN10: u8 = 2;
pub const PROFILE_MAIN_STILL: u8 = 3;

/// The video parameter set; only its id takes part in decoding.
#[derive(Debug)]
pub struct Vps {
    pub id: u8,
}

/// DPB sizes of one temporal sub-layer.
#[derive(Debug, Clone, Copy, PartialEq, Eq, Structural)]
pub struct SubLayerOrder {
    pub max_dec_pic_buffering_minus1: u32,
    pub max_num_reorder_pics: u32,
    pub max_latency_increase_plus1: u32,
}

/// Scaling factors `m[x][y]` (§7.4.5), expanded to block size and indexed by
/// size id (0 = 4×4 … 3 = 32×32) and matrix id, each matrix row-major.
#[derive(Debug)]
pub struct ScalingFactors {
    pub f: Vec<Vec<Vec<u8>>>,
}

impl ScalingFactors {
    /// Six matrices for each of the four block sizes.
    pub open spec fn wf(self) -> bool {
        &&& self.f@.len() == 4
        &&& forall|s: int| #![trigger self.f@[s]] 0 <= s < 4 ==> self.f@[s]@.len() == 6
    }
}

/// The sequence parameter set.
#[derive(Debug)]
pub struct Sps {
    pub id: u8,
    /// `general_profile_idc`, 0 when the stream names none.
    pub profile: u8,
    pub width: u32,
    pub height: u32,
    pub chroma_format_idc: u8,
    pub bit_depth_luma: u8,
    pub bit_depth_chroma: u8,
    pub log2_max_poc_lsb: u8,
    pub max_sub_layers_minus1: u8,
    pub ordering: [SubLayerOrder; 7],
    pub sub_width_c: u8,
    pub sub_height_c: u8,
    /// Conformance window in chroma units: left, right, top, bottom.
    pub conf_win: [u32; 4],
    pub log2_ctb_size: u8,
    pub pic_width_in_ctbs: u32,
    pub pic_height_in_ctbs: u32,
    pub log2_min_tb_size: u8,
    pub log2_max_tb_size: u8,
    pub max_transform_hierarchy_depth_inter: u8,
    pub qp_bd_offset_y: i32,
    pub qp_bd_offset_c: i32,
    pub sao_enabled: bool,
    pub strong_intra_smoothing_enabled: bool,
    pub scaling_list_enabled: bool,
    pub scaling_list: Option<std::sync::Arc<ScalingFactors>>,
    pub range_extension: bool,
    pub multilayer_extension: bool,
    pub ext_3d: bool,
    pub scc_extension: bool,
}

impl Sps {
    /// What the sequence parameter set syntax guarantees of its values.
    pub open spec fn wf(self) -> bool {
        &&& self.id < 16
        &&& self.max_sub_layers_minus1 <= 6
        &&& 4 <= self.log2_max_poc_lsb <= 16
        &&& 8 <= self.bit_depth_luma <= 16
        &&& 8 <= self.bit_depth_chroma <= 16
        &&& self.qp_bd_offset_y == 6 * (self.bit_depth_luma - 8)
        &&& self.qp_bd_offset_c == 6 * (self.bit_depth_chroma - 8)
        &&& 4 <= self.log2_ctb_size <= 6
        &&& 2 <= self.log2_min_tb_size <= self.log2_max_tb_size <= 5
        &&& 1 <= self.width <= 0xffff
        &&& 1 <= self.height <= 0xffff
        &&& self.width % 8 == 0
        &&& self.height % 8 == 0
        &&& 1 <= self.sub_width_c <= 2
        &&& 1 <= self.sub_height_c <= 2
        &&& self.sub_width_c * (self.conf_win@[0] + self.conf_win@[1]) < self.width
        &&& self.sub_height_c * (self.conf_win@[2] + self.conf_win@[3]) < self.height
        &&& forall|t: int|
            #![trigger self.ordering@[t]]
            0 <= t < 7 ==> self.ordering@[t].max_num_reorder_pics
                + self.ordering@[t].max_latency_increase_plus1 <= u32::MAX
        &&& self.ctb_size_ok()
        &&& self.scaling_list matches Some(f) ==> f.wf()
    }

    /// The picture is covered by whole coding tree blocks, none of them spare.
    pub open spec fn ctb_size_ok(self) -> bool {
        let c = vstd::arithmetic::power2::pow2(self.log2_ctb_size as nat) as int;
        &&& self.pic_width_in_ctbs == crate::arith::ceil_div(self.width as int, c)
        &&& self.pic_height_in_ctbs == crate::arith::ceil_div(self.height as int, c)
    }

    /// The DPB sizes that apply: those of the highest sub-layer.
    pub open spec fn order(self) -> SubLayerOrder {
        self.ordering@[self.max_sub_layers_minus1 as int]
    }

    /// The display window in luma samples: left, top, width, height.
    pub open spec fn window(self) -> (int, int, int, int) {
        (
            self.sub_width_c * self.conf_win@[0],
            self.sub_height_c * self.conf_win@[2],
            self.width - self.sub_width_c * (self.conf_win@[0] + self.conf_win@[1]),
            self.height - self.sub_height_c * (self.conf_win@[2] + self.conf_win@[3]),
        )
    }
}

/// The picture parameter set.
#[derive(Debug)]
pub struct Pps {
    pub id: u8,
    pub sps_id: u8,
    pub cb_qp_offset: i32,
    pub cr_qp_offset: i32,
    pub cu_qp_delta_enabled: bool,
    pub constrained_intra_pred: bool,
    pub transform_skip_enabled: bool,
    pub log2_max_transform_skip_block_size: u8,
    pub sign_data_hiding_enabled: bool,
    pub loop_filter_across_tiles_enabled: bool,
    pub scaling_list: Option<std::sync::Arc<ScalingFactors>>,
    pub range_extension: bool,
    pub multilayer_extension: bool,
    pub ext_3d: bool,
    pub scc_extension: bool,
}

impl Pps {
    /// What the picture parameter set syntax guarantees of its values.
    pub open spec fn wf(self) -> bool {
        &&& self.id < 64
        &&& self.sps_id < 16
        &&& -12 <= self.cb_qp_offset <= 12
        &&& -12 <= self.cr_qp_offset <= 12
        &&& self.scaling_list matches Some(f) ==> f.wf()
    }
}

/// The tile scan of a picture (§6.5.1).
#[derive(Debug)]
pub struct TileLayout {
    /// `CtbAddrRsToTs`: raster address to tile-scan address.
    pub rs_to_ts: Vec<u32>,
    /// Tile id by tile-scan address.
    pub tile_id: Vec<u32>,
}

impl TileLayout {
    /// The raster-to-tile conversion permutes `n` coding tree block addresses.
    pub open spec fn wf(self, n: int) -> bool {
        &&& self.rs_to_ts@.len() == n
        &&& self.tile_id@.len() == n
        &&& forall|i: int| #![trigger self.rs_to_ts@[i]] 0 <= i < n ==> self.rs_to_ts@[i] < n
        &&& forall|i: int, j: int|
            #![trigger self.rs_to_ts@[i], self.rs_to_ts@[j]]
            0 <= i < j < n ==> self.rs_to_ts@[i] != self.rs_to_ts@[j]
    }
}

} // verus!
