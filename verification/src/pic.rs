//! Per-picture decoding state at 4×4 (minimum transform block) granularity:
//! the z-scan order table (§6.5.2), neighbour availability (§6.4.1), and the
//! per-block maps the syntax, intra prediction and loop filters read.

use crate::arith;
use crate::ps::{Sps, TileLayout};
use vstd::arithmetic::div_mod::*;
use vstd::arithmetic::power2::*;
use vstd::prelude::*;

verus! {

/// `CuPredMode` per 4×4.
pub const PRED_NONE: u8 = 0;

pub const PRED_INTRA: u8 = 1;

pub const PRED_INTER: u8 = 2;

pub const PRED_SKIP: u8 = 3;

/// SAO parameters of one CTB for one component.
#[derive(Debug, Clone, Copy, PartialEq, Eq)]
pub struct SaoParams {
    /// 0 = off, 1 = band, 2 = edge.
    pub type_idx: u8,
    /// Band position or edge-offset class.
    pub aux: u8,
    /// Offsets (band: 4 consecutive bands from `aux`; edge: categories 1..=4).
    pub offset: [i16; 4],
}

/// SAO off.
pub open spec fn no_offset() -> SaoParams {
    SaoParams { type_idx: 0, aux: 0, offset: [0i16, 0i16, 0i16, 0i16] }
}

impl Default for SaoParams {
    fn default() -> (r: Self)
        ensures
            r == no_offset(),
    {
        SaoParams { type_idx: 0, aux: 0, offset: [0, 0, 0, 0] }
    }
}

/// Motion data of one 4×4 block.
#[derive(Debug, Clone, Copy, PartialEq, Eq)]
pub struct Motion {
    pub mv: [[i16; 2]; 2],
    pub ref_idx: [i8; 2],
    /// Bit 0 = L0 used, bit 1 = L1 used.
    pub pred_flags: u8,
    /// POC of the referenced pictures (for boundary strength: "same picture" test).
    pub ref_poc: [i32; 2],
    /// Bit l set = the list-l reference was a long-term picture when this
    /// picture was decoded (`LongTermRefPic` for TMVP).
    pub ref_lt: u8,
}

/// No motion: every component zero.
pub open spec fn no_motion() -> Motion {
    Motion {
        mv: [[0i16, 0i16], [0i16, 0i16]],
        ref_idx: [0i8, 0i8],
        pred_flags: 0,
        ref_poc: [0i32, 0i32],
        ref_lt: 0,
    }
}

impl Default for Motion {
    fn default() -> (r: Self)
        ensures
            r == no_motion(),
    {
        Motion {
            mv: [[0, 0], [0, 0]],
            ref_idx: [0, 0],
            pred_flags: 0,
            ref_poc: [0, 0],
            ref_lt: 0,
        }
    }
}

/// The slice-level loop filter parameters of one CTB.
#[derive(Debug, Clone, Copy, PartialEq, Eq, Structural)]
pub struct CtbFilterParams {
    pub deblock_disabled: bool,
    pub beta_offset_div2: i8,
    pub tc_offset_div2: i8,
    pub lf_across_slices: bool,
    pub cb_qp_offset: i8,
    pub cr_qp_offset: i8,
    pub sao_luma: bool,
    pub sao_chroma: bool,
}

/// All filter parameters off or zero.
pub open spec fn no_filter_params() -> CtbFilterParams {
    CtbFilterParams {
        deblock_disabled: false,
        beta_offset_div2: 0,
        tc_offset_div2: 0,
        lf_across_slices: false,
        cb_qp_offset: 0,
        cr_qp_offset: 0,
        sao_luma: false,
        sao_chroma: false,
    }
}

impl Default for CtbFilterParams {
    fn default() -> (r: Self)
        ensures
            r == no_filter_params(),
    {
        CtbFilterParams {
            deblock_disabled: false,
            beta_offset_div2: 0,
            tc_offset_div2: 0,
            lf_across_slices: false,
            cb_qp_offset: 0,
            cr_qp_offset: 0,
            sao_luma: false,
            sao_chroma: false,
        }
    }
}

/// The decoding state of one picture.
pub struct PicState {
    pub width: usize,
    pub height: usize,
    /// Size in 4×4 units.
    pub w4: usize,
    pub h4: usize,
    pub log2_ctb: usize,
    pub ctb_w: usize,
    pub ctb_h: usize,
    /// `MinTbAddrZs` at 4×4 granularity.
    pub zs: Vec<u32>,
    /// Per CTB (raster): `SliceAddrRs` of the slice containing it, or -1.
    pub slice_addr: Vec<i32>,
    /// Per CTB (raster): index into the picture's slice header list.
    pub ctb_slice: Vec<u16>,
    /// Per CTB (raster): tile id.
    pub tile_id: Vec<u32>,
    /// Per 4×4: `CuPredMode` (PRED_*).
    pub pred_mode: Vec<u8>,
    /// Per 4×4: luma intra prediction mode.
    pub intra_mode: Vec<u8>,
    /// Per 4×4: `QpY`.
    pub qp_y: Vec<i8>,
    /// Per 4×4: coding quadtree depth (split_cu_flag context).
    pub ct_depth: Vec<u8>,
    /// Per 4×4: bit0 = left edge is a TU edge, bit1 = top edge is a TU edge,
    /// bit2 = left edge is a PU edge, bit3 = top edge is a PU edge.
    pub edges: Vec<u8>,
    /// Per 4×4: luma transform block has non-zero coefficients.
    pub nz: Vec<u8>,
    /// Per 4×4: samples must not be touched by the loop filters
    /// (`pcm_loop_filter_disabled_flag && pcm_flag`, or `cu_transquant_bypass_flag`).
    pub filter_bypass: Vec<u8>,
    /// Per 4×4: motion.
    pub motion: Vec<Motion>,
    /// Per CTB: SAO parameters for Y, Cb, Cr.
    pub sao: Vec<[SaoParams; 3]>,
    /// Per CTB: the slice-level filter parameters that apply to it.
    pub ctb_filter: Vec<CtbFilterParams>,
}

// ---- the z-scan address ----

/// The low `k` bits of `x` and `y` interleaved, `x` in the even places.
pub open spec fn interleave(x: int, y: int, k: nat) -> int
    decreases k,
{
    if k == 0 {
        0
    } else {
        let i = (k - 1) as nat;
        interleave(x, y, i) + (if arith::bit_of(x, i) {
            pow2(2 * i) as int
        } else {
            0
        }) + (if arith::bit_of(y, i) {
            2 * pow2(2 * i)
        } else {
            0
        })
    }
}

/// `MinTbAddrZs` (6-10) of the 4×4 block (`x`, `y`): the tile-scan address of
/// its coding tree block, then its z-order inside that block.
pub open spec fn zscan_addr(rs_to_ts: Seq<u32>, ctb_w: int, shift: nat, x: int, y: int) -> int {
    let m = pow2(shift) as int;
    rs_to_ts[ctb_w * (y / m) + x / m] * pow2(2 * shift) + interleave(x, y, shift)
}

/// The interleaved bits stay below their place value.
pub proof fn lemma_interleave_bound(x: int, y: int, k: nat)
    ensures
        0 <= interleave(x, y, k) < pow2(2 * k),
    decreases k,
{
    lemma_pow2_pos(2 * k);
    if k > 0 {
        let i = (k - 1) as nat;
        lemma_interleave_bound(x, y, i);
        lemma_pow2_adds(2 * i, 2);
        lemma2_to64();
        assert(2 * i + 2 == 2 * k);
    }
}

/// Splitting one more bit off a remainder.
proof fn lemma_mod_step(x: int, m: int)
    requires
        m > 0,
    ensures
        x % (2 * m) == x % m + (if (x / m) % 2 == 1 {
            m
        } else {
            0
        }),
{
    let q = x / m;
    let r = x % m;
    let t = q % 2;
    lemma_fundamental_div_mod(x, m);
    assert(x == (2 * m) * (q / 2) + (m * t + r)) by (nonlinear_arith)
        requires
            x == m * q + r,
            q == 2 * (q / 2) + t,
    ;
    assert(m * t == (if t == 1 {
        m
    } else {
        0
    })) by (nonlinear_arith)
        requires
            t == 0 || t == 1,
    ;
    lemma_fundamental_div_mod_converse(x, 2 * m, q / 2, m * t + r);
}

/// The interleaved bits determine both coordinates inside the block.
pub proof fn lemma_interleave_inj(x1: int, y1: int, x2: int, y2: int, k: nat)
    requires
        interleave(x1, y1, k) == interleave(x2, y2, k),
    ensures
        x1 % (pow2(k) as int) == x2 % (pow2(k) as int),
        y1 % (pow2(k) as int) == y2 % (pow2(k) as int),
    decreases k,
{
    if k == 0 {
        lemma2_to64();
    } else {
        let i = (k - 1) as nat;
        lemma_interleave_bound(x1, y1, i);
        lemma_interleave_bound(x2, y2, i);
        lemma_interleave_inj(x1, y1, x2, y2, i);
        lemma_pow2_pos(i);
        lemma_pow2_adds(i, 1);
        lemma2_to64();
        assert(pow2(k) == 2 * pow2(i));
        lemma_mod_step(x1, pow2(i) as int);
        lemma_mod_step(x2, pow2(i) as int);
        lemma_mod_step(y1, pow2(i) as int);
        lemma_mod_step(y2, pow2(i) as int);
    }
}

/// §6.5.2: different 4×4 blocks of a picture have different z-scan addresses.
pub proof fn lemma_zscan_addr_inj(
    rs_to_ts: Seq<u32>,
    ctb_w: int,
    shift: nat,
    x1: int,
    y1: int,
    x2: int,
    y2: int,
)
    requires
        forall|i: int, j: int|
            #![trigger rs_to_ts[i], rs_to_ts[j]]
            0 <= i < j < rs_to_ts.len() ==> rs_to_ts[i] != rs_to_ts[j],
        0 <= x1,
        0 <= y1,
        0 <= x2,
        0 <= y2,
        x1 / (pow2(shift) as int) < ctb_w,
        x2 / (pow2(shift) as int) < ctb_w,
        ctb_w * (y1 / (pow2(shift) as int)) + x1 / (pow2(shift) as int) < rs_to_ts.len(),
        ctb_w * (y2 / (pow2(shift) as int)) + x2 / (pow2(shift) as int) < rs_to_ts.len(),
        zscan_addr(rs_to_ts, ctb_w, shift, x1, y1) == zscan_addr(rs_to_ts, ctb_w, shift, x2, y2),
    ensures
        x1 == x2,
        y1 == y2,
{
    let m = pow2(shift) as int;
    lemma_pow2_pos(shift);
    lemma_interleave_bound(x1, y1, shift);
    lemma_interleave_bound(x2, y2, shift);
    let c1 = ctb_w * (y1 / m) + x1 / m;
    let c2 = ctb_w * (y2 / m) + x2 / m;
    lemma_div_pos_is_pos(x1, m);
    lemma_div_pos_is_pos(x2, m);
    lemma_div_pos_is_pos(y1, m);
    lemma_div_pos_is_pos(y2, m);
    arith::lemma_product_fits(y1 / m, ctb_w);
    arith::lemma_product_fits(y2 / m, ctb_w);
    vstd::arithmetic::mul::lemma_mul_is_commutative(ctb_w, y1 / m);
    vstd::arithmetic::mul::lemma_mul_is_commutative(ctb_w, y2 / m);
    arith::lemma_flat_inj(
        interleave(x1, y1, shift),
        rs_to_ts[c1] as int,
        interleave(x2, y2, shift),
        rs_to_ts[c2] as int,
        pow2(2 * shift) as int,
    );
    assert(c1 == c2);
    arith::lemma_flat_inj(x1 / m, y1 / m, x2 / m, y2 / m, ctb_w);
    lemma_interleave_inj(x1, y1, x2, y2, shift);
    lemma_fundamental_div_mod(x1, m);
    lemma_fundamental_div_mod(x2, m);
    lemma_fundamental_div_mod(y1, m);
    lemma_fundamental_div_mod(y2, m);
}

// ---- addressing ----

/// The row-major address of column `x`, row `y`.
pub open spec fn flat(x: int, y: int, w: int) -> int {
    y * w + x
}

/// Address `i` is one of those that a rectangle in luma samples covers in a
/// per-4×4 map.
pub open spec fn covered4(i: int, w4: int, x: int, y: int, w: int, h: int) -> bool {
    exists|xx: int, yy: int|
        #![trigger flat(xx, yy, w4)]
        x / 4 <= xx < arith::ceil_div(x + w, 4) && y / 4 <= yy < arith::ceil_div(y + h, 4) && i
            == flat(xx, yy, w4)
}

/// A rectangle that stays inside its rows covers the 4×4 blocks it touches.
pub proof fn lemma_covered4(i: int, w4: int, x: int, y: int, w: int, h: int)
    requires
        0 <= x,
        0 <= y,
        0 <= i,
        0 < w4,
        arith::ceil_div(x + w, 4) <= w4,
    ensures
        covered4(i, w4, x, y, w, h) <==> x / 4 <= i % w4 < arith::ceil_div(x + w, 4) && y / 4 <= i
            / w4 < arith::ceil_div(y + h, 4),
{
    lemma_fundamental_div_mod(i, w4);
    vstd::arithmetic::mul::lemma_mul_is_commutative(w4, i / w4);
    if covered4(i, w4, x, y, w, h) {
        let (xx, yy) = choose|xx: int, yy: int|
            #![trigger flat(xx, yy, w4)]
            x / 4 <= xx < arith::ceil_div(x + w, 4) && y / 4 <= yy < arith::ceil_div(y + h, 4) && i
                == flat(xx, yy, w4);
        arith::lemma_flat_inj(xx, yy, i % w4, i / w4, w4);
    }
    if x / 4 <= i % w4 < arith::ceil_div(x + w, 4) && y / 4 <= i / w4 < arith::ceil_div(y + h, 4) {
        assert(i == flat(i % w4, i / w4, w4));
    }
}

impl PicState {
    /// Every map has an entry for each 4×4 block, or each coding tree block,
    /// of the picture.
    pub open spec fn wf(self) -> bool {
        &&& self.shape_ok()
        &&& self.maps_ok()
    }

    /// The sizes in samples, 4×4 blocks and coding tree blocks agree.
    pub open spec fn shape_ok(self) -> bool {
        let c = pow2(self.log2_ctb as nat) as int;
        &&& 4 <= self.log2_ctb <= 6
        &&& 1 <= self.width <= 0xffff
        &&& 1 <= self.height <= 0xffff
        &&& self.width % 8 == 0
        &&& self.height % 8 == 0
        &&& self.w4 == arith::ceil_div(self.width as int, 4)
        &&& self.h4 == arith::ceil_div(self.height as int, 4)
        &&& self.ctb_w == arith::ceil_div(self.width as int, c)
        &&& self.ctb_h == arith::ceil_div(self.height as int, c)
    }

    pub open spec fn maps_ok(self) -> bool {
        let n4 = self.w4 * self.h4;
        let nctb = self.ctb_w * self.ctb_h;
        &&& self.zs@.len() == n4
        &&& self.pred_mode@.len() == n4
        &&& self.intra_mode@.len() == n4
        &&& self.qp_y@.len() == n4
        &&& self.ct_depth@.len() == n4
        &&& self.edges@.len() == n4
        &&& self.nz@.len() == n4
        &&& self.filter_bypass@.len() == n4
        &&& self.motion@.len() == n4
        &&& self.slice_addr@.len() == nctb
        &&& self.ctb_slice@.len() == nctb
        &&& self.tile_id@.len() == nctb
        &&& self.sao@.len() == nctb
        &&& self.ctb_filter@.len() == nctb
    }

    /// The luma location is inside the picture.
    pub open spec fn inside(self, x: int, y: int) -> bool {
        0 <= x < self.width && 0 <= y < self.height
    }

    /// The address of the 4×4 block that holds luma location (`x`, `y`).
    pub open spec fn block_of(self, x: int, y: int) -> int {
        (y / 4) * self.w4 + x / 4
    }

    /// The address of the coding tree block that holds (`x`, `y`).
    pub open spec fn ctb_at(self, x: int, y: int) -> int {
        let c = pow2(self.log2_ctb as nat) as int;
        (y / c) * self.ctb_w + x / c
    }

    /// The maps that sample adaptive offset reads cover the coding tree blocks
    /// and the 4×4 blocks, whose coordinates fit 31 bits.
    pub open spec fn grid_ok(self) -> bool {
        let c = pow2(self.log2_ctb as nat) as int;
        &&& 4 <= self.log2_ctb <= 6
        &&& self.ctb_w * c <= i32::MAX
        &&& self.ctb_h * c <= i32::MAX
        &&& self.zs@.len() == self.w4 * self.h4
        &&& self.filter_bypass@.len() == self.w4 * self.h4
        &&& self.slice_addr@.len() == self.ctb_w * self.ctb_h
        &&& self.tile_id@.len() == self.ctb_w * self.ctb_h
        &&& self.sao@.len() == self.ctb_w * self.ctb_h
        &&& self.ctb_filter@.len() == self.ctb_w * self.ctb_h
    }

    /// A rectangle from the origin, in luma samples, lies inside the coding
    /// tree blocks and the 4×4 blocks.
    pub open spec fn in_grid(self, w: int, h: int) -> bool {
        let c = pow2(self.log2_ctb as nat) as int;
        &&& w <= self.ctb_w * c
        &&& h <= self.ctb_h * c
        &&& w <= 4 * self.w4
        &&& h <= 4 * self.h4
    }

    /// Both addresses of a location inside the grid are inside the maps.
    pub proof fn lemma_in_grid(self, x: int, y: int)
        requires
            self.grid_ok(),
            0 <= x,
            0 <= y,
            self.in_grid(x + 1, y + 1),
        ensures
            0 <= self.block_of(x, y) < self.w4 * self.h4,
            0 <= self.ctb_at(x, y) < self.ctb_w * self.ctb_h,
            0 <= x / (pow2(self.log2_ctb as nat) as int) < self.ctb_w,
            x < i32::MAX,
            y < i32::MAX,
    {
        let c = pow2(self.log2_ctb as nat) as int;
        lemma_ctb_size(self.log2_ctb as nat);
        lemma_quotient_below(x, self.ctb_w as int, c);
        lemma_quotient_below(y, self.ctb_h as int, c);
        arith::lemma_flat_bound(x / 4, y / 4, self.w4 as int, self.h4 as int);
        arith::lemma_flat_bound(x / c, y / c, self.ctb_w as int, self.ctb_h as int);
    }

    /// A picture lies inside its grid.
    pub proof fn lemma_grid(self)
        requires
            self.wf(),
        ensures
            self.grid_ok(),
            self.in_grid(self.width as int, self.height as int),
    {
        let c = pow2(self.log2_ctb as nat) as int;
        lemma_ctb_size(self.log2_ctb as nat);
        self.lemma_sizes();
        assert(self.ctb_w * c <= 0x1000 * 64 && self.ctb_h * c <= 0x1000 * 64) by (nonlinear_arith)
            requires
                0 <= self.ctb_w <= 0x1000,
                0 <= self.ctb_h <= 0x1000,
                0 <= c <= 64,
        ;
        lemma_ceil_reach(self.width as int, c);
        lemma_ceil_reach(self.height as int, c);
    }

    /// Both addresses of a location inside the picture are inside the maps.
    pub proof fn lemma_inside(self, x: int, y: int)
        requires
            self.shape_ok(),
            self.inside(x, y),
        ensures
            0 <= self.block_of(x, y) < self.w4 * self.h4,
            0 <= self.ctb_at(x, y) < self.ctb_w * self.ctb_h,
            0 <= x / 4 < self.w4,
            0 <= y / 4 < self.h4,
            self.w4 * self.h4 <= 0x1000_0000,
            self.ctb_w * self.ctb_h <= 0x1000_0000,
    {
        let c = pow2(self.log2_ctb as nat) as int;
        lemma_ctb_size(self.log2_ctb as nat);
        lemma_ceil_cover(x, self.width as int, c);
        lemma_ceil_cover(y, self.height as int, c);
        arith::lemma_flat_bound(x / 4, y / 4, self.w4 as int, self.h4 as int);
        arith::lemma_flat_bound(x / c, y / c, self.ctb_w as int, self.ctb_h as int);
        self.lemma_sizes();
    }

    /// The maps have at most 2^28 entries.
    pub proof fn lemma_sizes(self)
        requires
            self.shape_ok(),
        ensures
            1 <= self.w4 <= 0x4000,
            1 <= self.h4 <= 0x4000,
            1 <= self.ctb_w <= 0x1000,
            1 <= self.ctb_h <= 0x1000,
            1 <= self.w4 * self.h4 <= 0x1000_0000,
            1 <= self.ctb_w * self.ctb_h <= 0x1000_0000,
    {
        let c = pow2(self.log2_ctb as nat) as int;
        lemma_ctb_size(self.log2_ctb as nat);
        assert(1 <= self.ctb_w <= 0x1000 && 1 <= self.ctb_h <= 0x1000) by {
            if c == 16 {
            } else if c == 32 {
            } else {
                assert(c == 64);
            }
        }
        assert(1 <= self.w4 * self.h4 <= 0x1000_0000) by (nonlinear_arith)
            requires
                1 <= self.w4 <= 0x4000,
                1 <= self.h4 <= 0x4000,
        ;
        assert(1 <= self.ctb_w * self.ctb_h <= 0x1000_0000) by (nonlinear_arith)
            requires
                1 <= self.ctb_w <= 0x1000,
                1 <= self.ctb_h <= 0x1000,
        ;
    }

    /// §6.4.1: the z-scan availability of a neighbouring location.
    pub open spec fn avail(self, xc: int, yc: int, xn: int, yn: int) -> bool {
        let bn = self.block_of(xn, yn);
        let bc = self.block_of(xc, yc);
        let cn = self.ctb_at(xn, yn);
        let cc = self.ctb_at(xc, yc);
        &&& self.inside(xn, yn)
        &&& self.zs@[bn] <= self.zs@[bc]
        &&& self.slice_addr@[cn] >= 0
        &&& self.slice_addr@[cn] == self.slice_addr@[cc]
        &&& self.tile_id@[cn] == self.tile_id@[cc]
        &&& self.pred_mode@[bn] != PRED_NONE
    }

    /// The state of a picture of that sequence and tile layout before any
    /// slice of it is decoded.
    #[verifier::opaque]
    pub open spec fn is_new_for(self, sps: Sps, tiles: TileLayout) -> bool {
        &&& self.wf()
        &&& self.width == sps.width
        &&& self.height == sps.height
        &&& self.log2_ctb == sps.log2_ctb_size
        &&& forall|x: int, y: int|
            #![trigger self.zs@[flat(x, y, self.w4 as int)]]
            0 <= x < self.w4 && 0 <= y < self.h4 ==> self.zs@[flat(x, y, self.w4 as int)]
                == zscan_addr(
                tiles.rs_to_ts@,
                self.ctb_w as int,
                (sps.log2_ctb_size - 2) as nat,
                x,
                y,
            )
        &&& forall|rs: int|
            #![trigger self.tile_id@[rs]]
            0 <= rs < self.tile_id@.len() ==> self.tile_id@[rs]
                == tiles.tile_id@[tiles.rs_to_ts@[rs] as int]
        &&& self.is_fresh()
    }

    /// The state of a picture before any slice of it is decoded.
    pub fn new(sps: &Sps, tiles: &TileLayout) -> (st: Self)
        requires
            sps.wf(),
            tiles.wf(sps.pic_width_in_ctbs * sps.pic_height_in_ctbs),
        ensures
            st.is_new_for(*sps, *tiles),
    {
        proof {
            reveal(PicState::is_new_for);
        }
        let width = sps.width as usize;
        let height = sps.height as usize;
        let w4 = arith::ceil_div_usize(width, 4);
        let h4 = arith::ceil_div_usize(height, 4);
        let log2_ctb = sps.log2_ctb_size as usize;
        let ctb_w = sps.pic_width_in_ctbs as usize;
        let ctb_h = sps.pic_height_in_ctbs as usize;
        proof {
            lemma_ctb_size(log2_ctb as nat);
            lemma_state_sizes(width as int, height as int, log2_ctb as nat);
        }
        let n4 = w4 * h4;
        let nctb = ctb_w * ctb_h;
        let zs = Self::zscan_table(sps, tiles, w4, h4);
        let mut tile_id: Vec<u32> = Vec::new();
        let mut rs: usize = 0;
        while rs < nctb
            invariant
                rs <= nctb,
                tiles.wf(nctb as int),
                tile_id@.len() == rs,
                forall|i: int|
                    #![trigger tile_id@[i]]
                    0 <= i < rs ==> tile_id@[i] == tiles.tile_id@[tiles.rs_to_ts@[i] as int],
            decreases nctb - rs,
        {
            tile_id.push(tiles.tile_id[tiles.rs_to_ts[rs] as usize]);
            rs += 1;
        }
        let mut sao: Vec<[SaoParams; 3]> = Vec::new();
        let off = SaoParams::default();
        let mut i: usize = 0;
        while i < nctb
            invariant
                i <= nctb,
                off == no_offset(),
                sao@.len() == i,
                forall|j: int, k: int|
                    #![trigger sao@[j]@[k]]
                    0 <= j < i && 0 <= k < 3 ==> sao@[j]@[k] == no_offset(),
            decreases nctb - i,
        {
            sao.push([off, off, off]);
            i += 1;
        }
        PicState {
            width,
            height,
            w4,
            h4,
            log2_ctb,
            ctb_w,
            ctb_h,
            zs,
            slice_addr: vec![-1; nctb],
            ctb_slice: vec![0; nctb],
            tile_id,
            pred_mode: vec![PRED_NONE; n4],
            intra_mode: vec![1; n4],
            qp_y: vec![0; n4],
            ct_depth: vec![0; n4],
            edges: vec![0; n4],
            nz: vec![0; n4],
            filter_bypass: vec![0; n4],
            motion: vec![Motion::default(); n4],
            sao,
            ctb_filter: vec![CtbFilterParams::default(); nctb],
        }
    }

    /// Nothing is decoded yet: no slices, no prediction, no filtering.
    pub open spec fn is_fresh(self) -> bool {
        &&& forall|i: int|
            #![trigger self.slice_addr@[i]]
            0 <= i < self.slice_addr@.len() ==> self.slice_addr@[i] == -1
        &&& forall|i: int|
            #![trigger self.ctb_slice@[i]]
            0 <= i < self.ctb_slice@.len() ==> self.ctb_slice@[i] == 0
        &&& forall|i: int|
            #![trigger self.pred_mode@[i]]
            0 <= i < self.pred_mode@.len() ==> self.pred_mode@[i] == PRED_NONE
        &&& forall|i: int|
            #![trigger self.intra_mode@[i]]
            0 <= i < self.intra_mode@.len() ==> self.intra_mode@[i] == 1
        &&& forall|i: int|
            #![trigger self.qp_y@[i]]
            0 <= i < self.qp_y@.len() ==> self.qp_y@[i] == 0
        &&& forall|i: int|
            #![trigger self.ct_depth@[i]]
            0 <= i < self.ct_depth@.len() ==> self.ct_depth@[i] == 0
        &&& forall|i: int|
            #![trigger self.edges@[i]]
            0 <= i < self.edges@.len() ==> self.edges@[i] == 0
        &&& forall|i: int|
            #![trigger self.nz@[i]]
            0 <= i < self.nz@.len() ==> self.nz@[i] == 0
        &&& forall|i: int|
            #![trigger self.filter_bypass@[i]]
            0 <= i < self.filter_bypass@.len() ==> self.filter_bypass@[i] == 0
        &&& forall|i: int|
            #![trigger self.motion@[i]]
            0 <= i < self.motion@.len() ==> self.motion@[i] == no_motion()
        &&& forall|i: int, c: int|
            #![trigger self.sao@[i]@[c]]
            0 <= i < self.sao@.len() && 0 <= c < 3 ==> self.sao@[i]@[c] == no_offset()
        &&& forall|i: int|
            #![trigger self.ctb_filter@[i]]
            0 <= i < self.ctb_filter@.len() ==> self.ctb_filter@[i] == no_filter_params()
    }

    /// `MinTbAddrZs` of every 4×4 block, row-major.
    fn zscan_table(sps: &Sps, tiles: &TileLayout, w4: usize, h4: usize) -> (zs: Vec<u32>)
        requires
            sps.wf(),
            tiles.wf(sps.pic_width_in_ctbs * sps.pic_height_in_ctbs),
            w4 == arith::ceil_div(sps.width as int, 4),
            h4 == arith::ceil_div(sps.height as int, 4),
        ensures
            zs@.len() == w4 * h4,
            forall|x: int, y: int|
                #![trigger zs@[flat(x, y, w4 as int)]]
                0 <= x < w4 && 0 <= y < h4 ==> zs@[flat(x, y, w4 as int)] == zscan_addr(
                    tiles.rs_to_ts@,
                    sps.pic_width_in_ctbs as int,
                    (sps.log2_ctb_size - 2) as nat,
                    x,
                    y,
                ),
    {
        let ctb_w = sps.pic_width_in_ctbs as usize;
        let ctb_h = sps.pic_height_in_ctbs as usize;
        let shift = (sps.log2_ctb_size - 2) as usize;
        let ghost m = pow2(shift as nat) as int;
        let ghost c = pow2(sps.log2_ctb_size as nat) as int;
        proof {
            lemma_ctb_size(sps.log2_ctb_size as nat);
            lemma_state_sizes(sps.width as int, sps.height as int, sps.log2_ctb_size as nat);
        }
        let unit = arith::pow2_i32((2 * shift) as u32) as u32;
        let mut zs: Vec<u32> = Vec::new();
        let mut y: usize = 0;
        while y < h4
            invariant
                y <= h4,
                h4 <= 0x4000,
                w4 <= 0x4000,
                2 <= shift <= 4,
                m == pow2(shift as nat),
                c == 4 * m,
                m == 4 || m == 8 || m == 16,
                unit == pow2(2 * shift as nat),
                unit == m * m,
                ctb_w == arith::ceil_div(sps.width as int, c),
                ctb_h == arith::ceil_div(sps.height as int, c),
                w4 == arith::ceil_div(sps.width as int, 4),
                h4 == arith::ceil_div(sps.height as int, 4),
                ctb_w * ctb_h * unit <= 0x1100_0000,
                tiles.wf(ctb_w * ctb_h),
                zs@.len() == y * w4,
                forall|xx: int, yy: int|
                    #![trigger zs@[flat(xx, yy, w4 as int)]]
                    0 <= xx < w4 && 0 <= yy < y ==> zs@[flat(xx, yy, w4 as int)] == zscan_addr(
                        tiles.rs_to_ts@,
                        ctb_w as int,
                        shift as nat,
                        xx,
                        yy,
                    ),
            decreases h4 - y,
        {
            let mut x: usize = 0;
            while x < w4
                invariant
                    x <= w4,
                    y < h4,
                    h4 <= 0x4000,
                    w4 <= 0x4000,
                    2 <= shift <= 4,
                    m == pow2(shift as nat),
                    c == 4 * m,
                    m == 4 || m == 8 || m == 16,
                    unit == pow2(2 * shift as nat),
                    unit == m * m,
                    ctb_w == arith::ceil_div(sps.width as int, c),
                    ctb_h == arith::ceil_div(sps.height as int, c),
                    w4 == arith::ceil_div(sps.width as int, 4),
                    h4 == arith::ceil_div(sps.height as int, 4),
                    ctb_w * ctb_h * unit <= 0x1100_0000,
                    tiles.wf(ctb_w * ctb_h),
                    zs@.len() == y * w4 + x,
                    forall|xx: int, yy: int|
                        #![trigger zs@[flat(xx, yy, w4 as int)]]
                        0 <= xx < w4 && 0 <= yy < y || 0 <= xx < x && yy == y ==> zs@[flat(
                            xx,
                            yy,
                            w4 as int,
                        )] == zscan_addr(tiles.rs_to_ts@, ctb_w as int, shift as nat, xx, yy),
                decreases w4 - x,
            {
                let tb_x = arith::shr_usize(x, shift);
                let tb_y = arith::shr_usize(y, shift);
                proof {
                    lemma_block_in_ctbs(x as int, sps.width as int, m);
                    lemma_block_in_ctbs(y as int, sps.height as int, m);
                    arith::lemma_flat_bound(tb_x as int, tb_y as int, ctb_w as int, ctb_h as int);
                    vstd::arithmetic::mul::lemma_mul_is_commutative(ctb_w as int, tb_y as int);
                    assert(ctb_w * ctb_h <= ctb_w * ctb_h * unit) by (nonlinear_arith)
                        requires
                            unit >= 1,
                            ctb_w >= 0,
                            ctb_h >= 0,
                    ;
                }
                let ctb_rs = ctb_w * tb_y + tb_x;
                let ts = tiles.rs_to_ts[ctb_rs];
                proof {
                    lemma_interleave_bound(x as int, y as int, shift as nat);
                    assert((ts + 1) * unit <= ctb_w * ctb_h * unit) by (nonlinear_arith)
                        requires
                            ts + 1 <= ctb_w * ctb_h,
                            unit >= 1,
                    ;
                    assert((ts + 1) * unit == ts * unit + unit) by (nonlinear_arith);
                    assert(0 <= ts * unit) by (nonlinear_arith)
                        requires
                            ts >= 0,
                            unit >= 1,
                    ;
                    lemma2_to64();
                }
                let mut v: u32 = ts * unit;
                let mut i: usize = 0;
                while i < shift
                    invariant
                        i <= shift <= 4,
                        unit == pow2(2 * shift as nat),
                        ts * unit + unit <= 0x1100_0000,
                        v == ts * unit + interleave(x as int, y as int, i as nat),
                    decreases shift - i,
                {
                    proof {
                        lemma_interleave_bound(x as int, y as int, (i + 1) as nat);
                        arith::lemma_pow2_le(2 * ((i + 1) as nat), 2 * shift as nat);
                    }
                    let mm = arith::pow2_i32((2 * i) as u32) as u32;
                    proof {
                        lemma_interleave_bound(x as int, y as int, i as nat);
                        lemma_pow2_adds(2 * i as nat, 2);
                        lemma2_to64();
                    }
                    if arith::shr_usize(x, i) % 2 == 1 {
                        v += mm;
                    }
                    if arith::shr_usize(y, i) % 2 == 1 {
                        v += 2 * mm;
                    }
                    i += 1;
                }
                zs.push(v);
                proof {
                    assert forall|xx: int, yy: int|
                        #![trigger zs@[flat(xx, yy, w4 as int)]]
                        0 <= xx < w4 && 0 <= yy < y || 0 <= xx < x + 1 && yy
                            == y implies zs@[flat(xx, yy, w4 as int)] == zscan_addr(
                        tiles.rs_to_ts@,
                        ctb_w as int,
                        shift as nat,
                        xx,
                        yy,
                    ) by {
                        if yy < y {
                            arith::lemma_flat_bound(xx, yy, w4 as int, y as int);
                            vstd::arithmetic::mul::lemma_mul_is_commutative(
                                w4 as int,
                                y as int,
                            );
                        }
                    }
                }
                x += 1;
            }
            assert((y + 1) * w4 == y * w4 + w4) by (nonlinear_arith);
            y += 1;
        }
        proof {
            vstd::arithmetic::mul::lemma_mul_is_commutative(w4 as int, h4 as int);
        }
        zs
    }

    pub fn idx4(&self, x: usize, y: usize) -> (i: usize)
        requires
            self.block_of(x as int, y as int) <= usize::MAX,
        ensures
            i == self.block_of(x as int, y as int),
    {
        proof {
            arith::lemma_product_fits((y / 4) as int, self.w4 as int);
        }
        (y / 4) * self.w4 + x / 4
    }

    pub fn ctb_of(&self, x: usize, y: usize) -> (i: usize)
        requires
            self.log2_ctb < 32,
            self.ctb_at(x as int, y as int) <= usize::MAX,
        ensures
            i == self.ctb_at(x as int, y as int),
    {
        let yc = arith::shr_usize(y, self.log2_ctb);
        let xc = arith::shr_usize(x, self.log2_ctb);
        proof {
            arith::lemma_product_fits(yc as int, self.ctb_w as int);
        }
        yc * self.ctb_w + xc
    }

    /// §6.4.1: is the luma location (xn, yn) available for the block at (xc, yc)?
    pub fn available(&self, xc: i32, yc: i32, xn: i32, yn: i32) -> (r: bool)
        requires
            self.wf(),
            self.inside(xn as int, yn as int) ==> self.inside(xc as int, yc as int),
        ensures
            r == self.avail(xc as int, yc as int, xn as int, yn as int),
    {
        if xn < 0 || yn < 0 || xn >= self.width as i32 || yn >= self.height as i32 {
            return false;
        }
        proof {
            self.lemma_inside(xn as int, yn as int);
            self.lemma_inside(xc as int, yc as int);
        }
        let (xn, yn, xc, yc) = (xn as usize, yn as usize, xc as usize, yc as usize);
        if self.zs[self.idx4(xn, yn)] > self.zs[self.idx4(xc, yc)] {
            return false;
        }
        let cn = self.ctb_of(xn, yn);
        let cc = self.ctb_of(xc, yc);
        if self.slice_addr[cn] < 0 || self.slice_addr[cn] != self.slice_addr[cc] {
            return false;
        }
        if self.tile_id[cn] != self.tile_id[cc] {
            return false;
        }
        // Decoded at all (a lost slice leaves PRED_NONE).
        self.pred_mode[self.idx4(xn, yn)] != PRED_NONE
    }

    /// Fills a rectangle (luma sample units) of a per-4×4 map.
    pub fn fill4<T: Copy>(
        map: &mut [T],
        w4: usize,
        x: usize,
        y: usize,
        w: usize,
        h: usize,
        v: T,
    )
        requires
            x + w <= usize::MAX,
            y + h <= usize::MAX,
            forall|xx: int, yy: int|
                #![trigger flat(xx, yy, w4 as int)]
                x as int / 4 <= xx < arith::ceil_div(x + w, 4) && y as int / 4 <= yy
                    < arith::ceil_div(y + h, 4) ==> flat(xx, yy, w4 as int) < old(map)@.len(),
        ensures
            final(map)@.len() == old(map)@.len(),
            forall|i: int|
                #![trigger final(map)@[i]]
                0 <= i < old(map)@.len() ==> final(map)@[i] == (if covered4(
                    i,
                    w4 as int,
                    x as int,
                    y as int,
                    w as int,
                    h as int,
                ) {
                    v
                } else {
                    old(map)@[i]
                }),
    {
        let x0 = x / 4;
        let y0 = y / 4;
        let x1 = arith::ceil_div_usize(x + w, 4);
        let y1 = arith::ceil_div_usize(y + h, 4);
        let ghost m0 = map@;
        let mut yy: usize = y0;
        while yy < y1
            invariant
                y0 <= yy,
                yy <= y1 || y1 < y0,
                map@.len() == m0.len(),
                forall|a: int, b: int|
                    #![trigger flat(a, b, w4 as int)]
                    x0 <= a < x1 && y0 <= b < y1 ==> flat(a, b, w4 as int) < m0.len(),
                forall|i: int|
                    #![trigger map@[i]]
                    0 <= i < m0.len() ==> map@[i] == (if Self::filled_to(
                        i,
                        w4 as int,
                        x0 as int,
                        x1 as int,
                        y0 as int,
                        yy as int,
                        x0 as int,
                    ) {
                        v
                    } else {
                        m0[i]
                    }),
            decreases y1 - yy,
        {
            let mut xx: usize = x0;
            while xx < x1
                invariant
                    x0 <= xx,
                    xx <= x1 || x1 < x0,
                    y0 <= yy < y1,
                    map@.len() == m0.len(),
                    forall|a: int, b: int|
                        #![trigger flat(a, b, w4 as int)]
                        x0 <= a < x1 && y0 <= b < y1 ==> flat(a, b, w4 as int) < m0.len(),
                    forall|i: int|
                        #![trigger map@[i]]
                        0 <= i < m0.len() ==> map@[i] == (if Self::filled_to(
                            i,
                            w4 as int,
                            x0 as int,
                            x1 as int,
                            y0 as int,
                            yy as int,
                            xx as int,
                        ) {
                            v
                        } else {
                            m0[i]
                        }),
                decreases x1 - xx,
            {
                proof {
                    assert(flat(xx as int, yy as int, w4 as int) < m0.len());
                    assert(map@.len() == map.len());
                    arith::lemma_product_fits(yy as int, w4 as int);
                }
                let ghost before = map@;
                let i = yy * w4 + xx;
                map[i] = v;
                proof {
                    assert forall|j: int|
                        #![trigger map@[j]]
                        0 <= j < m0.len() implies map@[j] == (if Self::filled_to(
                        j,
                        w4 as int,
                        x0 as int,
                        x1 as int,
                        y0 as int,
                        yy as int,
                        xx + 1,
                    ) {
                        v
                    } else {
                        m0[j]
                    }) by {
                        assert(map@[j] == if j == i {
                            v
                        } else {
                            before[j]
                        });
                        assert(i == flat(xx as int, yy as int, w4 as int));
                    }
                }
                xx += 1;
            }
            proof {
                assert forall|j: int|
                    #![trigger map@[j]]
                    0 <= j < m0.len() implies map@[j] == (if Self::filled_to(
                    j,
                    w4 as int,
                    x0 as int,
                    x1 as int,
                    y0 as int,
                    yy + 1,
                    x0 as int,
                ) {
                    v
                } else {
                    m0[j]
                }) by {}
            }
            yy += 1;
        }
    }

    /// Address `i` belongs to the part of a block rectangle that precedes
    /// column `xx` of row `yy`.
    spec fn filled_to(i: int, w4: int, x0: int, x1: int, y0: int, yy: int, xx: int) -> bool {
        exists|a: int, b: int|
            #![trigger flat(a, b, w4)]
            x0 <= a < x1 && y0 <= b && (b < yy || b == yy && a < xx) && i == flat(a, b, w4)
    }
}

/// A product bounds its quotients.
proof fn lemma_quotient_below(x: int, n: int, c: int)
    requires
        0 <= x < n * c,
        c > 0,
    ensures
        0 <= x / c < n,
{
    lemma_fundamental_div_mod(x, c);
    let q = x / c;
    assert(0 <= q < n) by (nonlinear_arith)
        requires
            x == c * q + x % c,
            0 <= x % c < c,
            0 <= x < n * c,
            c > 0,
    ;
}

/// Blocks counted upwards cover what they count.
proof fn lemma_ceil_reach(size: int, c: int)
    requires
        0 <= size,
        c == 16 || c == 32 || c == 64,
    ensures
        size <= arith::ceil_div(size, c) * c,
{
    if c == 16 {
        assert(size <= ((size + 15) / 16) * 16);
    } else if c == 32 {
        assert(size <= ((size + 31) / 32) * 32);
    } else {
        assert(size <= ((size + 63) / 64) * 64);
    }
}

/// A coding tree block is 16, 32 or 64 samples wide.
pub proof fn lemma_ctb_size(log2_ctb: nat)
    requires
        4 <= log2_ctb <= 6,
    ensures
        pow2(log2_ctb) == 16 || pow2(log2_ctb) == 32 || pow2(log2_ctb) == 64,
        pow2(log2_ctb) == 4 * pow2((log2_ctb - 2) as nat),
        pow2((log2_ctb - 2) as nat) == 4 || pow2((log2_ctb - 2) as nat) == 8 || pow2(
            (log2_ctb - 2) as nat,
        ) == 16,
        pow2(2 * ((log2_ctb - 2) as nat)) == pow2((log2_ctb - 2) as nat) * pow2(
            (log2_ctb - 2) as nat,
        ),
{
    lemma2_to64();
    lemma_pow2_adds((log2_ctb - 2) as nat, 2);
    lemma_pow2_adds((log2_ctb - 2) as nat, (log2_ctb - 2) as nat);
}

/// A sample below the size is in one of the blocks that cover it.
pub proof fn lemma_ceil_cover(x: int, size: int, c: int)
    requires
        0 <= x < size,
        c == 16 || c == 32 || c == 64,
    ensures
        0 <= x / c < arith::ceil_div(size, c),
        0 <= x / 4 < arith::ceil_div(size, 4),
{
    if c == 16 {
    } else if c == 32 {
    } else {
    }
}

/// The 4×4 block `b` of a size is in one of its coding tree blocks of 4·`m`.
proof fn lemma_block_in_ctbs(b: int, size: int, m: int)
    requires
        0 <= b < arith::ceil_div(size, 4),
        m == 4 || m == 8 || m == 16,
    ensures
        0 <= b / m < arith::ceil_div(size, 4 * m),
{
    if m == 4 {
    } else if m == 8 {
    } else {
    }
}

/// The blocks of 4·`m` that cover a size, and their extent in 4×4 blocks.
proof fn lemma_covering_blocks(size: int, m: int)
    requires
        1 <= size <= 0xffff,
        m == 4 || m == 8 || m == 16,
    ensures
        1 <= arith::ceil_div(size, 4 * m) <= 0x1000,
        arith::ceil_div(size, 4 * m) * m <= 0x4010,
{
    let q = arith::ceil_div(size, 4 * m);
    if m == 4 {
        assert(q == (size + 15) / 16);
        assert(q * 4 <= 0x4010);
    } else if m == 8 {
        assert(q == (size + 31) / 32);
        assert(q * 8 <= 0x4010);
    } else {
        assert(q == (size + 63) / 64);
        assert(q * 16 <= 0x4010);
    }
}

/// Bounds on the table sizes of a picture.
proof fn lemma_state_sizes(width: int, height: int, log2_ctb: nat)
    requires
        1 <= width <= 0xffff,
        1 <= height <= 0xffff,
        4 <= log2_ctb <= 6,
    ensures
        ({
            let w4 = arith::ceil_div(width, 4);
            let h4 = arith::ceil_div(height, 4);
            let c = pow2(log2_ctb) as int;
            let cw = arith::ceil_div(width, c);
            let ch = arith::ceil_div(height, c);
            &&& 1 <= w4 <= 0x4000
            &&& 1 <= h4 <= 0x4000
            &&& 1 <= w4 * h4 <= 0x1000_0000
            &&& 1 <= cw <= 0x1000
            &&& 1 <= ch <= 0x1000
            &&& 1 <= cw * ch <= 0x100_0000
            &&& cw * ch * pow2(2 * ((log2_ctb - 2) as nat)) <= 0x1100_0000
        }),
{
    lemma_ctb_size(log2_ctb);
    let w4 = arith::ceil_div(width, 4);
    let h4 = arith::ceil_div(height, 4);
    let c = pow2(log2_ctb) as int;
    let m = pow2((log2_ctb - 2) as nat) as int;
    let cw = arith::ceil_div(width, c);
    let ch = arith::ceil_div(height, c);
    lemma_covering_blocks(width, m);
    lemma_covering_blocks(height, m);
    assert(1 <= w4 * h4 <= 0x1000_0000) by (nonlinear_arith)
        requires
            1 <= w4 <= 0x4000,
            1 <= h4 <= 0x4000,
    ;
    assert(1 <= cw * ch <= 0x100_0000) by (nonlinear_arith)
        requires
            1 <= cw <= 0x1000,
            1 <= ch <= 0x1000,
    ;
    assert(cw * ch * (m * m) == (cw * m) * (ch * m)) by (nonlinear_arith);
    assert((cw * m) * (ch * m) <= 0x1100_0000) by (nonlinear_arith)
        requires
            0 <= cw * m <= 0x4010,
            0 <= ch * m <= 0x4010,
    ;
}

// ---- the decoding order ----

impl PicState {
    /// Different 4×4 blocks have different places in the decoding order.
    pub open spec fn is_ordered(self) -> bool {
        forall|x1: int, y1: int, x2: int, y2: int|
            #![trigger self.zs@[flat(x1, y1, self.w4 as int)], self.zs@[flat(x2, y2, self.w4 as int)]]
            0 <= x1 < self.w4 && 0 <= y1 < self.h4 && 0 <= x2 < self.w4 && 0 <= y2 < self.h4 && (x1
                != x2 || y1 != y2) ==> self.zs@[flat(x1, y1, self.w4 as int)] != self.zs@[flat(
                x2,
                y2,
                self.w4 as int,
            )]
    }
}

/// §6.5.2: a picture's blocks are ordered from the start.
pub proof fn lemma_new_state_is_ordered(st: PicState, sps: Sps, tiles: TileLayout)
    requires
        st.is_new_for(sps, tiles),
        tiles.wf(st.ctb_w * st.ctb_h),
    ensures
        st.is_ordered(),
{
    reveal(PicState::is_new_for);
    let shift = (sps.log2_ctb_size - 2) as nat;
    let m = pow2(shift) as int;
    lemma_ctb_size(st.log2_ctb as nat);
    assert forall|x1: int, y1: int, x2: int, y2: int|
        #![trigger st.zs@[flat(x1, y1, st.w4 as int)], st.zs@[flat(x2, y2, st.w4 as int)]]
        0 <= x1 < st.w4 && 0 <= y1 < st.h4 && 0 <= x2 < st.w4 && 0 <= y2 < st.h4 && (x1 != x2 || y1
            != y2) implies st.zs@[flat(x1, y1, st.w4 as int)] != st.zs@[flat(
        x2,
        y2,
        st.w4 as int,
    )] by {
        lemma_block_in_ctbs(x1, st.width as int, m);
        lemma_block_in_ctbs(y1, st.height as int, m);
        lemma_block_in_ctbs(x2, st.width as int, m);
        lemma_block_in_ctbs(y2, st.height as int, m);
        arith::lemma_flat_bound(x1 / m, y1 / m, st.ctb_w as int, st.ctb_h as int);
        arith::lemma_flat_bound(x2 / m, y2 / m, st.ctb_w as int, st.ctb_h as int);
        vstd::arithmetic::mul::lemma_mul_is_commutative(st.ctb_w as int, y1 / m);
        vstd::arithmetic::mul::lemma_mul_is_commutative(st.ctb_w as int, y2 / m);
        if st.zs@[flat(x1, y1, st.w4 as int)] == st.zs@[flat(x2, y2, st.w4 as int)] {
            lemma_zscan_addr_inj(tiles.rs_to_ts@, st.ctb_w as int, shift, x1, y1, x2, y2);
        }
    }
}

/// §6.4.1: of two different blocks at most one is available to the other: the
/// one that is decoded first.
pub proof fn lemma_available_one_way(st: PicState, xc: int, yc: int, xn: int, yn: int)
    requires
        st.wf(),
        st.is_ordered(),
        st.inside(xc, yc),
        st.inside(xn, yn),
        xc / 4 != xn / 4 || yc / 4 != yn / 4,
    ensures
        !(st.avail(xc, yc, xn, yn) && st.avail(xn, yn, xc, yc)),
{
    st.lemma_inside(xc, yc);
    st.lemma_inside(xn, yn);
    assert(st.block_of(xc, yc) == flat(xc / 4, yc / 4, st.w4 as int));
    assert(st.block_of(xn, yn) == flat(xn / 4, yn / 4, st.w4 as int));
    assert(st.zs@[flat(xc / 4, yc / 4, st.w4 as int)] != st.zs@[flat(
        xn / 4,
        yn / 4,
        st.w4 as int,
    )]);
}

/// Locations in different coding tree blocks have different places in the
/// decoding order.
pub proof fn lemma_blocks_apart(st: PicState, xa: int, ya: int, xb: int, yb: int)
    requires
        st.wf(),
        st.is_ordered(),
        st.inside(xa, ya),
        st.inside(xb, yb),
        st.ctb_at(xa, ya) != st.ctb_at(xb, yb),
    ensures
        st.zs@[st.block_of(xa, ya)] != st.zs@[st.block_of(xb, yb)],
{
    st.lemma_inside(xa, ya);
    st.lemma_inside(xb, yb);
    lemma_ctb_size(st.log2_ctb as nat);
    let c = pow2(st.log2_ctb as nat) as int;
    if xa / 4 == xb / 4 && ya / 4 == yb / 4 {
        assert(xa / c == xb / c && ya / c == yb / c) by {
            if c == 16 {
            } else if c == 32 {
            } else {
                assert(c == 64);
            }
        }
    }
    assert(st.block_of(xa, ya) == flat(xa / 4, ya / 4, st.w4 as int));
    assert(st.block_of(xb, yb) == flat(xb / 4, yb / 4, st.w4 as int));
    assert(st.zs@[flat(xa / 4, ya / 4, st.w4 as int)] != st.zs@[flat(
        xb / 4,
        yb / 4,
        st.w4 as int,
    )]);
}

} // verus!
