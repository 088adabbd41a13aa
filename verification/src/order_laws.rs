//! The order in which a picture's blocks are decoded (§6.5.2), and what may be
//! used of them (§6.4.1).

use crate::pic;
use crate::pic::{PicState, PRED_NONE};
use crate::ps::{Sps, TileLayout};
use vstd::arithmetic::div_mod::*;
use vstd::arithmetic::power2::*;
use vstd::prelude::*;

verus! {

/// Halving once more.
proof fn lemma_halves(x: int, i: nat)
    requires
        0 <= x,
    ensures
        x / (pow2(i) as int) == 2 * (x / (pow2(i + 1) as int)) + (x / (pow2(i) as int)) % 2,
{
    lemma_pow2_pos(i);
    lemma_pow2_adds(i, 1);
    lemma2_to64();
    lemma_div_denominator(x, pow2(i) as int, 2);
}

/// Locations in one block of a size are in one block of every larger size.
proof fn lemma_larger_block(x1: int, x2: int, i: nat, k: nat)
    requires
        0 <= x1,
        0 <= x2,
        i <= k,
        x1 / (pow2(i) as int) == x2 / (pow2(i) as int),
    ensures
        x1 / (pow2(k) as int) == x2 / (pow2(k) as int),
{
    let d = (k - i) as nat;
    lemma_pow2_pos(i);
    lemma_pow2_pos(d);
    lemma_pow2_adds(i, d);
    lemma_div_denominator(x1, pow2(i) as int, pow2(d) as int);
    lemma_div_denominator(x2, pow2(i) as int, pow2(d) as int);
}

/// The first of two locations lies in an earlier quarter of the block of size
/// 2^(`i` + 1) that holds both: the quarters are ordered left before right, and
/// the upper two before the lower two.
pub open spec fn earlier_quarter(x1: int, y1: int, x2: int, y2: int, i: nat) -> bool {
    let whole = pow2(i + 1) as int;
    let half = pow2(i) as int;
    &&& x1 / whole == x2 / whole
    &&& y1 / whole == y2 / whole
    &&& y1 / half < y2 / half || y1 / half == y2 / half && x1 / half < x2 / half
}

proof fn lemma_interleave_order(x1: int, y1: int, x2: int, y2: int, i: nat, k: nat)
    requires
        0 <= x1,
        0 <= y1,
        0 <= x2,
        0 <= y2,
        i < k,
        earlier_quarter(x1, y1, x2, y2, i),
    ensures
        pic::interleave(x1, y1, k) < pic::interleave(x2, y2, k),
    decreases k,
{
    let j = (k - 1) as nat;
    if j == i {
        lemma_halves(x1, i);
        lemma_halves(x2, i);
        lemma_halves(y1, i);
        lemma_halves(y2, i);
        pic::lemma_interleave_bound(x1, y1, i);
        pic::lemma_interleave_bound(x2, y2, i);
    } else {
        lemma_interleave_order(x1, y1, x2, y2, i, j);
        lemma_larger_block(x1, x2, i + 1, j);
        lemma_larger_block(y1, y2, i + 1, j);
    }
}

/// Blocks of different coding tree blocks are decoded in the order of those.
pub proof fn lemma_tree_block_order(
    st: PicState,
    sps: Sps,
    tiles: TileLayout,
    x1: int,
    y1: int,
    x2: int,
    y2: int,
)
    requires
        st.is_new_for(sps, tiles),
        0 <= x1 < st.w4,
        0 <= y1 < st.h4,
        0 <= x2 < st.w4,
        0 <= y2 < st.h4,
        ({
            let size = pow2((st.log2_ctb - 2) as nat) as int;
            let ts = tiles.rs_to_ts@;
            ts[st.ctb_w * (y1 / size) + x1 / size] < ts[st.ctb_w * (y2 / size) + x2 / size]
        }),
    ensures
        st.zs@[y1 * st.w4 + x1] < st.zs@[y2 * st.w4 + x2],
{
    reveal(PicState::is_new_for);
    let shift = (st.log2_ctb - 2) as nat;
    let size = pow2(shift) as int;
    let ts = tiles.rs_to_ts@;
    let a = ts[st.ctb_w * (y1 / size) + x1 / size] as int;
    let b = ts[st.ctb_w * (y2 / size) + x2 / size] as int;
    let m = pow2(2 * shift) as int;
    pic::lemma_interleave_bound(x1, y1, shift);
    pic::lemma_interleave_bound(x2, y2, shift);
    assert(st.zs@[pic::flat(x1, y1, st.w4 as int)] == a * m + pic::interleave(x1, y1, shift));
    assert(st.zs@[pic::flat(x2, y2, st.w4 as int)] == b * m + pic::interleave(x2, y2, shift));
    assert(a * m + m <= b * m) by (nonlinear_arith)
        requires
            a + 1 <= b,
            m > 0,
    ;
}

/// Inside a coding tree block the four quarters of every block, at every level,
/// are decoded one after the other: upper left, upper right, lower left, lower
/// right.
pub proof fn lemma_quarter_order(
    st: PicState,
    sps: Sps,
    tiles: TileLayout,
    x1: int,
    y1: int,
    x2: int,
    y2: int,
    i: nat,
)
    requires
        st.is_new_for(sps, tiles),
        0 <= x1 < st.w4,
        0 <= y1 < st.h4,
        0 <= x2 < st.w4,
        0 <= y2 < st.h4,
        i + 2 < st.log2_ctb,
        earlier_quarter(x1, y1, x2, y2, i),
    ensures
        st.zs@[y1 * st.w4 + x1] < st.zs@[y2 * st.w4 + x2],
{
    reveal(PicState::is_new_for);
    let shift = (st.log2_ctb - 2) as nat;
    lemma_interleave_order(x1, y1, x2, y2, i, shift);
    lemma_larger_block(x1, x2, i + 1, shift);
    lemma_larger_block(y1, y2, i + 1, shift);
    let z1 = st.zs@[pic::flat(x1, y1, st.w4 as int)];
    let z2 = st.zs@[pic::flat(x2, y2, st.w4 as int)];
}

/// A location may be used by a block if and only if it lies in the picture, was
/// decoded, comes no later, and belongs to the same slice and the same tile.
pub proof fn lemma_available(st: PicState, xc: int, yc: int, xn: int, yn: int)
    requires
        st.wf(),
    ensures
        ({
            let unit = |x: int, y: int| (y / 4) * st.w4 + x / 4;
            let size = pow2(st.log2_ctb as nat) as int;
            let tree = |x: int, y: int| (y / size) * st.ctb_w + x / size;
            st.avail(xc, yc, xn, yn) <==> {
                &&& 0 <= xn < st.width
                &&& 0 <= yn < st.height
                &&& st.pred_mode@[unit(xn, yn)] != PRED_NONE
                &&& st.zs@[unit(xn, yn)] <= st.zs@[unit(xc, yc)]
                &&& st.slice_addr@[tree(xn, yn)] != -1
                &&& st.slice_addr@[tree(xn, yn)] >= -1
                &&& st.slice_addr@[tree(xn, yn)] == st.slice_addr@[tree(xc, yc)]
                &&& st.tile_id@[tree(xn, yn)] == st.tile_id@[tree(xc, yc)]
            }
        }),
{
}

/// A new picture has the size of its sequence. Each coding tree block belongs to the
/// tile that its place in the tile scan says, and to no slice yet; no block is decoded,
/// filtered or moved.
pub proof fn lemma_new_state(st: PicState, sps: Sps, tiles: TileLayout, rs: int, i: int)
    requires
        st.is_new_for(sps, tiles),
        0 <= rs < st.ctb_w * st.ctb_h,
        0 <= i < st.w4 * st.h4,
    ensures
        st.width == sps.width,
        st.height == sps.height,
        st.log2_ctb == sps.log2_ctb_size,
        4 * st.w4 == st.width,
        4 * st.h4 == st.height,
        st.tile_id@[rs] == tiles.tile_id@[tiles.rs_to_ts@[rs] as int],
        st.slice_addr@[rs] == -1,
        st.pred_mode@[i] == PRED_NONE,
        st.intra_mode@[i] == 1,
        st.edges@[i] == 0,
        st.nz@[i] == 0,
        st.filter_bypass@[i] == 0,
        st.motion@[i].pred_flags == 0,
        st.sao@[rs]@[0].type_idx == 0,
        st.sao@[rs]@[1].type_idx == 0,
        st.sao@[rs]@[2].type_idx == 0,
        !st.ctb_filter@[rs].sao_luma && !st.ctb_filter@[rs].sao_chroma,
{
    reveal(PicState::is_new_for);
}

} // verus!
