//! Which edges of a picture are deblocked, and what a deblocked sample is made
//! from (§8.7.2).

use crate::deblock;
use crate::deblock::Line;
use crate::filters;
use crate::filters::FilterSwitches;
use crate::frame::Plane;
use crate::pic::{PicState, PRED_NONE};
use crate::ps::{Pps, Sps};
use crate::sao;
use vstd::arithmetic::power2::*;
use vstd::prelude::*;

verus! {

// ---- which edges ----

/// An edge may be filtered if the slice behind it is deblocked, and, where another
/// slice or tile lies before it, if that slice, or the picture, lets the filter
/// across.
pub proof fn lemma_edge_allowed(st: PicState, pps: Pps, xp: int, yp: int, xq: int, yq: int)
    ensures
        ({
            let size = pow2(st.log2_ctb as nat) as int;
            let p = (yp / size) * st.ctb_w + xp / size;
            let q = (yq / size) * st.ctb_w + xq / size;
            filters::allowed(st, pps, xp, yp, xq, yq) <==> {
                &&& !st.ctb_filter@[q].deblock_disabled
                &&& st.slice_addr@[p] == st.slice_addr@[q] || st.ctb_filter@[q].lf_across_slices
                &&& st.tile_id@[p] == st.tile_id@[q] || pps.loop_filter_across_tiles_enabled
            }
        }),
{
}

/// Bit `k` of a block's edge marks.
pub open spec fn marked(e: u8, k: nat) -> bool {
    (e as int / pow2(k) as int) % 2 == 1
}

proof fn lemma_marked(e: u8)
    ensures
        (e & 1) != 0 <==> marked(e, 0),
        (e & 2) != 0 <==> marked(e, 1),
        (e & 5) != 0 <==> marked(e, 0) || marked(e, 2),
        (e & 10) != 0 <==> marked(e, 1) || marked(e, 3),
{
    lemma2_to64();
    assert((e & 1) != 0 <==> e % 2 == 1) by (bit_vector);
    assert((e & 2) != 0 <==> (e / 2) % 2 == 1) by (bit_vector);
    assert((e & 5) != 0 <==> e % 2 == 1 || (e / 4) % 2 == 1) by (bit_vector);
    assert((e & 10) != 0 <==> (e / 2) % 2 == 1 || (e / 8) % 2 == 1) by (bit_vector);
}

/// The left (`dir` 0) or the top edge of a 4×4 block is filtered only on the grid
/// of 8 samples inside the picture, between two decoded blocks, where a transform
/// block or a prediction block starts, and where filtering is allowed. It then has
/// the strength of the two blocks; coefficients count at transform edges only.
pub proof fn lemma_edge_strength(st: PicState, pps: Pps, dir: int, x4: int, y4: int)
    requires
        dir == 0 || dir == 1,
    ensures
        ({
            let q = y4 * st.w4 + x4;
            let p = if dir == 0 {
                q - 1
            } else {
                q - st.w4
            };
            let at = if dir == 0 {
                4 * x4
            } else {
                4 * y4
            };
            let e = st.edges@[q];
            let (tu, pu) = if dir == 0 {
                (marked(e, 0), marked(e, 2))
            } else {
                (marked(e, 1), marked(e, 3))
            };
            let (xp, yp) = if dir == 0 {
                (4 * x4 - 1, 4 * y4)
            } else {
                (4 * x4, 4 * y4 - 1)
            };
            let here = {
                &&& at > 0
                &&& at % 8 == 0
                &&& tu || pu
                &&& st.pred_mode@[p] != PRED_NONE
                &&& st.pred_mode@[q] != PRED_NONE
                &&& filters::allowed(st, pps, xp, yp, 4 * x4, 4 * y4)
            };
            filters::edge_strength(st, pps, dir, x4, y4) == if here {
                filters::strength(st, p, q, tu)
            } else {
                0
            }
        }),
{
    lemma_marked(st.edges@[y4 * st.w4 + x4]);
    assert((y4 - 1) * st.w4 == y4 * st.w4 - st.w4) by (nonlinear_arith);
}

// ---- what is filtered ----

/// The eight samples of row `y` across the vertical edge at column `ex`.
pub open spec fn row_across(f: spec_fn(int, int) -> int, ex: int, y: int) -> Line {
    Line {
        p0: f(ex - 1, y),
        p1: f(ex - 2, y),
        p2: f(ex - 3, y),
        p3: f(ex - 4, y),
        q0: f(ex, y),
        q1: f(ex + 1, y),
        q2: f(ex + 2, y),
        q3: f(ex + 3, y),
    }
}

/// The eight samples of column `x` across the horizontal edge at row `ey`.
pub open spec fn column_across(f: spec_fn(int, int) -> int, ey: int, x: int) -> Line {
    Line {
        p0: f(x, ey - 1),
        p1: f(x, ey - 2),
        p2: f(x, ey - 3),
        p3: f(x, ey - 4),
        q0: f(x, ey),
        q1: f(x, ey + 1),
        q2: f(x, ey + 2),
        q3: f(x, ey + 3),
    }
}

/// A luma sample within four of a vertical edge that is filtered is what the
/// filter makes of its row. The first and the last of the four rows of its segment
/// decide for all four.
pub proof fn lemma_luma_columns(
    st: PicState,
    sps: Sps,
    pps: Pps,
    f: spec_fn(int, int) -> int,
    k: int,
    x: int,
    y: int,
)
    requires
        k > 0,
        8 * k - 4 <= x < 8 * k + 4,
        0 <= y,
        2 * k < st.w4,
        y / 4 < st.h4,
        filters::edge_strength(st, pps, 0, 2 * k, y / 4) != 0,
    ensures
        ({
            let b = filters::edge_strength(st, pps, 0, 2 * k, y / 4) as int;
            let e = filters::edge_params(st, sps, pps, 0, 0, 2 * k, y / 4, b);
            let top = y - y % 4;
            let d = deblock::decide(
                row_across(f, 8 * k, top),
                row_across(f, 8 * k, top + 3),
                e.beta as int,
                e.tc as int,
            );
            filters::deblocked(st, sps, pps, 0, 0, f, x, y) == deblock::luma_line(
                row_across(f, 8 * k, y),
                d,
                e,
            ).tap(x - 8 * k)
        }),
{
    reveal(filters::deblocked);
    assert((x + 4) / 8 == k);
    assert(y - y % 4 == 4 * (y / 4));
}

/// The same across a horizontal edge, column by column.
pub proof fn lemma_luma_rows(
    st: PicState,
    sps: Sps,
    pps: Pps,
    f: spec_fn(int, int) -> int,
    k: int,
    x: int,
    y: int,
)
    requires
        k > 0,
        8 * k - 4 <= y < 8 * k + 4,
        0 <= x,
        2 * k < st.h4,
        x / 4 < st.w4,
        filters::edge_strength(st, pps, 1, x / 4, 2 * k) != 0,
    ensures
        ({
            let b = filters::edge_strength(st, pps, 1, x / 4, 2 * k) as int;
            let e = filters::edge_params(st, sps, pps, 0, 1, x / 4, 2 * k, b);
            let left = x - x % 4;
            let d = deblock::decide(
                column_across(f, 8 * k, left),
                column_across(f, 8 * k, left + 3),
                e.beta as int,
                e.tc as int,
            );
            filters::deblocked(st, sps, pps, 0, 1, f, x, y) == deblock::luma_line(
                column_across(f, 8 * k, x),
                d,
                e,
            ).tap(y - 8 * k)
        }),
{
    reveal(filters::deblocked);
    assert((y + 4) / 8 == k);
    assert(x - x % 4 == 4 * (x / 4));
}

/// A chroma sample within four of an edge of the grid of 8 chroma samples is
/// filtered along its row or column if the edge is of the strongest kind: where
/// the blocks have two chroma samples for their four of luma.
pub proof fn lemma_chroma_samples(
    st: PicState,
    sps: Sps,
    pps: Pps,
    c: int,
    f: spec_fn(int, int) -> int,
    k: int,
    x: int,
    y: int,
)
    requires
        c == 1 || c == 2,
        k > 0,
        0 <= x,
        0 <= y,
    ensures
        8 * k - 4 <= x < 8 * k + 4 && 4 * k < st.w4 && y / 2 < st.h4 && filters::edge_strength(
            st,
            pps,
            0,
            4 * k,
            y / 2,
        ) == 2 ==> filters::deblocked(st, sps, pps, c, 0, f, x, y) == deblock::chroma_line(
            row_across(f, 8 * k, y),
            filters::edge_params(st, sps, pps, c, 0, 4 * k, y / 2, 2),
        ).tap(x - 8 * k),
        8 * k - 4 <= y < 8 * k + 4 && 4 * k < st.h4 && x / 2 < st.w4 && filters::edge_strength(
            st,
            pps,
            1,
            x / 2,
            4 * k,
        ) == 2 ==> filters::deblocked(st, sps, pps, c, 1, f, x, y) == deblock::chroma_line(
            column_across(f, 8 * k, x),
            filters::edge_params(st, sps, pps, c, 1, x / 2, 4 * k, 2),
        ).tap(y - 8 * k),
{
    reveal(filters::deblocked);
    if 8 * k - 4 <= x < 8 * k + 4 {
        assert((x + 4) / 8 == k);
    }
    if 8 * k - 4 <= y < 8 * k + 4 {
        assert((y + 4) / 8 == k);
    }
}

// ---- in which order ----

/// Vertical edges are filtered on the samples as they were decoded: in the rows
/// that no horizontal edge reaches, that is all that happens.
pub proof fn lemma_vertical_edges_first(
    st: PicState,
    sps: Sps,
    pps: Pps,
    c: int,
    f: spec_fn(int, int) -> int,
    x: int,
    y: int,
)
    requires
        0 <= c <= 2,
        x >= 0,
        y >= 0,
        if c == 0 {
            y % 8 == 3 || y % 8 == 4
        } else {
            1 <= y % 8 <= 6
        },
    ensures
        filters::fully_deblocked(st, sps, pps, c, f, x, y) == filters::deblocked(
            st,
            sps,
            pps,
            c,
            0,
            f,
            x,
            y,
        ),
{
    let g = filters::pass(st, sps, pps, c, 0, f);
    crate::deblock_laws::lemma_reach(st, sps, pps, c, 1, g, x, y);
}

/// Horizontal edges are filtered on what the vertical ones left: the samples that
/// enter are those of the picture with its vertical edges filtered.
pub proof fn lemma_horizontal_edges_second(
    st: PicState,
    sps: Sps,
    pps: Pps,
    c: int,
    f: spec_fn(int, int) -> int,
    g: spec_fn(int, int) -> int,
    x: int,
    y: int,
)
    requires
        forall|i: int, j: int|
            #![trigger g(i, j)]
            g(i, j) == filters::deblocked(st, sps, pps, c, 0, f, i, j),
    ensures
        filters::fully_deblocked(st, sps, pps, c, f, x, y) == filters::deblocked(
            st,
            sps,
            pps,
            c,
            1,
            g,
            x,
            y,
        ),
{
    assert(g =~= filters::pass(st, sps, pps, c, 0, f));
}

/// Offsets are added to deblocked samples: with both filters on, a sample of the
/// filtered plane is the one of the deblocked plane with its offset, and compared
/// with deblocked neighbours.
pub proof fn lemma_offsets_last(
    p: Plane,
    st: PicState,
    sps: Sps,
    pps: Pps,
    c: int,
    g: spec_fn(int, int) -> int,
    a: int,
    b: int,
    x: int,
    y: int,
)
    requires
        p.wf(),
        0 <= c <= 2,
        0 <= x < p.width,
        0 <= y < p.height,
        0 <= a < st.ctb_filter@.len(),
        !st.ctb_filter@[a].deblock_disabled,
        sps.sao_enabled,
        0 <= b < st.ctb_filter@.len(),
        st.ctb_filter@[b].sao_luma || st.ctb_filter@[b].sao_chroma,
        forall|i: int, j: int|
            #![trigger g(i, j)]
            g(i, j) == filters::fully_deblocked(st, sps, pps, c, deblock::samples(p), i, j),
    ensures
        ({
            let r = filters::loop_filtered(
                p,
                st,
                sps,
                pps,
                c,
                (FilterSwitches { skip_all: false, skip_sao: false }),
            );
            let depth = if c == 0 {
                sps.bit_depth_luma as int
            } else {
                sps.bit_depth_chroma as int
            };
            r.data[y * p.stride + x] == sao::offset_sample(
                st,
                pps,
                c,
                depth,
                p.width as int,
                p.height as int,
                g,
                x,
                y,
            ) as u16
        }),
{
    assert(g =~= filters::deblock_stage(p, st, sps, pps, c)) by {
        assert(filters::any_deblock(st));
    }
    assert(filters::any_sao(st, sps));
    crate::arith::lemma_flat_bound(x, y, p.stride as int, p.height as int);
    lemma_flat_parts(x, y, p.stride as int);
}

proof fn lemma_flat_parts(x: int, y: int, w: int)
    requires
        0 <= x < w,
    ensures
        (y * w + x) % w == x,
        (y * w + x) / w == y,
{
    vstd::arithmetic::mul::lemma_mul_is_commutative(y, w);
    vstd::arithmetic::div_mod::lemma_fundamental_div_mod_converse(y * w + x, w, y, x);
}

/// With both filters switched off a plane stays as it is; with the offsets
/// switched off it is only deblocked.
pub proof fn lemma_switched_off(p: Plane, st: PicState, sps: Sps, pps: Pps, c: int, x: int, y: int)
    requires
        p.wf(),
        0 <= x < p.stride,
        0 <= y < p.height,
        filters::any_deblock(st),
    ensures
        ({
            let off = FilterSwitches { skip_all: true, skip_sao: false };
            let no_sao = FilterSwitches { skip_all: false, skip_sao: true };
            &&& filters::loop_filtered(p, st, sps, pps, c, off) == p@
            &&& filters::loop_filtered(p, st, sps, pps, c, no_sao).data[y * p.stride + x]
                == filters::fully_deblocked(st, sps, pps, c, deblock::samples(p), x, y) as u16
        }),
{
    crate::arith::lemma_flat_bound(x, y, p.stride as int, p.height as int);
    lemma_flat_parts(x, y, p.stride as int);
}

} // verus!
