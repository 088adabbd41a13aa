//! In-loop filters, applied to a whole picture after all its slices decoded:
//! deblocking (§8.7.2), then sample adaptive offset (§8.7.3).
//!
//! Deblocking works on the 8×8 luma grid over the transform and prediction
//! edges that the syntax marked in [`PicState::edges`].

use crate::arith;
use crate::deblock;
use crate::deblock::EdgeParams;
use crate::decoder::CurrentPicture;
use crate::frame::{Plane, PlaneView};
use crate::pic::{Motion, PicState, PRED_INTRA, PRED_NONE};
use crate::ps::{Pps, Sps};
use crate::sao;
use crate::tables::{BETA_TABLE, CHROMA_QP_420, TC_TABLE};
use vstd::arithmetic::power2::*;
use vstd::prelude::*;

verus! {

// ---- boundary strength (§8.7.2.4) ----

/// The number of set bits.
pub open spec fn ones(v: int) -> int
    decreases v,
{
    if v <= 0 {
        0
    } else {
        v % 2 + ones(v / 2)
    }
}

fn count_ones(v: u8) -> (r: u32)
    ensures
        r == ones(v as int),
        r <= 8,
{
    let mut rest = v;
    let mut n: u32 = 0;
    let mut i: u32 = 0;
    proof {
        lemma2_to64();
    }
    while rest > 0
        invariant
            i <= 8,
            n <= i,
            rest < pow2((8 - i) as nat),
            n + ones(rest as int) == ones(v as int),
        decreases rest,
    {
        proof {
            lemma2_to64();
            if i < 8 {
                lemma_pow2_adds((7 - i) as nat, 1);
            }
        }
        n += (rest % 2) as u32;
        rest = rest / 2;
        i += 1;
    }
    n
}

/// Two vectors differ by a whole sample or more in a component.
pub open spec fn far(a: [i16; 2], b: [i16; 2]) -> bool {
    arith::magnitude(a@[0] - b@[0]) >= 4 || arith::magnitude(a@[1] - b@[1]) >= 4
}

fn is_far(a: &[i16; 2], b: &[i16; 2]) -> (r: bool)
    ensures
        r == far(*a, *b),
{
    let dx = a[0] as i32 - b[0] as i32;
    let dy = a[1] as i32 - b[1] as i32;
    dx >= 4 || dx <= -4 || dy >= 4 || dy <= -4
}

/// The list that a block with one motion vector uses.
pub open spec fn only_list(m: Motion) -> int {
    if m.pred_flags % 2 == 1 {
        0
    } else {
        1
    }
}

/// The motion of two blocks calls for a filtered edge: another number of
/// vectors, other pictures, or vectors far apart.
pub open spec fn motion_differs(p: Motion, q: Motion) -> bool {
    let (p0, p1) = (p.ref_poc@[0], p.ref_poc@[1]);
    let (q0, q1) = (q.ref_poc@[0], q.ref_poc@[1]);
    let straight = far(p.mv@[0], q.mv@[0]) || far(p.mv@[1], q.mv@[1]);
    let crossed = far(p.mv@[0], q.mv@[1]) || far(p.mv@[1], q.mv@[0]);
    if ones(p.pred_flags as int) != ones(q.pred_flags as int) {
        true
    } else if ones(p.pred_flags as int) == 1 {
        let (a, b) = (only_list(p), only_list(q));
        p.ref_poc@[a] != q.ref_poc@[b] || far(p.mv@[a], q.mv@[b])
    } else if !(p0 == q0 && p1 == q1 || p0 == q1 && p1 == q0) {
        true
    } else if p0 != p1 {
        // Distinct reference pictures: compare the vectors that share one.
        if p0 == q0 {
            straight
        } else {
            crossed
        }
    } else {
        straight && crossed
    }
}

fn motion_apart(p: &Motion, q: &Motion) -> (r: bool)
    ensures
        r == motion_differs(*p, *q),
{
    let np = count_ones(p.pred_flags);
    let nq = count_ones(q.pred_flags);
    if np != nq {
        return true;
    }
    if np == 1 {
        let a: usize = if p.pred_flags % 2 == 1 {
            0
        } else {
            1
        };
        let b: usize = if q.pred_flags % 2 == 1 {
            0
        } else {
            1
        };
        return p.ref_poc[a] != q.ref_poc[b] || is_far(&p.mv[a], &q.mv[b]);
    }
    let (p0, p1, q0, q1) = (p.ref_poc[0], p.ref_poc[1], q.ref_poc[0], q.ref_poc[1]);
    let same_set = (p0 == q0 && p1 == q1) || (p0 == q1 && p1 == q0);
    if !same_set {
        return true;
    }
    let straight = is_far(&p.mv[0], &q.mv[0]) || is_far(&p.mv[1], &q.mv[1]);
    let crossed = is_far(&p.mv[0], &q.mv[1]) || is_far(&p.mv[1], &q.mv[0]);
    if p0 != p1 {
        if p0 == q0 {
            straight
        } else {
            crossed
        }
    } else {
        straight && crossed
    }
}

/// §8.7.2.4: 2 next to intra, 1 for coefficients at a transform edge or for
/// different motion, else 0.
pub open spec fn strength(st: PicState, p: int, q: int, tu_edge: bool) -> u8 {
    if st.pred_mode@[p] == PRED_INTRA || st.pred_mode@[q] == PRED_INTRA {
        2
    } else if tu_edge && (st.nz@[p] != 0 || st.nz@[q] != 0) {
        1
    } else if motion_differs(st.motion@[p], st.motion@[q]) {
        1
    } else {
        0
    }
}

/// Boundary strength for the edge between the 4×4 blocks `p` and `q` (indices
/// into the per-4×4 maps); `tu_edge` says the edge is a transform block edge.
pub fn boundary_strength(st: &PicState, p: usize, q: usize, tu_edge: bool) -> (r: u8)
    requires
        p < st.pred_mode@.len() && q < st.pred_mode@.len(),
        p < st.nz@.len() && q < st.nz@.len(),
        p < st.motion@.len() && q < st.motion@.len(),
    ensures
        r == strength(*st, p as int, q as int, tu_edge),
{
    if st.pred_mode[p] == PRED_INTRA || st.pred_mode[q] == PRED_INTRA {
        return 2;
    }
    if tu_edge && (st.nz[p] != 0 || st.nz[q] != 0) {
        return 1;
    }
    if motion_apart(&st.motion[p], &st.motion[q]) {
        1
    } else {
        0
    }
}

/// Whether the edge between two luma locations may be filtered at all: the
/// slice of `q` deblocks, and no tile or slice boundary forbids it.
pub open spec fn allowed(st: PicState, pps: Pps, xp: int, yp: int, xq: int, yq: int) -> bool {
    let cp = st.ctb_at(xp, yp);
    let cq = st.ctb_at(xq, yq);
    let fq = st.ctb_filter@[cq];
    &&& !fq.deblock_disabled
    &&& cp != cq ==> {
        &&& st.tile_id@[cp] == st.tile_id@[cq] || pps.loop_filter_across_tiles_enabled
        &&& st.slice_addr@[cp] == st.slice_addr@[cq] || fq.lf_across_slices
    }
}

pub fn edge_allowed(st: &PicState, pps: &Pps, xp: usize, yp: usize, xq: usize, yq: usize) -> (r:
    bool)
    requires
        st.grid_ok(),
        st.in_grid(xp + 1, yp + 1),
        st.in_grid(xq + 1, yq + 1),
    ensures
        r == allowed(*st, *pps, xp as int, yp as int, xq as int, yq as int),
{
    proof {
        st.lemma_in_grid(xp as int, yp as int);
        st.lemma_in_grid(xq as int, yq as int);
        assert(st.slice_addr@.len() == st.slice_addr.len());
    }
    let cq = st.ctb_of(xq, yq);
    let cp = st.ctb_of(xp, yp);
    let fq = &st.ctb_filter[cq];
    if fq.deblock_disabled {
        return false;
    }
    if cp != cq {
        if st.tile_id[cp] != st.tile_id[cq] && !pps.loop_filter_across_tiles_enabled {
            return false;
        }
        if st.slice_addr[cp] != st.slice_addr[cq] && !fq.lf_across_slices {
            return false;
        }
    }
    true
}

/// The 4×4 block before block (`x4`, `y4`) across its left (`dir` 0) or top
/// edge.
pub open spec fn block_before(st: PicState, dir: int, x4: int, y4: int) -> int {
    if dir == 0 {
        y4 * st.w4 + x4 - 1
    } else {
        (y4 - 1) * st.w4 + x4
    }
}

/// The strength of the left (`dir` 0) or top edge of block (`x4`, `y4`); 0
/// where there is no edge to filter.
pub open spec fn edge_strength(st: PicState, pps: Pps, dir: int, x4: int, y4: int) -> u8 {
    let i = y4 * st.w4 + x4;
    let p = block_before(st, dir, x4, y4);
    let e = st.edges@[i];
    let (along, marks, tu) = if dir == 0 {
        (x4, 5u8, 1u8)
    } else {
        (y4, 10u8, 2u8)
    };
    let (xp, yp) = if dir == 0 {
        (4 * x4 - 1, 4 * y4)
    } else {
        (4 * x4, 4 * y4 - 1)
    };
    if st.pred_mode@[i] != PRED_NONE && along > 0 && along % 2 == 0 && (e & marks) != 0
        && st.pred_mode@[p] != PRED_NONE && allowed(st, pps, xp, yp, 4 * x4, 4 * y4) {
        strength(st, p, i, (e & tu) != 0)
    } else {
        0
    }
}

fn strength_at(st: &PicState, pps: &Pps, dir: usize, x4: usize, y4: usize) -> (b: u8)
    requires
        st.wf(),
        dir <= 1,
        x4 < st.w4,
        y4 < st.h4,
    ensures
        b == edge_strength(*st, *pps, dir as int, x4 as int, y4 as int),
        b <= 2,
{
    proof {
        st.lemma_sizes();
        st.lemma_grid();
        arith::lemma_flat_bound(x4 as int, y4 as int, st.w4 as int, st.h4 as int);
    }
    let i = y4 * st.w4 + x4;
    if st.pred_mode[i] == PRED_NONE {
        return 0;
    }
    let e = st.edges[i];
    let (along, marks, tu): (usize, u8, u8) = if dir == 0 {
        (x4, 5, 1)
    } else {
        (y4, 10, 2)
    };
    if !(along > 0 && along % 2 == 0 && (e & marks) != 0) {
        return 0;
    }
    proof {
        if dir == 1 {
            arith::lemma_flat_bound(x4 as int, y4 - 1, st.w4 as int, st.h4 as int);
            assert((y4 - 1) * st.w4 == y4 * st.w4 - st.w4) by (nonlinear_arith);
        }
    }
    let p = if dir == 0 {
        i - 1
    } else {
        i - st.w4
    };
    let (xp, yp) = if dir == 0 {
        (x4 * 4 - 1, y4 * 4)
    } else {
        (x4 * 4, y4 * 4 - 1)
    };
    if st.pred_mode[p] != PRED_NONE && edge_allowed(st, pps, xp, yp, x4 * 4, y4 * 4) {
        boundary_strength(st, p, i, (e & tu) != 0)
    } else {
        0
    }
}

// ---- deblocking ----

/// The samples that a 4×4 luma block spans in component `c`.
pub open spec fn span(c: int) -> int {
    if c == 0 {
        4
    } else {
        2
    }
}

/// The 4×4 blocks between two edges of the component's 8-sample grid.
pub open spec fn grid(c: int) -> int {
    if c == 0 {
        2
    } else {
        4
    }
}

/// The edge segment whose filter can reach sample (`x`, `y`), by the 4×4 block
/// behind it: the nearest edge of the component's grid.
pub open spec fn edge_block(c: int, dir: int, x: int, y: int) -> (int, int) {
    if dir == 0 {
        (grid(c) * ((x + 4) / 8), y / span(c))
    } else {
        (x / span(c), grid(c) * ((y + 4) / 8))
    }
}

/// The chroma quantization parameter of deblocking (8.7.2.5.5): the table
/// continued past its end.
pub open spec fn deblock_chroma_qp(qpi: int) -> int {
    if qpi < 0 {
        qpi
    } else if qpi > 57 {
        qpi - 6
    } else {
        CHROMA_QP_420@[qpi] as int
    }
}

/// What the edge of block (`x4`, `y4`) is filtered with in component `c`.
pub open spec fn edge_params(
    st: PicState,
    sps: Sps,
    pps: Pps,
    c: int,
    dir: int,
    x4: int,
    y4: int,
    b: int,
) -> EdgeParams {
    let i = y4 * st.w4 + x4;
    let p = block_before(st, dir, x4, y4);
    let f = st.ctb_filter@[st.ctb_at(4 * x4, 4 * y4)];
    let qp = (st.qp_y@[p] + st.qp_y@[i] + 1) / 2;
    let bd = if c == 0 {
        sps.bit_depth_luma
    } else {
        sps.bit_depth_chroma
    };
    let scale = pow2((bd - 8) as nat) as int;
    let qt = if c == 0 {
        qp + 2 * (b - 1) + 2 * f.tc_offset_div2
    } else {
        deblock_chroma_qp(qp + (if c == 1 {
            pps.cb_qp_offset as int
        } else {
            pps.cr_qp_offset as int
        })) + 2 + 2 * f.tc_offset_div2
    };
    EdgeParams {
        beta: (BETA_TABLE@[arith::clip3(0, 51, qp + 2 * f.beta_offset_div2)] * scale) as i32,
        tc: (TC_TABLE@[arith::clip3(0, 53, qt)] * scale) as i32,
        no_p: st.filter_bypass@[p] != 0,
        no_q: st.filter_bypass@[i] != 0,
        max: (pow2(bd as nat) - 1) as i32,
    }
}

/// Sample (`x`, `y`) of component `c` after the edges of one direction are
/// filtered. Luma takes every strength, chroma only the strongest.
#[verifier::opaque]
pub open spec fn deblocked(
    st: PicState,
    sps: Sps,
    pps: Pps,
    c: int,
    dir: int,
    f: spec_fn(int, int) -> int,
    x: int,
    y: int,
) -> int {
    let (x4, y4) = edge_block(c, dir, x, y);
    let (ex, ey) = (span(c) * x4, span(c) * y4);
    let b = edge_strength(st, pps, dir, x4, y4);
    if x4 < st.w4 && y4 < st.h4 && (if dir == 0 {
        x4 > 0
    } else {
        y4 > 0
    }) && (if c == 0 {
        b != 0
    } else {
        b == 2
    }) {
        let e = edge_params(st, sps, pps, c, dir, x4, y4, b as int);
        if c == 0 {
            deblock::luma_cell(f, dir, ex, ey, e, x, y)
        } else {
            deblock::chroma_cell(f, dir, ex, ey, e, x, y)
        }
    } else {
        f(x, y)
    }
}

/// One direction of deblocking as a picture.
pub open spec fn pass(
    st: PicState,
    sps: Sps,
    pps: Pps,
    c: int,
    dir: int,
    f: spec_fn(int, int) -> int,
) -> spec_fn(int, int) -> int {
    |x: int, y: int| deblocked(st, sps, pps, c, dir, f, x, y)
}

/// The plane of component `c` has the picture's size in 4:2:0.
pub open spec fn plane_fits(p: Plane, st: PicState, c: int) -> bool {
    &&& p.wf()
    &&& 4 * p.width == st.width * span(c)
    &&& 4 * p.height == st.height * span(c)
}

fn params_at(
    st: &PicState,
    sps: &Sps,
    pps: &Pps,
    c: usize,
    dir: usize,
    x4: usize,
    y4: usize,
    b: u8,
) -> (e: EdgeParams)
    requires
        st.wf(),
        sps.wf(),
        pps.wf(),
        c <= 2,
        dir <= 1,
        x4 < st.w4,
        y4 < st.h4,
        if dir == 0 {
            x4 > 0
        } else {
            y4 > 0
        },
        b <= 2,
    ensures
        e == edge_params(
            *st,
            *sps,
            *pps,
            c as int,
            dir as int,
            x4 as int,
            y4 as int,
            b as int,
        ),
        e.wf(),
{
    proof {
        st.lemma_sizes();
        arith::lemma_flat_bound(x4 as int, y4 as int, st.w4 as int, st.h4 as int);
        st.lemma_inside(4 * x4, 4 * y4);
        if dir == 1 {
            arith::lemma_flat_bound(x4 as int, y4 - 1, st.w4 as int, st.h4 as int);
            assert((y4 - 1) * st.w4 == y4 * st.w4 - st.w4) by (nonlinear_arith);
        }
        lemma2_to64();
    }
    let i = y4 * st.w4 + x4;
    let p = if dir == 0 {
        i - 1
    } else {
        i - st.w4
    };
    let f = &st.ctb_filter[st.ctb_of(x4 * 4, y4 * 4)];
    let qp = arith::asr(st.qp_y[p] as i32 + st.qp_y[i] as i32 + 1, 1);
    let bd = if c == 0 {
        sps.bit_depth_luma
    } else {
        sps.bit_depth_chroma
    };
    let qb = arith::clip_i32(0, 51, qp + 2 * f.beta_offset_div2 as i32);
    let qt0 = if c == 0 {
        qp + 2 * (b as i32 - 1)
    } else {
        let off = if c == 1 {
            pps.cb_qp_offset
        } else {
            pps.cr_qp_offset
        };
        let qpi = qp + off;
        let qpc = if qpi < 0 {
            qpi
        } else if qpi > 57 {
            qpi - 6
        } else {
            CHROMA_QP_420[qpi as usize] as i32
        };
        qpc + 2
    };
    let qt = arith::clip_i32(0, 53, qt0 + 2 * f.tc_offset_div2 as i32);
    let scale = arith::pow2_i32((bd - 8) as u32);
    let bv = BETA_TABLE[qb as usize];
    let tv = TC_TABLE[qt as usize];
    proof {
        arith::lemma_pow2_le((bd - 8) as nat, 8);
        arith::lemma_pow2_le(bd as nat, 16);
        assert(0 <= bv * scale <= 0x1_0000 && 0 <= tv * scale <= 0x1_0000) by (nonlinear_arith)
            requires
                0 <= bv <= 255,
                0 <= tv <= 255,
                0 <= scale <= 256,
        ;
    }
    EdgeParams {
        beta: bv as i32 * scale,
        tc: tv as i32 * scale,
        no_p: st.filter_bypass[p] != 0,
        no_q: st.filter_bypass[i] != 0,
        max: arith::pow2_i32(bd as u32) - 1,
    }
}

/// `bs` holds the strengths of one direction, block by block.
pub open spec fn strengths_of(bs: Seq<u8>, st: PicState, pps: Pps, dir: int) -> bool {
    &&& bs.len() == st.w4 * st.h4
    &&& forall|x4: int, y4: int|
        #![trigger bs[y4 * st.w4 + x4]]
        0 <= x4 < st.w4 && 0 <= y4 < st.h4 ==> bs[y4 * st.w4 + x4] == edge_strength(
            st,
            pps,
            dir,
            x4,
            y4,
        )
}

/// The edge's block lies on the grid, and its cell is exactly the samples that
/// it serves.
proof fn lemma_edge_block(c: int, dir: int, x4: int, y4: int, x: int, y: int)
    requires
        0 <= c <= 2,
        dir == 0 || dir == 1,
        0 <= x,
        0 <= y,
    ensures
        0 <= edge_block(c, dir, x, y).0,
        0 <= edge_block(c, dir, x, y).1,
        dir == 0 ==> edge_block(c, dir, x, y).0 % grid(c) == 0,
        dir == 1 ==> edge_block(c, dir, x, y).1 % grid(c) == 0,
        (if dir == 0 {
            x4 % grid(c) == 0
        } else {
            y4 % grid(c) == 0
        }) ==> (deblock::in_cell(dir, span(c) * x4, span(c) * y4, span(c), x, y) <==> edge_block(
            c,
            dir,
            x,
            y,
        ) == (x4, y4)),
{
    let (along, at, across, line) = if dir == 0 {
        (x, x4, y, y4)
    } else {
        (y, y4, x, x4)
    };
    let q = at / grid(c);
    if c == 0 {
        assert(at % 2 == 0 ==> 4 * at == 8 * q);
        assert(-4 <= along - 8 * q < 4 <==> (along + 4) / 8 == q);
        assert(0 <= across - 4 * line < 4 <==> across / 4 == line);
    } else {
        assert(at % 4 == 0 ==> 2 * at == 8 * q);
        assert(-4 <= along - 8 * q < 4 <==> (along + 4) / 8 == q);
        assert(0 <= across - 2 * line < 2 <==> across / 2 == line);
    }
}

/// A sample whose nearest edge is not filtered stays as it is.
proof fn lemma_no_edge(
    st: PicState,
    sps: Sps,
    pps: Pps,
    c: int,
    dir: int,
    f: spec_fn(int, int) -> int,
    x: int,
    y: int,
)
    requires
        ({
            let (x4, y4) = edge_block(c, dir, x, y);
            let b = edge_strength(st, pps, dir, x4, y4);
            ||| x4 >= st.w4
            ||| y4 >= st.h4
            ||| dir == 0 && x4 <= 0
            ||| dir != 0 && y4 <= 0
            ||| c == 0 && b == 0
            ||| c != 0 && b != 2
        }),
    ensures
        deblocked(st, sps, pps, c, dir, f, x, y) == f(x, y),
{
    reveal(deblocked);
}

/// The edge that serves (`x`, `y`) precedes block (`x4`, `y4`) in row order.
spec fn edge_done(c: int, dir: int, x: int, y: int, x4: int, y4: int) -> bool {
    let (bx, by) = edge_block(c, dir, x, y);
    by < y4 || by == y4 && bx < x4
}

/// Filters the edges of one direction in one plane.
fn plane_pass(
    plane: &mut Plane,
    st: &PicState,
    sps: &Sps,
    pps: &Pps,
    c: usize,
    dir: usize,
    bs: &Vec<u8>,
)
    requires
        st.wf(),
        sps.wf(),
        pps.wf(),
        c <= 2,
        dir <= 1,
        plane_fits(*old(plane), *st, c as int),
        strengths_of(bs@, *st, *pps, dir as int),
    ensures
        plane_fits(*final(plane), *st, c as int),
        final(plane).same_shape(*old(plane)),
        forall|x: int, y: int|
            #![trigger final(plane).at(x, y)]
            0 <= x < old(plane).stride && 0 <= y < old(plane).height ==> final(plane).at(x, y)
                == deblocked(
                *st,
                *sps,
                *pps,
                c as int,
                dir as int,
                deblock::samples(*old(plane)),
                x,
                y,
            ),
{
    let ghost o = *plane;
    let ghost f = deblock::samples(o);
    let ghost ci = c as int;
    let ghost di = dir as int;
    let u: usize = if c == 0 {
        4
    } else {
        2
    };
    let step: usize = if c == 0 {
        2
    } else {
        4
    };
    let (ys, ystep, xs, xstep): (usize, usize, usize, usize) = if dir == 0 {
        (0, 1, step, step)
    } else {
        (step, step, 0, 1)
    };
    proof {
        st.lemma_sizes();
        assert forall|a: int, b: int|
            #![trigger plane.at(a, b)]
            0 <= a < o.stride && 0 <= b < o.height implies plane.at(a, b) == (if edge_done(
            ci,
            di,
            a,
            b,
            xs as int,
            ys as int,
        ) {
            deblocked(*st, *sps, *pps, ci, di, f, a, b)
        } else {
            f(a, b)
        }) by {
            lemma_edge_block(ci, di, 0, 0, a, b);
            if edge_done(ci, di, a, b, xs as int, ys as int) {
                lemma_no_edge(*st, *sps, *pps, ci, di, f, a, b);
            }
        }
    }
    let mut y4 = ys;
    while y4 < st.h4
        invariant
            st.wf(),
            sps.wf(),
            pps.wf(),
            c <= 2,
            dir <= 1,
            ci == c,
            di == dir,
            u == span(ci),
            step == grid(ci),
            (ys, ystep, xs, xstep) == (if dir == 0 {
                (0usize, 1usize, step, step)
            } else {
                (step, step, 0usize, 1usize)
            }),
            st.w4 <= 0x4000,
            st.h4 <= 0x4000,
            y4 <= st.h4 + 4,
            dir == 1 ==> y4 % step == 0 && y4 > 0,
            f == deblock::samples(o),
            plane_fits(o, *st, ci),
            plane_fits(*plane, *st, ci),
            plane.same_shape(o),
            strengths_of(bs@, *st, *pps, di),
            forall|a: int, b: int|
                #![trigger plane.at(a, b)]
                0 <= a < o.stride && 0 <= b < o.height ==> plane.at(a, b) == (if edge_done(
                    ci,
                    di,
                    a,
                    b,
                    xs as int,
                    y4 as int,
                ) {
                    deblocked(*st, *sps, *pps, ci, di, f, a, b)
                } else {
                    f(a, b)
                }),
        decreases st.h4 + 4 - y4,
    {
        let mut x4 = xs;
        while x4 < st.w4
            invariant
                st.wf(),
                sps.wf(),
                pps.wf(),
                c <= 2,
                dir <= 1,
                ci == c,
                di == dir,
                u == span(ci),
                step == grid(ci),
                (ys, ystep, xs, xstep) == (if dir == 0 {
                    (0usize, 1usize, step, step)
                } else {
                    (step, step, 0usize, 1usize)
                }),
                st.w4 <= 0x4000,
                st.h4 <= 0x4000,
                y4 < st.h4,
                x4 <= st.w4 + 4,
                dir == 1 ==> y4 % step == 0 && y4 > 0,
                dir == 0 ==> x4 % step == 0 && x4 > 0,
                f == deblock::samples(o),
                plane_fits(o, *st, ci),
                plane_fits(*plane, *st, ci),
                plane.same_shape(o),
                strengths_of(bs@, *st, *pps, di),
                forall|a: int, b: int|
                    #![trigger plane.at(a, b)]
                    0 <= a < o.stride && 0 <= b < o.height ==> plane.at(a, b) == (if edge_done(
                        ci,
                        di,
                        a,
                        b,
                        x4 as int,
                        y4 as int,
                    ) {
                        deblocked(*st, *sps, *pps, ci, di, f, a, b)
                    } else {
                        f(a, b)
                    }),
            decreases st.w4 + 4 - x4,
        {
            proof {
                st.lemma_sizes();
                arith::lemma_flat_bound(x4 as int, y4 as int, st.w4 as int, st.h4 as int);
            }
            let ghost cur = *plane;
            let b = bs[y4 * st.w4 + x4];
            if (c == 0 && b != 0) || (c != 0 && b == 2) {
                filter_segment(plane, st, sps, pps, c, dir, x4, y4, b, Ghost(o));
            }
            proof {
                assert forall|a: int, bb: int|
                    #![trigger plane.at(a, bb)]
                    0 <= a < o.stride && 0 <= bb < o.height implies plane.at(a, bb) == (
                if edge_done(ci, di, a, bb, x4 + xstep, y4 as int) {
                    deblocked(*st, *sps, *pps, ci, di, f, a, bb)
                } else {
                    f(a, bb)
                }) by {
                    lemma_edge_block(ci, di, x4 as int, y4 as int, a, bb);
                    assert(cur.at(a, bb) == (if edge_done(ci, di, a, bb, x4 as int, y4 as int) {
                        deblocked(*st, *sps, *pps, ci, di, f, a, bb)
                    } else {
                        f(a, bb)
                    }));
                    if edge_block(ci, di, a, bb) == (x4 as int, y4 as int) {
                        if !(c == 0 && b != 0 || c != 0 && b == 2) {
                            lemma_no_edge(*st, *sps, *pps, ci, di, f, a, bb);
                        }
                    }
                }
            }
            x4 += xstep;
        }
        proof {
            assert forall|a: int, b: int|
                #![trigger plane.at(a, b)]
                0 <= a < o.stride && 0 <= b < o.height implies plane.at(a, b) == (if edge_done(
                ci,
                di,
                a,
                b,
                xs as int,
                y4 + ystep,
            ) {
                deblocked(*st, *sps, *pps, ci, di, f, a, b)
            } else {
                f(a, b)
            }) by {
                lemma_edge_block(ci, di, 0, 0, a, b);
                let (bx, by) = edge_block(ci, di, a, b);
                if edge_done(ci, di, a, b, xs as int, y4 + ystep) && !edge_done(
                    ci,
                    di,
                    a,
                    b,
                    x4 as int,
                    y4 as int,
                ) {
                    lemma_no_edge(*st, *sps, *pps, ci, di, f, a, b);
                }
            }
        }
        y4 += ystep;
    }
    proof {
        assert forall|a: int, b: int|
            #![trigger plane.at(a, b)]
            0 <= a < o.stride && 0 <= b < o.height implies plane.at(a, b) == deblocked(
            *st,
            *sps,
            *pps,
            ci,
            di,
            f,
            a,
            b,
        ) by {
            lemma_edge_block(ci, di, 0, 0, a, b);
            if !edge_done(ci, di, a, b, xs as int, y4 as int) {
                lemma_no_edge(*st, *sps, *pps, ci, di, f, a, b);
            }
        }
    }
}

/// Filters the edge of one block; the samples it reaches are still those of
/// `o`.
fn filter_segment(
    plane: &mut Plane,
    st: &PicState,
    sps: &Sps,
    pps: &Pps,
    c: usize,
    dir: usize,
    x4: usize,
    y4: usize,
    b: u8,
    Ghost(o): Ghost<Plane>,
)
    requires
        st.wf(),
        sps.wf(),
        pps.wf(),
        c <= 2,
        dir <= 1,
        x4 < st.w4,
        y4 < st.h4,
        dir == 0 ==> x4 % grid(c as int) as usize == 0 && x4 > 0,
        dir == 1 ==> y4 % grid(c as int) as usize == 0 && y4 > 0,
        b == edge_strength(*st, *pps, dir as int, x4 as int, y4 as int),
        if c == 0 {
            b != 0
        } else {
            b == 2
        },
        plane_fits(*old(plane), *st, c as int),
        old(plane).same_shape(o),
        forall|x: int, y: int|
            #![trigger old(plane).at(x, y)]
            0 <= x < o.stride && 0 <= y < o.height && edge_block(c as int, dir as int, x, y) == (
                x4 as int,
                y4 as int,
            ) ==> old(plane).at(x, y) == o.at(x, y),
    ensures
        plane_fits(*final(plane), *st, c as int),
        final(plane).same_shape(*old(plane)),
        forall|x: int, y: int|
            #![trigger final(plane).at(x, y)]
            0 <= x < o.stride && 0 <= y < o.height ==> final(plane).at(x, y) == (if edge_block(
                c as int,
                dir as int,
                x,
                y,
            ) == (x4 as int, y4 as int) {
                deblocked(
                    *st,
                    *sps,
                    *pps,
                    c as int,
                    dir as int,
                    deblock::samples(o),
                    x,
                    y,
                )
            } else {
                old(plane).at(x, y) as int
            }),
{
    let ghost cur = *plane;
    let ghost ci = c as int;
    let ghost di = dir as int;
    proof {
        st.lemma_sizes();
        lemma_cell_fits(cur, *st, ci, di, x4 as int, y4 as int);
    }
    let e = params_at(st, sps, pps, c, dir, x4, y4, b);
    if c == 0 {
        deblock::luma_edge(plane, 4 * x4, 4 * y4, dir, &e);
    } else {
        deblock::filter_chroma_edge(plane, 2 * x4, 2 * y4, dir, &e);
    }
    proof {
        let g = deblock::samples(cur);
        let f = deblock::samples(o);
        assert forall|x: int, y: int|
            #![trigger g(x, y)]
            0 <= x < cur.stride && 0 <= y < cur.height && edge_block(ci, di, x, y) == (
                x4 as int,
                y4 as int,
            ) implies g(x, y) == f(x, y) by {
            assert(cur.at(x, y) == o.at(x, y));
        }
        lemma_segment_lines(g, f, cur, *st, ci, di, x4 as int, y4 as int);
        assert forall|x: int, y: int|
            #![trigger plane.at(x, y)]
            0 <= x < o.stride && 0 <= y < o.height implies plane.at(x, y) == (if edge_block(
            ci,
            di,
            x,
            y,
        ) == (x4 as int, y4 as int) {
            deblocked(*st, *sps, *pps, ci, di, deblock::samples(o), x, y)
        } else {
            cur.at(x, y) as int
        }) by {
            lemma_edge_block(ci, di, x4 as int, y4 as int, x, y);
            if edge_block(ci, di, x, y) == (x4 as int, y4 as int) {
                lemma_edge_cell(*st, *sps, *pps, g, f, ci, di, x, y, e);
            }
        }
    }
}

/// Two pictures agree on the samples of a plane.
spec fn agree_on(f: spec_fn(int, int) -> int, g: spec_fn(int, int) -> int, p: Plane) -> bool {
    forall|x: int, y: int|
        #![trigger f(x, y)]
        0 <= x < p.stride && 0 <= y < p.height ==> f(x, y) == g(x, y)
}

/// The lines across an edge on which two pictures agree.
proof fn lemma_segment_lines(
    f: spec_fn(int, int) -> int,
    g: spec_fn(int, int) -> int,
    p: Plane,
    st: PicState,
    c: int,
    dir: int,
    x4: int,
    y4: int,
)
    requires
        0 <= c <= 2,
        dir == 0 || dir == 1,
        st.shape_ok(),
        plane_fits(p, st, c),
        0 <= x4 < st.w4,
        0 <= y4 < st.h4,
        dir == 0 ==> x4 % grid(c) == 0 && x4 > 0,
        dir == 1 ==> y4 % grid(c) == 0 && y4 > 0,
        forall|x: int, y: int|
            #![trigger f(x, y)]
            0 <= x < p.stride && 0 <= y < p.height && edge_block(c, dir, x, y) == (x4, y4) ==> f(
                x,
                y,
            ) == g(x, y),
    ensures
        forall|k: int|
            #![trigger deblock::line_at(f, dir, span(c) * x4, span(c) * y4, k)]
            0 <= k < span(c) ==> deblock::line_at(f, dir, span(c) * x4, span(c) * y4, k)
                == deblock::line_at(g, dir, span(c) * x4, span(c) * y4, k),
{
    let u = span(c);
    let ex = u * x4;
    let ey = u * y4;
    lemma_cell_fits(p, st, c, dir, x4, y4);
    assert forall|k: int|
        #![trigger deblock::line_at(f, dir, ex, ey, k)]
        0 <= k < u implies deblock::line_at(f, dir, ex, ey, k) == deblock::line_at(
        g,
        dir,
        ex,
        ey,
        k,
    ) by {
        assert forall|t: int|
            #![trigger f(deblock::tap_x(dir, ex, k, t), deblock::tap_y(dir, ey, k, t))]
            0 <= t < 8 implies f(deblock::tap_x(dir, ex, k, t), deblock::tap_y(dir, ey, k, t)) == g(
            deblock::tap_x(dir, ex, k, t),
            deblock::tap_y(dir, ey, k, t),
        ) by {
            let (tx, ty) = (deblock::tap_x(dir, ex, k, t), deblock::tap_y(dir, ey, k, t));
            lemma_edge_block(c, dir, x4, y4, tx, ty);
        }
        deblock::lemma_line_same(f, g, dir, ex, ey, k);
    }
}

/// Deblocking a sample depends on samples inside the plane only.
proof fn lemma_deblocked_local(
    st: PicState,
    sps: Sps,
    pps: Pps,
    c: int,
    dir: int,
    f: spec_fn(int, int) -> int,
    g: spec_fn(int, int) -> int,
    p: Plane,
    x: int,
    y: int,
)
    requires
        0 <= c <= 2,
        dir == 0 || dir == 1,
        st.shape_ok(),
        plane_fits(p, st, c),
        agree_on(f, g, p),
        0 <= x < p.stride,
        0 <= y < p.height,
    ensures
        deblocked(st, sps, pps, c, dir, f, x, y) == deblocked(st, sps, pps, c, dir, g, x, y),
{
    let (x4, y4) = edge_block(c, dir, x, y);
    let b = edge_strength(st, pps, dir, x4, y4);
    lemma_edge_block(c, dir, x4, y4, x, y);
    assert(f(x, y) == g(x, y));
    if x4 >= st.w4 || y4 >= st.h4 || (dir == 0 && x4 <= 0) || (dir != 0 && y4 <= 0) || (c == 0 && b
        == 0) || (c != 0 && b != 2) {
        lemma_no_edge(st, sps, pps, c, dir, f, x, y);
        lemma_no_edge(st, sps, pps, c, dir, g, x, y);
    } else {
        let e = edge_params(st, sps, pps, c, dir, x4, y4, b as int);
        lemma_segment_lines(f, g, p, st, c, dir, x4, y4);
        lemma_segment_lines(g, g, p, st, c, dir, x4, y4);
        lemma_edge_cell(st, sps, pps, f, g, c, dir, x, y, e);
        lemma_edge_cell(st, sps, pps, f, f, c, dir, x, y, e);
    }
}

/// An edge's samples lie inside the plane: the picture is a multiple of 8
/// wide and high.
proof fn lemma_cell_fits(p: Plane, st: PicState, c: int, dir: int, x4: int, y4: int)
    requires
        0 <= c <= 2,
        dir == 0 || dir == 1,
        st.shape_ok(),
        plane_fits(p, st, c),
        0 <= x4 < st.w4,
        0 <= y4 < st.h4,
        dir == 0 ==> x4 % grid(c) == 0 && x4 > 0,
        dir == 1 ==> y4 % grid(c) == 0 && y4 > 0,
    ensures
        deblock::cell_inside(p, dir, span(c) * x4, span(c) * y4, span(c), 4),
        deblock::cell_inside(p, dir, span(c) * x4, span(c) * y4, span(c), 2),
{
    lemma_axis(p.width as int, st.width as int, st.w4 as int, c, x4);
    lemma_axis(p.height as int, st.height as int, st.h4 as int, c, y4);
}

/// A block of the picture along one axis of component `c`, and the edge before
/// it where it lies on the grid.
proof fn lemma_axis(size: int, luma: int, n4: int, c: int, b4: int)
    requires
        0 <= c <= 2,
        luma % 8 == 0,
        n4 == arith::ceil_div(luma, 4),
        4 * size == luma * span(c),
        0 <= b4 < n4,
    ensures
        span(c) * b4 + span(c) <= size,
        b4 % grid(c) == 0 && b4 > 0 ==> 4 <= span(c) * b4 && span(c) * b4 + 4 <= size,
{
    assert(luma == 4 * n4);
    assert(n4 % 2 == 0);
    if c == 0 {
        assert(size == 4 * n4);
    } else {
        assert(size == 2 * n4);
    }
}

/// A deblocked sample is that of its edge segment.
proof fn lemma_edge_cell(
    st: PicState,
    sps: Sps,
    pps: Pps,
    f: spec_fn(int, int) -> int,
    g: spec_fn(int, int) -> int,
    c: int,
    dir: int,
    x: int,
    y: int,
    e: EdgeParams,
)
    requires
        0 <= c <= 2,
        dir == 0 || dir == 1,
        ({
            let (x4, y4) = edge_block(c, dir, x, y);
            let (ex, ey) = (span(c) * x4, span(c) * y4);
            let b = edge_strength(st, pps, dir, x4, y4);
            &&& x4 < st.w4
            &&& y4 < st.h4
            &&& dir == 0 ==> x4 > 0
            &&& dir == 1 ==> y4 > 0
            &&& c == 0 ==> b != 0
            &&& c != 0 ==> b == 2
            &&& e == edge_params(st, sps, pps, c, dir, x4, y4, b as int)
            &&& deblock::in_cell(dir, ex, ey, span(c), x, y)
            &&& forall|k: int|
                #![trigger deblock::line_at(f, dir, ex, ey, k)]
                0 <= k < span(c) ==> deblock::line_at(f, dir, ex, ey, k)
                    == deblock::line_at(g, dir, ex, ey, k)
        }),
    ensures
        ({
            let (x4, y4) = edge_block(c, dir, x, y);
            let (ex, ey) = (span(c) * x4, span(c) * y4);
            deblocked(st, sps, pps, c, dir, g, x, y) == (if c == 0 {
                deblock::luma_cell(f, dir, ex, ey, e, x, y)
            } else {
                deblock::chroma_cell(f, dir, ex, ey, e, x, y)
            })
        }),
{
    reveal(deblocked);
    let (x4, y4) = edge_block(c, dir, x, y);
    let (ex, ey) = (span(c) * x4, span(c) * y4);
    let k = deblock::line_of(dir, ex, ey, x, y);
    assert(deblock::line_at(f, dir, ex, ey, k) == deblock::line_at(
        g,
        dir,
        ex,
        ey,
        k,
    ));
    if c == 0 {
        assert(deblock::line_at(f, dir, ex, ey, 0) == deblock::line_at(
            g,
            dir,
            ex,
            ey,
            0,
        ));
        assert(deblock::line_at(f, dir, ex, ey, 3) == deblock::line_at(
            g,
            dir,
            ex,
            ey,
            3,
        ));
    }
}

/// Fills `bs` with the strengths of one direction.
fn fill_strengths(st: &PicState, pps: &Pps, dir: usize, bs: &mut Vec<u8>)
    requires
        st.wf(),
        dir <= 1,
    ensures
        strengths_of(final(bs)@, *st, *pps, dir as int),
{
    bs.clear();
    proof {
        st.lemma_sizes();
    }
    let mut y4: usize = 0;
    while y4 < st.h4
        invariant
            st.wf(),
            dir <= 1,
            y4 <= st.h4,
            bs@.len() == y4 * st.w4,
            forall|a: int, b: int|
                #![trigger bs@[b * st.w4 + a]]
                0 <= a < st.w4 && 0 <= b < y4 ==> bs@[b * st.w4 + a] == edge_strength(
                    *st,
                    *pps,
                    dir as int,
                    a,
                    b,
                ),
        decreases st.h4 - y4,
    {
        let mut x4: usize = 0;
        while x4 < st.w4
            invariant
                st.wf(),
                dir <= 1,
                y4 < st.h4,
                x4 <= st.w4,
                bs@.len() == y4 * st.w4 + x4,
                forall|a: int, b: int|
                    #![trigger bs@[b * st.w4 + a]]
                    0 <= a < st.w4 && 0 <= b < y4 || 0 <= a < x4 && b == y4 ==> bs@[b * st.w4 + a]
                        == edge_strength(*st, *pps, dir as int, a, b),
            decreases st.w4 - x4,
        {
            let b = strength_at(st, pps, dir, x4, y4);
            let ghost before = bs@;
            bs.push(b);
            proof {
                assert forall|a: int, c: int|
                    #![trigger bs@[c * st.w4 + a]]
                    0 <= a < st.w4 && 0 <= c < y4 || 0 <= a < x4 + 1 && c == y4 implies bs@[c
                    * st.w4 + a] == edge_strength(*st, *pps, dir as int, a, c) by {
                    if c < y4 {
                        arith::lemma_flat_bound(a, c, st.w4 as int, y4 as int);
                        vstd::arithmetic::mul::lemma_mul_is_commutative(st.w4 as int, y4 as int);
                    } else {
                        arith::lemma_product_fits(y4 as int, st.w4 as int);
                    }
                    if a < x4 || c < y4 {
                        assert(before[c * st.w4 + a] == edge_strength(
                            *st,
                            *pps,
                            dir as int,
                            a,
                            c,
                        ));
                    }
                }
            }
            x4 += 1;
        }
        assert((y4 + 1) * st.w4 == y4 * st.w4 + st.w4) by (nonlinear_arith);
        y4 += 1;
    }
    proof {
        vstd::arithmetic::mul::lemma_mul_is_commutative(st.w4 as int, st.h4 as int);
    }
}

/// Sample (`x`, `y`) of component `c` of the deblocked picture: vertical edges
/// first, then horizontal ones over the result.
pub open spec fn fully_deblocked(
    st: PicState,
    sps: Sps,
    pps: Pps,
    c: int,
    f: spec_fn(int, int) -> int,
    x: int,
    y: int,
) -> int {
    deblocked(st, sps, pps, c, 1, pass(st, sps, pps, c, 0, f), x, y)
}

/// `p` is the deblocked plane of component `c` made from `o`.
pub open spec fn is_deblocked(
    p: Plane,
    o: Plane,
    st: PicState,
    sps: Sps,
    pps: Pps,
    c: int,
) -> bool {
    &&& p.same_shape(o)
    &&& forall|x: int, y: int|
        #![trigger p.at(x, y)]
        0 <= x < o.stride && 0 <= y < o.height ==> p.at(x, y) == fully_deblocked(
            st,
            sps,
            pps,
            c,
            deblock::samples(o),
            x,
            y,
        )
}

/// Deblocks one plane in both directions.
fn deblock_plane(
    plane: &mut Plane,
    st: &PicState,
    sps: &Sps,
    pps: &Pps,
    c: usize,
    bs_v: &Vec<u8>,
    bs_h: &Vec<u8>,
)
    requires
        st.wf(),
        sps.wf(),
        pps.wf(),
        c <= 2,
        plane_fits(*old(plane), *st, c as int),
        strengths_of(bs_v@, *st, *pps, 0),
        strengths_of(bs_h@, *st, *pps, 1),
    ensures
        plane_fits(*final(plane), *st, c as int),
        is_deblocked(*final(plane), *old(plane), *st, *sps, *pps, c as int),
{
    let ghost o = *plane;
    plane_pass(plane, st, sps, pps, c, 0, bs_v);
    let ghost mid = *plane;
    plane_pass(plane, st, sps, pps, c, 1, bs_h);
    proof {
        let f = deblock::samples(mid);
        let g = pass(*st, *sps, *pps, c as int, 0, deblock::samples(o));
        assert(agree_on(f, g, mid)) by {
            assert forall|x: int, y: int|
                #![trigger f(x, y)]
                0 <= x < mid.stride && 0 <= y < mid.height implies f(x, y) == g(x, y) by {
                assert(mid.at(x, y) == g(x, y));
            }
        }
        assert forall|x: int, y: int|
            #![trigger plane.at(x, y)]
            0 <= x < o.stride && 0 <= y < o.height implies plane.at(x, y) == fully_deblocked(
            *st,
            *sps,
            *pps,
            c as int,
            deblock::samples(o),
            x,
            y,
        ) by {
            lemma_deblocked_local(*st, *sps, *pps, c as int, 1, f, g, mid, x, y);
        }
    }
}

/// Deblocks a picture (§8.7.2). `bs_v` and `bs_h` are scratch that keeps the
/// strengths of the vertical and horizontal edges.
pub fn deblock(
    planes: &mut [Plane; 3],
    st: &PicState,
    sps: &Sps,
    pps: &Pps,
    bs_v: &mut Vec<u8>,
    bs_h: &mut Vec<u8>,
)
    requires
        st.wf(),
        sps.wf(),
        pps.wf(),
        forall|c: int|
            #![trigger old(planes)@[c]]
            0 <= c < 3 ==> plane_fits(old(planes)@[c], *st, c),
    ensures
        forall|c: int|
            #![trigger final(planes)@[c]]
            0 <= c < 3 ==> plane_fits(final(planes)@[c], *st, c) && is_deblocked(
                final(planes)@[c],
                old(planes)@[c],
                *st,
                *sps,
                *pps,
                c,
            ),
        strengths_of(final(bs_v)@, *st, *pps, 0),
        strengths_of(final(bs_h)@, *st, *pps, 1),
{
    fill_strengths(st, pps, 0, bs_v);
    fill_strengths(st, pps, 1, bs_h);
    let mut c: usize = 0;
    while c < 3
        invariant
            c <= 3,
            st.wf(),
            sps.wf(),
            pps.wf(),
            strengths_of(bs_v@, *st, *pps, 0),
            strengths_of(bs_h@, *st, *pps, 1),
            forall|i: int|
                #![trigger planes@[i]]
                0 <= i < 3 ==> plane_fits(planes@[i], *st, i) && (if i < c {
                    is_deblocked(planes@[i], old(planes)@[i], *st, *sps, *pps, i)
                } else {
                    planes@[i] == old(planes)@[i]
                }),
        decreases 3 - c,
    {
        deblock_plane(&mut planes[c], st, sps, pps, c, bs_v, bs_h);
        c += 1;
    }
}

// ---- what deblocking keeps ----

/// The bit depth of component `c`.
pub open spec fn depth_of(sps: Sps, c: int) -> nat {
    if c == 0 {
        sps.bit_depth_luma as nat
    } else {
        sps.bit_depth_chroma as nat
    }
}

/// The parameters of an edge are in range.
proof fn lemma_edge_params(
    st: PicState,
    sps: Sps,
    pps: Pps,
    c: int,
    dir: int,
    x4: int,
    y4: int,
    b: int,
)
    requires
        sps.wf(),
        0 <= c <= 2,
    ensures
        edge_params(st, sps, pps, c, dir, x4, y4, b).wf(),
        edge_params(st, sps, pps, c, dir, x4, y4, b).max == pow2(depth_of(sps, c)) - 1,
{
    let bd = depth_of(sps, c);
    let scale = pow2((bd - 8) as nat) as int;
    lemma2_to64();
    arith::lemma_pow2_le((bd - 8) as nat, 8);
    arith::lemma_pow2_le(bd, 16);
    lemma_pow2_pos((bd - 8) as nat);
    lemma_pow2_pos(bd);
    assert forall|v: u8| #![trigger v * scale] 0 <= v * scale <= 0x1_0000 by {
        assert(0 <= v * scale <= 0x1_0000) by (nonlinear_arith)
            requires
                0 <= v <= 255,
                0 <= scale <= 256,
        ;
    }
}

/// §8.7.2: deblocked samples stay in the sample range.
pub proof fn lemma_deblocked_bounded(
    st: PicState,
    sps: Sps,
    pps: Pps,
    c: int,
    dir: int,
    f: spec_fn(int, int) -> int,
    p: Plane,
    x: int,
    y: int,
)
    requires
        0 <= c <= 2,
        dir == 0 || dir == 1,
        st.shape_ok(),
        sps.wf(),
        plane_fits(p, st, c),
        in_range(f, p, pow2(depth_of(sps, c)) - 1),
        0 <= x < p.stride,
        0 <= y < p.height,
    ensures
        0 <= deblocked(st, sps, pps, c, dir, f, x, y) <= pow2(depth_of(sps, c)) - 1,
{
    let (x4, y4) = edge_block(c, dir, x, y);
    let b = edge_strength(st, pps, dir, x4, y4);
    lemma_edge_block(c, dir, x4, y4, x, y);
    assert(0 <= f(x, y) <= pow2(depth_of(sps, c)) - 1);
    if x4 >= st.w4 || y4 >= st.h4 || (dir == 0 && x4 <= 0) || (dir != 0 && y4 <= 0) || (c == 0 && b
        == 0) || (c != 0 && b != 2) {
        lemma_no_edge(st, sps, pps, c, dir, f, x, y);
    } else {
        let e = edge_params(st, sps, pps, c, dir, x4, y4, b as int);
        let (ex, ey) = (span(c) * x4, span(c) * y4);
        let k = deblock::line_of(dir, ex, ey, x, y);
        lemma_edge_params(st, sps, pps, c, dir, x4, y4, b as int);
        lemma_cell_fits(p, st, c, dir, x4, y4);
        lemma_edge_cell(st, sps, pps, f, f, c, dir, x, y, e);
        let l = deblock::line_at(f, dir, ex, ey, k);
        lemma_line_in_range(f, p, dir, ex, ey, k, span(c), e.max as int);
        let d = deblock::decide(
            deblock::line_at(f, dir, ex, ey, 0),
            deblock::line_at(f, dir, ex, ey, 3),
            e.beta as int,
            e.tc as int,
        );
        deblock::lemma_luma_line_bounded(l, d, e, deblock::tap_of(dir, ex, ey, x, y));
        deblock::lemma_chroma_line_bounded(l, e, deblock::tap_of(dir, ex, ey, x, y));
    }
}

/// Every sample of a plane is in `0..=max`.
pub open spec fn in_range(f: spec_fn(int, int) -> int, p: Plane, max: int) -> bool {
    forall|x: int, y: int|
        #![trigger f(x, y)]
        0 <= x < p.stride && 0 <= y < p.height ==> 0 <= f(x, y) <= max
}

proof fn lemma_line_in_range(
    f: spec_fn(int, int) -> int,
    p: Plane,
    dir: int,
    ex: int,
    ey: int,
    k: int,
    lines: int,
    max: int,
)
    requires
        dir == 0 || dir == 1,
        p.wf(),
        deblock::cell_inside(p, dir, ex, ey, lines, 4),
        0 <= k < lines,
        in_range(f, p, max),
    ensures
        deblock::line_at(f, dir, ex, ey, k).bounded(max),
{
}

/// The samples of a block that must not be filtered stay as they are
/// (`pcm_loop_filter_disabled_flag`, `cu_transquant_bypass_flag`).
pub proof fn lemma_bypass_not_deblocked(
    st: PicState,
    sps: Sps,
    pps: Pps,
    c: int,
    dir: int,
    f: spec_fn(int, int) -> int,
    x: int,
    y: int,
)
    requires
        0 <= c <= 2,
        dir == 0 || dir == 1,
        0 <= x,
        0 <= y,
        st.filter_bypass@[(y / span(c)) * st.w4 + x / span(c)] != 0,
    ensures
        deblocked(st, sps, pps, c, dir, f, x, y) == f(x, y),
{
    let (x4, y4) = edge_block(c, dir, x, y);
    let b = edge_strength(st, pps, dir, x4, y4);
    lemma_edge_block(c, dir, x4, y4, x, y);
    if x4 >= st.w4 || y4 >= st.h4 || (dir == 0 && x4 <= 0) || (dir != 0 && y4 <= 0) || (c == 0 && b
        == 0) || (c != 0 && b != 2) {
        lemma_no_edge(st, sps, pps, c, dir, f, x, y);
    } else {
        let e = edge_params(st, sps, pps, c, dir, x4, y4, b as int);
        let (ex, ey) = (span(c) * x4, span(c) * y4);
        let k = deblock::line_of(dir, ex, ey, x, y);
        let i = deblock::tap_of(dir, ex, ey, x, y);
        lemma_edge_cell(st, sps, pps, f, f, c, dir, x, y, e);
        let l = deblock::line_at(f, dir, ex, ey, k);
        let d = deblock::decide(
            deblock::line_at(f, dir, ex, ey, 0),
            deblock::line_at(f, dir, ex, ey, 3),
            e.beta as int,
            e.tc as int,
        );
        assert(l.tap(i) == f(x, y));
        lemma_own_block(c, dir, x4, y4, x, y);
        if i >= 0 && (c == 0 || i == 0) || c == 0 || i == -1 {
            if i < 0 {
                if dir == 0 {
                    assert(x / span(c) == x4 - 1 && y / span(c) == y4);
                } else {
                    assert(x / span(c) == x4 && y / span(c) == y4 - 1);
                }
                assert(e.no_p);
            } else {
                assert(x / span(c) == x4 && y / span(c) == y4);
                assert(e.no_q);
            }
            deblock::lemma_kept_side(l, d, e, i);
        } else {
            // Chroma samples further than one from the edge are never changed.
            assert(deblock::chroma_line(l, e).tap(i) == l.tap(i));
        }
    }
}

/// The 4×4 block that holds a sample next to an edge.
proof fn lemma_own_block(c: int, dir: int, x4: int, y4: int, x: int, y: int)
    requires
        0 <= c <= 2,
        dir == 0 || dir == 1,
        deblock::in_cell(dir, span(c) * x4, span(c) * y4, span(c), x, y),
    ensures
        ({
            let i = deblock::tap_of(dir, span(c) * x4, span(c) * y4, x, y);
            let near = c == 0 || i == -1 || i == 0;
            let (along, across) = if dir == 0 {
                (x / span(c) - x4, y / span(c) - y4)
            } else {
                (y / span(c) - y4, x / span(c) - x4)
            };
            near ==> across == 0 && along == (if i < 0 {
                -1int
            } else {
                0
            })
        }),
{
    let u = span(c);
    let i = deblock::tap_of(dir, u * x4, u * y4, x, y);
    let (along, at, across, line) = if dir == 0 {
        (x, x4, y, y4)
    } else {
        (y, y4, x, x4)
    };
    lemma_quotient(across, u, line);
    if c == 0 || i == -1 || i == 0 {
        if i < 0 {
            lemma_quotient(along, u, at - 1);
        } else {
            lemma_quotient(along, u, at);
        }
    }
}

proof fn lemma_quotient(v: int, u: int, q: int)
    requires
        u == 2 || u == 4,
        u * q <= v < u * q + u,
    ensures
        v / u == q,
{
    if u == 2 {
        assert(v / 2 == q);
    } else {
        assert(v / 4 == q);
    }
}

// ---- both filters ----

/// Bring-up switches of the loop filters.
#[derive(Debug, Clone, Copy, PartialEq, Eq, Structural)]
pub struct FilterSwitches {
    /// Skip both filters.
    pub skip_all: bool,
    /// Skip sample adaptive offset.
    pub skip_sao: bool,
}

/// Some coding tree block is deblocked.
pub open spec fn any_deblock(st: PicState) -> bool {
    exists|i: int|
        #![trigger st.ctb_filter@[i]]
        0 <= i < st.ctb_filter@.len() && !st.ctb_filter@[i].deblock_disabled
}

/// Some coding tree block takes offsets.
pub open spec fn any_sao(st: PicState, sps: Sps) -> bool {
    sps.sao_enabled && exists|i: int|
        #![trigger st.ctb_filter@[i]]
        0 <= i < st.ctb_filter@.len() && (st.ctb_filter@[i].sao_luma
            || st.ctb_filter@[i].sao_chroma)
}

/// The plane of component `c` as the deblocking filter leaves it.
pub open spec fn deblock_stage(
    p: Plane,
    st: PicState,
    sps: Sps,
    pps: Pps,
    c: int,
) -> spec_fn(int, int) -> int {
    if any_deblock(st) {
        |x: int, y: int| fully_deblocked(st, sps, pps, c, deblock::samples(p), x, y)
    } else {
        deblock::samples(p)
    }
}

/// The plane of component `c` as sample adaptive offset leaves it.
pub open spec fn sao_stage(
    p: Plane,
    st: PicState,
    sps: Sps,
    pps: Pps,
    c: int,
    sw: FilterSwitches,
    f: spec_fn(int, int) -> int,
) -> spec_fn(int, int) -> int {
    if any_sao(st, sps) && !sw.skip_sao {
        |x: int, y: int|
            if x < p.width {
                sao::offset_sample(
                    st,
                    pps,
                    c,
                    depth_of(sps, c) as int,
                    p.width as int,
                    p.height as int,
                    f,
                    x,
                    y,
                )
            } else {
                f(x, y)
            }
    } else {
        f
    }
}

/// The plane of component `c` after both filters.
pub open spec fn loop_filtered(
    p: Plane,
    st: PicState,
    sps: Sps,
    pps: Pps,
    c: int,
    sw: FilterSwitches,
) -> PlaneView {
    if sw.skip_all {
        p@
    } else {
        let f = sao_stage(p, st, sps, pps, c, sw, deblock_stage(p, st, sps, pps, c));
        PlaneView {
            data: Seq::new(
                p.data@.len(),
                |i: int| f(i % (p.stride as int), i / (p.stride as int)) as u16,
            ),
            ..p@
        }
    }
}

/// Every address of a plane is that of a column and row.
proof fn lemma_plane_data(p: Plane, q: Plane, f: spec_fn(int, int) -> int)
    requires
        p.wf(),
        0 < p.stride,
        q.same_shape(p),
        forall|x: int, y: int|
            #![trigger q.at(x, y)]
            0 <= x < p.stride && 0 <= y < p.height ==> q.at(x, y) == f(x, y),
    ensures
        q@ == (PlaneView {
            data: Seq::new(
                p.data@.len(),
                |i: int| f(i % (p.stride as int), i / (p.stride as int)) as u16,
            ),
            ..p@
        }),
{
    let s = p.stride as int;
    let want = Seq::new(p.data@.len(), |i: int| f(i % s, i / s) as u16);
    assert forall|i: int| 0 <= i < q.data@.len() implies q.data@[i] == want[i] by {
        arith::lemma_flat_split(i, s, p.height as int);
        assert(q.at(i % s, i / s) == f(i % s, i / s));
    }
    assert(q.data@ =~= want);
}

fn has_deblock(st: &PicState) -> (r: bool)
    ensures
        r == any_deblock(*st),
{
    let mut i: usize = 0;
    while i < st.ctb_filter.len()
        invariant
            i <= st.ctb_filter@.len(),
            forall|j: int|
                #![trigger st.ctb_filter@[j]]
                0 <= j < i ==> st.ctb_filter@[j].deblock_disabled,
        decreases st.ctb_filter@.len() - i,
    {
        if !st.ctb_filter[i].deblock_disabled {
            return true;
        }
        i += 1;
    }
    false
}

fn has_sao(st: &PicState, sps: &Sps) -> (r: bool)
    ensures
        r == any_sao(*st, *sps),
{
    if !sps.sao_enabled {
        return false;
    }
    let mut i: usize = 0;
    while i < st.ctb_filter.len()
        invariant
            i <= st.ctb_filter@.len(),
            sps.sao_enabled,
            forall|j: int|
                #![trigger st.ctb_filter@[j]]
                0 <= j < i ==> !st.ctb_filter@[j].sao_luma && !st.ctb_filter@[j].sao_chroma,
        decreases st.ctb_filter@.len() - i,
    {
        if st.ctb_filter[i].sao_luma || st.ctb_filter[i].sao_chroma {
            return true;
        }
        i += 1;
    }
    false
}

fn has_bypass_block(st: &PicState) -> (r: bool)
    ensures
        !r ==> sao::no_bypass(*st),
{
    let mut i: usize = 0;
    while i < st.filter_bypass.len()
        invariant
            i <= st.filter_bypass@.len(),
            forall|j: int|
                #![trigger st.filter_bypass@[j]]
                0 <= j < i ==> st.filter_bypass@[j] == 0,
        decreases st.filter_bypass@.len() - i,
    {
        if st.filter_bypass[i] != 0 {
            return true;
        }
        i += 1;
    }
    false
}

/// The planes that the filters take: of the picture's size, samples in range.
pub open spec fn planes_ok(planes: Seq<Plane>, st: PicState, sps: Sps) -> bool {
    forall|c: int|
        #![trigger planes[c]]
        0 <= c < 3 ==> plane_fits(planes[c], st, c) && planes[c].bounded(
            pow2(depth_of(sps, c)) - 1,
        )
}

/// Deblocking leaves planes that the offsets can take.
proof fn lemma_deblock_keeps_range(
    o: Plane,
    p: Plane,
    st: PicState,
    sps: Sps,
    pps: Pps,
    c: int,
)
    requires
        0 <= c <= 2,
        st.shape_ok(),
        sps.wf(),
        plane_fits(o, st, c),
        plane_fits(p, st, c),
        o.bounded(pow2(depth_of(sps, c)) - 1),
        is_deblocked(p, o, st, sps, pps, c),
    ensures
        p.bounded(pow2(depth_of(sps, c)) - 1),
{
    let max = pow2(depth_of(sps, c)) - 1;
    let f = deblock::samples(o);
    assert(in_range(f, o, max)) by {
        assert forall|x: int, y: int|
            #![trigger f(x, y)]
            0 <= x < o.stride && 0 <= y < o.height implies 0 <= f(x, y) <= max by {
            arith::lemma_flat_bound(x, y, o.stride as int, o.height as int);
            assert(o.data@[y * o.stride + x] <= max);
        }
    }
    let g = pass(st, sps, pps, c, 0, f);
    assert(in_range(g, o, max)) by {
        assert forall|x: int, y: int|
            #![trigger g(x, y)]
            0 <= x < o.stride && 0 <= y < o.height implies 0 <= g(x, y) <= max by {
            lemma_deblocked_bounded(st, sps, pps, c, 0, f, o, x, y);
        }
    }
    assert forall|i: int| #![trigger p.data@[i]] 0 <= i < p.data@.len() implies p.data@[i]
        <= max by {
        let s = p.stride as int;
        lemma_axis_nonempty(o, st, c);
        arith::lemma_flat_split(i, s, p.height as int);
        let (x, y) = (i % s, i / s);
        lemma_deblocked_bounded(st, sps, pps, c, 1, g, o, x, y);
        assert(p.at(x, y) == fully_deblocked(st, sps, pps, c, f, x, y));
    }
}

/// A plane of a picture has columns.
proof fn lemma_axis_nonempty(p: Plane, st: PicState, c: int)
    requires
        0 <= c <= 2,
        st.shape_ok(),
        plane_fits(p, st, c),
    ensures
        0 < p.stride,
{
}

/// Runs deblocking, then sample adaptive offset, on the planes of a picture.
/// The vectors are scratch.
pub fn filter_planes(
    planes: &mut [Plane; 3],
    st: &PicState,
    sps: &Sps,
    pps: &Pps,
    bs_v: &mut Vec<u8>,
    bs_h: &mut Vec<u8>,
    scratch: &mut Vec<u16>,
    sw: FilterSwitches,
)
    requires
        st.wf(),
        sps.wf(),
        pps.wf(),
        planes_ok(old(planes)@, *st, *sps),
    ensures
        forall|c: int|
            #![trigger final(planes)@[c]]
            0 <= c < 3 ==> final(planes)@[c]@ == loop_filtered(
                old(planes)@[c],
                *st,
                *sps,
                *pps,
                c,
                sw,
            ) && final(planes)@[c].wf(),
{
    if sw.skip_all {
        return ;
    }
    let ghost o = planes@;
    let deblocks = has_deblock(st);
    if deblocks {
        deblock(planes, st, sps, pps, bs_v, bs_h);
    }
    let ghost mid = planes@;
    proof {
        assert forall|c: int| #![trigger mid[c]] 0 <= c < 3 implies plane_fits(mid[c], *st, c)
            && mid[c].bounded(pow2(depth_of(*sps, c)) - 1) && mid[c].same_shape(o[c]) && (
        forall|x: int, y: int|
            #![trigger mid[c].at(x, y)]
            0 <= x < o[c].stride && 0 <= y < o[c].height ==> mid[c].at(x, y) == deblock_stage(
                o[c],
                *st,
                *sps,
                *pps,
                c,
            )(x, y)) by {
            assert(plane_fits(o[c], *st, c));
            if deblocks {
                assert(is_deblocked(planes@[c], o[c], *st, *sps, *pps, c));
                lemma_deblock_keeps_range(o[c], mid[c], *st, *sps, *pps, c);
            }
        }
    }
    let offsets = has_sao(st, sps) && !sw.skip_sao;
    if offsets {
        let has_bypass = has_bypass_block(st);
        proof {
            st.lemma_grid();
            assert forall|c: int| #![trigger planes@[c]] 0 <= c < 3 implies sao::plane_in_grid(
                planes@[c],
                *st,
                c,
            ) by {
                assert(plane_fits(mid[c], *st, c));
            }
        }
        sao::sao(planes, st, sps, pps, scratch, has_bypass);
    }
    proof {
        assert forall|c: int| #![trigger planes@[c]] 0 <= c < 3 implies planes@[c]@
            == loop_filtered(o[c], *st, *sps, *pps, c, sw) && planes@[c].wf() by {
            let p = o[c];
            let q = planes@[c];
            let m = mid[c];
            let f = deblock_stage(p, *st, *sps, *pps, c);
            let g = sao_stage(p, *st, *sps, *pps, c, sw, f);
            lemma_axis_nonempty(m, *st, c);
            assert forall|x: int, y: int|
                #![trigger q.at(x, y)]
                0 <= x < p.stride && 0 <= y < p.height implies q.at(x, y) == g(x, y) by {
                assert(m.at(x, y) == f(x, y));
                if offsets {
                    assert(sao::is_offset(q, m, *st, *pps, c, depth_of(*sps, c) as int));
                    let h = deblock::samples(m);
                    assert forall|a: int, b: int|
                        #![trigger h(a, b)]
                        0 <= a < p.width && 0 <= b < p.height implies h(a, b) == f(a, b) by {
                        assert(m.at(a, b) == f(a, b));
                    }
                    if x < p.width {
                        sao::lemma_offset_local(
                            *st,
                            *pps,
                            c,
                            depth_of(*sps, c) as int,
                            p.width as int,
                            p.height as int,
                            h,
                            f,
                            x,
                            y,
                        );
                    }
                }
            }
            lemma_plane_data(p, q, g);
        }
    }
}

/// Runs deblocking then SAO on the finished picture.
pub fn apply_in_loop_filters(cur: &mut CurrentPicture, sw: FilterSwitches)
    requires
        old(cur).wf(),
    ensures
        final(cur).same_but_samples(*old(cur)),
        forall|c: int|
            #![trigger final(cur).pic.planes@[c]]
            0 <= c < 3 ==> final(cur).pic.planes@[c]@ == loop_filtered(
                old(cur).pic.planes@[c],
                old(cur).state,
                *old(cur).sps,
                *old(cur).pps,
                c,
                sw,
            ),
{
    proof {
        reveal(CurrentPicture::wf);
    }
    filter_planes(
        &mut cur.pic.planes,
        &cur.state,
        &cur.sps,
        &cur.pps,
        &mut cur.deblock_bs_v,
        &mut cur.deblock_bs_h,
        &mut cur.sao_scratch,
        sw,
    );
}

} // verus!
