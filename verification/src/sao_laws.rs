//! What sample adaptive offset is for (§8.7.3): samples are compared along one of
//! four directions, or sorted into bands, and what is found decides the offset.

use crate::arith;
use crate::frame::Plane;
use crate::pic::{PicState, SaoParams};
use crate::ps::Pps;
use crate::sao;
use vstd::arithmetic::div_mod::*;
use vstd::arithmetic::power2::*;
use vstd::prelude::*;

verus! {

/// The direction of an edge class (Table 8-18): along the row, along the column,
/// along the falling and along the rising diagonal.
pub open spec fn direction(class: int) -> (int, int) {
    if class == 0 {
        (1, 0)
    } else if class == 1 {
        (0, 1)
    } else if class == 2 {
        (1, 1)
    } else {
        (1, -1)
    }
}

/// A value kept in the sample range.
pub open spec fn limited(v: int, bit_depth: int) -> int {
    let top = pow2(bit_depth as nat) - 1;
    if v < 0 {
        0
    } else if v > top {
        top
    } else {
        v
    }
}

/// The parameters that hold at a sample.
pub open spec fn params_of(st: PicState, c: int, x: int, y: int) -> SaoParams {
    let s = if c == 0 {
        1int
    } else {
        2
    };
    st.sao@[st.ctb_at(x * s, y * s)]@[c]
}

/// The sample is in a decoded block whose samples may be changed.
pub open spec fn changeable(st: PicState, c: int, x: int, y: int) -> bool {
    let s = if c == 0 {
        1int
    } else {
        2
    };
    st.slice_addr@[st.ctb_at(x * s, y * s)] >= 0 && st.filter_bypass@[st.block_of(x * s, y * s)]
        == 0
}

/// The sample at (`x`, `y`) may be compared with that at (`nx`, `ny`).
pub open spec fn comparable(
    st: PicState,
    pps: Pps,
    o: Plane,
    c: int,
    x: int,
    y: int,
    nx: int,
    ny: int,
) -> bool {
    let s = if c == 0 {
        1int
    } else {
        2
    };
    &&& 0 <= nx < o.width
    &&& 0 <= ny < o.height
    &&& sao::usable(
        st,
        pps,
        st.ctb_filter@[st.ctb_at(x * s, y * s)].lf_across_slices,
        x * s,
        y * s,
        nx * s,
        ny * s,
    )
}

/// The offset of a sample that lies as it does between two others: a valley
/// takes the first, the foot of a rise the second, its top the third, a peak the
/// fourth; a slope and a plain take none.
pub open spec fn shape_offset(prm: SaoParams, v: int, a: int, b: int) -> int {
    if v < a && v < b {
        prm.offset@[0] as int
    } else if v < a && v == b || v == a && v < b {
        prm.offset@[1] as int
    } else if v > a && v == b || v == a && v > b {
        prm.offset@[2] as int
    } else if v > a && v > b {
        prm.offset@[3] as int
    } else {
        0
    }
}

/// An edge offset compares a sample with the two next to it in the direction of
/// its class. Where both may be compared with it, it gets the offset of the shape
/// that the three make, and else it stays as it is.
pub proof fn lemma_edge_offset_by_shape(
    p: Plane,
    o: Plane,
    st: PicState,
    pps: Pps,
    c: int,
    bit_depth: int,
    x: int,
    y: int,
)
    requires
        sao::is_offset(p, o, st, pps, c, bit_depth),
        0 <= c <= 2,
        0 <= x < o.width <= o.stride,
        0 <= y < o.height,
        changeable(st, c, x, y),
        params_of(st, c, x, y).type_idx == 2,
        params_of(st, c, x, y).aux <= 3,
    ensures
        ({
            let prm = params_of(st, c, x, y);
            let (dx, dy) = direction(prm.aux as int);
            let v = o.at(x, y) as int;
            p.at(x, y) == if comparable(st, pps, o, c, x, y, x - dx, y - dy) && comparable(
                st,
                pps,
                o,
                c,
                x,
                y,
                x + dx,
                y + dy,
            ) {
                limited(
                    v + shape_offset(
                        prm,
                        v,
                        o.at(x - dx, y - dy) as int,
                        o.at(x + dx, y + dy) as int,
                    ),
                    bit_depth,
                )
            } else {
                v
            }
        }),
{
    assert(p.at(x, y) == p.at(x, y));
}

/// Which samples an edge offset depends on: those on the line through the sample
/// in the direction of its class, one to each side. Planes that agree there get
/// the same result there, whatever else they hold.
pub proof fn lemma_edge_offset_along_its_line(
    p: Plane,
    o: Plane,
    q: Plane,
    r: Plane,
    st: PicState,
    pps: Pps,
    c: int,
    bit_depth: int,
    x: int,
    y: int,
)
    requires
        sao::is_offset(p, o, st, pps, c, bit_depth),
        sao::is_offset(q, r, st, pps, c, bit_depth),
        0 <= c <= 2,
        o.width == r.width,
        o.height == r.height,
        0 <= x < o.width,
        o.width <= o.stride,
        r.width <= r.stride,
        0 <= y < o.height,
        changeable(st, c, x, y),
        params_of(st, c, x, y).type_idx == 2,
        params_of(st, c, x, y).aux <= 3,
        ({
            let (dx, dy) = direction(params_of(st, c, x, y).aux as int);
            &&& o.at(x, y) == r.at(x, y)
            &&& o.at(x - dx, y - dy) == r.at(x - dx, y - dy)
            &&& o.at(x + dx, y + dy) == r.at(x + dx, y + dy)
        }),
    ensures
        p.at(x, y) == q.at(x, y),
{
    lemma_edge_offset_by_shape(p, o, st, pps, c, bit_depth, x, y);
    lemma_edge_offset_by_shape(q, r, st, pps, c, bit_depth, x, y);
}

/// A sample of a block without offsets, or that must not be changed, stays as it
/// is.
pub proof fn lemma_kept(
    p: Plane,
    o: Plane,
    st: PicState,
    pps: Pps,
    c: int,
    bit_depth: int,
    x: int,
    y: int,
)
    requires
        sao::is_offset(p, o, st, pps, c, bit_depth),
        0 <= c <= 2,
        0 <= x < o.stride,
        0 <= y < o.height,
        x >= o.width || !changeable(st, c, x, y) || params_of(st, c, x, y).type_idx == 0,
    ensures
        p.at(x, y) == o.at(x, y),
{
    assert(p.at(x, y) == p.at(x, y));
}

/// Band offsets: the sample range is cut into 32 bands of equal width. The four
/// from the band position on, counted round, take the four offsets in order, and
/// the others none.
pub proof fn lemma_band_offset_by_band(
    p: Plane,
    o: Plane,
    st: PicState,
    pps: Pps,
    c: int,
    bit_depth: int,
    x: int,
    y: int,
    band: int,
    j: int,
)
    requires
        sao::is_offset(p, o, st, pps, c, bit_depth),
        0 <= c <= 2,
        8 <= bit_depth <= 16,
        0 <= x < o.width <= o.stride,
        0 <= y < o.height,
        changeable(st, c, x, y),
        params_of(st, c, x, y).type_idx == 1,
        params_of(st, c, x, y).aux < 32,
        0 <= band < 32,
        band * pow2((bit_depth - 5) as nat) <= o.at(x, y) < (band + 1) * pow2(
            (bit_depth - 5) as nat,
        ),
        // The band is the `j`-th from the position on, round the 32.
        0 <= j < 32,
        band == params_of(st, c, x, y).aux + j || band == params_of(st, c, x, y).aux + j - 32,
    ensures
        p.at(x, y) == limited(
            o.at(x, y) + if j < 4 {
                params_of(st, c, x, y).offset@[j] as int
            } else {
                0
            },
            bit_depth,
        ),
{
    let w = pow2((bit_depth - 5) as nat) as int;
    let v = o.at(x, y) as int;
    let prm = params_of(st, c, x, y);
    lemma_pow2_pos((bit_depth - 5) as nat);
    assert((band + 1) * w == band * w + w) by (nonlinear_arith);
    assert(v / w == band) by {
        lemma_fundamental_div_mod_converse(v, w, band, v - band * w);
    }
    assert((band - prm.aux) % 32 == j);
    assert(p.at(x, y) == p.at(x, y));
}

/// Every sample has a band.
pub proof fn lemma_sample_has_a_band(v: int, bit_depth: int)
    requires
        8 <= bit_depth <= 16,
        0 <= v < pow2(bit_depth as nat),
    ensures
        ({
            let w = pow2((bit_depth - 5) as nat) as int;
            let band = v / w;
            0 <= band < 32 && band * w <= v < (band + 1) * w
        }),
{
    let w = pow2((bit_depth - 5) as nat) as int;
    lemma_pow2_pos((bit_depth - 5) as nat);
    lemma_pow2_adds((bit_depth - 5) as nat, 5);
    lemma2_to64();
    lemma_fundamental_div_mod(v, w);
    let b = v / w;
    assert(b * w <= v < (b + 1) * w) by (nonlinear_arith)
        requires
            v == w * b + v % w,
            0 <= v % w < w,
    ;
    assert(0 <= b < 32) by (nonlinear_arith)
        requires
            b * w <= v,
            v < (b + 1) * w,
            0 <= v < 32 * w,
            w > 0,
    ;
}

/// Whether two samples may be compared: inside one coding tree block always; else
/// if the other one was decoded, if its slice is the same or the later of the two
/// slices lets the filter across, and if its tile is the same or the picture does.
pub proof fn lemma_comparable_across(st: PicState, pps: Pps, xc: int, yc: int, xn: int, yn: int)
    ensures
        ({
            let size = pow2(st.log2_ctb as nat) as int;
            let (c, n) = (
                (yc / size) * st.ctb_w + xc / size,
                (yn / size) * st.ctb_w + xn / size,
            );
            let first = st.zs@[(yn / 4) * st.w4 + xn / 4] < st.zs@[(yc / 4) * st.w4 + xc / 4];
            let later = if first {
                c
            } else {
                n
            };
            sao::usable(st, pps, st.ctb_filter@[c].lf_across_slices, xc, yc, xn, yn) <==> c == n
                || {
                &&& st.slice_addr@[n] >= 0
                &&& st.slice_addr@[n] == st.slice_addr@[c] || st.ctb_filter@[later].lf_across_slices
                &&& st.tile_id@[n] == st.tile_id@[c] || pps.loop_filter_across_tiles_enabled
            }
        }),
{
}

} // verus!
