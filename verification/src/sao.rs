//! Sample adaptive offset (§8.7.3) over the deblocked picture.
//!
//! Offsets read deblocked samples while filtered ones are written, so each
//! plane is copied first. Only samples on the one-sample ring at the edge of a
//! coding tree block can have an unusable neighbour; the interior needs no
//! check.

use crate::arith;
use crate::filters;
use crate::frame::Plane;
use crate::pic;
use crate::pic::{PicState, SaoParams};
use crate::ps::{Pps, Sps};
use vstd::arithmetic::power2::*;
use vstd::prelude::*;

verus! {

/// `edgeIdx` (Table 8-19) mapped to an offset index, 0 meaning "no offset":
/// the sum `2 + sign(v − a) + sign(v − b)` indexes this directly.
pub const EDGE_CATEGORY: [u8; 5] = [1, 2, 0, 3, 4];

/// The luma samples per sample of component `c`.
pub open spec fn luma_per(c: int) -> int {
    if c == 0 {
        1
    } else {
        2
    }
}

/// §8.7.3.2: whether the sample at luma location (`xn`, `yn`) may be compared
/// with the one at (`xc`, `yc`): across a slice boundary the later of the two
/// slices decides, across a tile boundary the picture.
pub open spec fn usable(st: PicState, pps: Pps, across: bool, xc: int, yc: int, xn: int, yn: int)
    -> bool {
    let cc = st.ctb_at(xc, yc);
    let cn = st.ctb_at(xn, yn);
    if cc == cn {
        true
    } else {
        &&& st.slice_addr@[cn] >= 0
        &&& st.slice_addr@[cn] != st.slice_addr@[cc] ==> if st.zs@[st.block_of(xn, yn)]
            < st.zs@[st.block_of(xc, yc)] {
            across
        } else {
            st.ctb_filter@[cn].lf_across_slices
        }
        &&& st.tile_id@[cn] == st.tile_id@[cc] || pps.loop_filter_across_tiles_enabled
    }
}

pub fn sao_neighbour_usable(
    st: &PicState,
    pps: &Pps,
    cur_lf_across: bool,
    xc: usize,
    yc: usize,
    xn: usize,
    yn: usize,
) -> (r: bool)
    requires
        st.grid_ok(),
        st.in_grid(xc + 1, yc + 1),
        st.in_grid(xn + 1, yn + 1),
    ensures
        r == usable(
            *st,
            *pps,
            cur_lf_across,
            xc as int,
            yc as int,
            xn as int,
            yn as int,
        ),
{
    proof {
        st.lemma_in_grid(xc as int, yc as int);
        st.lemma_in_grid(xn as int, yn as int);
        assert(st.slice_addr@.len() == st.slice_addr.len() && st.zs@.len() == st.zs.len());
    }
    let cc = st.ctb_of(xc, yc);
    let cn = st.ctb_of(xn, yn);
    if cc == cn {
        return true;
    }
    if st.slice_addr[cn] < 0 {
        return false;
    }
    if st.slice_addr[cn] != st.slice_addr[cc] {
        let n_before = st.zs[st.idx4(xn, yn)] < st.zs[st.idx4(xc, yc)];
        if n_before && !cur_lf_across {
            return false;
        }
        if !n_before && !st.ctb_filter[cn].lf_across_slices {
            return false;
        }
    }
    if st.tile_id[cn] != st.tile_id[cc] && !pps.loop_filter_across_tiles_enabled {
        return false;
    }
    true
}

/// Whether two samples may be compared does not depend on which of them asks.
/// Inside one coding tree block they always may; across two, the filter has to
/// go across slices in whichever block comes later in decoding order, where the
/// slices differ, and across tiles in the picture, where the tiles differ. Both
/// blocks are decoded, and have different z-scan addresses where their coding
/// tree blocks differ, as they do in a picture whose blocks are ordered
/// ([`pic::lemma_blocks_apart`]).
pub proof fn lemma_usable_both_ways(st: PicState, pps: Pps, xa: int, ya: int, xb: int, yb: int)
    requires
        st.slice_addr@[st.ctb_at(xa, ya)] >= 0,
        st.slice_addr@[st.ctb_at(xb, yb)] >= 0,
        st.ctb_at(xa, ya) != st.ctb_at(xb, yb) ==> st.zs@[st.block_of(xa, ya)]
            != st.zs@[st.block_of(xb, yb)],
    ensures
        ({
            let (a, b) = (st.ctb_at(xa, ya), st.ctb_at(xb, yb));
            let (fa, fb) = (
                st.ctb_filter@[a].lf_across_slices,
                st.ctb_filter@[b].lf_across_slices,
            );
            let r = usable(st, pps, fa, xa, ya, xb, yb);
            let later = if st.zs@[st.block_of(xa, ya)] < st.zs@[st.block_of(xb, yb)] {
                fb
            } else {
                fa
            };
            &&& r == usable(st, pps, fb, xb, yb, xa, ya)
            &&& a == b ==> r
            &&& a != b ==> (r <==> (st.slice_addr@[a] == st.slice_addr@[b] || later) && (
            st.tile_id@[a] == st.tile_id@[b] || pps.loop_filter_across_tiles_enabled))
        }),
{
}

/// The band offset of a sample: that of its band among the four from the band
/// position on, counted round 32 bands.
pub open spec fn band_offset(prm: SaoParams, v: int, shift: nat) -> int {
    band_entry(prm, v / (pow2(shift) as int))
}

/// The offset of band `k`.
pub open spec fn band_entry(prm: SaoParams, k: int) -> int {
    let j = (k - prm.aux) % 32;
    if j < 4 {
        prm.offset@[j] as int
    } else {
        0
    }
}

/// The first neighbour of an edge class; the second lies opposite.
pub open spec fn edge_step(class: int) -> (int, int) {
    if class == 0 {
        (-1, 0)
    } else if class == 1 {
        (0, -1)
    } else if class == 2 {
        (-1, -1)
    } else {
        (1, -1)
    }
}

/// The edge offset of a sample between two neighbours.
pub open spec fn edge_offset(prm: SaoParams, v: int, a: int, b: int) -> int {
    let k = EDGE_CATEGORY@[2 + arith::sign(v - a) + arith::sign(v - b)];
    if k != 0 {
        prm.offset@[k - 1] as int
    } else {
        0
    }
}

/// A neighbour of sample (`x`, `y`) may be compared with it: it is inside the
/// plane and usable.
pub open spec fn neighbour_ok(
    st: PicState,
    pps: Pps,
    c: int,
    pw: int,
    ph: int,
    across: bool,
    x: int,
    y: int,
    nx: int,
    ny: int,
) -> bool {
    let s = luma_per(c);
    &&& 0 <= nx < pw
    &&& 0 <= ny < ph
    &&& usable(st, pps, across, x * s, y * s, nx * s, ny * s)
}

/// Sample (`x`, `y`) of component `c` after its offset.
pub open spec fn offset_sample(
    st: PicState,
    pps: Pps,
    c: int,
    bit_depth: int,
    pw: int,
    ph: int,
    f: spec_fn(int, int) -> int,
    x: int,
    y: int,
) -> int {
    let s = luma_per(c);
    let rs = st.ctb_at(x * s, y * s);
    let prm = st.sao@[rs]@[c];
    let max = pow2(bit_depth as nat) - 1;
    let v = f(x, y);
    if st.slice_addr@[rs] < 0 || prm.type_idx == 0 || st.filter_bypass@[st.block_of(x * s, y * s)]
        != 0 {
        v
    } else if prm.type_idx == 1 {
        arith::clip3(0, max, v + band_offset(prm, v, (bit_depth - 5) as nat))
    } else {
        let (dx, dy) = edge_step(prm.aux as int);
        let across = st.ctb_filter@[rs].lf_across_slices;
        if neighbour_ok(st, pps, c, pw, ph, across, x, y, x + dx, y + dy) && neighbour_ok(
            st,
            pps,
            c,
            pw,
            ph,
            across,
            x,
            y,
            x - dx,
            y - dy,
        ) {
            arith::clip3(0, max, v + edge_offset(prm, v, f(x + dx, y + dy), f(x - dx, y - dy)))
        } else {
            v
        }
    }
}

/// The offsets of all bands.
fn build_band(prm: &SaoParams) -> (band: [i16; 32])
    ensures
        forall|k: int|
            #![trigger band@[k]]
            0 <= k < 32 ==> band@[k] as int == band_entry(*prm, k),
{
    let mut band = [0i16; 32];
    let mut j: usize = 0;
    while j < 4
        invariant
            j <= 4,
            forall|k: int|
                #![trigger band@[k]]
                0 <= k < 32 ==> band@[k] as int == (if (k - prm.aux) % 32 < j {
                    prm.offset@[(k - prm.aux) % 32] as int
                } else {
                    0
                }),
        decreases 4 - j,
    {
        let at = (j + prm.aux as usize) % 32;
        let ghost before = band;
        band[at] = prm.offset[j];
        proof {
            assert forall|k: int|
                #![trigger band@[k]]
                0 <= k < 32 implies band@[k] as int == (if (k - prm.aux) % 32 < j + 1 {
                prm.offset@[(k - prm.aux) % 32] as int
            } else {
                0
            }) by {
                assert(before@[k] as int == (if (k - prm.aux) % 32 < j {
                    prm.offset@[(k - prm.aux) % 32] as int
                } else {
                    0
                }));
                assert((at - prm.aux) % 32 == j);
                if (k - prm.aux) % 32 == j {
                    assert(k == at);
                }
            }
        }
        j += 1;
    }
    band
}

/// The coding tree block of every sample of a component lies at the sample's
/// own block of that component.
proof fn lemma_ctb_of_sample(st: PicState, c: int, cs: int, rx: int, ry: int, x: int, y: int)
    requires
        4 <= st.log2_ctb <= 6,
        0 <= c <= 2,
        cs * luma_per(c) == pow2(st.log2_ctb as nat),
        0 <= rx,
        0 <= ry,
        rx * cs <= x < rx * cs + cs,
        ry * cs <= y < ry * cs + cs,
    ensures
        st.ctb_at(x * luma_per(c), y * luma_per(c)) == ry * st.ctb_w + rx,
{
    let s = luma_per(c);
    pic::lemma_ctb_size(st.log2_ctb as nat);
    lemma_scaled_div(x, s, cs, rx);
    lemma_scaled_div(y, s, cs, ry);
}

proof fn lemma_scaled_div(x: int, s: int, cs: int, r: int)
    requires
        s == 1 || s == 2,
        0 < cs * s,
        r * cs <= x < r * cs + cs,
    ensures
        (x * s) / (cs * s) == r,
{
    assert(x * s == (cs * s) * r + (x - r * cs) * s) by (nonlinear_arith);
    assert(0 <= (x - r * cs) * s < cs * s) by (nonlinear_arith)
        requires
            s == 1 || s == 2,
            0 <= x - r * cs < cs,
    ;
    vstd::arithmetic::div_mod::lemma_fundamental_div_mod_converse(
        x * s,
        cs * s,
        r,
        (x - r * cs) * s,
    );
}

/// No block of the picture is kept from the loop filters.
pub open spec fn no_bypass(st: PicState) -> bool {
    forall|i: int|
        #![trigger st.filter_bypass@[i]]
        0 <= i < st.filter_bypass@.len() ==> st.filter_bypass@[i] == 0
}

/// What the offsets of one component are computed with.
struct Job<'a> {
    st: &'a PicState,
    pps: &'a Pps,
    c: usize,
    bit_depth: u8,
    max: i32,
    pw: usize,
    ph: usize,
    stride: usize,
    /// The deblocked samples.
    src: &'a Vec<u16>,
    /// Some block of the picture must not be filtered.
    has_bypass: bool,
}

impl<'a> Job<'a> {
    spec fn wf(self) -> bool {
        let s = luma_per(self.c as int);
        &&& self.st.grid_ok()
        &&& self.c <= 2
        &&& 8 <= self.bit_depth <= 16
        &&& self.max == pow2(self.bit_depth as nat) - 1
        &&& self.max <= 0xffff
        &&& self.st.in_grid(self.pw * s, self.ph * s)
        &&& self.pw <= self.stride
        &&& self.src@.len() == self.stride * self.ph
        &&& !self.has_bypass ==> no_bypass(*self.st)
        &&& forall|i: int|
            #![trigger self.src@[i]]
            0 <= i < self.src@.len() ==> self.src@[i] <= self.max
    }

    spec fn f(self) -> spec_fn(int, int) -> int {
        |x: int, y: int| self.src@[y * self.stride + x] as int
    }

    spec fn value(self, x: int, y: int) -> int {
        offset_sample(
            *self.st,
            *self.pps,
            self.c as int,
            self.bit_depth as int,
            self.pw as int,
            self.ph as int,
            self.f(),
            x,
            y,
        )
    }

    /// A sample of the plane is at a luma location of the grid.
    proof fn lemma_inside(self, x: int, y: int)
        requires
            self.wf(),
            0 <= x < self.pw,
            0 <= y < self.ph,
        ensures
            ({
                let s = luma_per(self.c as int);
                &&& self.st.in_grid(x * s + 1, y * s + 1)
                &&& 0 <= x * s < i32::MAX
                &&& 0 <= y * s < i32::MAX
                &&& 0 <= self.st.block_of(x * s, y * s) < self.st.w4 * self.st.h4
                &&& 0 <= self.st.ctb_at(x * s, y * s) < self.st.ctb_w * self.st.ctb_h
            }),
            self.pw <= i32::MAX,
            self.ph <= i32::MAX,
    {
        let s = luma_per(self.c as int);
        assert(0 <= x * s < self.pw * s && 0 <= y * s < self.ph * s && self.pw <= self.pw * s
            && self.ph <= self.ph * s) by (nonlinear_arith)
            requires
                0 <= x < self.pw,
                0 <= y < self.ph,
                s > 0,
        ;
        self.st.lemma_in_grid(x * s, y * s);
    }

    fn sample(&self, x: usize, y: usize) -> (v: i32)
        requires
            self.wf(),
            x < self.pw,
            y < self.ph,
        ensures
            v == self.f()(x as int, y as int),
            0 <= v <= self.max,
    {
        proof {
            assert(self.src@.len() == self.src.len());
            arith::lemma_flat_bound(x as int, y as int, self.stride as int, self.ph as int);
        }
        self.src[y * self.stride + x] as i32
    }

    /// A neighbour at (`x` + `dx`, `y` + `dy`), if it may be compared.
    fn neighbour(&self, across: bool, x: usize, y: usize, dx: i32, dy: i32) -> (r: Option<i32>)
        requires
            self.wf(),
            x < self.pw,
            y < self.ph,
            -1 <= dx <= 1,
            -1 <= dy <= 1,
        ensures
            r is Some <==> neighbour_ok(
                *self.st,
                *self.pps,
                self.c as int,
                self.pw as int,
                self.ph as int,
                across,
                x as int,
                y as int,
                x + dx,
                y + dy,
            ),
            r matches Some(v) ==> v == self.f()(x + dx, y + dy),
    {
        proof {
            self.lemma_inside(x as int, y as int);
        }
        let nx = x as i32 + dx;
        let ny = y as i32 + dy;
        if nx < 0 || ny < 0 || nx >= self.pw as i32 || ny >= self.ph as i32 {
            return None;
        }
        let s: usize = if self.c == 0 {
            1
        } else {
            2
        };
        let (nx, ny) = (nx as usize, ny as usize);
        proof {
            self.lemma_inside(nx as int, ny as int);
        }
        if sao_neighbour_usable(self.st, self.pps, across, x * s, y * s, nx * s, ny * s) {
            Some(self.sample(nx, ny))
        } else {
            None
        }
    }

    /// The offset of one sample of a block with parameters `prm`. An interior
    /// sample has both neighbours in its own block.
    fn offset_at(
        &self,
        prm: &SaoParams,
        band: &[i16; 32],
        across: bool,
        x: usize,
        y: usize,
        interior: bool,
    ) -> (v: u16)
        requires
            self.wf(),
            x < self.pw,
            y < self.ph,
            ({
                let s = luma_per(self.c as int);
                let rs = self.st.ctb_at(x * s, y * s);
                &&& self.st.slice_addr@[rs] >= 0
                &&& *prm == self.st.sao@[rs]@[self.c as int]
                &&& prm.type_idx != 0
                &&& across == self.st.ctb_filter@[rs].lf_across_slices
                &&& interior ==> forall|dx: int, dy: int|
                    #![trigger self.st.ctb_at((x + dx) * s, (y + dy) * s)]
                    -1 <= dx <= 1 && -1 <= dy <= 1 ==> {
                        &&& 0 <= x + dx < self.pw
                        &&& 0 <= y + dy < self.ph
                        &&& self.st.ctb_at((x + dx) * s, (y + dy) * s) == rs
                    }
            }),
            prm.type_idx == 1 ==> forall|k: int|
                #![trigger band@[k]]
                0 <= k < 32 ==> band@[k] as int == band_entry(*prm, k),
        ensures
            v as int == self.value(x as int, y as int),
    {
        let s: usize = if self.c == 0 {
            1
        } else {
            2
        };
        let old_v = self.sample(x, y);
        proof {
            self.lemma_inside(x as int, y as int);
            assert(self.st.filter_bypass@.len() == self.st.filter_bypass.len());
        }
        if self.has_bypass && self.st.filter_bypass[self.st.idx4(x * s, y * s)] != 0 {
            return old_v as u16;
        }
        if prm.type_idx == 1 {
            let shift = (self.bit_depth - 5) as u32;
            proof {
                lemma_band_index(old_v as int, self.bit_depth as nat);
            }
            let k = arith::asr(old_v, shift);
            let off = band[k as usize] as i32;
            return arith::clip_i32(0, self.max, old_v + off) as u16;
        }
        let (dx, dy): (i32, i32) = match prm.aux {
            0 => (-1, 0),
            1 => (0, -1),
            2 => (-1, -1),
            _ => (1, -1),
        };
        proof {
            if interior {
                let si = s as int;
                let (xi, yi) = (x as int, y as int);
                assert(self.st.ctb_at((xi + dx) * si, (yi + dy) * si) == self.st.ctb_at(
                    xi * si,
                    yi * si,
                ));
                assert(self.st.ctb_at((xi + (-dx)) * si, (yi + (-dy)) * si) == self.st.ctb_at(
                    xi * si,
                    yi * si,
                ));
            }
        }
        let (a, b) = if interior {
            let ax = (x as i32 + dx) as usize;
            let ay = (y as i32 + dy) as usize;
            let bx = (x as i32 - dx) as usize;
            let by = (y as i32 - dy) as usize;
            (self.sample(ax, ay), self.sample(bx, by))
        } else {
            match self.neighbour(across, x, y, dx, dy) {
                None => {
                    return old_v as u16;
                },
                Some(a) => match self.neighbour(across, x, y, -dx, -dy) {
                    None => {
                        return old_v as u16;
                    },
                    Some(b) => (a, b),
                },
            }
        };
        let e = 2 + arith::sign_i32(old_v - a) + arith::sign_i32(old_v - b);
        let k = EDGE_CATEGORY[e as usize];
        if k != 0 {
            let off = prm.offset[k as usize - 1] as i32;
            arith::clip_i32(0, self.max, old_v + off) as u16
        } else {
            old_v as u16
        }
    }
}

/// The band of a sample is one of the 32.
proof fn lemma_band_index(v: int, bit_depth: nat)
    requires
        8 <= bit_depth <= 16,
        0 <= v < pow2(bit_depth),
    ensures
        0 <= v / (pow2((bit_depth - 5) as nat) as int) < 32,
{
    let d = pow2((bit_depth - 5) as nat) as int;
    lemma_pow2_pos((bit_depth - 5) as nat);
    lemma_pow2_adds((bit_depth - 5) as nat, 5);
    lemma2_to64();
    assert(pow2(bit_depth) == d * 32);
    vstd::arithmetic::div_mod::lemma_fundamental_div_mod(v, d);
    let q = v / d;
    assert(0 <= q < 32) by (nonlinear_arith)
        requires
            v == d * q + v % d,
            0 <= v % d < d,
            0 <= v < d * 32,
            d > 0,
    ;
}


/// Applies the offsets of one coding tree block.
fn sao_ctb(dst: &mut Plane, job: &Job, rx: usize, ry: usize, cs: usize)
    requires
        job.wf(),
        old(dst).wf(),
        old(dst).stride == job.stride,
        old(dst).width == job.pw,
        old(dst).height == job.ph,
        rx < job.st.ctb_w,
        ry < job.st.ctb_h,
        cs * luma_per(job.c as int) == pow2(job.st.log2_ctb as nat),
        forall|x: int, y: int|
            #![trigger old(dst).at(x, y)]
            0 <= x < job.stride && 0 <= y < job.ph && x < job.pw && job.st.ctb_at(
                x * luma_per(job.c as int),
                y * luma_per(job.c as int),
            ) == ry * job.st.ctb_w + rx ==> old(dst).at(x, y) == job.f()(x, y),
    ensures
        final(dst).wf(),
        final(dst).same_shape(*old(dst)),
        forall|x: int, y: int|
            #![trigger final(dst).at(x, y)]
            0 <= x < job.stride && 0 <= y < job.ph ==> final(dst).at(x, y) as int == (if x < job.pw
                && job.st.ctb_at(x * luma_per(job.c as int), y * luma_per(job.c as int)) == ry
                * job.st.ctb_w + rx {
                job.value(x, y)
            } else {
                old(dst).at(x, y) as int
            }),
{
    let st = job.st;
    let c = job.c;
    let ghost s = luma_per(c as int);
    let ghost o = *dst;
    let ghost rsi = ry * st.ctb_w + rx;
    proof {
        assert(st.slice_addr@.len() == st.slice_addr.len());
        arith::lemma_flat_bound(rx as int, ry as int, st.ctb_w as int, st.ctb_h as int);
    }
    let rs = ry * st.ctb_w + rx;
    if st.slice_addr[rs] < 0 || st.sao[rs][c].type_idx == 0 {
        assert forall|x: int, y: int|
            #![trigger dst.at(x, y)]
            0 <= x < job.stride && 0 <= y < job.ph implies dst.at(x, y) as int == (if x < job.pw
            && st.ctb_at(x * s, y * s) == rsi {
            job.value(x, y)
        } else {
            o.at(x, y) as int
        }) by {}
        return ;
    }
    let prm = st.sao[rs][c];
    let across = st.ctb_filter[rs].lf_across_slices;
    let band = if prm.type_idx == 1 {
        build_band(&prm)
    } else {
        [0i16; 32]
    };
    proof {
        pic::lemma_ctb_size(st.log2_ctb as nat);
        lemma_block_origin(rx as int, st.ctb_w as int, cs as int, s);
        lemma_block_origin(ry as int, st.ctb_h as int, cs as int, s);
    }
    let x0 = rx * cs;
    let y0 = ry * cs;
    let x1 = arith::min_usize(x0 + cs, job.pw);
    let y1 = arith::min_usize(y0 + cs, job.ph);
    proof {
        assert forall|x: int, y: int|
            #![trigger dst.at(x, y)]
            0 <= x < job.stride && 0 <= y < job.ph implies dst.at(x, y) as int == (if in_rect_to(
            x,
            y,
            x0 as int,
            x1 as int,
            y0 as int,
            y0 as int,
            x0 as int,
        ) {
            job.value(x, y)
        } else {
            o.at(x, y) as int
        }) by {}
    }
    let mut y = y0;
    while y < y1
        invariant
            y0 <= y,
            y <= y1 || y1 < y0,
            x0 == rx * cs,
            y0 == ry * cs,
            x1 == arith::min2(x0 + cs, job.pw as int),
            y1 == arith::min2(y0 + cs, job.ph as int),
            job.wf(),
            st == job.st,
            c == job.c,
            s == luma_per(c as int),
            o.wf(),
            dst.wf(),
            dst.same_shape(o),
            o.stride == job.stride,
            o.width == job.pw,
            o.height == job.ph,
            cs * s == pow2(st.log2_ctb as nat),
            rs == ry * st.ctb_w + rx,
            rs < st.sao@.len(),
            prm == st.sao@[rs as int]@[c as int],
            st.slice_addr@[rs as int] >= 0,
            prm.type_idx != 0,
            across == st.ctb_filter@[rs as int].lf_across_slices,
            prm.type_idx == 1 ==> forall|k: int|
                #![trigger band@[k]]
                0 <= k < 32 ==> band@[k] as int == band_entry(prm, k),
            forall|a: int, b: int|
                #![trigger dst.at(a, b)]
                0 <= a < job.stride && 0 <= b < job.ph ==> dst.at(a, b) as int == (if in_rect_to(
                    a,
                    b,
                    x0 as int,
                    x1 as int,
                    y0 as int,
                    y as int,
                    x0 as int,
                ) {
                    job.value(a, b)
                } else {
                    o.at(a, b) as int
                }),
        decreases y1 - y,
    {
        let mut x = x0;
        while x < x1
            invariant
                x0 <= x,
                x <= x1 || x1 < x0,
                y0 <= y < y1,
                x0 == rx * cs,
                y0 == ry * cs,
                x1 == arith::min2(x0 + cs, job.pw as int),
                y1 == arith::min2(y0 + cs, job.ph as int),
                job.wf(),
                st == job.st,
                c == job.c,
                s == luma_per(c as int),
                o.wf(),
                dst.wf(),
                dst.same_shape(o),
                o.stride == job.stride,
                o.width == job.pw,
                o.height == job.ph,
                cs * s == pow2(st.log2_ctb as nat),
                rs == ry * st.ctb_w + rx,
                rs < st.sao@.len(),
                prm == st.sao@[rs as int]@[c as int],
                st.slice_addr@[rs as int] >= 0,
                prm.type_idx != 0,
                across == st.ctb_filter@[rs as int].lf_across_slices,
                prm.type_idx == 1 ==> forall|k: int|
                    #![trigger band@[k]]
                    0 <= k < 32 ==> band@[k] as int == band_entry(prm, k),
                forall|a: int, b: int|
                    #![trigger dst.at(a, b)]
                    0 <= a < job.stride && 0 <= b < job.ph ==> dst.at(a, b) as int == (
                    if in_rect_to(
                        a,
                        b,
                        x0 as int,
                        x1 as int,
                        y0 as int,
                        y as int,
                        x as int,
                    ) {
                        job.value(a, b)
                    } else {
                        o.at(a, b) as int
                    }),
            decreases x1 - x,
        {
            let interior = x > x0 && x + 1 < x1 && y > y0 && y + 1 < y1;
            proof {
                lemma_ctb_of_sample(
                    *st,
                    c as int,
                    cs as int,
                    rx as int,
                    ry as int,
                    x as int,
                    y as int,
                );
                if interior {
                    assert forall|dx: int, dy: int|
                        #![trigger st.ctb_at((x + dx) * s, (y + dy) * s)]
                        -1 <= dx <= 1 && -1 <= dy <= 1 implies {
                        &&& 0 <= x + dx < job.pw
                        &&& 0 <= y + dy < job.ph
                        &&& st.ctb_at((x + dx) * s, (y + dy) * s) == rs
                    } by {
                        lemma_ctb_of_sample(
                            *st,
                            c as int,
                            cs as int,
                            rx as int,
                            ry as int,
                            x + dx,
                            y + dy,
                        );
                    }
                }
            }
            let v = job.offset_at(&prm, &band, across, x, y, interior);
            let ghost prev = *dst;
            proof {
                arith::lemma_flat_bound(x as int, y as int, o.stride as int, o.height as int);
            }
            dst.set(x, y, v);
            proof {
                assert forall|a: int, b: int|
                    #![trigger dst.at(a, b)]
                    0 <= a < job.stride && 0 <= b < job.ph implies dst.at(a, b) as int == (
                if in_rect_to(
                    a,
                    b,
                    x0 as int,
                    x1 as int,
                    y0 as int,
                    y as int,
                    x + 1,
                ) {
                    job.value(a, b)
                } else {
                    o.at(a, b) as int
                }) by {
                    arith::lemma_flat_bound(a, b, o.stride as int, o.height as int);
                    if b * o.stride + a == y * o.stride + x {
                        arith::lemma_flat_inj(a, b, x as int, y as int, o.stride as int);
                    } else {
                        assert(dst.at(a, b) == prev.at(a, b));
                    }
                }
            }
            x += 1;
        }
        y += 1;
    }
    proof {
        assert forall|a: int, b: int|
            #![trigger dst.at(a, b)]
            0 <= a < job.stride && 0 <= b < job.ph implies dst.at(a, b) as int == (if a < job.pw
            && st.ctb_at(a * s, b * s) == rsi {
            job.value(a, b)
        } else {
            o.at(a, b) as int
        }) by {
            if a < job.pw {
                lemma_rect_is_ctb(
                    *st,
                    c as int,
                    cs as int,
                    rx as int,
                    ry as int,
                    a,
                    b,
                    job.pw as int,
                );
            }
        }
    }
}

/// The origin of a block of the grid, and its end, are coordinates.
proof fn lemma_block_origin(r: int, n: int, cs: int, s: int)
    requires
        0 <= r < n,
        0 <= cs,
        s == 1 || s == 2,
        n * (cs * s) <= i32::MAX,
    ensures
        0 <= r * cs,
        r * cs + cs <= i32::MAX,
{
    assert(0 <= r * cs && r * cs + cs <= n * (cs * s)) by (nonlinear_arith)
        requires
            0 <= r < n,
            0 <= cs,
            s == 1 || s == 2,
    ;
}

/// (`x`, `y`) is in the part of a rectangle before column `xx` of row `yy`.
spec fn in_rect_to(x: int, y: int, x0: int, x1: int, y0: int, yy: int, xx: int) -> bool {
    x0 <= x < x1 && y0 <= y && (y < yy || y == yy && x < xx)
}

/// A sample is in a coding tree block's rectangle exactly when that is its
/// coding tree block.
proof fn lemma_rect_is_ctb(
    st: PicState,
    c: int,
    cs: int,
    rx: int,
    ry: int,
    x: int,
    y: int,
    pw: int,
)
    requires
        4 <= st.log2_ctb <= 6,
        0 <= c <= 2,
        cs * luma_per(c) == pow2(st.log2_ctb as nat),
        0 <= rx < st.ctb_w,
        0 <= ry,
        0 <= x < pw,
        0 <= y,
        pw * luma_per(c) <= st.ctb_w * pow2(st.log2_ctb as nat),
    ensures
        st.ctb_at(x * luma_per(c), y * luma_per(c)) == ry * st.ctb_w + rx <==> rx * cs <= x < rx
            * cs + cs && ry * cs <= y < ry * cs + cs,
{
    pic::lemma_ctb_size(st.log2_ctb as nat);
    assert(cs > 0) by {
        if cs <= 0 {
            assert(cs * luma_per(c) <= 0) by (nonlinear_arith)
                requires
                    cs <= 0,
                    luma_per(c) >= 0,
            ;
        }
    }
    let qx = x / cs;
    let qy = y / cs;
    vstd::arithmetic::div_mod::lemma_fundamental_div_mod(x, cs);
    vstd::arithmetic::div_mod::lemma_fundamental_div_mod(y, cs);
    vstd::arithmetic::mul::lemma_mul_is_commutative(cs, qx);
    vstd::arithmetic::mul::lemma_mul_is_commutative(cs, qy);
    vstd::arithmetic::div_mod::lemma_div_pos_is_pos(x, cs);
    vstd::arithmetic::div_mod::lemma_div_pos_is_pos(y, cs);
    lemma_ctb_of_sample(st, c, cs, qx, qy, x, y);
    // The column is one of the grid's.
    assert(qx < st.ctb_w) by (nonlinear_arith)
        requires
            cs * qx <= x < pw,
            pw * luma_per(c) <= st.ctb_w * pow2(st.log2_ctb as nat),
            cs * luma_per(c) == pow2(st.log2_ctb as nat),
            luma_per(c) > 0,
            cs > 0,
    ;
    if st.ctb_at(x * luma_per(c), y * luma_per(c)) == ry * st.ctb_w + rx {
        arith::lemma_flat_inj(qx, qy, rx, ry, st.ctb_w as int);
    }
    if rx * cs <= x < rx * cs + cs && ry * cs <= y < ry * cs + cs {
        lemma_ctb_of_sample(st, c, cs, rx, ry, x, y);
    }
}

/// `p` is the plane of component `c` after its offsets, made from `o`.
pub open spec fn is_offset(
    p: Plane,
    o: Plane,
    st: PicState,
    pps: Pps,
    c: int,
    bit_depth: int,
) -> bool {
    &&& p.same_shape(o)
    &&& forall|x: int, y: int|
        #![trigger p.at(x, y)]
        0 <= x < o.stride && 0 <= y < o.height ==> p.at(x, y) as int == (if x < o.width {
            offset_sample(
                st,
                pps,
                c,
                bit_depth,
                o.width as int,
                o.height as int,
                crate::deblock::samples(o),
                x,
                y,
            )
        } else {
            o.at(x, y) as int
        })
}

/// The offsets fix every sample: two planes that are made from equal ones are
/// equal, sample for sample. What the scratch buffer held, and whether bypassed
/// blocks were looked for where there are none, makes no difference.
pub proof fn lemma_offsets_fix_the_plane(
    p: Plane,
    q: Plane,
    a: Plane,
    b: Plane,
    st: PicState,
    pps: Pps,
    c: int,
    bit_depth: int,
)
    requires
        a.wf(),
        a@ == b@,
        p.wf(),
        q.wf(),
        is_offset(p, a, st, pps, c, bit_depth),
        is_offset(q, b, st, pps, c, bit_depth),
    ensures
        p@ == q@,
{
    let f = crate::deblock::samples(a);
    let g = crate::deblock::samples(b);
    assert(a.data@ == a@.data && b.data@ == b@.data);
    assert(f =~= g);
    let s = p.stride as int;
    assert forall|i: int| #![trigger p.data@[i]] 0 <= i < p.data@.len() implies p.data@[i]
        == q.data@[i] by {
        assert(s > 0) by (nonlinear_arith)
            requires
                0 <= s,
                0 <= i < s * p.height,
        ;
        arith::lemma_flat_split(i, s, p.height as int);
        let (x, y) = (i % s, i / s);
        assert(p.at(x, y) == p.data@[i]);
        assert(q.at(x, y) == q.data@[i]);
        assert(a.at(x, y) == b.at(x, y));
    }
    assert(p.data@ =~= q.data@);
}

/// The plane of component `c` lies inside the coding tree blocks.
pub open spec fn plane_in_grid(p: Plane, st: PicState, c: int) -> bool {
    &&& p.wf()
    &&& st.in_grid(p.width * luma_per(c), p.height * luma_per(c))
}

/// Applies the offsets of one component. `scratch` is reused for the copy of
/// the deblocked samples.
fn sao_plane(
    dst: &mut Plane,
    st: &PicState,
    pps: &Pps,
    c: usize,
    bit_depth: u8,
    scratch: &mut Vec<u16>,
    has_bypass: bool,
)
    requires
        st.grid_ok(),
        c <= 2,
        8 <= bit_depth <= 16,
        plane_in_grid(*old(dst), *st, c as int),
        old(dst).bounded(pow2(bit_depth as nat) - 1),
        !has_bypass ==> no_bypass(*st),
    ensures
        is_offset(*final(dst), *old(dst), *st, *pps, c as int, bit_depth as int),
        final(dst).wf(),
{
    let ghost o = *dst;
    scratch.clear();
    scratch.extend_from_slice(dst.data.as_slice());
    assert(scratch@ =~= o.data@);
    proof {
        arith::lemma_pow2_le(bit_depth as nat, 16);
        lemma2_to64();
        pic::lemma_ctb_size(st.log2_ctb as nat);
    }
    let s: usize = if c == 0 {
        1
    } else {
        2
    };
    let cs = arith::pow2_usize(st.log2_ctb) / s;
    let job = Job {
        st,
        pps,
        c,
        bit_depth,
        max: arith::pow2_i32(bit_depth as u32) - 1,
        pw: dst.width,
        ph: dst.height,
        stride: dst.stride,
        src: scratch,
        has_bypass,
    };
    let ghost f = crate::deblock::samples(o);
    assert(job.f() =~= f);
    assert(job.wf());
    let mut ry: usize = 0;
    proof {
        assert forall|x: int, y: int|
            #![trigger dst.at(x, y)]
            0 <= x < o.stride && 0 <= y < o.height implies dst.at(x, y) as int == ctb_progress(
            job,
            o,
            0,
            x,
            y,
        ) by {
            if x < o.width {
                job.lemma_inside(x, y);
            }
        }
    }
    while ry < st.ctb_h
        invariant
            ry <= st.ctb_h,
            job.wf(),
            job.st == st,
            job.c == c,
            job.pw == o.width,
            job.ph == o.height,
            job.stride == o.stride,
            job.f() == f,
            f == crate::deblock::samples(o),
            o.wf(),
            dst.wf(),
            dst.same_shape(o),
            cs * luma_per(c as int) == pow2(st.log2_ctb as nat),
            forall|x: int, y: int|
                #![trigger dst.at(x, y)]
                0 <= x < o.stride && 0 <= y < o.height ==> dst.at(x, y) as int == ctb_progress(
                    job,
                    o,
                    ry * st.ctb_w,
                    x,
                    y,
                ),
        decreases st.ctb_h - ry,
    {
        let mut rx: usize = 0;
        while rx < st.ctb_w
            invariant
                ry < st.ctb_h,
                rx <= st.ctb_w,
                job.wf(),
                job.st == st,
                job.c == c,
                job.pw == o.width,
                job.ph == o.height,
                job.stride == o.stride,
                job.f() == f,
                f == crate::deblock::samples(o),
                o.wf(),
                dst.wf(),
                dst.same_shape(o),
                cs * luma_per(c as int) == pow2(st.log2_ctb as nat),
                forall|x: int, y: int|
                    #![trigger dst.at(x, y)]
                    0 <= x < o.stride && 0 <= y < o.height ==> dst.at(x, y) as int == ctb_progress(
                        job,
                        o,
                        ry * st.ctb_w + rx,
                        x,
                        y,
                    ),
            decreases st.ctb_w - rx,
        {
            let ghost prev = *dst;
            proof {
                assert forall|x: int, y: int|
                    #![trigger prev.at(x, y)]
                    0 <= x < job.stride && 0 <= y < job.ph && x < job.pw && st.ctb_at(
                        x * luma_per(c as int),
                        y * luma_per(c as int),
                    ) == ry * st.ctb_w + rx implies prev.at(x, y) == job.f()(x, y) by {
                    assert(prev.at(x, y) as int == ctb_progress(
                        job,
                        o,
                        ry * st.ctb_w + rx,
                        x,
                        y,
                    ));
                }
            }
            sao_ctb(dst, &job, rx, ry, cs);
            proof {
                assert forall|x: int, y: int|
                    #![trigger dst.at(x, y)]
                    0 <= x < o.stride && 0 <= y < o.height implies dst.at(x, y) as int
                    == ctb_progress(job, o, ry * st.ctb_w + rx + 1, x, y) by {
                    assert(prev.at(x, y) as int == ctb_progress(
                        job,
                        o,
                        ry * st.ctb_w + rx,
                        x,
                        y,
                    ));
                }
            }
            rx += 1;
        }
        assert((ry + 1) * st.ctb_w == ry * st.ctb_w + st.ctb_w) by (nonlinear_arith);
        ry += 1;
    }
    proof {
        vstd::arithmetic::mul::lemma_mul_is_commutative(st.ctb_h as int, st.ctb_w as int);
        assert forall|x: int, y: int|
            #![trigger dst.at(x, y)]
            0 <= x < o.stride && 0 <= y < o.height implies dst.at(x, y) as int == (if x < o.width {
            job.value(x, y)
        } else {
            o.at(x, y) as int
        }) by {
            if x < o.width {
                job.lemma_inside(x, y);
            }
        }
    }
}

/// A sample once the coding tree blocks before `rs` are done.
spec fn ctb_progress(job: Job, o: Plane, rs: int, x: int, y: int) -> int {
    if x < o.width && job.st.ctb_at(x * luma_per(job.c as int), y * luma_per(job.c as int)) < rs {
        job.value(x, y)
    } else {
        o.at(x, y) as int
    }
}

/// Applies sample adaptive offset to a picture. `has_bypass` says whether any
/// block is kept from the loop filters.
pub fn sao(
    planes: &mut [Plane; 3],
    st: &PicState,
    sps: &Sps,
    pps: &Pps,
    scratch: &mut Vec<u16>,
    has_bypass: bool,
)
    requires
        st.grid_ok(),
        8 <= sps.bit_depth_luma <= 16,
        8 <= sps.bit_depth_chroma <= 16,
        forall|c: int|
            #![trigger old(planes)@[c]]
            0 <= c < 3 ==> plane_in_grid(old(planes)@[c], *st, c) && old(planes)@[c].bounded(
                pow2(filters::depth_of(*sps, c)) - 1,
            ),
        !has_bypass ==> no_bypass(*st),
    ensures
        forall|c: int|
            #![trigger final(planes)@[c]]
            0 <= c < 3 ==> final(planes)@[c].wf() && is_offset(
                final(planes)@[c],
                old(planes)@[c],
                *st,
                *pps,
                c,
                filters::depth_of(*sps, c) as int,
            ),
{
    let mut c: usize = 0;
    while c < 3
        invariant
            c <= 3,
            st.grid_ok(),
            8 <= sps.bit_depth_luma <= 16,
            8 <= sps.bit_depth_chroma <= 16,
            !has_bypass ==> no_bypass(*st),
            forall|i: int|
                #![trigger old(planes)@[i]]
                0 <= i < 3 ==> plane_in_grid(old(planes)@[i], *st, i)
                    && old(planes)@[i].bounded(pow2(filters::depth_of(*sps, i)) - 1),
            forall|i: int|
                #![trigger planes@[i]]
                0 <= i < 3 ==> planes@[i].wf() && (if i < c {
                    is_offset(
                        planes@[i],
                        old(planes)@[i],
                        *st,
                        *pps,
                        i,
                        filters::depth_of(*sps, i) as int,
                    )
                } else {
                    planes@[i] == old(planes)@[i]
                }),
        decreases 3 - c,
    {
        let bd = if c == 0 {
            sps.bit_depth_luma
        } else {
            sps.bit_depth_chroma
        };
        assert(planes@[c as int] == old(planes)@[c as int]);
        sao_plane(&mut planes[c], st, pps, c, bd, scratch, has_bypass);
        c += 1;
    }
}

/// An offset depends on samples inside the plane only.
pub proof fn lemma_offset_local(
    st: PicState,
    pps: Pps,
    c: int,
    bit_depth: int,
    pw: int,
    ph: int,
    f: spec_fn(int, int) -> int,
    g: spec_fn(int, int) -> int,
    x: int,
    y: int,
)
    requires
        0 <= x < pw,
        0 <= y < ph,
        forall|a: int, b: int|
            #![trigger f(a, b)]
            0 <= a < pw && 0 <= b < ph ==> f(a, b) == g(a, b),
    ensures
        offset_sample(st, pps, c, bit_depth, pw, ph, f, x, y) == offset_sample(
            st,
            pps,
            c,
            bit_depth,
            pw,
            ph,
            g,
            x,
            y,
        ),
{
    assert(f(x, y) == g(x, y));
}

/// §8.7.3: samples after their offset stay in the sample range.
pub proof fn lemma_offset_bounded(
    st: PicState,
    pps: Pps,
    c: int,
    bit_depth: int,
    pw: int,
    ph: int,
    f: spec_fn(int, int) -> int,
    x: int,
    y: int,
)
    requires
        0 <= f(x, y) <= pow2(bit_depth as nat) - 1,
    ensures
        0 <= offset_sample(st, pps, c, bit_depth, pw, ph, f, x, y) <= pow2(bit_depth as nat) - 1,
{
}

/// The samples of a block that must not be filtered get no offset.
pub proof fn lemma_bypass_no_offset(
    st: PicState,
    pps: Pps,
    c: int,
    bit_depth: int,
    pw: int,
    ph: int,
    f: spec_fn(int, int) -> int,
    x: int,
    y: int,
)
    requires
        st.filter_bypass@[st.block_of(x * luma_per(c), y * luma_per(c))] != 0,
    ensures
        offset_sample(st, pps, c, bit_depth, pw, ph, f, x, y) == f(x, y),
{
}

/// Table 8-19: a sample between its neighbours, or level with both, gets no
/// edge offset.
pub proof fn lemma_no_offset_on_slope(prm: SaoParams, v: int, a: int, b: int)
    requires
        a < v < b || b < v < a || a == v == b,
    ensures
        edge_offset(prm, v, a, b) == 0,
{
}

} // verus!
