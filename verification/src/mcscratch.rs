//! Motion-compensation scratch and the weighted-prediction write-out: the
//! geometry around interpolation. Reusable buffers so that no prediction unit
//! allocates, an edge-extended footprint for blocks whose filter support
//! leaves the picture (§8.5.3.3.2), and explicit weighted prediction
//! (§8.5.3.3.4.3).

use crate::arith;
use crate::frame::Plane;
use crate::pixel;
use crate::pixel::Weighting;
use crate::slice::WeightEntry;
use crate::weight_laws::Source;
use vstd::arithmetic::power2::*;
use vstd::prelude::*;

verus! {

/// Largest luma prediction block, and the filter margin around it.
pub const MAX_PB: usize = 64;

pub const MAX_MARGIN: usize = 7;

/// Buffers reused by every prediction unit in a slice.
pub struct McScratch {
    /// The 14-bit intermediate for each reference list.
    pub pred: [Vec<i16>; 2],
    /// The horizontal pass's output, consumed by the vertical pass.
    pub tmp: Vec<i16>,
    /// Edge-extended footprint, for blocks that reach outside the picture.
    pub pad: Vec<u16>,
}

/// The sample at (`x`, `y`) with both coordinates confined to the plane.
pub open spec fn clamped_sample(p: Plane, x: int, y: int) -> u16 {
    p.at(arith::clip3(0, p.width - 1, x), arith::clip3(0, p.height - 1, y))
}

/// `pad` starts with the `fw`×`fh` samples at (`x0`, `y0`), row by row, the border
/// repeated where they lie outside the plane.
pub open spec fn is_footprint(
    pad: Seq<u16>,
    p: Plane,
    x0: int,
    y0: int,
    fw: int,
    fh: int,
) -> bool {
    forall|x: int, y: int|
        #![trigger pad[y * fw + x]]
        0 <= x < fw && 0 <= y < fh ==> pad[y * fw + x] == clamped_sample(p, x0 + x, y0 + y)
}

impl McScratch {
    /// Buffers for the largest block, all zero.
    pub fn new() -> (s: McScratch)
        ensures
            s.pred@[0]@ == Seq::new((MAX_PB * MAX_PB) as nat, |i: int| 0i16),
            s.pred@[1]@ == Seq::new((MAX_PB * MAX_PB) as nat, |i: int| 0i16),
            s.tmp@ == Seq::new((MAX_PB * (MAX_PB + MAX_MARGIN)) as nat, |i: int| 0i16),
            s.pad@ == Seq::new(
                ((MAX_PB + MAX_MARGIN) * (MAX_PB + MAX_MARGIN)) as nat,
                |i: int| 0u16,
            ),
    {
        let s = McScratch {
            pred: [vec![0; MAX_PB * MAX_PB], vec![0; MAX_PB * MAX_PB]],
            tmp: vec![0; MAX_PB * (MAX_PB + MAX_MARGIN)],
            pad: vec![0; (MAX_PB + MAX_MARGIN) * (MAX_PB + MAX_MARGIN)],
        };
        proof {
            assert(s.pred@[0]@ =~= Seq::new((MAX_PB * MAX_PB) as nat, |i: int| 0i16));
            assert(s.pred@[1]@ =~= Seq::new((MAX_PB * MAX_PB) as nat, |i: int| 0i16));
            assert(s.tmp@ =~= Seq::new((MAX_PB * (MAX_PB + MAX_MARGIN)) as nat, |i: int| 0i16));
            assert(s.pad@ =~= Seq::new(
                ((MAX_PB + MAX_MARGIN) * (MAX_PB + MAX_MARGIN)) as nat,
                |i: int| 0u16,
            ));
        }
        s
    }

    /// Copies the `fw`×`fh` footprint at (`x0`, `y0`) out of `plane` into
    /// `pad`, extending the edge sample where the footprint leaves the
    /// picture. Rows are split into a left run, an interior copy and a right
    /// run, so the clamp costs three decisions per row rather than one per
    /// sample.
    pub fn pad_footprint(&mut self, plane: &Plane, x0: i32, y0: i32, fw: usize, fh: usize)
        requires
            plane.wf(),
            1 <= plane.width <= i32::MAX,
            1 <= plane.height <= i32::MAX,
            fw * fh <= usize::MAX,
            fw <= i32::MAX,
            fh <= i32::MAX,
            i32::MIN < x0,
            x0 + fw <= i32::MAX,
            y0 + fh <= i32::MAX,
            x0 + fw - plane.width >= i32::MIN,
        ensures
            final(self).pred == old(self).pred,
            final(self).tmp == old(self).tmp,
            final(self).pad@.len() == arith::max2(old(self).pad@.len() as int, fw * fh),
            is_footprint(
                final(self).pad@,
                *plane,
                x0 as int,
                y0 as int,
                fw as int,
                fh as int,
            ),
            forall|i: int|
                #![trigger final(self).pad@[i]]
                fw * fh <= i < old(self).pad@.len() ==> final(self).pad@[i] == old(self).pad@[i],
    {
        let ghost pad0 = self.pad@;
        if self.pad.len() < fw * fh {
            self.pad.resize(fw * fh, 0);
        }
        let pw = plane.width as i32;
        let ph = plane.height as i32;
        let left = arith::clip_i32(0, fw as i32, -x0) as usize;
        let right = arith::clip_i32(0, fw as i32, (x0 + fw as i32) - pw) as usize;
        let mid = fw - left - right;
        let mut y: usize = 0;
        while y < fh
            invariant
                y <= fh,
                plane.wf(),
                1 <= plane.width <= i32::MAX,
                1 <= plane.height <= i32::MAX,
                pw == plane.width,
                ph == plane.height,
                fw <= i32::MAX,
                fh <= i32::MAX,
                i32::MIN < x0,
                x0 + fw <= i32::MAX,
                y0 + fh <= i32::MAX,
                left == arith::clip3(0, fw as int, -(x0 as int)),
                right == arith::clip3(0, fw as int, x0 + fw - pw),
                left + mid + right == fw,
                self.pred == old(self).pred,
                self.tmp == old(self).tmp,
                self.pad@.len() == arith::max2(pad0.len() as int, fw * fh),
                forall|b: int, a: int|
                    #![trigger self.pad@[b * fw + a]]
                    0 <= a < fw && 0 <= b < y ==> self.pad@[b * fw + a] == clamped_sample(
                        *plane,
                        x0 + a,
                        y0 + b,
                    ),
                forall|i: int|
                    #![trigger self.pad@[i]]
                    fw * fh <= i < pad0.len() ==> self.pad@[i] == pad0[i],
            decreases fh - y,
        {
            let sy = arith::clip_i32(0, ph - 1, y0 + y as i32) as usize;
            let ghost before = self.pad@;
            proof {
                assert(plane.data@.len() == plane.data.len());
                assert(self.pad@.len() == self.pad.len());
                arith::lemma_flat_bound(0, sy as int, plane.stride as int, plane.height as int);
                assert((y + 1) * fw <= fw * fh && (y + 1) * fw == y * fw + fw && 0 <= y * fw)
                    by (nonlinear_arith)
                    requires
                        0 <= y < fh,
                        0 <= fw,
                ;
                assert((sy + 1) * plane.stride <= plane.stride * plane.height) by (nonlinear_arith)
                    requires
                        sy + 1 <= plane.height,
                        0 <= plane.stride,
                ;
                assert((sy + 1) * plane.stride == sy * plane.stride + plane.stride)
                    by (nonlinear_arith);
            }
            let row = sy * plane.stride;
            let out = y * fw;
            let mut x: usize = 0;
            while x < fw
                invariant
                    x <= fw,
                    1 <= plane.width <= i32::MAX,
                    pw == plane.width,
                    fw <= i32::MAX,
                    i32::MIN < x0,
                    x0 + fw <= i32::MAX,
                    left == arith::clip3(0, fw as int, -(x0 as int)),
                    right == arith::clip3(0, fw as int, x0 + fw - pw),
                    left + mid + right == fw,
                    row == sy * plane.stride,
                    sy == arith::clip3(0, plane.height - 1, y0 + y),
                    row + plane.width <= plane.data@.len() == plane.data.len(),
                    out == y * fw,
                    out + fw <= self.pad@.len() == self.pad.len(),
                    self.pred == old(self).pred,
                    self.tmp == old(self).tmp,
                    self.pad@.len() == before.len(),
                    forall|a: int|
                        #![trigger self.pad@[out + a]]
                        0 <= a < x ==> self.pad@[out + a] == clamped_sample(
                            *plane,
                            x0 + a,
                            y0 + y,
                        ),
                    forall|i: int|
                        #![trigger self.pad@[i]]
                        0 <= i < before.len() && !(out <= i < out + x) ==> self.pad@[i]
                            == before[i],
                decreases fw - x,
            {
                let sx: usize = if mid == 0 {
                    // The whole footprint is off one side: one edge sample.
                    arith::clip_i32(0, pw - 1, x0) as usize
                } else if x < left {
                    0
                } else if x < left + mid {
                    (x0 + x as i32) as usize
                } else {
                    plane.width - 1
                };
                assert(sx == arith::clip3(0, plane.width - 1, x0 + x));
                let v = plane.data[row + sx];
                self.pad[out + x] = v;
                x += 1;
            }
            proof {
                assert forall|b: int, a: int|
                    #![trigger self.pad@[b * fw + a]]
                    0 <= a < fw && 0 <= b < y + 1 implies self.pad@[b * fw + a]
                    == clamped_sample(*plane, x0 + a, y0 + b) by {
                    if b == y {
                        assert(self.pad@[out + a] == clamped_sample(*plane, x0 + a, y0 + y));
                    } else {
                        arith::lemma_flat_bound(a, b, fw as int, y as int);
                        vstd::arithmetic::mul::lemma_mul_is_commutative(fw as int, y as int);
                        assert(before[b * fw + a] == clamped_sample(*plane, x0 + a, y0 + b));
                    }
                }
            }
            y += 1;
        }
    }
}

// ---- explicit weighted prediction ----

impl WeightEntry {
    /// Weights and offsets in the range that the slice header codes.
    pub open spec fn wf(self) -> bool {
        &&& -0x1fff <= self.luma_weight <= 0x1fff
        &&& -0x8000 <= self.luma_offset <= 0x7fff
        &&& forall|i: int|
            #![trigger self.chroma_weight@[i]]
            0 <= i < 2 ==> -0x1fff <= self.chroma_weight@[i] <= 0x1fff
        &&& forall|i: int|
            #![trigger self.chroma_offset@[i]]
            0 <= i < 2 ==> -0x8000 <= self.chroma_offset@[i] <= 0x7fff
    }
}

/// The weight and offset of component `c`; without an entry, the weight that
/// leaves the prediction as it is.
pub open spec fn weight_of(e: Option<WeightEntry>, denom: nat, c: int) -> (int, int) {
    match e {
        Some(e) => if c == 0 {
            (e.luma_weight as int, e.luma_offset as int)
        } else {
            (e.chroma_weight@[c - 1] as int, e.chroma_offset@[c - 1] as int)
        },
        None => (pow2(denom) as int, 0),
    }
}

fn weight(e: Option<&WeightEntry>, denom: u32, c: usize) -> (r: (i32, i32))
    requires
        denom <= 7,
        c <= 2,
        e matches Some(w) ==> w.wf(),
    ensures
        (r.0 as int, r.1 as int) == weight_of(
            match e {
                Some(w) => Some(*w),
                None => None,
            },
            denom as nat,
            c as int,
        ),
        -0x1fff <= r.0 <= 0x1fff,
        -0x8000 <= r.1 <= 0x7fff,
{
    match e {
        Some(e) => if c == 0 {
            (e.luma_weight, e.luma_offset)
        } else {
            (e.chroma_weight[c - 1], e.chroma_offset[c - 1])
        },
        None => {
            proof {
                arith::lemma_pow2_le(denom as nat, 7);
                lemma2_to64();
            }
            (arith::pow2_i32(denom), 0)
        },
    }
}

/// The weighting that a block's references select.
pub open spec fn block_weighting(
    used: (bool, bool),
    e0: Option<WeightEntry>,
    e1: Option<WeightEntry>,
    denom: nat,
    c: int,
    bit_depth: int,
) -> Weighting {
    let log2wd = (denom + 14 - bit_depth) as nat;
    let (w0, o0) = weight_of(e0, denom, c);
    let (w1, o1) = weight_of(e1, denom, c);
    if used.0 && used.1 {
        Weighting::Bi {
            w0: w0 as i32,
            w1: w1 as i32,
            round: ((o0 + o1 + 1) * pow2(log2wd)) as i32,
            log2wd: log2wd as u32,
        }
    } else if used.0 {
        Weighting::Uni { w: w0 as i32, o: o0 as i32, log2wd: log2wd as u32 }
    } else {
        Weighting::Uni { w: w1 as i32, o: o1 as i32, log2wd: log2wd as u32 }
    }
}

pub open spec fn entry(e: Option<&WeightEntry>) -> Option<WeightEntry> {
    match e {
        Some(w) => Some(*w),
        None => None,
    }
}

/// §8.5.3.3.4.3 explicit weighted prediction, uni or bi.
pub fn weighted_write(
    dst: &mut [u16],
    dst_stride: usize,
    pred: &[Vec<i16>; 2],
    used: [bool; 2],
    e0: Option<&WeightEntry>,
    e1: Option<&WeightEntry>,
    denom: u32,
    c: usize,
    w: usize,
    h: usize,
    bit_depth: u8,
)
    requires
        w <= dst_stride,
        w > 0 && h > 0 ==> (h - 1) * dst_stride + w <= old(dst)@.len(),
        used@[0] ==> w * h <= pred@[0]@.len() && (e0 matches Some(e) ==> e.wf()),
        // The second list is used, too, where neither flag is set.
        used@[1] || !used@[0] ==> w * h <= pred@[1]@.len() && (e1 matches Some(e) ==> e.wf()),
        8 <= bit_depth <= 14,
        denom <= 7,
        c <= 2,
    ensures
        (Source {
            pred0: pred@[0]@,
            pred1: pred@[1]@,
            e0: entry(e0),
            e1: entry(e1),
        }).gives(
            (used@[0], used@[1]),
            final(dst)@,
            old(dst)@,
            dst_stride as int,
            denom as nat,
            c as int,
            w as int,
            h as int,
            bit_depth as int,
        ),
{
    if w == 0 {
        return ;
    }
    let max = arith::pow2_i32(bit_depth as u32) - 1;
    let log2wd = denom + (14 - bit_depth as u32);
    proof {
        arith::lemma_pow2_le(bit_depth as nat, 14);
        arith::lemma_pow2_le(log2wd as nat, 13);
        lemma2_to64();
    }
    if used[0] && used[1] {
        let (w0, o0) = weight(e0, denom, c);
        let (w1, o1) = weight(e1, denom, c);
        let scale = arith::pow2_i32(log2wd);
        assert(-0x2000_4000 <= (o0 + o1 + 1) * scale <= 0x2000_4000) by (nonlinear_arith)
            requires
                -0xffff <= o0 + o1 + 1 <= 0xffff,
                1 <= scale <= 8192,
        ;
        let k = Weighting::Bi { w0, w1, round: (o0 + o1 + 1) * scale, log2wd };
        pixel::write_weighted(dst, dst_stride, &pred[0], &pred[1], w, h, &k, max);
    } else if used[0] {
        let (w0, o0) = weight(e0, denom, c);
        let k = Weighting::Uni { w: w0, o: o0, log2wd };
        pixel::write_weighted(dst, dst_stride, &pred[0], &pred[0], w, h, &k, max);
    } else {
        let (w1, o1) = weight(e1, denom, c);
        let k = Weighting::Uni { w: w1, o: o1, log2wd };
        pixel::write_weighted(dst, dst_stride, &pred[1], &pred[1], w, h, &k, max);
    }
}

/// The block's rows hold the weighted samples, and nothing else changed.
pub open spec fn rows_weighted(
    out: Seq<u16>,
    from: Seq<u16>,
    stride: int,
    pred0: Seq<i16>,
    pred1: Seq<i16>,
    w: int,
    h: int,
    k: Weighting,
    max: int,
) -> bool {
    pixel::rows_set(out, from, stride, w, h, pixel::weighted_samples(k, pred0, pred1, w, max))
}

/// Without explicit weights, weighted prediction is plain prediction, whatever
/// the denominator: one reference rounded to the sample range, or the rounded
/// mean of two.
pub proof fn lemma_default_weights(p0: int, p1: int, denom: nat, shift: nat)
    requires
        shift >= 1,
    ensures
        ({
            let w = pow2(denom) as int;
            let log2wd = denom + shift;
            &&& pixel::weighted_one(p0, w, 0, log2wd) == (p0 + pow2((shift - 1) as nat)) / (pow2(
                shift,
            ) as int)
            &&& pixel::weighted_two(p0, p1, w, w, pow2(log2wd) as int, log2wd) == (p0 + p1 + pow2(
                shift,
            )) / (pow2(shift + 1) as int)
        }),
{
    let w = pow2(denom) as int;
    lemma_pow2_pos(denom);
    lemma_pow2_pos(shift);
    lemma_pow2_pos(shift + 1);
    lemma_pow2_adds(denom, (shift - 1) as nat);
    lemma_pow2_adds(denom, shift);
    lemma_pow2_adds(denom, shift + 1);
    lemma_scaled_quotient(w, p0 + pow2((shift - 1) as nat), pow2(shift) as int);
    lemma_scaled_quotient(w, p0 + p1 + pow2(shift), pow2(shift + 1) as int);
    let half = pow2((shift - 1) as nat) as int;
    assert(w * (p0 + half) == p0 * w + w * half) by (nonlinear_arith);
    let unit = pow2(shift) as int;
    assert(w * (p0 + p1 + unit) == p0 * w + p1 * w + w * unit) by (nonlinear_arith);
}

/// A common factor leaves a quotient as it is.
proof fn lemma_scaled_quotient(w: int, a: int, b: int)
    requires
        w > 0,
        b > 0,
    ensures
        (w * a) / (w * b) == a / b,
{
    let q = a / b;
    let r = a % b;
    vstd::arithmetic::div_mod::lemma_fundamental_div_mod(a, b);
    assert(w * a == q * (w * b) + w * r) by (nonlinear_arith)
        requires
            a == b * q + r,
    ;
    assert(0 <= w * r < w * b) by (nonlinear_arith)
        requires
            w > 0,
            0 <= r < b,
    ;
    vstd::arithmetic::div_mod::lemma_fundamental_div_mod_converse(w * a, w * b, q, w * r);
}

} // verus!
