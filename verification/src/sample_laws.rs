//! What happens to samples: the border of a reference picture, the sum of
//! prediction and residual, and the bytes of an output picture.

use crate::frame;
use crate::frame::{Picture, Plane};
use crate::mcscratch;
use crate::pixel;
use vstd::arithmetic::power2::*;
use vstd::prelude::*;

verus! {

// ---- the border ----

/// A reference sample inside the plane is that sample; outside, the nearest one at
/// the border, along the row or along the column.
pub proof fn lemma_border(p: Plane, x: int, y: int)
    requires
        p.width > 0,
        p.height > 0,
    ensures
        0 <= x < p.width && 0 <= y < p.height ==> mcscratch::clamped_sample(p, x, y)
            == p.data@[y * p.stride + x],
        x <= 0 ==> mcscratch::clamped_sample(p, x, y) == mcscratch::clamped_sample(p, 0, y),
        x >= p.width ==> mcscratch::clamped_sample(p, x, y) == mcscratch::clamped_sample(
            p,
            p.width - 1,
            y,
        ),
        y <= 0 ==> mcscratch::clamped_sample(p, x, y) == mcscratch::clamped_sample(p, x, 0),
        y >= p.height ==> mcscratch::clamped_sample(p, x, y) == mcscratch::clamped_sample(
            p,
            x,
            p.height - 1,
        ),
{
}

/// The footprint of a block holds, row by row, its samples, or those of the plane that
/// are nearest to them.
pub proof fn lemma_footprint(
    pad: Seq<u16>,
    p: Plane,
    x0: int,
    y0: int,
    fw: int,
    fh: int,
    x: int,
    y: int,
)
    requires
        mcscratch::is_footprint(pad, p, x0, y0, fw, fh),
        p.width > 0,
        p.height > 0,
        0 <= x < fw,
        0 <= y < fh,
    ensures
        ({
            let nearest = |v: int, n: int|
                if v < 0 {
                    0
                } else if v >= n {
                    n - 1
                } else {
                    v
                };
            pad[y * fw + x] == p.data@[nearest(y0 + y, p.height as int) * p.stride + nearest(
                x0 + x,
                p.width as int,
            )]
        }),
{
    let v = pad[y * fw + x];
}

// ---- prediction plus residual ----

/// A block's samples grow by its residual, row by row, from what was predicted in
/// their place or from the one value predicted for all, and stop at the ends of the
/// sample range. Samples outside the block stay as they are.
pub proof fn lemma_residual_added(
    p: Plane,
    o: Plane,
    base: Option<u16>,
    res: Seq<i32>,
    xb: int,
    yb: int,
    n: int,
    max: int,
    i: int,
    j: int,
)
    requires
        pixel::block_set(p, o, xb, yb, n, pixel::residual_sum(o, base, res, xb, yb, n, max)),
        max >= 0,
        0 <= xb,
        0 <= yb,
    ensures
        0 <= i < n && 0 <= j < n && xb + n <= o.stride && yb + n <= o.height ==> ({
            let from = match base {
                Some(v) => v as int,
                None => o.data@[(yb + j) * o.stride + (xb + i)] as int,
            };
            let sum = from + res[j * n + i];
            let new = p.data@[(yb + j) * p.stride + (xb + i)] as int;
            &&& 0 <= sum <= max ==> new == sum
            &&& sum < 0 ==> new == 0
            &&& sum > max ==> new == max
        }),
        0 <= i < o.stride && 0 <= j < o.height && (i < xb || i >= xb + n || j < yb || j >= yb + n)
            ==> p.data@[j * p.stride + i] == o.data@[j * o.stride + i],
{
    if 0 <= i < n && 0 <= j < n {
        let a = p.at(xb + i, yb + j);
    }
    let b = p.at(i, j);
}

// ---- output bytes ----

/// The bytes of a sample as a number.
pub open spec fn number(bytes: Seq<u8>, at: int, wide: bool) -> int {
    if wide {
        bytes[at] + 256 * bytes[at + 1]
    } else {
        bytes[at] as int
    }
}

/// How many bytes a sample takes.
pub open spec fn width_of(wide: bool) -> int {
    if wide {
        2
    } else {
        1
    }
}

proof fn lemma_run(s: Seq<u16>, wide: bool, k: int)
    requires
        0 <= k < s.len(),
    ensures
        frame::run_bytes(s, wide).len() == width_of(wide) * s.len(),
        number(frame::run_bytes(s, wide), width_of(wide) * k, wide) == if wide {
            s[k] as int
        } else {
            s[k] as int % 256
        },
    decreases s.len(),
{
    let rest = s.drop_last();
    frame::lemma_run_bytes_len(rest, wide);
    frame::lemma_run_bytes_len(s, wide);
    if k < s.len() - 1 {
        lemma_run(rest, wide, k);
    }
}

proof fn lemma_window(
    p: Plane,
    x0: int,
    y0: int,
    w: int,
    h: int,
    wide: bool,
    x: int,
    y: int,
)
    requires
        0 <= x < w,
        0 <= y < h,
    ensures
        frame::window_bytes(p, x0, y0, w, h, wide).len() == width_of(wide) * (w * h),
        0 <= width_of(wide) * (y * w + x),
        width_of(wide) * (y * w + x) + width_of(wide) <= width_of(wide) * (w * h),
        number(
            frame::window_bytes(p, x0, y0, w, h, wide),
            width_of(wide) * (y * w + x),
            wide,
        ) == if wide {
            p.at(x0 + x, y0 + y) as int
        } else {
            p.at(x0 + x, y0 + y) as int % 256
        },
    decreases h,
{
    let last = frame::row_run(p, x0, w, y0 + h - 1);
    frame::lemma_window_bytes_len(p, x0, y0, w, h - 1, wide);
    frame::lemma_window_bytes_len(p, x0, y0, w, h, wide);
    frame::lemma_run_bytes_len(last, wide);
    crate::arith::lemma_flat_bound(x, y, w, h);
    assert(w * h == w * (h - 1) + w) by (nonlinear_arith);
    if y < h - 1 {
        lemma_window(p, x0, y0, w, h - 1, wide, x, y);
    } else {
        lemma_run(last, wide, x);
        assert(y * w == w * (h - 1)) by (nonlinear_arith)
            requires
                y == h - 1,
        ;
    }
}

/// The part of plane `c` that is output: the crop rectangle, in the samples of the
/// plane, of which 4:2:0 has half as many each way and 4:2:2 half as many in a row.
pub open spec fn output_part(p: Picture, c: int) -> (int, int, int, int) {
    let (x, y, w, h) = (
        p.crop.0 as int,
        p.crop.1 as int,
        p.crop.2 as int,
        p.crop.3 as int,
    );
    if c == 0 || p.chroma_format_idc == 3 {
        (x, y, w, h)
    } else if p.chroma_format_idc == 2 {
        (x / 2, y, w / 2, h)
    } else {
        (x / 2, y / 2, w / 2, h / 2)
    }
}

/// Where the bytes of plane `c` start: after the planes before it.
pub open spec fn output_start(p: Picture, c: int) -> int {
    let size = width_of(p.bit_depth_luma > 8 || p.bit_depth_chroma > 8);
    let (y, cb) = (output_part(p, 0), output_part(p, 1));
    if c == 0 {
        0
    } else if c == 1 {
        size * (y.2 * y.3)
    } else {
        size * (y.2 * y.3) + size * (cb.2 * cb.3)
    }
}

proof fn lemma_output_part(p: Picture, c: int)
    requires
        1 <= p.chroma_format_idc <= 3 || c == 0,
    ensures
        p.crop_window(c) == output_part(p, c),
{
    let v = p@;
    assert(v.crop == p.crop && v.chroma_format_idc == p.chroma_format_idc);
    if c != 0 {
        let f = p.chroma_format_idc;
        let s = frame::subsampling(f as int);
        if f == 1 {
            assert(s == (2int, 2int));
        } else if f == 2 {
            assert(s == (2int, 1int));
            assert(v.crop.1 as int / 1 == v.crop.1 && v.crop.3 as int / 1 == v.crop.3);
        } else {
            assert(s == (1int, 1int));
            assert(v.crop.0 as int / 1 == v.crop.0 && v.crop.2 as int / 1 == v.crop.2);
            assert(v.crop.1 as int / 1 == v.crop.1 && v.crop.3 as int / 1 == v.crop.3);
        }
    }
}

/// Every sample of the output part stands in the bytes of a picture: Y, then Cb,
/// then Cr, row by row, with its low byte first where one of the bit depths is above
/// eight, and in one byte else.
pub proof fn lemma_yuv_holds_samples(p: Picture, c: int, x: int, y: int)
    requires
        0 <= c <= 2,
        1 <= p.chroma_format_idc <= 3 || c == 0 && p.chroma_format_idc == 0,
        0 <= x < output_part(p, c).2,
        0 <= y < output_part(p, c).3,
    ensures
        ({
            let wide = p.bit_depth_luma > 8 || p.bit_depth_chroma > 8;
            let (x0, y0, w, h) = output_part(p, c);
            let plane = p.planes@[c];
            let v = plane.data@[(y0 + y) * plane.stride + (x0 + x)] as int;
            let at = output_start(p, c) + width_of(wide) * (y * w + x);
            number(p.yuv_bytes(), at, wide) == if wide {
                v
            } else {
                v % 256
            }
        }),
{
    let wide = p.bit_depth_luma > 8 || p.bit_depth_chroma > 8;
    let (x0, y0, w, h) = output_part(p, c);
    lemma_output_part(p, c);
    assert(p.wide() == wide);
    lemma_window(p.planes@[c], x0, y0, w, h, wide, x, y);
    let (a, b) = (output_part(p, 0), output_part(p, 1));
    lemma_output_part(p, 0);
    frame::lemma_window_bytes_len(p.planes@[0], a.0, a.1, a.2, a.3, wide);
    if c > 0 {
        lemma_output_part(p, 1);
        frame::lemma_window_bytes_len(p.planes@[1], b.0, b.1, b.2, b.3, wide);
    }
    let at = width_of(wide) * (y * w + x);
    let bytes = p.plane_bytes(c);
    let start = output_start(p, c);
    assert(p.yuv_bytes()[start + at] == bytes[at]);
    if wide {
        assert(p.yuv_bytes()[start + at + 1] == bytes[at + 1]);
    }
}

} // verus!
