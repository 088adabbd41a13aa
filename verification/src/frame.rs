//! Decoded pictures: planar Y/Cb/Cr sample storage. All bit depths use `u16`
//! samples; the output side hands out either width.

use std::sync::Arc;

use crate::arith;
use crate::pic::Motion;
use vstd::prelude::*;

verus! {

/// One sample plane.
#[derive(Debug)]
pub struct Plane {
    pub width: usize,
    pub height: usize,
    pub stride: usize,
    pub data: Vec<u16>,
}

impl Plane {
    /// The samples fill `height` rows of `stride`, each at least `width` long.
    pub open spec fn wf(self) -> bool {
        &&& self.width <= self.stride
        &&& self.data@.len() == self.stride * self.height
    }

    /// The sample at column `x` of row `y`.
    pub open spec fn at(self, x: int, y: int) -> u16 {
        self.data@[y * self.stride + x]
    }

    /// The same geometry as another plane.
    pub open spec fn same_shape(self, o: Plane) -> bool {
        &&& self.width == o.width
        &&& self.height == o.height
        &&& self.stride == o.stride
        &&& self.data@.len() == o.data@.len()
    }

    /// No sample exceeds `max`.
    pub open spec fn bounded(self, max: int) -> bool {
        forall|i: int| #![trigger self.data@[i]] 0 <= i < self.data@.len() ==> self.data@[i] <= max
    }

    /// A plane of zeros.
    pub fn new(width: usize, height: usize) -> (p: Self)
        requires
            width * height <= usize::MAX,
        ensures
            p.wf(),
            p@ == flat_plane(width as int, height as int, 0),
    {
        let p = Plane { width, height, stride: width, data: vec![0; width * height] };
        assert(p.data@ =~= Seq::new((width * height) as nat, |i: int| 0u16));
        p
    }

    pub fn get(&self, x: usize, y: usize) -> (v: u16)
        requires
            y * self.stride + x < self.data@.len(),
        ensures
            v == self.at(x as int, y as int),
    {
        proof {
            assert(self.data@.len() == self.data.len());
            arith::lemma_product_fits(y as int, self.stride as int);
        }
        self.data[y * self.stride + x]
    }

    pub fn set(&mut self, x: usize, y: usize, v: u16)
        requires
            y * old(self).stride + x < old(self).data@.len(),
        ensures
            final(self).same_shape(*old(self)),
            final(self).data@ == old(self).data@.update(y * old(self).stride + x, v),
    {
        proof {
            assert(self.data@.len() == self.data.len());
            arith::lemma_product_fits(y as int, self.stride as int);
        }
        let i = y * self.stride + x;
        self.data[i] = v;
    }

    /// Row `y`.
    pub fn row(&self, y: usize) -> (r: &[u16])
        requires
            y * self.stride + self.width <= self.data@.len(),
        ensures
            r@ == self.data@.subrange(y * self.stride, y * self.stride + self.width),
    {
        proof {
            assert(self.data@.len() == self.data.len());
            arith::lemma_product_fits(y as int, self.stride as int);
        }
        let start = y * self.stride;
        vstd::slice::slice_subrange(self.data.as_slice(), start, start + self.width)
    }

    /// Row `y`, for writing: what is written there is what the row holds
    /// afterwards, and every other sample stays.
    pub fn row_mut(&mut self, y: usize) -> (r: &mut [u16])
        requires
            y * old(self).stride + old(self).width <= old(self).data@.len(),
        ensures
            r@ == old(self).data@.subrange(
                y * old(self).stride,
                y * old(self).stride + old(self).width,
            ),
            final(self).width == old(self).width,
            final(self).height == old(self).height,
            final(self).stride == old(self).stride,
            final(self).data@ == old(self).data@.take(y * old(self).stride) + final(r)@
                + old(self).data@.skip(y * old(self).stride + old(self).width),
    {
        proof {
            assert(self.data@.len() == self.data.len());
            arith::lemma_product_fits(y as int, self.stride as int);
        }
        let start = y * self.stride;
        let width = self.width;
        let (_before, rest) = self.data.as_mut_slice().split_at_mut(start);
        let (row, _after) = rest.split_at_mut(width);
        row
    }
}

impl Clone for Plane {
    fn clone(&self) -> (r: Self)
        ensures
            r@ == self@,
    {
        let r = Plane {
            width: self.width,
            height: self.height,
            stride: self.stride,
            data: self.data.clone(),
        };
        assert(r.data@ =~= self.data@);
        r
    }
}

/// A decoded picture, at the coded (uncropped) size.
#[derive(Debug)]
pub struct Picture {
    pub planes: [Plane; 3],
    pub bit_depth_luma: u8,
    pub bit_depth_chroma: u8,
    /// 0 = monochrome, 1 = 4:2:0, 2 = 4:2:2, 3 = 4:4:4.
    pub chroma_format_idc: u8,
    /// Crop rectangle in luma samples: left, top, width, height.
    pub crop: (usize, usize, usize, usize),
    pub poc: i32,
    /// Motion field compressed to 16×16 (§8.5.3.2.9 collocated motion), row-major.
    pub motion16: Vec<Motion>,
    /// Width of `motion16` in 16×16 units (0 = no motion field).
    pub motion16_w: usize,
}

/// A plane as its contents.
#[verifier::ext_equal]
pub struct PlaneView {
    pub width: int,
    pub height: int,
    pub stride: int,
    pub data: Seq<u16>,
}

impl View for Plane {
    type V = PlaneView;

    open spec fn view(&self) -> PlaneView {
        PlaneView {
            width: self.width as int,
            height: self.height as int,
            stride: self.stride as int,
            data: self.data@,
        }
    }
}

/// A picture as its contents.
#[verifier::ext_equal]
pub struct PictureView {
    pub y: PlaneView,
    pub cb: PlaneView,
    pub cr: PlaneView,
    pub bit_depth_luma: u8,
    pub bit_depth_chroma: u8,
    pub chroma_format_idc: u8,
    pub crop: (usize, usize, usize, usize),
    pub poc: i32,
    pub motion16: Seq<Motion>,
    pub motion16_w: int,
}

impl View for Picture {
    type V = PictureView;

    open spec fn view(&self) -> PictureView {
        PictureView {
            y: self.planes@[0]@,
            cb: self.planes@[1]@,
            cr: self.planes@[2]@,
            bit_depth_luma: self.bit_depth_luma,
            bit_depth_chroma: self.bit_depth_chroma,
            chroma_format_idc: self.chroma_format_idc,
            crop: self.crop,
            poc: self.poc,
            motion16: self.motion16@,
            motion16_w: self.motion16_w as int,
        }
    }
}

/// A plane of one value.
pub open spec fn flat_plane(width: int, height: int, v: u16) -> PlaneView {
    PlaneView { width, height, stride: width, data: Seq::new((width * height) as nat, |i: int| v) }
}

/// A picture of one luma and one chroma value, its crop window the whole of it.
pub open spec fn flat_picture(
    width: usize,
    height: usize,
    chroma_format_idc: u8,
    bit_depth_luma: u8,
    bit_depth_chroma: u8,
    luma: u16,
    chroma: u16,
) -> PictureView {
    let (cw, ch) = chroma_size(width as int, height as int, chroma_format_idc as int);
    PictureView {
        y: flat_plane(width as int, height as int, luma),
        cb: flat_plane(cw, ch, chroma),
        cr: flat_plane(cw, ch, chroma),
        bit_depth_luma,
        bit_depth_chroma,
        chroma_format_idc,
        crop: (0, 0, width, height),
        poc: 0,
        motion16: Seq::empty(),
        motion16_w: 0,
    }
}

/// The chroma plane size for a luma size and `chroma_format_idc`.
pub open spec fn chroma_size(width: int, height: int, chroma_format_idc: int) -> (int, int) {
    if chroma_format_idc == 0 {
        (0, 0)
    } else if chroma_format_idc == 1 {
        (arith::ceil_div(width, 2), arith::ceil_div(height, 2))
    } else if chroma_format_idc == 2 {
        (arith::ceil_div(width, 2), height)
    } else {
        (width, height)
    }
}

impl Picture {
    /// Every plane is well formed.
    pub open spec fn wf(self) -> bool {
        forall|c: int| #![trigger self.planes@[c]] 0 <= c < 3 ==> self.planes@[c].wf()
    }

    /// Everything but the samples is the same.
    pub open spec fn same_info(self, o: Picture) -> bool {
        &&& self.bit_depth_luma == o.bit_depth_luma
        &&& self.bit_depth_chroma == o.bit_depth_chroma
        &&& self.chroma_format_idc == o.chroma_format_idc
        &&& self.crop == o.crop
        &&& self.poc == o.poc
        &&& self.motion16 == o.motion16
        &&& self.motion16_w == o.motion16_w
    }

    /// A blank picture whose crop window is the whole of it.
    pub fn new(
        width: usize,
        height: usize,
        chroma_format_idc: u8,
        bit_depth_luma: u8,
        bit_depth_chroma: u8,
    ) -> (p: Self)
        requires
            width * height <= usize::MAX,
        ensures
            p.wf(),
            p@ == flat_picture(
                width,
                height,
                chroma_format_idc,
                bit_depth_luma,
                bit_depth_chroma,
                0,
                0,
            ),
    {
        let (cw, ch): (usize, usize) = match chroma_format_idc {
            0 => (0, 0),
            1 => (arith::ceil_div_usize(width, 2), arith::ceil_div_usize(height, 2)),
            2 => (arith::ceil_div_usize(width, 2), height),
            _ => (width, height),
        };
        assert(cw * ch <= width * height) by (nonlinear_arith)
            requires
                0 <= cw <= width,
                0 <= ch <= height,
        ;
        let p = Picture {
            planes: [Plane::new(width, height), Plane::new(cw, ch), Plane::new(cw, ch)],
            bit_depth_luma,
            bit_depth_chroma,
            chroma_format_idc,
            crop: (0, 0, width, height),
            poc: 0,
            motion16: Vec::new(),
            motion16_w: 0,
        };
        assert(p.motion16@ =~= Seq::<Motion>::empty());
        p
    }

    pub fn width(&self) -> (w: usize)
        ensures
            w == self.planes@[0].width,
    {
        self.planes[0].width
    }

    pub fn height(&self) -> (h: usize)
        ensures
            h == self.planes@[0].height,
    {
        self.planes[0].height
    }
}

impl Clone for Picture {
    fn clone(&self) -> (r: Self)
        ensures
            r@ == self@,
    {
        let r = Picture {
            planes: [self.planes[0].clone(), self.planes[1].clone(), self.planes[2].clone()],
            bit_depth_luma: self.bit_depth_luma,
            bit_depth_chroma: self.bit_depth_chroma,
            chroma_format_idc: self.chroma_format_idc,
            crop: self.crop,
            poc: self.poc,
            motion16: self.motion16.clone(),
            motion16_w: self.motion16_w,
        };
        assert(r.motion16@ =~= self.motion16@);
        r
    }
}

/// An output frame: a shared decoded picture plus its presentation metadata.
#[derive(Debug, Clone)]
pub struct Frame {
    pub picture: Arc<Picture>,
    pub poc: i32,
    /// The `pts` handed in with the access unit that produced this picture, if any.
    pub pts: Option<i64>,
    /// Cropped output geometry in luma samples.
    pub width: usize,
    pub height: usize,
}

/// The bytes of one sample: itself cut to 8 bits, or little-endian 16 bits.
pub open spec fn sample_bytes(v: u16, wide: bool) -> Seq<u8> {
    if wide {
        seq![(v % 256) as u8, (v / 256) as u8]
    } else {
        seq![(v % 256) as u8]
    }
}

/// The bytes of a run of samples.
pub open spec fn run_bytes(s: Seq<u16>, wide: bool) -> Seq<u8>
    decreases s.len(),
{
    if s.len() == 0 {
        Seq::empty()
    } else {
        run_bytes(s.drop_last(), wide) + sample_bytes(s.last(), wide)
    }
}

/// The samples of row `y` of a plane from column `x0` on.
pub open spec fn row_run(p: Plane, x0: int, w: int, y: int) -> Seq<u16> {
    Seq::new(w as nat, |x: int| p.at(x0 + x, y))
}

/// The bytes of a `w`×`h` window of a plane, row by row.
pub open spec fn window_bytes(p: Plane, x0: int, y0: int, w: int, h: int, wide: bool) -> Seq<u8>
    decreases h,
{
    if h <= 0 {
        Seq::empty()
    } else {
        window_bytes(p, x0, y0, w, h - 1, wide) + run_bytes(row_run(p, x0, w, y0 + h - 1), wide)
    }
}

/// The window lies inside the plane's samples.
pub open spec fn window_ok(p: PlaneView, x0: int, y0: int, w: int, h: int) -> bool {
    forall|y: int| #![trigger y * p.stride] y0 <= y < y0 + h ==> y * p.stride + x0 + w <= p.data.len()
}

impl PictureView {
    pub open spec fn plane(self, c: int) -> PlaneView {
        if c == 0 {
            self.y
        } else if c == 1 {
            self.cb
        } else {
            self.cr
        }
    }

    /// The window of plane `c` that the crop rectangle selects.
    pub open spec fn crop_window(self, c: int) -> (int, int, int, int) {
        let (cx, cy, cw, ch) = self.crop;
        let (sw, sh) = subsampling(self.chroma_format_idc as int);
        if c == 0 {
            (cx as int, cy as int, cw as int, ch as int)
        } else {
            (cx as int / sw, cy as int / sh, cw as int / sw, ch as int / sh)
        }
    }

    /// The crop rectangle lies inside every plane that is output.
    pub open spec fn crop_ok(self) -> bool {
        forall|c: int|
            #![trigger self.crop_window(c)]
            0 <= c < 3 && (c == 0 || self.chroma_format_idc != 0) ==> {
                let (x, y, w, h) = self.crop_window(c);
                y + h <= usize::MAX && x + w <= usize::MAX && window_ok(self.plane(c), x, y, w, h)
            }
    }
}

/// The horizontal and vertical chroma subsampling of `chroma_format_idc`.
pub open spec fn subsampling(chroma_format_idc: int) -> (int, int) {
    if chroma_format_idc == 1 {
        (2, 2)
    } else if chroma_format_idc == 2 {
        (2, 1)
    } else {
        (1, 1)
    }
}

impl Picture {
    /// Whether samples are written as 16 bits: when any plane exceeds 8 bits.
    pub open spec fn wide(self) -> bool {
        self.bit_depth_luma > 8 || self.bit_depth_chroma > 8
    }

    /// The window of plane `c` that the crop rectangle selects.
    pub open spec fn crop_window(self, c: int) -> (int, int, int, int) {
        self@.crop_window(c)
    }

    /// Whether plane `c` is part of the output: chroma only where there is any.
    pub open spec fn has_plane(self, c: int) -> bool {
        c == 0 || self.chroma_format_idc != 0
    }

    /// The crop rectangle lies inside every plane that is output.
    pub open spec fn crop_ok(self) -> bool {
        self@.crop_ok()
    }

    /// The cropped samples of plane `c` as bytes; nothing for an absent plane.
    pub open spec fn plane_bytes(self, c: int) -> Seq<u8> {
        if self.has_plane(c) {
            let (x, y, w, h) = self.crop_window(c);
            window_bytes(self.planes@[c], x, y, w, h, self.wide())
        } else {
            Seq::empty()
        }
    }

    /// The cropped picture as planar bytes: Y, then Cb, then Cr.
    pub open spec fn yuv_bytes(self) -> Seq<u8> {
        self.plane_bytes(0) + self.plane_bytes(1) + self.plane_bytes(2)
    }
}

/// Appends a `w`×`h` window of a plane to `out`.
fn put_window(
    out: &mut Vec<u8>,
    plane: &Plane,
    x0: usize,
    y0: usize,
    w: usize,
    h: usize,
    wide: bool,
)
    requires
        y0 + h <= usize::MAX,
        x0 + w <= usize::MAX,
        window_ok(plane@, x0 as int, y0 as int, w as int, h as int),
    ensures
        final(out)@ == old(out)@ + window_bytes(
            *plane,
            x0 as int,
            y0 as int,
            w as int,
            h as int,
            wide,
        ),
{
    let mut j: usize = 0;
    assert(out@ =~= old(out)@ + window_bytes(*plane, x0 as int, y0 as int, w as int, 0, wide));
    while j < h
        invariant
            0 <= j <= h,
            y0 + h <= usize::MAX,
            x0 + w <= usize::MAX,
            window_ok(plane@, x0 as int, y0 as int, w as int, h as int),
            out@ == old(out)@ + window_bytes(
                *plane,
                x0 as int,
                y0 as int,
                w as int,
                j as int,
                wide,
            ),
        decreases h - j,
    {
        let ghost before = out@;
        let ghost y = y0 + j;
        proof {
            assert(y * plane@.stride + x0 + w <= plane@.data.len());
            assert(plane.data@.len() == plane.data.len());
            arith::lemma_product_fits(y, plane.stride as int);
        }
        let start = (y0 + j) * plane.stride + x0;
        let ghost run = row_run(*plane, x0 as int, w as int, y);
        let mut i: usize = 0;
        assert(run.take(0) =~= Seq::<u16>::empty());
        assert(out@ =~= before + run_bytes(run.take(0), wide));
        while i < w
            invariant
                0 <= i <= w,
                start == y * plane.stride + x0,
                start + w <= plane.data@.len() == plane.data.len(),
                run == row_run(*plane, x0 as int, w as int, y),
                out@ == before + run_bytes(run.take(i as int), wide),
            decreases w - i,
        {
            let v = plane.data[start + i];
            assert(run.take(i + 1).drop_last() =~= run.take(i as int));
            assert(run.take(i + 1).last() == v);
            out.push((v % 256) as u8);
            if wide {
                out.push((v / 256) as u8);
            }
            i += 1;
            assert(out@ =~= before + run_bytes(run.take(i as int), wide));
        }
        assert(run.take(w as int) =~= run);
        j += 1;
        assert(out@ =~= old(out)@ + window_bytes(
            *plane,
            x0 as int,
            y0 as int,
            w as int,
            j as int,
            wide,
        ));
    }
}

impl Frame {
    pub fn bit_depth(&self) -> (d: u8)
        ensures
            d == self.picture.bit_depth_luma,
    {
        self.picture.bit_depth_luma
    }

    /// Writes the cropped picture as planar YUV: `u8` samples for 8-bit
    /// content, little-endian `u16` otherwise.
    pub fn write_yuv(&self, out: &mut Vec<u8>)
        requires
            self.picture.crop_ok(),
        ensures
            final(out)@ == old(out)@ + self.picture.yuv_bytes(),
    {
        let p = &self.picture;
        let (cx, cy, cw, ch) = p.crop;
        let (sw, shh): (usize, usize) = match p.chroma_format_idc {
            1 => (2, 2),
            2 => (2, 1),
            _ => (1, 1),
        };
        let wide = p.bit_depth_luma > 8 || p.bit_depth_chroma > 8;
        proof {
            assert(p@.crop_window(0) == (cx as int, cy as int, cw as int, ch as int));
            assert(p@.crop_window(1) == (
                cx as int / sw as int,
                cy as int / shh as int,
                cw as int / sw as int,
                ch as int / shh as int,
            ));
            assert(p@.crop_window(2) == p@.crop_window(1));
        }
        put_window(out, &p.planes[0], cx, cy, cw, ch, wide);
        if p.chroma_format_idc != 0 {
            put_window(out, &p.planes[1], cx / sw, cy / shh, cw / sw, ch / shh, wide);
            put_window(out, &p.planes[2], cx / sw, cy / shh, cw / sw, ch / shh, wide);
        }
        assert(out@ =~= old(out)@ + p.yuv_bytes());
    }
}

/// A run of samples takes one byte each, or two when written wide.
pub proof fn lemma_run_bytes_len(s: Seq<u16>, wide: bool)
    ensures
        run_bytes(s, wide).len() == s.len() * (if wide {
            2int
        } else {
            1int
        }),
    decreases s.len(),
{
    if s.len() > 0 {
        lemma_run_bytes_len(s.drop_last(), wide);
    }
}

/// A window takes as many bytes as it has samples, twice that when wide.
pub proof fn lemma_window_bytes_len(p: Plane, x0: int, y0: int, w: int, h: int, wide: bool)
    requires
        0 <= w,
        0 <= h,
    ensures
        window_bytes(p, x0, y0, w, h, wide).len() == w * h * (if wide {
            2int
        } else {
            1int
        }),
    decreases h,
{
    if h > 0 {
        lemma_window_bytes_len(p, x0, y0, w, h - 1, wide);
        lemma_run_bytes_len(row_run(p, x0, w, y0 + h - 1), wide);
        assert(w * (h - 1) + w == w * h) by (nonlinear_arith);
    } else {
        assert(w * h == 0) by (nonlinear_arith)
            requires
                h == 0,
        ;
    }
}

/// The size of an output frame follows from its crop window alone: luma plus
/// two chroma windows, one byte per sample or two above 8 bits.
pub proof fn lemma_yuv_size(p: Picture)
    ensures
        ({
            let (_, _, w0, h0) = p.crop_window(0);
            let (_, _, w1, h1) = p.crop_window(1);
            let per: int = if p.wide() {
                2
            } else {
                1
            };
            p.yuv_bytes().len() == w0 * h0 * per + (if p.has_plane(1) {
                2 * (w1 * h1 * per)
            } else {
                0
            })
        }),
{
    let (x0, y0, w0, h0) = p.crop_window(0);
    let (x1, y1, w1, h1) = p.crop_window(1);
    assert(p.crop_window(2) == p.crop_window(1));
    lemma_window_bytes_len(p.planes@[0], x0, y0, w0, h0, p.wide());
    if p.has_plane(1) {
        lemma_window_bytes_len(p.planes@[1], x1, y1, w1, h1, p.wide());
        lemma_window_bytes_len(p.planes@[2], x1, y1, w1, h1, p.wide());
    }
}

} // verus!
