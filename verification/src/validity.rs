//! Run-time checks of what the decoder requires of parsed values. A caller
//! that cannot vouch for its parser asks here before it feeds a NAL unit.

use crate::arith;
use crate::decoder;
use crate::decoder::{CurrentPicture, Decoder, SliceUnit};
use crate::filters;
use crate::frame;
use crate::frame::{Picture, Plane};
use crate::nal::{
    NalHeader, NalType, NAL_PPS, NAL_PREFIX_SEI, NAL_SPS, NAL_SUFFIX_SEI, NAL_VPS,
};
use crate::pic::PicState;
use crate::ps::{Pps, ScalingFactors, Sps, TileLayout};
use crate::rps;
use crate::slice::{LongTermRef, SliceHeader};
use crate::stream::{NalBody, NalUnit};
use vstd::arithmetic::mul::*;
use vstd::arithmetic::power2::*;
use vstd::prelude::*;

verus! {

impl ScalingFactors {
    pub fn is_valid(&self) -> (r: bool)
        ensures
            r == self.wf(),
    {
        if self.f.len() != 4 {
            return false;
        }
        let mut s: usize = 0;
        while s < 4
            invariant
                s <= 4,
                self.f@.len() == 4,
                forall|i: int| #![trigger self.f@[i]] 0 <= i < s ==> self.f@[i]@.len() == 6,
            decreases 4 - s,
        {
            if self.f[s].len() != 6 {
                return false;
            }
            s += 1;
        }
        true
    }
}

/// Scaling factors are valid where there are any.
fn scaling_valid(f: &Option<std::sync::Arc<ScalingFactors>>) -> (r: bool)
    ensures
        r == (*f matches Some(a) ==> a.wf()),
{
    match f {
        Some(a) => a.is_valid(),
        None => true,
    }
}

/// A conformance window leaves samples: `scale · (a + b) < size`.
fn window_valid(scale: u8, a: u32, b: u32, size: u32) -> (r: bool)
    requires
        scale <= 2,
    ensures
        r == (scale * (a + b) < size),
{
    let sum = a as u64 + b as u64;
    if scale == 0 {
        0 < size
    } else if scale == 1 {
        sum < size as u64
    } else {
        2 * sum < size as u64
    }
}

impl Sps {
    pub fn is_valid(&self) -> (r: bool)
        ensures
            r == self.wf(),
    {
        if !(self.id < 16 && self.max_sub_layers_minus1 <= 6 && 4 <= self.log2_max_poc_lsb
            && self.log2_max_poc_lsb <= 16 && 8 <= self.bit_depth_luma && self.bit_depth_luma <= 16
            && 8 <= self.bit_depth_chroma && self.bit_depth_chroma <= 16) {
            return false;
        }
        if !(self.qp_bd_offset_y == 6 * (self.bit_depth_luma as i32 - 8) && self.qp_bd_offset_c
            == 6 * (self.bit_depth_chroma as i32 - 8)) {
            return false;
        }
        if !(4 <= self.log2_ctb_size && self.log2_ctb_size <= 6 && 2 <= self.log2_min_tb_size
            && self.log2_min_tb_size <= self.log2_max_tb_size && self.log2_max_tb_size <= 5) {
            return false;
        }
        if !(1 <= self.width && self.width <= 0xffff && 1 <= self.height && self.height <= 0xffff
            && self.width % 8 == 0 && self.height % 8 == 0) {
            return false;
        }
        if !(1 <= self.sub_width_c && self.sub_width_c <= 2 && 1 <= self.sub_height_c
            && self.sub_height_c <= 2) {
            return false;
        }
        if !window_valid(self.sub_width_c, self.conf_win[0], self.conf_win[1], self.width)
            || !window_valid(self.sub_height_c, self.conf_win[2], self.conf_win[3], self.height) {
            return false;
        }
        self.orders_valid() && self.ctbs_valid() && scaling_valid(&self.scaling_list)
    }

    fn orders_valid(&self) -> (r: bool)
        ensures
            r == (forall|t: int|
                #![trigger self.ordering@[t]]
                0 <= t < 7 ==> self.ordering@[t].max_num_reorder_pics
                    + self.ordering@[t].max_latency_increase_plus1 <= u32::MAX),
    {
        let mut t: usize = 0;
        while t < 7
            invariant
                t <= 7,
                forall|i: int|
                    #![trigger self.ordering@[i]]
                    0 <= i < t ==> self.ordering@[i].max_num_reorder_pics
                        + self.ordering@[i].max_latency_increase_plus1 <= u32::MAX,
            decreases 7 - t,
        {
            let o = self.ordering[t];
            if o.max_latency_increase_plus1 > u32::MAX - o.max_num_reorder_pics {
                assert(self.ordering@[t as int] == o);
                return false;
            }
            t += 1;
        }
        true
    }

    fn ctbs_valid(&self) -> (r: bool)
        requires
            4 <= self.log2_ctb_size <= 6,
        ensures
            r == self.ctb_size_ok(),
    {
        let c = arith::pow2_usize(self.log2_ctb_size as usize);
        self.pic_width_in_ctbs as usize == arith::ceil_div_usize(self.width as usize, c)
            && self.pic_height_in_ctbs as usize == arith::ceil_div_usize(self.height as usize, c)
    }
}

impl Pps {
    pub fn is_valid(&self) -> (r: bool)
        ensures
            r == self.wf(),
    {
        self.id < 64 && self.sps_id < 16 && -12 <= self.cb_qp_offset && self.cb_qp_offset <= 12
            && -12 <= self.cr_qp_offset && self.cr_qp_offset <= 12 && scaling_valid(
            &self.scaling_list,
        )
    }
}

impl TileLayout {
    /// Checks that the layout permutes `n` addresses.
    pub fn is_valid(&self, n: usize) -> (r: bool)
        ensures
            r == self.wf(n as int),
    {
        if self.rs_to_ts.len() != n || self.tile_id.len() != n {
            return false;
        }
        let ghost v = self.rs_to_ts@;
        let mut seen: Vec<bool> = vec![false; n];
        let mut i: usize = 0;
        while i < n
            invariant
                i <= n,
                v == self.rs_to_ts@,
                v.len() == n,
                self.tile_id@.len() == n,
                seen@.len() == n,
                forall|j: int| #![trigger v[j]] 0 <= j < i ==> v[j] < n && seen@[v[j] as int],
                forall|t: int|
                    #![trigger seen@[t]]
                    0 <= t < n && seen@[t] ==> exists|j: int|
                        #![trigger v[j]]
                        0 <= j < i && v[j] == t,
                forall|j: int, k: int| #![trigger v[j], v[k]] 0 <= j < k < i ==> v[j] != v[k],
            decreases n - i,
        {
            let t = self.rs_to_ts[i] as usize;
            if t >= n {
                assert(v[i as int] >= n);
                return false;
            }
            if seen[t] {
                proof {
                    let j = choose|j: int| #![trigger v[j]] 0 <= j < i && v[j] == t;
                    assert(v[j] == v[i as int]);
                }
                return false;
            }
            let ghost before = seen@;
            seen[t] = true;
            proof {
                assert(v[i as int] == t);
                assert forall|u: int| #![trigger seen@[u]] 0 <= u < n && seen@[u] implies exists|j: int|
                    #![trigger v[j]]
                    0 <= j < i + 1 && v[j] == u by {
                    if u != t {
                        assert(before[u]);
                        let j = choose|j: int| #![trigger v[j]] 0 <= j < i && v[j] == u;
                        assert(v[j] == u);
                    }
                }
                assert forall|j: int, k: int|
                    #![trigger v[j], v[k]]
                    0 <= j < k < i + 1 implies v[j] != v[k] by {
                    if k == i {
                        assert(before[v[j] as int]);
                    }
                }
            }
            i += 1;
        }
        true
    }
}

/// The entries of a short-term list have counts.
fn deltas_valid(list: &Vec<(i32, bool)>, poc: i32) -> (r: bool)
    ensures
        r == rps::deltas_fit(list@, poc as int),
{
    let mut i: usize = 0;
    while i < list.len()
        invariant
            i <= list@.len(),
            forall|j: int| #![trigger list@[j]] 0 <= j < i ==> rps::fits(poc + list@[j].0),
        decreases list@.len() - i,
    {
        let (d, _) = list[i];
        let p = poc as i64 + d as i64;
        assert(p == poc + list@[i as int].0);
        if p < i32::MIN as i64 || p > i32::MAX as i64 {
            return false;
        }
        i += 1;
    }
    true
}

/// The entries of a short-term list that the current picture uses.
fn count_used_short(list: &Vec<(i32, bool)>) -> (n: usize)
    ensures
        n == rps::used_short(list@),
        n <= list@.len(),
{
    let mut n: usize = 0;
    let mut i: usize = 0;
    assert(list@.take(0) =~= Seq::<(i32, bool)>::empty());
    while i < list.len()
        invariant
            n <= i <= list@.len(),
            n == rps::used_short(list@.take(i as int)),
        decreases list@.len() - i,
    {
        let (_, used) = list[i];
        proof {
            assert(list@.take(i + 1).drop_last() =~= list@.take(i as int));
            assert(list@.take(i + 1).last() == list@[i as int]);
        }
        if used {
            n += 1;
        }
        i += 1;
    }
    assert(list@.take(i as int) =~= list@);
    n
}

/// The long-term entries that the current picture uses.
fn count_used_long(list: &Vec<LongTermRef>) -> (n: usize)
    ensures
        n == rps::used_long(list@),
        n <= list@.len(),
{
    let mut n: usize = 0;
    let mut i: usize = 0;
    assert(list@.take(0) =~= Seq::<LongTermRef>::empty());
    while i < list.len()
        invariant
            n <= i <= list@.len(),
            n == rps::used_long(list@.take(i as int)),
        decreases list@.len() - i,
    {
        let lt = list[i];
        proof {
            assert(list@.take(i + 1).drop_last() =~= list@.take(i as int));
            assert(list@.take(i + 1).last() == lt);
        }
        if lt.used_by_curr_pic {
            n += 1;
        }
        i += 1;
    }
    assert(list@.take(i as int) =~= list@);
    n
}

impl SliceHeader {
    /// Checks the header against the number of picture order count bits.
    pub fn is_valid(&self, log2_max: u8) -> (r: bool)
        requires
            log2_max <= 16,
        ensures
            r == self.wf(log2_max as int),
    {
        let max = arith::pow2_i32(log2_max as u32) as u64;
        (self.poc_lsb as u64) < max && self.st_rps.neg.len() <= 64 && self.st_rps.pos.len() <= 64
            && self.long_term.len() <= 64 && self.segment_address <= 0x7fff_ffff
    }

    /// Checks the counts of the references of a picture with that count.
    pub fn refs_valid(&self, poc: i32, log2_max: u8) -> (r: bool)
        requires
            log2_max <= 16,
        ensures
            r == self.refs_fit(poc as int, pow2(log2_max as nat) as int),
    {
        if !deltas_valid(&self.st_rps.neg, poc) || !deltas_valid(&self.st_rps.pos, poc) {
            return false;
        }
        let ghost max = pow2(log2_max as nat) as int;
        let list = &self.long_term;
        let mut i: usize = 0;
        while i < list.len()
            invariant
                i <= list@.len(),
                list@ == self.long_term@,
                log2_max <= 16,
                max == pow2(log2_max as nat),
                forall|j: int|
                    #![trigger list@[j]]
                    0 <= j < i ==> rps::fits(rps::lt_poc(list@[j], poc as int, max)),
            decreases list@.len() - i,
        {
            let p = rps::wide_long_term_poc(&list[i], poc, log2_max);
            assert(p == rps::lt_poc(list@[i as int], poc as int, max));
            if p < i32::MIN as i64 || p > i32::MAX as i64 {
                assert(!rps::fits(rps::lt_poc(self.long_term@[i as int], poc as int, max)));
                return false;
            }
            i += 1;
        }
        true
    }

    /// Checks the header's reference lists.
    pub fn lists_valid(&self) -> (r: bool)
        ensures
            r == self.lists_ok(),
    {
        let l0 = match &self.ref_pic_list_modification_l0 {
            Some(l) => l.len() >= self.num_ref_idx_l0_active as usize,
            None => true,
        };
        let l1 = !self.slice_type.is_b() || match &self.ref_pic_list_modification_l1 {
            Some(l) => l.len() >= self.num_ref_idx_l1_active as usize,
            None => true,
        };
        if !l0 || !l1 {
            return false;
        }
        self.num_pic_total_curr == 0 || count_used_short(&self.st_rps.neg) > 0 || count_used_short(
            &self.st_rps.pos,
        ) > 0 || count_used_long(&self.long_term) > 0
    }
}

// ---- pictures ----

impl PicState {
    /// Checks that every map has the picture's size.
    pub fn is_valid(&self) -> (r: bool)
        ensures
            r == self.wf(),
    {
        if !(4 <= self.log2_ctb && self.log2_ctb <= 6) {
            return false;
        }
        if !(1 <= self.width && self.width <= 0xffff && 1 <= self.height && self.height <= 0xffff
            && self.width % 8 == 0 && self.height % 8 == 0) {
            return false;
        }
        let c = arith::pow2_usize(self.log2_ctb as usize);
        if !(self.w4 == arith::ceil_div_usize(self.width, 4) && self.h4 == arith::ceil_div_usize(
            self.height,
            4,
        ) && self.ctb_w == arith::ceil_div_usize(self.width, c) && self.ctb_h
            == arith::ceil_div_usize(self.height, c)) {
            return false;
        }
        proof {
            self.lemma_sizes();
        }
        let n4 = self.w4 * self.h4;
        let nctb = self.ctb_w * self.ctb_h;
        self.zs.len() == n4 && self.pred_mode.len() == n4 && self.intra_mode.len() == n4
            && self.qp_y.len() == n4 && self.ct_depth.len() == n4 && self.edges.len() == n4
            && self.nz.len() == n4 && self.filter_bypass.len() == n4 && self.motion.len() == n4
            && self.slice_addr.len() == nctb && self.ctb_slice.len() == nctb
            && self.tile_id.len() == nctb && self.sao.len() == nctb && self.ctb_filter.len() == nctb
    }
}

/// A product of two sizes, and a further size, fit 128 bits.
proof fn lemma_wide_product(a: usize, b: usize)
    ensures
        0 <= a * b,
        a * b + usize::MAX <= u128::MAX,
{
    assert(0 <= a * b <= 0xffff_ffff_ffff_ffff * 0xffff_ffff_ffff_ffff) by (nonlinear_arith)
        requires
            0 <= a <= 0xffff_ffff_ffff_ffff,
            0 <= b <= 0xffff_ffff_ffff_ffff,
    ;
}

impl Plane {
    /// Checks that the plane of component `c` has the picture's size in 4:2:0
    /// and no sample above `max`.
    fn fits(&self, st: &PicState, c: usize, max: u16) -> (r: bool)
        requires
            st.shape_ok(),
            c <= 2,
        ensures
            r == (filters::plane_fits(*self, *st, c as int) && self.bounded(max as int)),
    {
        let (w, h) = if c == 0 {
            (st.width, st.height)
        } else {
            (st.width / 2, st.height / 2)
        };
        if !(self.width == w && self.height == h && self.width <= self.stride) {
            return false;
        }
        proof {
            lemma_wide_product(self.stride, self.height);
        }
        if self.data.len() as u128 != self.stride as u128 * self.height as u128 {
            return false;
        }
        let mut i: usize = 0;
        while i < self.data.len()
            invariant
                i <= self.data@.len(),
                forall|j: int| #![trigger self.data@[j]] 0 <= j < i ==> self.data@[j] <= max,
            decreases self.data@.len() - i,
        {
            if self.data[i] > max {
                assert(!self.bounded(max as int));
                return false;
            }
            i += 1;
        }
        true
    }

    /// Checks that a window lies inside the plane's samples.
    fn holds_window(&self, x: usize, y: usize, w: usize, h: usize) -> (r: bool)
        ensures
            r == (y + h <= usize::MAX && x + w <= usize::MAX && frame::window_ok(
                self@,
                x as int,
                y as int,
                w as int,
                h as int,
            )),
    {
        if y > usize::MAX - h || x > usize::MAX - w {
            return false;
        }
        if h == 0 {
            return true;
        }
        let last = y + h - 1;
        proof {
            lemma_wide_product(last, self.stride);
            let v = self@;
            assert(v.stride == self.stride && v.data.len() == self.data@.len());
            assert forall|r: int| #![trigger r * v.stride] y <= r < y + h implies r * v.stride
                <= last * v.stride by {
                lemma_mul_inequality(r, last as int, v.stride as int);
            }
            assert(y <= last < y + h && last * v.stride == last * self.stride);
        }
        let end = last as u128 * self.stride as u128 + (x + w) as u128;
        end <= self.data.len() as u128
    }
}

impl Picture {
    /// Checks that the crop rectangle lies inside every plane that is output.
    pub fn crop_valid(&self) -> (r: bool)
        ensures
            r == self.crop_ok(),
    {
        let (x, y, w, h) = self.crop;
        let (sw, sh): (usize, usize) = if self.chroma_format_idc == 1 {
            (2, 2)
        } else if self.chroma_format_idc == 2 {
            (2, 1)
        } else {
            (1, 1)
        };
        let r = self.planes[0].holds_window(x, y, w, h) && (self.chroma_format_idc == 0 || (
        self.planes[1].holds_window(x / sw, y / sh, w / sw, h / sh) && self.planes[2].holds_window(
            x / sw,
            y / sh,
            w / sw,
            h / sh,
        )));
        proof {
            let v = self@;
            assert(v.plane(0) == self.planes@[0]@ && v.plane(1) == self.planes@[1]@ && v.plane(2)
                == self.planes@[2]@);
            let a = v.crop_window(0);
            let b = v.crop_window(1);
            let d = v.crop_window(2);
            assert(a == (x as int, y as int, w as int, h as int));
            assert(b == d);
            assert(b == ((x / sw) as int, (y / sh) as int, (w / sw) as int, (h / sh) as int));
        }
        r
    }
}

impl CurrentPicture {
    /// Checks that the picture in flight is consistent, as it has to be when
    /// decoding a slice into it is reported.
    pub fn is_valid(&self) -> (r: bool)
        ensures
            r == self.wf(),
    {
        proof {
            reveal(CurrentPicture::wf);
        }
        if !(self.sps.is_valid() && self.pps.is_valid() && self.state.is_valid()) {
            return false;
        }
        let luma = max_sample(self.sps.bit_depth_luma);
        let chroma = max_sample(self.sps.bit_depth_chroma);
        let p = &self.pic.planes;
        if !(p[0].fits(&self.state, 0, luma) && p[1].fits(&self.state, 1, chroma) && p[2].fits(
            &self.state,
            2,
            chroma,
        )) {
            assert(!filters::planes_ok(self.pic.planes@, self.state, *self.sps)) by {
                let q = self.pic.planes@;
                assert(q[0] == q[0] && q[1] == q[1] && q[2] == q[2]);
            }
            return false;
        }
        self.pic.crop_valid()
    }
}

/// The largest sample of a bit depth.
fn max_sample(depth: u8) -> (m: u16)
    requires
        8 <= depth <= 16,
    ensures
        m == pow2(depth as nat) - 1,
{
    proof {
        arith::lemma_pow2_le(depth as nat, 16);
        lemma2_to64();
    }
    (arith::pow2_usize(depth as usize) - 1) as u16
}

// ---- NAL units ----

impl Decoder {
    /// Checks that the counters have room for another NAL unit.
    pub fn room_left(&self) -> (r: bool)
        ensures
            r == self.has_room(),
    {
        self.stats.skipped_rasl < u64::MAX && self.stats.generated_refs <= u64::MAX - 192
            && self.stats.pictures < 0xffff_ffff && self.stats.slices < u64::MAX
            && self.stats.errors < u64::MAX && self.stats.sei_checked < u64::MAX
    }

    /// Checks that a first slice segment gives its picture and the references
    /// counts in range.
    fn accepts_counts(&self, nt: NalType, sh: &SliceHeader, sps: &Sps) -> (r: bool)
        requires
            sps.wf(),
        ensures
            r == (decoder::skips(self.control(), nt) || decoder::counts_fit(
                self.control(),
                nt,
                *sh,
                *sps,
            )),
    {
        let flag = if nt.is_irap() {
            nt.is_idr() || nt.is_bla() || self.first_in_sequence
        } else {
            self.no_rasl_output_flag
        };
        if nt.is_rasl() && flag || !nt.is_irap() && self.first_in_sequence {
            return true;
        }
        let log2 = sps.log2_max_poc_lsb;
        let poc = rps::wide_poc(nt.is_irap() && flag, self.prev_tid0_poc, sh.poc_lsb, log2);
        if poc < i32::MIN as i64 || poc > i32::MAX as i64 {
            return false;
        }
        sh.refs_valid(poc as i32, log2)
    }

    /// Checks a slice segment against the parameter sets and the picture in
    /// flight.
    fn accepts_slice(&self, nt: NalType, unit: &SliceUnit) -> (r: bool)
        requires
            self.wf(),
        ensures
            r == self.unit_ok(nt, *unit),
    {
        let sh = match &unit.header {
            Ok(sh) => sh,
            Err(_) => {
                return true;
            },
        };
        if sh.pps_id >= 64 || !(sh.slice_type.is_intra() || sh.lists_valid()) {
            return false;
        }
        match &self.pps[sh.pps_id as usize] {
            None => {},
            Some(pps) => match &self.sps[pps.sps_id as usize] {
                None => {},
                Some(sps) => {
                    if !sh.is_valid(sps.log2_max_poc_lsb) {
                        return false;
                    }
                    if !tiles_valid(&unit.tiles, sps) {
                        return false;
                    }
                    if unit.first && !self.accepts_counts(nt, sh, sps) {
                        return false;
                    }
                },
            },
        }
        if unit.first {
            return true;
        }
        if sh.segment_address > 0x7fff_ffff {
            return false;
        }
        match &self.cur {
            None => true,
            Some(c) => {
                proof {
                    reveal(CurrentPicture::wf);
                }
                c.slice_segments < u32::MAX && (sh.pps_id != c.pps.id || sh.slice_type.is_intra()
                    || sh.refs_valid(c.poc, c.sps.log2_max_poc_lsb))
            },
        }
    }

    /// Checks the contents of a base-layer NAL unit.
    fn accepts_body(&self, h: &NalHeader, body: &NalBody) -> (r: bool)
        requires
            self.wf(),
        ensures
            r == self.body_ok(*h, *body),
    {
        let id = h.nal_type.id;
        if id == NAL_VPS {
            match body {
                NalBody::Vps(Ok(v)) => v.id < 16,
                NalBody::Vps(Err(_)) => true,
                _ => false,
            }
        } else if id == NAL_SPS {
            match body {
                NalBody::Sps(Ok(s)) => s.is_valid(),
                NalBody::Sps(Err(_)) => true,
                _ => false,
            }
        } else if id == NAL_PPS {
            match body {
                NalBody::Pps(Ok(p)) => p.is_valid(),
                NalBody::Pps(Err(_)) => true,
                _ => false,
            }
        } else if id == NAL_PREFIX_SEI || id == NAL_SUFFIX_SEI {
            matches!(body, NalBody::Sei(_))
        } else if id < 22 {
            match body {
                NalBody::Slice(su) => self.accepts_slice(h.nal_type, su),
                _ => false,
            }
        } else {
            true
        }
    }

    /// Whether the decoder can be fed a NAL unit: it has room, and the unit's
    /// contents fit its type and the parameter sets.
    pub fn accepts(&self, unit: &NalUnit) -> (r: bool)
        requires
            self.wf(),
        ensures
            r == (self.has_room() && self.nal_ok(*unit)),
    {
        if !self.room_left() {
            return false;
        }
        match &unit.header {
            None => true,
            Some(h) => h.layer_id != 0 || self.accepts_body(h, &unit.body),
        }
    }
}

/// Checks a tile layout against the picture's coding tree blocks.
fn tiles_valid(tiles: &core::result::Result<TileLayout, crate::error::Error>, sps: &Sps) -> (r: bool)
    requires
        sps.wf(),
    ensures
        r == (tiles matches Ok(t) ==> t.wf(sps.pic_width_in_ctbs * sps.pic_height_in_ctbs)),
{
    match tiles {
        Err(_) => true,
        Ok(t) => {
            let w = sps.pic_width_in_ctbs as usize;
            let h = sps.pic_height_in_ctbs as usize;
            proof {
                lemma_ctb_count(*sps);
            }
            t.is_valid(w * h)
        },
    }
}

/// A picture has fewer coding tree blocks than 2^26.
proof fn lemma_ctb_count(sps: Sps)
    requires
        sps.wf(),
    ensures
        sps.pic_width_in_ctbs * sps.pic_height_in_ctbs < 0x400_0000,
{
    let c = pow2(sps.log2_ctb_size as nat) as int;
    lemma2_to64();
    assert(c == 16 || c == 32 || c == 64);
    let w = sps.pic_width_in_ctbs as int;
    let h = sps.pic_height_in_ctbs as int;
    assert(w <= 0x1000 && h <= 0x1000) by {
        if c == 16 {
            assert(w == (sps.width + 15) / 16);
            assert(h == (sps.height + 15) / 16);
        } else if c == 32 {
            assert(w == (sps.width + 31) / 32);
            assert(h == (sps.height + 31) / 32);
        } else {
            assert(w == (sps.width + 63) / 64);
            assert(h == (sps.height + 63) / 64);
        }
    }
    assert(w * h <= 0x1000 * 0x1000) by (nonlinear_arith)
        requires
            0 <= w <= 0x1000,
            0 <= h <= 0x1000,
    ;
}

} // verus!
