//! The deblocking sample filters (§8.7.2.5.3–8.7.2.5.8) on one edge segment.

use crate::arith;
use crate::frame::Plane;
use vstd::prelude::*;

verus! {

/// The samples across an edge on one line: `p` before it, `q` behind it, both
/// counted away from the edge.
pub struct Line {
    pub p0: int,
    pub p1: int,
    pub p2: int,
    pub p3: int,
    pub q0: int,
    pub q1: int,
    pub q2: int,
    pub q3: int,
}

impl Line {
    /// The sample at signed distance `i` from the edge; `q0` is at 0.
    pub open spec fn tap(self, i: int) -> int {
        if i == -4 {
            self.p3
        } else if i == -3 {
            self.p2
        } else if i == -2 {
            self.p1
        } else if i == -1 {
            self.p0
        } else if i == 0 {
            self.q0
        } else if i == 1 {
            self.q1
        } else if i == 2 {
            self.q2
        } else {
            self.q3
        }
    }

    /// Every sample is in `0..=max`.
    pub open spec fn bounded(self, max: int) -> bool {
        &&& 0 <= self.p0 <= max
        &&& 0 <= self.p1 <= max
        &&& 0 <= self.p2 <= max
        &&& 0 <= self.p3 <= max
        &&& 0 <= self.q0 <= max
        &&& 0 <= self.q1 <= max
        &&& 0 <= self.q2 <= max
        &&& 0 <= self.q3 <= max
    }
}

// ---- decisions (§8.7.2.5.3, §8.7.2.5.6) ----

/// The second difference on the `p` side.
pub open spec fn curve_p(l: Line) -> int {
    arith::magnitude(l.p2 - 2 * l.p1 + l.p0)
}

/// The second difference on the `q` side.
pub open spec fn curve_q(l: Line) -> int {
    arith::magnitude(l.q2 - 2 * l.q1 + l.q0)
}

/// `dSam`: the line is smooth enough for the strong filter.
pub open spec fn smooth(l: Line, beta: int, tc: int) -> bool {
    &&& 2 * (curve_p(l) + curve_q(l)) < beta / 4
    &&& arith::magnitude(l.p3 - l.p0) + arith::magnitude(l.q0 - l.q3) < beta / 8
    &&& arith::magnitude(l.p0 - l.q0) < (5 * tc + 1) / 2
}

/// Which filter an edge segment gets.
#[derive(Clone, Copy, PartialEq, Eq, Structural)]
pub struct Decision {
    /// `dE`: 0 none, 1 weak, 2 strong.
    pub de: u8,
    /// The weak filter also changes `p1`, `q1`.
    pub dep: bool,
    pub deq: bool,
}

/// The decision of a segment from its first and last line.
pub open spec fn decide(l0: Line, l3: Line, beta: int, tc: int) -> Decision {
    let dp = curve_p(l0) + curve_p(l3);
    let dq = curve_q(l0) + curve_q(l3);
    if dp + dq < beta {
        let side = (beta + beta / 2) / 8;
        Decision {
            de: if smooth(l0, beta, tc) && smooth(l3, beta, tc) {
                2
            } else {
                1
            },
            dep: dp < side,
            deq: dq < side,
        }
    } else {
        Decision { de: 0, dep: false, deq: false }
    }
}

// ---- filters (§8.7.2.5.7) ----

/// The strong filter before clipping.
pub open spec fn strong(l: Line) -> Line {
    Line {
        p0: (l.p2 + 2 * l.p1 + 2 * l.p0 + 2 * l.q0 + l.q1 + 4) / 8,
        p1: (l.p2 + l.p1 + l.p0 + l.q0 + 2) / 4,
        p2: (2 * l.p3 + 3 * l.p2 + l.p1 + l.p0 + l.q0 + 4) / 8,
        p3: l.p3,
        q0: (l.p1 + 2 * l.p0 + 2 * l.q0 + 2 * l.q1 + l.q2 + 4) / 8,
        q1: (l.p0 + l.q0 + l.q1 + l.q2 + 2) / 4,
        q2: (l.p0 + l.q0 + l.q1 + 3 * l.q2 + 2 * l.q3 + 4) / 8,
        q3: l.q3,
    }
}

/// A filtered sample kept within 2·tc of the one it replaces.
pub open spec fn near_old(old_v: int, new_v: int, tc: int) -> int {
    arith::clip3(old_v - 2 * tc, old_v + 2 * tc, new_v)
}

/// The strong filter, each sample kept within 2·tc of what it was.
pub open spec fn strong_line(l: Line, tc: int) -> Line {
    let f = strong(l);
    Line {
        p0: near_old(l.p0, f.p0, tc),
        p1: near_old(l.p1, f.p1, tc),
        p2: near_old(l.p2, f.p2, tc),
        q0: near_old(l.q0, f.q0, tc),
        q1: near_old(l.q1, f.q1, tc),
        q2: near_old(l.q2, f.q2, tc),
        ..l
    }
}

/// The weak filter's change of `p0` and `q0` before clipping.
pub open spec fn weak_step(l: Line) -> int {
    (9 * (l.q0 - l.p0) - 3 * (l.q1 - l.p1) + 8) / 16
}

/// The weak filter; the samples next to the edge move by a clipped step, the
/// second ones follow where the side is flat.
pub open spec fn weak_line(l: Line, d: Decision, tc: int, max: int) -> Line {
    let step = weak_step(l);
    if arith::magnitude(step) >= 10 * tc {
        l
    } else {
        let delta = arith::clip3(-tc, tc, step);
        let half = tc / 2;
        Line {
            p0: arith::clip3(0, max, l.p0 + delta),
            q0: arith::clip3(0, max, l.q0 - delta),
            p1: if d.dep {
                arith::clip3(
                    0,
                    max,
                    l.p1 + arith::clip3(
                        -half,
                        half,
                        ((l.p2 + l.p0 + 1) / 2 - l.p1 + delta) / 2,
                    ),
                )
            } else {
                l.p1
            },
            q1: if d.deq {
                arith::clip3(
                    0,
                    max,
                    l.q1 + arith::clip3(
                        -half,
                        half,
                        ((l.q2 + l.q0 + 1) / 2 - l.q1 - delta) / 2,
                    ),
                )
            } else {
                l.q1
            },
            ..l
        }
    }
}

/// One side left alone: where its samples must not be touched.
pub open spec fn sides_kept(l: Line, f: Line, no_p: bool, no_q: bool) -> Line {
    Line {
        p0: if no_p {
            l.p0
        } else {
            f.p0
        },
        p1: if no_p {
            l.p1
        } else {
            f.p1
        },
        p2: if no_p {
            l.p2
        } else {
            f.p2
        },
        q0: if no_q {
            l.q0
        } else {
            f.q0
        },
        q1: if no_q {
            l.q1
        } else {
            f.q1
        },
        q2: if no_q {
            l.q2
        } else {
            f.q2
        },
        ..l
    }
}

/// What an edge segment is filtered with.
#[derive(Clone, Copy, PartialEq, Eq, Structural)]
pub struct EdgeParams {
    pub beta: i32,
    pub tc: i32,
    pub no_p: bool,
    pub no_q: bool,
    pub max: i32,
}

impl EdgeParams {
    pub open spec fn wf(self) -> bool {
        0 <= self.beta <= 0x1_0000 && 0 <= self.tc <= 0x1_0000 && 0 <= self.max <= 0xffff
    }
}

/// One luma line after filtering.
pub open spec fn luma_line(l: Line, d: Decision, e: EdgeParams) -> Line {
    let f = if d.de == 0 {
        l
    } else if d.de == 2 {
        strong_line(l, e.tc as int)
    } else {
        weak_line(l, d, e.tc as int, e.max as int)
    };
    sides_kept(l, f, e.no_p, e.no_q)
}

/// The chroma filter (§8.7.2.5.8): only the samples next to the edge move.
pub open spec fn chroma_line(l: Line, e: EdgeParams) -> Line {
    let tc = e.tc as int;
    let delta = arith::clip3(-tc, tc, (4 * (l.q0 - l.p0) + l.p1 - l.q1 + 4) / 8);
    let f = Line {
        p0: arith::clip3(0, e.max as int, l.p0 + delta),
        q0: arith::clip3(0, e.max as int, l.q0 - delta),
        ..l
    };
    sides_kept(l, f, e.no_p, e.no_q)
}

/// The samples of a plane as numbers.
pub open spec fn samples(p: Plane) -> spec_fn(int, int) -> int {
    |x: int, y: int| p.at(x, y) as int
}

/// Line `k` across the edge at (`ex`, `ey`): a vertical edge (`dir` 0) is
/// crossed along the row, a horizontal one along the column.
pub open spec fn line_at(
    f: spec_fn(int, int) -> int,
    dir: int,
    ex: int,
    ey: int,
    k: int,
) -> Line {
    let s = |i: int|
        if dir == 0 {
            f(ex + i, ey + k)
        } else {
            f(ex + k, ey + i)
        };
    Line { p0: s(-1), p1: s(-2), p2: s(-3), p3: s(-4), q0: s(0), q1: s(1), q2: s(2), q3: s(3) }
}

/// The distance of (`x`, `y`) from the edge.
pub open spec fn tap_of(dir: int, ex: int, ey: int, x: int, y: int) -> int {
    if dir == 0 {
        x - ex
    } else {
        y - ey
    }
}

/// The line of the segment that (`x`, `y`) is on.
pub open spec fn line_of(dir: int, ex: int, ey: int, x: int, y: int) -> int {
    if dir == 0 {
        y - ey
    } else {
        x - ex
    }
}

/// (`x`, `y`) is among the samples that a segment of `lines` lines touches.
pub open spec fn in_cell(dir: int, ex: int, ey: int, lines: int, x: int, y: int) -> bool {
    -4 <= tap_of(dir, ex, ey, x, y) < 4 && 0 <= line_of(dir, ex, ey, x, y) < lines
}

/// A luma sample after its four-line segment is filtered.
pub open spec fn luma_cell(
    f: spec_fn(int, int) -> int,
    dir: int,
    ex: int,
    ey: int,
    e: EdgeParams,
    x: int,
    y: int,
) -> int {
    let d = decide(
        line_at(f, dir, ex, ey, 0),
        line_at(f, dir, ex, ey, 3),
        e.beta as int,
        e.tc as int,
    );
    luma_line(line_at(f, dir, ex, ey, line_of(dir, ex, ey, x, y)), d, e).tap(
        tap_of(dir, ex, ey, x, y),
    )
}

/// A chroma sample after its two-line segment is filtered.
pub open spec fn chroma_cell(
    f: spec_fn(int, int) -> int,
    dir: int,
    ex: int,
    ey: int,
    e: EdgeParams,
    x: int,
    y: int,
) -> int {
    chroma_line(line_at(f, dir, ex, ey, line_of(dir, ex, ey, x, y)), e).tap(
        tap_of(dir, ex, ey, x, y),
    )
}

// ---- the filters as computed ----

/// The strong filter with its common sums taken once: `p2`, `p1`, `p0`, `q0`,
/// `q1`, `q2`.
pub fn strong_taps(p: [i32; 4], q: [i32; 4]) -> (r: [i32; 6])
    requires
        forall|i: int| #![trigger p@[i]] 0 <= i < 4 ==> 0 <= p@[i] <= 0xffff,
        forall|i: int| #![trigger q@[i]] 0 <= i < 4 ==> 0 <= q@[i] <= 0xffff,
    ensures
        ({
            let f = strong(line_of_arrays(p, q));
            &&& r@[0] == f.p2
            &&& r@[1] == f.p1
            &&& r@[2] == f.p0
            &&& r@[3] == f.q0
            &&& r@[4] == f.q1
            &&& r@[5] == f.q2
        }),
{
    let (p3, p2, p1, p0) = (p[3], p[2], p[1], p[0]);
    let (q0, q1, q2, q3) = (q[0], q[1], q[2], q[3]);
    let sp = p0 + q0;
    let u = p1 + p2;
    let v = q1 + q2;
    let a = sp + 2;
    let w = 2 * sp + p1 + q1 + 4;
    let b = sp + 4;
    [
        (b + u + 2 * (p2 + p3)) / 8,
        (a + u) / 4,
        (w + u) / 8,
        (w + v) / 8,
        (a + v) / 4,
        (b + v + 2 * (q2 + q3)) / 8,
    ]
}

/// Both sides of a line from arrays counted away from the edge.
pub open spec fn line_of_arrays(p: [i32; 4], q: [i32; 4]) -> Line {
    Line {
        p0: p@[0] as int,
        p1: p@[1] as int,
        p2: p@[2] as int,
        p3: p@[3] as int,
        q0: q@[0] as int,
        q1: q@[1] as int,
        q2: q@[2] as int,
        q3: q@[3] as int,
    }
}

/// `(9·da − 3·db + 8) >> 4`, from three times a difference.
pub fn weak_delta(da: i32, db: i32) -> (r: i32)
    requires
        -0xffff <= da <= 0xffff,
        -0xffff <= db <= 0xffff,
    ensures
        r == (9 * da - 3 * db + 8) / 16,
        -0xffff <= r <= 0xffff,
{
    let t = 3 * da - db;
    proof {
        vstd::arithmetic::power2::lemma2_to64();
    }
    arith::asr(3 * t + 8, 4)
}

/// The decision of a segment.
fn decide_edge(
    p0: &[i32; 4],
    q0: &[i32; 4],
    p3: &[i32; 4],
    q3: &[i32; 4],
    beta: i32,
    tc: i32,
) -> (d: Decision)
    requires
        samples_ok(*p0),
        samples_ok(*q0),
        samples_ok(*p3),
        samples_ok(*q3),
        0 <= beta <= 0x1_0000,
        0 <= tc <= 0x1_0000,
    ensures
        d == decide(
            line_of_arrays(*p0, *q0),
            line_of_arrays(*p3, *q3),
            beta as int,
            tc as int,
        ),
{
    let dp0 = distance(p0[2] + p0[0], 2 * p0[1]);
    let dp3 = distance(p3[2] + p3[0], 2 * p3[1]);
    let dq0 = distance(q0[2] + q0[0], 2 * q0[1]);
    let dq3 = distance(q3[2] + q3[0], 2 * q3[1]);
    let dp = dp0 + dp3;
    let dq = dq0 + dq3;
    if dp + dq >= beta {
        return Decision { de: 0, dep: false, deq: false };
    }
    let s0 = is_smooth(p0, q0, dp0 + dq0, beta, tc);
    let s3 = is_smooth(p3, q3, dp3 + dq3, beta, tc);
    let side = (beta + beta / 2) / 8;
    Decision {
        de: if s0 && s3 {
            2
        } else {
            1
        },
        dep: dp < side,
        deq: dq < side,
    }
}

fn is_smooth(p: &[i32; 4], q: &[i32; 4], curve: i32, beta: i32, tc: i32) -> (r: bool)
    requires
        samples_ok(*p),
        samples_ok(*q),
        curve == curve_p(line_of_arrays(*p, *q)) + curve_q(line_of_arrays(*p, *q)),
        0 <= beta <= 0x1_0000,
        0 <= tc <= 0x1_0000,
    ensures
        r == smooth(line_of_arrays(*p, *q), beta as int, tc as int),
{
    2 * curve < beta / 4 && distance(p[3], p[0]) + distance(q[0], q[3]) < beta / 8 && distance(
        p[0],
        q[0],
    ) < (5 * tc + 1) / 2
}

/// Samples are 16-bit values.
pub open spec fn samples_ok(a: [i32; 4]) -> bool {
    forall|i: int| #![trigger a@[i]] 0 <= i < 4 ==> 0 <= a@[i] <= 0xffff
}

/// `|a − b|`.
fn distance(a: i32, b: i32) -> (r: i32)
    requires
        0 <= a <= 0x1_ffff,
        0 <= b <= 0x1_ffff,
    ensures
        r == arith::magnitude(a - b),
        0 <= r <= 0x1_ffff,
{
    if a < b {
        b - a
    } else {
        a - b
    }
}

/// The three samples next to the edge on either side are those of a line.
pub open spec fn sides_are(r: ([u16; 3], [u16; 3]), f: Line) -> bool {
    &&& r.0@[0] as int == f.p0
    &&& r.0@[1] as int == f.p1
    &&& r.0@[2] as int == f.p2
    &&& r.1@[0] as int == f.q0
    &&& r.1@[1] as int == f.q1
    &&& r.1@[2] as int == f.q2
}

/// `v` kept within 2·tc of `o`.
fn keep_near(o: i32, v: i32, tc: i32) -> (r: u16)
    requires
        0 <= o <= 0xffff,
        0 <= v <= 0xffff,
        0 <= tc <= 0x1_0000,
    ensures
        r as int == near_old(o as int, v as int, tc as int),
{
    arith::clip_i32(o - 2 * tc, o + 2 * tc, v) as u16
}

fn filter_strong(p: &[i32; 4], q: &[i32; 4], tc: i32) -> (r: ([u16; 3], [u16; 3]))
    requires
        samples_ok(*p),
        samples_ok(*q),
        0 <= tc <= 0x1_0000,
    ensures
        sides_are(r, strong_line(line_of_arrays(*p, *q), tc as int)),
{
    let f = strong_taps(*p, *q);
    let a0 = keep_near(p[0], f[2], tc);
    let a1 = keep_near(p[1], f[1], tc);
    let a2 = keep_near(p[2], f[0], tc);
    let b0 = keep_near(q[0], f[3], tc);
    let b1 = keep_near(q[1], f[4], tc);
    let b2 = keep_near(q[2], f[5], tc);
    ([a0, a1, a2], [b0, b1, b2])
}

/// The second sample of a side moved towards the line through its neighbours.
fn follow(s2: i32, s1: i32, s0: i32, delta: i32, tc: i32, max: i32) -> (r: u16)
    requires
        0 <= s2 <= 0xffff,
        0 <= s1 <= 0xffff,
        0 <= s0 <= 0xffff,
        -0x1_0000 <= delta <= 0x1_0000,
        0 <= tc <= 0x1_0000,
        0 <= max <= 0xffff,
    ensures
        r as int == arith::clip3(
            0,
            max as int,
            s1 + arith::clip3(
                -(tc as int / 2),
                tc as int / 2,
                ((s2 + s0 + 1) / 2 - s1 + delta) / 2,
            ),
        ),
{
    let half = tc / 2;
    proof {
        vstd::arithmetic::power2::lemma2_to64();
    }
    let t = arith::asr((s2 + s0 + 1) / 2 - s1 + delta, 1);
    arith::clip_i32(0, max, s1 + arith::clip_i32(-half, half, t)) as u16
}

fn filter_weak(p: &[i32; 4], q: &[i32; 4], d: Decision, tc: i32, max: i32) -> (r: (
    [u16; 3],
    [u16; 3],
))
    requires
        samples_ok(*p),
        samples_ok(*q),
        0 <= tc <= 0x1_0000,
        0 <= max <= 0xffff,
    ensures
        sides_are(r, weak_line(line_of_arrays(*p, *q), d, tc as int, max as int)),
{
    let (p0, p1, p2) = (p[0], p[1], p[2]);
    let (q0, q1, q2) = (q[0], q[1], q[2]);
    let step = weak_delta(q0 - p0, q1 - p1);
    let size = if step < 0 {
        -step
    } else {
        step
    };
    if size >= 10 * tc {
        return ([p0 as u16, p1 as u16, p2 as u16], [q0 as u16, q1 as u16, q2 as u16]);
    }
    let delta = arith::clip_i32(-tc, tc, step);
    let a0 = arith::clip_i32(0, max, p0 + delta) as u16;
    let b0 = arith::clip_i32(0, max, q0 - delta) as u16;
    let a1 = if d.dep {
        follow(p2, p1, p0, delta, tc, max)
    } else {
        p1 as u16
    };
    let b1 = if d.deq {
        follow(q2, q1, q0, -delta, tc, max)
    } else {
        q1 as u16
    };
    ([a0, a1, p2 as u16], [b0, b1, q2 as u16])
}

/// A luma line filtered: the three samples of either side, counted away from
/// the edge.
fn filter_luma_line(p: &[i32; 4], q: &[i32; 4], d: Decision, e: &EdgeParams) -> (r: (
    [u16; 3],
    [u16; 3],
))
    requires
        samples_ok(*p),
        samples_ok(*q),
        e.wf(),
    ensures
        sides_are(r, luma_line(line_of_arrays(*p, *q), d, *e)),
{
    let kept = (
        [p[0] as u16, p[1] as u16, p[2] as u16],
        [q[0] as u16, q[1] as u16, q[2] as u16],
    );
    let f = if d.de == 2 {
        filter_strong(p, q, e.tc)
    } else if d.de != 0 {
        filter_weak(p, q, d, e.tc, e.max)
    } else {
        kept
    };
    (if e.no_p {
        kept.0
    } else {
        f.0
    }, if e.no_q {
        kept.1
    } else {
        f.1
    })
}

// ---- on a plane ----

/// The segment's samples up to `reach` from the edge lie inside the plane.
pub open spec fn cell_inside(
    p: Plane,
    dir: int,
    ex: int,
    ey: int,
    lines: int,
    reach: int,
) -> bool {
    if dir == 0 {
        reach <= ex && ex + reach <= p.width && 0 <= ey && ey + lines <= p.height
    } else {
        reach <= ey && ey + reach <= p.height && 0 <= ex && ex + lines <= p.width
    }
}

/// The column of tap `t` − 4 on line `k`.
pub open spec fn tap_x(dir: int, ex: int, k: int, t: int) -> int {
    if dir == 0 {
        ex + t - 4
    } else {
        ex + k
    }
}

/// The row of tap `t` − 4 on line `k`.
pub open spec fn tap_y(dir: int, ey: int, k: int, t: int) -> int {
    if dir == 0 {
        ey + k
    } else {
        ey + t - 4
    }
}

/// `v` + `t` − 4.
fn offset_by(v: usize, t: usize) -> (r: usize)
    requires
        0 <= v + t - 4 <= usize::MAX,
    ensures
        r == v + t - 4,
{
    if t < 4 {
        v - (4 - t)
    } else {
        v + (t - 4)
    }
}

fn get_tap(plane: &Plane, dir: usize, x: usize, y: usize, k: usize, t: usize) -> (v: i32)
    requires
        plane.wf(),
        k < 4,
        2 <= t < 6 || t < 8 && cell_inside(*plane, dir as int, x as int, y as int, k + 1, 4),
        cell_inside(*plane, dir as int, x as int, y as int, k + 1, 2),
    ensures
        v == plane.at(
            tap_x(dir as int, x as int, k as int, t as int),
            tap_y(dir as int, y as int, k as int, t as int),
        ),
        0 <= v <= 0xffff,
{
    let (cx, cy) = if dir == 0 {
        (offset_by(x, t), y + k)
    } else {
        (x + k, offset_by(y, t))
    };
    proof {
        arith::lemma_flat_bound(
            cx as int,
            cy as int,
            plane.stride as int,
            plane.height as int,
        );
    }
    plane.get(cx, cy) as i32
}

fn set_tap(plane: &mut Plane, dir: usize, x: usize, y: usize, k: usize, t: usize, v: u16)
    requires
        old(plane).wf(),
        k < 4,
        2 <= t < 6 || t < 8 && cell_inside(*old(plane), dir as int, x as int, y as int, k + 1, 4),
        cell_inside(*old(plane), dir as int, x as int, y as int, k + 1, 2),
    ensures
        final(plane).wf(),
        final(plane).same_shape(*old(plane)),
        forall|a: int, b: int|
            #![trigger final(plane).at(a, b)]
            0 <= a < old(plane).stride && 0 <= b < old(plane).height ==> final(plane).at(a, b) == (
            if a == tap_x(dir as int, x as int, k as int, t as int) && b == tap_y(
                dir as int,
                y as int,
                k as int,
                t as int,
            ) {
                v
            } else {
                old(plane).at(a, b)
            }),
{
    let (cx, cy) = if dir == 0 {
        (offset_by(x, t), y + k)
    } else {
        (x + k, offset_by(y, t))
    };
    let ghost o = *plane;
    proof {
        arith::lemma_flat_bound(cx as int, cy as int, o.stride as int, o.height as int);
    }
    plane.set(cx, cy, v);
    proof {
        assert forall|a: int, b: int|
            #![trigger plane.at(a, b)]
            0 <= a < o.stride && 0 <= b < o.height implies plane.at(a, b) == (if a == cx && b
            == cy {
            v
        } else {
            o.at(a, b)
        }) by {
            arith::lemma_flat_bound(a, b, o.stride as int, o.height as int);
            if b * o.stride + a == cy * o.stride + cx {
                arith::lemma_flat_inj(a, b, cx as int, cy as int, o.stride as int);
            }
        }
    }
}

fn read_line(plane: &Plane, dir: usize, x: usize, y: usize, k: usize) -> (r: ([i32; 4], [i32; 4]))
    requires
        plane.wf(),
        k < 4,
        cell_inside(*plane, dir as int, x as int, y as int, k + 1, 4),
    ensures
        line_of_arrays(r.0, r.1) == line_at(
            samples(*plane),
            dir as int,
            x as int,
            y as int,
            k as int,
        ),
        samples_ok(r.0),
        samples_ok(r.1),
{
    let p = [
        get_tap(plane, dir, x, y, k, 3),
        get_tap(plane, dir, x, y, k, 2),
        get_tap(plane, dir, x, y, k, 1),
        get_tap(plane, dir, x, y, k, 0),
    ];
    let q = [
        get_tap(plane, dir, x, y, k, 4),
        get_tap(plane, dir, x, y, k, 5),
        get_tap(plane, dir, x, y, k, 6),
        get_tap(plane, dir, x, y, k, 7),
    ];
    (p, q)
}

/// A line's new samples written back.
fn write_line(
    plane: &mut Plane,
    dir: usize,
    x: usize,
    y: usize,
    k: usize,
    np: [u16; 3],
    nq: [u16; 3],
)
    requires
        old(plane).wf(),
        k < 4,
        cell_inside(*old(plane), dir as int, x as int, y as int, k + 1, 4),
    ensures
        final(plane).wf(),
        final(plane).same_shape(*old(plane)),
        forall|a: int, b: int|
            #![trigger final(plane).at(a, b)]
            0 <= a < old(plane).stride && 0 <= b < old(plane).height ==> final(plane).at(a, b)
                == line_written(
                samples(*old(plane)),
                dir as int,
                x as int,
                y as int,
                k as int,
                np,
                nq,
                a,
                b,
            ),
{
    set_tap(plane, dir, x, y, k, 3, np[0]);
    set_tap(plane, dir, x, y, k, 2, np[1]);
    set_tap(plane, dir, x, y, k, 1, np[2]);
    set_tap(plane, dir, x, y, k, 4, nq[0]);
    set_tap(plane, dir, x, y, k, 5, nq[1]);
    set_tap(plane, dir, x, y, k, 6, nq[2]);
}

spec fn line_written(
    f: spec_fn(int, int) -> int,
    dir: int,
    ex: int,
    ey: int,
    k: int,
    np: [u16; 3],
    nq: [u16; 3],
    a: int,
    b: int,
) -> int {
    let i = tap_of(dir, ex, ey, a, b);
    if line_of(dir, ex, ey, a, b) != k {
        f(a, b)
    } else if i == -1 {
        np@[0] as int
    } else if i == -2 {
        np@[1] as int
    } else if i == -3 {
        np@[2] as int
    } else if i == 0 {
        nq@[0] as int
    } else if i == 1 {
        nq@[1] as int
    } else if i == 2 {
        nq@[2] as int
    } else {
        f(a, b)
    }
}

/// Filters one four-line luma edge segment.
pub fn luma_edge(plane: &mut Plane, x: usize, y: usize, dir: usize, e: &EdgeParams)
    requires
        old(plane).wf(),
        dir <= 1,
        cell_inside(*old(plane), dir as int, x as int, y as int, 4, 4),
        e.wf(),
    ensures
        final(plane).wf(),
        final(plane).same_shape(*old(plane)),
        forall|a: int, b: int|
            #![trigger final(plane).at(a, b)]
            0 <= a < old(plane).stride && 0 <= b < old(plane).height ==> final(plane).at(a, b)
                == (if in_cell(dir as int, x as int, y as int, 4, a, b) {
                luma_cell(samples(*old(plane)), dir as int, x as int, y as int, *e, a, b)
            } else {
                old(plane).at(a, b) as int
            }),
{
    let ghost o = *plane;
    let ghost f = samples(o);
    let (p0, q0) = read_line(plane, dir, x, y, 0);
    let (p3, q3) = read_line(plane, dir, x, y, 3);
    let d = decide_edge(&p0, &q0, &p3, &q3, e.beta, e.tc);
    if d.de == 0 {
        assert(forall|a: int, b: int|
            #![trigger plane.at(a, b)]
            in_cell(dir as int, x as int, y as int, 4, a, b) ==> luma_cell(
                f,
                dir as int,
                x as int,
                y as int,
                *e,
                a,
                b,
            ) == plane.at(a, b));
        return ;
    }
    let mut k: usize = 0;
    while k < 4
        invariant
            k <= 4,
            o.wf(),
            plane.wf(),
            plane.same_shape(o),
            dir <= 1,
            cell_inside(o, dir as int, x as int, y as int, 4, 4),
            e.wf(),
            f == samples(o),
            d == decide(
                line_at(f, dir as int, x as int, y as int, 0),
                line_at(f, dir as int, x as int, y as int, 3),
                e.beta as int,
                e.tc as int,
            ),
            forall|a: int, b: int|
                #![trigger plane.at(a, b)]
                0 <= a < o.stride && 0 <= b < o.height ==> plane.at(a, b) == (if in_cell(
                    dir as int,
                    x as int,
                    y as int,
                    k as int,
                    a,
                    b,
                ) {
                    luma_cell(f, dir as int, x as int, y as int, *e, a, b)
                } else {
                    f(a, b)
                }),
        decreases 4 - k,
    {
        let ghost cur = *plane;
        let (p, q) = read_line(plane, dir, x, y, k);
        proof {
            let g = samples(cur);
            assert forall|t: int|
                #![trigger g(
                    tap_x(dir as int, x as int, k as int, t),
                    tap_y(dir as int, y as int, k as int, t),
                )]
                0 <= t < 8 implies g(
                tap_x(dir as int, x as int, k as int, t),
                tap_y(dir as int, y as int, k as int, t),
            ) == f(
                tap_x(dir as int, x as int, k as int, t),
                tap_y(dir as int, y as int, k as int, t),
            ) by {
                assert(cur.at(
                    tap_x(dir as int, x as int, k as int, t),
                    tap_y(dir as int, y as int, k as int, t),
                ) == f(
                    tap_x(dir as int, x as int, k as int, t),
                    tap_y(dir as int, y as int, k as int, t),
                ));
            }
            lemma_line_same(g, f, dir as int, x as int, y as int, k as int);
        }
        let (np, nq) = filter_luma_line(&p, &q, d, e);
        write_line(plane, dir, x, y, k, np, nq);
        k += 1;
    }
}

/// A line that reads the same samples is the same.
pub proof fn lemma_line_same(
    f: spec_fn(int, int) -> int,
    g: spec_fn(int, int) -> int,
    dir: int,
    ex: int,
    ey: int,
    k: int,
)
    requires
        dir == 0 || dir == 1,
        forall|t: int|
            #![trigger f(tap_x(dir, ex, k, t), tap_y(dir, ey, k, t))]
            0 <= t < 8 ==> f(tap_x(dir, ex, k, t), tap_y(dir, ey, k, t)) == g(
                tap_x(dir, ex, k, t),
                tap_y(dir, ey, k, t),
            ),
    ensures
        line_at(f, dir, ex, ey, k) == line_at(g, dir, ex, ey, k),
{
    let same = |t: int|
        f(tap_x(dir, ex, k, t), tap_y(dir, ey, k, t)) == g(
            tap_x(dir, ex, k, t),
            tap_y(dir, ey, k, t),
        );
    assert(same(0) && same(1) && same(2) && same(3));
    assert(same(4) && same(5) && same(6) && same(7));
}

/// Filters one two-line chroma edge segment.
pub fn filter_chroma_edge(plane: &mut Plane, x: usize, y: usize, dir: usize, e: &EdgeParams)
    requires
        old(plane).wf(),
        dir <= 1,
        cell_inside(*old(plane), dir as int, x as int, y as int, 2, 2),
        e.wf(),
    ensures
        final(plane).wf(),
        final(plane).same_shape(*old(plane)),
        forall|a: int, b: int|
            #![trigger final(plane).at(a, b)]
            0 <= a < old(plane).stride && 0 <= b < old(plane).height ==> final(plane).at(a, b)
                == (if in_cell(dir as int, x as int, y as int, 2, a, b) {
                chroma_cell(samples(*old(plane)), dir as int, x as int, y as int, *e, a, b)
            } else {
                old(plane).at(a, b) as int
            }),
{
    let ghost o = *plane;
    let ghost f = samples(o);
    let mut k: usize = 0;
    while k < 2
        invariant
            k <= 2,
            o.wf(),
            plane.wf(),
            plane.same_shape(o),
            dir <= 1,
            cell_inside(o, dir as int, x as int, y as int, 2, 2),
            e.wf(),
            f == samples(o),
            forall|a: int, b: int|
                #![trigger plane.at(a, b)]
                0 <= a < o.stride && 0 <= b < o.height ==> plane.at(a, b) == (if in_cell(
                    dir as int,
                    x as int,
                    y as int,
                    k as int,
                    a,
                    b,
                ) {
                    chroma_cell(f, dir as int, x as int, y as int, *e, a, b)
                } else {
                    f(a, b)
                }),
        decreases 2 - k,
    {
        let ghost l = line_at(f, dir as int, x as int, y as int, k as int);
        let p1 = get_tap(plane, dir, x, y, k, 2);
        let p0 = get_tap(plane, dir, x, y, k, 3);
        let q0 = get_tap(plane, dir, x, y, k, 4);
        let q1 = get_tap(plane, dir, x, y, k, 5);
        assert(p0 == l.p0 && p1 == l.p1 && q0 == l.q0 && q1 == l.q1);
        proof {
            vstd::arithmetic::power2::lemma2_to64();
        }
        let delta = arith::clip_i32(-e.tc, e.tc, arith::asr(4 * (q0 - p0) + p1 - q1 + 4, 3));
        if !e.no_p {
            let v = arith::clip_i32(0, e.max, p0 + delta) as u16;
            set_tap(plane, dir, x, y, k, 3, v);
        }
        if !e.no_q {
            let v = arith::clip_i32(0, e.max, q0 - delta) as u16;
            set_tap(plane, dir, x, y, k, 4, v);
        }
        k += 1;
    }
}

proof fn lemma_strong_bounded(l: Line, max: int)
    requires
        l.bounded(max),
    ensures
        strong(l).bounded(max),
{
}

proof fn lemma_near_bounded(o: int, n: int, tc: int, max: int)
    requires
        0 <= o <= max,
        0 <= n <= max,
        0 <= tc,
    ensures
        0 <= near_old(o, n, tc) <= max,
{
}

proof fn lemma_strong_line_bounded(l: Line, tc: int, max: int)
    requires
        l.bounded(max),
        0 <= tc,
    ensures
        strong_line(l, tc).bounded(max),
{
    let f = strong(l);
    lemma_strong_bounded(l, max);
    lemma_near_bounded(l.p0, f.p0, tc, max);
    lemma_near_bounded(l.p1, f.p1, tc, max);
    lemma_near_bounded(l.p2, f.p2, tc, max);
    lemma_near_bounded(l.q0, f.q0, tc, max);
    lemma_near_bounded(l.q1, f.q1, tc, max);
    lemma_near_bounded(l.q2, f.q2, tc, max);
}

proof fn lemma_weak_line_bounded(l: Line, d: Decision, tc: int, max: int)
    requires
        l.bounded(max),
        0 <= tc,
        0 <= max,
    ensures
        weak_line(l, d, tc, max).bounded(max),
{
}

/// The filters keep samples in the range they came in.
pub proof fn lemma_luma_line_bounded(l: Line, d: Decision, e: EdgeParams, i: int)
    requires
        l.bounded(e.max as int),
        e.wf(),
    ensures
        0 <= luma_line(l, d, e).tap(i) <= e.max,
{
    lemma_strong_line_bounded(l, e.tc as int, e.max as int);
    lemma_weak_line_bounded(l, d, e.tc as int, e.max as int);
    let f = if d.de == 0 {
        l
    } else if d.de == 2 {
        strong_line(l, e.tc as int)
    } else {
        weak_line(l, d, e.tc as int, e.max as int)
    };
    assert(f.bounded(e.max as int));
    assert(sides_kept(l, f, e.no_p, e.no_q).bounded(e.max as int));
}

/// The chroma filter keeps samples in the range they came in.
pub proof fn lemma_chroma_line_bounded(l: Line, e: EdgeParams, i: int)
    requires
        l.bounded(e.max as int),
        e.wf(),
    ensures
        0 <= chroma_line(l, e).tap(i) <= e.max,
{
}

/// §8.7.2.5.7: filters never touch a side that must be left alone.
pub proof fn lemma_kept_side(l: Line, d: Decision, e: EdgeParams, i: int)
    requires
        -4 <= i < 4,
        if i < 0 {
            e.no_p
        } else {
            e.no_q
        },
    ensures
        luma_line(l, d, e).tap(i) == l.tap(i),
        chroma_line(l, e).tap(i) == l.tap(i),
{
}

/// Filtering reaches three luma samples on either side of an edge.
pub proof fn lemma_luma_reach(l: Line, d: Decision, e: EdgeParams)
    ensures
        luma_line(l, d, e).p3 == l.p3,
        luma_line(l, d, e).q3 == l.q3,
{
}

/// The strong filter moves no sample by more than 2·tc.
pub proof fn lemma_strong_moves_little(l: Line, tc: int, i: int)
    requires
        0 <= tc,
        -4 <= i < 4,
    ensures
        -2 * tc <= strong_line(l, tc).tap(i) - l.tap(i) <= 2 * tc,
{
}

/// A flat line stays as it is, whatever the parameters.
pub proof fn lemma_flat_line_kept(v: int, d: Decision, e: EdgeParams)
    requires
        0 <= v <= e.max,
        e.wf(),
    ensures
        ({
            let l = Line { p0: v, p1: v, p2: v, p3: v, q0: v, q1: v, q2: v, q3: v };
            luma_line(l, d, e) == l && chroma_line(l, e) == l
        }),
{
}

} // verus!
