use rusty_h265::deblock::{strong_taps, weak_delta};

fn spec_strong(p: [i32; 4], q: [i32; 4]) -> [i32; 6] {
    let (p3, p2, p1, p0) = (p[3], p[2], p[1], p[0]);
    let (q0, q1, q2, q3) = (q[0], q[1], q[2], q[3]);
    [
        (2 * p3 + 3 * p2 + p1 + p0 + q0 + 4) >> 3,
        (p2 + p1 + p0 + q0 + 2) >> 2,
        (p2 + 2 * p1 + 2 * p0 + 2 * q0 + q1 + 4) >> 3,
        (p1 + 2 * p0 + 2 * q0 + 2 * q1 + q2 + 4) >> 3,
        (p0 + q0 + q1 + q2 + 2) >> 2,
        (p0 + q0 + q1 + 3 * q2 + 2 * q3 + 4) >> 3,
    ]
}

#[test]
fn strong_filter_factoring_matches_spec() {
    let mut st = 0xdeb1_0c47u32;
    let rnd = |s: &mut u32, m: i32| {
        *s = s.wrapping_mul(1_664_525).wrapping_add(1_013_904_223);
        ((*s >> 8) as i32) % (m + 1)
    };
    for &bd in &[8u32, 10, 12, 14] {
        let max = (1i32 << bd) - 1;
        // the corners, where a factoring error shows first
        for &(a, b) in &[(0, 0), (0, max), (max, 0), (max, max)] {
            assert_eq!(spec_strong([a; 4], [b; 4]), strong_taps([a; 4], [b; 4]), "bd={bd} flat {a}/{b}");
        }
        for _ in 0..20000 {
            let p = [rnd(&mut st, max), rnd(&mut st, max), rnd(&mut st, max), rnd(&mut st, max)];
            let q = [rnd(&mut st, max), rnd(&mut st, max), rnd(&mut st, max), rnd(&mut st, max)];
            assert_eq!(spec_strong(p, q), strong_taps(p, q), "bd={bd} p={p:?} q={q:?}");
        }
    }
}

/// The weak filter's `9x - 3y` strength reduction, over the signed domain.
#[test]
fn weak_delta_strength_reduction_matches_spec() {
    for bd in [8i32, 10, 12] {
        let max = (1i32 << bd) - 1;
        let pts = [-max, -max / 2, -3, -1, 0, 1, 3, max / 2, max];
        for &da in &pts {
            for &db in &pts {
                let spec = (9 * da - 3 * db + 8) >> 4;
                let fast = weak_delta(da, db);
                assert_eq!(spec, fast, "bd={bd} da={da} db={db}");
            }
        }
    }
}
