use rusty_h265::frame::Plane;
use rusty_h265::mcscratch::McScratch;

fn plane_with(w: usize, h: usize) -> Plane {
    let mut p = Plane::new(w, h);
    for y in 0..h {
        for x in 0..w {
            p.set(x, y, (y * w + x) as u16 % 255);
        }
    }
    p
}

/// The padded footprint must equal a per-sample clamped read, the definition
/// it replaces.
#[test]
fn pad_footprint_matches_clamped_reads() {
    let p = plane_with(19, 11);
    let mut s = McScratch::new();
    for y0 in -9i32..14 {
        for x0 in -9i32..22 {
            for &(fw, fh) in &[(11usize, 11usize), (5, 7), (1, 1), (12, 3)] {
                s.pad_footprint(&p, x0, y0, fw, fh);
                for y in 0..fh {
                    for x in 0..fw {
                        let sx = (x0 + x as i32).clamp(0, p.width as i32 - 1) as usize;
                        let sy = (y0 + y as i32).clamp(0, p.height as i32 - 1) as usize;
                        assert_eq!(
                            s.pad[y * fw + x],
                            p.get(sx, sy),
                            "({x0},{y0}) {fw}x{fh} at ({x},{y})"
                        );
                    }
                }
            }
        }
    }
}

/// The scratch must be big enough for the largest block HEVC allows, or a
/// 64x64 prediction unit would reallocate mid-picture.
#[test]
fn scratch_holds_the_largest_block() {
    let s = McScratch::new();
    assert!(s.pred[0].len() >= 64 * 64);
    assert!(s.tmp.len() >= 64 * (64 + 7));
    assert!(s.pad.len() >= (64 + 7) * (64 + 7));
}
