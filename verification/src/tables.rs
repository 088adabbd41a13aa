//! Constant tables: scan orders (§6.5.3–6.5.5), the 32×32 DCT matrix
//! (§8.6.4.2), the 4×4 DST, intra angles (Tables 8-4/8-5), the chroma QP map
//! (Table 8-10), the dequantisation scale (§8.6.3) and the deblocking β/tC
//! tables (Table 8-12).

use crate::arith;
use vstd::prelude::*;

verus! {

// ---- scan orders ----

/// The number of cells on anti-diagonal `d` of a `size`×`size` block.
pub open spec fn diag_len(size: int, d: int) -> int {
    if d < size {
        d + 1
    } else {
        2 * size - 1 - d
    }
}

/// The number of cells on the anti-diagonals before `d`.
pub open spec fn diag_start(size: int, d: int) -> int
    decreases d,
{
    if d <= 0 {
        0
    } else {
        diag_start(size, d - 1) + diag_len(size, d - 1)
    }
}

/// The column of the bottom-left cell of anti-diagonal `d`.
pub open spec fn diag_first(size: int, d: int) -> int {
    if d < size {
        0
    } else {
        d - size + 1
    }
}

/// The position of cell (`x`, `y`) in the up-right diagonal scan: the
/// anti-diagonals in order, each from its bottom-left cell upwards.
pub open spec fn diag_pos(size: int, x: int, y: int) -> int {
    diag_start(size, x + y) + x - diag_first(size, x + y)
}

/// The position of cell (`x`, `y`) in scan `scan_idx` of a `size`×`size`
/// block: 0 = up-right diagonal, 1 = horizontal, otherwise vertical.
pub open spec fn scan_pos(size: int, scan_idx: int, x: int, y: int) -> int {
    if scan_idx == 0 {
        diag_pos(size, x, y)
    } else if scan_idx == 1 {
        y * size + x
    } else {
        x * size + y
    }
}

/// `s` lists every cell of a `size`×`size` block once, in scan order.
pub open spec fn is_scan(s: Seq<(u8, u8)>, size: int, scan_idx: int) -> bool {
    &&& s.len() == size * size
    &&& forall|x: int, y: int|
        #![trigger scan_pos(size, scan_idx, x, y)]
        0 <= x < size && 0 <= y < size ==> {
            let i = scan_pos(size, scan_idx, x, y);
            0 <= i < size * size && s[i].0 == x && s[i].1 == y
        }
    &&& forall|i: int|
        #![trigger s[i]]
        0 <= i < size * size ==> s[i].0 < size && s[i].1 < size && scan_pos(
            size,
            scan_idx,
            s[i].0 as int,
            s[i].1 as int,
        ) == i
}

/// The anti-diagonals before `d` in closed form.
proof fn lemma_diag_start(size: int, d: int)
    requires
        1 <= size,
        0 <= d <= 2 * size - 1,
    ensures
        d <= size ==> 2 * diag_start(size, d) == d * (d + 1),
        d >= size ==> 2 * diag_start(size, d) == 2 * size * size - (2 * size - 1 - d) * (2 * size
            - d),
    decreases d,
{
    if d > 0 {
        lemma_diag_start(size, d - 1);
        assert((d - 1) * d + 2 * d == d * (d + 1)) by (nonlinear_arith);
        assert(2 * size * size - (2 * size - d) * (2 * size - d + 1) + 2 * (2 * size - d) == 2
            * size * size - (2 * size - 1 - d) * (2 * size - d)) by (nonlinear_arith);
        if d == size {
            assert(d * (d + 1) == 2 * size * size - (2 * size - 1 - d) * (2 * size - d))
                by (nonlinear_arith)
                requires
                    d == size,
            ;
        }
    } else {
        assert(d * (d + 1) == 0) by (nonlinear_arith)
            requires
                d == 0,
        ;
    }
}

/// Later anti-diagonals start later.
pub proof fn lemma_diag_start_mono(size: int, a: int, b: int)
    requires
        1 <= size,
        0 <= a < b <= 2 * size - 1,
    ensures
        diag_start(size, a) + diag_len(size, a) <= diag_start(size, b),
    decreases b,
{
    if a + 1 < b {
        lemma_diag_start_mono(size, a, b - 1);
    }
}

/// The diagonal scan stays inside the block.
pub proof fn lemma_diag_pos_bound(size: int, x: int, y: int)
    requires
        1 <= size,
        0 <= x < size,
        0 <= y < size,
    ensures
        0 <= diag_pos(size, x, y) < size * size,
        diag_start(size, x + y) <= diag_pos(size, x, y) < diag_start(size, x + y) + diag_len(
            size,
            x + y,
        ),
{
    let d = x + y;
    let last = 2 * size - 1;
    lemma_diag_start(size, last);
    assert((2 * size - 1 - last) * (2 * size - last) == 0) by (nonlinear_arith)
        requires
            last == 2 * size - 1,
    ;
    assert(2 * diag_start(size, last) == 2 * size * size);
    assert(2 * size * size == 2 * (size * size)) by (nonlinear_arith);
    lemma_diag_start_mono(size, d, last);
    if 0 < d {
        lemma_diag_start_mono(size, 0, d);
    }
}

/// Two cells never share a position in the diagonal scan.
proof fn lemma_diag_pos_inj(size: int, x1: int, y1: int, x2: int, y2: int)
    requires
        1 <= size,
        0 <= x1 < size,
        0 <= y1 < size,
        0 <= x2 < size,
        0 <= y2 < size,
        diag_pos(size, x1, y1) == diag_pos(size, x2, y2),
    ensures
        x1 == x2,
        y1 == y2,
{
    lemma_diag_pos_bound(size, x1, y1);
    lemma_diag_pos_bound(size, x2, y2);
    if x1 + y1 < x2 + y2 {
        lemma_diag_start_mono(size, x1 + y1, x2 + y2);
    }
    if x2 + y2 < x1 + y1 {
        lemma_diag_start_mono(size, x2 + y2, x1 + y1);
    }
}

/// Up-right diagonal scan (§6.5.3) of a `size`×`size` block, as (x, y).
pub fn diag_scan(size: usize) -> (out: Vec<(u8, u8)>)
    requires
        1 <= size <= 255,
    ensures
        is_scan(out@, size as int, 0),
{
    let ghost s = size as int;
    let mut out: Vec<(u8, u8)> = Vec::new();
    let mut d: usize = 0;
    while d < 2 * size - 1
        invariant
            s == size,
            1 <= size <= 255,
            0 <= d <= 2 * size - 1,
            out@.len() == diag_start(s, d as int),
            forall|i: int|
                #![trigger out@[i]]
                0 <= i < out@.len() ==> out@[i].0 < size && out@[i].1 < size && diag_pos(
                    s,
                    out@[i].0 as int,
                    out@[i].1 as int,
                ) == i,
        decreases 2 * size - 1 - d,
    {
        let mut x: usize = if d < size {
            0
        } else {
            d - size + 1
        };
        while x < size && x <= d
            invariant
                s == size,
                1 <= size <= 255,
                0 <= d < 2 * size - 1,
                diag_first(s, d as int) <= x <= diag_first(s, d as int) + diag_len(s, d as int),
                out@.len() == diag_start(s, d as int) + x - diag_first(s, d as int),
                forall|i: int|
                    #![trigger out@[i]]
                    0 <= i < out@.len() ==> out@[i].0 < size && out@[i].1 < size && diag_pos(
                        s,
                        out@[i].0 as int,
                        out@[i].1 as int,
                    ) == i,
            decreases size - x,
        {
            out.push((x as u8, (d - x) as u8));
            x += 1;
        }
        d += 1;
    }
    proof {
        let last = 2 * s - 1;
        lemma_diag_start(s, last);
        assert((2 * s - 1 - last) * (2 * s - last) == 0) by (nonlinear_arith)
            requires
                last == 2 * s - 1,
        ;
        assert(2 * s * s == 2 * (s * s)) by (nonlinear_arith);
        assert forall|x: int, y: int|
            #![trigger scan_pos(s, 0, x, y)]
            0 <= x < s && 0 <= y < s implies {
            let i = scan_pos(s, 0, x, y);
            0 <= i < s * s && out@[i].0 == x && out@[i].1 == y
        } by {
            lemma_diag_pos_bound(s, x, y);
            let i = diag_pos(s, x, y);
            lemma_diag_pos_inj(s, out@[i].0 as int, out@[i].1 as int, x, y);
        }
    }
    out
}

/// Horizontal scan (§6.5.4) of a `size`×`size` block, as (x, y).
pub fn horiz_scan(size: usize) -> (out: Vec<(u8, u8)>)
    requires
        1 <= size <= 255,
    ensures
        is_scan(out@, size as int, 1),
{
    raster_scan(size, false)
}

/// Vertical scan (§6.5.5) of a `size`×`size` block, as (x, y).
pub fn vert_scan(size: usize) -> (out: Vec<(u8, u8)>)
    requires
        1 <= size <= 255,
    ensures
        is_scan(out@, size as int, 2),
{
    raster_scan(size, true)
}

/// The cells of a block row by row, or column by column.
fn raster_scan(size: usize, by_column: bool) -> (out: Vec<(u8, u8)>)
    requires
        1 <= size <= 255,
    ensures
        is_scan(
            out@,
            size as int,
            if by_column {
                2
            } else {
                1
            },
        ),
{
    let ghost s = size as int;
    let mut out: Vec<(u8, u8)> = Vec::new();
    let mut a: usize = 0;
    while a < size
        invariant
            s == size,
            1 <= size <= 255,
            a <= size,
            out@.len() == a * s,
            forall|i: int|
                #![trigger out@[i]]
                0 <= i < out@.len() ==> out@[i].0 < size && out@[i].1 < size && i == if by_column {
                    out@[i].0 * s + out@[i].1
                } else {
                    out@[i].1 * s + out@[i].0
                },
        decreases size - a,
    {
        let mut b: usize = 0;
        while b < size
            invariant
                s == size,
                1 <= size <= 255,
                a < size,
                b <= size,
                out@.len() == a * s + b,
                forall|i: int|
                    #![trigger out@[i]]
                    0 <= i < out@.len() ==> out@[i].0 < size && out@[i].1 < size && i
                        == if by_column {
                        out@[i].0 * s + out@[i].1
                    } else {
                        out@[i].1 * s + out@[i].0
                    },
            decreases size - b,
        {
            if by_column {
                out.push((a as u8, b as u8));
            } else {
                out.push((b as u8, a as u8));
            }
            b += 1;
        }
        assert((a + 1) * s == a * s + s) by (nonlinear_arith);
        a += 1;
    }
    proof {
        let idx: int = if by_column {
            2
        } else {
            1
        };
        assert forall|x: int, y: int|
            #![trigger scan_pos(s, idx, x, y)]
            0 <= x < s && 0 <= y < s implies {
            let i = scan_pos(s, idx, x, y);
            0 <= i < s * s && out@[i].0 == x && out@[i].1 == y
        } by {
            let i = scan_pos(s, idx, x, y);
            if by_column {
                arith::lemma_flat_bound(y, x, s, s);
                arith::lemma_flat_inj(out@[i].1 as int, out@[i].0 as int, y, x, s);
            } else {
                arith::lemma_flat_bound(x, y, s, s);
                arith::lemma_flat_inj(out@[i].0 as int, out@[i].1 as int, x, y, s);
            }
        }
    }
    out
}

/// The side of the block that `scan_order` scans.
pub open spec fn scan_size(log2_block_size: int) -> int {
    if log2_block_size == 0 {
        1
    } else if log2_block_size == 1 {
        2
    } else if log2_block_size == 2 {
        4
    } else {
        8
    }
}

/// `ScanOrder[log2BlockSize][scanIdx]` for block sizes 1, 2, 4, 8
/// (scanIdx 0 = diagonal, 1 = horizontal, 2 = vertical).
pub fn scan_order(log2_block_size: usize, scan_idx: usize) -> (out: Vec<(u8, u8)>)
    ensures
        is_scan(out@, scan_size(log2_block_size as int), scan_idx as int),
{
    let size: usize = match log2_block_size {
        0 => 1,
        1 => 2,
        2 => 4,
        _ => 8,
    };
    match scan_idx {
        0 => diag_scan(size),
        1 => horiz_scan(size),
        _ => {
            let out = vert_scan(size);
            proof {
                let s = size as int;
                assert forall|x: int, y: int|
                    #![trigger scan_pos(s, scan_idx as int, x, y)]
                    0 <= x < s && 0 <= y < s implies {
                    let i = scan_pos(s, scan_idx as int, x, y);
                    0 <= i < s * s && out@[i].0 == x && out@[i].1 == y
                } by {
                    assert(scan_pos(s, 2, x, y) == scan_pos(s, scan_idx as int, x, y));
                }
                assert forall|i: int|
                    #![trigger out@[i]]
                    0 <= i < s * s implies scan_pos(
                    s,
                    scan_idx as int,
                    out@[i].0 as int,
                    out@[i].1 as int,
                ) == i by {
                    assert(scan_pos(s, 2, out@[i].0 as int, out@[i].1 as int) == i);
                }
            }
            out
        },
    }
}

/// Every scan visits a cell at most once: equal entries are the same entry.
pub proof fn lemma_scan_is_injective(s: Seq<(u8, u8)>, size: int, scan_idx: int, i: int, j: int)
    requires
        is_scan(s, size, scan_idx),
        0 <= i < s.len(),
        0 <= j < s.len(),
        s[i] == s[j],
    ensures
        i == j,
{
}

// ---- the inverse transforms ----

/// The DCT coefficient magnitudes at angles m·π/64 for m = 0..=32 (§8.6.4.2);
/// every entry of the matrix follows from the cosine symmetries.
pub const DCT_BASE: [i16; 33] = [
    64, 90, 90, 90, 89, 88, 87, 85, 83, 82, 80, 78, 75, 73, 70, 67, 64, 61, 57, 54, 50, 46, 43, 38,
    36, 31, 25, 22, 18, 13, 9, 4, 0,
];

/// The tabulated cosine at angle `a`·π/64, for `a` within one period.
pub open spec fn dct_cos(a: int) -> int {
    if a <= 32 {
        DCT_BASE@[a] as int
    } else if a <= 64 {
        -(DCT_BASE@[64 - a] as int)
    } else if a <= 96 {
        -(DCT_BASE@[a - 64] as int)
    } else {
        DCT_BASE@[128 - a] as int
    }
}

/// `transMatrix[k][n]`: row `k` samples the cosine of frequency `k` at the
/// odd multiples of π/64; row 0 is constant.
pub open spec fn dct_at(k: int, n: int) -> int {
    if k == 0 {
        64
    } else {
        dct_cos(((2 * n + 1) * k) % 128)
    }
}

/// The 32×32 inverse-DCT matrix `transMatrix[k][n]`; the N-point matrix is
/// rows `k · 32/N`, columns `0..N`.
pub fn build_dct32() -> (m: [[i16; 32]; 32])
    ensures
        forall|k: int, n: int|
            #![trigger m@[k]@[n]]
            0 <= k < 32 && 0 <= n < 32 ==> m@[k]@[n] == dct_at(k, n),
{
    let mut m = [[0i16; 32]; 32];
    let mut k: usize = 0;
    while k < 32
        invariant
            k <= 32,
            forall|i: int, n: int|
                #![trigger m@[i]@[n]]
                0 <= i < k && 0 <= n < 32 ==> m@[i]@[n] == dct_at(i, n),
        decreases 32 - k,
    {
        let mut n: usize = 0;
        while n < 32
            invariant
                k < 32,
                n <= 32,
                forall|i: int, j: int|
                    #![trigger m@[i]@[j]]
                    0 <= i < k && 0 <= j < 32 ==> m@[i]@[j] == dct_at(i, j),
                forall|j: int|
                    #![trigger m@[k as int]@[j]]
                    0 <= j < n ==> m@[k as int]@[j] == dct_at(k as int, j),
            decreases 32 - n,
        {
            assert(0 <= (2 * n + 1) * k <= 63 * 31) by (nonlinear_arith)
                requires
                    0 <= n < 32,
                    0 <= k < 32,
            ;
            let a: usize = ((2 * n + 1) * k) % 128;
            let v: i16 = if k == 0 {
                64
            } else if a <= 32 {
                DCT_BASE[a]
            } else if a <= 64 {
                -DCT_BASE[64 - a]
            } else if a <= 96 {
                -DCT_BASE[a - 64]
            } else {
                DCT_BASE[128 - a]
            };
            m[k][n] = v;
            n += 1;
        }
        k += 1;
    }
    m
}

/// Row `k` of the transform is symmetric for even `k` and antisymmetric for
/// odd `k`, the property a partial butterfly rests on.
pub proof fn lemma_dct_row_symmetry(k: int, n: int)
    requires
        0 <= k < 32,
        0 <= n < 32,
    ensures
        dct_at(k, 31 - n) == if k % 2 == 0 {
            dct_at(k, n)
        } else {
            -dct_at(k, n)
        },
{
    if k != 0 {
        let a = ((2 * n + 1) * k) % 128;
        lemma_dct_angle(k, n);
        if k % 2 == 0 {
            if a != 0 {
                lemma_dct_cos_reflect(a);
            }
        } else {
            lemma_dct_cos_half(a);
        }
    }
}

/// Mirroring the column reflects the angle, in a full or a half period.
proof fn lemma_dct_angle(k: int, n: int)
    ensures
        ({
            let a = ((2 * n + 1) * k) % 128;
            let b = ((2 * (31 - n) + 1) * k) % 128;
            &&& 0 <= a < 128
            &&& k % 2 == 0 ==> b == (if a == 0 {
                0
            } else {
                128 - a
            })
            &&& k % 2 == 1 ==> a % 2 == 1 && b == (if a <= 64 {
                64 - a
            } else {
                192 - a
            })
        }),
{
    let p = (2 * n + 1) * k;
    let q = (2 * (31 - n) + 1) * k;
    let m = n * k;
    assert(p == 2 * m + k) by (nonlinear_arith)
        requires
            p == (2 * n + 1) * k,
            m == n * k,
    ;
    assert(q == 63 * k - 2 * m) by (nonlinear_arith)
        requires
            q == (2 * (31 - n) + 1) * k,
            m == n * k,
    ;
}

/// `cos(2π - t) = cos t` on the tabulated angles.
proof fn lemma_dct_cos_reflect(a: int)
    requires
        0 < a < 128,
    ensures
        dct_cos(128 - a) == dct_cos(a),
{
}

/// `cos(π - t) = -cos t` on the tabulated angles, away from the axes.
proof fn lemma_dct_cos_half(a: int)
    requires
        0 < a < 128,
        a % 2 == 1,
    ensures
        dct_cos(if a <= 64 {
            64 - a
        } else {
            192 - a
        }) == -dct_cos(a),
{
}

/// 4×4 DST-VII for intra luma 4×4 blocks (§8.6.4.2).
pub const DST4: [[i16; 4]; 4] = [
    [29, 55, 74, 84],
    [74, 74, 0, -74],
    [84, -29, -74, 55],
    [55, -84, 74, -29],
];

// ---- intra prediction ----

/// `intraPredAngle` by mode 2..=34 (Table 8-4); modes 0/1 are unused.
pub const INTRA_PRED_ANGLE: [i32; 35] = [
    0, 0, 32, 26, 21, 17, 13, 9, 5, 2, 0, -2, -5, -9, -13, -17, -21, -26, -32, -26, -21, -17, -13,
    -9, -5, -2, 0, 2, 5, 9, 13, 17, 21, 26, 32,
];

/// `invAngle` by mode 11..=25 (Table 8-5), indexed by `mode - 11`.
pub const INV_ANGLE: [i32; 15] = [
    -4096, -1638, -910, -630, -482, -390, -315, -256, -315, -390, -482, -630, -910, -1638, -4096,
];

// ---- quantisation and deblocking ----

/// `QpC` as a function of `qPi` for ChromaArrayType 1 (Table 8-10), qPi 0..=57.
pub const CHROMA_QP_420: [u8; 58] = [
    0, 1, 2, 3, 4, 5, 6, 7, 8, 9, 10, 11, 12, 13, 14, 15, 16, 17, 18, 19, 20, 21, 22, 23, 24, 25, 26,
    27, 28, 29, 29, 30, 31, 32, 33, 33, 34, 34, 35, 35, 36, 36, 37, 37, 38, 39, 40, 41, 42, 43, 44,
    45, 46, 47, 48, 49, 50, 51,
];

/// `levelScale[qP % 6]` (§8.6.3).
pub const LEVEL_SCALE: [i32; 6] = [40, 45, 51, 57, 64, 72];

/// Deblocking `β′` by Q (Table 8-12), Q 0..=51.
pub const BETA_TABLE: [u8; 52] = [
    0, 0, 0, 0, 0, 0, 0, 0, 0, 0, 0, 0, 0, 0, 0, 0, 6, 7, 8, 9, 10, 11, 12, 13, 14, 15, 16, 17, 18,
    20, 22, 24, 26, 28, 30, 32, 34, 36, 38, 40, 42, 44, 46, 48, 50, 52, 54, 56, 58, 60, 62, 64,
];

/// Deblocking `tC′` by Q (Table 8-12), Q 0..=53.
pub const TC_TABLE: [u8; 54] = [
    0, 0, 0, 0, 0, 0, 0, 0, 0, 0, 0, 0, 0, 0, 0, 0, 0, 0, 1, 1, 1, 1, 1, 1, 1, 1, 1, 2, 2, 2, 2, 3, 3,
    3, 3, 4, 4, 4, 5, 5, 6, 6, 7, 8, 9, 10, 11, 13, 14, 16, 18, 20, 22, 24,
];

/// `ctxIdxMap` for `sig_coeff_flag` in 4×4 blocks (§9.3.4.2.5), index `(yC << 2) + xC`.
pub const SIG_CTX_MAP_4X4: [u8; 16] = [0, 1, 4, 5, 2, 3, 4, 5, 6, 6, 8, 8, 7, 7, 8, 8];

} // verus!
