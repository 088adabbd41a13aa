use rusty_h265::tables::{
    build_dct32, diag_scan, horiz_scan, scan_order, vert_scan, BETA_TABLE, CHROMA_QP_420,
    INTRA_PRED_ANGLE, INV_ANGLE, TC_TABLE,
};

#[test]
fn diag_scan_matches_spec_order() {
    let diag_4x4 = diag_scan(4);
    let diag_2x2 = diag_scan(2);
    let diag_8x8 = diag_scan(8);
    let horiz_8x8 = horiz_scan(8);
    let vert_8x8 = vert_scan(8);
    assert_eq!(&diag_4x4[..6], &[(0, 0), (0, 1), (1, 0), (0, 2), (1, 1), (2, 0)]);
    assert_eq!(diag_4x4[15], (3, 3));
    assert_eq!(&diag_2x2[..], &[(0, 0), (0, 1), (1, 0), (1, 1)]);
    assert_eq!(diag_8x8[63], (7, 7));
    // permutation checks
    for s in [&diag_8x8[..], &horiz_8x8[..], &vert_8x8[..]] {
        let mut seen = [false; 64];
        for &(x, y) in s {
            assert!(!seen[(y as usize) * 8 + x as usize]);
            seen[(y as usize) * 8 + x as usize] = true;
        }
    }
}

#[test]
fn dct_matrix_has_the_spec_sub_matrices() {
    let dct32 = build_dct32();
    // 4-point: rows 0, 8, 16, 24
    assert_eq!(&dct32[0][..4], &[64, 64, 64, 64]);
    assert_eq!(&dct32[8][..4], &[83, 36, -36, -83]);
    assert_eq!(&dct32[16][..4], &[64, -64, -64, 64]);
    assert_eq!(&dct32[24][..4], &[36, -83, 83, -36]);
    // 8-point row 1 = row 4
    assert_eq!(&dct32[4][..8], &[89, 75, 50, 18, -18, -50, -75, -89]);
    // 16-point row 1 = row 2
    assert_eq!(
        &dct32[2][..16],
        &[90, 87, 80, 70, 57, 43, 25, 9, -9, -25, -43, -57, -70, -80, -87, -90]
    );
    // 32-point row 1
    assert_eq!(&dct32[1][..8], &[90, 90, 88, 85, 82, 78, 73, 67]);
    assert_eq!(dct32[1][31], -90);
    assert_eq!(dct32[31][0], 4);
    assert_eq!(dct32[31][1], -13);
    // near-orthogonality: every row has energy ≈ 32·64²
    for k in 0..32 {
        let e: i64 = dct32[k].iter().map(|&v| (v as i64) * (v as i64)).sum();
        assert!((e - 32 * 64 * 64).abs() < 32 * 64 * 64 / 50, "row {k} energy {e}");
    }
    for k in 1..32 {
        let dot: i64 = (0..32).map(|n| dct32[0][n] as i64 * dct32[k][n] as i64).sum();
        assert!(dot.abs() <= 64 * 4, "row {k} not orthogonal to DC: {dot}");
    }
}

#[test]
fn misc_tables() {
    assert_eq!(INTRA_PRED_ANGLE[10], 0);
    assert_eq!(INTRA_PRED_ANGLE[26], 0);
    assert_eq!(INTRA_PRED_ANGLE[2], 32);
    assert_eq!(INTRA_PRED_ANGLE[18], -32);
    assert_eq!(INV_ANGLE[18 - 11], -256);
    assert_eq!(CHROMA_QP_420[29], 29);
    assert_eq!(CHROMA_QP_420[30], 29);
    assert_eq!(CHROMA_QP_420[43], 37);
    assert_eq!(CHROMA_QP_420[44], 38);
    assert_eq!(CHROMA_QP_420[57], 51);
    assert_eq!(BETA_TABLE[51], 64);
    assert_eq!(TC_TABLE[53], 24);
}

#[test]
fn scan_order_picks_by_size_and_index() {
    assert_eq!(scan_order(2, 0), diag_scan(4));
    assert_eq!(scan_order(3, 1), horiz_scan(8));
    assert_eq!(scan_order(3, 2), vert_scan(8));
    assert_eq!(&scan_order(1, 1)[..], &[(0, 0), (1, 0), (0, 1), (1, 1)]);
    assert_eq!(&scan_order(1, 2)[..], &[(0, 0), (0, 1), (1, 0), (1, 1)]);
    assert_eq!(&scan_order(0, 0)[..], &[(0, 0)]);
}

#[test]
fn dct_rows_are_even_or_odd() {
    let m = build_dct32();
    for k in 0..32 {
        for n in 0..32 {
            let mirrored = m[k][31 - n];
            assert_eq!(m[k][n], if k % 2 == 0 { mirrored } else { -mirrored });
        }
    }
}
