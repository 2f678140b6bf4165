use garnetash::lfnst::{
    apply_fwd_lfnst, apply_inv_lfnst, fwd_lfnst_nxn, inv_lfnst_nxn, lfnst_intra_mode, lfnst_scan_coords, lfnst_set,
    lfnst_transpose, LfnstKernels,
};

/// Kernels whose kernel `(set, idx)` is `scale` times the identity on its
/// first 16 columns; every mode maps to set `mode % 4`.
fn diagonal_kernels(scale: i8) -> LfnstKernels {
    let mut k4 = vec![0i8; 2048];
    let mut k8 = vec![0i8; 6144];
    for m in 0..8 {
        for j in 0..16 {
            k4[(m * 16 + j) * 16 + j] = scale;
            k8[(m * 16 + j) * 48 + j] = scale;
        }
    }
    let lut = (0..95u8).map(|m| m % 4).collect();
    LfnstKernels { lut, k4, k8 }
}

#[test]
fn intra_mode_remap_and_transpose() {
    assert_eq!(lfnst_intra_mode(-1), 80);
    assert_eq!(lfnst_intra_mode(-14), 67);
    assert_eq!(lfnst_intra_mode(0), 0);
    assert_eq!(lfnst_intra_mode(66), 66);
    assert_eq!(lfnst_intra_mode(67), 81);
    assert_eq!(lfnst_intra_mode(80), 94);
    assert!(!lfnst_transpose(34));
    assert!(lfnst_transpose(35));
    assert!(lfnst_transpose(66));
    assert!(!lfnst_transpose(67));
    assert!(!lfnst_transpose(80));
    assert!(lfnst_transpose(81));
    assert!(!lfnst_transpose(2));
}

#[test]
fn set_comes_from_the_table() {
    let k = diagonal_kernels(64);
    assert_eq!(lfnst_set(&k, 0), 0);
    assert_eq!(lfnst_set(&k, 7), 3);
    assert_eq!(lfnst_set(&k, 94), 2);
}

#[test]
fn forward_rounds_by_seven_bits() {
    let k = diagonal_kernels(64);
    let src: Vec<i32> = (0..48).map(|i| i * 3 - 20).collect();
    let out = fwd_lfnst_nxn(&src, &k, 1, 0, 4, 8);
    for j in 0..48 {
        let expect = if j < 8 { ((src[j] as i64 * 64 + 64) >> 7) as i32 } else { 0 };
        assert_eq!(out[j], expect, "j={j}");
    }
    let out = fwd_lfnst_nxn(&src, &k, 2, 1, 8, 16);
    assert_eq!(out[0], -10);
    assert_eq!(out[1], -8);
    assert_eq!(out[15], 13);
    assert_eq!(out[16], 0);
}

#[test]
fn inverse_clamps_to_dynamic_range() {
    let k = diagonal_kernels(127);
    let src = vec![1000, -1000, 3, -3, 0, 0, 0, 0];
    let out = inv_lfnst_nxn(&src, &k, 0, 0, 4, 8, 6);
    assert_eq!(out[0], 63);
    assert_eq!(out[1], -64);
    assert_eq!(out[2], 3);
    assert_eq!(out[3], -3);
    assert!(out[16..].iter().all(|&v| v == 0));
    let out = inv_lfnst_nxn(&src, &k, 0, 0, 8, 8, 15);
    assert_eq!(out[0], 992);
    assert_eq!(out[1], -992);
    assert_eq!(out.len(), 48);
}

#[test]
fn scan_coords_cover_the_l_shape() {
    let s4 = lfnst_scan_coords(4, 4, 4);
    assert_eq!(s4.len(), 16);
    assert_eq!(&s4[..3], &[(0, 0), (0, 1), (1, 0)]);
    let s8 = lfnst_scan_coords(8, 16, 16);
    assert_eq!(s8.len(), 48);
    assert_eq!(s8[16], (0, 4));
    assert_eq!(s8[32], (4, 0));
    assert_eq!(s8[47], (7, 3));
    let mut seen = vec![false; 64];
    for &(x, y) in &s8 {
        assert!(!seen[y * 8 + x]);
        seen[y * 8 + x] = true;
    }
    // the bottom-right quadrant is not part of the L-shape
    assert!(!seen[4 * 8 + 4]);
}

#[test]
fn forward_zeroes_outside_the_scan() {
    let k = diagonal_kernels(64);
    let (w, h) = (16usize, 16usize);
    let mut coeff: Vec<i32> = (0..(w * h) as i32).map(|i| i % 13 - 6).collect();
    let orig = coeff.clone();
    apply_fwd_lfnst(&mut coeff, &k, w, h, 10, 1);
    let scan = lfnst_scan_coords(8, w, h);
    for (p, &v) in coeff.iter().enumerate() {
        let (x, y) = (p % w, p / w);
        match scan.iter().position(|&q| q == (x, y)) {
            Some(kk) if kk < 16 => {
                // identity kernel rows: output k is the k-th gathered entry, halved
                let g = orig[(kk / 8) * w + kk % 8];
                assert_eq!(v, (g * 64 + 64) >> 7, "scan entry {kk}");
            }
            _ => assert_eq!(v, 0, "({x},{y})"),
        }
    }
}

#[test]
fn inverse_writes_only_the_l_shape() {
    let k = diagonal_kernels(127);
    let (w, h) = (8usize, 8usize);
    let mut coeff = vec![5i32; w * h];
    apply_inv_lfnst(&mut coeff, &k, w, h, 40, 2, 15);
    // mode 40 transposes: entry j (j < 16) lands at column j / 8, row j % 8
    for j in 0..16 {
        let (x, y) = (j / 8, j % 8);
        let expect = if j < 8 { (5 * 127 + 64) >> 7 } else { 0 };
        assert_eq!(coeff[y * w + x], expect, "entry {j}");
    }
    // the bottom-right quadrant is untouched
    assert_eq!(coeff[7 * w + 7], 5);
    assert_eq!(coeff[4 * w + 4], 5);
}
