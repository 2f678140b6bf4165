use garnetash::transform::{
    dequantize, dequantize_ts, dequantize_ts_wh, dequantize_wh, fwd_transform, fwd_transform_mts_into,
    fwd_transform_wh, inv_transform, inv_transform_mts_into, inv_transform_mts_wh, inv_transform_wh,
    mts_to_types, quantize, quantize_ts, quantize_wh, satd, MAX_TB,
};

#[test]
fn mts_transforms_round_trip_and_zero_out() {
    let combos = [(0u8, 0u8), (1, 1), (2, 1), (1, 2), (2, 2)];
    for n in [4usize, 8, 16] {
        for &(th, tv) in &combos {
            let mut res = vec![0i32; n * n];
            let mut st = 0x1234_567u32;
            for r in res.iter_mut() {
                st = st.wrapping_mul(1_103_515_245).wrapping_add(12_345);
                *r = ((st >> 16) % 401) as i32 - 200;
            }
            let mut coeff = [0i32; MAX_TB];
            fwd_transform_mts_into(&mut coeff, &res, n, n, 8, th, tv);
            let mut rec = [0i32; MAX_TB];
            inv_transform_mts_into(&mut rec, &coeff, n, n, 8, th, tv);
            let sse: i64 = (0..n * n).map(|i| ((res[i] - rec[i]) as i64).pow(2)).sum();
            assert!(sse <= (n * n) as i64, "{n}x{n} tr=({th},{tv}) SSE={sse} too high");
        }
    }
    let res: Vec<i32> = (0..32 * 32).map(|i| ((i * 37 % 401) as i32) - 200).collect();
    let mut coeff = [0i32; MAX_TB];
    fwd_transform_mts_into(&mut coeff, &res, 32, 32, 8, 1, 1);
    for y in 0..32 {
        for x in 0..32 {
            if x >= 16 || y >= 16 {
                assert_eq!(coeff[y * 32 + x], 0, "coeff ({x},{y}) outside 16×16 not zeroed");
            }
        }
    }
}

#[test]
fn transform_skip_dequant_is_identity_at_lossless_qp() {
    let levels: Vec<i16> = (-300..=300).step_by(7).map(|v| v as i16).collect();
    let mut buf = [0i16; MAX_TB];
    buf[..levels.len()].copy_from_slice(&levels);
    let out = dequantize_ts(&buf, 16, 4);
    for (i, &l) in levels.iter().enumerate() {
        assert_eq!(out[i], l as i32, "level {l} not identity at QP4");
    }
}

#[test]
fn transform_64_preserves_flat_and_zeroes_high_frequency() {
    let flat = vec![37i32; 64 * 64];
    let coeff = fwd_transform(&flat, 64, 8);
    for y in 0..64 {
        for x in 0..64 {
            if x >= 32 || y >= 32 {
                assert_eq!(coeff[y * 64 + x], 0, "coeff ({x},{y}) not zeroed");
            }
        }
    }
    let rec = inv_transform(&coeff, 64, 8);
    for (i, &r) in rec[..64 * 64].iter().enumerate() {
        assert_eq!(r, 37, "flat sample {i} = {r}");
    }
}

#[test]
fn rect_transform_matches_square_for_square_sizes() {
    let mut seed = 0x51ed_u32;
    let mut next = || {
        seed = seed.wrapping_mul(1664525).wrapping_add(1013904223);
        (seed >> 8) as i32 % 200 - 100
    };
    for &n in &[4usize, 8, 16, 32, 64] {
        let res: Vec<i32> = (0..n * n).map(|_| next()).collect();
        let sq = fwd_transform(&res, n, 8);
        let rect = fwd_transform_wh(&res, n, n, 8);
        assert_eq!(&sq[..n * n], &rect[..n * n], "fwd n={n}");
        let isq = inv_transform(&sq, n, 8);
        let irect = inv_transform_wh(&rect, n, n, 8);
        assert_eq!(&isq[..n * n], &irect[..n * n], "inv n={n}");
        let qsq = quantize(&sq, n, 26, 8);
        let qr = quantize_wh(&rect, n, n, 26, 8);
        assert_eq!(&qsq[..n * n], &qr[..n * n], "quant n={n}");
        let dsq = dequantize(&qsq, n, 26, 8);
        let dr = dequantize_wh(&qr, n, n, 26, 8);
        assert_eq!(&dsq[..n * n], &dr[..n * n], "dequant n={n}");
    }
}

#[test]
fn rect_transform_preserves_flat_block() {
    for &(w, h) in &[(4usize, 8usize), (8, 4), (8, 16), (16, 8), (16, 32), (32, 64), (32, 16)] {
        let flat = vec![29i32; w * h];
        let coeff = fwd_transform_wh(&flat, w, h, 8);
        let rec = inv_transform_wh(&coeff, w, h, 8);
        for (i, &r) in rec[..w * h].iter().enumerate() {
            assert_eq!(r, 29, "flat {w}x{h} sample {i} = {r}");
        }
    }
}

#[test]
fn rect_quant_round_trips_to_grid() {
    for &(w, h) in &[(4usize, 8usize), (8, 16), (16, 32)] {
        for &qp in &[18u8, 27, 37] {
            let mut seed = 0xa5a5_u32 ^ (w as u32) ^ ((h as u32) << 8) ^ ((qp as u32) << 16);
            let mut next = || {
                seed = seed.wrapping_mul(1664525).wrapping_add(1013904223);
                (seed >> 9) as i32 % 80 - 40
            };
            let res: Vec<i32> = (0..w * h).map(|_| next()).collect();
            let coeff = fwd_transform_wh(&res, w, h, 8);
            let lv = quantize_wh(&coeff[..w * h], w, h, qp, 8);
            let deq = dequantize_wh(&lv, w, h, qp, 8);
            let lv2 = quantize_wh(&deq[..w * h], w, h, qp, 8);
            assert_eq!(&lv[..w * h], &lv2[..w * h], "unstable {w}x{h} qp{qp}");
        }
    }
}

#[test]
fn satd_of_zero_residual_is_zero() {
    for &n in &[8usize, 16, 32] {
        assert_eq!(satd(&vec![0i32; n * n], n), 0);
    }
}

#[test]
fn satd_of_constant_residual_equals_dc_energy() {
    for &n in &[8usize, 16, 32] {
        let k = 7;
        let got = satd(&vec![k; n * n], n);
        let tiles = (n / 8) * (n / 8);
        assert_eq!(got, (64 * k.unsigned_abs() as i64) * tiles as i64);
    }
}

#[test]
fn satd_is_nonnegative_and_sign_symmetric() {
    let mut res = vec![0i32; 64];
    for (i, v) in res.iter_mut().enumerate() {
        *v = ((i as i32 * 37) % 71) - 35;
    }
    let s = satd(&res, 8);
    assert!(s > 0);
    let neg: Vec<i32> = res.iter().map(|&v| -v).collect();
    assert_eq!(satd(&neg, 8), s, "SATD must be sign-symmetric");
}

fn round_trip_block(input: &[i32], n: usize, qp: u8, bd: u8) -> Vec<i32> {
    let coeff = fwd_transform(input, n, bd);
    let level = quantize(&coeff[..n * n], n, qp, bd);
    let deq = dequantize(&level[..n * n], n, qp, bd);
    let rec = inv_transform(&deq[..n * n], n, bd);
    rec[..n * n].to_vec()
}

#[test]
fn dc_only_block_is_flat_after_round_trip() {
    for &n in &[4usize, 8, 16, 32] {
        let input = vec![40i32; n * n];
        let rec = round_trip_block(&input, n, 8, 8);
        let mn = *rec.iter().min().unwrap();
        let mx = *rec.iter().max().unwrap();
        assert!(mx - mn <= 1, "n={n} not flat: {mn}..{mx}");
        assert!((rec[0] - 40).abs() <= 3, "n={n} dc off: {}", rec[0]);
    }
}

#[test]
fn lossless_at_qp4_small_signals() {
    for &n in &[4usize, 8, 16] {
        let mut input = vec![0i32; n * n];
        for (i, v) in input.iter_mut().enumerate() {
            *v = ((i as i32 * 7) % 11) - 5;
        }
        let rec = round_trip_block(&input, n, 4, 8);
        let max_err = input.iter().zip(&rec).map(|(a, b)| (a - b).abs()).max().unwrap();
        assert!(max_err <= 2, "n={n} qp4 max_err={max_err}");
    }
}

#[test]
fn error_grows_with_qp_but_stays_bounded() {
    let n = 16;
    let mut input = vec![0i32; n * n];
    for (i, v) in input.iter_mut().enumerate() {
        *v = (((i * 131 + 7) % 200) as i32) - 100;
    }
    let mut prev = 0;
    for &qp in &[10u8, 22, 37, 51] {
        let rec = round_trip_block(&input, n, qp, 8);
        let max_err = input.iter().zip(&rec).map(|(a, b)| (a - b).abs()).max().unwrap();
        let bound = 4 + (1i32 << (qp as i32 / 6));
        assert!(max_err <= bound, "qp={qp} err={max_err} bound={bound}");
        prev = prev.max(max_err);
    }
    assert!(prev > 0);
}

#[test]
fn transform_normalization_reconstructs_without_quant() {
    for &n in &[4usize, 8, 16, 32] {
        let c = 50i32;
        let coeff = fwd_transform(&vec![c; n * n], n, 8);
        assert!(coeff[0] > 0, "n={n} DC should be positive");
        assert!(coeff[1..n * n].iter().all(|&x| x.abs() <= 1), "n={n} AC not ~0");
        let rec = inv_transform(&coeff[..n * n], n, 8);
        assert!(rec[..n * n].iter().all(|&v| (v - c).abs() <= 2), "n={n} not reconstructed");
    }
}

#[test]
fn high_bit_depth_round_trip() {
    let n = 8;
    let input: Vec<i32> = (0..n * n).map(|i| ((i as i32 * 53) % 800) - 400).collect();
    let rec = round_trip_block(&input, n, 16, 10);
    let max_err = input.iter().zip(&rec).map(|(a, b)| (a - b).abs()).max().unwrap();
    assert!(max_err <= 4 + (1 << (16 / 6)), "10-bit err={max_err}");
}

#[test]
fn fwd_wh_64_zeroes_highfreq() {
    let mut res = vec![0i32; 64 * 64];
    let mut s = 1u64;
    for v in res.iter_mut() {
        s ^= s << 13;
        s ^= s >> 7;
        s ^= s << 17;
        *v = (s & 0xff) as i32 - 128;
    }
    let out = fwd_transform_wh(&res, 64, 64, 8);
    let mut bad = 0;
    for y in 0..64 {
        for x in 0..64 {
            if (x >= 32 || y >= 32) && out[y * 64 + x] != 0 {
                bad += 1;
            }
        }
    }
    let lv = quantize_wh(&out[..64 * 64], 64, 64, 38, 8);
    let mut badq = 0;
    for y in 0..64 {
        for x in 0..64 {
            if (x >= 32 || y >= 32) && lv[y * 64 + x] != 0 {
                badq += 1;
            }
        }
    }
    assert_eq!(bad, 0, "fwd_transform_wh leaves {} high-freq nonzero", bad);
    assert_eq!(badq, 0, "quantize_wh leaves {} high-freq nonzero", badq);
}

#[test]
fn mts_index_maps_to_type_pairs() {
    assert_eq!(mts_to_types(0), (0, 0));
    assert_eq!(mts_to_types(1), (1, 1));
    assert_eq!(mts_to_types(2), (2, 1));
    assert_eq!(mts_to_types(3), (1, 2));
    assert_eq!(mts_to_types(4), (2, 2));
}

#[test]
fn mts_wh_matches_explicit_types() {
    let res: Vec<i32> = (0..8 * 16).map(|i| ((i * 29 % 151) as i32) - 75).collect();
    for idx in 0u8..5 {
        let (th, tv) = mts_to_types(idx);
        let mut coeff = [0i32; MAX_TB];
        fwd_transform_mts_into(&mut coeff, &res, 8, 16, 8, th, tv);
        let a = inv_transform_mts_wh(&coeff, 8, 16, 8, idx);
        let mut b = [0i32; MAX_TB];
        inv_transform_mts_into(&mut b, &coeff, 8, 16, 8, th, tv);
        assert_eq!(&a[..128], &b[..128]);
    }
}

#[test]
fn dc_coefficient_of_flat_4x4_exact() {
    // shift1 = 2 + 8 - 9 = 1, shift2 = 8: row sums 4·64·10 = 2560 -> 1280;
    // column 4·64·1280 = 327680 -> (327680 + 128) >> 8 = 1280.
    let coeff = fwd_transform(&[10i32; 16], 4, 8);
    assert_eq!(coeff[0], 1280);
    assert!(coeff[1..16].iter().all(|&c| c == 0));
}

#[test]
fn quantize_formula_exact_value() {
    // 4×4, qp 22, 8-bit: q_bits = 14 + 3 + (15 - 8 - 2) = 22, scale 16384,
    // offset 171 << 13. |−1000|·16384 + 1400832 = 17784832 >> 22 = 4.
    let lv = quantize(&[1000, -1000, 0, 5], 4, 22, 8);
    assert_eq!(&lv[..4], &[4, -4, 0, 0]);
    assert!(lv[4..].iter().all(|&v| v == 0));
}

#[test]
fn dequantize_formula_exact_value() {
    // 4×4, qp 22, 8-bit: bd_shift = 8 + 2 - 5 = 5, factor 64·8·16 = 8192:
    // (3·8192 + 16) >> 5 = 768.
    let c = dequantize(&[3, -3, 0], 4, 22, 8);
    assert_eq!(&c[..3], &[768, -768, 0]);
}

#[test]
fn transform_skip_quant_round_trip_at_qp4() {
    let res: Vec<i32> = (0..16).map(|i| i * 3 - 20).collect();
    let lv = quantize_ts(&res, 4, 4);
    let back = dequantize_ts_wh(&lv, 4, 4, 4);
    assert_eq!(&back[..16], &res[..]);
}
