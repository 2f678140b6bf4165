use garnetash::cabac::contexts::Contexts;
use garnetash::cabac::engine::{CabacDecoder, CabacEncoder};
use garnetash::residual::{
    decode_residual, diag_scan, encode_residual, last_sig_scan_pos, lfnst_present, mts_signallable, scan_coords,
    Component,
};
use garnetash::transform::{dequantize_dq_wh, dequantize_wh, DEQUANT_SCALE};

fn round_trip(coeff: &[i32], w: usize, h: usize, qp: u8) -> Vec<i32> {
    let mut enc = CabacEncoder::new();
    let mut ectx = Contexts::new_intra(qp);
    encode_residual(&mut enc, &mut ectx, coeff, w, h, Component::Luma, false);
    enc.encode_terminate(1);
    let bytes = enc.finish();
    let mut dec = CabacDecoder::new(&bytes);
    let mut dctx = Contexts::new_intra(qp);
    let got = decode_residual(&mut dec, &mut dctx, w, h, Component::Luma, false);
    assert_eq!(dec.decode_terminate(), 1, "terminate mismatch");
    got
}

#[test]
fn diag_scan_4x4_is_canonical() {
    let s = diag_scan(4, 4);
    assert_eq!(s[0], (0, 0));
    assert_eq!(s[1], (0, 1));
    assert_eq!(s[2], (1, 0));
    assert_eq!(s.len(), 16);
    let mut seen = vec![false; 16];
    for &(x, y) in &s {
        seen[y * 4 + x] = true;
    }
    assert!(seen.iter().all(|&b| b));
}

#[test]
fn single_dc_round_trips() {
    for &n in &[4usize, 8, 16, 32] {
        let mut c = vec![0i32; n * n];
        c[0] = 7;
        assert_eq!(round_trip(&c, n, n, 32), c, "n={n}");
    }
}

#[test]
fn small_blocks_round_trip() {
    for &n in &[4usize, 8] {
        let mut c = vec![0i32; n * n];
        c[0] = 5;
        c[1] = -2;
        c[n] = 1;
        c[n + 1] = -9;
        c[2] = 3;
        assert_eq!(round_trip(&c, n, n, 30), c, "n={n}");
    }
}

#[test]
fn rectangular_blocks_round_trip() {
    let mut seed = 0x4221_d00du32;
    let mut next = || {
        seed = seed.wrapping_mul(1664525).wrapping_add(1013904223);
        seed
    };
    for &(w, h) in &[(4usize, 8usize), (8, 16), (16, 32), (32, 64), (8, 4), (16, 8)] {
        let (cw, ch) = (w.min(32), h.min(32));
        for &qp in &[16u8, 30, 45] {
            let mut c = vec![0i32; w * h];
            let mut any = false;
            for y in 0..ch {
                for x in 0..cw {
                    if next() % 100 < 30 {
                        let mag = (next() % 80 + 1) as i32;
                        c[y * w + x] = if next() & 1 == 0 { mag } else { -mag };
                        any = true;
                    }
                }
            }
            if !any {
                c[0] = 1;
            }
            let got = round_trip(&c, w, h, qp);
            assert_eq!(got, c, "{w}x{h} qp{qp}");
        }
    }
}

#[test]
fn zeroed_64x64_block_round_trips() {
    let mut seed = 0x0bad_f00du32;
    let mut next = || {
        seed = seed.wrapping_mul(1664525).wrapping_add(1013904223);
        seed
    };
    for &qp in &[10u8, 32, 51] {
        for _ in 0..6 {
            let mut c = vec![0i32; 64 * 64];
            let mut any = false;
            for y in 0..32 {
                for x in 0..32 {
                    if next() % 100 < 25 {
                        let mag = (next() % 90 + 1) as i32;
                        c[y * 64 + x] = if next() & 1 == 0 { mag } else { -mag };
                        any = true;
                    }
                }
            }
            if !any {
                c[0] = 1;
            }
            let got = round_trip(&c, 64, 64, qp);
            assert_eq!(got, c, "qp={qp}");
            for y in 0..64 {
                for x in 0..64 {
                    if x >= 32 || y >= 32 {
                        assert_eq!(got[y * 64 + x], 0);
                    }
                }
            }
        }
    }
}

#[test]
fn pseudo_random_blocks_round_trip() {
    let mut seed = 0x1234_5678u32;
    let mut next = || {
        seed = seed.wrapping_mul(1664525).wrapping_add(1013904223);
        seed
    };
    for &n in &[4usize, 8, 16, 32] {
        for &qp in &[10u8, 32, 51] {
            for _ in 0..8 {
                let mut c = vec![0i32; n * n];
                let mut any = false;
                for v in c.iter_mut() {
                    if next() % 100 < 35 {
                        let mag = (next() % 120 + 1) as i32;
                        *v = if next() & 1 == 0 { mag } else { -mag };
                        any = true;
                    }
                }
                if !any {
                    c[0] = 1;
                }
                let got = round_trip(&c, n, n, qp);
                assert_eq!(got, c, "n={n} qp={qp}");
            }
        }
    }
}

#[test]
fn dense_high_magnitude_block_round_trips() {
    let n = 8;
    let mut c = vec![0i32; n * n];
    for (i, v) in c.iter_mut().enumerate() {
        *v = (((i * 37) % 90) as i32) - 45;
    }
    c[0] = 100;
    assert_eq!(round_trip(&c, n, n, 37), c);
}

#[test]
fn large_levels_round_trip_through_escape_codes() {
    let n = 4;
    let mut c = vec![0i32; n * n];
    c[0] = 70_000;
    c[1] = -5_000;
    c[4] = 300;
    assert_eq!(round_trip(&c, n, n, 30), c);
}

#[test]
fn dependent_quant_levels_round_trip() {
    let (w, h) = (8usize, 8usize);
    let mut c = vec![0i32; w * h];
    for (i, v) in c.iter_mut().enumerate() {
        *v = ((i as i32 * 7) % 9) - 4;
    }
    let mut enc = CabacEncoder::new();
    let mut ectx = Contexts::new_intra(27);
    encode_residual(&mut enc, &mut ectx, &c, w, h, Component::Luma, true);
    enc.encode_terminate(1);
    let bytes = enc.finish();
    let mut dec = CabacDecoder::new(&bytes);
    let mut dctx = Contexts::new_intra(27);
    let got = decode_residual(&mut dec, &mut dctx, w, h, Component::Luma, true);
    assert_eq!(dec.decode_terminate(), 1);
    assert_eq!(got, c);
}

#[test]
fn chroma_blocks_round_trip() {
    for &(w, h) in &[(4usize, 4usize), (8, 8), (16, 16), (32, 32)] {
        let mut c = vec![0i32; w * h];
        c[0] = -3;
        c[w + 1] = 2;
        c[(h - 1) * w + w - 1] = 1;
        let mut enc = CabacEncoder::new();
        let mut ectx = Contexts::new_intra(32);
        encode_residual(&mut enc, &mut ectx, &c, w, h, Component::Cb, false);
        enc.encode_terminate(1);
        let bytes = enc.finish();
        let mut dec = CabacDecoder::new(&bytes);
        let mut dctx = Contexts::new_intra(32);
        let got = decode_residual(&mut dec, &mut dctx, w, h, Component::Cb, false);
        assert_eq!(dec.decode_terminate(), 1);
        assert_eq!(got, c, "{w}x{h}");
    }
}

#[test]
fn scan_coords_is_grouped_diagonal() {
    let s = scan_coords(8, 8);
    assert_eq!(s.len(), 64);
    assert_eq!(&s[..3], &[(0, 0), (0, 1), (1, 0)]);
    // The second group of an 8×8 block is the one below the first.
    assert_eq!(s[16], (0, 4));
    assert_eq!(scan_coords(64, 64).len(), 1024);
}

#[test]
fn last_position_and_signalling_queries() {
    let mut c = vec![0i32; 16];
    assert_eq!(last_sig_scan_pos(&c, 4, 4, Component::Luma), -1);
    c[0] = 3;
    assert_eq!(last_sig_scan_pos(&c, 4, 4, Component::Luma), 0);
    assert!(!mts_signallable(&c, 4, 4));
    c[1] = 1;
    assert_eq!(last_sig_scan_pos(&c, 4, 4, Component::Luma), 2);
    assert!(mts_signallable(&c, 4, 4));
    assert!(lfnst_present(true, 4, 4, (&c, false), None));
    assert!(!lfnst_present(false, 4, 4, (&c, false), None));
    assert!(!lfnst_present(true, 4, 4, (&c, true), None));
    c[15] = 1;
    assert!(!lfnst_present(true, 4, 4, (&c, false), None), "last position past 7 in a 4x4");
}

#[test]
fn dq_dequant_state0_matches_scalar() {
    let (w, h) = (8usize, 8usize);
    let scan = scan_coords(w, h);
    let avg = 3i64;
    let bd_shift = 8i64 + avg - 5;
    for &qp in &[12u8, 22, 28, 37, 42] {
        let qp_dq = qp as i64 + 1;
        let scale = DEQUANT_SCALE[(qp_dq % 6) as usize];
        let factor = scale * (1i64 << (qp_dq / 6)) * 16;
        let add = 1i64 << bd_shift;
        for &lvl in &[1i32, 2, 3, 7, -5, 19] {
            let mut dq_lv = [0i32; 64];
            dq_lv[0] = lvl;
            let dq = dequantize_dq_wh(&dq_lv, &scan, w, h, qp, 8);
            let expect = ((2 * lvl as i64 * factor + add) >> (bd_shift + 1)).clamp(-32768, 32767) as i32;
            assert_eq!(dq[0], expect, "qp{qp} lvl{lvl}");
        }
    }
}

#[test]
fn dq_dequant_tracks_state() {
    let (w, h) = (4usize, 4usize);
    let scan = scan_coords(w, h);
    let (x1, y1) = scan[1];
    let (x0, y0) = scan[0];
    let mut lv = [0i32; 16];
    lv[y1 * w + x1] = 3;
    lv[y0 * w + x0] = 4;
    let qp = 28u8;
    let dq = dequantize_dq_wh(&lv, &scan, w, h, qp, 8);
    let mut sc_lv = [0i16; 16];
    sc_lv[y0 * w + x0] = 4;
    let sc = dequantize_wh(&sc_lv, w, h, qp, 8);
    assert!(
        dq[y0 * w + x0].unsigned_abs() < sc[y0 * w + x0].unsigned_abs(),
        "Q1 should shift DC down: dq={} sc={}",
        dq[y0 * w + x0],
        sc[y0 * w + x0]
    );
    assert!(dq[y0 * w + x0] > 0, "sign preserved");
}

#[test]
fn even_levels_code_alike_with_dependent_quantization() {
    let mut c = vec![0i32; 64];
    c[0] = 12;
    c[1] = -4;
    c[8] = 2;
    c[9] = -18;
    c[17] = 6;
    c[63] = 0;
    let mut e1 = CabacEncoder::new();
    let mut c1 = Contexts::new_intra(27);
    encode_residual(&mut e1, &mut c1, &c, 8, 8, Component::Luma, true);
    let mut e2 = CabacEncoder::new();
    let mut c2 = Contexts::new_intra(27);
    encode_residual(&mut e2, &mut c2, &c, 8, 8, Component::Luma, false);
    e1.encode_terminate(1);
    e2.encode_terminate(1);
    assert_eq!(e1.finish(), e2.finish());
}
