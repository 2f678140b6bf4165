use garnetash::cabac::contexts::Contexts;
use garnetash::cabac::engine::{CabacDecoder, CabacEncoder};
use garnetash::residual::{
    dec_derive_mod_coeff, decode_residual_ts, derive_mod_coeff, encode_residual_ts, gt1_ctx_offset_ts, rice_param_ts,
    sig_ctx_offset_ts, sign_ctx_offset_ts, ts_dequant_lossless, LOSSLESS_QP,
};

fn roundtrip_b(block: &[i32], w: usize, h: usize, bdpcm: bool) {
    let mut enc = CabacEncoder::new();
    let mut ectx = Contexts::new_intra(LOSSLESS_QP);
    encode_residual_ts(&mut enc, &mut ectx, block, w, h, bdpcm);
    enc.encode_terminate(1);
    let bytes = enc.finish();
    let mut dec = CabacDecoder::new(&bytes);
    let mut dctx = Contexts::new_intra(LOSSLESS_QP);
    let out = decode_residual_ts(&mut dec, &mut dctx, w, h, bdpcm);
    assert_eq!(dec.decode_terminate(), 1, "terminate mismatch for {w}x{h}");
    assert_eq!(out, block, "TSRC round-trip mismatch for {w}x{h} bdpcm={bdpcm}");
}

fn roundtrip(block: &[i32], w: usize, h: usize) {
    roundtrip_b(block, w, h, false);
    roundtrip_b(block, w, h, true);
}

#[test]
fn tsrc_round_trip_diverse_blocks() {
    let mut state = 0x9e3779b9u32;
    let mut next = || {
        state ^= state << 13;
        state ^= state >> 17;
        state ^= state << 5;
        state
    };
    for &(w, h) in &[(4usize, 4usize), (8, 8), (16, 16), (32, 32)] {
        for trial in 0..6 {
            let mut block = vec![0i32; w * h];
            for v in block.iter_mut() {
                let r = next();
                *v = match trial {
                    0 => (r % 511) as i32 - 255,
                    1 => (r % 7) as i32 - 3,
                    2 => ((r % 2) as i32) * ((r >> 4 & 1) as i32 * 2 - 1) * 255,
                    3 => (r % 3) as i32 - 1,
                    4 => (r as i32 % 21) - 10,
                    _ => (r % 101) as i32 - 50,
                };
            }
            if block.iter().all(|&v| v == 0) {
                block[0] = 1;
            }
            roundtrip(&block, w, h);
        }
    }
}

#[test]
fn tsrc_round_trip_boundary_levels() {
    for &(w, h) in &[(4usize, 4usize), (8, 8)] {
        let mut block = vec![0i32; w * h];
        for (i, v) in block.iter_mut().enumerate() {
            *v = if i % 2 == 0 { 200 } else { -173 };
        }
        roundtrip(&block, w, h);
    }
}

#[test]
fn ts_dequant_is_identity_at_lossless_qp() {
    for level in -512..=512 {
        assert_eq!(ts_dequant_lossless(level), level, "level {level}");
    }
}

#[test]
fn mod_coeff_remap_is_exactly_invertible() {
    for right in -8..=8 {
        for below in -8..=8 {
            for abs_coeff in 1..=20 {
                let coded = derive_mod_coeff(right, below, abs_coeff);
                assert!(coded >= 1, "coded level must stay significant");
                let back = dec_derive_mod_coeff(right, below, coded);
                assert_eq!(back, abs_coeff, "right={right} below={below} abs={abs_coeff}");
            }
        }
    }
    assert_eq!(derive_mod_coeff(0, 0, 0), 0);
    assert_eq!(dec_derive_mod_coeff(0, 0, 0), 0);
}

#[test]
fn sig_and_gt1_context_offsets() {
    assert_eq!(sig_ctx_offset_ts(false, false), 0);
    assert_eq!(sig_ctx_offset_ts(true, false), 1);
    assert_eq!(sig_ctx_offset_ts(true, true), 2);
    assert_eq!(gt1_ctx_offset_ts(true, true, false), 2);
    assert_eq!(gt1_ctx_offset_ts(false, false, true), 3);
}

#[test]
fn sign_context_offsets_match_spec() {
    assert_eq!(sign_ctx_offset_ts(0, 0, false), 0);
    assert_eq!(sign_ctx_offset_ts(3, -2, false), 0);
    assert_eq!(sign_ctx_offset_ts(3, 2, false), 1);
    assert_eq!(sign_ctx_offset_ts(-3, -2, false), 2);
    assert_eq!(sign_ctx_offset_ts(-3, -2, true), 5);
}

#[test]
fn lossless_pipeline_reconstructs_source_exactly() {
    for pred in [0i32, 1, 64, 127, 200, 255] {
        for src in 0..=255i32 {
            let level = src - pred;
            let recon = pred + ts_dequant_lossless(level);
            assert_eq!(recon, src, "pred={pred} src={src}");
        }
    }
}

#[test]
fn mod_coeff_exact_values() {
    // predicted magnitude max(|3|, |-5|) = 5
    assert_eq!(derive_mod_coeff(3, -5, 5), 1);
    assert_eq!(derive_mod_coeff(3, -5, 2), 3);
    assert_eq!(derive_mod_coeff(3, -5, 9), 9);
    assert_eq!(dec_derive_mod_coeff(3, -5, 1), 5);
    assert_eq!(dec_derive_mod_coeff(3, -5, 3), 2);
    assert_eq!(dec_derive_mod_coeff(0, 0, 1), 1);
    assert_eq!(rice_param_ts(), 1);
}

#[test]
fn tsrc_round_trip_single_level_and_large_blocks() {
    let mut block = vec![0i32; 64 * 64];
    block[64 * 63 + 63] = -7;
    roundtrip(&block, 64, 64);
    let mut block = vec![0i32; 4 * 16];
    block[5] = 0x7fff;
    block[6] = -0x7fff;
    roundtrip(&block, 4, 16);
}
