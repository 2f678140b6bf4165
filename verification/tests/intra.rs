use garnetash::cabac::contexts::Contexts;
use garnetash::cabac::engine::{CabacDecoder, CabacEncoder};
use garnetash::intra::{
    build_mpm, chroma_422_mode, chroma_cand_modes, decode_bdpcm_mode, decode_chroma_mode,
    decode_luma_mode, encode_bdpcm_mode, encode_chroma_mode, encode_luma_mode, floor_log2,
    CCLM_L_MODE, CCLM_LT_MODE, CCLM_T_MODE, DC_IDX, HOR_IDX, NUM_LUMA_MODE, NUM_MPM, PLANAR_IDX,
    VDIA_IDX, VER_IDX,
};

#[test]
fn cclm_mode_binarization_round_trips() {
    // With CCLM enabled, every chroma mode — the three CCLM modes, the DM
    // case, and each non-DM candidate — must survive encode→decode.
    let luma = 25u8;
    let mut modes = vec![CCLM_LT_MODE, CCLM_L_MODE, CCLM_T_MODE, luma];
    modes.extend_from_slice(&chroma_cand_modes(luma));
    let mut enc = CabacEncoder::new();
    let mut ectx = Contexts::new_intra(26);
    for &m in &modes {
        encode_chroma_mode(&mut enc, &mut ectx, luma, m, true);
    }
    enc.encode_terminate(1);
    let bytes = enc.finish();
    let mut dec = CabacDecoder::new(&bytes);
    let mut dctx = Contexts::new_intra(26);
    for &m in &modes {
        assert_eq!(
            decode_chroma_mode(&mut dec, &mut dctx, luma, true),
            m,
            "mode {m}"
        );
    }
}

#[test]
fn chroma_422_mode_matches_vvc_table() {
    assert_eq!(chroma_422_mode(PLANAR_IDX), PLANAR_IDX);
    assert_eq!(chroma_422_mode(DC_IDX), DC_IDX);
    assert_eq!(chroma_422_mode(HOR_IDX), HOR_IDX);
    assert_eq!(chroma_422_mode(VER_IDX), VER_IDX);
    assert_eq!(chroma_422_mode(2), 61);
    assert_eq!(chroma_422_mode(7), 66);
    assert_eq!(chroma_422_mode(64), 59);
    assert_eq!(chroma_422_mode(VDIA_IDX), 60);
    for m in 0..=VDIA_IDX {
        assert!(chroma_422_mode(m) <= VDIA_IDX);
    }
}

#[test]
fn mpm_always_starts_with_planar() {
    for l in [None, Some(0u8), Some(1), Some(18), Some(50), Some(66)] {
        for a in [None, Some(0u8), Some(1), Some(34), Some(60)] {
            let m = build_mpm(l, a);
            assert_eq!(m[0], PLANAR_IDX);
            assert!(m.iter().all(|&x| (x as u8) < NUM_LUMA_MODE));
            for i in 0..NUM_MPM {
                for j in (i + 1)..NUM_MPM {
                    assert_ne!(m[i], m[j], "dup in MPM {m:?}");
                }
            }
        }
    }
}

#[test]
fn both_nonangular_uses_fixed_set() {
    let m = build_mpm(Some(DC_IDX), Some(PLANAR_IDX));
    assert_eq!(
        m,
        [
            PLANAR_IDX,
            DC_IDX,
            VER_IDX,
            HOR_IDX,
            VER_IDX - 4,
            VER_IDX + 4
        ]
    );
}

#[test]
fn mpm_matches_vtm_reference_values() {
    assert_eq!(build_mpm(Some(66), Some(4)), [0, 66, 4, 5, 65, 6]);
    assert_eq!(build_mpm(Some(50), Some(50)), [0, 50, 49, 51, 48, 52]);
    assert_eq!(build_mpm(Some(30), Some(31)), [0, 30, 31, 29, 32, 28]);
    assert_eq!(build_mpm(Some(30), Some(32)), [0, 30, 32, 31, 29, 33]);
    assert_eq!(build_mpm(Some(40), Some(DC_IDX)), [0, 40, 39, 41, 38, 42]);
}

#[test]
fn trunc_bin_threshold() {
    assert_eq!(floor_log2(61), 5);
    assert_eq!(floor_log2(64), 6);
    assert_eq!(floor_log2(1), 0);
}

#[test]
fn chroma_mode_round_trips_all_candidates() {
    for &luma in &[0u8, 1, 18, 30, 50, 66] {
        let mut targets = vec![luma];
        targets.extend_from_slice(&chroma_cand_modes(luma));
        for &cm in &targets {
            let mut enc = CabacEncoder::new();
            let mut ectx = Contexts::new_intra(30);
            encode_chroma_mode(&mut enc, &mut ectx, luma, cm, false);
            enc.encode_terminate(1);
            let bytes = enc.finish();
            let mut dec = CabacDecoder::new(&bytes);
            let mut dctx = Contexts::new_intra(30);
            assert_eq!(
                decode_chroma_mode(&mut dec, &mut dctx, luma, false),
                cm,
                "luma={luma} cm={cm}"
            );
            assert_eq!(dec.decode_terminate(), 1);
        }
    }
}

#[test]
fn chroma_candidates_avoid_dm_alias() {
    assert_eq!(
        chroma_cand_modes(VER_IDX),
        [PLANAR_IDX, VDIA_IDX, HOR_IDX, DC_IDX]
    );
    assert_eq!(
        chroma_cand_modes(PLANAR_IDX),
        [VDIA_IDX, VER_IDX, HOR_IDX, DC_IDX]
    );
    assert_eq!(
        chroma_cand_modes(30),
        [PLANAR_IDX, VER_IDX, HOR_IDX, DC_IDX]
    );
}

#[test]
fn luma_mode_round_trips_every_mode() {
    // Every one of the 67 luma modes, inside or outside the MPM list, comes
    // back from the decoder unchanged.
    let mpm = build_mpm(Some(30), Some(50));
    let mut enc = CabacEncoder::new();
    let mut ectx = Contexts::new_intra(32);
    for m in 0..NUM_LUMA_MODE {
        encode_luma_mode(&mut enc, &mut ectx, &mpm, m);
    }
    enc.encode_terminate(1);
    let bytes = enc.finish();
    let mut dec = CabacDecoder::new(&bytes);
    let mut dctx = Contexts::new_intra(32);
    for m in 0..NUM_LUMA_MODE {
        assert_eq!(decode_luma_mode(&mut dec, &mut dctx, &mpm), m);
    }
}

#[test]
fn bdpcm_mode_round_trips() {
    let mut enc = CabacEncoder::new();
    let mut ectx = Contexts::new_intra(27);
    let modes = [0u8, 1, 2, 2, 0, 1];
    for (i, &m) in modes.iter().enumerate() {
        encode_bdpcm_mode(&mut enc, &mut ectx, m, i % 2 == 0);
    }
    enc.encode_terminate(1);
    let bytes = enc.finish();
    let mut dec = CabacDecoder::new(&bytes);
    let mut dctx = Contexts::new_intra(27);
    for (i, &m) in modes.iter().enumerate() {
        assert_eq!(decode_bdpcm_mode(&mut dec, &mut dctx, i % 2 == 0), m);
    }
}
