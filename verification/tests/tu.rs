use garnetash::cabac::contexts::Contexts;
use garnetash::cabac::engine::{CabacDecoder, CabacEncoder};
use garnetash::tu::{
    any_nonzero, decode_transform_unit, decode_transform_unit_full, decode_transform_unit_tree, encode_transform_tree,
    encode_transform_unit, TreeType, TuCoeffs,
};

#[test]
fn luma_only_round_trips() {
    let mut c = vec![0i32; 64];
    c[0] = 12;
    c[1] = -3;
    c[9] = 1;
    let mut enc = CabacEncoder::new();
    let mut ectx = Contexts::new_intra(28);
    let tu = TuCoeffs {
        tree: TreeType::Single,
        luma: &c,
        lw: 8,
        lh: 8,
        chroma: None,
        lossless: false,
        luma_bdpcm: false,
        chroma_bdpcm: false,
        luma_ts: false,
        chroma_ts: false,
        code_dqp: None,
        dep_quant: false,
    };
    encode_transform_tree(&mut enc, &mut ectx, &tu);
    enc.encode_terminate(1);
    let bytes = enc.finish();
    let mut dec = CabacDecoder::new(&bytes);
    let mut dctx = Contexts::new_intra(28);
    let got = decode_transform_unit(&mut dec, &mut dctx, 8, 8, None);
    assert_eq!(dec.decode_terminate(), 1);
    assert_eq!(got.luma, c);
}

#[test]
fn dual_tree_luma_then_chroma_round_trips() {
    let mut y = vec![0i32; 256];
    let mut cb = vec![0i32; 64];
    let mut cr = vec![0i32; 64];
    y[0] = 40;
    y[3] = -7;
    y[17] = 2;
    cb[0] = -5;
    cb[1] = 3;
    cr[0] = 9;
    cr[2] = -2;
    for &qp in &[12u8, 28, 45] {
        let mut enc = CabacEncoder::new();
        let mut ectx = Contexts::new_intra(qp);
        let luma_tu = TuCoeffs {
            tree: TreeType::Luma,
            luma: &y,
            lw: 16,
            lh: 16,
            chroma: None,
            lossless: false,
            luma_bdpcm: false,
            chroma_bdpcm: false,
            luma_ts: false,
            chroma_ts: false,
            code_dqp: None,
            dep_quant: false,
        };
        encode_transform_tree(&mut enc, &mut ectx, &luma_tu);
        let chroma_tu = TuCoeffs {
            tree: TreeType::Chroma,
            luma: &[],
            lw: 8,
            lh: 8,
            chroma: Some((&cb, &cr, 8, 8)),
            lossless: false,
            luma_bdpcm: false,
            chroma_bdpcm: false,
            luma_ts: false,
            chroma_ts: false,
            code_dqp: None,
            dep_quant: false,
        };
        encode_transform_tree(&mut enc, &mut ectx, &chroma_tu);
        enc.encode_terminate(1);
        let bytes = enc.finish();

        let mut dec = CabacDecoder::new(&bytes);
        let mut dctx = Contexts::new_intra(qp);
        let lg = decode_transform_unit_tree(&mut dec, &mut dctx, 16, 16, None, TreeType::Luma, false, false);
        let cg = decode_transform_unit_tree(&mut dec, &mut dctx, 8, 8, Some((8, 8)), TreeType::Chroma, false, false);
        assert_eq!(dec.decode_terminate(), 1, "terminate qp={qp}");
        assert_eq!(lg.luma, y, "luma qp={qp}");
        assert_eq!(cg.cb, cb, "cb qp={qp}");
        assert_eq!(cg.cr, cr, "cr qp={qp}");
    }
}

#[test]
fn luma_plus_chroma_round_trips() {
    let mut y = vec![0i32; 256];
    let mut cb = vec![0i32; 64];
    let mut cr = vec![0i32; 64];
    y[0] = 40;
    y[3] = -7;
    y[17] = 2;
    cb[0] = -5;
    cb[1] = 3;
    cb[8] = 1;
    cr[0] = 9;
    cr[2] = -2;
    for &qp in &[12u8, 28, 45] {
        let mut enc = CabacEncoder::new();
        let mut ectx = Contexts::new_intra(qp);
        let tu = TuCoeffs {
            tree: TreeType::Single,
            luma: &y,
            lw: 16,
            lh: 16,
            chroma: Some((&cb, &cr, 8, 8)),
            lossless: false,
            luma_bdpcm: false,
            chroma_bdpcm: false,
            luma_ts: false,
            chroma_ts: false,
            code_dqp: None,
            dep_quant: false,
        };
        encode_transform_tree(&mut enc, &mut ectx, &tu);
        enc.encode_terminate(1);
        let bytes = enc.finish();
        let mut dec = CabacDecoder::new(&bytes);
        let mut dctx = Contexts::new_intra(qp);
        let got = decode_transform_unit(&mut dec, &mut dctx, 16, 16, Some((8, 8)));
        assert_eq!(dec.decode_terminate(), 1, "qp={qp}");
        assert_eq!(got.luma, y, "luma qp={qp}");
        assert_eq!(got.cb, cb, "cb qp={qp}");
        assert_eq!(got.cr, cr, "cr qp={qp}");
    }
}

#[test]
fn empty_chroma_codes_only_cbfs() {
    let mut y = vec![0i32; 64];
    y[0] = 5;
    let cb = vec![0i32; 16];
    let cr = vec![0i32; 16];
    let mut enc = CabacEncoder::new();
    let mut ectx = Contexts::new_intra(32);
    let tu = TuCoeffs {
        tree: TreeType::Single,
        luma: &y,
        lw: 8,
        lh: 8,
        chroma: Some((&cb, &cr, 4, 4)),
        lossless: false,
        luma_bdpcm: false,
        chroma_bdpcm: false,
        luma_ts: false,
        chroma_ts: false,
        code_dqp: None,
        dep_quant: false,
    };
    encode_transform_tree(&mut enc, &mut ectx, &tu);
    enc.encode_terminate(1);
    let bytes = enc.finish();
    let mut dec = CabacDecoder::new(&bytes);
    let mut dctx = Contexts::new_intra(32);
    let got = decode_transform_unit(&mut dec, &mut dctx, 8, 8, Some((4, 4)));
    assert_eq!(dec.decode_terminate(), 1);
    assert_eq!(got.luma, y);
    assert!(got.cb.iter().all(|&v| v == 0));
    assert!(got.cr.iter().all(|&v| v == 0));
}

fn full_round_trip(
    y: &[i32],
    cb: &[i32],
    cr: &[i32],
    lossless: bool,
    luma_bdpcm: bool,
    chroma_bdpcm: bool,
    dqp: Option<i32>,
) {
    let mut enc = CabacEncoder::new();
    let mut ectx = Contexts::new_intra(4);
    let tu = TuCoeffs {
        tree: TreeType::Single,
        luma: y,
        lw: 8,
        lh: 8,
        chroma: Some((cb, cr, 4, 4)),
        lossless,
        luma_bdpcm,
        chroma_bdpcm,
        luma_ts: false,
        chroma_ts: false,
        code_dqp: dqp,
        dep_quant: false,
    };
    encode_transform_unit(&mut enc, &mut ectx, &tu);
    enc.encode_terminate(1);
    let bytes = enc.finish();
    let mut dec = CabacDecoder::new(&bytes);
    let mut dctx = Contexts::new_intra(4);
    let (got, got_dqp) =
        decode_transform_unit_full(&mut dec, &mut dctx, 8, 8, Some((4, 4)), luma_bdpcm, chroma_bdpcm, false, dqp.is_some());
    assert_eq!(dec.decode_terminate(), 1);
    assert_eq!(got.luma, y);
    assert_eq!(got.cb, cb);
    assert_eq!(got.cr, cr);
    assert_eq!(got_dqp, dqp);
    assert!(got.dqp.is_none());
    if lossless || luma_bdpcm {
        assert!(got.luma_ts);
    }
}

#[test]
fn lossless_and_bdpcm_units_round_trip() {
    let y: Vec<i32> = (0..64).map(|i| (i as i32 * 37 % 255) - 127).collect();
    let cb: Vec<i32> = (0..16).map(|i| (i as i32 % 5) - 2).collect();
    let cr: Vec<i32> = (0..16).map(|i| if i == 3 { -9 } else { 0 }).collect();
    full_round_trip(&y, &cb, &cr, true, false, false, None);
    full_round_trip(&y, &cb, &cr, true, true, true, None);
    full_round_trip(&y, &cb, &cr, true, true, false, None);
}

#[test]
fn qp_delta_round_trips() {
    let mut y = vec![0i32; 64];
    y[0] = 3;
    let cb = vec![0i32; 16];
    let cr = vec![0i32; 16];
    for &d in &[1, -1, 4, 5, -5, 6, 12, -31, 100, -1000, 65535] {
        full_round_trip(&y, &cb, &cr, false, false, false, Some(d));
    }
}

#[test]
fn any_nonzero_finds_a_level() {
    assert!(!any_nonzero(&[0, 0, 0]));
    assert!(any_nonzero(&[0, 0, -1]));
    assert!(!any_nonzero(&[]));
}

#[test]
fn chroma_pass_decodes_zero_luma() {
    let cb = vec![1i32; 16];
    let cr = vec![0i32; 16];
    let mut enc = CabacEncoder::new();
    let mut ectx = Contexts::new_intra(30);
    let tu = TuCoeffs {
        tree: TreeType::Chroma,
        luma: &[],
        lw: 4,
        lh: 4,
        chroma: Some((&cb, &cr, 4, 4)),
        lossless: false,
        luma_bdpcm: false,
        chroma_bdpcm: false,
        luma_ts: false,
        chroma_ts: true,
        code_dqp: None,
        dep_quant: false,
    };
    encode_transform_tree(&mut enc, &mut ectx, &tu);
    enc.encode_terminate(1);
    let bytes = enc.finish();
    let mut dec = CabacDecoder::new(&bytes);
    let mut dctx = Contexts::new_intra(30);
    let got = decode_transform_unit_tree(&mut dec, &mut dctx, 4, 4, Some((4, 4)), TreeType::Chroma, false, false);
    assert_eq!(dec.decode_terminate(), 1);
    assert_eq!(got.luma, vec![0i32; 16]);
    assert_eq!(got.cb, cb);
    assert!(got.cb_ts);
    assert!(!got.cr_ts);
    assert_eq!(got.cr, cr);
}
