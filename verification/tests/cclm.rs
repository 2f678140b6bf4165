use garnetash::cclm::{cclm_luma, cclm_model, cclm_predict, cclm_select, predict_cclm, Plane};
use garnetash::intra::CCLM_LT_MODE;

fn plane(data: Vec<i32>, width: usize, height: usize) -> Plane {
    Plane { data, width, height }
}

#[test]
fn model_constant_chroma_gives_zero_slope() {
    let (a, b, _shift) = cclm_model([10, 20, 30, 40], [50, 50, 50, 50], true, 8);
    assert_eq!(a, 0);
    assert_eq!(b, 50);
}

#[test]
fn model_equal_luma_gives_dc() {
    let (a, b, _) = cclm_model([100, 100, 100, 100], [30, 40, 50, 60], true, 8);
    assert_eq!(a, 0);
    assert_eq!(b, (30 + 50 + 1) >> 1);
}

#[test]
fn model_no_neighbours_is_dc_midrange() {
    let (a, b, shift) = cclm_model([0; 4], [0; 4], false, 10);
    assert_eq!((a, b, shift), (0, 1 << 9, 0));
}

#[test]
fn model_linear_relation_recovered() {
    let lum = [16i32, 32, 200, 216];
    let chr = lum.map(|l| 2 * l + 5);
    let (a, b, shift) = cclm_model(lum, chr, true, 8);
    let lo = ((a * 24) >> shift) + b;
    let hi = ((a * 208) >> shift) + b;
    assert!((lo - 53).abs() <= 1, "lo={lo}");
    assert!((hi - 421).abs() <= 1, "hi={hi}");
}

#[test]
fn select_both_available_picks_two_each() {
    let tl: Vec<i32> = (0..32).collect();
    let tc: Vec<i32> = (0..32).map(|x| x + 100).collect();
    let ll: Vec<i32> = (0..32).map(|x| x + 200).collect();
    let lc: Vec<i32> = (0..32).map(|x| x + 300).collect();
    let (sl, sc, ok) = cclm_select(&tl, &tc, &ll, &lc, true, true);
    assert!(ok);
    assert_eq!(sl[0], 8);
    assert_eq!(sl[1], 24);
    assert_eq!(sc[0], 108);
    assert_eq!(sl[2], 208);
    assert_eq!(sl[3], 224);
    assert_eq!(sc[2], 308);
}

#[test]
fn select_left_only_picks_four() {
    let ll: Vec<i32> = (0..16).collect();
    let lc: Vec<i32> = (0..16).map(|x| x + 50).collect();
    let (sl, _sc, ok) = cclm_select(&[], &[], &ll, &lc, false, true);
    assert!(ok);
    assert_eq!([sl[0], sl[1], sl[2], sl[3]], [2, 6, 10, 14]);
}

#[test]
fn select_two_samples_are_repeated_crosswise() {
    // One sample from each template: the pair is laid out as [b, a, b, a].
    let (sl, sc, ok) = cclm_select(&[7], &[70], &[9], &[90], true, true);
    assert!(ok);
    assert_eq!(sl, [9, 7, 9, 7]);
    assert_eq!(sc, [90, 70, 90, 70]);
    let (sl, _, ok) = cclm_select(&[], &[], &[], &[], false, false);
    assert!(!ok);
    assert_eq!(sl, [0, 0, 0, 0]);
}

#[test]
fn downsample_444_is_identity() {
    let luma = plane(vec![5, 6, 7, 8], 2, 2);
    let (block, _t, _l) = cclm_luma(&luma, 0, 0, 2, 2, 1, 1, 0, 0, false, false, false);
    assert_eq!(block, vec![5, 6, 7, 8]);
}

#[test]
fn downsample_420_six_tap() {
    let luma = plane(vec![10, 20, 30, 40, 10, 20, 30, 40], 4, 2);
    let (block, top, left) = cclm_luma(&luma, 0, 0, 2, 1, 2, 2, 0, 0, false, false, false);
    let c0 = (4 + 2 * 10 + 20 + 10 + 2 * 10 + 20 + 10) >> 3;
    let c1 = (4 + 2 * 30 + 40 + 20 + 2 * 30 + 40 + 20) >> 3;
    assert_eq!(block, vec![c0, c1]);
    assert!(top.is_empty() && left.is_empty());
}

#[test]
fn predict_clamps_to_range() {
    // a = 2, shift = 1: identity slope plus offset, clamped into [0, 255].
    let out = predict_cclm(&[-10, 0, 100, 300], 2, 5, 1, 255);
    assert_eq!(out, vec![0, 5, 105, 255]);
}

#[test]
fn predict_constant_luma_yields_neighbour_chroma() {
    let luma = plane(vec![128], 1, 1);
    let cb = plane(vec![90], 1, 1);
    let cr = plane(vec![200], 1, 1);
    let (pcb, pcr) = cclm_predict(
        &luma,
        &cb,
        &cr,
        64,
        64,
        32,
        32,
        32,
        32,
        2,
        2,
        true,
        true,
        false,
        CCLM_LT_MODE,
        0,
        0,
        255,
        8,
    );
    assert!(
        pcb.iter().all(|&v| v == 90),
        "Cb should be the neighbour constant"
    );
    assert!(
        pcr.iter().all(|&v| v == 200),
        "Cr should be the neighbour constant"
    );
    assert_eq!(pcb.len(), 32 * 32);
}
