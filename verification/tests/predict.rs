use garnetash::intra::{DC_IDX, PLANAR_IDX};
use garnetash::predict::{filter_references, lfnst_wide_angle, predict, wide_angle, RefSamples};

fn refs_from(w: usize, h: usize, top_v: i32, left_v: i32, corner: i32) -> RefSamples {
    let above = vec![Some(top_v); 2 * w];
    let left = vec![Some(left_v); 2 * h];
    RefSamples::build(w, h, Some(corner), &above, &left, 8)
}

#[test]
fn dc_is_mean_of_references() {
    let refs = refs_from(8, 8, 100, 100, 100);
    let p = predict(DC_IDX, 8, 8, &refs, 8, true);
    assert!(p.iter().all(|&v| v == 100));
    let refs2 = refs_from(8, 8, 80, 120, 100);
    let p2 = predict(DC_IDX, 8, 8, &refs2, 8, true);
    assert_eq!(p2[7 * 8 + 7], 100, "DC base at PDPC-free corner");
}

#[test]
fn planar_constant_references_are_constant() {
    let refs = refs_from(16, 16, 50, 50, 50);
    let p = predict(PLANAR_IDX, 16, 16, &refs, 8, true);
    assert!(p.iter().all(|&v| v == 50), "min {:?}", p.iter().min());
}

#[test]
fn vertical_mode_copies_top_row() {
    let above: Vec<Option<i32>> = (0..16).map(|i| Some(10 + i as i32 * 3)).collect();
    let left = vec![Some(0); 16];
    let refs = RefSamples::build(8, 8, Some(10), &above, &left, 8);
    let p = predict(50, 8, 8, &refs, 8, true);
    for y in 0..8 {
        for x in 6..8 {
            assert_eq!(p[y * 8 + x], refs.top[x + 1], "({x},{y})");
        }
    }
}

#[test]
fn horizontal_mode_copies_left_column() {
    let left: Vec<Option<i32>> = (0..16).map(|i| Some(20 + i as i32 * 2)).collect();
    let above = vec![Some(0); 16];
    let refs = RefSamples::build(8, 8, Some(20), &above, &left, 8);
    let p = predict(18, 8, 8, &refs, 8, true);
    for y in 6..8 {
        let expect = refs.left[y + 1];
        assert!(
            p[y * 8..y * 8 + 8].iter().all(|&v| v == expect),
            "row {y}={expect}"
        );
    }
}

#[test]
fn substitution_all_unavailable_is_midvalue() {
    let above = vec![None; 16];
    let left = vec![None; 16];
    let refs = RefSamples::build(8, 8, None, &above, &left, 8);
    assert!(refs.top.iter().all(|&v| v == 128));
    assert!(refs.left.iter().all(|&v| v == 128));
}

#[test]
fn substitution_propagates_into_gaps() {
    let mut above = vec![None; 8];
    above[3] = Some(77);
    let left = vec![None; 4];
    let refs = RefSamples::build(4, 4, None, &above, &left, 8);
    assert!(refs.left.iter().all(|&v| v == 77), "left {:?}", refs.left);
    assert_eq!(refs.top[0], 77);
    assert_eq!(refs.top[4], 77);
}

#[test]
fn substitution_fills_forward_from_last_available() {
    // Left column (scanned bottom-up) has only its lowest sample; the corner
    // and top row inherit it, then a later top sample takes over.
    let mut left = vec![None; 8];
    left[7] = Some(5);
    let mut above = vec![None; 8];
    above[4] = Some(9);
    let refs = RefSamples::build(4, 4, None, &above, &left, 8);
    assert_eq!(refs.left[8], 5);
    assert_eq!(refs.left[1], 5);
    assert_eq!(refs.top[0], 5);
    assert_eq!(refs.top[4], 5);
    assert_eq!(refs.top[5], 9);
    assert_eq!(refs.top[8], 9);
}

#[test]
fn output_within_pixel_range() {
    let above: Vec<Option<i32>> = (0..32).map(|i| Some((i * 251 % 256) as i32)).collect();
    let left: Vec<Option<i32>> = (0..32).map(|i| Some((i * 113 % 256) as i32)).collect();
    let refs = RefSamples::build(16, 16, Some(128), &above, &left, 8);
    for mode in 0u8..67 {
        let p = predict(mode, 16, 16, &refs, 8, true);
        assert_eq!(p.len(), 256);
        assert!(
            p.iter().all(|&v| (0..=255).contains(&v)),
            "mode {mode} out of range"
        );
    }
}

#[test]
fn reference_filter_is_121_over_4() {
    let mut above = vec![Some(0i32); 16];
    above[5] = Some(40);
    let left = vec![Some(0i32); 16];
    let refs = RefSamples::build(8, 8, Some(0), &above, &left, 8);
    let f = filter_references(&refs, 8, 8);
    assert_eq!(f.top[5], (0 + 2 * 0 + 40 + 2) >> 2);
    assert_eq!(f.top[6], (0 + 2 * 40 + 0 + 2) >> 2);
    assert_eq!(f.top[7], (40 + 2 * 0 + 0 + 2) >> 2);
    assert_eq!(f.top[16], refs.top[16]);
}

#[test]
fn pdpc_blends_dc_edges_but_not_interior() {
    let refs = refs_from(8, 8, 200, 0, 100);
    let p = predict(DC_IDX, 8, 8, &refs, 8, true);
    let dc = (8 * 200 + 8 * 0 + 8) >> 4;
    assert_eq!(p[7 * 8 + 7], dc);
    assert!(
        p[0 * 8 + 3] > p[3 * 8 + 0],
        "PDPC should bend edges asymmetrically"
    );
    assert!(p.iter().all(|&v| (0..=255).contains(&v)));
}

#[test]
fn angular_diagonal_shifts_reference() {
    let above: Vec<Option<i32>> = (0..32).map(|i| Some(i as i32)).collect();
    let left = vec![Some(0); 16];
    let refs = RefSamples::build(8, 8, Some(0), &above, &left, 8);
    let p = predict(66, 8, 8, &refs, 8, true);
    for y in 0..8 {
        for x in 6..8 {
            assert_eq!(p[y * 8 + x], refs.top[x + (y + 1) + 1], "({x},{y})");
        }
    }
}

#[test]
fn wide_angle_remaps_only_non_square_blocks() {
    assert_eq!(wide_angle(8, 8, 3), 3);
    // Wide block (16x4, delta 2 -> shift 10): modes below 12 become wide angles.
    assert_eq!(wide_angle(16, 4, 5), 70);
    assert_eq!(wide_angle(16, 4, 12), 12);
    // Tall block: prediction subtracts 65, LFNST set selection 67.
    assert_eq!(wide_angle(4, 16, 60), -5);
    assert_eq!(lfnst_wide_angle(4, 16, 60), -7);
    assert_eq!(wide_angle(4, 16, PLANAR_IDX as i32), 0);
}

#[test]
fn rectangular_blocks_predict_in_range() {
    let above: Vec<Option<i32>> = (0..32).map(|i| Some((i * 37 % 256) as i32)).collect();
    let left: Vec<Option<i32>> = (0..16).map(|i| Some((i * 91 % 256) as i32)).collect();
    let refs = RefSamples::build(16, 8, Some(60), &above, &left, 8);
    for mode in 0u8..67 {
        let p = predict(mode, 16, 8, &refs, 8, false);
        assert_eq!(p.len(), 128);
        assert!(p.iter().all(|&v| (0..=255).contains(&v)), "mode {mode}");
    }
}
