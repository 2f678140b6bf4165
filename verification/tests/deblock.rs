use garnetash::deblock::{deblock_chroma, deblock_luma, Grid};

fn grid_uniform(w: usize, h: usize, cu: usize, qp: u8) -> Grid {
    let mut g = Grid::new(w, h);
    for y in (0..h).step_by(cu) {
        for x in (0..w).step_by(cu) {
            g.set_cu(x, y, cu.min(w - x), cu.min(h - y), qp);
        }
    }
    g
}

#[test]
fn flat_plane_unchanged() {
    let (w, h) = (64usize, 64usize);
    let g = grid_uniform(w, h, 16, 37);
    let mut luma = vec![128i32; w * h];
    deblock_luma(&mut luma, w, h, &g, 8, 128);
    assert!(luma.iter().all(|&v| v == 128));
    let (cw, ch) = (w / 2, h / 2);
    let mut cb = vec![128i32; cw * ch];
    deblock_chroma(&mut cb, cw, ch, &g, 1, 1, 8, 128);
    assert!(cb.iter().all(|&v| v == 128));
}

#[test]
fn partitioned_plane_no_panic_and_bounded() {
    for &(cu, sub) in &[(8usize, 1usize), (16, 1), (32, 0), (64, 0), (8, 0)] {
        let (w, h) = (128usize, 128usize);
        let g = grid_uniform(w, h, cu, 41);
        let mut luma: Vec<i32> = (0..w * h).map(|k| ((k * 7 + (k / w) * 13) % 256) as i32).collect();
        deblock_luma(&mut luma, w, h, &g, 8, 128);
        assert!(luma.iter().all(|&v| (0..=255).contains(&v)));
        let (cw, ch) = (w >> sub, h >> sub);
        let mut cb: Vec<i32> = (0..cw * ch).map(|k| ((k * 5) % 256) as i32).collect();
        deblock_chroma(&mut cb, cw, ch, &g, sub, sub, 8, 128);
        assert!(cb.iter().all(|&v| (0..=255).contains(&v)));
    }
}

#[test]
fn step_edge_is_smoothed_but_flat_sides_kept_far_away() {
    // A vertical step at x = 16 between two 16-wide CUs: samples next to the
    // edge move towards each other, samples far from it are untouched.
    let (w, h) = (32usize, 16usize);
    let g = grid_uniform(w, h, 16, 37);
    let mut luma: Vec<i32> = (0..w * h).map(|k| if k % w < 16 { 100 } else { 120 }).collect();
    let before = luma.clone();
    deblock_luma(&mut luma, w, h, &g, 8, 128);
    for y in 0..h {
        assert!(luma[y * w + 15] > 100 && luma[y * w + 16] < 120, "row {y}");
        assert_eq!(luma[y * w], before[y * w]);
        assert_eq!(luma[y * w + 31], before[y * w + 31]);
    }
}

#[test]
fn set_cu_marks_covered_blocks_only() {
    let mut g = Grid::new(16, 16);
    g.set_cu(4, 4, 8, 4, 30);
    assert_eq!(g.cols, 4);
    assert_eq!(g.rows, 4);
    assert_eq!(g.blk[1 * 4 + 1].qp, 30);
    assert_eq!(g.blk[1 * 4 + 2].cuw, 8);
    assert_eq!(g.blk[0].qp, 0);
    assert_eq!(g.blk[2 * 4 + 1].qp, 0);
}

fn step_window(p: i32, q: i32) -> Vec<i32> {
    (0..16).map(|i| if i < 8 { p } else { q }).collect()
}

#[test]
fn chroma_weak_filter_exact_step() {
    let mut w = step_window(100, 110);
    garnetash::deblock::line::pel_filter_chroma(&mut w, 2, false, false, 255);
    let mut expect = step_window(100, 110);
    expect[7] = 102;
    expect[8] = 108;
    assert_eq!(w, expect);
}

#[test]
fn luma_weak_filter_exact_step() {
    let mut w = step_window(100, 110);
    garnetash::deblock::line::pel_filter_luma(&mut w, 3, false, 100, true, true, false, false, 3, 3, 255);
    let mut expect = step_window(100, 110);
    expect[6] = 101;
    expect[7] = 103;
    expect[8] = 107;
    expect[9] = 109;
    assert_eq!(w, expect);
}

#[test]
fn luma_strong_filter_exact_step() {
    let mut w = step_window(100, 110);
    garnetash::deblock::line::pel_filter_luma(&mut w, 4, true, 0, false, false, false, false, 3, 3, 255);
    let mut expect = step_window(100, 110);
    expect[5] = 101;
    expect[6] = 103;
    expect[7] = 104;
    expect[8] = 106;
    expect[9] = 108;
    expect[10] = 109;
    assert_eq!(w, expect);
}

#[test]
fn long_filter_exact_step_5_5() {
    let mut w = step_window(100, 110);
    garnetash::deblock::line::filtering_p_and_q(&mut w, 5, 5, 100, 255);
    let expect = vec![100, 100, 100, 100, 101, 103, 104, 105, 105, 106, 108, 109, 110, 110, 110, 110];
    assert_eq!(w, expect);
}

#[test]
fn long_filter_clips_each_sample_once() {
    let mut w = step_window(0, 255);
    garnetash::deblock::line::filtering_p_and_q(&mut w, 7, 7, 1, 255);
    let orig = step_window(0, 255);
    for j in 0..16 {
        assert!((w[j] - orig[j]).abs() <= 3);
    }
    assert_eq!(w[0], 0);
}
