use garnetash::depquant::{next_state, quantizer, recon_qidx, STATE_TRANS};

#[test]
fn packed_matches_explicit_table() {
    for state in 0u8..4 {
        for parity in 0i32..2 {
            let got = next_state(state, parity);
            assert_eq!(
                got, STATE_TRANS[state as usize][parity as usize],
                "state {state} parity {parity}"
            );
        }
    }
}

#[test]
fn quantizer_partitions_states() {
    assert_eq!(quantizer(0), 0);
    assert_eq!(quantizer(1), 0);
    assert_eq!(quantizer(2), 1);
    assert_eq!(quantizer(3), 1);
}

#[test]
fn recon_qidx_grid() {
    for &s in &[0u8, 1] {
        assert_eq!(recon_qidx(3, s), 6);
        assert_eq!(recon_qidx(-3, s), -6);
        assert_eq!(recon_qidx(0, s), 0);
    }
    for &s in &[2u8, 3] {
        assert_eq!(recon_qidx(3, s), 5);
        assert_eq!(recon_qidx(-3, s), -5);
        assert_eq!(recon_qidx(1, s), 1);
        assert_eq!(recon_qidx(0, s), 0);
    }
}

#[test]
fn state_walk_is_deterministic_and_bounded() {
    let levels = [0i32, 1, 2, -3, 4, 0, 7, -1, 1, 1, 2, 2];
    let mut state = 0u8;
    let mut trace = Vec::new();
    for &l in &levels {
        assert!(state < 4);
        trace.push(state);
        state = next_state(state, l);
    }
    let mut s2 = 0u8;
    for (k, &l) in levels.iter().enumerate() {
        assert_eq!(s2, trace[k]);
        s2 = next_state(s2, l);
    }
}

#[test]
fn negative_levels_use_their_parity() {
    assert_eq!(next_state(0, -3), 2);
    assert_eq!(next_state(0, -4), 0);
    assert_eq!(next_state(2, -1), 3);
    // States past the machine read beyond the packed table.
    assert_eq!(next_state(5, 1), 0);
}
