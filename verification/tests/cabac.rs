use garnetash::cabac::contexts::Contexts;
use garnetash::cabac::engine::{CabacDecoder, CabacEncoder, CtxModel, MASK_0, MASK_1};

/// Tiny xorshift PRNG so tests are deterministic without external crates.
struct Rng(u64);
impl Rng {
    fn next(&mut self) -> u64 {
        let mut x = self.0;
        x ^= x << 13;
        x ^= x >> 7;
        x ^= x << 17;
        self.0 = x;
        x
    }
    fn bit(&mut self) -> u8 {
        (self.next() & 1) as u8
    }
}

#[test]
fn mask_constants_match_spec() {
    assert_eq!(MASK_0, 0x7FE0);
    assert_eq!(MASK_1, 0x7FFE);
}

#[test]
fn init_clamps_and_is_deterministic() {
    for &iv in &[0u8, 1, 17, 95, 128, 200, 255] {
        for &qp in &[0u8, 16, 26, 37, 51, 63] {
            let c = CtxModel::init(iv, qp, 8);
            let s = c.state[0] as u32 + c.state[1] as u32;
            assert!(s > 0 && s < (1 << 16));
            assert!(c.mps() == 0 || c.mps() == 1);
        }
    }
}

fn roundtrip_mixed(seed: u64, n: usize) {
    let mut rng = Rng(seed);
    let init_vals = [25u8, 60, 110, 154, 199];
    let qp = 32u8;
    let make_ctxs = || -> Vec<CtxModel> {
        init_vals
            .iter()
            .map(|&v| CtxModel::init(v, qp, 8))
            .collect()
    };
    enum Op {
        Ctx(usize, u8),
        Byp(u8),
    }
    let mut plan = Vec::with_capacity(n);
    for _ in 0..n {
        if rng.bit() == 0 {
            let ci = (rng.next() as usize) % init_vals.len();
            plan.push(Op::Ctx(ci, rng.bit()));
        } else {
            plan.push(Op::Byp(rng.bit()));
        }
    }
    let mut enc = CabacEncoder::new();
    let mut ectx = make_ctxs();
    for op in &plan {
        match op {
            Op::Ctx(ci, b) => enc.encode_bin(*b, &mut ectx[*ci]),
            Op::Byp(b) => enc.encode_bypass(*b),
        }
    }
    enc.encode_terminate(1);
    let bytes = enc.finish();

    let mut dec = CabacDecoder::new(&bytes);
    let mut dctx = make_ctxs();
    for (i, op) in plan.iter().enumerate() {
        let got = match op {
            Op::Ctx(ci, _) => dec.decode_bin(&mut dctx[*ci]),
            Op::Byp(_) => dec.decode_bypass(),
        };
        let want = match op {
            Op::Ctx(_, b) => *b,
            Op::Byp(b) => *b,
        };
        assert_eq!(got, want, "bin {i} mismatch (seed {seed})");
    }
    assert_eq!(dec.decode_terminate(), 1, "terminate (seed {seed})");
}

#[test]
fn roundtrip_context_and_bypass() {
    for seed in 1..200u64 {
        roundtrip_mixed(seed.wrapping_mul(0x9E3779B97F4A7C15), 64);
    }
}

#[test]
fn roundtrip_long_sequences() {
    for seed in 1..20u64 {
        roundtrip_mixed(seed.wrapping_mul(0xD1B54A32D192ED03), 4000);
    }
}

#[test]
fn roundtrip_all_context_bins() {
    let mut rng = Rng(0xABCDEF);
    let qp = 28u8;
    for &iv in &[12u8, 77, 140, 222] {
        let mut plan = Vec::new();
        for _ in 0..2000 {
            plan.push(rng.bit());
        }
        let mut enc = CabacEncoder::new();
        let mut ec = CtxModel::init(iv, qp, 8);
        for &b in &plan {
            enc.encode_bin(b, &mut ec);
        }
        enc.encode_terminate(1);
        let bytes = enc.finish();
        let mut dec = CabacDecoder::new(&bytes);
        let mut dc = CtxModel::init(iv, qp, 8);
        for (i, &b) in plan.iter().enumerate() {
            assert_eq!(dec.decode_bin(&mut dc), b, "iv {iv} bin {i}");
        }
        assert_eq!(dec.decode_terminate(), 1);
    }
}

#[test]
fn probability_adapts_toward_input() {
    let mut c = CtxModel::init(35, 32, 8);
    let prob_before = c.state[0] as u32 + c.state[1] as u32;
    let lps_before = c.get_lps(384);
    for _ in 0..16 {
        c.update(1);
    }
    let prob_after = c.state[0] as u32 + c.state[1] as u32;
    let lps_after = c.get_lps(384);
    assert!(
        prob_after > prob_before,
        "estimate must rise ({prob_after} > {prob_before})"
    );
    assert!(
        lps_after <= lps_before,
        "LPS must not grow ({lps_after} <= {lps_before})"
    );
}

#[test]
fn contexts_initialise_in_range() {
    let c = Contexts::new_intra(32);
    for ctx in c
        .split_flag
        .iter()
        .chain(c.split_qt_flag.iter())
        .chain(c.mtt_split_vertical.iter())
        .chain(c.mtt_split_binary.iter())
        .chain(c.sig_flag_st1.iter())
        .chain(c.sig_flag_st2.iter())
        .chain(c.sig_flag_c_st1.iter())
        .chain(c.sig_flag_c_st2.iter())
    {
        assert!(ctx.mps() <= 1);
    }
}

#[test]
fn init_is_qp_dependent() {
    let a = Contexts::new_intra(12);
    let b = Contexts::new_intra(51);
    let differ = a
        .split_flag
        .iter()
        .zip(b.split_flag.iter())
        .any(|(x, y)| x.get_lps(384) != y.get_lps(384));
    assert!(differ, "context init should depend on QP");
}

#[test]
fn init_state_formula_values() {
    // init value 35 at QP 32: slope 0, offset 55 -> state 55 << 8 = 14080.
    let c = CtxModel::init(35, 32, 8);
    assert_eq!(c.state, [14080 & 0x7FE0, 14080 & 0x7FFE]);
    // window size 8 -> rate0 = 2 + 2 = 4, rate1 = 3 + 4 + 0 = 7.
    assert_eq!(c.rate, 0x47);
    assert_eq!(c.mps(), 0);
    // Extreme init values clip to the state range 1..=127.
    let hi = CtxModel::init(255, 63, 0);
    assert_eq!(hi.state[1], (127u16 << 8) & 0x7FFE);
    let lo = CtxModel::init(0, 63, 0);
    assert_eq!(lo.state[1], (1u16 << 8) & 0x7FFE);
}

#[test]
fn encoder_reset_and_flushed_len() {
    let mut enc = CabacEncoder::new();
    assert_eq!(enc.range(), 510);
    for _ in 0..40 {
        enc.encode_bypass(1);
    }
    let len = enc.flushed_len();
    assert!(len <= 6);
    enc.reset();
    assert_eq!(enc.range(), 510);
    assert_eq!(enc.flushed_len(), 0);
    let mut c = CtxModel::init(35, 32, 8);
    enc.encode_bin(1, &mut c);
    enc.encode_terminate(1);
    let bytes = enc.finish();
    let mut dec = CabacDecoder::new(&bytes);
    let mut d = CtxModel::init(35, 32, 8);
    assert_eq!(dec.decode_bin(&mut d), 1);
    assert_eq!(dec.decode_terminate(), 1);
}
