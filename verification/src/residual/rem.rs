//! The Golomb-Rice / limited Exp-Golomb binarization of coefficient
//! remainders, coded as bypass bins.
use vstd::prelude::*;
use vstd::arithmetic::power2::pow2;
use crate::bitstream::low_bits;
use crate::cabac::engine::{
    bits_prefix,
    ArithModel, CabacDecoder, CabacEncoder, DecModel, d_decode_bypass, m_bypass_seq,
};

verus! {

/// Unary prefix length below which the remainder is plain Golomb-Rice.
pub const COEF_REMAIN_BIN_REDUCTION: u32 = 5;

/// Escape suffix length (largest transform dynamic range).
pub const MAX_LOG2_TR_DR: u32 = 15;

/// Largest remainder the binarization is used with.
pub const REM_MAX: u32 = 0x1000_0000;

/// Exp-Golomb prefix length of `cv`: the least `pl ≥ start` with
/// `cv ≤ 2^(pl+1) − 2` (at most 11).
pub open spec fn eg_prefix_len(cv: int, pl: int) -> int
    decreases 11 - pl,
{
    if pl >= 11 || cv <= 2 * pow2(pl as nat) - 2 {
        pl
    } else {
        eg_prefix_len(cv, pl + 1)
    }
}

/// The bins of remainder `bins` with Rice parameter `rice`: below
/// `5·2^rice` a unary prefix of `bins >> rice` ones and a zero, then `rice`
/// low bits; above it `5 + pl` ones, then an Exp-Golomb suffix of
/// `pl + rice + 1` bits (`pl = 12` and a 15-bit suffix when the prefix
/// saturates).
pub open spec fn rem_bits(bins: int, rice: int) -> Seq<bool> {
    let p = pow2(rice as nat) as int;
    let low = bins % p;
    if bins < 5 * p {
        let len = bins / p + 1;
        low_bits((pow2(len as nat) - 2) as u64, len as nat) + low_bits(low as u64, rice as nat)
    } else {
        let cv = bins / p - 5;
        let pl = if cv >= 4095 {
            12
        } else {
            eg_prefix_len(cv, 0)
        };
        let sl = if cv >= 4095 {
            15
        } else {
            pl + rice + 1
        };
        low_bits((pow2((pl + 5) as nat) - 1) as u64, (pl + 5) as nat) + low_bits(
            ((cv - (pow2(pl as nat) - 1)) * p + low) as u64,
            sl as nat,
        )
    }
}

/// Bypass-coding `a` then `b` is bypass-coding `a + b`.
pub proof fn lemma_bypass_seq_concat(m: ArithModel, a: Seq<bool>, b: Seq<bool>)
    ensures
        m_bypass_seq(m_bypass_seq(m, a), b) == m_bypass_seq(m, a + b),
    decreases b.len(),
{
    if b.len() > 0 {
        lemma_bypass_seq_concat(m, a, b.drop_last());
        assert((a + b).drop_last() =~= a + b.drop_last());
        assert((a + b).last() == b.last());
    }
}

/// Emit the bypass bins of one remainder (see [`rem_bits`]).
pub fn encode_rem_abs_ep(enc: &mut CabacEncoder, bins: u32, rice: u32)
    requires
        old(enc).wf(),
        old(enc).headroom() >= 64,
        rice <= 3,
        bins <= REM_MAX,
    ensures
        final(enc).wf(),
        bits_prefix(old(enc).model().bits, final(enc).model().bits),
        final(enc).model() == m_bypass_seq(old(enc).model(), rem_bits(bins as int, rice as int)),
        final(enc).model().outstanding <= old(enc).model().outstanding + 64,
{
    proof {
        vstd::arithmetic::power2::lemma2_to64();
        vstd::bits::lemma_u32_shl_is_mul(1, rice);
        vstd::bits::lemma_u32_shl_is_mul(COEF_REMAIN_BIN_REDUCTION, rice);
        vstd::arithmetic::power2::lemma_pow2_pos(rice as nat);
    }
    let p = 1u32 << rice;
    let threshold = COEF_REMAIN_BIN_REDUCTION << rice;
    let low = bins % p;
    let ghost m0 = enc.model();
    if bins < threshold {
        let length = bins / p + 1;
        proof {
            assert(length <= 5) by {
                vstd::arithmetic::div_mod::lemma_div_by_multiple_is_strongly_ordered(bins as int, (5 * p) as int, 5, p as int);
                vstd::arithmetic::div_mod::lemma_div_multiples_vanish(5, p as int);
            }
            vstd::bits::lemma_u32_shl_is_mul(1, length);
        }
        let prefix = (1u32 << length) - 2;
        enc.encode_bypass_bits(prefix, length);
        enc.encode_bypass_bits(low, rice);
        proof {
            lemma_bypass_seq_concat(m0, low_bits(prefix as u64, length as nat), low_bits(low as u64, rice as nat));
        }
    } else {
        let max_prefix_len = 32 - COEF_REMAIN_BIN_REDUCTION - MAX_LOG2_TR_DR;
        proof {
            assert(bins / p >= 5) by {
                vstd::arithmetic::div_mod::lemma_div_is_ordered(5 * p as int, bins as int, p as int);
                vstd::arithmetic::div_mod::lemma_div_multiples_vanish(5, p as int);
            }
            vstd::arithmetic::div_mod::lemma_div_is_ordered_by_denominator(bins as int, 1, p as int);
            vstd::bits::lemma_u32_shl_is_mul(1, max_prefix_len);
        }
        let code_value = bins / p - COEF_REMAIN_BIN_REDUCTION;
        let mut prefix_len: u32 = 0;
        let suffix_len: u32;
        if code_value >= (1u32 << max_prefix_len) - 1 {
            prefix_len = max_prefix_len;
            suffix_len = MAX_LOG2_TR_DR;
        } else {
            let mut pw: u32 = 1;
            while code_value > 2 * pw - 2
                invariant
                    prefix_len <= 11,
                    pw as int == pow2(prefix_len as nat),
                    1 <= pw <= 2048,
                    code_value >= pw - 1,
                    code_value < 4095,
                    eg_prefix_len(code_value as int, prefix_len as int) == eg_prefix_len(code_value as int, 0),
                decreases 11 - prefix_len,
            {
                proof {
                    vstd::arithmetic::power2::lemma2_to64();
                    if prefix_len < 10 {
                        vstd::arithmetic::power2::lemma_pow2_strictly_increases(prefix_len as nat, 10);
                    }
                    vstd::arithmetic::power2::lemma_pow2_unfold((prefix_len + 1) as nat);
                }
                prefix_len += 1;
                pw = 2 * pw;
            }
            suffix_len = prefix_len + rice + 1;
        }
        proof {
            vstd::bits::lemma_u32_shl_is_mul(1, prefix_len);
            vstd::bits::lemma_u32_shl_is_mul(1, (prefix_len + COEF_REMAIN_BIN_REDUCTION) as u32);
            if prefix_len < 12 {
                vstd::arithmetic::power2::lemma_pow2_strictly_increases(prefix_len as nat, 12);
            }
        }
        let total_prefix_len = prefix_len + COEF_REMAIN_BIN_REDUCTION;
        let prefix = (1u32 << total_prefix_len) - 1;
        let cv_rest = code_value - ((1u32 << prefix_len) - 1);
        proof {
            vstd::arithmetic::div_mod::lemma_fundamental_div_mod(bins as int, p as int);
            vstd::arithmetic::div_mod::lemma_mod_bound(bins as int, p as int);
            assert(cv_rest * p <= bins) by (nonlinear_arith)
                requires
                    cv_rest <= bins / p,
                    p > 0,
                    bins == p * (bins / p) + bins % p,
                    bins % p >= 0,
            ;
        }
        let suffix = cv_rest * p + low;
        enc.encode_bypass_bits(prefix, total_prefix_len);
        enc.encode_bypass_bits(suffix, suffix_len);
        proof {
            lemma_bypass_seq_concat(
                m0,
                low_bits(prefix as u64, total_prefix_len as nat),
                low_bits(suffix as u64, suffix_len as nat),
            );
        }
    }
}

/// Decoder state and value after `n` bypass bins, most significant first.
pub open spec fn d_bypass_run(data: Seq<u8>, m: DecModel, n: nat) -> (DecModel, int)
    decreases n,
{
    if n == 0 {
        (m, 0)
    } else {
        let (m1, v) = d_bypass_run(data, m, (n - 1) as nat);
        let (m2, b) = d_decode_bypass(data, m1);
        (m2, 2 * v + b)
    }
}

/// Decode `n` bypass bins into an integer, most significant first.
pub fn dec_bits(dec: &mut CabacDecoder, n: u32) -> (r: u32)
    requires
        old(dec).wf(),
        old(dec).headroom() >= 8 + n,
        n <= 31,
    ensures
        final(dec).wf(),
        final(dec).data() == old(dec).data(),
        (final(dec).model(), r as int) == d_bypass_run(old(dec).data(), old(dec).model(), n as nat),
        final(dec).model().pos == old(dec).model().pos + n,
        (r as int) < pow2(n as nat),
{
    let mut v: u32 = 0;
    let mut i: u32 = 0;
    proof {
        vstd::arithmetic::power2::lemma2_to64();
    }
    while i < n
        invariant
            dec.wf(),
            i <= n <= 31,
            dec.data() == old(dec).data(),
            old(dec).headroom() >= 8 + n,
            dec.model().pos == old(dec).model().pos + i,
            (dec.model(), v as int) == d_bypass_run(old(dec).data(), old(dec).model(), i as nat),
            (v as int) < pow2(i as nat),
        decreases n - i,
    {
        let b = dec.decode_bypass();
        proof {
            vstd::arithmetic::power2::lemma_pow2_unfold((i + 1) as nat);
            vstd::arithmetic::power2::lemma_pow2_strictly_increases((i + 1) as nat, 32);
            vstd::arithmetic::power2::lemma2_to64();
        }
        v = 2 * v + b as u32;
        i += 1;
    }
    v
}

/// Decoder state and count after reading up to `cap − k` further leading
/// ones (a zero read stops the count and is consumed).
pub open spec fn d_ones(data: Seq<u8>, m: DecModel, cap: int, k: int) -> (DecModel, int)
    decreases cap - k,
{
    if k >= cap {
        (m, k)
    } else {
        let (m1, b) = d_decode_bypass(data, m);
        if b == 1 {
            d_ones(data, m1, cap, k + 1)
        } else {
            (m1, k)
        }
    }
}

/// Decoder state and remainder after decoding one binarized remainder
/// (the inverse reading of [`rem_bits`]).
pub open spec fn d_rem(data: Seq<u8>, m: DecModel, rice: int) -> (DecModel, int) {
    let p = pow2(rice as nat) as int;
    let (m1, ones) = d_ones(data, m, 17, 0);
    if ones < 5 {
        let (m2, v) = d_bypass_run(data, m1, rice as nat);
        (m2, ones * p + v)
    } else {
        let pl = ones - 5;
        let sl = if ones < 17 {
            pl + rice
        } else {
            15
        };
        let (m2, suf) = d_bypass_run(data, m1, sl as nat);
        let cv = (pow2(pl as nat) - 1) + suf / p;
        (m2, (cv + 5) * p + suf % p)
    }
}

/// Decode one binarized remainder (see [`d_rem`]); a saturated 17-one
/// prefix reads the 15-bit escape suffix the encoder writes for it.
pub fn decode_rem_abs_ep(dec: &mut CabacDecoder, rice: u32) -> (r: u32)
    requires
        old(dec).wf(),
        old(dec).headroom() >= 64,
        rice <= 3,
    ensures
        final(dec).wf(),
        final(dec).data() == old(dec).data(),
        (final(dec).model(), r as int) == d_rem(old(dec).data(), old(dec).model(), rice as int),
        old(dec).model().pos <= final(dec).model().pos <= old(dec).model().pos + 33,
        r <= 0x20_0000,
{
    let cutoff = COEF_REMAIN_BIN_REDUCTION;
    let cap = cutoff + (32 - cutoff - MAX_LOG2_TR_DR);
    let mut ones = 0u32;
    let mut stop = false;
    let ghost m0 = dec.model();
    while !stop && ones < cap
        invariant
            dec.wf(),
            dec.data() == old(dec).data(),
            cap == 17,
            ones <= 17,
            old(dec).headroom() >= 64,
            m0 == old(dec).model(),
            dec.model().pos == m0.pos + ones + (if stop {
                1int
            } else {
                0
            }),
            stop ==> d_ones(dec.data(), m0, 17, 0) == (dec.model(), ones as int),
            !stop ==> d_ones(dec.data(), dec.model(), 17, ones as int) == d_ones(dec.data(), m0, 17, 0),
        decreases 17 - ones + (if stop {
            0int
        } else {
            1
        }),
    {
        let b = dec.decode_bypass();
        if b == 1 {
            ones += 1;
        } else {
            stop = true;
        }
    }
    proof {
        vstd::arithmetic::power2::lemma2_to64();
        vstd::bits::lemma_u32_shl_is_mul(1, rice);
        vstd::arithmetic::power2::lemma_pow2_pos(rice as nat);
    }
    let p = 1u32 << rice;
    if ones < cutoff {
        let v = dec_bits(dec, rice);
        proof {
            assert(ones * p + v <= 4 * 8 + 8) by (nonlinear_arith)
                requires
                    ones <= 4,
                    p <= 8,
                    v < p,
            ;
        }
        ones * p + v
    } else {
        let pl = ones - cutoff;
        let sl = if ones < cap { pl + rice } else { MAX_LOG2_TR_DR };
        let suf = dec_bits(dec, sl);
        proof {
            vstd::bits::lemma_u32_shl_is_mul(1, pl);
            vstd::arithmetic::power2::lemma_pow2_strictly_increases(pl as nat, 13);
            vstd::arithmetic::power2::lemma_pow2_strictly_increases(sl as nat, 16);
            vstd::arithmetic::div_mod::lemma_div_is_ordered_by_denominator(suf as int, 1, p as int);
            vstd::arithmetic::div_mod::lemma_mod_bound(suf as int, p as int);
        }
        let cv = ((1u32 << pl) - 1) + suf / p;
        proof {
            assert((cv + 5) * p + suf % p <= 0x20_0000) by (nonlinear_arith)
                requires
                    cv <= 0x1000 + 0x1_0000,
                    p <= 8,
                    suf % p < p,
            ;
        }
        (cv + cutoff) * p + suf % p
    }
}

/// Reading a run of bypass bins here is the engine's reading of them.
pub proof fn lemma_run_is_bits(data: Seq<u8>, d: DecModel, n: nat)
    ensures
        d_bypass_run(data, d, n) == crate::cabac::engine::d_bypass_bits(data, d, n),
    decreases n,
{
    if n > 0 {
        lemma_run_is_bits(data, d, (n - 1) as nat);
    }
}

} // verus!
