//! Intra prediction-mode signalling: the most-probable-mode (MPM) list
//! derivation (H.266 §8.4.2) and the `intra_luma_pred_mode` /
//! `intra_chroma_pred_mode` syntax (MPM flag, not-planar flag, MPM index,
//! truncated-binary remainder, derived/fixed chroma candidates and CCLM).
use vstd::prelude::*;
use vstd::arithmetic::power2::pow2;
use vstd::relations::sorted_by;
use crate::bitstream::low_bits;
use crate::cabac::contexts::Contexts;
use crate::cabac::engine::{
    bits_prefix,
    lemma_bypass_seq_push, lemma_log2_floor_lt, lemma_log2_floor_nonneg, log2_floor, m_bypass_seq,
    m_ctx_bin, ArithModel, CabacDecoder, CabacEncoder, DecModel, d_ctx_bin, d_bypass_bits, d_decode_bypass,
    m_regs_ok, m_encode_bypass,
};
use crate::cabac::roundtrip::{
    contains, in_step, lemma_bypass, lemma_bypass_seq_nests, lemma_contains_back, lemma_ctx_nests,
    lemma_dec_bypass, lemma_dec_bypass_bits, lemma_dec_ctx_bin, lemma_nests_compose, m_pre,
    lemma_bypass_seq_first,
};

verus! {

/// Planar intra mode index.
pub const PLANAR_IDX: u8 = 0;

/// DC intra mode index.
pub const DC_IDX: u8 = 1;

/// Horizontal angular mode index.
pub const HOR_IDX: u8 = 18;

/// Vertical angular mode index.
pub const VER_IDX: u8 = 50;

/// Top-right diagonal angular mode index (VDIA).
pub const VDIA_IDX: u8 = 66;

/// Number of luma modes (planar, DC, and 65 angular).
pub const NUM_LUMA_MODE: u8 = 67;

/// Number of most-probable modes.
pub const NUM_MPM: usize = 6;

/// Number of non-MPM modes coded by the truncated-binary remainder.
pub const NUM_REM_MODES: u32 = 61;

/// Chroma-mode markers for the three CCLM modes: LT (LM_CHROMA), L (MDLM_L),
/// T (MDLM_T).
pub const CCLM_LT_MODE: u8 = 81;

pub const CCLM_L_MODE: u8 = 82;

pub const CCLM_T_MODE: u8 = 83;

/// Modular angular wrap used by the MPM derivation (`(m % 64) + 2`).
pub open spec fn mpm_wrap(m: int) -> u8 {
    ((m % 64) + 2) as u8
}

/// The six most probable modes for the left and above neighbour modes
/// (H.266 §8.4.2, `PU::getIntraMPMs`).
pub open spec fn spec_build_mpm(left: int, above: int) -> Seq<u8> {
    let off: int = 61;
    if left == above {
        if left > 1 {
            seq![0u8, left as u8, mpm_wrap(left + off), mpm_wrap(left - 1), mpm_wrap(left + off - 1), mpm_wrap(left)]
        } else {
            seq![0u8, 1u8, 50u8, 18u8, 46u8, 54u8]
        }
    } else if left > 1 && above > 1 {
        let max_c = if left > above { left } else { above };
        let min_c = if left > above { above } else { left };
        let diff = max_c - min_c;
        if diff == 1 {
            seq![0u8, left as u8, above as u8, mpm_wrap(min_c + off), mpm_wrap(max_c - 1), mpm_wrap(min_c + off - 1)]
        } else if diff >= 62 {
            seq![0u8, left as u8, above as u8, mpm_wrap(min_c - 1), mpm_wrap(max_c + off), mpm_wrap(min_c)]
        } else if diff == 2 {
            seq![0u8, left as u8, above as u8, mpm_wrap(min_c - 1), mpm_wrap(min_c + off), mpm_wrap(max_c - 1)]
        } else {
            seq![0u8, left as u8, above as u8, mpm_wrap(min_c + off), mpm_wrap(min_c - 1), mpm_wrap(max_c + off)]
        }
    } else if left + above >= 2 {
        let m1 = if left > above { left } else { above };
        seq![0u8, m1 as u8, mpm_wrap(m1 + off), mpm_wrap(m1 - 1), mpm_wrap(m1 + off - 1), mpm_wrap(m1)]
    } else {
        seq![0u8, 1u8, 50u8, 18u8, 46u8, 54u8]
    }
}

/// A neighbour mode, with an unavailable neighbour read as planar.
pub open spec fn nb_mode(m: Option<u8>) -> int {
    match m {
        Some(v) => v as int,
        None => 0,
    }
}

fn wrap(m: i32) -> (r: u8)
    requires
        0 <= m < 1024,
    ensures
        r == mpm_wrap(m as int),
{
    ((m % 64) + 2) as u8
}

/// Build the 6-entry MPM list from the left and above neighbour luma modes
/// (`None` when unavailable, treated as planar).
pub fn build_mpm(left: Option<u8>, above: Option<u8>) -> (mpm: [u8; 6])
    ensures
        mpm@ == spec_build_mpm(nb_mode(left), nb_mode(above)),
{
    let left = match left {
        Some(v) => v as i32,
        None => 0i32,
    };
    let above = match above {
        Some(v) => v as i32,
        None => 0i32,
    };
    let dc = DC_IDX as i32;
    let offset: i32 = 61;
    let mut mpm: [u8; 6] = [PLANAR_IDX, DC_IDX, VER_IDX, HOR_IDX, VER_IDX - 4, VER_IDX + 4];
    if left == above {
        if left > dc {
            mpm[1] = left as u8;
            mpm[2] = wrap(left + offset);
            mpm[3] = wrap(left - 1);
            mpm[4] = wrap(left + offset - 1);
            mpm[5] = wrap(left);
        }
    } else if left > dc && above > dc {
        mpm[1] = left as u8;
        mpm[2] = above as u8;
        let (max_c, min_c) = if left > above {
            (left, above)
        } else {
            (above, left)
        };
        let diff = max_c - min_c;
        if diff == 1 {
            mpm[3] = wrap(min_c + offset);
            mpm[4] = wrap(max_c - 1);
            mpm[5] = wrap(min_c + offset - 1);
        } else if diff >= 62 {
            mpm[3] = wrap(min_c - 1);
            mpm[4] = wrap(max_c + offset);
            mpm[5] = wrap(min_c);
        } else if diff == 2 {
            mpm[3] = wrap(min_c - 1);
            mpm[4] = wrap(min_c + offset);
            mpm[5] = wrap(max_c - 1);
        } else {
            mpm[3] = wrap(min_c + offset);
            mpm[4] = wrap(min_c - 1);
            mpm[5] = wrap(max_c + offset);
        }
    } else if left + above >= 2 {
        let m1 = if left > above {
            left
        } else {
            above
        };
        mpm[1] = m1 as u8;
        mpm[2] = wrap(m1 + offset);
        mpm[3] = wrap(m1 - 1);
        mpm[4] = wrap(m1 + offset - 1);
        mpm[5] = wrap(m1);
    }
    assert(mpm@ =~= spec_build_mpm(left as int, above as int));
    mpm
}

proof fn lemma_wrap(m: int)
    requires
        0 <= m < 128,
    ensures
        m < 64 ==> mpm_wrap(m) == m + 2,
        m >= 64 ==> mpm_wrap(m) == m - 62,
{
}

proof fn lemma_mpm_one_angular(m1: int)
    requires
        2 <= m1 < 67,
    ensures
        ({
            let s = seq![0u8, m1 as u8, mpm_wrap(m1 + 61), mpm_wrap(m1 - 1), mpm_wrap(m1 + 60), mpm_wrap(m1)];
            &&& forall|i: int| 0 <= i < 6 ==> #[trigger] s[i] < 67
            &&& forall|i: int, j: int| 0 <= i < j < 6 ==> s[i] != s[j]
        }),
{
    lemma_wrap(m1 + 61);
    lemma_wrap(m1 - 1);
    lemma_wrap(m1 + 60);
    lemma_wrap(m1);
}

#[verifier::rlimit(50)]
proof fn lemma_mpm_two_angular(left: int, above: int)
    requires
        2 <= left < 67,
        2 <= above < 67,
        left != above,
    ensures
        ({
            let s = spec_build_mpm(left, above);
            &&& forall|i: int| 0 <= i < 6 ==> #[trigger] s[i] < 67
            &&& forall|i: int, j: int| 0 <= i < j < 6 ==> s[i] != s[j]
        }),
{
    let max_c = if left > above { left } else { above };
    let min_c = if left > above { above } else { left };
    lemma_wrap(min_c + 61);
    lemma_wrap(max_c - 1);
    lemma_wrap(min_c + 60);
    lemma_wrap(min_c - 1);
    lemma_wrap(max_c + 61);
    lemma_wrap(min_c);
}

/// For valid neighbour modes the MPM list starts with planar and holds six
/// distinct luma modes.
pub proof fn lemma_mpm_valid(left: int, above: int)
    requires
        0 <= left < 67,
        0 <= above < 67,
    ensures
        spec_build_mpm(left, above).len() == 6,
        spec_build_mpm(left, above)[0] == 0,
        forall|i: int| 0 <= i < 6 ==> #[trigger] spec_build_mpm(left, above)[i] < 67,
        forall|i: int, j: int|
            0 <= i < j < 6 ==> spec_build_mpm(left, above)[i] != spec_build_mpm(left, above)[j],
{
    if left == above {
        if left > 1 {
            lemma_mpm_one_angular(left);
        }
    } else if left > 1 && above > 1 {
        lemma_mpm_two_angular(left, above);
    } else if left + above >= 2 {
        let m1 = if left > above { left } else { above };
        lemma_mpm_one_angular(m1);
    }
}


// ---------------------------------------------------------------------------
// Truncated-binary code
// ---------------------------------------------------------------------------
/// Two to the power `floor(log2 x)` brackets a positive `x`.
pub proof fn lemma_log2_floor_pow2(x: int)
    requires
        x >= 1,
    ensures
        0 <= log2_floor(x),
        pow2(log2_floor(x) as nat) <= x < 2 * pow2(log2_floor(x) as nat),
    decreases x,
{
    vstd::arithmetic::power2::lemma2_to64();
    if x > 1 {
        lemma_log2_floor_pow2(x / 2);
        vstd::arithmetic::power2::lemma_pow2_unfold((log2_floor(x / 2) + 1) as nat);
    }
}

/// `floorLog2` of a positive value.
pub fn floor_log2(x: u32) -> (r: u32)
    requires
        x > 0,
    ensures
        r == log2_floor(x as int),
        r < 32,
{
    let mut r: u32 = 0;
    let mut t: u32 = x;
    proof {
        vstd::arithmetic::power2::lemma2_to64();
        lemma_log2_floor_lt(x as int, 32);
        lemma_log2_floor_nonneg(x as int);
    }
    while t > 1
        invariant
            1 <= t <= x,
            r + log2_floor(t as int) == log2_floor(x as int),
            log2_floor(x as int) < 32,
            log2_floor(t as int) >= 0,
        decreases t,
    {
        proof {
            lemma_log2_floor_nonneg(t as int / 2);
        }
        t = t / 2;
        r += 1;
    }
    r
}

/// Number of short (`floor(log2 n)`-bit) codewords in a truncated-binary code
/// over `n` symbols.
pub open spec fn trunc_bin_short(n: nat) -> int {
    2 * pow2(log2_floor(n as int) as nat) - n
}

/// Truncated-binary codeword of `symbol` among `n` symbols (`xWriteTruncBinCode`):
/// the first `u` symbols take `k = floor(log2 n)` bits, the rest `k + 1` bits
/// after an offset of `u`.
pub open spec fn trunc_bin_bits(symbol: nat, n: nat) -> Seq<bool> {
    let k = log2_floor(n as int) as nat;
    let u = trunc_bin_short(n);
    if symbol < u {
        low_bits(symbol as u64, k)
    } else {
        low_bits((symbol + u) as u64, k + 1)
    }
}

/// Encode `symbol` in `[0, num_symbols)` with a truncated-binary code, via
/// equal-probability bypass bins.
pub fn encode_trunc_bin(enc: &mut CabacEncoder, symbol: u32, num_symbols: u32)
    requires
        old(enc).wf(),
        old(enc).headroom() >= 32,
        symbol < num_symbols,
    ensures
        final(enc).wf(),
        bits_prefix(old(enc).model().bits, final(enc).model().bits),
        final(enc).model() == m_bypass_seq(
            old(enc).model(),
            trunc_bin_bits(symbol as nat, num_symbols as nat),
        ),
        final(enc).model().outstanding <= old(enc).model().outstanding + 32,
{
    let thresh = floor_log2(num_symbols);
    proof {
        lemma_log2_floor_pow2(num_symbols as int);
        vstd::bits::lemma_u32_shl_is_mul(1, thresh);
        vstd::bits::lemma_u32_pow2_no_overflow(thresh as nat);
        vstd::arithmetic::power2::lemma2_to64();
        if thresh < 31 {
            vstd::arithmetic::power2::lemma_pow2_strictly_increases(thresh as nat, 31);
        }
    }
    let val = 1u32 << thresh;
    let b = num_symbols - val;
    if symbol < val - b {
        enc.encode_bypass_bits(symbol, thresh);
    } else {
        enc.encode_bypass_bits(symbol + (val - b), thresh + 1);
    }
}

// ---------------------------------------------------------------------------
// BDPCM mode
// ---------------------------------------------------------------------------
/// Code `intra_bdpcm_*_flag` and, when set, `intra_bdpcm_*_dir_flag`
/// (H.266 §7.3.11.5). `mode` is 0 = none, 1 = horizontal, 2 = vertical; the
/// direction bin is 0 for horizontal, 1 for vertical. `is_luma` selects the
/// context pair (0/1 for luma, 2/3 for chroma).
pub fn encode_bdpcm_mode(enc: &mut CabacEncoder, ctx: &mut Contexts, mode: u8, is_luma: bool)
    requires
        old(enc).wf(),
        old(enc).headroom() >= 16,
    ensures
        final(enc).wf(),
        bits_prefix(old(enc).model().bits, final(enc).model().bits),
        final(enc).model().outstanding <= old(enc).model().outstanding + 16,
        ({
            let c: int = if is_luma { 0 } else { 2 };
            let m1 = m_ctx_bin(old(enc).model(), (mode != 0) as u8, old(ctx).bdpcm_mode[c]);
            final(enc).model() == if mode == 0 {
                m1
            } else {
                m_ctx_bin(m1, (mode == 2) as u8, old(ctx).bdpcm_mode[c + 1])
            }
        }),
{
    let c: usize = if is_luma {
        0
    } else {
        2
    };
    enc.encode_bin((mode != 0) as u8, &mut ctx.bdpcm_mode[c]);
    if mode != 0 {
        enc.encode_bin((mode == 2) as u8, &mut ctx.bdpcm_mode[c + 1]);
    }
}

/// The decoder state and the BDPCM mode (0 none, 1 horizontal, 2 vertical)
/// read by [`decode_bdpcm_mode`]: the flag bin, then, when set, the
/// direction bin.
pub open spec fn bdpcm_mode_decode(data: Seq<u8>, m: DecModel, ctx: Contexts, is_luma: bool) -> (DecModel, u8) {
    let c: int = if is_luma { 0 } else { 2 };
    let (m1, f) = d_ctx_bin(data, m, ctx.bdpcm_mode[c]);
    if f == 0 {
        (m1, 0u8)
    } else {
        let (m2, d) = d_ctx_bin(data, m1, ctx.bdpcm_mode[c + 1]);
        (m2, if d == 1 { 2u8 } else { 1u8 })
    }
}

/// Decode `intra_bdpcm_*_flag` / `intra_bdpcm_*_dir_flag`, the bins that
/// [`encode_bdpcm_mode`] writes. Returns 0 = none, 1 = horizontal, 2 = vertical.
pub fn decode_bdpcm_mode(dec: &mut CabacDecoder, ctx: &mut Contexts, is_luma: bool) -> (r: u8)
    requires
        old(dec).wf(),
        old(dec).headroom() >= 16,
    ensures
        final(dec).wf(),
        final(dec).data() == old(dec).data(),
        old(dec).model().pos <= final(dec).model().pos <= old(dec).model().pos + 16,
        r <= 2,
        (final(dec).model(), r) == bdpcm_mode_decode(old(dec).data(), old(dec).model(), *old(ctx), is_luma),
{
    let c: usize = if is_luma {
        0
    } else {
        2
    };
    if dec.decode_bin(&mut ctx.bdpcm_mode[c]) == 0 {
        return 0;
    }
    if dec.decode_bin(&mut ctx.bdpcm_mode[c + 1]) == 1 {
        2
    } else {
        1
    }
}


// ---------------------------------------------------------------------------
// Sorted MPM list
// ---------------------------------------------------------------------------
/// Ascending order on modes.
pub open spec fn mode_leq() -> spec_fn(u8, u8) -> bool {
    |a: u8, b: u8| a <= b
}

/// The MPM list in ascending order.
pub open spec fn sorted_mpm(mpm: Seq<u8>) -> Seq<u8> {
    mpm.sort_by(mode_leq())
}

proof fn lemma_mode_leq_total()
    ensures
        vstd::relations::total_ordering(mode_leq()),
{
    let f = mode_leq();
    assert(vstd::relations::reflexive(f));
    assert(vstd::relations::antisymmetric(f));
    assert(vstd::relations::transitive(f));
    assert(vstd::relations::strongly_connected(f));
}

/// Sort the six MPM entries in ascending order (insertion sort).
fn sort_mpm(a: [u8; 6]) -> (r: [u8; 6])
    ensures
        r@ == sorted_mpm(a@),
{
    broadcast use vstd::multiset::group_multiset_axioms;
    let mut s = a;
    let mut i: usize = 1;
    while i < 6
        invariant
            1 <= i <= 6,
            s@.to_multiset() == a@.to_multiset(),
            forall|p: int, q: int| 0 <= p < q < i ==> s[p] <= s[q],
        decreases 6 - i,
    {
        let mut j: usize = i;
        while j > 0 && s[j - 1] > s[j]
            invariant
                0 <= j <= i < 6,
                s@.to_multiset() == a@.to_multiset(),
                forall|p: int, q: int| 0 <= p < q <= i && p != j && q != j ==> s[p] <= s[q],
                forall|q: int| j < q <= i ==> s[j as int] <= s[q],
                0 < j < i ==> s[j - 1] <= s[j + 1],
            decreases j,
        {
            let ghost s0 = s@;
            let t = s[j - 1];
            s[j - 1] = s[j];
            s[j] = t;
            proof {
                let s1 = s0.update(j - 1, s0[j as int]);
                assert(s@ =~= s1.update(j as int, t));
                vstd::seq_lib::to_multiset_update(s0, j - 1, s0[j as int]);
                vstd::seq_lib::to_multiset_update(s1, j as int, t);
                assert(s1[j as int] == s0[j as int]);
                vstd::seq_lib::to_multiset_contains(s0, t);
                vstd::seq_lib::to_multiset_contains(s1.insert(0, t), s0[j as int]);
                assert(s0.contains(t)) by {
                    assert(s0[j - 1] == t);
                }
                assert(s@.to_multiset() =~= s0.to_multiset());
            }
            j -= 1;
        }
        i += 1;
    }
    proof {
        lemma_mode_leq_total();
        a@.lemma_sort_by_ensures(mode_leq());
        assert(sorted_by(s@, mode_leq()));
        vstd::seq_lib::lemma_sorted_unique(s@, sorted_mpm(a@), mode_leq());
    }
    s
}


// ---------------------------------------------------------------------------
// Luma mode syntax
// ---------------------------------------------------------------------------
/// Index of the first entry of `s` equal to `v`, looking from `i` on
/// (`s.len()` when there is none).
pub open spec fn first_pos(s: Seq<u8>, v: u8, i: nat) -> nat
    decreases s.len() - i,
{
    if i >= s.len() {
        s.len()
    } else if s[i as int] == v {
        i
    } else {
        first_pos(s, v, i + 1)
    }
}

/// Position of `mode` in the MPM list (6 when absent).
pub open spec fn mpm_index(mpm: Seq<u8>, mode: u8) -> nat {
    first_pos(mpm, mode, 0)
}

/// The bypass bins that extend the MPM index past the not-planar flag: a
/// truncated unary code of `idx - 1` with at most four bins.
pub open spec fn mpm_idx_bins(idx: nat) -> Seq<bool> {
    Seq::new(if idx >= 4 { 4 } else { idx }, |j: int| idx > j + 1)
}

/// The encoder's remainder: starting from `mode`, walk the sorted list `s`
/// from its top entry down, stepping down once past each entry below the
/// running value (`n` entries processed).
pub open spec fn rem_down(mode: int, s: Seq<u8>, n: nat) -> int
    decreases n,
{
    if n == 0 {
        mode
    } else {
        let r = rem_down(mode, s, (n - 1) as nat);
        if r > s[s.len() - n] as int {
            r - 1
        } else {
            r
        }
    }
}

/// The decoder's inverse walk: starting from the remainder, go up the sorted
/// list `s`, stepping up once past each entry at or below the running value.
pub open spec fn mode_up(rem: int, s: Seq<u8>, n: nat) -> int
    decreases n,
{
    if n == 0 {
        rem
    } else {
        let m = mode_up(rem, s, (n - 1) as nat);
        if m >= s[n - 1] as int {
            m + 1
        } else {
            m
        }
    }
}

/// The remainder coded for a luma mode outside the MPM list.
pub open spec fn luma_rem(mpm: Seq<u8>, mode: u8) -> int {
    rem_down(mode as int, sorted_mpm(mpm), 6)
}

/// The encoder state after `encode_luma_mode`.
pub open spec fn luma_mode_model(m: ArithModel, ctx: Contexts, mpm: Seq<u8>, mode: u8) -> ArithModel {
    let idx = mpm_index(mpm, mode);
    if idx < 6 {
        let m1 = m_ctx_bin(m, 1, ctx.intra_mpm_flag[0]);
        let m2 = m_ctx_bin(m1, (idx > 0) as u8, ctx.intra_planar_flag[1]);
        m_bypass_seq(m2, mpm_idx_bins(idx))
    } else {
        let m1 = m_ctx_bin(m, 0, ctx.intra_mpm_flag[0]);
        m_bypass_seq(m1, trunc_bin_bits(luma_rem(mpm, mode) as nat, 61))
    }
}

/// Encode the luma intra mode for one CU given its MPM list: the MPM flag,
/// then either the not-planar flag and the MPM index, or the truncated-binary
/// rank of the mode among the 61 non-MPM modes.
pub fn encode_luma_mode(enc: &mut CabacEncoder, ctx: &mut Contexts, mpm: &[u8; 6], mode: u8)
    requires
        old(enc).wf(),
        old(enc).headroom() >= 64,
        mpm_index(mpm@, mode) < 6 || luma_rem(mpm@, mode) < 61,
    ensures
        final(enc).wf(),
        bits_prefix(old(enc).model().bits, final(enc).model().bits),
        final(enc).model() == luma_mode_model(old(enc).model(), *old(ctx), mpm@, mode),
        final(enc).model().outstanding <= old(enc).model().outstanding + 64,
{
    let ghost m0 = enc.model();
    let ghost c0 = *ctx;
    let mut idx: usize = 0;
    while idx < 6 && mpm[idx] != mode
        invariant
            idx <= 6,
            first_pos(mpm@, mode, idx as nat) == mpm_index(mpm@, mode),
        decreases 6 - idx,
    {
        idx += 1;
    }
    if idx < 6 {
        enc.encode_bin(1, &mut ctx.intra_mpm_flag[0]);
        enc.encode_bin((idx > 0) as u8, &mut ctx.intra_planar_flag[1]);
        let ghost m2 = enc.model();
        proof {
            assert(mpm_idx_bins(idx as nat).subrange(0, 0) =~= Seq::<bool>::empty());
        }
        let mut k: usize = 1;
        while k <= 4 && idx >= k
            invariant
                1 <= k <= 5,
                idx < 6,
                k <= idx + 1,
                enc.wf(),
                bits_prefix(old(enc).model().bits, enc.model().bits),
                enc.model().outstanding <= m2.outstanding + (k - 1),
                m2.outstanding <= m0.outstanding + 16,
                m0.outstanding + 64 <= u32::MAX,
                enc.model() == m_bypass_seq(m2, mpm_idx_bins(idx as nat).subrange(0, k - 1)),
            decreases 5 - k,
        {
            let ghost pre = mpm_idx_bins(idx as nat).subrange(0, k - 1);
            enc.encode_bypass((idx > k) as u8);
            proof {
                lemma_bypass_seq_push(m2, pre, idx > k);
                assert(pre.push(idx > k) =~= mpm_idx_bins(idx as nat).subrange(0, k as int));
            }
            k += 1;
        }
        proof {
            assert(mpm_idx_bins(idx as nat).subrange(0, k - 1) =~= mpm_idx_bins(idx as nat));
        }
    } else {
        enc.encode_bin(0, &mut ctx.intra_mpm_flag[0]);
        let sorted = sort_mpm(*mpm);
        let mut rem: i32 = mode as i32;
        let mut n: usize = 0;
        while n < 6
            invariant
                n <= 6,
                sorted@ == sorted_mpm(mpm@),
                rem == rem_down(mode as int, sorted@, n as nat),
                0 <= rem <= mode,
            decreases 6 - n,
        {
            if rem > sorted[5 - n] as i32 {
                rem -= 1;
            }
            n += 1;
        }
        encode_trunc_bin(enc, rem as u32, 61);
    }
}

/// Read `n` bypass bins, most significant first.
fn dec_bypass_bits(dec: &mut CabacDecoder, n: u32) -> (r: u32)
    requires
        old(dec).wf(),
        n <= 31,
        old(dec).headroom() >= n + 8,
    ensures
        final(dec).wf(),
        final(dec).data() == old(dec).data(),
        final(dec).model().pos == old(dec).model().pos + n,
        r < pow2(n as nat),
        (final(dec).model(), r as int) == d_bypass_bits(old(dec).data(), old(dec).model(), n as nat),
{
    let mut v: u32 = 0;
    let mut i: u32 = 0;
    proof {
        vstd::arithmetic::power2::lemma2_to64();
    }
    while i < n
        invariant
            i <= n <= 31,
            dec.wf(),
            dec.data() == old(dec).data(),
            dec.model().pos == old(dec).model().pos + i,
            old(dec).headroom() >= n + 8,
            v < pow2(i as nat),
            (dec.model(), v as int) == d_bypass_bits(old(dec).data(), old(dec).model(), i as nat),
        decreases n - i,
    {
        proof {
            vstd::arithmetic::power2::lemma2_to64();
            vstd::arithmetic::power2::lemma_pow2_unfold((i + 1) as nat);
            vstd::arithmetic::power2::lemma_pow2_strictly_increases((i + 1) as nat, 32);
        }
        let b = dec.decode_bypass();
        v = v * 2 + b as u32;
        i += 1;
    }
    v
}

/// The MPM index after `k` (1 ≤ k ≤ 5): unary bypass bins, at most four.
pub open spec fn mpm_idx_decode(data: Seq<u8>, m: DecModel, k: nat) -> (DecModel, nat)
    decreases 5 - k,
{
    if k >= 5 {
        (m, 5)
    } else {
        let (m1, b) = d_decode_bypass(data, m);
        if b == 0 {
            (m1, k)
        } else {
            mpm_idx_decode(data, m1, k + 1)
        }
    }
}

/// The decoder state and the luma mode read by [`decode_luma_mode`]: the MPM
/// flag; then the not-planar flag and the MPM index, or the truncated-binary
/// rank (5 or 6 bypass bins) among the 61 non-MPM modes, mapped back past the
/// sorted MPM list.
pub open spec fn luma_mode_decode(data: Seq<u8>, m: DecModel, ctx: Contexts, mpm: Seq<u8>) -> (DecModel, u8) {
    let (m1, f) = d_ctx_bin(data, m, ctx.intra_mpm_flag[0]);
    if f != 0 {
        let (m2, np) = d_ctx_bin(data, m1, ctx.intra_planar_flag[1]);
        if np == 0 {
            (m2, mpm[0])
        } else {
            let (m3, idx) = mpm_idx_decode(data, m2, 1);
            (m3, mpm[idx as int])
        }
    } else {
        let (m2, prefix) = d_bypass_bits(data, m1, 5);
        let (m3, rem) = if prefix < 3 {
            (m2, prefix)
        } else {
            let (m3, b) = d_decode_bypass(data, m2);
            (m3, 2 * prefix + b - 3)
        };
        (m3, mode_up(rem, sorted_mpm(mpm), 6) as u8)
    }
}

/// Decode the luma intra mode given the MPM list, reading the bins that
/// [`encode_luma_mode`] writes.
pub fn decode_luma_mode(dec: &mut CabacDecoder, ctx: &mut Contexts, mpm: &[u8; 6]) -> (r: u8)
    requires
        old(dec).wf(),
        old(dec).headroom() >= 64,
    ensures
        final(dec).wf(),
        final(dec).data() == old(dec).data(),
        old(dec).model().pos <= final(dec).model().pos <= old(dec).model().pos + 64,
        mpm@.contains(r) || exists|rem: int|
            0 <= rem < 61 && r as int == mode_up(rem, sorted_mpm(mpm@), 6),
        (forall|i: int| 0 <= i < 6 ==> mpm[i] < 67) ==> r < 67,
        (final(dec).model(), r) == luma_mode_decode(old(dec).data(), old(dec).model(), *old(ctx), mpm@),
{
    proof {
        reveal_with_fuel(mpm_idx_decode, 5);
    }
    if dec.decode_bin(&mut ctx.intra_mpm_flag[0]) != 0 {
        let not_planar = dec.decode_bin(&mut ctx.intra_planar_flag[1]) != 0;
        if !not_planar {
            return mpm[0];
        }
        let mut idx: usize = 1;
        if dec.decode_bypass() != 0 {
            idx = 2;
            if dec.decode_bypass() != 0 {
                idx = 3;
                if dec.decode_bypass() != 0 {
                    idx = 4;
                    if dec.decode_bypass() != 0 {
                        idx = 5;
                    }
                }
            }
        }
        mpm[idx]
    } else {
        let thresh = floor_log2(NUM_REM_MODES);
        proof {
            reveal_with_fuel(log2_floor, 7);
            assert(log2_floor(61) == 5);
            vstd::arithmetic::power2::lemma2_to64();
            vstd::bits::lemma_u32_shl_is_mul(1, 5);
        }
        let val = 1u32 << thresh;
        let b = NUM_REM_MODES - val;
        let prefix = dec_bypass_bits(dec, thresh);
        let rem = if prefix < val - b {
            prefix
        } else {
            prefix * 2 + dec.decode_bypass() as u32 - (val - b)
        };
        let sorted = sort_mpm(*mpm);
        let mut mode: i32 = rem as i32;
        let mut n: usize = 0;
        while n < 6
            invariant
                n <= 6,
                sorted@ == sorted_mpm(mpm@),
                mode == mode_up(rem as int, sorted@, n as nat),
                rem < 61,
                rem <= mode <= rem + n,
            decreases 6 - n,
        {
            if mode >= sorted[n] as i32 {
                mode += 1;
            }
            n += 1;
        }
        mode as u8
    }
}


// ---------------------------------------------------------------------------
// Chroma mode syntax
// ---------------------------------------------------------------------------
/// 4:2:2 chroma intra-mode angle mapping (H.266 Table 8-3). Because 4:2:2
/// chroma is subsampled 2:1 horizontally only, a chroma block predicting along
/// a luma direction uses a re-angled mode so that the predicted direction
/// matches the physical geometry. Indexed by the resolved chroma mode (0..=66).
pub const CHROMA_422_MAP: [u8; 67] = [
    0, 1, 61, 62, 63, 64, 65, 66, 2, 3, 5, 6, 8, 10, 12, 13, 14, 16, 18, 20, 22,
    23, 24, 26, 28, 30, 31, 33, 34, 35, 36, 37, 38, 39, 40, 41, 41, 42, 43, 43,
    44, 44, 45, 45, 46, 47, 48, 48, 49, 49, 50, 51, 51, 52, 52, 53, 54, 55, 55,
    56, 56, 57, 57, 58, 59, 59, 60,
];

/// Map a resolved chroma intra mode to the direction used for 4:2:2
/// prediction. The coded mode is unchanged; only the predictor is remapped.
/// Values outside the table are returned unchanged.
pub fn chroma_422_mode(mode: u8) -> (r: u8)
    ensures
        r == (if (mode as int) < 67 {
            CHROMA_422_MAP[mode as int]
        } else {
            mode
        }),
        r <= (if mode <= 66 { 66 } else { mode }),
{
    if (mode as usize) < CHROMA_422_MAP.len() {
        let r = CHROMA_422_MAP[mode as usize];
        assert(forall|i: int| 0 <= i < 67 ==> #[trigger] CHROMA_422_MAP[i] <= 66) by {
            assert(CHROMA_422_MAP@ =~= seq![
                0u8, 1, 61, 62, 63, 64, 65, 66, 2, 3, 5, 6, 8, 10, 12, 13, 14, 16, 18, 20, 22,
                23, 24, 26, 28, 30, 31, 33, 34, 35, 36, 37, 38, 39, 40, 41, 41, 42, 43, 43,
                44, 44, 45, 45, 46, 47, 48, 48, 49, 49, 50, 51, 51, 52, 52, 53, 54, 55, 55,
                56, 56, 57, 57, 58, 59, 59, 60,
            ]);
        }
        r
    } else {
        mode
    }
}

/// A fixed chroma candidate, replaced by VDIA when it equals the luma mode.
pub open spec fn chroma_cand(c: u8, luma_mode: u8) -> u8 {
    if c == luma_mode {
        VDIA_IDX
    } else {
        c
    }
}

/// The four fixed chroma candidates {planar, vertical, horizontal, DC}, the
/// one equal to the luma (DM) mode replaced by VDIA.
pub open spec fn spec_chroma_cands(luma_mode: u8) -> Seq<u8> {
    seq![
        chroma_cand(PLANAR_IDX, luma_mode),
        chroma_cand(VER_IDX, luma_mode),
        chroma_cand(HOR_IDX, luma_mode),
        chroma_cand(DC_IDX, luma_mode),
    ]
}

/// The four fixed chroma intra candidates {planar, vertical, horizontal, DC},
/// with the one coinciding with the luma (DM) mode replaced by VDIA so that the
/// derived mode and the signalled candidates never alias (H.266
/// `PU::getIntraChromaCandModes`).
pub fn chroma_cand_modes(luma_mode: u8) -> (r: [u8; 4])
    ensures
        r@ == spec_chroma_cands(luma_mode),
{
    let mut list: [u8; 4] = [PLANAR_IDX, VER_IDX, HOR_IDX, DC_IDX];
    let mut i: usize = 0;
    while i < 4
        invariant
            i <= 4,
            forall|k: int| 0 <= k < i ==> list[k] != luma_mode || k == i - 1 && list[k] == VDIA_IDX,
            list@ =~= seq![PLANAR_IDX, VER_IDX, HOR_IDX, DC_IDX].take(i as int).map_values(
                |c: u8| chroma_cand(c, luma_mode),
            ) + seq![PLANAR_IDX, VER_IDX, HOR_IDX, DC_IDX].skip(i as int),
        decreases 4 - i,
    {
        if list[i] == luma_mode {
            list[i] = VDIA_IDX;
            assert(list@ =~= spec_chroma_cands(luma_mode));
            return list;
        }
        i += 1;
    }
    list
}

/// True if `m` is one of the CCLM chroma modes.
pub fn is_cclm_mode(m: u8) -> (r: bool)
    ensures
        r == (CCLM_LT_MODE <= m <= CCLM_T_MODE),
{
    CCLM_LT_MODE <= m && m <= CCLM_T_MODE
}

/// Position of a chroma mode among the fixed candidates (4 when absent).
pub open spec fn chroma_cand_index(luma_mode: u8, chroma_mode: u8) -> nat {
    first_pos(spec_chroma_cands(luma_mode), chroma_mode, 0)
}

/// The bins of `intra_chroma_pred_mode` as the encoder state they produce.
pub open spec fn chroma_mode_model(
    m: ArithModel,
    ctx: Contexts,
    luma_mode: u8,
    chroma_mode: u8,
    cclm_enabled: bool,
) -> ArithModel {
    let is_lmc = CCLM_LT_MODE <= chroma_mode <= CCLM_T_MODE;
    let m0 = if cclm_enabled {
        m_ctx_bin(m, is_lmc as u8, ctx.cclm_mode_flag[0])
    } else {
        m
    };
    if cclm_enabled && is_lmc {
        let sym = chroma_mode - CCLM_LT_MODE;
        let m1 = m_ctx_bin(m0, (sym != 0) as u8, ctx.cclm_mode_idx[0]);
        if sym > 0 {
            m_bypass_seq(m1, seq![sym == 2])
        } else {
            m1
        }
    } else if chroma_mode == luma_mode {
        m_ctx_bin(m0, 0, ctx.intra_chroma_mode[0])
    } else {
        let id = chroma_cand_index(luma_mode, chroma_mode);
        m_bypass_seq(m_ctx_bin(m0, 1, ctx.intra_chroma_mode[0]), seq![id >= 2, id % 2 == 1])
    }
}

/// A chroma mode that `intra_chroma_pred_mode` can carry: a CCLM mode (when
/// enabled), the derived mode, or one of the fixed candidates.
pub open spec fn chroma_mode_codable(luma_mode: u8, chroma_mode: u8, cclm_enabled: bool) -> bool {
    ||| cclm_enabled && CCLM_LT_MODE <= chroma_mode <= CCLM_T_MODE
    ||| chroma_mode == luma_mode
    ||| spec_chroma_cands(luma_mode).contains(chroma_mode)
}

/// Code `intra_chroma_pred_mode`: with CCLM enabled a context bin first says
/// whether the mode is CCLM (then a context bin and a bypass bin pick LT, L or
/// T); otherwise a context bin selects the derived mode (DM = luma), or two
/// bypass bins pick one of the fixed candidates.
pub fn encode_chroma_mode(
    enc: &mut CabacEncoder,
    ctx: &mut Contexts,
    luma_mode: u8,
    chroma_mode: u8,
    cclm_enabled: bool,
)
    requires
        old(enc).wf(),
        old(enc).headroom() >= 32,
        chroma_mode_codable(luma_mode, chroma_mode, cclm_enabled),
    ensures
        final(enc).wf(),
        bits_prefix(old(enc).model().bits, final(enc).model().bits),
        final(enc).model() == chroma_mode_model(
            old(enc).model(),
            *old(ctx),
            luma_mode,
            chroma_mode,
            cclm_enabled,
        ),
        final(enc).model().outstanding <= old(enc).model().outstanding + 32,
{
    let ghost m = enc.model();
    if cclm_enabled {
        let is_lmc = is_cclm_mode(chroma_mode);
        enc.encode_bin(is_lmc as u8, &mut ctx.cclm_mode_flag[0]);
        if is_lmc {
            let symbol = chroma_mode - CCLM_LT_MODE;
            enc.encode_bin((symbol != 0) as u8, &mut ctx.cclm_mode_idx[0]);
            if symbol > 0 {
                let ghost m1 = enc.model();
                enc.encode_bypass(symbol - 1);
                proof {
                    lemma_bypass_seq_push(m1, Seq::<bool>::empty(), symbol - 1 != 0);
                    assert(Seq::<bool>::empty().push(symbol - 1 != 0) =~= seq![symbol == 2]);
                }
            }
            return;
        }
    }
    if chroma_mode == luma_mode {
        enc.encode_bin(0, &mut ctx.intra_chroma_mode[0]);
        return;
    }
    enc.encode_bin(1, &mut ctx.intra_chroma_mode[0]);
    let ghost m1 = enc.model();
    let list = chroma_cand_modes(luma_mode);
    let mut cand_id: usize = 0;
    while cand_id < 4 && list[cand_id] != chroma_mode
        invariant
            cand_id <= 4,
            list@ == spec_chroma_cands(luma_mode),
            first_pos(list@, chroma_mode, cand_id as nat) == chroma_cand_index(luma_mode, chroma_mode),
            forall|k: int| 0 <= k < cand_id ==> list[k] != chroma_mode,
        decreases 4 - cand_id,
    {
        cand_id += 1;
    }
    assert(cand_id < 4);
    let id = cand_id as u8;
    enc.encode_bypass((id / 2) % 2);
    enc.encode_bypass(id % 2);
    proof {
        lemma_bypass_seq_push(m1, Seq::<bool>::empty(), (id / 2) % 2 != 0);
        lemma_bypass_seq_push(m1, seq![(id / 2) % 2 != 0], id % 2 != 0);
        assert(Seq::<bool>::empty().push((id / 2) % 2 != 0) =~= seq![(id / 2) % 2 != 0]);
        assert(seq![(id / 2) % 2 != 0].push(id % 2 != 0) =~= seq![id >= 2, id % 2 == 1]);
    }
}

/// The decoder state and the chroma mode read by [`decode_chroma_mode`]: the
/// CCLM flag (when enabled) with the CCLM index bins, or the DM bin and two
/// bypass bins indexing the fixed candidates.
pub open spec fn chroma_mode_decode(
    data: Seq<u8>,
    m: DecModel,
    ctx: Contexts,
    luma_mode: u8,
    cclm_enabled: bool,
) -> (DecModel, u8) {
    let (m1, f) = if cclm_enabled {
        d_ctx_bin(data, m, ctx.cclm_mode_flag[0])
    } else {
        (m, 0u8)
    };
    if cclm_enabled && f == 1 {
        let (m2, s) = d_ctx_bin(data, m1, ctx.cclm_mode_idx[0]);
        if s == 0 {
            (m2, CCLM_LT_MODE)
        } else {
            let (m3, b) = d_decode_bypass(data, m2);
            (m3, if b == 0 { CCLM_L_MODE } else { CCLM_T_MODE })
        }
    } else {
        let (m2, d) = d_ctx_bin(data, m1, ctx.intra_chroma_mode[0]);
        if d == 0 {
            (m2, luma_mode)
        } else {
            let (m3, hi) = d_decode_bypass(data, m2);
            let (m4, lo) = d_decode_bypass(data, m3);
            (m4, spec_chroma_cands(luma_mode)[2 * hi + lo])
        }
    }
}

/// Decode `intra_chroma_pred_mode`, reading the bins that
/// [`encode_chroma_mode`] writes; the result is always a mode the encoder can
/// code.
pub fn decode_chroma_mode(
    dec: &mut CabacDecoder,
    ctx: &mut Contexts,
    luma_mode: u8,
    cclm_enabled: bool,
) -> (r: u8)
    requires
        old(dec).wf(),
        old(dec).headroom() >= 32,
    ensures
        final(dec).wf(),
        final(dec).data() == old(dec).data(),
        old(dec).model().pos <= final(dec).model().pos <= old(dec).model().pos + 32,
        chroma_mode_codable(luma_mode, r, cclm_enabled),
        (final(dec).model(), r) == chroma_mode_decode(
            old(dec).data(),
            old(dec).model(),
            *old(ctx),
            luma_mode,
            cclm_enabled,
        ),
{
    if cclm_enabled && dec.decode_bin(&mut ctx.cclm_mode_flag[0]) == 1 {
        if dec.decode_bin(&mut ctx.cclm_mode_idx[0]) == 0 {
            return CCLM_LT_MODE;
        }
        return if dec.decode_bypass() == 0 {
            CCLM_L_MODE
        } else {
            CCLM_T_MODE
        };
    }
    if dec.decode_bin(&mut ctx.intra_chroma_mode[0]) == 0 {
        return luma_mode;
    }
    let hi = dec.decode_bypass();
    let lo = dec.decode_bypass();
    let cand_id = (hi * 2 + lo) as usize;
    let list = chroma_cand_modes(luma_mode);
    let r = list[cand_id];
    assert(spec_chroma_cands(luma_mode)[cand_id as int] == r);
    r
}

/// The first position of `v` in `s` at or after `i` holds `v` when `v`
/// occurs there.
proof fn lemma_first_pos(s: Seq<u8>, v: u8, i: nat)
    requires
        exists|j: int| i <= j < s.len() && s[j] == v,
    ensures
        first_pos(s, v, i) < s.len(),
        s[first_pos(s, v, i) as int] == v,
    decreases s.len() - i,
{
    if i < s.len() && s[i as int] != v {
        let j = choose|j: int| i <= j < s.len() && s[j] == v;
        assert(j != i);
        lemma_first_pos(s, v, i + 1);
    }
}

/// Two bypass bins `hi`, `lo` read back as two bins.
proof fn lemma_two_bypass(data: Seq<u8>, m1: ArithModel, d1: DecModel, hi: bool, lo: bool)
    requires
        m_regs_ok(m1),
        m_pre(m1),
        in_step(data, m1, d1),
        contains(data, m_bypass_seq(m1, seq![hi, lo])),
    ensures
        d_decode_bypass(data, d1).1 == if hi { 1u8 } else { 0u8 },
        d_decode_bypass(data, d_decode_bypass(data, d1).0).1 == if lo { 1u8 } else { 0u8 },
        in_step(data, m_bypass_seq(m1, seq![hi, lo]), d_decode_bypass(data, d_decode_bypass(data, d1).0).0),
{
    let sb = seq![hi, lo];
    assert(sb.drop_last() =~= seq![hi]);
    assert(sb.drop_last().drop_last() =~= Seq::<bool>::empty());
    let m2 = m_encode_bypass(m1, hi);
    assert(seq![hi] =~= Seq::<bool>::empty().push(hi));
    assert(sb =~= seq![hi].push(lo));
    lemma_bypass_seq_push(m1, Seq::<bool>::empty(), hi);
    lemma_bypass_seq_push(m1, seq![hi], lo);
    assert(m_bypass_seq(m1, Seq::<bool>::empty()) == m1);
    assert(m_bypass_seq(m1, seq![hi]) == m2);
    assert(m_bypass_seq(m1, sb) == m_encode_bypass(m2, lo));
    lemma_bypass(m1, hi);
    lemma_bypass(m2, lo);
    lemma_contains_back(data, m2, m_encode_bypass(m2, lo), 1);
    lemma_dec_bypass(data, m1, d1, hi);
    lemma_dec_bypass(data, m2, d_decode_bypass(data, d1).0, lo);
}

/// The CCLM part of the chroma-mode round trip.
proof fn lemma_chroma_cclm_round_trip(data: Seq<u8>, m: ArithModel, d: DecModel, ctx: Contexts, luma_mode: u8, chroma_mode: u8)
    requires
        m_regs_ok(m),
        m_pre(m),
        in_step(data, m, d),
        CCLM_LT_MODE <= chroma_mode <= CCLM_T_MODE,
        contains(data, chroma_mode_model(m, ctx, luma_mode, chroma_mode, true)),
    ensures
        chroma_mode_decode(data, d, ctx, luma_mode, true).1 == chroma_mode,
        in_step(data, chroma_mode_model(m, ctx, luma_mode, chroma_mode, true), chroma_mode_decode(data, d, ctx, luma_mode, true).0),
{
    let mf = chroma_mode_model(m, ctx, luma_mode, chroma_mode, true);
    let m0 = m_ctx_bin(m, 1, ctx.cclm_mode_flag[0]);
    let e0 = lemma_ctx_nests(m, ctx.cclm_mode_flag[0], 1);
    let sym = chroma_mode - CCLM_LT_MODE;
    let m1 = m_ctx_bin(m0, (sym != 0) as u8, ctx.cclm_mode_idx[0]);
    let e1 = lemma_ctx_nests(m0, ctx.cclm_mode_idx[0], (sym != 0) as u8);
    if sym > 0 {
        assert(seq![sym == 2] =~= Seq::<bool>::empty().push(sym == 2));
        lemma_bypass_seq_push(m1, Seq::<bool>::empty(), sym == 2);
        assert(m_bypass_seq(m1, Seq::<bool>::empty()) == m1);
        assert(mf == m_encode_bypass(m1, sym == 2));
        lemma_bypass(m1, sym == 2);
        lemma_contains_back(data, m1, mf, 1);
    }
    lemma_contains_back(data, m0, m1, e1);
    lemma_dec_ctx_bin(data, m, d, ctx.cclm_mode_flag[0], 1);
    let d0 = d_ctx_bin(data, d, ctx.cclm_mode_flag[0]).0;
    lemma_dec_ctx_bin(data, m0, d0, ctx.cclm_mode_idx[0], (sym != 0) as u8);
    let d1 = d_ctx_bin(data, d0, ctx.cclm_mode_idx[0]).0;
    if sym > 0 {
        lemma_dec_bypass(data, m1, d1, sym == 2);
    }
}

/// The non-CCLM part of the chroma-mode round trip, after the CCLM flag.
proof fn lemma_chroma_dm_round_trip(data: Seq<u8>, m0: ArithModel, d0: DecModel, ctx: Contexts, luma_mode: u8, chroma_mode: u8)
    requires
        m_regs_ok(m0),
        m_pre(m0),
        in_step(data, m0, d0),
        chroma_mode == luma_mode || spec_chroma_cands(luma_mode).contains(chroma_mode),
        contains(data, chroma_mode_model(m0, ctx, luma_mode, chroma_mode, false)),
    ensures
        ({
            let (m2, dm) = d_ctx_bin(data, d0, ctx.intra_chroma_mode[0]);
            if dm == 0 {
                (m2, luma_mode)
            } else {
                let (m3, hi) = d_decode_bypass(data, m2);
                let (m4, lo) = d_decode_bypass(data, m3);
                (m4, spec_chroma_cands(luma_mode)[2 * hi + lo])
            }
        }) == (chroma_mode_decode(data, d0, ctx, luma_mode, false)),
        chroma_mode_decode(data, d0, ctx, luma_mode, false).1 == chroma_mode,
        in_step(data, chroma_mode_model(m0, ctx, luma_mode, chroma_mode, false), chroma_mode_decode(data, d0, ctx, luma_mode, false).0),
{
    let mf = chroma_mode_model(m0, ctx, luma_mode, chroma_mode, false);
    if chroma_mode == luma_mode {
        let e = lemma_ctx_nests(m0, ctx.intra_chroma_mode[0], 0);
        lemma_dec_ctx_bin(data, m0, d0, ctx.intra_chroma_mode[0], 0);
    } else {
        let id = chroma_cand_index(luma_mode, chroma_mode);
        let cands = spec_chroma_cands(luma_mode);
        let j = choose|j: int| 0 <= j < cands.len() && cands[j] == chroma_mode;
        lemma_first_pos(cands, chroma_mode, 0);
        let m1 = m_ctx_bin(m0, 1, ctx.intra_chroma_mode[0]);
        let e = lemma_ctx_nests(m0, ctx.intra_chroma_mode[0], 1);
        let sb = seq![id >= 2, id % 2 == 1];
        let eb = lemma_bypass_seq_nests(m1, sb);
        lemma_contains_back(data, m1, mf, eb);
        lemma_contains_back(data, m0, m1, e);
        lemma_dec_ctx_bin(data, m0, d0, ctx.intra_chroma_mode[0], 1);
        let d1 = d_ctx_bin(data, d0, ctx.intra_chroma_mode[0]).0;
        lemma_two_bypass(data, m1, d1, id >= 2, id % 2 == 1);
    }
}

/// Chroma-mode round trip: a decoder that follows the encoder (see
/// `cabac::roundtrip`) and whose code value lies in the encoder's interval
/// after the chroma mode reads back the chroma mode the encoder coded, and
/// still follows the encoder.
pub proof fn lemma_chroma_mode_round_trip(
    data: Seq<u8>,
    m: ArithModel,
    d: DecModel,
    ctx: Contexts,
    luma_mode: u8,
    chroma_mode: u8,
    cclm_enabled: bool,
)
    requires
        m_regs_ok(m),
        m_pre(m),
        in_step(data, m, d),
        chroma_mode_codable(luma_mode, chroma_mode, cclm_enabled),
        contains(data, chroma_mode_model(m, ctx, luma_mode, chroma_mode, cclm_enabled)),
    ensures
        chroma_mode_decode(data, d, ctx, luma_mode, cclm_enabled).1 == chroma_mode,
        in_step(
            data,
            chroma_mode_model(m, ctx, luma_mode, chroma_mode, cclm_enabled),
            chroma_mode_decode(data, d, ctx, luma_mode, cclm_enabled).0,
        ),
{
    let is_lmc = CCLM_LT_MODE <= chroma_mode <= CCLM_T_MODE;
    if cclm_enabled && is_lmc {
        lemma_chroma_cclm_round_trip(data, m, d, ctx, luma_mode, chroma_mode);
    } else if cclm_enabled {
        let m0 = m_ctx_bin(m, 0, ctx.cclm_mode_flag[0]);
        let e0 = lemma_ctx_nests(m, ctx.cclm_mode_flag[0], 0);
        assert(chroma_mode_model(m, ctx, luma_mode, chroma_mode, true) == chroma_mode_model(m0, ctx, luma_mode, chroma_mode, false));
        let mf = chroma_mode_model(m0, ctx, luma_mode, chroma_mode, false);
        if chroma_mode == luma_mode {
            let e = lemma_ctx_nests(m0, ctx.intra_chroma_mode[0], 0);
            lemma_contains_back(data, m0, mf, e);
        } else {
            let id = chroma_cand_index(luma_mode, chroma_mode);
            let m1 = m_ctx_bin(m0, 1, ctx.intra_chroma_mode[0]);
            let e = lemma_ctx_nests(m0, ctx.intra_chroma_mode[0], 1);
            let eb = lemma_bypass_seq_nests(m1, seq![id >= 2, id % 2 == 1]);
            lemma_contains_back(data, m1, mf, eb);
            lemma_contains_back(data, m0, m1, e);
        }
        lemma_dec_ctx_bin(data, m, d, ctx.cclm_mode_flag[0], 0);
        let d0 = d_ctx_bin(data, d, ctx.cclm_mode_flag[0]).0;
        lemma_chroma_dm_round_trip(data, m0, d0, ctx, luma_mode, chroma_mode);
    } else {
        lemma_chroma_dm_round_trip(data, m, d, ctx, luma_mode, chroma_mode);
    }
}

/// Index of the first entry of `s` from `i` on that lies above `mode`
/// (`s.len()` when there is none).
pub open spec fn first_above(s: Seq<u8>, mode: int, i: nat) -> nat
    decreases s.len() - i,
{
    if i >= s.len() {
        s.len()
    } else if s[i as int] as int > mode {
        i
    } else {
        first_above(s, mode, i + 1)
    }
}

/// Entries of a strictly increasing sequence are at least their distance
/// apart.
proof fn lemma_gap(s: Seq<u8>, i: int, j: int)
    requires
        forall|a: int, b: int| 0 <= a < b < s.len() ==> s[a] < s[b],
        0 <= i <= j < s.len(),
    ensures
        s[i] + (j - i) <= s[j],
    decreases j - i,
{
    if i < j {
        lemma_gap(s, i, j - 1);
    }
}

proof fn lemma_first_above(s: Seq<u8>, mode: int, i: nat)
    requires
        forall|a: int, b: int| 0 <= a < b < s.len() ==> s[a] < s[b],
        !s.contains(mode as u8),
        0 <= mode <= 255,
        forall|j: int| 0 <= j < i && j < s.len() ==> s[j] < mode,
    ensures
        first_above(s, mode, i) <= s.len(),
        forall|j: int| 0 <= j < first_above(s, mode, i) ==> s[j] < mode,
        forall|j: int| first_above(s, mode, i) <= j < s.len() ==> s[j] > mode,
    decreases s.len() - i,
{
    if i < s.len() {
        if s[i as int] as int > mode {
            assert forall|j: int| i <= j < s.len() implies s[j] > mode by {
                if j > i {
                    assert(s[i as int] < s[j]);
                }
            }
        } else {
            assert(s[i as int] != mode as u8);
            lemma_first_above(s, mode, i + 1);
        }
    }
}

/// The encoder's walk down a strictly increasing list from `mode` (not in
/// it) lowers `mode` by one per entry below it.
proof fn lemma_rem_down(s: Seq<u8>, mode: int, t: nat, n: nat)
    requires
        forall|a: int, b: int| 0 <= a < b < s.len() ==> s[a] < s[b],
        t <= s.len(),
        forall|j: int| 0 <= j < t ==> s[j] < mode,
        forall|j: int| t <= j < s.len() ==> s[j] > mode,
        n <= s.len(),
    ensures
        rem_down(mode, s, n) == if n <= s.len() - t { mode } else { mode - (n - (s.len() - t)) },
    decreases n,
{
    if n > 0 {
        lemma_rem_down(s, mode, t, (n - 1) as nat);
        let idx: int = s.len() - n;
        if n > s.len() - t {
            let q: int = n - (s.len() - t);
            assert(idx == t - q);
            lemma_gap(s, idx, t - 1);
        }
    }
}

/// The decoder's walk up the same list from the remainder gives `mode`
/// back.
proof fn lemma_mode_up(s: Seq<u8>, mode: int, t: nat, n: nat)
    requires
        forall|a: int, b: int| 0 <= a < b < s.len() ==> s[a] < s[b],
        t <= s.len(),
        forall|j: int| 0 <= j < t ==> s[j] < mode,
        forall|j: int| t <= j < s.len() ==> s[j] > mode,
        n <= s.len(),
    ensures
        mode_up(mode - t, s, n) == if n <= t { mode - t + n } else { mode },
    decreases n,
{
    if n > 0 {
        lemma_mode_up(s, mode, t, (n - 1) as nat);
        if n <= t {
            lemma_gap(s, n - 1, t - 1);
        }
    }
}

/// The sorted MPM list of a list of distinct modes is strictly increasing
/// and holds the same modes.
proof fn lemma_sorted_mpm(mpm: Seq<u8>)
    requires
        mpm.no_duplicates(),
    ensures
        sorted_mpm(mpm).len() == mpm.len(),
        forall|a: int, b: int| 0 <= a < b < sorted_mpm(mpm).len() ==> sorted_mpm(mpm)[a] < sorted_mpm(mpm)[b],
        forall|x: u8| !mpm.contains(x) ==> !sorted_mpm(mpm).contains(x),
{
    broadcast use vstd::multiset::group_multiset_axioms;
    broadcast use vstd::seq_lib::to_multiset_len;
    lemma_mode_leq_total();
    mpm.lemma_sort_by_ensures(mode_leq());
    let s = sorted_mpm(mpm);
    vstd::seq_lib::to_multiset_len(mpm);
    vstd::seq_lib::to_multiset_len(s);
    mpm.lemma_multiset_has_no_duplicates();
    s.lemma_multiset_has_no_duplicates_conv();
    assert forall|a: int, b: int| 0 <= a < b < s.len() implies s[a] < s[b] by {
        assert(sorted_by(s, mode_leq()));
        assert((mode_leq())(s[a], s[b]));
        assert(s[a] <= s[b]);
        assert(s[a] != s[b]);
    }
}

/// A luma mode outside a list of distinct MPMs comes back from its coded
/// remainder.
pub proof fn lemma_luma_rem_inverts(mpm: Seq<u8>, mode: u8)
    requires
        mpm.len() == 6,
        mpm.no_duplicates(),
        !mpm.contains(mode),
    ensures
        mode_up(luma_rem(mpm, mode), sorted_mpm(mpm), 6) == mode as int,
{
    lemma_sorted_mpm(mpm);
    let s = sorted_mpm(mpm);
    assert(!s.contains(mode));
    lemma_first_above(s, mode as int, 0);
    let t = first_above(s, mode as int, 0);
    lemma_rem_down(s, mode as int, t, 6);
    lemma_mode_up(s, mode as int, t, 6);
}

/// The not-planar MPM index read back from its unary bins, from the `k`-th
/// bin on.
proof fn lemma_mpm_idx_round_trip(data: Seq<u8>, m: ArithModel, d: DecModel, idx: nat, k: nat)
    requires
        m_regs_ok(m),
        m_pre(m),
        in_step(data, m, d),
        1 <= k <= 5,
        k <= idx <= 5,
        contains(data, m_bypass_seq(m, mpm_idx_bins(idx).subrange(k - 1, mpm_idx_bins(idx).len() as int))),
    ensures
        mpm_idx_decode(data, d, k).1 == idx,
        in_step(
            data,
            m_bypass_seq(m, mpm_idx_bins(idx).subrange(k - 1, mpm_idx_bins(idx).len() as int)),
            mpm_idx_decode(data, d, k).0,
        ),
    decreases 5 - k,
{
    let b = mpm_idx_bins(idx);
    let sub = b.subrange(k - 1, b.len() as int);
    if k >= 5 {
        assert(sub =~= Seq::<bool>::empty());
        assert(m_bypass_seq(m, sub) == m);
    } else {
        assert(sub.len() > 0);
        assert(sub[0] == (idx > k));
        lemma_bypass_seq_first(m, sub);
        let m1 = m_encode_bypass(m, idx > k);
        lemma_bypass(m, idx > k);
        let e = lemma_bypass_seq_nests(m1, sub.drop_first());
        lemma_contains_back(data, m1, m_bypass_seq(m, sub), e);
        lemma_dec_bypass(data, m, d, idx > k);
        let d1 = d_decode_bypass(data, d).0;
        assert(sub.drop_first() =~= b.subrange(k as int, b.len() as int));
        if idx == k {
            assert(sub.drop_first() =~= Seq::<bool>::empty());
            assert(m_bypass_seq(m1, sub.drop_first()) == m1);
        } else {
            lemma_mpm_idx_round_trip(data, m1, d1, idx, k + 1);
        }
    }
}

/// The truncated-binary remainder among 61 read back from its bypass bins.
proof fn lemma_trunc61_round_trip(data: Seq<u8>, m1: ArithModel, d1: DecModel, rem: nat)
    requires
        m_regs_ok(m1),
        m_pre(m1),
        in_step(data, m1, d1),
        rem < 61,
        contains(data, m_bypass_seq(m1, trunc_bin_bits(rem, 61))),
    ensures
        ({
            let (m2, prefix) = d_bypass_bits(data, d1, 5);
            let (m3, r) = if prefix < 3 {
                (m2, prefix)
            } else {
                let (m3, b) = d_decode_bypass(data, m2);
                (m3, 2 * prefix + b - 3)
            };
            r == rem && in_step(data, m_bypass_seq(m1, trunc_bin_bits(rem, 61)), m3)
        }),
{
    vstd::arithmetic::power2::lemma2_to64();
    assert(log2_floor(61) == 5) by {
        assert(log2_floor(61) == 1 + log2_floor(30));
        assert(log2_floor(30) == 1 + log2_floor(15));
        assert(log2_floor(15) == 1 + log2_floor(7));
        assert(log2_floor(7) == 1 + log2_floor(3));
        assert(log2_floor(3) == 1 + log2_floor(1));
    }
    assert(trunc_bin_short(61) == 3);
    let bits = trunc_bin_bits(rem, 61);
    if rem < 3 {
        assert(bits == low_bits(rem as u64, 5));
        crate::bitstream::lemma_bits_value_low_bits(rem as u64, 5);
        lemma_dec_bypass_bits(data, m1, d1, bits);
    } else {
        assert(bits == low_bits((rem + 3) as u64, 6));
        crate::bitstream::lemma_bits_value_low_bits((rem + 3) as u64, 6);
        let s5 = bits.drop_last();
        let mb = m_bypass_seq(m1, s5);
        lemma_bypass_seq_nests(m1, s5);
        lemma_bypass(mb, bits.last());
        assert(m_bypass_seq(m1, bits) == m_encode_bypass(mb, bits.last()));
        lemma_contains_back(data, mb, m_bypass_seq(m1, bits), 1);
        lemma_dec_bypass_bits(data, m1, d1, s5);
        let d2 = d_bypass_bits(data, d1, 5).0;
        lemma_dec_bypass(data, mb, d2, bits.last());
        assert(crate::bitstream::bits_value(bits) == 2 * crate::bitstream::bits_value(s5) + if bits.last() { 1nat } else { 0nat });
    }
}

/// Luma-mode round trip: a decoder that follows the encoder (see
/// `cabac::roundtrip`) and whose code value lies in the encoder's interval
/// after the luma mode reads back the luma mode the encoder coded with the
/// same list of distinct MPMs, and still follows the encoder.
pub proof fn lemma_luma_mode_round_trip(data: Seq<u8>, m: ArithModel, d: DecModel, ctx: Contexts, mpm: Seq<u8>, mode: u8)
    requires
        m_regs_ok(m),
        m_pre(m),
        in_step(data, m, d),
        mpm.len() == 6,
        mpm.no_duplicates(),
        mpm_index(mpm, mode) < 6 || luma_rem(mpm, mode) < 61,
        contains(data, luma_mode_model(m, ctx, mpm, mode)),
    ensures
        luma_mode_decode(data, d, ctx, mpm).1 == mode,
        in_step(data, luma_mode_model(m, ctx, mpm, mode), luma_mode_decode(data, d, ctx, mpm).0),
{
    let idx = mpm_index(mpm, mode);
    let mf = luma_mode_model(m, ctx, mpm, mode);
    if idx < 6 {
        if mpm.contains(mode) {
            lemma_first_pos(mpm, mode, 0);
        } else {
            lemma_first_pos_absent(mpm, mode, 0);
        }
        let m1 = m_ctx_bin(m, 1, ctx.intra_mpm_flag[0]);
        let m2 = m_ctx_bin(m1, (idx > 0) as u8, ctx.intra_planar_flag[1]);
        let e1 = lemma_ctx_nests(m, ctx.intra_mpm_flag[0], 1);
        let e2 = lemma_ctx_nests(m1, ctx.intra_planar_flag[1], (idx > 0) as u8);
        let eb = lemma_bypass_seq_nests(m2, mpm_idx_bins(idx));
        lemma_contains_back(data, m2, mf, eb);
        lemma_contains_back(data, m1, m2, e2);
        lemma_dec_ctx_bin(data, m, d, ctx.intra_mpm_flag[0], 1);
        let d1 = d_ctx_bin(data, d, ctx.intra_mpm_flag[0]).0;
        lemma_dec_ctx_bin(data, m1, d1, ctx.intra_planar_flag[1], (idx > 0) as u8);
        let d2 = d_ctx_bin(data, d1, ctx.intra_planar_flag[1]).0;
        if idx == 0 {
            assert(mpm_idx_bins(idx) =~= Seq::<bool>::empty());
            assert(m_bypass_seq(m2, Seq::<bool>::empty()) == m2);
        } else {
            assert(mpm_idx_bins(idx).subrange(0, mpm_idx_bins(idx).len() as int) =~= mpm_idx_bins(idx));
            lemma_mpm_idx_round_trip(data, m2, d2, idx, 1);
        }
    } else {
        lemma_first_pos_absent_conv(mpm, mode);
        lemma_luma_rem_inverts(mpm, mode);
        let rem = luma_rem(mpm, mode);
        assert(rem >= 0) by {
            lemma_sorted_mpm(mpm);
            let s = sorted_mpm(mpm);
            lemma_first_above(s, mode as int, 0);
            let t = first_above(s, mode as int, 0);
            lemma_rem_down(s, mode as int, t, 6);
            assert(t <= mode) by {
                if t > 0 {
                    assert(s[t - 1] < mode);
                    lemma_gap(s, 0, t - 1);
                }
            }
        }
        let m1 = m_ctx_bin(m, 0, ctx.intra_mpm_flag[0]);
        let e1 = lemma_ctx_nests(m, ctx.intra_mpm_flag[0], 0);
        let eb = lemma_bypass_seq_nests(m1, trunc_bin_bits(rem as nat, 61));
        lemma_contains_back(data, m1, mf, eb);
        lemma_dec_ctx_bin(data, m, d, ctx.intra_mpm_flag[0], 0);
        let d1 = d_ctx_bin(data, d, ctx.intra_mpm_flag[0]).0;
        lemma_trunc61_round_trip(data, m1, d1, rem as nat);
    }
}

/// `mpm_index` is below the list length exactly when the mode is listed.
proof fn lemma_first_pos_absent(s: Seq<u8>, v: u8, i: nat)
    requires
        !s.contains(v),
    ensures
        first_pos(s, v, i) >= s.len(),
    decreases s.len() - i,
{
    if i < s.len() {
        assert(s[i as int] != v);
        lemma_first_pos_absent(s, v, i + 1);
    }
}

proof fn lemma_first_pos_absent_conv(s: Seq<u8>, v: u8)
    requires
        first_pos(s, v, 0) >= s.len(),
    ensures
        !s.contains(v),
{
    if s.contains(v) {
        lemma_first_pos(s, v, 0);
    }
}

/// The angular mode before `m` in the MPM derivation's wrap (planar and DC
/// excluded; 2 steps back to 65).
pub open spec fn ang_prev(m: int) -> int {
    if m > 2 { m - 1 } else { 65 }
}

/// The angular mode after `m` in the MPM derivation's wrap (65 steps on to
/// 2, and 66 to 3).
pub open spec fn ang_next(m: int) -> int {
    if m < 65 { m + 1 } else { m - 63 }
}

/// The MPM derivation's wrap steps to the neighbouring angular modes.
proof fn lemma_wrap_neighbours(m: int)
    requires
        2 <= m <= 66,
    ensures
        mpm_wrap(m + 61) == ang_prev(m),
        mpm_wrap(m - 1) == ang_next(m),
        mpm_wrap(m + 60) == ang_prev(ang_prev(m)),
        mpm_wrap(m) == ang_next(ang_next(m)),
{
    if m == 2 {
        assert((m + 61) % 64 == 63);
        assert((m + 60) % 64 == 62);
    } else if m == 3 {
        assert((m + 61) % 64 == 0);
        assert((m + 60) % 64 == 63);
    } else {
        assert((m + 61) % 64 == m - 3);
        assert((m + 60) % 64 == m - 4);
    }
    if m <= 64 {
        assert((m - 1) % 64 == m - 1);
    } else {
        assert((m - 1) % 64 == m - 65);
    }
    if m <= 61 {
        assert(m % 64 == m);
    } else if m <= 63 {
        assert(m % 64 == m);
    } else {
        assert(m % 64 == m - 64);
    }
}

/// The MPM list (H.266 §8.4.2) in terms of the neighbours' modes: planar
/// first; with two different angular neighbours both follow, then modes
/// adjacent to them — for a gap of 3 to 61 the one before the smaller, the
/// one after the smaller and the one before the larger; for a gap of 1 the
/// one before the smaller, the one after the larger and the second before
/// the smaller; for a gap of 2 after the smaller, before the smaller, after
/// the larger; for a gap of 62 or more after the smaller, before the larger,
/// second after the smaller. With one distinct angular neighbour it follows,
/// then the modes before and after it and the second before and after it.
/// Without an angular neighbour the list is planar, DC, vertical,
/// horizontal, vertical − 4, vertical + 4.
pub proof fn lemma_mpm_neighbours(left: int, above: int)
    requires
        0 <= left <= 66,
        0 <= above <= 66,
    ensures
        ({
            let l = spec_build_mpm(left, above);
            let mx: int = if left > above { left } else { above };
            let mn: int = if left > above { above } else { left };
            &&& l.len() == 6
            &&& l[0] == 0
            &&& (left != above && left >= 2 && above >= 2) ==> {
                &&& l[1] == left
                &&& l[2] == above
                &&& (2 < mx - mn < 62 ==> l[3] == ang_prev(mn) && l[4] == ang_next(mn) && l[5] == ang_prev(mx))
                &&& (mx - mn == 1 ==> l[3] == ang_prev(mn) && l[4] == ang_next(mx) && l[5] == ang_prev(ang_prev(mn)))
                &&& (mx - mn == 2 ==> l[3] == ang_next(mn) && l[4] == ang_prev(mn) && l[5] == ang_next(mx))
                &&& (mx - mn >= 62 ==> l[3] == ang_next(mn) && l[4] == ang_prev(mx) && l[5] == ang_next(ang_next(mn)))
            }
            &&& ((left == above && left >= 2) || (left != above && mn < 2 && mx >= 2)) ==> {
                &&& l[1] == mx
                &&& l[2] == ang_prev(mx)
                &&& l[3] == ang_next(mx)
                &&& l[4] == ang_prev(ang_prev(mx))
                &&& l[5] == ang_next(ang_next(mx))
            }
            &&& mx < 2 ==> l == seq![0u8, 1u8, 50u8, 18u8, 46u8, 54u8]
        }),
{
    if left >= 2 {
        lemma_wrap_neighbours(left);
    }
    if above >= 2 {
        lemma_wrap_neighbours(above);
    }
}

/// The fixed chroma candidates (H.266 Table 20): planar, vertical (50),
/// horizontal (18) and DC (1) in that order, the one equal to the luma mode
/// replaced by the diagonal mode 66.
pub proof fn lemma_chroma_cands(luma_mode: u8)
    ensures
        spec_chroma_cands(luma_mode) == seq![
            if luma_mode == 0 { 66u8 } else { 0u8 },
            if luma_mode == 50 { 66u8 } else { 50u8 },
            if luma_mode == 18 { 66u8 } else { 18u8 },
            if luma_mode == 1 { 66u8 } else { 1u8 },
        ],
{
}

/// The truncated-binary code over the 61 non-MPM modes: the first three
/// remainders take five bits holding the remainder, the others six bits
/// holding the remainder plus 3.
pub proof fn lemma_trunc_bin_61(symbol: nat)
    requires
        symbol < 61,
    ensures
        symbol < 3 ==> trunc_bin_bits(symbol, 61).len() == 5
            && crate::bitstream::bits_value(trunc_bin_bits(symbol, 61)) == symbol,
        symbol >= 3 ==> trunc_bin_bits(symbol, 61).len() == 6
            && crate::bitstream::bits_value(trunc_bin_bits(symbol, 61)) == symbol + 3,
{
    vstd::arithmetic::power2::lemma2_to64();
    assert(log2_floor(61) == 5) by {
        assert(log2_floor(61) == 1 + log2_floor(30));
        assert(log2_floor(30) == 1 + log2_floor(15));
        assert(log2_floor(15) == 1 + log2_floor(7));
        assert(log2_floor(7) == 1 + log2_floor(3));
        assert(log2_floor(3) == 1 + log2_floor(1));
    }
    crate::bitstream::lemma_bits_value_low_bits(symbol as u64, 5);
    crate::bitstream::lemma_bits_value_low_bits((symbol + 3) as u64, 6);
}

} // verus!
