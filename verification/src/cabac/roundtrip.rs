//! The CABAC round trip: the decoder reads back, bin for bin, what the
//! encoder coded.
//!
//! The encoder's state is read as an interval of the final code value: its
//! lower end at full precision (`m_lam`, counting the resolved bits, the
//! outstanding bits and `low`) and its width `range`, at the scale of the
//! bits shifted out so far (`m_scale`). Each bin narrows the interval and
//! renormalisation only rescales it; the terminating flush writes a value
//! inside the last interval. The decoder's `offset` is the code value seen
//! so far minus the encoder's lower end, so each of its comparisons makes the
//! encoder's choice.
use vstd::prelude::*;
use vstd::arithmetic::power2::{pow2, lemma_pow2_adds, lemma_pow2_pos, lemma_pow2_unfold, lemma_pow2_strictly_increases, lemma2_to64};
use crate::bitstream::{bits_value, bytes_bits};
use super::engine::{
    d_bits_value, d_ctx_bin, d_decode_bypass, d_decode_terminate, d_renorm, d_shift_in, dec_bit,
    m_ctx_bin, m_encode_bin, m_encode_bypass, m_encode_terminate, m_initial,
    m_put_bit, m_regs_ok, m_renorm, m_bypass_seq, d_bypass_bits, repeat_bit, spec_lps, spec_mps, spec_prob8, ArithModel, CtxModel,
    DecModel,
};

verus! {

// ---------------------------------------------------------------------------
// Bit values
// ---------------------------------------------------------------------------
proof fn lemma_bv_push(s: Seq<bool>, b: bool)
    ensures
        bits_value(s.push(b)) == 2 * bits_value(s) + if b { 1nat } else { 0nat },
{
    assert(s.push(b).drop_last() =~= s);
}

/// The value of `a + b` is `a` shifted by the length of `b`, plus `b`.
proof fn lemma_bv_concat(a: Seq<bool>, b: Seq<bool>)
    ensures
        bits_value(a + b) == bits_value(a) * pow2(b.len()) + bits_value(b),
    decreases b.len(),
{
    if b.len() == 0 {
        assert(a + b =~= a);
        lemma2_to64();
        assert(bits_value(b) == 0);
        assert(bits_value(a) * pow2(0) == bits_value(a) * 1);
    } else {
        lemma_bv_concat(a, b.drop_last());
        assert((a + b).drop_last() =~= a + b.drop_last());
        assert((a + b).last() == b.last());
        assert(bits_value(a + b) == 2 * bits_value(a + b.drop_last()) + if b.last() { 1nat } else { 0nat });
        assert(bits_value(b) == 2 * bits_value(b.drop_last()) + if b.last() { 1nat } else { 0nat });
        lemma_pow2_unfold(b.len());
        let x: int = bits_value(a) as int;
        let p: int = pow2((b.len() - 1) as nat) as int;
        assert(2 * (x * p) == x * (2 * p)) by (nonlinear_arith);
        assert(b.drop_last().len() == (b.len() - 1) as nat);
        assert(bits_value(a + b.drop_last()) == x * p + bits_value(b.drop_last()));
        assert(pow2(b.len()) == 2 * p);
    }
}

/// `k` ones are worth `2^k − 1`, `k` zeros nothing.
proof fn lemma_bv_repeat(b: bool, k: nat)
    ensures
        bits_value(repeat_bit(b, k)) == if b { pow2(k) - 1 } else { 0 },
    decreases k,
{
    lemma2_to64();
    if k > 0 {
        lemma_bv_repeat(b, (k - 1) as nat);
        assert(repeat_bit(b, k).drop_last() =~= repeat_bit(b, (k - 1) as nat));
        lemma_pow2_unfold(k);
    }
}

/// Resolving bit `b` after `k` outstanding bits appends `b` and `k` copies
/// of `!b`.
proof fn lemma_bv_resolve(s: Seq<bool>, b: bool, k: nat)
    ensures
        bits_value(s.push(b) + repeat_bit(!b, k)) == bits_value(s) * (2 * pow2(k)) + if b {
            pow2(k) as int
        } else {
            pow2(k) - 1
        },
{
    lemma_bv_concat(s.push(b), repeat_bit(!b, k));
    lemma_bv_push(s, b);
    lemma_bv_repeat(!b, k);
    let x: int = bits_value(s) as int;
    let p: int = pow2(k) as int;
    assert((2 * x + if b { 1int } else { 0int }) * p == x * (2 * p) + if b { p } else { 0 }) by (nonlinear_arith);
}

// ---------------------------------------------------------------------------
// The encoder's interval
// ---------------------------------------------------------------------------
/// Number of code bits the encoder has shifted out of `low`: the resolved
/// ones, the suppressed leading bit once resolved, and the outstanding ones.
pub open spec fn m_scale(m: ArithModel) -> nat {
    (m.bits.len() + m.outstanding + if m.first { 0int } else { 1int }) as nat
}

/// Lower end of the encoder's interval at full precision, in units of the
/// last bit of `low`.
pub open spec fn m_lam(m: ArithModel) -> int {
    let p: int = pow2(m.outstanding as nat) as int;
    (bits_value(m.bits) * p) * 1024 + 512 * (p - 1) + m.low
}

/// Encoder registers inside renormalisation: the interval fits the
/// registers, the suppressed leading bit is unresolved only before any
/// output, and the interval lies below `510 · 2^scale` (so that leading bit
/// is 0).
pub open spec fn m_pre(m: ArithModel) -> bool {
    &&& 1 <= m.range < 512
    &&& 0 <= m.low
    &&& m.low + m.range <= 1024
    &&& 0 <= m.outstanding
    &&& (m.first ==> m.bits.len() == 0)
    &&& m_lam(m) + m.range <= 510 * pow2(m_scale(m))
}

/// `m2` follows `m` after `d` shifts, inside its interval.
pub open spec fn nests(m: ArithModel, m2: ArithModel, d: nat) -> bool {
    &&& m_scale(m2) == m_scale(m) + d
    &&& m_lam(m) * pow2(d) <= m_lam(m2)
    &&& m_lam(m2) + m2.range <= (m_lam(m) + m.range) * pow2(d)
}

/// One renormalisation step: resolve or defer the top bit of `low`, then
/// double `low` and `range`.
pub open spec fn m_shift(m: ArithModel) -> ArithModel {
    let m1 = if m.low < 256 {
        m_put_bit(m, false)
    } else if m.low >= 512 {
        m_put_bit(ArithModel { low: m.low - 512, ..m }, true)
    } else {
        ArithModel { low: m.low - 256, outstanding: m.outstanding + 1, ..m }
    };
    ArithModel { range: 2 * m1.range, low: 2 * m1.low, ..m1 }
}

proof fn lemma_shift(m: ArithModel)
    requires
        m_pre(m),
        m.range < 256,
    ensures
        m_pre(m_shift(m)),
        m_lam(m_shift(m)) == 2 * m_lam(m),
        m_scale(m_shift(m)) == m_scale(m) + 1,
        m_shift(m).range == 2 * m.range,
        m_renorm(m) == m_renorm(m_shift(m)),
{
    let k: nat = m.outstanding as nat;
    let p: int = pow2(k) as int;
    let x: int = bits_value(m.bits) as int;
    lemma_pow2_pos(k);
    lemma_pow2_unfold(m_scale(m) + 1);
    lemma_pow2_unfold(k + 1);
    let m2 = m_shift(m);
    lemma2_to64();
    let lam: int = m_lam(m);
    assert(lam == (x * p) * 1024 + 512 * (p - 1) + m.low);
    if m.low < 256 {
        assert(m2.outstanding == 0 && m2.low == 2 * m.low && !m2.first);
        if m.first {
            assert(m.bits + repeat_bit(true, k) =~= repeat_bit(true, k));
            lemma_bv_repeat(true, k);
            assert(x == 0);
            assert(m2.bits == repeat_bit(true, k));
            assert(bits_value(m2.bits) == p - 1);
        } else {
            lemma_bv_resolve(m.bits, false, k);
            assert(m2.bits == m.bits.push(false) + repeat_bit(true, k));
            assert(bits_value(m2.bits) == x * (2 * p) + p - 1);
            assert((x * (2 * p)) * 1024 == 2 * ((x * p) * 1024)) by (nonlinear_arith);
        }
        assert(m_lam(m2) == (bits_value(m2.bits) * 1) * 1024 + 2 * m.low);
    } else if m.low >= 512 {
        if m.first {
            assert(x == 0);
            assert(m_scale(m) == k);
            assert(false);
        } else {
            assert(m2.outstanding == 0 && m2.low == 2 * (m.low - 512) && !m2.first);
            lemma_bv_resolve(m.bits, true, k);
            assert(m2.bits == m.bits.push(true) + repeat_bit(false, k));
            assert(bits_value(m2.bits) == x * (2 * p) + p);
            assert((x * (2 * p)) * 1024 == 2 * ((x * p) * 1024)) by (nonlinear_arith);
            assert(m_lam(m2) == (bits_value(m2.bits) * 1) * 1024 + 2 * (m.low - 512));
        }
    } else {
        assert(m2.outstanding == m.outstanding + 1 && m2.low == 2 * (m.low - 256) && m2.bits == m.bits);
        assert(pow2(m2.outstanding as nat) == 2 * p);
        assert((x * (2 * p)) * 1024 == 2 * ((x * p) * 1024)) by (nonlinear_arith);
        assert(m_lam(m2) == (x * (2 * p)) * 1024 + 512 * (2 * p - 1) + 2 * (m.low - 256));
    }
    assert(m_lam(m2) == 2 * lam);
    assert(pow2(m_scale(m2)) == 2 * pow2(m_scale(m)));
}

/// Renormalisation rescales the interval by `2^d` for its `d` shifts.
proof fn lemma_renorm_lam(m: ArithModel) -> (d: nat)
    requires
        m_pre(m),
    ensures
        m_pre(m_renorm(m)),
        m_scale(m_renorm(m)) == m_scale(m) + d,
        m_renorm(m).range == m.range * pow2(d),
        m_lam(m_renorm(m)) == m_lam(m) * pow2(d),
        m_renorm(m).range >= 256,
    decreases (if m.range >= 256 { 0 } else { 256 - m.range }),
{
    lemma2_to64();
    if m.range >= 256 {
        0
    } else {
        lemma_shift(m);
        let m2 = m_shift(m);
        let d2 = lemma_renorm_lam(m2);
        lemma_pow2_unfold(d2 + 1);
        let q: int = pow2(d2) as int;
        assert((2 * m.range) * q == m.range * (2 * q)) by (nonlinear_arith);
        assert((2 * m_lam(m)) * q == m_lam(m) * (2 * q)) by (nonlinear_arith);
        d2 + 1
    }
}

/// Two nestings in a row are one.
pub proof fn lemma_nests_compose(a: ArithModel, b: ArithModel, c: ArithModel, d1: nat, d2: nat)
    requires
        nests(a, b, d1),
        nests(b, c, d2),
    ensures
        nests(a, c, d1 + d2),
{
    lemma_pow2_adds(d1, d2);
    lemma_pow2_pos(d2);
    let p1: int = pow2(d1) as int;
    let p2: int = pow2(d2) as int;
    let la: int = m_lam(a);
    let lb: int = m_lam(b);
    let ha: int = m_lam(a) + a.range;
    let hb: int = m_lam(b) + b.range;
    assert((la * p1) * p2 <= lb * p2) by (nonlinear_arith)
        requires
            la * p1 <= lb,
            p2 > 0,
    ;
    assert(hb * p2 <= (ha * p1) * p2) by (nonlinear_arith)
        requires
            hb <= ha * p1,
            p2 > 0,
    ;
    assert((la * p1) * p2 == la * (p1 * p2)) by (nonlinear_arith);
    assert((ha * p1) * p2 == ha * (p1 * p2)) by (nonlinear_arith);
}

/// Renormalisation nests the result exactly in the rescaled interval.
proof fn lemma_renorm_nests(m: ArithModel) -> (d: nat)
    requires
        m_pre(m),
        m.range <= 510,
    ensures
        m_pre(m_renorm(m)),
        m_regs_ok(m_renorm(m)),
        nests(m, m_renorm(m), d),
        m_lam(m_renorm(m)) == m_lam(m) * pow2(d),
        m_lam(m_renorm(m)) + m_renorm(m).range == (m_lam(m) + m.range) * pow2(d),
        m_renorm(m).range == m.range * pow2(d),
{
    let d = lemma_renorm_lam(m);
    super::engine::lemma_renorm_props(m);
    let p: int = pow2(d) as int;
    assert((m_lam(m) + m.range) * p == m_lam(m) * p + m.range * p) by (nonlinear_arith);
    d
}

/// The LPS range of any context lies in `4..=236` for a coder range in
/// `256..=510`.
proof fn lemma_lps_bounds(s: [u16; 2], range: int)
    requires
        256 <= range <= 510,
    ensures
        4 <= spec_lps(s, range) <= 236,
{
    let p: int = spec_prob8(s);
    assert(0 <= p <= 255);
    let q: int = if p >= 128 { 255 - p } else { p };
    let a: int = q / 4;
    let b: int = range / 32;
    assert(0 <= a <= 31 && 8 <= b <= 15);
    assert(0 <= a * b <= 465) by (nonlinear_arith)
        requires
            0 <= a <= 31,
            8 <= b <= 15,
    ;
}

/// The interval of the encoder before renormalisation, after a
/// context-coded bin: the upper part of width `lps` for the LPS, the lower
/// part otherwise.
pub open spec fn m_bin_split(m: ArithModel, bin: u8, lps: int, mps: u8) -> ArithModel {
    let r1 = m.range - lps;
    if bin != mps {
        ArithModel { low: m.low + r1, range: lps, ..m }
    } else {
        ArithModel { range: r1, ..m }
    }
}

proof fn lemma_bin_split(m: ArithModel, bin: u8, lps: int, mps: u8)
    requires
        m_regs_ok(m),
        m_pre(m),
        4 <= lps <= 236,
    ensures
        m_pre(m_bin_split(m, bin, lps, mps)),
        m_bin_split(m, bin, lps, mps).range <= 510,
        m_scale(m_bin_split(m, bin, lps, mps)) == m_scale(m),
        m_lam(m_bin_split(m, bin, lps, mps)) == m_lam(m) + if bin != mps { m.range - lps } else { 0 },
        nests(m, m_bin_split(m, bin, lps, mps), 0),
        m_encode_bin(m, bin, lps, mps) == m_renorm(m_bin_split(m, bin, lps, mps)),
{
    lemma2_to64();
    let m1 = m_bin_split(m, bin, lps, mps);
    assert(m_lam(m) * 1 == m_lam(m));
    assert((m_lam(m) + m.range) * 1 == m_lam(m) + m.range);
}

/// A bypass bin doubles the interval's scale and keeps its upper or lower
/// half.
pub proof fn lemma_bypass(m: ArithModel, bin: bool)
    requires
        m_regs_ok(m),
        m_pre(m),
    ensures
        m_regs_ok(m_encode_bypass(m, bin)),
        m_pre(m_encode_bypass(m, bin)),
        m_scale(m_encode_bypass(m, bin)) == m_scale(m) + 1,
        m_encode_bypass(m, bin).range == m.range,
        m_lam(m_encode_bypass(m, bin)) == 2 * m_lam(m) + if bin { m.range } else { 0 },
        nests(m, m_encode_bypass(m, bin), 1),
{
    let k: nat = m.outstanding as nat;
    let p: int = pow2(k) as int;
    let x: int = bits_value(m.bits) as int;
    lemma_pow2_pos(k);
    lemma_pow2_unfold(m_scale(m) + 1);
    lemma_pow2_unfold(k + 1);
    lemma2_to64();
    let low2: int = 2 * m.low + if bin { m.range } else { 0 };
    let m2 = m_encode_bypass(m, bin);
    let lam: int = m_lam(m);
    assert(lam == (x * p) * 1024 + 512 * (p - 1) + m.low);
    if low2 >= 1024 {
        if m.first {
            assert(x == 0);
            assert(m_scale(m) == k);
            assert(false);
        } else {
            assert(m2.outstanding == 0 && m2.low == low2 - 1024 && !m2.first);
            lemma_bv_resolve(m.bits, true, k);
            assert(m2.bits == m.bits.push(true) + repeat_bit(false, k));
            assert(bits_value(m2.bits) == x * (2 * p) + p);
            assert((x * (2 * p)) * 1024 == 2 * ((x * p) * 1024)) by (nonlinear_arith);
            assert(m_lam(m2) == (bits_value(m2.bits) * 1) * 1024 + low2 - 1024);
        }
    } else if low2 < 512 {
        assert(m2.outstanding == 0 && m2.low == low2 && !m2.first);
        if m.first {
            assert(m.bits + repeat_bit(true, k) =~= repeat_bit(true, k));
            lemma_bv_repeat(true, k);
            assert(x == 0);
            assert(m2.bits == repeat_bit(true, k));
            assert(bits_value(m2.bits) == p - 1);
        } else {
            lemma_bv_resolve(m.bits, false, k);
            assert(m2.bits == m.bits.push(false) + repeat_bit(true, k));
            assert(bits_value(m2.bits) == x * (2 * p) + p - 1);
            assert((x * (2 * p)) * 1024 == 2 * ((x * p) * 1024)) by (nonlinear_arith);
        }
        assert(m_lam(m2) == (bits_value(m2.bits) * 1) * 1024 + low2);
    } else {
        assert(m2.outstanding == m.outstanding + 1 && m2.low == low2 - 512 && m2.bits == m.bits);
        assert(pow2(m2.outstanding as nat) == 2 * p);
        assert((x * (2 * p)) * 1024 == 2 * ((x * p) * 1024)) by (nonlinear_arith);
        assert(m_lam(m2) == (x * (2 * p)) * 1024 + 512 * (2 * p - 1) + low2 - 512);
    }
    assert(m_lam(m2) == 2 * lam + if bin { m.range } else { 0 });
    assert(pow2(m_scale(m2)) == 2 * pow2(m_scale(m)));
    assert(pow2(1) == 2);
}

// ---------------------------------------------------------------------------
// The decoder against the encoder's interval
// ---------------------------------------------------------------------------
/// The decoder over `data` matches the encoder state `m`: same range, its
/// read position nine bits past the encoder's scale, and its offset the
/// code value read so far minus the encoder's lower end.
pub open spec fn in_step(data: Seq<u8>, m: ArithModel, d: DecModel) -> bool {
    &&& d.range == m.range
    &&& d.pos == m_scale(m) + 9
    &&& d.offset == d_bits_value(data, 0, (m_scale(m) + 9) as nat) - m_lam(m)
}

/// The code value in `data`, read to the encoder's scale, lies in the
/// encoder's interval.
pub open spec fn contains(data: Seq<u8>, m: ArithModel) -> bool {
    let c: int = d_bits_value(data, 0, (m_scale(m) + 9) as nat) as int;
    m_lam(m) <= c < m_lam(m) + m.range
}

/// Reading `a + b` bits is reading `a`, then `b` more.
proof fn lemma_dbv_split(data: Seq<u8>, a: nat, b: nat)
    ensures
        d_bits_value(data, 0, a + b) == d_bits_value(data, 0, a) * pow2(b) + d_bits_value(data, a as int, b),
        d_bits_value(data, a as int, b) < pow2(b),
    decreases b,
{
    lemma2_to64();
    if b == 0 {
        assert(d_bits_value(data, 0, a) * 1 == d_bits_value(data, 0, a));
    } else {
        lemma_dbv_split(data, a, (b - 1) as nat);
        lemma_pow2_unfold(b);
        let x: int = d_bits_value(data, 0, a) as int;
        let q: int = pow2((b - 1) as nat) as int;
        assert(2 * (x * q) == x * (2 * q)) by (nonlinear_arith);
        assert(d_bits_value(data, 0, a + b) == 2 * d_bits_value(data, 0, (a + b - 1) as nat) + if dec_bit(data, a + b - 1) { 1nat } else { 0nat });
        assert(d_bits_value(data, a as int, b) == 2 * d_bits_value(data, a as int, (b - 1) as nat) + if dec_bit(data, a + b - 1) { 1nat } else { 0nat });
    }
}

/// A code value inside a later, nested interval lies in the earlier one.
pub proof fn lemma_contains_back(data: Seq<u8>, m: ArithModel, m2: ArithModel, d: nat)
    requires
        nests(m, m2, d),
        contains(data, m2),
    ensures
        contains(data, m),
{
    let a: nat = (m_scale(m) + 9) as nat;
    lemma_dbv_split(data, a, d);
    assert((m_scale(m2) + 9) as nat == a + d);
    lemma_pow2_pos(d);
    let p: int = pow2(d) as int;
    let c: int = d_bits_value(data, 0, a) as int;
    let y: int = d_bits_value(data, a as int, d) as int;
    let lam: int = m_lam(m);
    let hi: int = m_lam(m) + m.range;
    assert(lam <= c < hi) by (nonlinear_arith)
        requires
            lam * p <= c * p + y,
            c * p + y < hi * p,
            0 <= y < p,
    ;
}

/// Decoder renormalisation follows the encoder's: both double the range
/// until it reaches 256, and the offset takes in the code bits the encoder
/// shifts out.
proof fn lemma_d_renorm(data: Seq<u8>, m: ArithModel, d: DecModel)
    requires
        m_pre(m),
        in_step(data, m, d),
        0 <= d.offset < d.range,
    ensures
        in_step(data, m_renorm(m), d_renorm(data, d)),
    decreases (if m.range >= 256 { 0 } else { 256 - m.range }),
{
    if m.range < 256 {
        lemma_shift(m);
        let m2 = m_shift(m);
        let d2 = DecModel { range: 2 * d.range, offset: d_shift_in(data, d.offset, d.pos), pos: d.pos + 1 };
        assert(d_renorm(data, d) == d_renorm(data, d2));
        let n: nat = (m_scale(m) + 9) as nat;
        assert(d_bits_value(data, 0, n + 1) == 2 * d_bits_value(data, 0, n) + if dec_bit(data, n as int) { 1nat } else { 0nat });
        let v: int = 2 * d.offset + if dec_bit(data, d.pos) { 1int } else { 0int };
        assert(0 <= v < 0x1_0000_0000);
        assert(d_shift_in(data, d.offset, d.pos) == v);
        lemma_d_renorm(data, m2, d2);
    }
}

/// Reading a context-coded bin gives back the bin the encoder coded with
/// the same context, and the decoder keeps following the encoder.
pub proof fn lemma_dec_ctx_bin(data: Seq<u8>, m: ArithModel, d: DecModel, c: CtxModel, bin: u8)
    requires
        m_regs_ok(m),
        m_pre(m),
        in_step(data, m, d),
        contains(data, m_ctx_bin(m, bin, c)),
    ensures
        d_ctx_bin(data, d, c).1 == bin % 2,
        in_step(data, m_ctx_bin(m, bin, c), d_ctx_bin(data, d, c).0),
{
    let lps: int = spec_lps(c.state, m.range);
    let mps: u8 = spec_mps(c.state);
    let b: u8 = bin % 2;
    lemma_lps_bounds(c.state, m.range);
    lemma_bin_split(m, b, lps, mps);
    let m1 = m_bin_split(m, b, lps, mps);
    let dd = lemma_renorm_nests(m1);
    lemma_contains_back(data, m1, m_renorm(m1), dd);
    let r1: int = m.range - lps;
    let cv: int = d_bits_value(data, 0, (m_scale(m) + 9) as nat) as int;
    assert(d.offset == cv - m_lam(m));
    if b != mps {
        assert(d.offset >= r1);
        let d1 = DecModel { range: lps, offset: d.offset - r1, pos: d.pos };
        lemma_d_renorm(data, m1, d1);
    } else {
        assert(d.offset < r1);
        let d1 = DecModel { range: r1, ..d };
        lemma_d_renorm(data, m1, d1);
    }
}

/// Reading a bypass bin gives back the bin the encoder coded.
pub proof fn lemma_dec_bypass(data: Seq<u8>, m: ArithModel, d: DecModel, bin: bool)
    requires
        m_regs_ok(m),
        m_pre(m),
        in_step(data, m, d),
        contains(data, m_encode_bypass(m, bin)),
    ensures
        d_decode_bypass(data, d).1 == if bin { 1u8 } else { 0u8 },
        in_step(data, m_encode_bypass(m, bin), d_decode_bypass(data, d).0),
{
    lemma_bypass(m, bin);
    lemma_contains_back(data, m, m_encode_bypass(m, bin), 1);
    let n: nat = (m_scale(m) + 9) as nat;
    assert(d_bits_value(data, 0, n + 1) == 2 * d_bits_value(data, 0, n) + if dec_bit(data, n as int) { 1nat } else { 0nat });
    let v: int = 2 * d.offset + if dec_bit(data, d.pos) { 1int } else { 0int };
    assert(0 <= v < 0x1_0000_0000);
    assert(d_shift_in(data, d.offset, d.pos) == v);
}

// ---------------------------------------------------------------------------
// Bin sequences
// ---------------------------------------------------------------------------
/// One coded bin: context-coded with a context model, or bypass-coded.
pub enum CodedBin {
    Regular { ctx: CtxModel, bin: u8 },
    Bypass { bit: bool },
}

/// The bin value as the decoder returns it.
pub open spec fn bin_value(op: CodedBin) -> u8 {
    match op {
        CodedBin::Regular { bin, .. } => bin % 2,
        CodedBin::Bypass { bit: bin } => if bin { 1u8 } else { 0u8 },
    }
}

/// The bin values of a sequence of coded bins.
pub open spec fn bin_values(ops: Seq<CodedBin>) -> Seq<u8> {
    Seq::new(ops.len(), |i: int| bin_value(ops[i]))
}

/// The encoder state after coding one bin.
pub open spec fn enc_step(m: ArithModel, op: CodedBin) -> ArithModel {
    match op {
        CodedBin::Regular { ctx, bin } => m_ctx_bin(m, bin, ctx),
        CodedBin::Bypass { bit: bin } => m_encode_bypass(m, bin),
    }
}

/// The encoder state after coding the bins `ops` in order.
pub open spec fn enc_bins(m: ArithModel, ops: Seq<CodedBin>) -> ArithModel
    decreases ops.len(),
{
    if ops.len() == 0 {
        m
    } else {
        enc_bins(enc_step(m, ops[0]), ops.drop_first())
    }
}

/// The decoder state and bin after reading one bin of the kind of `op`
/// (with its context model, if context-coded).
pub open spec fn dec_step(data: Seq<u8>, d: DecModel, op: CodedBin) -> (DecModel, u8) {
    match op {
        CodedBin::Regular { ctx, .. } => d_ctx_bin(data, d, ctx),
        CodedBin::Bypass { .. } => d_decode_bypass(data, d),
    }
}

/// The decoder state and the bins after reading bins of the kinds of `ops`
/// in order.
pub open spec fn dec_bins(data: Seq<u8>, d: DecModel, ops: Seq<CodedBin>) -> (DecModel, Seq<u8>)
    decreases ops.len(),
{
    if ops.len() == 0 {
        (d, Seq::empty())
    } else {
        let (d1, b) = dec_step(data, d, ops[0]);
        let (d2, bs) = dec_bins(data, d1, ops.drop_first());
        (d2, seq![b] + bs)
    }
}

proof fn lemma_enc_step(m: ArithModel, op: CodedBin) -> (d: nat)
    requires
        m_regs_ok(m),
        m_pre(m),
    ensures
        m_regs_ok(enc_step(m, op)),
        m_pre(enc_step(m, op)),
        nests(m, enc_step(m, op), d),
{
    match op {
        CodedBin::Regular { ctx, bin } => {
            let lps: int = spec_lps(ctx.state, m.range);
            let mps: u8 = spec_mps(ctx.state);
            lemma_lps_bounds(ctx.state, m.range);
            lemma_bin_split(m, bin % 2, lps, mps);
            let m1 = m_bin_split(m, bin % 2, lps, mps);
            let dd = lemma_renorm_nests(m1);
            lemma_nests_compose(m, m1, m_renorm(m1), 0, dd);
            dd
        },
        CodedBin::Bypass { bit: bin } => {
            lemma_bypass(m, bin);
            1
        },
    }
}

/// Coding bins keeps the encoder's registers in range and nests its
/// interval.
pub proof fn lemma_enc_bins(m: ArithModel, ops: Seq<CodedBin>) -> (d: nat)
    requires
        m_regs_ok(m),
        m_pre(m),
    ensures
        m_regs_ok(enc_bins(m, ops)),
        m_pre(enc_bins(m, ops)),
        nests(m, enc_bins(m, ops), d),
    decreases ops.len(),
{
    if ops.len() == 0 {
        lemma2_to64();
        assert(m_lam(m) * 1 == m_lam(m));
        assert((m_lam(m) + m.range) * 1 == m_lam(m) + m.range);
        0
    } else {
        let m1 = enc_step(m, ops[0]);
        let d1 = lemma_enc_step(m, ops[0]);
        let d2 = lemma_enc_bins(m1, ops.drop_first());
        lemma_nests_compose(m, m1, enc_bins(m1, ops.drop_first()), d1, d2);
        d1 + d2
    }
}

/// The code value lies in the part of the interval that a terminating bin
/// selects.
pub open spec fn contains_end(data: Seq<u8>, m: ArithModel) -> bool {
    let c: int = d_bits_value(data, 0, (m_scale(m) + 9) as nat) as int;
    m_lam(m) + m.range - 2 <= c < m_lam(m) + m.range
}

/// Reading the bins of `ops` gives back the encoder's bins, and the decoder
/// ends where the encoder did, whenever the code value lies in the
/// encoder's interval after them.
pub proof fn lemma_dec_bins(data: Seq<u8>, m: ArithModel, d: DecModel, ops: Seq<CodedBin>)
    requires
        m_regs_ok(m),
        m_pre(m),
        in_step(data, m, d),
        contains(data, enc_bins(m, ops)),
    ensures
        dec_bins(data, d, ops).1 == bin_values(ops),
        in_step(data, enc_bins(m, ops), dec_bins(data, d, ops).0),
    decreases ops.len(),
{
    if ops.len() == 0 {
        assert(bin_values(ops) =~= Seq::<u8>::empty());
    } else {
        let op = ops[0];
        let rest = ops.drop_first();
        let m1 = enc_step(m, op);
        lemma_enc_step(m, op);
        let dd = lemma_enc_bins(m1, rest);
        lemma_contains_back(data, m1, enc_bins(m1, rest), dd);
        match op {
            CodedBin::Regular { ctx, bin } => {
                lemma_dec_ctx_bin(data, m, d, ctx, bin);
            },
            CodedBin::Bypass { bit: bin } => {
                lemma_dec_bypass(data, m, d, bin);
            },
        }
        let (d1, b) = dec_step(data, d, op);
        lemma_dec_bins(data, m1, d1, rest);
        assert(bin_values(ops) =~= seq![b] + bin_values(rest));
    }
}

// ---------------------------------------------------------------------------
// The terminating flush
// ---------------------------------------------------------------------------
/// The decoder reads the first `n` bits of `t` where `data` begins with `t`.
proof fn lemma_dbv_prefix(data: Seq<u8>, t: Seq<bool>, n: nat)
    requires
        bytes_bits(data).len() >= t.len(),
        forall|i: int| 0 <= i < t.len() ==> #[trigger] bytes_bits(data)[i] == t[i],
        n <= t.len(),
    ensures
        d_bits_value(data, 0, n) == bits_value(t.take(n as int)),
    decreases n,
{
    if n == 0 {
        assert(t.take(0) =~= Seq::<bool>::empty());
    } else {
        lemma_dbv_prefix(data, t, (n - 1) as nat);
        let i: int = n - 1;
        assert(bytes_bits(data)[i] == t[i]);
        assert(i / 8 < data.len());
        assert(dec_bit(data, i) == t[i]);
        assert(t.take(n as int).drop_last() =~= t.take(i));
        assert(t.take(n as int).last() == t[i]);
    }
}

/// After the flush, the last `low` register holds `lam` below the resolved
/// bits.
proof fn lemma_flush_bits(m1: ArithModel, b9: bool)
    requires
        m_pre(m1),
        m1.range == 256,
        b9 == ((m1.low / 512) % 2 == 1),
    ensures
        m_put_bit(m1, b9).bits.len() == m_scale(m1),
        bits_value(m_put_bit(m1, b9).bits) * 512 + m1.low % 512 == m_lam(m1),
{
    let k: nat = m1.outstanding as nat;
    let p: int = pow2(k) as int;
    let x: int = bits_value(m1.bits) as int;
    lemma_pow2_pos(k);
    let m2 = m_put_bit(m1, b9);
    if m1.first {
        if b9 {
            assert(x == 0);
            assert(m_scale(m1) == k);
            assert(false);
        }
        assert(m1.bits + repeat_bit(true, k) =~= repeat_bit(true, k));
        lemma_bv_repeat(true, k);
    } else {
        lemma_bv_resolve(m1.bits, b9, k);
        assert((x * (2 * p)) * 512 == (x * p) * 1024) by (nonlinear_arith);
    }
}

/// The terminating flush writes a code value inside the part of the last
/// interval that the terminating bin selects.
pub proof fn lemma_end(data: Seq<u8>, mf: ArithModel, pad: nat)
    requires
        m_regs_ok(mf),
        m_pre(mf),
        bytes_bits(data) == m_encode_terminate(mf, 1).bits + repeat_bit(false, pad),
    ensures
        contains_end(data, mf),
{
    lemma2_to64();
    let r1: int = mf.range - 2;
    let a = ArithModel { low: mf.low + r1, range: 2, ..mf };
    assert(m_lam(a) == m_lam(mf) + r1);
    let dd = lemma_renorm_nests(a);
    let m1 = m_renorm(a);
    if dd < 7 {
        lemma_pow2_strictly_increases(dd, 7);
    }
    if dd > 7 {
        if dd > 8 {
            lemma_pow2_strictly_increases(8, dd);
        }
    }
    assert(dd == 7);
    assert(m1.range == 256);
    assert(m_lam(m1) == m_lam(a) * 128);
    let b9: bool = (m1.low / 512) % 2 == 1;
    let b8: bool = (m1.low / 256) % 2 == 1;
    let m2 = m_put_bit(m1, b9);
    lemma_flush_bits(m1, b9);
    let t = m2.bits.push(b8).push(true);
    assert(m_encode_terminate(mf, 1).bits == t);
    let s1: nat = m_scale(m1);
    assert(t.len() == s1 + 2);
    assert forall|i: int| 0 <= i < t.len() implies #[trigger] bytes_bits(data)[i] == t[i] by {
        assert((t + repeat_bit(false, pad))[i] == t[i]);
    }
    lemma_dbv_prefix(data, t, s1 + 2);
    assert(t.take((s1 + 2) as int) =~= t);
    lemma_bv_push(m2.bits, b8);
    lemma_bv_push(m2.bits.push(b8), true);
    let bv2: int = bits_value(m2.bits) as int;
    lemma_dbv_split(data, s1 + 2, 7);
    assert(s1 + 2 + 7 == s1 + 9);
    let y: int = d_bits_value(data, (s1 + 2) as int, 7) as int;
    let c1: int = d_bits_value(data, 0, s1 + 9) as int;
    assert(c1 == (4 * bv2 + 2 * (if b8 { 1int } else { 0int }) + 1) * 128 + y);
    let low: int = m1.low;
    assert(bv2 * 512 + low % 512 == m_lam(a) * 128);
    let tq: int = m_lam(a) - 4 * bv2;
    assert(low % 512 == 128 * tq);
    assert(0 <= low % 512 < 512);
    assert(0 <= tq <= 3);
    assert(low % 512 == 256 * ((low / 256) % 2) + low % 256);
    assert(contains(data, m1));
    lemma_contains_back(data, a, m1, dd);
}

/// The CABAC round trip. Code any sequence of context-coded and bypass bins
/// from the initial encoder state and end the slice with a terminating bin
/// of value 1; then a decoder started over the output bytes (whatever zero
/// padding ends them) and reading the same kinds of bins, each context-coded
/// bin with the context model the encoder used, reads back exactly the
/// encoder's bins, and its terminating bin reads 1.
pub proof fn lemma_cabac_round_trip(ops: Seq<CodedBin>, data: Seq<u8>, pad: nat)
    requires
        bytes_bits(data) == m_encode_terminate(enc_bins(m_initial(), ops), 1).bits + repeat_bit(false, pad),
    ensures
        dec_bins(data, DecModel { range: 510, offset: d_bits_value(data, 0, 9) as int, pos: 9 }, ops).1
            == bin_values(ops),
        d_decode_terminate(
            data,
            dec_bins(data, DecModel { range: 510, offset: d_bits_value(data, 0, 9) as int, pos: 9 }, ops).0,
        ).1 == 1,
{
    lemma2_to64();
    let m0 = m_initial();
    assert(bits_value(m0.bits) == 0);
    assert(m_lam(m0) == 0);
    assert(m_scale(m0) == 0);
    let d0 = DecModel { range: 510, offset: d_bits_value(data, 0, 9) as int, pos: 9 };
    lemma_enc_bins(m0, ops);
    let mf = enc_bins(m0, ops);
    lemma_end(data, mf, pad);
    lemma_dec_bins(data, m0, d0, ops);
}

/// A decoder started over `data` follows the initial encoder state.
pub proof fn lemma_start(data: Seq<u8>)
    ensures
        m_regs_ok(m_initial()),
        m_pre(m_initial()),
        in_step(data, m_initial(), DecModel { range: 510, offset: d_bits_value(data, 0, 9) as int, pos: 9 }),
{
    lemma2_to64();
    assert(bits_value(m_initial().bits) == 0);
}

/// A context-coded bin keeps the encoder's registers in range and nests its
/// interval.
pub proof fn lemma_ctx_nests(m: ArithModel, c: CtxModel, bin: u8) -> (d: nat)
    requires
        m_regs_ok(m),
        m_pre(m),
    ensures
        m_regs_ok(m_ctx_bin(m, bin, c)),
        m_pre(m_ctx_bin(m, bin, c)),
        nests(m, m_ctx_bin(m, bin, c), d),
{
    lemma_enc_step(m, CodedBin::Regular { ctx: c, bin })
}

/// A run of bypass bins keeps the encoder's registers in range and nests its
/// interval.
pub proof fn lemma_bypass_seq_nests(m: ArithModel, s: Seq<bool>) -> (d: nat)
    requires
        m_regs_ok(m),
        m_pre(m),
    ensures
        m_regs_ok(m_bypass_seq(m, s)),
        m_pre(m_bypass_seq(m, s)),
        nests(m, m_bypass_seq(m, s), d),
        d == s.len(),
    decreases s.len(),
{
    if s.len() == 0 {
        lemma2_to64();
        assert(m_lam(m) * 1 == m_lam(m));
        assert((m_lam(m) + m.range) * 1 == m_lam(m) + m.range);
        0
    } else {
        let m1 = m_bypass_seq(m, s.drop_last());
        let d1 = lemma_bypass_seq_nests(m, s.drop_last());
        lemma_bypass(m1, s.last());
        lemma_nests_compose(m, m1, m_bypass_seq(m, s), d1, 1);
        d1 + 1
    }
}

/// Reading `s.len()` bypass bins gives back the value of the bypass bins `s`
/// the encoder coded.
pub proof fn lemma_dec_bypass_bits(data: Seq<u8>, m: ArithModel, d: DecModel, s: Seq<bool>)
    requires
        m_regs_ok(m),
        m_pre(m),
        in_step(data, m, d),
        contains(data, m_bypass_seq(m, s)),
    ensures
        d_bypass_bits(data, d, s.len()).1 == bits_value(s),
        in_step(data, m_bypass_seq(m, s), d_bypass_bits(data, d, s.len()).0),
    decreases s.len(),
{
    if s.len() > 0 {
        let s1 = s.drop_last();
        let m1 = m_bypass_seq(m, s1);
        lemma_bypass_seq_nests(m, s1);
        lemma_bypass(m1, s.last());
        lemma_contains_back(data, m1, m_bypass_seq(m, s), 1);
        lemma_dec_bypass_bits(data, m, d, s1);
        assert(s1.len() == (s.len() - 1) as nat);
        let (d1, v) = d_bypass_bits(data, d, s1.len());
        lemma_dec_bypass(data, m1, d1, s.last());
    }
}

/// A run of bypass bins is its first bin, then the rest.
pub proof fn lemma_bypass_seq_first(m: ArithModel, s: Seq<bool>)
    requires
        s.len() > 0,
    ensures
        m_bypass_seq(m, s) == m_bypass_seq(m_encode_bypass(m, s[0]), s.drop_first()),
    decreases s.len(),
{
    let m1 = m_encode_bypass(m, s[0]);
    if s.len() == 1 {
        assert(s.drop_last() =~= Seq::<bool>::empty());
        assert(s.drop_first() =~= Seq::<bool>::empty());
        assert(m_bypass_seq(m, Seq::<bool>::empty()) == m);
        assert(m_bypass_seq(m1, Seq::<bool>::empty()) == m1);
        assert(m_bypass_seq(m, s) == m_encode_bypass(m_bypass_seq(m, s.drop_last()), s.last()));
    } else {
        lemma_bypass_seq_first(m, s.drop_last());
        assert(s.drop_last().drop_first() =~= s.drop_first().drop_last());
        assert(s.drop_first().last() == s.last());
        assert(s.drop_last()[0] == s[0]);
        assert(m_bypass_seq(m, s) == m_encode_bypass(m_bypass_seq(m, s.drop_last()), s.last()));
        assert(m_bypass_seq(m1, s.drop_first()) == m_encode_bypass(
            m_bypass_seq(m1, s.drop_first().drop_last()),
            s.drop_first().last(),
        ));
    }
}

/// Every state nests in itself.
pub proof fn lemma_nests_refl(m: ArithModel)
    ensures
        nests(m, m, 0),
{
    lemma2_to64();
    assert(m_lam(m) * 1 == m_lam(m));
    assert((m_lam(m) + m.range) * 1 == m_lam(m) + m.range);
}

/// Inside a terminated slice the code value lies in the interval of every
/// encoder state on the way to the terminating bin, so each syntax
/// element's round trip applies there.
pub proof fn lemma_slice_contains(data: Seq<u8>, m: ArithModel, mf: ArithModel, d: nat, pad: nat)
    requires
        nests(m, mf, d),
        m_regs_ok(mf),
        m_pre(mf),
        bytes_bits(data) == m_encode_terminate(mf, 1).bits + repeat_bit(false, pad),
    ensures
        contains(data, m),
        d_decode_terminate(data, DecModel { range: mf.range, offset: d_bits_value(data, 0, (m_scale(mf) + 9) as nat) - m_lam(mf), pos: (m_scale(mf) + 9) as int }).1 == 1,
{
    lemma_end(data, mf, pad);
    lemma_contains_back(data, m, mf, d);
}

} // verus!
