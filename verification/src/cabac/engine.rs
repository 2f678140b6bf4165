//! VVC (H.266) CABAC arithmetic encoder and decoder.
//!
//! The arithmetic engine — the 9-bit `range`, the `low` register and the
//! carry/outstanding-bit output — is the H.264-derived coder also used by HEVC,
//! with bit-by-bit renormalisation. What VVC changes is the probability model:
//! a dual probability state updated at two exponential rates and averaged
//! (H.266 §9.3.4.3.2), and a multiplication-based LPS range (`getLPS`).
//!
//! The encoder is modelled by [`ArithModel`]: its registers plus the bits it has
//! produced; each coding operation is stated as a transition of that model.
use vstd::prelude::*;
use crate::bitstream::{
    bytes_bits, low_bits, lemma_bytes_bits_push, lemma_shift_in_bit, lemma_u32_shift_in,
    lemma_u64_halve, reader_bit,
};

verus! {

/// Mask keeping `state[0]` at 10-bit precision within a 15-bit field.
pub const MASK_0: u16 = 0x7FE0;

/// Mask keeping `state[1]` at 14-bit precision within a 15-bit field.
pub const MASK_1: u16 = 0x7FFE;

/// Default packed window sizes.
pub const DWS: u8 = 8;

// ---------------------------------------------------------------------------
// Probability model
// ---------------------------------------------------------------------------
/// A single VVC CABAC context model: two probability estimates plus the packed
/// adaptation rates (fast rate in the high nibble, slow in the low nibble).
#[derive(Clone, Copy, Debug)]
pub struct CtxModel {
    pub state: [u16; 2],
    pub rate: u8,
}

/// The context-initialisation state for an init value at slice QP `qp`
/// (H.266 §9.3.2.2): `preCtxState = Clip3(1, 127, ((m * (Clip3(0,63,qp) - 16)) >> 1) + n)`
/// with `m = (initValue >> 3) - 4`, `n = (initValue & 7) * 18 + 1`, scaled to 15 bits.
pub open spec fn init_pre_state(init_value: u8, qp: u8) -> int {
    let qpc: int = if qp > 63 {
        63
    } else {
        qp as int
    };
    let slope: int = init_value as int / 8 - 4;
    let offset: int = (init_value as int % 8) * 18 + 1;
    let ini: int = (slope * (qpc - 16)) / 2 + offset;
    if ini < 1 {
        1
    } else if ini > 127 {
        127
    } else {
        ini
    }
}

/// The packed adaptation rates for a `log2WindowSize` table entry.
pub open spec fn window_rate(lws: u8) -> u8 {
    let rate0 = 2 + (lws as int / 4) % 4;
    let rate1 = 3 + rate0 + lws as int % 4;
    (16 * rate0 + rate1) as u8
}

/// Combined 8-bit probability estimate of a state pair.
pub open spec fn spec_prob8(s: [u16; 2]) -> int {
    ((s[0] as int + s[1] as int) % 65536) / 256
}

/// Most probable symbol of a state pair.
pub open spec fn spec_mps(s: [u16; 2]) -> u8 {
    if spec_prob8(s) >= 128 {
        1
    } else {
        0
    }
}

/// LPS sub-range for coder range `range` (`BinProbModel_Std::getLPS`).
pub open spec fn spec_lps(s: [u16; 2], range: int) -> int {
    let p = spec_prob8(s);
    let q = if p >= 128 {
        255 - p
    } else {
        p
    };
    ((q / 4) * (range / 32)) / 2 + 4
}

/// One exponential-decay update of a probability estimate towards `bin`.
pub open spec fn spec_update_one(s: u16, rate: u32, mask: u16, bin: bool) -> u16 {
    let dec = (s as u32 >> rate) & (mask as u32);
    let inc: u32 = if bin {
        (0x7fffu32 >> rate) & (mask as u32)
    } else {
        0
    };
    ((s as int - dec as int + inc as int) % 65536) as u16
}

/// `c` is the context initialised from `init_value` at `qp` with window size `lws`.
pub open spec fn ctx_is_init(c: CtxModel, init_value: u8, qp: u8, lws: u8) -> bool {
    &&& c.state[0] == ((init_pre_state(init_value, qp) * 256) as u16) & MASK_0
    &&& c.state[1] == ((init_pre_state(init_value, qp) * 256) as u16) & MASK_1
    &&& c.rate == window_rate(lws)
}

/// Bounds behind the probability update: the decay never exceeds the state,
/// the increment fits in 15 bits, and the final cast keeps the low 16 bits.
proof fn lemma_update_bounds(s0: u32, s1: u32, rate0: u32, rate1: u32)
    by (bit_vector)
    ensures
        rate0 < 16 ==> (s0 >> rate0) & 0x7FE0u32 <= s0,
        rate1 < 16 ==> (s1 >> rate1) & 0x7FFEu32 <= s1,
        (0x7fffu32 >> rate0) & 0x7FE0u32 <= 0x7fff,
        (0x7fffu32 >> rate1) & 0x7FFEu32 <= 0x7fff,
        (s0 as u16) as int == s0 as int % 65536,
        (s1 as u16) as int == s1 as int % 65536,
{
}

impl CtxModel {
    /// Initialise from a context init value, the slice QP and the per-context
    /// `log2_window_size` (H.266 §9.3.2.3).
    pub fn init(init_value: u8, qp: u8, log2_window_size: u8) -> (c: Self)
        ensures
            ctx_is_init(c, init_value, qp, log2_window_size),
    {
        let init_id = init_value as i32;
        let qp = if (qp as i32) > 63 {
            63i32
        } else {
            qp as i32
        };
        let slope = (init_id / 8) - 4;
        let offset = ((init_id % 8) * 18) + 1;
        assert(-4 <= slope <= 27);
        assert(-2000 < slope * (qp - 16) < 2000) by (nonlinear_arith)
            requires
                -4 <= slope <= 27,
                0 <= qp <= 63,
        ;
        let prod = slope * (qp - 16);
        assert(prod >> 1i32 == prod / 2) by (bit_vector)
            requires
                -2000 < prod < 2000,
        ;
        let inistate = (prod >> 1i32) + offset;
        let state_clip = if inistate < 1 {
            1
        } else if inistate > 127 {
            127
        } else {
            inistate
        };
        let p1 = (state_clip * 256) as u16;
        let mut c = CtxModel { state: [p1 & MASK_0, p1 & MASK_1], rate: DWS };
        c.set_log2_window_size(log2_window_size);
        c
    }

    /// Apply the packed adaptation rates (`BinProbModel_Std::setLog2WindowSize`).
    pub fn set_log2_window_size(&mut self, log2_window_size: u8)
        ensures
            final(self).state == old(self).state,
            final(self).rate == window_rate(log2_window_size),
    {
        let lws = log2_window_size as u32;
        let rate0 = 2 + ((lws / 4) % 4);
        let rate1 = 3 + rate0 + (lws % 4);
        self.rate = (16 * rate0 + rate1) as u8;
    }

    /// Combined 8-bit probability estimate (0..=255). 128 is equiprobable.
    pub fn prob8(self) -> (r: u16)
        ensures
            r == spec_prob8(self.state),
            r < 256,
    {
        let s = self.state[0].wrapping_add(self.state[1]);
        s / 256
    }

    /// Most-probable symbol (0 or 1): the top bit of the combined estimate.
    pub fn mps(self) -> (r: u8)
        ensures
            r == spec_mps(self.state),
            r <= 1,
    {
        let p = self.prob8();
        (p / 128) as u8
    }

    /// LPS sub-range for the current coder `range` (`BinProbModel_Std::getLPS`).
    pub fn get_lps(self, range: u32) -> (r: u32)
        ensures
            r == spec_lps(self.state, range as int),
            4 <= r,
            range <= 510 ==> r <= 236,
            r <= (range as int) / 2 + 4,
    {
        let mut q = self.prob8();
        let ghost p = q;
        if q >= 128 {
            q = 255 - q;
        }
        let a = (q as u32) / 4;
        let b = range / 32;
        assert(a * b <= 31 * b) by (nonlinear_arith)
            requires
                a <= 31,
        ;
        let ab = a * b;
        let m = ab / 2;
        proof {
            if range <= 510 {
                assert(b <= 15);
                assert(a * b <= 31 * 15) by (nonlinear_arith)
                    requires
                        a <= 31,
                        b <= 15,
                ;
            }
            assert(a * b <= b * 31) by (nonlinear_arith)
                requires
                    a <= 31,
            ;
        }
        m + 4
    }

    /// Dual-rate probability update after coding `bin` (`BinProbModel_Std::update`).
    pub fn update(&mut self, bin: u8)
        ensures
            final(self).rate == old(self).rate,
            final(self).state[0] == spec_update_one(
                old(self).state[0],
                (old(self).rate / 16) as u32,
                MASK_0,
                bin != 0,
            ),
            final(self).state[1] == spec_update_one(
                old(self).state[1],
                (old(self).rate % 16) as u32,
                MASK_1,
                bin != 0,
            ),
    {
        let rate0 = (self.rate / 16) as u32;
        let rate1 = (self.rate % 16) as u32;
        let mut s0 = self.state[0] as u32;
        let mut s1 = self.state[1] as u32;
        proof {
            lemma_update_bounds(s0, s1, rate0, rate1);
        }
        let d0 = (s0 >> rate0) & (MASK_0 as u32);
        let d1 = (s1 >> rate1) & (MASK_1 as u32);
        s0 -= d0;
        s1 -= d1;
        if bin != 0 {
            let i0 = (0x7fffu32 >> rate0) & (MASK_0 as u32);
            let i1 = (0x7fffu32 >> rate1) & (MASK_1 as u32);
            s0 += i0;
            s1 += i1;
        }
        proof {
            lemma_update_bounds(s0, s1, rate0, rate1);
        }
        self.state[0] = s0 as u16;
        self.state[1] = s1 as u16;
    }
}


/// Bit layout of a partial byte left-aligned by zero padding.
proof fn lemma_pad_bits(c: u8, n: u8, i: u64)
    by (bit_vector)
    requires
        1 <= n < 8,
        (c as u64) < (1u64 << (n as u64)),
        i < 8,
    ensures
        i < n as u64 ==> (((c << ((8 - n) as u8)) as u64) >> ((7 - i) as u64)) & 1 == ((c as u64)
            >> ((n as u64 - 1 - i) as u64)) & 1,
        i >= n as u64 ==> (((c << ((8 - n) as u8)) as u64) >> ((7 - i) as u64)) & 1 == 0,
{
}

// ---------------------------------------------------------------------------
// Arithmetic encoder
// ---------------------------------------------------------------------------
/// Abstract state of the arithmetic encoder: the `low` and `range` registers,
/// the count of outstanding (carry-deferred) bits, whether the first output
/// bit is still to be suppressed, and every bit emitted so far.
pub struct ArithModel {
    pub low: int,
    pub range: int,
    pub outstanding: int,
    pub first: bool,
    pub bits: Seq<bool>,
}

/// `n` copies of the bit `b`.
pub open spec fn repeat_bit(b: bool, n: nat) -> Seq<bool> {
    Seq::new(n, |i: int| b)
}

/// Resolve a bit: emit it (unless it is the suppressed first bit), then the
/// outstanding bits with the opposite value.
pub open spec fn m_put_bit(m: ArithModel, b: bool) -> ArithModel {
    let bits1 = if m.first {
        m.bits
    } else {
        m.bits.push(b)
    };
    ArithModel {
        first: false,
        outstanding: 0,
        bits: bits1 + repeat_bit(!b, m.outstanding as nat),
        ..m
    }
}

/// Renormalisation: while `range < 256`, shift out the top bit of `low` (or
/// defer it as outstanding) and double `range` and `low`.
pub open spec fn m_renorm(m: ArithModel) -> ArithModel
    decreases (if m.range >= 256 {
        0
    } else {
        256 - m.range
    }),
{
    if m.range >= 256 || m.range <= 0 {
        m
    } else {
        let m1 = if m.low < 256 {
            m_put_bit(m, false)
        } else if m.low >= 512 {
            m_put_bit(ArithModel { low: m.low - 512, ..m }, true)
        } else {
            ArithModel { low: m.low - 256, outstanding: m.outstanding + 1, ..m }
        };
        m_renorm(ArithModel { range: 2 * m1.range, low: 2 * m1.low, ..m1 })
    }
}

/// Context-coded bin with LPS range `lps` and most probable symbol `mps`.
pub open spec fn m_encode_bin(m: ArithModel, bin: u8, lps: int, mps: u8) -> ArithModel {
    let r1 = m.range - lps;
    let m1 = if bin != mps {
        ArithModel { low: m.low + r1, range: lps, ..m }
    } else {
        ArithModel { range: r1, ..m }
    };
    m_renorm(m1)
}

/// Equal-probability bypass bin.
pub open spec fn m_encode_bypass(m: ArithModel, bin: bool) -> ArithModel {
    let low2 = 2 * m.low + if bin {
        m.range
    } else {
        0
    };
    if low2 >= 1024 {
        m_put_bit(ArithModel { low: low2 - 1024, ..m }, true)
    } else if low2 < 512 {
        m_put_bit(ArithModel { low: low2, ..m }, false)
    } else {
        ArithModel { low: low2 - 512, outstanding: m.outstanding + 1, ..m }
    }
}

/// Flush at the end of a slice: range 2, renormalise, then the last bit of
/// `low`, one more bit, and the stop bit.
pub open spec fn m_flush(m: ArithModel) -> ArithModel {
    let m1 = m_renorm(ArithModel { range: 2, ..m });
    let m2 = m_put_bit(m1, (m1.low / 512) % 2 == 1);
    ArithModel { bits: m2.bits.push((m1.low / 256) % 2 == 1).push(true), ..m2 }
}

/// Terminate bin: `flag == 0` continues the slice, anything else ends it.
pub open spec fn m_encode_terminate(m: ArithModel, flag: u8) -> ArithModel {
    let r1 = m.range - 2;
    if flag != 0 {
        m_flush(ArithModel { low: m.low + r1, range: r1, ..m })
    } else {
        m_renorm(ArithModel { range: r1, ..m })
    }
}

/// `a` is a prefix of `b`: bits once written stay written.
pub open spec fn bits_prefix(a: Seq<bool>, b: Seq<bool>) -> bool {
    a.len() <= b.len() && forall|i: int| 0 <= i < a.len() ==> #[trigger] a[i] == b[i]
}

proof fn lemma_put_bit_prefix(m: ArithModel, b: bool)
    ensures
        bits_prefix(m.bits, m_put_bit(m, b).bits),
{
}

proof fn lemma_renorm_prefix(m: ArithModel)
    ensures
        bits_prefix(m.bits, m_renorm(m).bits),
    decreases (if m.range >= 256 {
        0
    } else {
        256 - m.range
    }),
{
    if !(m.range >= 256 || m.range <= 0) {
        let m1 = if m.low < 256 {
            m_put_bit(m, false)
        } else if m.low >= 512 {
            m_put_bit(ArithModel { low: m.low - 512, ..m }, true)
        } else {
            ArithModel { low: m.low - 256, outstanding: m.outstanding + 1, ..m }
        };
        lemma_put_bit_prefix(m, false);
        lemma_put_bit_prefix(ArithModel { low: m.low - 512, ..m }, true);
        lemma_renorm_prefix(ArithModel { range: 2 * m1.range, low: 2 * m1.low, ..m1 });
    }
}

/// Coding a context bin only appends bits.
pub proof fn lemma_encode_bin_prefix(m: ArithModel, bin: u8, lps: int, mps: u8)
    ensures
        bits_prefix(m.bits, m_encode_bin(m, bin, lps, mps).bits),
{
    let r1 = m.range - lps;
    lemma_renorm_prefix(ArithModel { low: m.low + r1, range: lps, ..m });
    lemma_renorm_prefix(ArithModel { range: r1, ..m });
}

/// Coding a bypass bin only appends bits.
pub proof fn lemma_encode_bypass_prefix(m: ArithModel, bin: bool)
    ensures
        bits_prefix(m.bits, m_encode_bypass(m, bin).bits),
{
    let low2 = 2 * m.low + if bin {
        m.range
    } else {
        0
    };
    lemma_put_bit_prefix(ArithModel { low: low2 - 1024, ..m }, true);
    lemma_put_bit_prefix(ArithModel { low: low2, ..m }, false);
}

/// Coding a terminate bin only appends bits.
pub proof fn lemma_encode_terminate_prefix(m: ArithModel, flag: u8)
    ensures
        bits_prefix(m.bits, m_encode_terminate(m, flag).bits),
{
    let r1 = m.range - 2;
    let mf = ArithModel { low: m.low + r1, range: r1, ..m };
    let m1 = m_renorm(ArithModel { range: 2, ..mf });
    lemma_renorm_prefix(ArithModel { range: 2, ..mf });
    lemma_put_bit_prefix(m1, (m1.low / 512) % 2 == 1);
    lemma_renorm_prefix(ArithModel { range: r1, ..m });
}

/// The initial encoder state.
pub open spec fn m_initial() -> ArithModel {
    ArithModel { low: 0, range: 510, outstanding: 0, first: true, bits: Seq::empty() }
}

/// Register bounds every coding operation keeps: `range` in `256..=510` and
/// `low + range <= 1024`.
pub open spec fn m_regs_ok(m: ArithModel) -> bool {
    &&& 256 <= m.range <= 510
    &&& 0 <= m.low
    &&& m.low + m.range <= 1024
    &&& 0 <= m.outstanding
}

pub proof fn lemma_renorm_props(m: ArithModel)
    requires
        1 <= m.range,
        0 <= m.low,
        m.range < 512,
        m.low + m.range <= 1024,
        0 <= m.outstanding,
    ensures
        m.range >= 256 ==> m_renorm(m) == m,
        m_renorm(m).range >= 256,
        m_renorm(m).range <= 510 || m_renorm(m).range == m.range,
        0 <= m_renorm(m).low,
        m_renorm(m).low + m_renorm(m).range <= 1024,
        m_renorm(m).outstanding <= m.outstanding + 8 - log2_floor(m.range),
        0 <= m_renorm(m).outstanding,
    decreases (if m.range >= 256 {
        0
    } else {
        256 - m.range
    }),
{
    if m.range < 256 {
        let m1 = if m.low < 256 {
            m_put_bit(m, false)
        } else if m.low >= 512 {
            m_put_bit(ArithModel { low: m.low - 512, ..m }, true)
        } else {
            ArithModel { low: m.low - 256, outstanding: m.outstanding + 1, ..m }
        };
        let m2 = ArithModel { range: 2 * m1.range, low: 2 * m1.low, ..m1 };
        lemma_renorm_props(m2);
        lemma_log2_floor_double(m.range);
    } else {
        lemma_log2_floor_eq8(m.range);
    }
}

/// `floor(log2(x))` for positive `x`, capped by recursion.
pub open spec fn log2_floor(x: int) -> int
    decreases x,
{
    if x <= 1 {
        0
    } else {
        1 + log2_floor(x / 2)
    }
}

pub proof fn lemma_log2_floor_double(x: int)
    requires
        x >= 1,
    ensures
        log2_floor(2 * x) == log2_floor(x) + 1,
{
    assert((2 * x) / 2 == x);
}

proof fn lemma_log2_floor_eq8(x: int)
    requires
        256 <= x < 512,
    ensures
        log2_floor(x) == 8,
{
    assert(log2_floor(x) == 1 + log2_floor(x / 2));
    assert(log2_floor(x / 2) == 1 + log2_floor(x / 4));
    assert(log2_floor(x / 4) == 1 + log2_floor(x / 8));
    assert(log2_floor(x / 8) == 1 + log2_floor(x / 16));
    assert(log2_floor(x / 16) == 1 + log2_floor(x / 32));
    assert(log2_floor(x / 32) == 1 + log2_floor(x / 64));
    assert(log2_floor(x / 64) == 1 + log2_floor(x / 128));
    assert(log2_floor(x / 128) == 1 + log2_floor(x / 256));
    assert(x / 256 == 1);
}

/// `log2_floor(x) < k` for `1 <= x < 2^k`.
pub proof fn lemma_log2_floor_lt(x: int, k: nat)
    requires
        1 <= x < vstd::arithmetic::power2::pow2(k),
    ensures
        log2_floor(x) < k,
    decreases k,
{
    vstd::arithmetic::power2::lemma2_to64();
    if x > 1 {
        vstd::arithmetic::power2::lemma_pow2_unfold(k);
        if k == 0 {
            assert(false);
        } else {
            lemma_log2_floor_lt(x / 2, (k - 1) as nat);
        }
    }
}

pub proof fn lemma_log2_floor_nonneg(x: int)
    ensures
        log2_floor(x) >= 0,
    decreases x,
{
    if x > 1 {
        lemma_log2_floor_nonneg(x / 2);
    }
}

/// VVC CABAC encoder: 9-bit `low`/`range` arithmetic coder with bit-by-bit
/// renormalisation and outstanding-bit (carry) handling.
pub struct CabacEncoder {
    low: u32,
    m_range: u32,
    bits_outstanding: u32,
    first_bit: bool,
    bit_buffer: u8,
    bit_count: u8,
    output: Vec<u8>,
}

impl CabacEncoder {
    /// The abstract coder state.
    pub closed spec fn model(&self) -> ArithModel {
        ArithModel {
            low: self.low as int,
            range: self.m_range as int,
            outstanding: self.bits_outstanding as int,
            first: self.first_bit,
            bits: bytes_bits(self.output@) + low_bits(self.bit_buffer as u64, self.bit_count as nat),
        }
    }

    /// The completed output bytes.
    pub closed spec fn out_bytes(&self) -> Seq<u8> {
        self.output@
    }

    /// Number of emitted bits still waiting in the partial output byte.
    pub closed spec fn pending(&self) -> nat {
        self.bit_count as nat
    }

    /// Internal consistency of the output buffer.
    pub closed spec fn buf_ok(&self) -> bool {
        &&& self.bit_count < 8
        &&& (self.bit_buffer as u64) < (1u64 << (self.bit_count as u64))
    }

    /// Consistency of the coder: buffer invariant and register bounds.
    pub open spec fn wf(&self) -> bool {
        &&& self.buf_ok()
        &&& m_regs_ok(self.model())
    }

    /// Room left in the outstanding-bit counter before it could overflow.
    pub open spec fn headroom(&self) -> int {
        u32::MAX - self.model().outstanding
    }

    /// A fresh encoder.
    pub fn new() -> (e: Self)
        ensures
            e.wf(),
            e.model() == m_initial(),
            e.out_bytes() == Seq::<u8>::empty(),
    {
        let e = CabacEncoder {
            low: 0,
            m_range: 510,
            bits_outstanding: 0,
            first_bit: true,
            bit_buffer: 0,
            bit_count: 0,
            output: Vec::new(),
        };
        proof {
            lemma_u64_halve(0, 0);
        }
        assert(e.model().bits =~= Seq::<bool>::empty());
        e
    }

    /// Current coder range.
    pub fn range(&self) -> (r: u32)
        ensures
            r == self.model().range,
    {
        self.m_range
    }

    /// Append one bit to the output, bypassing the carry logic.
    fn emit_bit(&mut self, b: u32)
        requires
            old(self).buf_ok(),
            b < 2,
        ensures
            final(self).buf_ok(),
            final(self).model() == (ArithModel {
                bits: old(self).model().bits.push(b == 1),
                ..old(self).model()
            }),
    {
        let ghost c = self.bit_buffer;
        let ghost n = self.bit_count;
        let bb = b as u8;
        proof {
            lemma_shift_in_bit(c, n, bb);
        }
        self.bit_buffer = (self.bit_buffer << 1u8) | bb;
        self.bit_count = self.bit_count + 1;
        if self.bit_count == 8 {
            let ghost pre = self.output@;
            let ghost nc = self.bit_buffer;
            self.output.push(self.bit_buffer);
            proof {
                lemma_bytes_bits_push(pre, nc);
            }
            self.bit_buffer = 0;
            self.bit_count = 0;
            proof {
                lemma_u64_halve(0, 0);
            }
            assert(low_bits(0, 0) =~= Seq::<bool>::empty());
        }
        assert(self.model().bits =~= old(self).model().bits.push(b == 1));
    }

    /// Output a resolved bit plus any outstanding (carry-deferred) opposite bits.
    fn put_bit(&mut self, b: u32)
        requires
            old(self).buf_ok(),
            b < 2,
        ensures
            final(self).buf_ok(),
            final(self).model() == m_put_bit(old(self).model(), b == 1),
    {
        let ghost m0 = self.model();
        if self.first_bit {
            self.first_bit = false;
        } else {
            self.emit_bit(b);
        }
        let ghost start = self.model().bits;
        let ghost total = self.bits_outstanding;
        while self.bits_outstanding > 0
            invariant
                self.buf_ok(),
                b < 2,
                self.bits_outstanding <= total,
                self.model().bits == start + repeat_bit(
                    b != 1,
                    (total - self.bits_outstanding) as nat,
                ),
                self.model().low == m0.low,
                self.model().range == m0.range,
                !self.model().first,
            decreases self.bits_outstanding,
        {
            self.emit_bit(1 - b);
            self.bits_outstanding -= 1;
            assert(self.model().bits =~= start + repeat_bit(
                b != 1,
                (total - self.bits_outstanding) as nat,
            ));
        }
        assert(self.model() == m_put_bit(m0, b == 1));
    }

    /// Renormalise after a context-coded or terminate bin.
    fn renorm(&mut self)
        requires
            old(self).buf_ok(),
            1 <= old(self).model().range < 512,
            old(self).model().low + old(self).model().range <= 1024,
            old(self).model().outstanding + 8 <= u32::MAX,
        ensures
            final(self).buf_ok(),
            final(self).model() == m_renorm(old(self).model()),
    {
        proof {
            lemma_renorm_props(self.model());
            lemma_log2_floor_nonneg(self.model().range);
        }
        while self.m_range < 256
            invariant
                self.buf_ok(),
                1 <= self.model().range < 512,
                self.model().low + self.model().range <= 1024,
                m_renorm(self.model()) == m_renorm(old(self).model()),
                self.model().outstanding + 8 - log2_floor(self.model().range) <= u32::MAX,
            decreases (if self.m_range >= 256 {
                0
            } else {
                256 - self.m_range
            }),
        {
            proof {
                lemma_log2_floor_double(self.model().range);
                lemma_log2_floor_nonneg(self.model().range);
                vstd::arithmetic::power2::lemma2_to64();
                lemma_log2_floor_lt(self.model().range, 8);
            }
            if self.low < 256 {
                self.put_bit(0);
            } else if self.low >= 512 {
                self.low -= 512;
                self.put_bit(1);
            } else {
                self.low -= 256;
                self.bits_outstanding += 1;
            }
            self.m_range = self.m_range * 2;
            self.low = self.low * 2;
        }
    }

    /// Context-adaptive binary encoding (VVC `encodeBin`) of the low bit of
    /// `bin_val`, followed by the context's probability update.
    pub fn encode_bin(&mut self, bin_val: u8, ctx: &mut CtxModel)
        requires
            old(self).wf(),
            old(self).headroom() >= 8,
        ensures
            final(self).wf(),
            final(self).model() == m_encode_bin(
                old(self).model(),
                bin_val % 2,
                spec_lps(old(ctx).state, old(self).model().range),
                spec_mps(old(ctx).state),
            ),
            final(self).model().outstanding <= old(self).model().outstanding + 8,
            bits_prefix(old(self).model().bits, final(self).model().bits),
            *final(ctx) == ctx_after(*old(ctx), bin_val),
            final(ctx).rate == old(ctx).rate,
            final(ctx).state[0] == spec_update_one(
                old(ctx).state[0],
                (old(ctx).rate / 16) as u32,
                MASK_0,
                bin_val % 2 != 0,
            ),
            final(ctx).state[1] == spec_update_one(
                old(ctx).state[1],
                (old(ctx).rate % 16) as u32,
                MASK_1,
                bin_val % 2 != 0,
            ),
    {
        let ghost m0 = self.model();
        let lps = ctx.get_lps(self.m_range);
        self.m_range -= lps;
        let b = bin_val % 2;
        if b != ctx.mps() {
            self.low += self.m_range;
            self.m_range = lps;
        }
        ctx.update(b);
        proof {
            lemma_log2_floor_nonneg(self.model().range);
            vstd::arithmetic::power2::lemma2_to64();
            lemma_log2_floor_lt(self.model().range, 9);
            lemma_renorm_props(self.model());
            lemma_encode_bin_prefix(m0, b, spec_lps(old(ctx).state, m0.range), spec_mps(old(ctx).state));
        }
        self.renorm();
        proof {
            assert(ctx.state =~= ctx_after(*old(ctx), bin_val).state);
        }
    }

    /// Equal-probability bypass encoding (`encodeBinEP`).
    pub fn encode_bypass(&mut self, bin_val: u8)
        requires
            old(self).wf(),
            old(self).headroom() >= 1,
        ensures
            final(self).wf(),
            final(self).model() == m_encode_bypass(old(self).model(), bin_val != 0),
            final(self).model().outstanding <= old(self).model().outstanding + 1,
            bits_prefix(old(self).model().bits, final(self).model().bits),
    {
        proof {
            lemma_encode_bypass_prefix(old(self).model(), bin_val != 0);
        }
        self.low = self.low * 2;
        if bin_val != 0 {
            self.low += self.m_range;
        }
        if self.low >= 1024 {
            self.put_bit(1);
            self.low -= 1024;
        } else if self.low < 512 {
            self.put_bit(0);
        } else {
            self.low -= 512;
            self.bits_outstanding += 1;
        }
    }

    /// Encode `n` equal-probability bypass bins from the low `n` bits of `value`
    /// (most significant first).
    pub fn encode_bypass_bits(&mut self, value: u32, n: u32)
        requires
            old(self).wf(),
            n <= 32,
            old(self).headroom() >= n,
        ensures
            final(self).wf(),
            final(self).model() == m_bypass_seq(old(self).model(), low_bits(value as u64, n as nat)),
            bits_prefix(old(self).model().bits, final(self).model().bits),
            final(self).model().outstanding <= old(self).model().outstanding + n,
    {
        proof {
            lemma_bypass_seq_prefix(old(self).model(), low_bits(value as u64, n as nat));
        }
        let mut i = n;
        while i > 0
            invariant
                self.wf(),
                i <= n <= 32,
                self.model().outstanding <= old(self).model().outstanding + (n - i),
                old(self).headroom() >= n,
                self.model() == m_bypass_seq(
                    old(self).model(),
                    low_bits(value as u64, n as nat).subrange(0, (n - i) as int),
                ),
            decreases i,
        {
            i -= 1;
            let x = (value as u64) >> (i as u64);
            proof {
                lemma_u64_halve(x, 0);
            }
            let bit = (x & 1u64) as u8;
            self.encode_bypass(bit);
            proof {
                let lb = low_bits(value as u64, n as nat);
                let pre = lb.subrange(0, (n - 1 - i) as int);
                assert(lb.subrange(0, (n - i) as int) =~= pre.push(lb[(n - 1 - i) as int]));
                lemma_bypass_seq_push(old(self).model(), pre, lb[(n - 1 - i) as int]);
            }
        }
        assert(low_bits(value as u64, n as nat).subrange(0, n as int) =~= low_bits(
            value as u64,
            n as nat,
        ));
    }

    /// Encode the terminate bin (`encodeBinTrm`). When `flag != 0` the coder is
    /// flushed and the slice ends.
    pub fn encode_terminate(&mut self, flag: u8)
        requires
            old(self).wf(),
            old(self).headroom() >= 8,
        ensures
            final(self).buf_ok(),
            flag == 0 ==> final(self).wf(),
            final(self).model() == m_encode_terminate(old(self).model(), flag),
            bits_prefix(old(self).model().bits, final(self).model().bits),
            final(self).model().outstanding <= old(self).model().outstanding + 8,
    {
        proof {
            lemma_encode_terminate_prefix(old(self).model(), flag);
        }
        self.m_range -= 2;
        proof {
            vstd::arithmetic::power2::lemma2_to64();
            lemma_log2_floor_lt(self.model().range, 9);
            lemma_log2_floor_nonneg(self.model().range);
        }
        if flag != 0 {
            self.low += self.m_range;
            self.flush();
        } else {
            proof {
                lemma_renorm_props(self.model());
            }
            self.renorm();
        }
    }

    /// EncodeFlush: range = 2; renorm; emit the trailing bits with the stop bit.
    fn flush(&mut self)
        requires
            old(self).buf_ok(),
            old(self).model().low + 2 <= 1024,
            old(self).model().low >= 0,
            old(self).model().outstanding + 8 <= u32::MAX,
        ensures
            final(self).buf_ok(),
            final(self).model() == m_flush(old(self).model()),
    {
        self.m_range = 2;
        proof {
            vstd::arithmetic::power2::lemma2_to64();
            assert(log2_floor(1) == 0);
            assert(log2_floor(2) == 1);
            lemma_renorm_props(self.model());
        }
        self.renorm();
        self.put_bit((self.low / 512) % 2);
        // The two final bits are bit 8 of `low` and the stop bit.
        self.emit_bit((self.low / 256) % 2);
        self.emit_bit(1);
    }

    /// Byte-align the partial buffer (zero padding) and return the coded bytes.
    pub fn finish(self) -> (r: Vec<u8>)
        requires
            self.buf_ok(),
        ensures
            bytes_bits(r@) == self.model().bits + repeat_bit(
                false,
                ((8 - self.pending()) % 8) as nat,
            ),
    {
        let mut s = self;
        if s.bit_count > 0 {
            let c = s.bit_buffer;
            let n = s.bit_count;
            let sh = 8 - n;
            let nb = c << sh;
            proof {
                let c64 = c as u64;
                let n64 = n as u64;
                let nb64 = nb as u64;
                assert forall|i: int| 0 <= i < 8 implies #[trigger] low_bits(nb64, 8)[i] == (
                low_bits(c64, n as nat) + repeat_bit(false, (8 - n) as nat))[i] by {
                    lemma_pad_bits(c, n, i as u64);
                }
                assert(low_bits(nb64, 8) =~= low_bits(c64, n as nat) + repeat_bit(
                    false,
                    (8 - n) as nat,
                ));
                lemma_bytes_bits_push(s.output@, nb);
            }
            s.output.push(nb);
            s.bit_buffer = 0;
            s.bit_count = 0;
            assert(bytes_bits(s.output@) =~= self.model().bits + repeat_bit(
                false,
                ((8 - self.pending()) % 8) as nat,
            ));
        } else {
            assert(bytes_bits(s.output@) =~= self.model().bits + repeat_bit(
                false,
                ((8 - self.pending()) % 8) as nat,
            ));
        }
        s.output
    }

    /// Reset to the initial coder state, keeping the output buffer's capacity.
    pub fn reset(&mut self)
        ensures
            final(self).wf(),
            final(self).model() == m_initial(),
            final(self).out_bytes() == Seq::<u8>::empty(),
    {
        self.low = 0;
        self.m_range = 510;
        self.bits_outstanding = 0;
        self.first_bit = true;
        self.bit_buffer = 0;
        self.bit_count = 0;
        self.output.clear();
        proof {
            lemma_u64_halve(0, 0);
        }
        assert(self.model().bits =~= Seq::<bool>::empty());
    }

    /// Byte length the stream would have after `finish()`.
    pub fn flushed_len(&self) -> (r: usize)
        requires
            self.out_bytes().len() < usize::MAX,
        ensures
            r == self.out_bytes().len() + if self.pending() > 0 {
                1int
            } else {
                0int
            },
    {
        self.output.len() + if self.bit_count > 0 {
            1usize
        } else {
            0usize
        }
    }
}

/// The context after coding or reading `bin` with it: both estimates move
/// towards `bin`, the rates stay.
pub open spec fn ctx_after(c: CtxModel, bin: u8) -> CtxModel {
    CtxModel {
        state: [
            spec_update_one(c.state[0], (c.rate / 16) as u32, MASK_0, bin % 2 != 0),
            spec_update_one(c.state[1], (c.rate % 16) as u32, MASK_1, bin % 2 != 0),
        ],
        rate: c.rate,
    }
}

/// The encoder state after coding `bin` with the context `c`.
pub open spec fn m_ctx_bin(m: ArithModel, bin: u8, c: CtxModel) -> ArithModel {
    m_encode_bin(m, bin % 2, spec_lps(c.state, m.range), spec_mps(c.state))
}

/// The decoder state and the bin after reading one bin with the context `c`.
pub open spec fn d_ctx_bin(data: Seq<u8>, m: DecModel, c: CtxModel) -> (DecModel, u8) {
    d_decode_bin(data, m, spec_lps(c.state, m.range), spec_mps(c.state))
}

/// The decoder state and the value after reading `n` bypass bins, most
/// significant first.
pub open spec fn d_bypass_bits(data: Seq<u8>, m: DecModel, n: nat) -> (DecModel, int)
    decreases n,
{
    if n == 0 {
        (m, 0)
    } else {
        let (m1, v) = d_bypass_bits(data, m, (n - 1) as nat);
        let (m2, b) = d_decode_bypass(data, m1);
        (m2, 2 * v + b)
    }
}

/// The encoder state after the bypass bins `s`, first to last.
pub open spec fn m_bypass_seq(m: ArithModel, s: Seq<bool>) -> ArithModel
    decreases s.len(),
{
    if s.len() == 0 {
        m
    } else {
        m_encode_bypass(m_bypass_seq(m, s.drop_last()), s.last())
    }
}

/// A run of bypass bins only appends bits.
pub proof fn lemma_bypass_seq_prefix(m: ArithModel, s: Seq<bool>)
    ensures
        bits_prefix(m.bits, m_bypass_seq(m, s).bits),
    decreases s.len(),
{
    if s.len() > 0 {
        lemma_bypass_seq_prefix(m, s.drop_last());
        lemma_encode_bypass_prefix(m_bypass_seq(m, s.drop_last()), s.last());
    }
}

/// One more bypass bin extends the bypass sequence.
pub proof fn lemma_bypass_seq_push(m: ArithModel, s: Seq<bool>, b: bool)
    ensures
        m_bypass_seq(m, s.push(b)) == m_encode_bypass(m_bypass_seq(m, s), b),
{
    assert(s.push(b).drop_last() =~= s);
}


// ---------------------------------------------------------------------------
// Arithmetic decoder
// ---------------------------------------------------------------------------
/// The bit the decoder reads at position `pos`: the data bit, or a stuffing
/// one past the end of the input.
pub open spec fn dec_bit(data: Seq<u8>, pos: int) -> bool {
    if 0 <= pos && pos / 8 < data.len() {
        reader_bit(data, pos)
    } else {
        true
    }
}

/// Decoder registers: `range`, `offset` and the input bit position.
pub struct DecModel {
    pub range: int,
    pub offset: int,
    pub pos: int,
}

/// Shift one input bit into the offset register (32-bit wrap).
pub open spec fn d_shift_in(data: Seq<u8>, offset: int, pos: int) -> int {
    (2 * offset + if dec_bit(data, pos) {
        1int
    } else {
        0int
    }) % 0x1_0000_0000
}

/// Decoder renormalisation: double `range` and shift in a bit until
/// `range >= 256`.
pub open spec fn d_renorm(data: Seq<u8>, m: DecModel) -> DecModel
    decreases (if m.range >= 256 {
        0
    } else {
        256 - m.range
    }),
{
    if m.range >= 256 || m.range <= 0 {
        m
    } else {
        d_renorm(
            data,
            DecModel {
                range: 2 * m.range,
                offset: d_shift_in(data, m.offset, m.pos),
                pos: m.pos + 1,
            },
        )
    }
}

/// Decoder state after decoding a context-coded bin, and the bin.
pub open spec fn d_decode_bin(data: Seq<u8>, m: DecModel, lps: int, mps: u8) -> (DecModel, u8) {
    let r1 = m.range - lps;
    if m.offset >= r1 {
        (d_renorm(data, DecModel { range: lps, offset: m.offset - r1, pos: m.pos }), (1 - mps) as u8)
    } else {
        (d_renorm(data, DecModel { range: r1, ..m }), mps)
    }
}

/// Decoder state after a bypass bin, and the bin.
pub open spec fn d_decode_bypass(data: Seq<u8>, m: DecModel) -> (DecModel, u8) {
    let o = d_shift_in(data, m.offset, m.pos);
    if o >= m.range {
        (DecModel { offset: o - m.range, pos: m.pos + 1, ..m }, 1u8)
    } else {
        (DecModel { offset: o, pos: m.pos + 1, ..m }, 0u8)
    }
}

/// Decoder state after a terminate bin, and the bin.
pub open spec fn d_decode_terminate(data: Seq<u8>, m: DecModel) -> (DecModel, u8) {
    let r1 = m.range - 2;
    if m.offset >= r1 {
        (DecModel { range: r1, ..m }, 1u8)
    } else {
        (d_renorm(data, DecModel { range: r1, ..m }), 0u8)
    }
}

/// The value of the first `n` decoder bits from `pos`.
pub open spec fn d_bits_value(data: Seq<u8>, pos: int, n: nat) -> nat
    decreases n,
{
    if n == 0 {
        0
    } else {
        2 * d_bits_value(data, pos, (n - 1) as nat) + if dec_bit(data, pos + n - 1) {
            1nat
        } else {
            0nat
        }
    }
}

proof fn lemma_d_renorm_props(data: Seq<u8>, m: DecModel)
    requires
        1 <= m.range < 512,
    ensures
        256 <= d_renorm(data, m).range <= 510 || (m.range >= 256 && d_renorm(data, m) == m),
        m.pos <= d_renorm(data, m).pos <= m.pos + 8,
        0 <= m.offset < 0x1_0000_0000 ==> 0 <= d_renorm(data, m).offset < 0x1_0000_0000,
    decreases (if m.range >= 256 {
        0
    } else {
        256 - m.range
    }),
{
    if m.range < 256 {
        let m2 = DecModel {
            range: 2 * m.range,
            offset: d_shift_in(data, m.offset, m.pos),
            pos: m.pos + 1,
        };
        lemma_d_renorm_props(data, m2);
        lemma_d_renorm_steps(data, m);
        lemma_log2_floor_nonneg(m.range);
    }
}

proof fn lemma_d_renorm_steps(data: Seq<u8>, m: DecModel)
    requires
        1 <= m.range < 512,
    ensures
        d_renorm(data, m).pos - m.pos + log2_floor(m.range) <= 8 || m.range >= 256,
        d_renorm(data, m).pos - m.pos + log2_floor(m.range) <= 8 || d_renorm(data, m).pos == m.pos,
    decreases (if m.range >= 256 {
        0
    } else {
        256 - m.range
    }),
{
    if m.range < 256 {
        let m2 = DecModel {
            range: 2 * m.range,
            offset: d_shift_in(data, m.offset, m.pos),
            pos: m.pos + 1,
        };
        lemma_d_renorm_steps(data, m2);
        lemma_log2_floor_double(m.range);
        if m2.range >= 256 {
            lemma_log2_floor_eq8(m2.range);
        }
    }
}

/// VVC CABAC arithmetic decoder with the standard decode framing (9-bit
/// init, offset/range, MSB-first input with end-of-input 1-stuffing) and the
/// probability model the encoder shares. Each read is stated over
/// [`DecModel`]; that it gives back what [`CabacEncoder`] coded is proved
/// in `roundtrip` (`lemma_cabac_round_trip`).
pub struct CabacDecoder<'a> {
    range: u32,
    offset: u32,
    data: &'a [u8],
    bitpos: usize,
}

impl<'a> CabacDecoder<'a> {
    /// The input bytes.
    pub closed spec fn data(&self) -> Seq<u8> {
        self.data@
    }

    /// The decoder registers.
    pub closed spec fn model(&self) -> DecModel {
        DecModel { range: self.range as int, offset: self.offset as int, pos: self.bitpos as int }
    }

    /// Register bounds kept by every non-final decode.
    pub open spec fn wf(&self) -> bool {
        256 <= self.model().range <= 510
    }

    /// Room left in the bit-position counter.
    pub open spec fn headroom(&self) -> int {
        usize::MAX - self.model().pos
    }

    /// A decoder over `data`, with the first nine bits loaded into `offset`.
    pub fn new(data: &'a [u8]) -> (d: Self)
        ensures
            d.wf(),
            d.data() == data@,
            d.model() == (DecModel { range: 510, offset: d_bits_value(data@, 0, 9) as int, pos: 9 }),
    {
        let mut d = CabacDecoder { range: 510, offset: 0, data, bitpos: 0 };
        let v = d.read_bits(9);
        d.offset = v;
        d
    }

    fn next_bit(&mut self) -> (r: u32)
        requires
            old(self).model().pos < usize::MAX,
        ensures
            final(self).data() == old(self).data(),
            final(self).model() == (DecModel { pos: old(self).model().pos + 1, ..old(self).model() }),
            r == (if dec_bit(old(self).data(), old(self).model().pos) {
                1u32
            } else {
                0u32
            }),
    {
        let byte_idx = self.bitpos / 8;
        let bit = if byte_idx < self.data.len() {
            let b = self.data[byte_idx];
            let sh = 7 - (self.bitpos % 8);
            let x = (b as u64) >> (sh as u64);
            proof {
                lemma_u64_halve(x, 0);
            }
            (x & 1) as u32
        } else {
            1
        };
        self.bitpos += 1;
        bit
    }

    fn read_bits(&mut self, n: u32) -> (r: u32)
        requires
            old(self).model().pos + n <= usize::MAX,
            n <= 32,
        ensures
            final(self).data() == old(self).data(),
            final(self).model() == (DecModel { pos: old(self).model().pos + n, ..old(self).model() }),
            r == d_bits_value(old(self).data(), old(self).model().pos, n as nat),
    {
        let ghost p0 = self.model().pos;
        let mut v: u32 = 0;
        let mut i: u32 = 0;
        proof {
            vstd::arithmetic::power2::lemma2_to64();
        }
        while i < n
            invariant
                i <= n <= 32,
                self.data() == old(self).data(),
                self.model() == (DecModel { pos: p0 + i, ..old(self).model() }),
                p0 == old(self).model().pos,
                p0 + n <= usize::MAX,
                v == d_bits_value(old(self).data(), p0, i as nat),
                v < vstd::arithmetic::power2::pow2(i as nat),
            decreases n - i,
        {
            let b = self.next_bit();
            proof {
                vstd::arithmetic::power2::lemma_pow2_unfold((i + 1) as nat);
                vstd::arithmetic::power2::lemma2_to64();
                if i + 1 < 32 {
                    vstd::arithmetic::power2::lemma_pow2_strictly_increases((i + 1) as nat, 32);
                }
            }
            v = v * 2 + b;
            i += 1;
        }
        v
    }

    fn renorm(&mut self)
        requires
            1 <= old(self).model().range < 512,
            old(self).model().pos + 8 <= usize::MAX,
        ensures
            final(self).data() == old(self).data(),
            final(self).model() == d_renorm(old(self).data(), old(self).model()),
    {
        proof {
            lemma_d_renorm_props(self.data(), self.model());
            lemma_d_renorm_steps(self.data(), self.model());
            lemma_log2_floor_nonneg(self.model().range);
        }
        while self.range < 256
            invariant
                1 <= self.model().range < 512,
                self.data() == old(self).data(),
                d_renorm(self.data(), self.model()) == d_renorm(old(self).data(), old(self).model()),
                self.model().pos + 8 - log2_floor(self.model().range) <= usize::MAX,
            decreases (if self.range >= 256 {
                0
            } else {
                256 - self.range
            }),
        {
            proof {
                lemma_log2_floor_double(self.model().range);
                lemma_log2_floor_nonneg(self.model().range);
                vstd::arithmetic::power2::lemma2_to64();
                lemma_log2_floor_lt(self.model().range, 8);
            }
            self.range = self.range * 2;
            let o = self.offset;
            let b = self.next_bit();
            let no = (o << 1u32) | b;
            proof {
                lemma_u32_shift_in(o, b);
            }
            self.offset = no;
        }
    }

    /// Decode a context-coded bin and update its context.
    pub fn decode_bin(&mut self, ctx: &mut CtxModel) -> (r: u8)
        requires
            old(self).wf(),
            old(self).headroom() >= 8,
        ensures
            final(self).wf(),
            final(self).data() == old(self).data(),
            (final(self).model(), r) == d_decode_bin(
                old(self).data(),
                old(self).model(),
                spec_lps(old(ctx).state, old(self).model().range),
                spec_mps(old(ctx).state),
            ),
            old(self).model().pos <= final(self).model().pos <= old(self).model().pos + 8,
            r <= 1,
            *final(ctx) == ctx_after(*old(ctx), r),
            final(ctx).rate == old(ctx).rate,
            final(ctx).state[0] == spec_update_one(
                old(ctx).state[0],
                (old(ctx).rate / 16) as u32,
                MASK_0,
                r != 0,
            ),
            final(ctx).state[1] == spec_update_one(
                old(ctx).state[1],
                (old(ctx).rate % 16) as u32,
                MASK_1,
                r != 0,
            ),
    {
        let mps = ctx.mps();
        let lps = ctx.get_lps(self.range);
        self.range -= lps;
        let bin = if self.offset >= self.range {
            self.offset -= self.range;
            self.range = lps;
            1 - mps
        } else {
            mps
        };
        ctx.update(bin);
        proof {
            lemma_d_renorm_props(self.data(), self.model());
        }
        self.renorm();
        proof {
            assert(ctx.state =~= ctx_after(*old(ctx), bin).state);
        }
        bin
    }

    /// Decode an equal-probability bypass bin.
    pub fn decode_bypass(&mut self) -> (r: u8)
        requires
            old(self).wf(),
            old(self).headroom() >= 8,
        ensures
            final(self).wf(),
            final(self).data() == old(self).data(),
            (final(self).model(), r) == d_decode_bypass(old(self).data(), old(self).model()),
            final(self).model().pos == old(self).model().pos + 1,
            r <= 1,
    {
        let o = self.offset;
        let b = self.next_bit();
        let no = (o << 1u32) | b;
        proof {
            lemma_u32_shift_in(o, b);
        }
        self.offset = no;
        if self.offset >= self.range {
            self.offset -= self.range;
            1
        } else {
            0
        }
    }

    /// Decode the terminate bin. A one ends the slice (and leaves the
    /// registers as they are); a zero keeps the decoder consistent.
    pub fn decode_terminate(&mut self) -> (r: u8)
        requires
            old(self).wf(),
            old(self).headroom() >= 8,
        ensures
            r == 0 ==> final(self).wf(),
            final(self).data() == old(self).data(),
            (final(self).model(), r) == d_decode_terminate(old(self).data(), old(self).model()),
            old(self).model().pos <= final(self).model().pos <= old(self).model().pos + 8,
            r <= 1,
    {
        self.range -= 2;
        if self.offset >= self.range {
            1
        } else {
            proof {
                lemma_d_renorm_props(self.data(), self.model());
            }
            self.renorm();
            0
        }
    }
}

} // verus!
