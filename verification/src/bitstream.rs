//! Low-level VVC (H.266) bitstream writing: an MSB-first bit writer with
//! Exp-Golomb coding, RBSP trailing bits, emulation prevention, and NAL-unit
//! framing, plus the matching MSB-first reader.
//!
//! The writer is modelled as the sequence of bits it has produced so far
//! (`BitWriter::bits`); every method states the bits it appends. The reader is
//! modelled by its byte buffer and bit position; reads past the end yield 0.
use vstd::prelude::*;

verus! {

// ---------------------------------------------------------------------------
// Bit-level model
// ---------------------------------------------------------------------------
/// Bit `k` (0 = most significant) of a byte.
pub open spec fn byte_bit(b: u8, k: int) -> bool {
    ((b as u64) >> ((7 - k) as u64)) & 1 == 1
}

/// The bits of a byte string, most significant bit of each byte first.
pub open spec fn bytes_bits(s: Seq<u8>) -> Seq<bool> {
    Seq::new(8 * s.len(), |i: int| byte_bit(s[i / 8], i % 8))
}

/// The low `n` bits of `v`, most significant first.
pub open spec fn low_bits(v: u64, n: nat) -> Seq<bool> {
    Seq::new(n, |i: int| (v >> ((n - 1 - i) as u64)) & 1 == 1)
}

/// `n` zero bits.
pub open spec fn zero_bits(n: nat) -> Seq<bool> {
    Seq::new(n, |i: int| false)
}

/// Number of binary digits of `v` (0 for 0).
pub open spec fn bit_length(v: nat) -> nat
    decreases v,
{
    if v == 0 {
        0
    } else {
        1 + bit_length(v / 2)
    }
}

/// Unsigned Exp-Golomb code of `v` (H.266 §9.2): `len - 1` zero bits followed by
/// the `len`-bit binary form of `v + 1`, where `len` is the bit length of `v + 1`.
pub open spec fn ue_bits(v: u32) -> Seq<bool> {
    let len = bit_length(v as nat + 1);
    zero_bits((len - 1) as nat) + low_bits((v as u64 + 1) as u64, len)
}

/// Code number of a signed Exp-Golomb value (H.266 §9.2.1):
/// 0, 1, -1, 2, -2, … map to 0, 1, 2, 3, 4, ….
pub open spec fn se_code(v: i32) -> int {
    if v <= 0 {
        -2 * v
    } else {
        2 * v - 1
    }
}

/// Value of the bits `s` read as an unsigned binary number, MSB first.
pub open spec fn bits_value(s: Seq<bool>) -> nat
    decreases s.len(),
{
    if s.len() == 0 {
        0
    } else {
        2 * bits_value(s.drop_last()) + if s.last() {
            1nat
        } else {
            0nat
        }
    }
}

/// The bit a reader over `data` sees at bit position `pos` (0 past the end).
pub open spec fn reader_bit(data: Seq<u8>, pos: int) -> bool {
    if 0 <= pos && pos / 8 < data.len() {
        byte_bit(data[pos / 8], pos % 8)
    } else {
        false
    }
}

/// The `n` bits a reader over `data` sees from bit position `pos` on.
pub open spec fn reader_bits(data: Seq<u8>, pos: int, n: nat) -> Seq<bool> {
    Seq::new(n, |i: int| reader_bit(data, pos + i))
}

/// Number of zero bits a reader sees from `pos` before the first one bit,
/// looking at no more than `limit` bits.
pub open spec fn zero_run(data: Seq<u8>, pos: int, limit: nat) -> nat
    decreases limit,
{
    if limit == 0 || reader_bit(data, pos) {
        0
    } else {
        1 + zero_run(data, pos + 1, (limit - 1) as nat)
    }
}

/// The value an unsigned Exp-Golomb read returns at `pos`, given `z` leading zeros.
pub open spec fn ue_value(data: Seq<u8>, pos: int) -> nat {
    let z = zero_run(data, pos, 32);
    (vstd::arithmetic::power2::pow2(z) - 1 + bits_value(reader_bits(data, pos + z + 1, z))) as nat
}

/// Number of bits an unsigned Exp-Golomb read consumes at `pos`.
pub open spec fn ue_len(data: Seq<u8>, pos: int) -> nat {
    2 * zero_run(data, pos, 32) + 1
}

proof fn lemma_div_mod_8(i: int, l: int)
    requires
        0 <= l,
        8 * l <= i < 8 * l + 8,
    ensures
        i / 8 == l,
        i % 8 == i - 8 * l,
{
    assert(i / 8 == l && i % 8 == i - 8 * l) by (nonlinear_arith)
        requires
            0 <= l,
            8 * l <= i < 8 * l + 8,
    ;
}

proof fn lemma_div_lt_8(i: int, l: int)
    requires
        0 <= i < 8 * l,
    ensures
        0 <= i / 8 < l,
        0 <= i % 8 < 8,
{
    assert(0 <= i / 8 < l && 0 <= i % 8 < 8) by (nonlinear_arith)
        requires
            0 <= i < 8 * l,
    ;
}

/// Appending a byte appends its eight bits.
pub proof fn lemma_bytes_bits_push(s: Seq<u8>, b: u8)
    ensures
        bytes_bits(s.push(b)) == bytes_bits(s) + low_bits(b as u64, 8),
{
    let l = bytes_bits(s.push(b));
    let r = bytes_bits(s) + low_bits(b as u64, 8);
    assert(l.len() == r.len());
    assert forall|i: int| 0 <= i < l.len() implies l[i] == r[i] by {
        if i < 8 * s.len() {
            lemma_div_lt_8(i, s.len() as int);
        } else {
            lemma_div_mod_8(i, s.len() as int);
        }
    }
    assert(l =~= r);
}

/// Concatenating byte strings concatenates their bits.
pub proof fn lemma_bytes_bits_add(a: Seq<u8>, b: Seq<u8>)
    ensures
        bytes_bits(a + b) == bytes_bits(a) + bytes_bits(b),
    decreases b.len(),
{
    if b.len() == 0 {
        assert(a + b =~= a);
        assert(bytes_bits(b) =~= Seq::<bool>::empty());
        assert(bytes_bits(a) + bytes_bits(b) =~= bytes_bits(a));
    } else {
        let bl = b.drop_last();
        lemma_bytes_bits_add(a, bl);
        assert(a + b =~= (a + bl).push(b.last()));
        assert(b =~= bl.push(b.last()));
        lemma_bytes_bits_push(a + bl, b.last());
        lemma_bytes_bits_push(bl, b.last());
        assert(bytes_bits(a) + bytes_bits(bl) + low_bits(b.last() as u64, 8) =~= bytes_bits(a) + (
        bytes_bits(bl) + low_bits(b.last() as u64, 8)));
    }
}

/// A reader over `data` sees exactly the bits of `data` within its length.
pub proof fn lemma_reader_bits_of_bytes(data: Seq<u8>, pos: int, n: nat)
    requires
        0 <= pos,
        pos + n <= 8 * data.len(),
    ensures
        reader_bits(data, pos, n) == bytes_bits(data).subrange(pos, pos + n),
{
    assert forall|i: int| 0 <= i < n implies reader_bits(data, pos, n)[i] == bytes_bits(
        data,
    ).subrange(pos, pos + n)[i] by {
        lemma_div_lt_8(pos + i, data.len() as int);
    }
    assert(reader_bits(data, pos, n) =~= bytes_bits(data).subrange(pos, pos + n));
}

/// Facts about the lowest bit and one-bit shifts of a 64-bit value.
pub proof fn lemma_u64_halve(v: u64, k: u64)
    by (bit_vector)
    requires
        k < 64,
    ensures
        v & 1 < 2,
        (v & 1 == 1) == (v % 2 == 1),
        (v >> 0u64) & 1 == v & 1,
        v >> (k + 1) == (v >> 1u64) >> k,
        v == 2 * (v >> 1u64) + (v & 1),
        0u64 < (1u64 << 0u64),
{
}

/// Shifting a bit into a 32-bit register drops the bit that falls off the top.
pub proof fn lemma_u32_shift_in(v: u32, b: u32)
    by (bit_vector)
    requires
        b < 2,
    ensures
        ((v << 1u32) | b) as int == (2 * v as int + b as int) % 0x1_0000_0000,
{
}

proof fn lemma_bits_value_push(s: Seq<bool>, b: bool)
    ensures
        bits_value(s.push(b)) == 2 * bits_value(s) + if b {
            1nat
        } else {
            0nat
        },
{
    assert(s.push(b).drop_last() =~= s);
}

/// The value of the `n` low bits of `v` is `v` modulo `2^n`.
pub proof fn lemma_bits_value_low_bits(v: u64, n: nat)
    requires
        n <= 64,
    ensures
        bits_value(low_bits(v, n)) == v as nat % vstd::arithmetic::power2::pow2(n),
    decreases n,
{
    vstd::arithmetic::power2::lemma_pow2_pos(n);
    if n == 0 {
        assert(vstd::arithmetic::power2::pow2(0) == 1) by {
            vstd::arithmetic::power2::lemma2_to64();
        }
    } else {
        let m = (n - 1) as nat;
        lemma_bits_value_low_bits(v >> 1u64, m);
        // low_bits(v, n) is low_bits(v >> 1, n - 1) followed by the lowest bit of v.
        assert(low_bits(v, n).drop_last() =~= low_bits(v >> 1u64, m)) by {
            assert forall|i: int| 0 <= i < m implies low_bits(v, n)[i] == low_bits(
                v >> 1u64,
                m,
            )[i] by {
                let k = (m - 1 - i) as u64;
                lemma_u64_halve(v, k);
            }
        }
        assert(low_bits(v, n).last() == (v & 1 == 1)) by {
            lemma_u64_halve(v, 0);
        }
        vstd::arithmetic::power2::lemma_pow2_unfold(n);
        let p = vstd::arithmetic::power2::pow2(m);
        vstd::arithmetic::power2::lemma_pow2_pos(m);
        let h = (v >> 1u64) as nat;
        let lo: nat = if v & 1 == 1 {
            1
        } else {
            0
        };
        assert(v as nat == 2 * h + lo) by {
            lemma_u64_halve(v, 0);
        }
        // (2h + lo) % 2p == 2 (h % p) + lo
        assert((2 * h + lo) % (2 * p) == 2 * (h % p) + lo) by (nonlinear_arith)
            requires
                p > 0,
                lo < 2,
        {
            let q = h / p;
            let r = h % p;
            assert(h == p * q + r);
            assert(2 * h + lo == (2 * p) * q + (2 * r + lo));
            assert(0 <= 2 * r + lo < 2 * p);
            vstd::arithmetic::div_mod::lemma_fundamental_div_mod_converse(
                (2 * h + lo) as int,
                (2 * p) as int,
                q as int,
                (2 * r + lo) as int,
            );
        }
        lemma_bits_value_push(low_bits(v, n).drop_last(), low_bits(v, n).last());
        assert(low_bits(v, n) =~= low_bits(v, n).drop_last().push(low_bits(v, n).last()));
    }
}

/// The bit length of a positive number brackets it between powers of two.
pub proof fn lemma_bit_length_bounds(v: nat)
    requires
        v > 0,
    ensures
        bit_length(v) >= 1,
        vstd::arithmetic::power2::pow2((bit_length(v) - 1) as nat) <= v,
        v < vstd::arithmetic::power2::pow2(bit_length(v)),
    decreases v,
{
    if v == 1 {
        assert(bit_length(0) == 0);
        vstd::arithmetic::power2::lemma2_to64();
    } else {
        lemma_bit_length_bounds(v / 2);
        let b = bit_length(v / 2);
        vstd::arithmetic::power2::lemma_pow2_unfold(b);
        vstd::arithmetic::power2::lemma_pow2_unfold(b + 1);
        if b >= 1 {
            vstd::arithmetic::power2::lemma_pow2_unfold(b);
        }
    }
}


// ---------------------------------------------------------------------------
// Reader
// ---------------------------------------------------------------------------
/// Signed Exp-Golomb value of a code number (inverse of [`se_code`]).
pub open spec fn se_from_code(c: int) -> int {
    if c % 2 == 1 {
        (c + 1) / 2
    } else {
        -(c / 2)
    }
}

/// MSB-first bit reader, the inverse of [`BitWriter`].
pub struct BitReader<'a> {
    data: &'a [u8],
    bitpos: usize,
}

impl<'a> BitReader<'a> {
    /// The bytes being read.
    pub closed spec fn data(&self) -> Seq<u8> {
        self.data@
    }

    /// The current bit position.
    pub closed spec fn pos(&self) -> int {
        self.bitpos as int
    }

    /// A reader positioned at the first bit of `data`.
    pub fn new(data: &'a [u8]) -> (r: Self)
        ensures
            r.data() == data@,
            r.pos() == 0,
    {
        BitReader { data, bitpos: 0 }
    }

    /// The current bit position.
    pub fn bit_pos(&self) -> (r: usize)
        ensures
            r == self.pos(),
    {
        self.bitpos
    }

    /// Read one bit (0 past the end of the data).
    pub fn read_bit(&mut self) -> (r: u32)
        requires
            old(self).pos() < usize::MAX,
        ensures
            final(self).data() == old(self).data(),
            final(self).pos() == old(self).pos() + 1,
            r == (if reader_bit(old(self).data(), old(self).pos()) {
                1u32
            } else {
                0u32
            }),
    {
        let byte = self.bitpos / 8;
        let bit = if byte < self.data.len() {
            let d = self.data[byte];
            let sh = 7 - (self.bitpos % 8);
            let x = (d as u64) >> (sh as u64);
            proof {
                lemma_u64_halve(x, 0);
            }
            (x & 1) as u32
        } else {
            0
        };
        self.bitpos += 1;
        bit
    }

    /// Read `n` bits MSB-first into a `u32` (bits beyond the low 32 shift out).
    pub fn read_bits(&mut self, n: u32) -> (r: u32)
        requires
            old(self).pos() + n <= usize::MAX,
        ensures
            final(self).data() == old(self).data(),
            final(self).pos() == old(self).pos() + n,
            r == bits_value(reader_bits(old(self).data(), old(self).pos(), n as nat))
                % 0x1_0000_0000,
    {
        let ghost d = self.data();
        let ghost p0 = self.pos();
        let mut v: u32 = 0;
        let mut i: u32 = 0;
        while i < n
            invariant
                i <= n,
                self.data() == d,
                self.pos() == p0 + i,
                p0 + n <= usize::MAX,
                v == bits_value(reader_bits(d, p0, i as nat)) % 0x1_0000_0000,
            decreases n - i,
        {
            let b = self.read_bit();
            let nv = (v << 1u32) | b;
            proof {
                lemma_u32_shift_in(v, b);
                let rb = reader_bits(d, p0, (i + 1) as nat);
                assert(rb.drop_last() =~= reader_bits(d, p0, i as nat));
                let x = bits_value(reader_bits(d, p0, i as nat));
                assert((2 * (x % 0x1_0000_0000) + b as int) % 0x1_0000_0000 == (2 * x + b as int)
                    % 0x1_0000_0000) by (nonlinear_arith)
                    requires
                        b < 2,
                {
                    vstd::arithmetic::div_mod::lemma_mul_mod_noop_right(2, x as int, 0x1_0000_0000);
                    vstd::arithmetic::div_mod::lemma_add_mod_noop(
                        (2 * x) as int,
                        b as int,
                        0x1_0000_0000,
                    );
                    vstd::arithmetic::div_mod::lemma_add_mod_noop(
                        (2 * (x % 0x1_0000_0000)) as int,
                        b as int,
                        0x1_0000_0000,
                    );
                }
            }
            v = nv;
            i += 1;
        }
        v
    }

    /// Unsigned Exp-Golomb (`ue(v)`). The bits at the read position must
    /// contain a one bit within the next 32 (otherwise the code is longer than
    /// any 32-bit value).
    pub fn read_ue(&mut self) -> (r: u32)
        requires
            zero_run(old(self).data(), old(self).pos(), 32) < 32,
            old(self).pos() + 64 <= usize::MAX,
        ensures
            final(self).data() == old(self).data(),
            r == ue_value(old(self).data(), old(self).pos()),
            final(self).pos() == old(self).pos() + ue_len(old(self).data(), old(self).pos()),
    {
        let ghost d = self.data();
        let ghost p0 = self.pos();
        let mut zeros: u32 = 0;
        loop
            invariant_except_break
                self.data() == d,
                self.pos() == p0 + zeros,
                zeros <= zero_run(d, p0, 32),
                zero_run(d, p0, 32) < 32,
                p0 + 64 <= usize::MAX,
                zero_run(d, p0 + zeros, (32 - zeros) as nat) == zero_run(d, p0, 32) - zeros,
            ensures
                self.data() == d,
                zeros == zero_run(d, p0, 32),
                self.pos() == p0 + zeros + 1,
            decreases 32 - zeros,
        {
            let b = self.read_bit();
            if b == 0 && zeros < 32 {
                zeros += 1;
            } else {
                break;
            }
        }
        proof {
            vstd::arithmetic::power2::lemma2_to64();
        }
        if zeros == 0 {
            assert(reader_bits(d, p0 + 1, 0) =~= Seq::<bool>::empty());
            return 0;
        }
        let suffix = self.read_bits(zeros);
        proof {
            lemma_bits_value_bound(reader_bits(d, p0 + zeros + 1, zeros as nat));
            vstd::arithmetic::power2::lemma_pow2_strictly_increases(zeros as nat, 32);
            vstd::arithmetic::div_mod::lemma_small_mod(
                bits_value(reader_bits(d, p0 + zeros + 1, zeros as nat)),
                0x1_0000_0000,
            );
            vstd::bits::lemma_u32_shl_is_mul(1, zeros);
            vstd::arithmetic::power2::lemma_pow2_pos(zeros as nat);
        }
        (1u32 << zeros) - 1 + suffix
    }

    /// Signed Exp-Golomb (`se(v)`).
    pub fn read_se(&mut self) -> (r: i32)
        requires
            zero_run(old(self).data(), old(self).pos(), 32) < 32,
            old(self).pos() + 64 <= usize::MAX,
        ensures
            final(self).data() == old(self).data(),
            r == se_from_code(ue_value(old(self).data(), old(self).pos()) as int),
            final(self).pos() == old(self).pos() + ue_len(old(self).data(), old(self).pos()),
    {
        let code = self.read_ue();
        proof {
            lemma_ue_value_bound(old(self).data(), old(self).pos());
        }
        let k = ((code + 1) / 2) as i32;
        if code % 2 == 1 {
            k
        } else {
            assert((code as int + 1) / 2 == code as int / 2) by (nonlinear_arith)
                requires
                    code as int % 2 == 0,
            ;
            -k
        }
    }

    /// Advance to the next byte boundary.
    pub fn byte_align(&mut self)
        requires
            old(self).pos() + 8 <= usize::MAX,
        ensures
            final(self).data() == old(self).data(),
            final(self).pos() % 8 == 0,
            old(self).pos() <= final(self).pos() < old(self).pos() + 8,
    {
        let ghost p0 = self.pos();
        let ghost t = p0 + (8 - p0 % 8) % 8;
        assert(t % 8 == 0 && p0 <= t < p0 + 8) by (nonlinear_arith)
            requires
                t == p0 + (8 - p0 % 8) % 8,
                p0 >= 0,
        ;
        while self.bitpos % 8 != 0
            invariant
                p0 <= self.pos() <= t,
                t % 8 == 0,
                t < p0 + 8,
                p0 + 8 <= usize::MAX,
                self.data() == old(self).data(),
            decreases t - self.pos(),
        {
            self.bitpos += 1;
        }
    }
}

/// A value read from bits is below two to the number of bits.
pub proof fn lemma_bits_value_bound(s: Seq<bool>)
    ensures
        bits_value(s) < vstd::arithmetic::power2::pow2(s.len()),
    decreases s.len(),
{
    vstd::arithmetic::power2::lemma2_to64();
    if s.len() > 0 {
        lemma_bits_value_bound(s.drop_last());
        vstd::arithmetic::power2::lemma_pow2_unfold(s.len());
    }
}

/// An unsigned Exp-Golomb read with fewer than 32 leading zeros returns at most
/// `2^32 - 2`.
pub proof fn lemma_ue_value_bound(data: Seq<u8>, pos: int)
    requires
        zero_run(data, pos, 32) < 32,
    ensures
        ue_value(data, pos) <= 0xffff_fffe,
{
    let z = zero_run(data, pos, 32);
    lemma_bits_value_bound(reader_bits(data, pos + z + 1, z));
    vstd::arithmetic::power2::lemma2_to64();
    if z < 31 {
        vstd::arithmetic::power2::lemma_pow2_strictly_increases(z, 31);
    }
}

/// Bit-level facts behind [`lemma_shift_in_bit`].
proof fn lemma_shift_in_bit_bv(c: u8, b: u8, n: u8, k: u64)
    by (bit_vector)
    requires
        n < 8,
        (c as u64) < (1u64 << (n as u64)),
        b < 2,
    ensures
        (((c << 1u8) | b) as u64) == ((c as u64) << 1u64) | (b as u64),
        (((c << 1u8) | b) as u64) < (1u64 << ((n + 1) as u64)),
        1 <= k <= 7 ==> ((((c << 1u8) | b) as u64) >> k) & 1 == ((c as u64) >> ((k - 1) as u64)) & 1,
        ((((c << 1u8) | b) as u64) >> 0u64) & 1 == b as u64,
{
}

/// Shifting one bit into a partial byte appends it to the partial bits.
pub proof fn lemma_shift_in_bit(c: u8, n: u8, b: u8)
    requires
        n < 8,
        (c as u64) < (1u64 << (n as u64)),
        b < 2,
    ensures
        (((c << 1u8) | b) as u64) < (1u64 << ((n + 1) as u64)),
        low_bits(((c << 1u8) | b) as u64, (n + 1) as nat) == low_bits(c as u64, n as nat).push(
            b == 1,
        ),
{
    let nc = (c << 1u8) | b;
    let n64 = n as u64;
    let c64 = c as u64;
    let b64 = b as u64;
    let nc64 = nc as u64;
    lemma_shift_in_bit_bv(c, b, n, 0);
    let lo = low_bits(nc64, (n + 1) as nat);
    let want = low_bits(c64, n as nat).push(b == 1);
    assert forall|i: int| 0 <= i <= n implies lo[i] == want[i] by {
        lemma_shift_in_bit_bv(c, b, n, (n - i) as u64);
    }
    assert(lo =~= want);
}

// ---------------------------------------------------------------------------
// NAL unit types
// ---------------------------------------------------------------------------
/// VVC NAL unit types (H.266 Table 5). Only the subset needed to emit a still
/// intra picture is enumerated; the numeric value is `nuh_unit_type`.
#[derive(Clone, Copy, Debug, PartialEq, Eq)]
pub enum NalUnitType {
    /// Coded slice of an IDR picture, with leading RADL pictures permitted.
    IdrWRadl,
    /// Coded slice of an IDR picture with no leading pictures.
    IdrNLp,
    /// Operating point information.
    Opi,
    /// Decoding capability information.
    Dci,
    /// Video parameter set.
    Vps,
    /// Sequence parameter set.
    Sps,
    /// Picture parameter set.
    Pps,
    /// Adaptation parameter set (prefix).
    PrefixAps,
    /// Picture header.
    Ph,
    /// Access unit delimiter.
    Aud,
    /// Prefix SEI.
    PrefixSei,
}

/// `nuh_unit_type` of each NAL unit type (H.266 Table 5).
pub open spec fn nal_unit_type_code(t: NalUnitType) -> u8 {
    match t {
        NalUnitType::IdrWRadl => 7,
        NalUnitType::IdrNLp => 8,
        NalUnitType::Opi => 12,
        NalUnitType::Dci => 13,
        NalUnitType::Vps => 14,
        NalUnitType::Sps => 15,
        NalUnitType::Pps => 16,
        NalUnitType::PrefixAps => 17,
        NalUnitType::Ph => 19,
        NalUnitType::Aud => 20,
        NalUnitType::PrefixSei => 23,
    }
}

impl NalUnitType {
    /// The numeric `nuh_unit_type`.
    pub fn value(self) -> (r: u8)
        ensures
            r == nal_unit_type_code(self),
    {
        match self {
            NalUnitType::IdrWRadl => 7,
            NalUnitType::IdrNLp => 8,
            NalUnitType::Opi => 12,
            NalUnitType::Dci => 13,
            NalUnitType::Vps => 14,
            NalUnitType::Sps => 15,
            NalUnitType::Pps => 16,
            NalUnitType::PrefixAps => 17,
            NalUnitType::Ph => 19,
            NalUnitType::Aud => 20,
            NalUnitType::PrefixSei => 23,
        }
    }
}

// ---------------------------------------------------------------------------
// Writer
// ---------------------------------------------------------------------------
/// MSB-first bit writer producing a raw byte stream (RBSP payload, before
/// emulation prevention).
pub struct BitWriter {
    /// Completed bytes.
    pub bytes: Vec<u8>,
    /// Partially filled current byte, MSB-first.
    cur: u8,
    /// Number of bits already filled in `cur` (0..8).
    nbits: u8,
}

impl BitWriter {
    /// Internal consistency: fewer than eight pending bits, and `cur` holds
    /// nothing above them.
    pub closed spec fn wf(&self) -> bool {
        &&& self.nbits < 8
        &&& (self.cur as u64) < (1u64 << (self.nbits as u64))
    }

    /// Every bit written so far, in order.
    pub closed spec fn bits(&self) -> Seq<bool> {
        bytes_bits(self.bytes@) + low_bits(self.cur as u64, self.nbits as nat)
    }

    /// The completed bytes.
    pub closed spec fn byte_seq(&self) -> Seq<u8> {
        self.bytes@
    }

    /// Number of pending bits in the partial byte.
    pub closed spec fn pending(&self) -> nat {
        self.nbits as nat
    }

    pub proof fn lemma_bits_split(&self)
        requires
            self.wf(),
        ensures
            self.bits().len() == 8 * self.byte_seq().len() + self.pending(),
            self.pending() < 8,
            self.bits().subrange(0, 8 * self.byte_seq().len() as int) == bytes_bits(self.byte_seq()),
    {
        assert(self.bits().subrange(0, 8 * self.bytes@.len() as int) =~= bytes_bits(self.bytes@));
    }

    /// An empty writer.
    pub fn new() -> (w: Self)
        ensures
            w.wf(),
            w.bits() == Seq::<bool>::empty(),
            w.byte_seq() == Seq::<u8>::empty(),
    {
        let w = BitWriter { bytes: Vec::new(), cur: 0, nbits: 0 };
        proof {
            lemma_u64_halve(0, 0);
        }
        assert(w.bits() =~= Seq::<bool>::empty());
        w
    }

    /// True when the next write would start a fresh byte.
    pub fn is_byte_aligned(&self) -> (r: bool)
        requires
            self.wf(),
        ensures
            r == (self.bits().len() % 8 == 0),
            r == (self.pending() == 0),
    {
        proof {
            self.lemma_bits_split();
            assert((8 * self.bytes@.len() + self.pending()) % 8 == self.pending() as int)
                by (nonlinear_arith)
                requires
                    self.pending() < 8,
            ;
        }
        self.nbits == 0
    }

    /// Total bits written so far.
    pub fn bit_len(&self) -> (r: usize)
        requires
            self.wf(),
            8 * self.byte_seq().len() + 8 <= usize::MAX,
        ensures
            r == self.bits().len(),
    {
        proof {
            self.lemma_bits_split();
        }
        self.bytes.len() * 8 + self.nbits as usize
    }

    /// Write a single bit (`u(1)`): the low bit of `bit`.
    pub fn put_bit(&mut self, bit: u32)
        requires
            old(self).wf(),
        ensures
            final(self).wf(),
            final(self).bits() == old(self).bits().push(bit % 2 == 1),
            final(self).pending() == (old(self).pending() + 1) % 8,
            bit == 0 ==> final(self).bits() == old(self).bits().push(false),
            bit == 1 ==> final(self).bits() == old(self).bits().push(true),
    {
        let ghost old_bits = self.bits();
        let ghost c = self.cur;
        let ghost n = self.nbits;
        let b: u8 = (bit % 2) as u8;
        let nc: u8 = (self.cur << 1u8) | b;
        self.cur = nc;
        self.nbits = self.nbits + 1;
        proof {
            lemma_shift_in_bit(c, n, b);
        }
        if self.nbits == 8 {
            let ghost pre = self.bytes@;
            self.bytes.push(self.cur);
            proof {
                lemma_bytes_bits_push(pre, nc);
            }
            self.cur = 0;
            self.nbits = 0;
            proof {
                lemma_u64_halve(0, 0);
                assert(low_bits(0, 0) =~= Seq::<bool>::empty());
                assert(self.bits() =~= old_bits.push(bit % 2 == 1));
            }
        } else {
            proof {
                assert(self.bits() =~= old_bits.push(bit % 2 == 1));
            }
        }
    }

    /// Write the low `n` bits of `value`, most significant first (`u(n)`).
    pub fn put_bits(&mut self, value: u32, n: u32)
        requires
            old(self).wf(),
            n <= 32,
        ensures
            final(self).wf(),
            final(self).bits() == old(self).bits() + low_bits(value as u64, n as nat),
    {
        self.put_bits64(value as u64, n);
    }

    /// Write the low `n` bits of a 64-bit value, most significant first.
    fn put_bits64(&mut self, v: u64, n: u32)
        requires
            old(self).wf(),
            n <= 64,
        ensures
            final(self).wf(),
            final(self).bits() == old(self).bits() + low_bits(v, n as nat),
    {
        let mut i = n;
        while i > 0
            invariant
                self.wf(),
                i <= n <= 64,
                self.bits() == old(self).bits() + low_bits(v, n as nat).subrange(
                    0,
                    (n - i) as int,
                ),
            decreases i,
        {
            i -= 1;
            let x = v >> (i as u64);
            proof {
                lemma_u64_halve(x, 0);
            }
            let bit = (x & 1u64) as u32;
            self.put_bit(bit);
            proof {
                let lb = low_bits(v, n as nat);
                assert(lb.subrange(0, (n - i) as int) =~= lb.subrange(0, (n - 1 - i) as int).push(
                    lb[(n - 1 - i) as int],
                ));
                assert(self.bits() =~= old(self).bits() + lb.subrange(0, (n - i) as int));
            }
        }
        assert(low_bits(v, n as nat).subrange(0, n as int) =~= low_bits(v, n as nat));
    }

    /// Unsigned Exp-Golomb (`ue(v)`), H.266 §9.2.
    pub fn put_ue(&mut self, value: u32)
        requires
            old(self).wf(),
        ensures
            final(self).wf(),
            final(self).bits() == old(self).bits() + ue_bits(value),
    {
        let v: u64 = value as u64 + 1;
        // Bit length of value + 1.
        let mut len: u32 = 0;
        let mut t: u64 = v;
        proof {
            vstd::arithmetic::power2::lemma2_to64();
        }
        while t > 0
            invariant
                1 <= v <= 0x1_0000_0000,
                len <= 33,
                t as nat <= 0x1_0000_0000nat / vstd::arithmetic::power2::pow2(len as nat),
                len + bit_length(t as nat) == bit_length(v as nat),
            decreases t,
        {
            proof {
                vstd::arithmetic::power2::lemma_pow2_unfold((len + 1) as nat);
                vstd::arithmetic::power2::lemma_pow2_pos(len as nat);
                let p = vstd::arithmetic::power2::pow2(len as nat);
                if len >= 33 {
                    vstd::arithmetic::power2::lemma_pow2_strictly_increases(32, len as nat);
                    vstd::arithmetic::power2::lemma2_to64_rest();
                    assert(0x1_0000_0000nat / p == 0) by (nonlinear_arith)
                        requires
                            p > 0x1_0000_0000,
                    ;
                }
                assert(t as nat / 2 <= 0x1_0000_0000nat / (2 * p)) by (nonlinear_arith)
                    requires
                        t as nat <= 0x1_0000_0000nat / p,
                        p > 0,
                {
                    vstd::arithmetic::div_mod::lemma_div_denominator(0x1_0000_0000int, p as int, 2);
                    vstd::arithmetic::div_mod::lemma_div_is_ordered(
                        t as int,
                        (0x1_0000_0000nat / p) as int,
                        2,
                    );
                }
            }
            len += 1;
            t = t / 2;
        }
        proof {
            lemma_bit_length_bounds(v as nat);
        }
        assert(len >= 1);
        let mut k: u32 = 0;
        let ghost before = self.bits();
        while k < len - 1
            invariant
                self.wf(),
                1 <= len <= 33,
                k <= len - 1,
                self.bits() == before + zero_bits(k as nat),
            decreases len - 1 - k,
        {
            self.put_bit(0);
            k += 1;
            assert(self.bits() =~= before + zero_bits(k as nat));
        }
        self.put_bits64(v, len);
        assert(self.bits() =~= before + ue_bits(value));
    }

    /// Signed Exp-Golomb (`se(v)`), H.266 §9.2.1.
    pub fn put_se(&mut self, value: i32)
        requires
            old(self).wf(),
        ensures
            final(self).wf(),
            final(self).bits() == old(self).bits() + ue_bits(se_code(value) as u32),
    {
        let code: u64 = if value <= 0 {
            (-(value as i64) as u64) * 2
        } else {
            (value as u64) * 2 - 1
        };
        assert(code == se_code(value));
        self.put_ue(code as u32);
    }

    /// Append `rbsp_stop_one_bit` followed by zero alignment bits.
    pub fn rbsp_trailing_bits(&mut self)
        requires
            old(self).wf(),
        ensures
            final(self).wf(),
            final(self).pending() == 0,
            exists|k: nat|
                k < 8 && final(self).bits() == old(self).bits().push(true) + zero_bits(k),
    {
        self.put_bit(1);
        self.byte_align();
    }

    /// Finish and return the RBSP bytes (the writer must be byte-aligned).
    pub fn into_bytes(self) -> (r: Vec<u8>)
        requires
            self.wf(),
            self.pending() == 0,
        ensures
            bytes_bits(r@) == self.bits(),
            r@ == self.byte_seq(),
    {
        assert(low_bits(self.cur as u64, 0) =~= Seq::<bool>::empty());
        assert(self.bits() =~= bytes_bits(self.bytes@));
        self.bytes
    }

    /// Pad with zero bits to the next byte boundary (no stop bit).
    pub fn byte_align(&mut self)
        requires
            old(self).wf(),
        ensures
            final(self).wf(),
            final(self).pending() == 0,
            exists|k: nat|
                k < 8 && k == (if old(self).pending() == 0 {
                    0
                } else {
                    8 - old(self).pending()
                }) && final(self).bits() == old(self).bits() + zero_bits(k),
    {
        let ghost start = self.bits();
        let ghost p0 = self.pending();
        let mut k: u32 = 0;
        while self.nbits != 0
            invariant
                self.wf(),
                p0 < 8,
                k <= 8,
                p0 == 0 ==> k == 0 && self.pending() == 0,
                p0 != 0 ==> (self.pending() == 0 && k == 8 - p0) || (self.pending() == p0 + k
                    && self.pending() > 0),
                self.bits() == start + zero_bits(k as nat),
            decreases 8 - k,
        {
            self.put_bit(0);
            k += 1;
            assert(self.bits() =~= start + zero_bits(k as nat));
        }
        assert(start + zero_bits(0) =~= start);
    }
}

// ---------------------------------------------------------------------------
// Emulation prevention
// ---------------------------------------------------------------------------
/// Emulation-prevention encoding of `s`, given `zeros` zero bytes just before
/// it (only whether there were at least two matters).
pub open spec fn ebsp_enc(s: Seq<u8>, zeros: nat) -> Seq<u8>
    decreases s.len(),
{
    if s.len() == 0 {
        Seq::empty()
    } else {
        let b = s[0];
        let ins = zeros >= 2 && b <= 3;
        let z1: nat = if ins {
            0
        } else {
            zeros
        };
        let z2: nat = if b == 0 {
            z1 + 1
        } else {
            0
        };
        let head = if ins {
            seq![3u8, b]
        } else {
            seq![b]
        };
        head + ebsp_enc(s.subrange(1, s.len() as int), z2)
    }
}

/// Inverse of [`ebsp_enc`]: removes every `0x03` that follows two zero bytes and
/// precedes a byte `<= 3`.
pub open spec fn ebsp_dec(s: Seq<u8>, zeros: nat) -> Seq<u8>
    decreases s.len(),
{
    if s.len() == 0 {
        Seq::empty()
    } else {
        let b = s[0];
        if zeros >= 2 && b == 3 && s.len() >= 2 && s[1] <= 3 {
            ebsp_dec(s.subrange(1, s.len() as int), 0)
        } else {
            seq![b] + ebsp_dec(
                s.subrange(1, s.len() as int),
                if b == 0 {
                    zeros + 1
                } else {
                    0
                },
            )
        }
    }
}

/// Emulation-prevention encoding of a whole RBSP.
pub open spec fn spec_rbsp_to_ebsp(s: Seq<u8>) -> Seq<u8> {
    ebsp_enc(s, 0)
}

/// Emulation-prevention removal from a whole NAL payload.
pub open spec fn spec_ebsp_to_rbsp(s: Seq<u8>) -> Seq<u8> {
    ebsp_dec(s, 0)
}

proof fn lemma_ebsp_enc_append(s: Seq<u8>, zeros: nat, b: u8)
    ensures
        ebsp_enc(s.push(b), zeros) == ebsp_enc(s, zeros) + (if enc_zeros(s, zeros) >= 2 && b
            <= 3 {
            seq![3u8, b]
        } else {
            seq![b]
        }),
    decreases s.len(),
{
    if s.len() == 0 {
        assert(s.push(b).subrange(1, 1) =~= Seq::<u8>::empty());
        assert(s =~= Seq::<u8>::empty());
        reveal_with_fuel(ebsp_enc, 2);
        assert(ebsp_enc(s.push(b), zeros) =~= (if zeros >= 2 && b <= 3 {
            seq![3u8, b]
        } else {
            seq![b]
        }));
    } else {
        let t = s.subrange(1, s.len() as int);
        assert(s.push(b).subrange(1, s.len() as int + 1) =~= t.push(b));
        let c = s[0];
        let ins = zeros >= 2 && c <= 3;
        let z1: nat = if ins {
            0
        } else {
            zeros
        };
        let z2: nat = if c == 0 {
            z1 + 1
        } else {
            0
        };
        lemma_ebsp_enc_append(t, z2, b);
        let head = if ins {
            seq![3u8, c]
        } else {
            seq![c]
        };
        let tail = if enc_zeros(t, z2) >= 2 && b <= 3 {
            seq![3u8, b]
        } else {
            seq![b]
        };
        assert(head + (ebsp_enc(t, z2) + tail) =~= (head + ebsp_enc(t, z2)) + tail);
    }
}

/// The encoder's zero count after consuming `s`.
pub open spec fn enc_zeros(s: Seq<u8>, zeros: nat) -> nat
    decreases s.len(),
{
    if s.len() == 0 {
        zeros
    } else {
        let b = s[0];
        let z1: nat = if zeros >= 2 && b <= 3 {
            0
        } else {
            zeros
        };
        enc_zeros(
            s.subrange(1, s.len() as int),
            if b == 0 {
                z1 + 1
            } else {
                0
            },
        )
    }
}

proof fn lemma_enc_zeros_push(s: Seq<u8>, zeros: nat, b: u8)
    ensures
        enc_zeros(s.push(b), zeros) == (if b == 0 {
            (if enc_zeros(s, zeros) >= 2 && b <= 3 {
                0
            } else {
                enc_zeros(s, zeros)
            }) + 1
        } else {
            0
        }),
    decreases s.len(),
{
    if s.len() == 0 {
        assert(s.push(b).subrange(1, 1) =~= Seq::<u8>::empty());
        reveal_with_fuel(enc_zeros, 2);
    } else {
        let t = s.subrange(1, s.len() as int);
        assert(s.push(b).subrange(1, s.len() as int + 1) =~= t.push(b));
        let c = s[0];
        let z1: nat = if zeros >= 2 && c <= 3 {
            0
        } else {
            zeros
        };
        lemma_enc_zeros_push(
            t,
            if c == 0 {
                z1 + 1
            } else {
                0
            },
            b,
        );
    }
}

/// Insert RBSP emulation-prevention bytes (H.266 §7.4.2): any `00 00 0x` with
/// `x <= 3` in the RBSP gets a `0x03` inserted after the second zero.
pub fn rbsp_to_ebsp(rbsp: &[u8]) -> (out: Vec<u8>)
    ensures
        out@ == spec_rbsp_to_ebsp(rbsp@),
{
    let mut out: Vec<u8> = Vec::new();
    let mut zeros: u32 = 0;
    let mut i: usize = 0;
    while i < rbsp.len()
        invariant
            i <= rbsp.len(),
            out@ == ebsp_enc(rbsp@.subrange(0, i as int), 0),
            zeros as nat == enc_zeros(rbsp@.subrange(0, i as int), 0) || (zeros >= 2 && enc_zeros(
                rbsp@.subrange(0, i as int),
                0,
            ) >= 2),
            zeros <= i,
        decreases rbsp.len() - i,
    {
        let b = rbsp[i];
        let ghost pre = rbsp@.subrange(0, i as int);
        proof {
            assert(rbsp@.subrange(0, i + 1) =~= pre.push(b));
            lemma_ebsp_enc_append(pre, 0, b);
            lemma_enc_zeros_push(pre, 0, b);
        }
        if zeros >= 2 && b <= 0x03 {
            out.push(0x03);
            zeros = 0;
        }
        if b == 0 {
            zeros += 1;
        } else {
            zeros = 0;
        }
        out.push(b);
        i += 1;
        proof {
            assert(out@ =~= ebsp_enc(rbsp@.subrange(0, i as int), 0));
        }
    }
    assert(rbsp@.subrange(0, rbsp@.len() as int) =~= rbsp@);
    out
}

proof fn lemma_ebsp_dec_prefix(s: Seq<u8>, zeros: nat)
    ensures
        ebsp_dec(s, zeros).len() <= s.len(),
    decreases s.len(),
{
    if s.len() > 0 {
        let b = s[0];
        if zeros >= 2 && b == 3 && s.len() >= 2 && s[1] <= 3 {
            lemma_ebsp_dec_prefix(s.subrange(1, s.len() as int), 0);
        } else {
            lemma_ebsp_dec_prefix(
                s.subrange(1, s.len() as int),
                if b == 0 {
                    zeros + 1
                } else {
                    0
                },
            );
        }
    }
}

/// The decoder's zero-run bookkeeping only distinguishes "fewer than two" from
/// "at least two".
proof fn lemma_ebsp_dec_zeros(s: Seq<u8>, z1: nat, z2: nat)
    requires
        z1 == z2 || (z1 >= 2 && z2 >= 2),
    ensures
        ebsp_dec(s, z1) == ebsp_dec(s, z2),
    decreases s.len(),
{
    if s.len() > 0 {
        let b = s[0];
        if z1 >= 2 && b == 3 && s.len() >= 2 && s[1] <= 3 {
        } else {
            lemma_ebsp_dec_zeros(
                s.subrange(1, s.len() as int),
                if b == 0 {
                    z1 + 1
                } else {
                    0
                },
                if b == 0 {
                    z2 + 1
                } else {
                    0
                },
            );
        }
    }
}

/// Inverse of [`rbsp_to_ebsp`]: strip emulation-prevention `0x03` bytes from a
/// NAL payload to recover the raw RBSP.
pub fn ebsp_to_rbsp(ebsp: &[u8]) -> (out: Vec<u8>)
    ensures
        out@ == spec_ebsp_to_rbsp(ebsp@),
{
    let mut out: Vec<u8> = Vec::new();
    let mut zeros: usize = 0;
    let mut i: usize = 0;
    assert(ebsp@.subrange(0, ebsp@.len() as int) =~= ebsp@);
    assert(out@ + ebsp_dec(ebsp@, 0) =~= ebsp_dec(ebsp@, 0));
    while i < ebsp.len()
        invariant
            i <= ebsp.len(),
            zeros <= i,
            out@ + ebsp_dec(ebsp@.subrange(i as int, ebsp@.len() as int), zeros as nat)
                == ebsp_dec(ebsp@, 0),
        decreases ebsp.len() - i,
    {
        let b = ebsp[i];
        let ghost rest = ebsp@.subrange(i as int, ebsp@.len() as int);
        proof {
            assert(rest.subrange(1, rest.len() as int) =~= ebsp@.subrange(
                i + 1,
                ebsp@.len() as int,
            ));
            assert(rest[0] == b);
            if rest.len() >= 2 {
                assert(rest[1] == ebsp@[i + 1]);
            }
        }
        if zeros >= 2 && b == 0x03 && i + 1 < ebsp.len() && ebsp[i + 1] <= 0x03 {
            zeros = 0;
        } else {
            let ghost old_out = out@;
            let ghost z2: nat = if b == 0 {
                zeros as nat + 1
            } else {
                0
            };
            let ghost rest2 = ebsp@.subrange(i + 1, ebsp@.len() as int);
            assert(ebsp_dec(rest, zeros as nat) == seq![b] + ebsp_dec(rest2, z2));
            out.push(b);
            zeros = if b == 0 {
                zeros + 1
            } else {
                0
            };
            assert(out@ + ebsp_dec(rest2, z2) =~= old_out + (seq![b] + ebsp_dec(rest2, z2)));
        }
        i += 1;
    }
    assert(ebsp@.subrange(ebsp@.len() as int, ebsp@.len() as int) =~= Seq::<u8>::empty());
    assert(out@ + Seq::<u8>::empty() =~= out@);
    out
}


/// Removing emulation prevention undoes inserting it: for every RBSP `s`,
/// `ebsp_to_rbsp(rbsp_to_ebsp(s)) == s`.
pub proof fn lemma_ebsp_round_trip(s: Seq<u8>)
    ensures
        spec_ebsp_to_rbsp(spec_rbsp_to_ebsp(s)) == s,
{
    lemma_ebsp_round_trip_from(s, 0, 0);
}

proof fn lemma_ebsp_round_trip_from(s: Seq<u8>, ez: nat, dz: nat)
    requires
        ez == dz || (ez >= 2 && dz >= 2),
    ensures
        ebsp_dec(ebsp_enc(s, ez), dz) == s,
    decreases s.len(),
{
    if s.len() == 0 {
        assert(ebsp_enc(s, ez) =~= Seq::<u8>::empty());
    } else {
        let b = s[0];
        let t = s.subrange(1, s.len() as int);
        let ins = ez >= 2 && b <= 3;
        let z1: nat = if ins {
            0
        } else {
            ez
        };
        let z2: nat = if b == 0 {
            z1 + 1
        } else {
            0
        };
        let rest = ebsp_enc(t, z2);
        lemma_ebsp_round_trip_from(t, z2, z2);
        if ins {
            let e = seq![3u8, b] + rest;
            assert(ebsp_enc(s, ez) == e);
            assert(e[0] == 3 && e[1] == b);
            assert(e.subrange(1, e.len() as int) =~= seq![b] + rest);
            let f = seq![b] + rest;
            assert(f.subrange(1, f.len() as int) =~= rest);
            assert(ebsp_dec(e, dz) == ebsp_dec(f, 0));
            if b == 0 {
                lemma_ebsp_dec_zeros(rest, 1, z2);
            } else {
                lemma_ebsp_dec_zeros(rest, 0, z2);
            }
            assert(ebsp_dec(f, 0) == seq![b] + ebsp_dec(rest, z2));
            assert(s =~= seq![b] + t);
        } else {
            let e = seq![b] + rest;
            assert(ebsp_enc(s, ez) == e);
            assert(e.subrange(1, e.len() as int) =~= rest);
            // the decoder does not drop this byte: either fewer than two zeros
            // precede it, or it is not 0x03, or the byte after it is above 3.
            if dz >= 2 && b == 3 && e.len() >= 2 && e[1] <= 3 {
                assert(ez >= 2);
                assert(false);
            }
            let dz2: nat = if b == 0 {
                dz + 1
            } else {
                0
            };
            lemma_ebsp_dec_zeros(rest, dz2, z2);
            assert(s =~= seq![b] + t);
        }
    }
}

/// Wrap an RBSP payload into a complete NAL unit: 2-byte NAL header (H.266
/// §7.3.1.2) + emulation-prevented payload.
pub fn write_nal(nut: NalUnitType, rbsp: &[u8], temporal_id_plus1: u8) -> (nal: Vec<u8>)
    ensures
        nal@ == seq![0u8, (((nal_unit_type_code(nut) & 31) << 3u8) | (temporal_id_plus1 & 7))
            as u8] + spec_rbsp_to_ebsp(rbsp@),
{
    let mut hdr = BitWriter::new();
    hdr.put_bit(0);
    hdr.put_bit(0);
    hdr.put_bits(0, 6);
    let nv = nut.value();
    hdr.put_bits(nv as u32, 5);
    hdr.put_bits(temporal_id_plus1 as u32, 3);
    proof {
        hdr.lemma_bits_split();
        let bits = hdr.bits();
        assert(bits.len() == 16);
    }
    let ghost hbits = hdr.bits();
    let header = hdr.into_bytes();
    proof {
        assert(header@.len() == 2);
        let h0 = header@[0];
        let h1 = header@[1];
        let b1 = ((nv & 31) << 3u8) | (temporal_id_plus1 & 7);
        // Byte 0 carries the eight zero bits; byte 1 the type then the id.
        let bb = bytes_bits(header@);
        assert(bb =~= seq![false, false] + low_bits(0, 6) + low_bits(nv as u64, 5) + low_bits(
            temporal_id_plus1 as u64,
            3,
        ));
        assert forall|k: int| 0 <= k < 8 implies byte_bit(h0, k) == byte_bit(0u8, k) by {
            lemma_div_mod_8(k, 0);
            assert(bb[k] == byte_bit(h0, k));
            lemma_header_byte_bits(nv, temporal_id_plus1, k as u64);
        }
        assert forall|k: int| 0 <= k < 8 implies byte_bit(h1, k) == byte_bit(b1, k) by {
            assert(bb[8 + k] == byte_bit(h1, k)) by {
                lemma_div_mod_8(8 + k, 1);
            }
            lemma_header_byte_bits(nv, temporal_id_plus1, k as u64);
        }
        lemma_byte_from_bits(h0, 0);
        lemma_byte_from_bits(h1, b1);
    }
    let payload = rbsp_to_ebsp(rbsp);
    let mut nal: Vec<u8> = Vec::new();
    assert(header@.len() == 2);
    nal.push(header[0]);
    nal.push(header[1]);
    let mut i: usize = 0;
    while i < payload.len()
        invariant
            i <= payload.len(),
            header@.len() == 2,
            nal@ == seq![header@[0], header@[1]] + payload@.subrange(0, i as int),
        decreases payload.len() - i,
    {
        nal.push(payload[i]);
        i += 1;
        assert(nal@ =~= seq![header@[0], header@[1]] + payload@.subrange(0, i as int));
    }
    assert(payload@.subrange(0, payload@.len() as int) =~= payload@);
    nal
}

/// Bit-level layout of the second NAL header byte: the five type bits, then
/// the three temporal-id bits.
proof fn lemma_header_byte_bits(nv: u8, t: u8, k: u64)
    by (bit_vector)
    requires
        k < 8,
    ensures
        (0u64 >> ((7 - k) as u64)) & 1 == 0,
        k >= 2 ==> (0u64 >> ((5 - (k - 2)) as u64)) & 1 == 0,
        k < 5 ==> (((((((nv & 31) << 3u8) | (t & 7)) as u64) >> ((7 - k) as u64)) & 1 == 1) == (((
        nv as u64) >> ((4 - k) as u64)) & 1 == 1)),
        k >= 5 ==> (((((((nv & 31) << 3u8) | (t & 7)) as u64) >> ((7 - k) as u64)) & 1 == 1) == (((
        t as u64) >> ((7 - k) as u64)) & 1 == 1)),
{
}

/// A byte is determined by its eight bits.
proof fn lemma_byte_from_bits(a: u8, b: u8)
    requires
        forall|k: int| 0 <= k < 8 ==> byte_bit(a, k) == byte_bit(b, k),
    ensures
        a == b,
{
    let a64 = a as u64;
    let b64 = b as u64;
    assert(byte_bit(a, 0) == byte_bit(b, 0));
    assert(byte_bit(a, 1) == byte_bit(b, 1));
    assert(byte_bit(a, 2) == byte_bit(b, 2));
    assert(byte_bit(a, 3) == byte_bit(b, 3));
    assert(byte_bit(a, 4) == byte_bit(b, 4));
    assert(byte_bit(a, 5) == byte_bit(b, 5));
    assert(byte_bit(a, 6) == byte_bit(b, 6));
    assert(byte_bit(a, 7) == byte_bit(b, 7));
    assert(a64 == b64) by (bit_vector)
        requires
            a64 < 256,
            b64 < 256,
            ((a64 >> 7u64) & 1 == 1) == ((b64 >> 7u64) & 1 == 1),
            ((a64 >> 6u64) & 1 == 1) == ((b64 >> 6u64) & 1 == 1),
            ((a64 >> 5u64) & 1 == 1) == ((b64 >> 5u64) & 1 == 1),
            ((a64 >> 4u64) & 1 == 1) == ((b64 >> 4u64) & 1 == 1),
            ((a64 >> 3u64) & 1 == 1) == ((b64 >> 3u64) & 1 == 1),
            ((a64 >> 2u64) & 1 == 1) == ((b64 >> 2u64) & 1 == 1),
            ((a64 >> 1u64) & 1 == 1) == ((b64 >> 1u64) & 1 == 1),
            ((a64 >> 0u64) & 1 == 1) == ((b64 >> 0u64) & 1 == 1),
    ;
}

/// Prefix a NAL unit with the 4-byte Annex-B start code `00 00 00 01`.
pub fn annexb(nal: &[u8]) -> (out: Vec<u8>)
    ensures
        out@ == seq![0u8, 0u8, 0u8, 1u8] + nal@,
{
    let mut out: Vec<u8> = Vec::new();
    out.push(0);
    out.push(0);
    out.push(0);
    out.push(1);
    let mut i: usize = 0;
    while i < nal.len()
        invariant
            i <= nal.len(),
            out@ == seq![0u8, 0u8, 0u8, 1u8] + nal@.subrange(0, i as int),
        decreases nal.len() - i,
    {
        out.push(nal[i]);
        i += 1;
        assert(out@ =~= seq![0u8, 0u8, 0u8, 1u8] + nal@.subrange(0, i as int));
    }
    assert(nal@.subrange(0, nal@.len() as int) =~= nal@);
    out
}

} // verus!

verus! {

/// Reading `n` bits back returns the value whose low `n` bits were written:
/// if the reader sees `low_bits(v, n)` at its position, `read_bits(n)` yields
/// `v mod 2^n`.
pub proof fn lemma_read_bits_inverts_put_bits(data: Seq<u8>, pos: int, v: u32, n: nat)
    requires
        n <= 32,
        reader_bits(data, pos, n) == low_bits(v as u64, n),
    ensures
        bits_value(reader_bits(data, pos, n)) % 0x1_0000_0000 == v as nat
            % vstd::arithmetic::power2::pow2(n),
{
    lemma_bits_value_low_bits(v as u64, n);
    vstd::arithmetic::power2::lemma_pow2_pos(n);
    vstd::arithmetic::power2::lemma2_to64();
    if n < 32 {
        vstd::arithmetic::power2::lemma_pow2_strictly_increases(n, 32);
    }
    let x = v as nat % vstd::arithmetic::power2::pow2(n);
    vstd::arithmetic::div_mod::lemma_small_mod(x, 0x1_0000_0000);
}

proof fn lemma_zero_run_prefix(data: Seq<u8>, pos: int, z: nat, limit: nat)
    requires
        z < limit,
        reader_bits(data, pos, z + 1) == zero_bits(z).push(true),
    ensures
        zero_run(data, pos, limit) == z,
    decreases z,
{
    if z > 0 {
        assert(reader_bits(data, pos, z + 1)[0] == false);
        assert(reader_bits(data, pos + 1, z) =~= zero_bits((z - 1) as nat).push(true)) by {
            assert forall|i: int| 0 <= i < z implies #[trigger] reader_bits(data, pos + 1, z)[i]
                == zero_bits((z - 1) as nat).push(true)[i] by {
                assert(reader_bits(data, pos, z + 1)[i + 1] == zero_bits(z).push(true)[i + 1]);
            }
        }
        lemma_zero_run_prefix(data, pos + 1, (z - 1) as nat, (limit - 1) as nat);
    } else {
        assert(reader_bits(data, pos, 1)[0] == true);
    }
}

/// Reading an unsigned Exp-Golomb code returns the value that was written:
/// if the reader sees `ue_bits(v)` at its position (for any `v` below
/// `u32::MAX`, whose code has at most 31 leading zeros), `read_ue` yields `v`
/// and consumes exactly the code.
pub proof fn lemma_read_ue_inverts_put_ue(data: Seq<u8>, pos: int, v: u32)
    requires
        v < u32::MAX,
        reader_bits(data, pos, ue_bits(v).len()) == ue_bits(v),
    ensures
        zero_run(data, pos, 32) < 32,
        ue_value(data, pos) == v,
        ue_len(data, pos) == ue_bits(v).len(),
{
    let x = v as nat + 1;
    let len = bit_length(x);
    lemma_bit_length_bounds(x);
    vstd::arithmetic::power2::lemma2_to64();
    // len <= 32 since x < 2^32
    if len > 32 {
        vstd::arithmetic::power2::lemma_pow2_strictly_increases(32, (len - 1) as nat);
        assert(false);
    }
    let z = (len - 1) as nat;
    let code = ue_bits(v);
    let lb = low_bits(x as u64, len);
    assert(code.len() == z + len);
    // The leading bit of the binary part is one.
    vstd::bits::lemma_u64_shr_is_div(x as u64, z as u64);
    vstd::arithmetic::power2::lemma_pow2_pos(z);
    vstd::arithmetic::power2::lemma_pow2_unfold(len);
    assert(x / vstd::arithmetic::power2::pow2(z) == 1) by (nonlinear_arith)
        requires
            vstd::arithmetic::power2::pow2(z) <= x,
            x < 2 * vstd::arithmetic::power2::pow2(z),
    ;
    assert(((x as u64) >> (z as u64)) & 1 == 1) by {
        let q = (x as u64) >> (z as u64);
        assert(q == 1);
        lemma_u64_halve(1, 0);
    }
    assert(lb[0] == true);
    assert(reader_bits(data, pos, z + 1) =~= zero_bits(z).push(true)) by {
        assert forall|i: int| 0 <= i <= z implies #[trigger] reader_bits(data, pos, z + 1)[i]
            == zero_bits(z).push(true)[i] by {
            assert(reader_bits(data, pos, code.len())[i] == code[i]);
        }
    }
    lemma_zero_run_prefix(data, pos, z, 32);
    // The suffix is the binary part without its leading one.
    let suf = reader_bits(data, pos + z + 1, z);
    assert(suf =~= low_bits(x as u64, z)) by {
        assert forall|i: int| 0 <= i < z implies #[trigger] suf[i] == low_bits(x as u64, z)[i] by {
            assert(reader_bits(data, pos, code.len())[z + 1 + i] == code[z + 1 + i]);
        }
    }
    lemma_bits_value_low_bits(x as u64, z);
    assert(x % vstd::arithmetic::power2::pow2(z) == x - vstd::arithmetic::power2::pow2(z))
        by (nonlinear_arith)
        requires
            vstd::arithmetic::power2::pow2(z) <= x,
            x < 2 * vstd::arithmetic::power2::pow2(z),
    {
        vstd::arithmetic::div_mod::lemma_fundamental_div_mod_converse(
            x as int,
            vstd::arithmetic::power2::pow2(z) as int,
            1,
            x - vstd::arithmetic::power2::pow2(z),
        );
    }
}

/// Reading a signed Exp-Golomb code returns the value that was written, for
/// every `i32` except `i32::MIN` (whose code number does not fit in 32 bits).
pub proof fn lemma_read_se_inverts_put_se(data: Seq<u8>, pos: int, v: i32)
    requires
        v > i32::MIN,
        reader_bits(data, pos, ue_bits(se_code(v) as u32).len()) == ue_bits(se_code(v) as u32),
    ensures
        zero_run(data, pos, 32) < 32,
        se_from_code(ue_value(data, pos) as int) == v,
        ue_len(data, pos) == ue_bits(se_code(v) as u32).len(),
{
    let c = se_code(v);
    assert(0 <= c < u32::MAX);
    lemma_read_ue_inverts_put_ue(data, pos, c as u32);
    if v <= 0 {
        assert(c % 2 == 0 && c / 2 == -v) by (nonlinear_arith)
            requires
                c == -2 * v,
        ;
    } else {
        assert(c % 2 == 1 && (c + 1) / 2 == v) by (nonlinear_arith)
            requires
                c == 2 * v - 1,
        ;
    }
}

} // verus!
