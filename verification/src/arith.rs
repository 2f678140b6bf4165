//! Integer helpers shared by prediction, CCLM and the transforms: arithmetic
//! right shifts with floor semantics and clamping to a range.
use vstd::prelude::*;
use vstd::arithmetic::power2::pow2;

verus! {

/// `x / 2^s` rounded towards minus infinity: what an arithmetic right shift
/// of a two's-complement value computes.
pub open spec fn floor_shr(x: int, s: nat) -> int {
    x / (pow2(s) as int)
}

/// `v` clamped to `[lo, hi]`.
pub open spec fn spec_clamp(v: int, lo: int, hi: int) -> int {
    if v < lo {
        lo
    } else if v > hi {
        hi
    } else {
        v
    }
}

proof fn lemma_floor_div_neg(x: int, p: int)
    requires
        p > 0,
        x < 0,
    ensures
        x / p == -((-x - 1) / p) - 1,
{
    let y = -x - 1;
    let q = y / p;
    let r = y % p;
    vstd::arithmetic::div_mod::lemma_fundamental_div_mod(y, p);
    vstd::arithmetic::div_mod::lemma_mod_bound(y, p);
    assert(x == p * (-q - 1) + (p - r - 1)) by (nonlinear_arith)
        requires
            y == p * q + r,
            x == -y - 1,
    ;
    vstd::arithmetic::div_mod::lemma_fundamental_div_mod_converse(x, p, -q - 1, p - r - 1);
}

/// Arithmetic right shift of a 64-bit value (`x >> s`), rounding towards
/// minus infinity.
pub fn asr64(x: i64, s: u32) -> (r: i64)
    requires
        s < 64,
    ensures
        r == floor_shr(x as int, s as nat),
{
    proof {
        vstd::arithmetic::power2::lemma_pow2_pos(s as nat);
    }
    if x >= 0 {
        let u = (x as u64) >> (s as u64);
        proof {
            vstd::bits::lemma_u64_shr_is_div(x as u64, s as u64);
            vstd::arithmetic::div_mod::lemma_div_is_ordered_by_denominator(
                x as int,
                1,
                pow2(s as nat) as int,
            );
        }
        u as i64
    } else {
        let y = (-(x + 1)) as u64;
        let q = y >> (s as u64);
        proof {
            vstd::bits::lemma_u64_shr_is_div(y, s as u64);
            vstd::arithmetic::div_mod::lemma_div_is_ordered_by_denominator(
                y as int,
                1,
                pow2(s as nat) as int,
            );
            lemma_floor_div_neg(x as int, pow2(s as nat) as int);
        }
        -(q as i64) - 1
    }
}

/// Arithmetic right shift of a 32-bit value.
pub fn asr32(x: i32, s: u32) -> (r: i32)
    requires
        s < 32,
    ensures
        r == floor_shr(x as int, s as nat),
{
    proof {
        vstd::arithmetic::power2::lemma_pow2_pos(s as nat);
        lemma_floor_shr_bounds(x as int, s as nat);
    }
    asr64(x as i64, s) as i32
}

/// A floor shift moves a value towards zero and never past it.
pub proof fn lemma_floor_shr_bounds(x: int, s: nat)
    ensures
        x >= 0 ==> 0 <= floor_shr(x, s) <= x,
        x < 0 ==> x <= floor_shr(x, s) < 0,
{
    vstd::arithmetic::power2::lemma_pow2_pos(s);
    let p = pow2(s) as int;
    if x >= 0 {
        vstd::arithmetic::div_mod::lemma_div_is_ordered_by_denominator(x, 1, p);
        vstd::arithmetic::div_mod::lemma_div_pos_is_pos(x, p);
    } else {
        lemma_floor_div_neg(x, p);
        vstd::arithmetic::div_mod::lemma_div_is_ordered_by_denominator(-x - 1, 1, p);
        vstd::arithmetic::div_mod::lemma_div_pos_is_pos(-x - 1, p);
    }
}

/// Clamp `v` to `[lo, hi]`.
pub fn clamp_i32(v: i32, lo: i32, hi: i32) -> (r: i32)
    requires
        lo <= hi,
    ensures
        r == spec_clamp(v as int, lo as int, hi as int),
{
    if v < lo {
        lo
    } else if v > hi {
        hi
    } else {
        v
    }
}

/// Clamp a 64-bit `v` to `[lo, hi]`.
pub fn clamp_i64(v: i64, lo: i64, hi: i64) -> (r: i64)
    requires
        lo <= hi,
    ensures
        r == spec_clamp(v as int, lo as int, hi as int),
{
    if v < lo {
        lo
    } else if v > hi {
        hi
    } else {
        v
    }
}

/// `2^s` as a 64-bit value.
pub fn pow2_i64(s: u32) -> (r: i64)
    requires
        s <= 62,
    ensures
        r as int == pow2(s as nat),
        r > 0,
{
    proof {
        vstd::arithmetic::power2::lemma2_to64();
        vstd::arithmetic::power2::lemma_pow2_pos(s as nat);
        vstd::arithmetic::power2::lemma_pow2_strictly_increases(s as nat, 63);
        vstd::arithmetic::power2::lemma_pow2_adds(31, 32);
        vstd::arithmetic::power2::lemma_pow2_strictly_increases(31, 32);
        vstd::bits::lemma_u64_shl_is_mul(1, s as u64);
    }
    (1u64 << (s as u64)) as i64
}

} // verus!
