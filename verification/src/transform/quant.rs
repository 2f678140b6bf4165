//! Scalar quantization and dequantization of transform coefficients, the
//! transform-skip variants, and the dependent-quantization dequantizer.
//!
//! A block whose `log2(w) + log2(h)` is odd is off by `√2` from the square
//! normalization; it uses the `√2`-adjusted scale tables and a one-bit
//! shift change.
use vstd::prelude::*;
use vstd::arithmetic::power2::pow2;
use crate::arith::{asr64, clamp_i64, floor_shr, pow2_i64, spec_clamp};
use crate::depquant::{level_parity, next_state, recon_qidx, spec_next_state, spec_recon_qidx};
use crate::predict::{block_dim_ok, lemma_tz_dim, log2_dim, trailing_zeros};
use super::basis::MAX_TB;

verus! {

/// Forward quantization scales, indexed by `qp % 6`.
pub const QUANT_SCALE: [i64; 6] = [26214, 23302, 20560, 18396, 16384, 14564];

/// Dequantization scales, indexed by `qp % 6`.
pub const DEQUANT_SCALE: [i64; 6] = [40, 45, 51, 57, 64, 72];

/// Forward scales for a block with odd `log2(w) + log2(h)`.
pub const QUANT_SCALE_SQRT: [i64; 6] = [18396, 16384, 14564, 13107, 11651, 10280];

/// Dequantization scales for a block with odd `log2(w) + log2(h)`.
pub const DEQUANT_SCALE_SQRT: [i64; 6] = [57, 64, 72, 80, 90, 102];

/// Block sides that (de)quantization accepts: powers of two up to 64.
pub open spec fn dims_ok(w: int, h: int) -> bool {
    block_dim_ok(w) && block_dim_ok(h)
}

/// `log2(w) + log2(h)`.
pub open spec fn log2_area(w: int, h: int) -> int {
    log2_dim(w) + log2_dim(h)
}

/// 1 for a block with odd `log2(w) + log2(h)`, else 0.
pub open spec fn sqrt2_bit(w: int, h: int) -> int {
    if log2_area(w, h) % 2 == 1 {
        1
    } else {
        0
    }
}

/// Quantization shift: `14 + qp/6 + 15 − bitDepth − ⌊log2(w·h)/2⌋`, one less
/// for a `√2` block.
pub open spec fn quant_bits(w: int, h: int, qp: int, bd: int) -> int {
    14 + qp / 6 + (15 - bd - log2_area(w, h) / 2) - sqrt2_bit(w, h)
}

/// Forward scale of a block at `qp`.
pub open spec fn quant_scale(w: int, h: int, qp: int) -> int {
    if sqrt2_bit(w, h) == 1 {
        QUANT_SCALE_SQRT[qp % 6] as int
    } else {
        QUANT_SCALE[qp % 6] as int
    }
}

/// `|x|`.
pub open spec fn abs(x: int) -> int {
    if x < 0 {
        -x
    } else {
        x
    }
}

/// Quantized level of `c`: `(|c|·scale + 171·2^(qbits−9)) >> qbits` with the
/// sign of `c` (a dead-zone rounding offset of 171/512), clipped to 16 bits.
pub open spec fn quant_value(c: int, scale: int, qbits: int) -> int {
    let mag = (abs(c) * scale + 171 * pow2((qbits - 9) as nat)) / (pow2(qbits as nat) as int);
    spec_clamp(if c < 0 { -mag } else { mag }, -32768, 32767)
}

/// Level at position `k` of a quantized block: inputs past the end of the
/// coefficient slice read as 0.
pub open spec fn quant_at(c: Seq<i32>, k: int, scale: int, qbits: int) -> int {
    if k < c.len() {
        quant_value(c[k] as int, scale, qbits)
    } else {
        0
    }
}

/// Dequantization shift: `bitDepth + ⌊log2(w·h)/2⌋ − 5`, one more for a `√2`
/// block.
pub open spec fn deq_shift(w: int, h: int, bd: int) -> int {
    bd + log2_area(w, h) / 2 - 5 + sqrt2_bit(w, h)
}

/// Dequantization scale of a block at `qp`.
pub open spec fn deq_scale(w: int, h: int, qp: int) -> int {
    if sqrt2_bit(w, h) == 1 {
        DEQUANT_SCALE_SQRT[qp % 6] as int
    } else {
        DEQUANT_SCALE[qp % 6] as int
    }
}

/// `scale · 2^(qp/6) · 16`.
pub open spec fn deq_factor(scale: int, qp: int) -> int {
    scale * pow2((qp / 6) as nat) * 16
}

/// Dequantized coefficient: `(l·factor + 2^(sh−1)) >> sh`, clipped to 16 bits.
pub open spec fn deq_value(l: int, factor: int, sh: int) -> int {
    spec_clamp(floor_shr(l * factor + pow2((sh - 1) as nat), sh as nat), -32768, 32767)
}

/// Every level `l` of the first `n` has `|l|·factor + 2^(sh−1)` within a
/// signed 64-bit value.
pub open spec fn deq_fits(lv: Seq<i16>, n: int, factor: int, sh: int) -> bool {
    forall|k: int| 0 <= k < n && k < lv.len() ==> abs(#[trigger] lv[k] as int) * factor + pow2((sh - 1) as nat) <= i64::MAX
}

/// Transform-skip dequantization of one level: `rs = 6 − qp/6`; a positive
/// `rs` rounds and shifts right, otherwise the product is scaled up by
/// `2^(−rs)`; clipped to 16 bits.
pub open spec fn ts_deq_value(l: int, qp: int) -> int {
    let v = l * DEQUANT_SCALE[qp % 6] as int;
    let rs = 6 - qp / 6;
    spec_clamp(
        if rs > 0 {
            floor_shr(v + pow2((rs - 1) as nat), rs as nat)
        } else {
            v * pow2((-rs) as nat)
        },
        -32768,
        32767,
    )
}

/// `2^54`, the largest dead-zone offset scale.
proof fn lemma_pow2_54()
    ensures
        pow2(54) == 0x40_0000_0000_0000,
{
    vstd::arithmetic::power2::lemma2_to64();
    vstd::arithmetic::power2::lemma_pow2_adds(32, 22);
}

proof fn lemma_area(w: int, h: int)
    requires
        dims_ok(w, h),
    ensures
        1 <= w * h <= 4096,
        0 <= log2_area(w, h) <= 12,
        pow2(log2_dim(w) as nat) == w,
        pow2(log2_dim(h) as nat) == h,
{
    lemma_tz_dim(w);
    lemma_tz_dim(h);
    assert(1 <= w * h <= 4096) by (nonlinear_arith)
        requires
            1 <= w <= 64,
            1 <= h <= 64,
    ;
}

/// `log2(w) + log2(h)` of a block, computed.
fn area_log2(w: usize, h: usize) -> (r: u32)
    requires
        dims_ok(w as int, h as int),
    ensures
        r == log2_area(w as int, h as int),
        r <= 12,
{
    proof {
        lemma_tz_dim(w as int);
        lemma_tz_dim(h as int);
    }
    trailing_zeros(w) + trailing_zeros(h)
}

/// One quantized level.
fn quant_one(c: i32, scale: i64, qbits: u32, offset: i64) -> (r: i16)
    requires
        0 < scale <= 26214,
        9 <= qbits <= 63,
        offset == 171 * pow2((qbits - 9) as nat),
    ensures
        r as int == quant_value(c as int, scale as int, qbits as int),
{
    proof {
        vstd::arithmetic::power2::lemma2_to64();
        lemma_pow2_54();
        if qbits - 9 < 54 {
            vstd::arithmetic::power2::lemma_pow2_strictly_increases((qbits - 9) as nat, 54);
        }
        vstd::arithmetic::power2::lemma_pow2_pos(qbits as nat);
    }
    let c64 = c as i64;
    let a = if c64 < 0 { -c64 } else { c64 };
    proof {
        assert(a * scale <= 0x8000_0000 * 26214) by (nonlinear_arith)
            requires
                0 <= a <= 0x8000_0000,
                0 < scale <= 26214,
        ;
        assert(a * scale >= 0) by (nonlinear_arith)
            requires
                0 <= a,
                0 < scale,
        ;
    }
    let mag = asr64(a * scale + offset, qbits);
    let level = if c64 < 0 { -mag } else { mag };
    clamp_i64(level, -32768, 32767) as i16
}

/// Quantize the first `nn` positions of `coeff` into a fresh `MAX_TB` block.
fn quant_block(coeff: &[i32], nn: usize, scale: i64, qbits: u32) -> (r: Vec<i16>)
    requires
        nn <= MAX_TB,
        0 < scale <= 26214,
        9 <= qbits <= 63,
    ensures
        r.len() == MAX_TB,
        forall|k: int| 0 <= k < nn ==> r[k] as int == quant_at(coeff@, k, scale as int, qbits as int),
        forall|k: int| nn <= k < MAX_TB ==> r[k] == 0,
{
    proof {
        vstd::arithmetic::power2::lemma2_to64();
        lemma_pow2_54();
        if qbits - 9 < 54 {
            vstd::arithmetic::power2::lemma_pow2_strictly_increases((qbits - 9) as nat, 54);
        }
    }
    let offset = 171 * pow2_i64(qbits - 9);
    let mut out = vec![0i16; MAX_TB];
    let mut k: usize = 0;
    while k < nn
        invariant
            nn <= MAX_TB,
            k <= nn,
            out.len() == MAX_TB,
            0 < scale <= 26214,
            9 <= qbits <= 63,
            offset == 171 * pow2((qbits - 9) as nat),
            forall|q: int| 0 <= q < k ==> out[q] as int == quant_at(coeff@, q, scale as int, qbits as int),
            forall|q: int| k <= q < MAX_TB ==> out[q] == 0,
        decreases nn - k,
    {
        if k < coeff.len() {
            let v = quant_one(coeff[k], scale, qbits, offset);
            out.set(k, v);
        }
        k += 1;
    }
    out
}

/// Quantization of a `w × h` coefficient block at `qp` into a fresh
/// `MAX_TB` block: position `k < w·h` holds [`quant_at`] with the block's
/// scale and shift; the rest is 0.
pub fn quantize_wh(coeff: &[i32], w: usize, h: usize, qp: u8, bit_depth: u8) -> (r: Vec<i16>)
    requires
        dims_ok(w as int, h as int),
        9 <= quant_bits(w as int, h as int, qp as int, bit_depth as int) <= 63,
    ensures
        r.len() == MAX_TB,
        forall|k: int|
            0 <= k < w * h ==> r[k] as int == quant_at(
                coeff@,
                k,
                quant_scale(w as int, h as int, qp as int),
                quant_bits(w as int, h as int, qp as int, bit_depth as int),
            ),
        forall|k: int| w * h <= k < MAX_TB ==> r[k] == 0,
{
    proof {
        lemma_area(w as int, h as int);
    }
    let la = area_log2(w, h);
    let sqrt2 = la % 2 == 1;
    let avg = (la / 2) as i64;
    let s: i64 = if sqrt2 { 1 } else { 0 };
    let q_bits = 14 + (qp as i64) / 6 + (15 - bit_depth as i64 - avg) - s;
    let q_scale = if sqrt2 { QUANT_SCALE_SQRT[(qp % 6) as usize] } else { QUANT_SCALE[(qp % 6) as usize] };
    quant_block(coeff, w * h, q_scale, q_bits as u32)
}

/// Quantization of a square `n × n` block (see [`quantize_wh`]).
pub fn quantize(coeff: &[i32], n: usize, qp: u8, bit_depth: u8) -> (r: Vec<i16>)
    requires
        block_dim_ok(n as int),
        9 <= quant_bits(n as int, n as int, qp as int, bit_depth as int) <= 63,
    ensures
        r.len() == MAX_TB,
        forall|k: int|
            0 <= k < n * n ==> r[k] as int == quant_at(
                coeff@,
                k,
                quant_scale(n as int, n as int, qp as int),
                quant_bits(n as int, n as int, qp as int, bit_depth as int),
            ),
        forall|k: int| n * n <= k < MAX_TB ==> r[k] == 0,
{
    quantize_wh(coeff, n, n, qp, bit_depth)
}

/// Transform-skip quantization of a `w × h` residual: scale `QUANT_SCALE[qp %
/// 6]` and shift `14 + qp/6` (no transform term), into a fresh `MAX_TB` block.
pub fn quantize_ts_wh(res: &[i32], w: usize, h: usize, qp: u8) -> (r: Vec<i16>)
    requires
        w * h <= MAX_TB,
    ensures
        r.len() == MAX_TB,
        forall|k: int|
            0 <= k < w * h ==> r[k] as int == quant_at(res@, k, QUANT_SCALE[(qp % 6) as int] as int, 14 + qp / 6),
        forall|k: int| w * h <= k < MAX_TB ==> r[k] == 0,
{
    let q_bits = 14 + (qp as u32) / 6;
    let q_scale = QUANT_SCALE[(qp % 6) as usize];
    quant_block(res, w * h, q_scale, q_bits)
}

/// Square transform-skip quantization (see [`quantize_ts_wh`]).
pub fn quantize_ts(res: &[i32], n: usize, qp: u8) -> (r: Vec<i16>)
    requires
        n * n <= MAX_TB,
    ensures
        r.len() == MAX_TB,
        forall|k: int|
            0 <= k < n * n ==> r[k] as int == quant_at(res@, k, QUANT_SCALE[(qp % 6) as int] as int, 14 + qp / 6),
        forall|k: int| n * n <= k < MAX_TB ==> r[k] == 0,
{
    quantize_ts_wh(res, n, n, qp)
}

/// One dequantized coefficient.
fn deq_one(l: i16, factor: i64, sh: u32, add: i64) -> (r: i32)
    requires
        1 <= sh <= 63,
        factor > 0,
        add == pow2((sh - 1) as nat),
        abs(l as int) * factor + add <= i64::MAX,
    ensures
        r as int == deq_value(l as int, factor as int, sh as int),
{
    proof {
        if l >= 0 {
            assert(l * factor <= abs(l as int) * factor);
            assert(l * factor >= 0) by (nonlinear_arith)
                requires
                    l >= 0,
                    factor > 0,
            ;
        } else {
            assert(l * factor == -(abs(l as int) * factor)) by (nonlinear_arith)
                requires
                    l < 0,
                    abs(l as int) == -l,
            ;
            assert(abs(l as int) * factor >= 0) by (nonlinear_arith)
                requires
                    abs(l as int) >= 0,
                    factor > 0,
            ;
        }
    }
    let v = asr64(l as i64 * factor + add, sh);
    clamp_i64(v, -32768, 32767) as i32
}

/// The dequantization factor `scale · 2^(qp/6) · 16`, computed.
fn deq_factor_of(scale: i64, qp: i64) -> (r: i64)
    requires
        0 < scale <= 102,
        0 <= qp <= 256,
    ensures
        r as int == deq_factor(scale as int, qp as int),
        r > 0,
{
    proof {
        vstd::arithmetic::power2::lemma_pow2_pos((qp / 6) as nat);
        vstd::arithmetic::power2::lemma_pow2_strictly_increases((qp / 6) as nat, 44);
        vstd::arithmetic::power2::lemma_pow2_adds(32, 12);
        vstd::arithmetic::power2::lemma2_to64();
        assert(scale * pow2((qp / 6) as nat) * 16 <= 102 * 0x1000_0000_0000 * 16) by (nonlinear_arith)
            requires
                0 < scale <= 102,
                0 < pow2((qp / 6) as nat) <= 0x1000_0000_0000,
        ;
        assert(scale * pow2((qp / 6) as nat) * 16 > 0) by (nonlinear_arith)
            requires
                0 < scale,
                0 < pow2((qp / 6) as nat),
        ;
        vstd::arithmetic::power2::lemma_pow2_pos((qp / 6) as nat);
    }
    let per = pow2_i64((qp / 6) as u32);
    scale * per * 16
}

/// Dequantize the first `nn` positions into `out`; positions past the end of
/// `level` are zeroed when `zero_rest` and left alone otherwise.
fn deq_block(out: &mut [i32], level: &[i16], nn: usize, factor: i64, sh: u32, zero_rest: bool)
    requires
        old(out).len() >= nn,
        1 <= sh <= 63,
        factor > 0,
        deq_fits(level@, nn as int, factor as int, sh as int),
    ensures
        final(out).len() == old(out).len(),
        forall|k: int|
            0 <= k < nn ==> final(out)[k] as int == if k < level.len() {
                deq_value(level[k] as int, factor as int, sh as int)
            } else if zero_rest {
                0
            } else {
                old(out)[k] as int
            },
        forall|k: int| nn <= k < final(out).len() ==> final(out)[k] == old(out)[k],
{
    let add = pow2_i64(sh - 1);
    let mut k: usize = 0;
    while k < nn
        invariant
            k <= nn,
            out.len() == old(out).len(),
            old(out).len() >= nn,
            1 <= sh <= 63,
            factor > 0,
            add == pow2((sh - 1) as nat),
            deq_fits(level@, nn as int, factor as int, sh as int),
            forall|q: int|
                0 <= q < k ==> out[q] as int == if q < level.len() {
                    deq_value(level[q] as int, factor as int, sh as int)
                } else if zero_rest {
                    0
                } else {
                    old(out)[q] as int
                },
            forall|q: int| k <= q < out.len() ==> out[q] == old(out)[q],
        decreases nn - k,
    {
        if k < level.len() {
            proof {
                assert(abs(level@[k as int] as int) * factor + pow2((sh - 1) as nat) <= i64::MAX);
            }
            out[k] = deq_one(level[k], factor, sh, add);
        } else if zero_rest {
            out[k] = 0;
        }
        k += 1;
    }
}

/// Dequantization of a `w × h` block into `out[..w·h]`: position `k` holds
/// [`deq_value`] of `level[k]` with the block's factor and shift, or 0 past
/// the end of `level`; the rest of `out` is untouched.
pub fn dequantize_wh_into(out: &mut [i32], level: &[i16], w: usize, h: usize, qp: u8, bit_depth: u8)
    requires
        dims_ok(w as int, h as int),
        1 <= deq_shift(w as int, h as int, bit_depth as int) <= 63,
        deq_fits(
            level@,
            w * h,
            deq_factor(deq_scale(w as int, h as int, qp as int), qp as int),
            deq_shift(w as int, h as int, bit_depth as int),
        ),
        old(out).len() >= w * h,
    ensures
        final(out).len() == old(out).len(),
        forall|k: int|
            0 <= k < w * h ==> final(out)[k] as int == if k < level.len() {
                deq_value(
                    level[k] as int,
                    deq_factor(deq_scale(w as int, h as int, qp as int), qp as int),
                    deq_shift(w as int, h as int, bit_depth as int),
                )
            } else {
                0
            },
        forall|k: int| w * h <= k < final(out).len() ==> final(out)[k] == old(out)[k],
{
    proof {
        lemma_area(w as int, h as int);
    }
    let la = area_log2(w, h);
    let sqrt2 = la % 2 == 1;
    let avg = (la / 2) as i64;
    let s: i64 = if sqrt2 { 1 } else { 0 };
    let bd_shift = bit_depth as i64 + avg - 5 + s;
    let scale = if sqrt2 { DEQUANT_SCALE_SQRT[(qp % 6) as usize] } else { DEQUANT_SCALE[(qp % 6) as usize] };
    let factor = deq_factor_of(scale, qp as i64);
    deq_block(out, level, w * h, factor, bd_shift as u32, true);
}

/// [`dequantize_wh_into`] into a fresh `MAX_TB` buffer (zero past `w·h`).
pub fn dequantize_wh(level: &[i16], w: usize, h: usize, qp: u8, bit_depth: u8) -> (r: Vec<i32>)
    requires
        dims_ok(w as int, h as int),
        1 <= deq_shift(w as int, h as int, bit_depth as int) <= 63,
        deq_fits(
            level@,
            w * h,
            deq_factor(deq_scale(w as int, h as int, qp as int), qp as int),
            deq_shift(w as int, h as int, bit_depth as int),
        ),
    ensures
        r.len() == MAX_TB,
        forall|k: int|
            0 <= k < w * h ==> r[k] as int == if k < level.len() {
                deq_value(
                    level[k] as int,
                    deq_factor(deq_scale(w as int, h as int, qp as int), qp as int),
                    deq_shift(w as int, h as int, bit_depth as int),
                )
            } else {
                0
            },
        forall|k: int| w * h <= k < MAX_TB ==> r[k] == 0,
{
    proof {
        lemma_area(w as int, h as int);
    }
    let mut out = vec![0i32; MAX_TB];
    dequantize_wh_into(out.as_mut_slice(), level, w, h, qp, bit_depth);
    out
}

/// Square dequantization into `out`: the first `min(n·n, level.len())`
/// positions are written; the rest of `out` is untouched.
pub fn dequantize_into(out: &mut [i32], level: &[i16], n: usize, qp: u8, bit_depth: u8)
    requires
        block_dim_ok(n as int),
        1 <= deq_shift(n as int, n as int, bit_depth as int) <= 63,
        deq_fits(
            level@,
            n * n,
            deq_factor(deq_scale(n as int, n as int, qp as int), qp as int),
            deq_shift(n as int, n as int, bit_depth as int),
        ),
        old(out).len() >= n * n,
    ensures
        final(out).len() == old(out).len(),
        forall|k: int|
            0 <= k < n * n ==> final(out)[k] as int == if k < level.len() {
                deq_value(
                    level[k] as int,
                    deq_factor(deq_scale(n as int, n as int, qp as int), qp as int),
                    deq_shift(n as int, n as int, bit_depth as int),
                )
            } else {
                old(out)[k] as int
            },
        forall|k: int| n * n <= k < final(out).len() ==> final(out)[k] == old(out)[k],
{
    proof {
        lemma_area(n as int, n as int);
    }
    let la = area_log2(n, n);
    proof {
        assert(la % 2 == 0);
    }
    let bd_shift = bit_depth as i64 + (la / 2) as i64 - 5;
    let scale = DEQUANT_SCALE[(qp % 6) as usize];
    let factor = deq_factor_of(scale, qp as i64);
    deq_block(out, level, n * n, factor, bd_shift as u32, false);
}

/// Square dequantization into a fresh `MAX_TB` buffer (see
/// [`dequantize_wh`]).
pub fn dequantize(level: &[i16], n: usize, qp: u8, bit_depth: u8) -> (r: Vec<i32>)
    requires
        block_dim_ok(n as int),
        1 <= deq_shift(n as int, n as int, bit_depth as int) <= 63,
        deq_fits(
            level@,
            n * n,
            deq_factor(deq_scale(n as int, n as int, qp as int), qp as int),
            deq_shift(n as int, n as int, bit_depth as int),
        ),
    ensures
        r.len() == MAX_TB,
        forall|k: int|
            0 <= k < n * n ==> r[k] as int == if k < level.len() {
                deq_value(
                    level[k] as int,
                    deq_factor(deq_scale(n as int, n as int, qp as int), qp as int),
                    deq_shift(n as int, n as int, bit_depth as int),
                )
            } else {
                0
            },
        forall|k: int| n * n <= k < MAX_TB ==> r[k] == 0,
{
    dequantize_wh(level, n, n, qp, bit_depth)
}

/// Transform-skip dequantization of a `w × h` block into a fresh `MAX_TB`
/// buffer: position `k < w·h` holds [`ts_deq_value`] of `level[k]` (0 past the
/// end of `level`); the rest is 0.
pub fn dequantize_ts_wh(level: &[i16], w: usize, h: usize, qp: u8) -> (r: Vec<i32>)
    requires
        w * h <= MAX_TB,
    ensures
        r.len() == MAX_TB,
        forall|k: int|
            0 <= k < w * h ==> r[k] as int == if k < level.len() {
                ts_deq_value(level[k] as int, qp as int)
            } else {
                0
            },
        forall|k: int| w * h <= k < MAX_TB ==> r[k] == 0,
{
    let per = (qp as i64) / 6;
    let scale = DEQUANT_SCALE[(qp % 6) as usize];
    let right_shift = 6 - per;
    let nn = w * h;
    let mut out = vec![0i32; MAX_TB];
    proof {
        vstd::arithmetic::power2::lemma2_to64();
        if right_shift <= 0 {
            vstd::arithmetic::power2::lemma_pow2_strictly_increases((-right_shift) as nat, 37);
            vstd::arithmetic::power2::lemma_pow2_adds(32, 5);
        }
    }
    let up = if right_shift > 0 { 1 } else { pow2_i64((-right_shift) as u32) };
    proof {
        assert(0 < scale <= 72);
        if right_shift > 0 {
            vstd::arithmetic::power2::lemma_pow2_strictly_increases((right_shift - 1) as nat, 6);
            vstd::arithmetic::power2::lemma_pow2_pos((right_shift - 1) as nat);
        }
    }
    let add = if right_shift > 0 { pow2_i64((right_shift - 1) as u32) } else { 0 };
    let mut k: usize = 0;
    while k < nn
        invariant
            nn == w * h,
            nn <= MAX_TB,
            k <= nn,
            out.len() == MAX_TB,
            per == qp / 6,
            scale == DEQUANT_SCALE[(qp % 6) as int],
            right_shift == 6 - per,
            right_shift <= 0 ==> up == pow2((-right_shift) as nat) && 0 < up <= 0x20_0000_0000,
            right_shift > 0 ==> add == pow2((right_shift - 1) as nat) && 0 < add <= 32,
            0 < scale <= 72,
            forall|q: int|
                0 <= q < k ==> out[q] as int == if q < level.len() {
                    ts_deq_value(level[q] as int, qp as int)
                } else {
                    0
                },
            forall|q: int| k <= q < MAX_TB ==> out[q] == 0,
        decreases nn - k,
    {
        if k < level.len() {
            let l = level[k] as i64;
            proof {
                assert(-0x40_0000 <= l * scale <= 0x40_0000) by (nonlinear_arith)
                    requires
                        -32768 <= l <= 32767,
                        0 < scale <= 72,
                ;
            }
            let v = l * scale;
            let r = if right_shift > 0 {
                asr64(v + add, right_shift as u32)
            } else {
                proof {
                    assert(-0x20_0000_0000 * 0x40_0000 <= v * up <= 0x20_0000_0000 * 0x40_0000) by (nonlinear_arith)
                        requires
                            -0x40_0000 <= v <= 0x40_0000,
                            0 < up <= 0x20_0000_0000,
                    ;
                }
                v * up
            };
            out.set(k, clamp_i64(r, -32768, 32767) as i32);
        }
        k += 1;
    }
    out
}

/// Square transform-skip dequantization (see [`dequantize_ts_wh`]).
pub fn dequantize_ts(level: &[i16], n: usize, qp: u8) -> (r: Vec<i32>)
    requires
        n * n <= MAX_TB,
    ensures
        r.len() == MAX_TB,
        forall|k: int|
            0 <= k < n * n ==> r[k] as int == if k < level.len() {
                ts_deq_value(level[k] as int, qp as int)
            } else {
                0
            },
        forall|k: int| n * n <= k < MAX_TB ==> r[k] == 0,
{
    dequantize_ts_wh(level, n, n, qp)
}

/// Raster position of scan entry `p` of a block of width `w`.
pub open spec fn scan_pos(scan: Seq<(usize, usize)>, w: int, p: int) -> int {
    scan[p].1 * w + scan[p].0
}

/// A scan of a `w × h` block: every entry inside the block, none repeated.
pub open spec fn scan_ok(scan: Seq<(usize, usize)>, w: int, h: int) -> bool {
    &&& forall|p: int| 0 <= p < scan.len() ==> (#[trigger] scan[p]).0 < w && scan[p].1 < h
    &&& forall|p: int, q: int|
        0 <= p < q < scan.len() ==> #[trigger] scan_pos(scan, w, p) != #[trigger] scan_pos(scan, w, q)
}

/// Dependent-quantization state in force at scan index `p`: the walk starts
/// in state 0 at the last scan index and steps backwards on the parity of
/// each level passed.
pub open spec fn dq_state(lv: Seq<i32>, scan: Seq<(usize, usize)>, w: int, p: int) -> u8
    decreases scan.len() - p,
{
    if p + 1 >= scan.len() {
        0
    } else {
        spec_next_state(dq_state(lv, scan, w, p + 1), level_parity(lv[scan_pos(scan, w, p + 1)]))
    }
}

/// Dependent-quantization reconstruction of level `l` in `state`: the
/// doubled index `qIdx` (see `spec_recon_qidx`) scaled by `factor`, rounded
/// and shifted by `sh + 1`, clipped to 16 bits.
pub open spec fn dq_value(l: i32, state: u8, factor: int, sh: int) -> int {
    spec_clamp(floor_shr(spec_recon_qidx(l, state) * factor + pow2(sh as nat), (sh + 1) as nat), -32768, 32767)
}

/// Every scanned level is within `±(2^30 − 1)` and has `2·|l|·factor + 2^sh`
/// within a signed 64-bit value.
pub open spec fn dq_fits(lv: Seq<i32>, scan: Seq<(usize, usize)>, w: int, factor: int, sh: int) -> bool {
    forall|p: int|
        0 <= p < scan.len() ==> {
            let l = #[trigger] lv[scan_pos(scan, w, p)] as int;
            &&& -0x3fff_ffff <= l <= 0x3fff_ffff
            &&& 2 * abs(l) * factor + pow2(sh as nat) <= i64::MAX
        }
}

/// One dependent-quantization reconstruction.
fn dq_one(l: i32, state: u8, factor: i64, sh: u32, add: i64) -> (r: i32)
    requires
        sh <= 62,
        factor > 0,
        state < 4,
        add == pow2(sh as nat),
        -0x3fff_ffff <= l <= 0x3fff_ffff,
        2 * abs(l as int) * factor + add <= i64::MAX,
    ensures
        r as int == dq_value(l, state, factor as int, sh as int),
{
    let q = recon_qidx(l, state) as i64;
    proof {
        let a = abs(l as int);
        assert(-2 * a <= q <= 2 * a);
        assert(-(2 * a * factor) <= q * factor <= 2 * a * factor) by (nonlinear_arith)
            requires
                -2 * a <= q <= 2 * a,
                factor > 0,
        ;
    }
    let v = asr64(q * factor + add, sh + 1);
    clamp_i64(v, -32768, 32767) as i32
}

/// Dependent-quantization dequantization into `out`: walking `scan` from its
/// last entry back to its first, the position of entry `p` receives
/// [`dq_value`] of its level in state [`dq_state`], with the factor and
/// shift of the block at `qp + 1`; positions from `w·h` on are untouched.
pub fn dequantize_dq_wh_into(
    out: &mut [i32],
    level: &[i32],
    scan: &[(usize, usize)],
    w: usize,
    h: usize,
    qp: u8,
    bit_depth: u8,
)
    requires
        dims_ok(w as int, h as int),
        scan_ok(scan@, w as int, h as int),
        level.len() >= w * h,
        old(out).len() >= w * h,
        0 <= deq_shift(w as int, h as int, bit_depth as int) <= 62,
        dq_fits(
            level@,
            scan@,
            w as int,
            deq_factor(deq_scale(w as int, h as int, qp + 1), qp + 1),
            deq_shift(w as int, h as int, bit_depth as int),
        ),
    ensures
        final(out).len() == old(out).len(),
        forall|p: int|
            0 <= p < scan.len() ==> final(out)[#[trigger] scan_pos(scan@, w as int, p)] as int == dq_value(
                level[scan_pos(scan@, w as int, p)],
                dq_state(level@, scan@, w as int, p),
                deq_factor(deq_scale(w as int, h as int, qp + 1), qp + 1),
                deq_shift(w as int, h as int, bit_depth as int),
            ),
        forall|k: int| w * h <= k < final(out).len() ==> final(out)[k] == old(out)[k],
{
    proof {
        lemma_area(w as int, h as int);
    }
    let la = area_log2(w, h);
    let sqrt2 = la % 2 == 1;
    let avg = (la / 2) as i64;
    let s: i64 = if sqrt2 { 1 } else { 0 };
    let bd_shift = bit_depth as i64 + avg - 5 + s;
    let qp_dq = qp as i64 + 1;
    let scale = if sqrt2 { DEQUANT_SCALE_SQRT[(qp_dq % 6) as usize] } else { DEQUANT_SCALE[(qp_dq % 6) as usize] };
    let factor = deq_factor_of(scale, qp_dq);
    let sh = bd_shift as u32;
    let add = pow2_i64(sh);
    let ghost fac = deq_factor(deq_scale(w as int, h as int, qp + 1), qp + 1);
    let ghost bsh = deq_shift(w as int, h as int, bit_depth as int);
    let mut state: u8 = 0;
    let mut i: usize = scan.len();
    while i > 0
        invariant
            i <= scan.len(),
            scan_ok(scan@, w as int, h as int),
            level.len() >= w * h,
            out.len() == old(out).len(),
            old(out).len() >= w * h,
            1 <= w * h <= 4096,
            factor == fac,
            factor > 0,
            sh == bsh,
            sh <= 62,
            add == pow2(sh as nat),
            dq_fits(level@, scan@, w as int, fac, bsh),
            state < 4,
            state == dq_state(level@, scan@, w as int, i - 1),
            forall|p: int|
                i <= p < scan.len() ==> out[#[trigger] scan_pos(scan@, w as int, p)] as int == dq_value(
                    level[scan_pos(scan@, w as int, p)],
                    dq_state(level@, scan@, w as int, p),
                    fac,
                    bsh,
                ),
            forall|k: int| w * h <= k < out.len() ==> out[k] == old(out)[k],
        decreases i,
    {
        let p = i - 1;
        let (x, y) = scan[p];
        proof {
            assert(scan@[p as int].0 < w && scan@[p as int].1 < h);
            assert(y * w + x < w * h) by (nonlinear_arith)
                requires
                    x < w,
                    y < h,
            ;
            assert(scan_pos(scan@, w as int, p as int) == y * w + x);
        }
        let pos = y * w + x;
        let l = level[pos];
        proof {
            let _ = level@[scan_pos(scan@, w as int, p as int)];
        }
        let v = dq_one(l, state, factor, sh, add);
        let ghost pre = out@;
        out[pos] = v;
        proof {
            assert(v as int == dq_value(l, dq_state(level@, scan@, w as int, p as int), fac, bsh));
            assert forall|q: int| p <= q < scan.len() implies out[#[trigger] scan_pos(scan@, w as int, q)] as int
                == dq_value(
                level[scan_pos(scan@, w as int, q)],
                dq_state(level@, scan@, w as int, q),
                fac,
                bsh,
            ) by {
                if q != p {
                    assert(scan_pos(scan@, w as int, p as int) != scan_pos(scan@, w as int, q));
                    let (qx, qy) = scan@[q];
                    assert(qx < w && qy < h);
                    assert(0 <= qy * w + qx < w * h) by (nonlinear_arith)
                        requires
                            qx < w,
                            qy < h,
                    ;
                    assert(out@[scan_pos(scan@, w as int, q)] == pre[scan_pos(scan@, w as int, q)]);
                }
            }
        }
        state = next_state(state, l);
        i = p;
    }
}

/// [`dequantize_dq_wh_into`] into a fresh `MAX_TB` buffer.
pub fn dequantize_dq_wh(
    level: &[i32],
    scan: &[(usize, usize)],
    w: usize,
    h: usize,
    qp: u8,
    bit_depth: u8,
) -> (r: Vec<i32>)
    requires
        dims_ok(w as int, h as int),
        scan_ok(scan@, w as int, h as int),
        level.len() >= w * h,
        0 <= deq_shift(w as int, h as int, bit_depth as int) <= 62,
        dq_fits(
            level@,
            scan@,
            w as int,
            deq_factor(deq_scale(w as int, h as int, qp + 1), qp + 1),
            deq_shift(w as int, h as int, bit_depth as int),
        ),
    ensures
        r.len() == MAX_TB,
        forall|p: int|
            0 <= p < scan.len() ==> r[#[trigger] scan_pos(scan@, w as int, p)] as int == dq_value(
                level[scan_pos(scan@, w as int, p)],
                dq_state(level@, scan@, w as int, p),
                deq_factor(deq_scale(w as int, h as int, qp + 1), qp + 1),
                deq_shift(w as int, h as int, bit_depth as int),
            ),
        forall|k: int| w * h <= k < MAX_TB ==> r[k] == 0,
{
    proof {
        lemma_area(w as int, h as int);
    }
    let mut out = vec![0i32; MAX_TB];
    dequantize_dq_wh_into(out.as_mut_slice(), level, scan, w, h, qp, bit_depth);
    out
}

/// A zero coefficient quantizes to level 0 (the dead-zone offset is below
/// one step).
pub proof fn lemma_quant_zero(scale: int, qbits: int)
    requires
        9 <= qbits,
    ensures
        quant_value(0, scale, qbits) == 0,
{
    let q = (qbits - 9) as nat;
    vstd::arithmetic::power2::lemma_pow2_adds(q, 9);
    vstd::arithmetic::power2::lemma2_to64();
    vstd::arithmetic::power2::lemma_pow2_pos(q);
    let p = pow2(q) as int;
    assert(0 <= 171 * p < 512 * p) by (nonlinear_arith)
        requires
            p > 0,
    ;
    assert(pow2(qbits as nat) == 512 * p) by {
        assert((q + 9) as nat == qbits as nat);
        assert(pow2(q + 9) == pow2(q) * pow2(9));
    }
    assert(abs(0) == 0);
    assert(abs(0) * scale == 0) by (nonlinear_arith)
        requires
            abs(0) == 0,
    ;
    vstd::arithmetic::div_mod::lemma_basic_div(171 * p, 512 * p);
    assert((abs(0) * scale + 171 * pow2(q)) / (pow2(qbits as nat) as int) == 0);
}

/// At QP 4 transform-skip dequantization is the identity on every level:
/// `(l·64 + 32) >> 6 == l`.
pub proof fn lemma_ts_dequant_identity_qp4(l: i16)
    ensures
        ts_deq_value(l as int, 4) == l as int,
{
    vstd::arithmetic::power2::lemma2_to64();
    assert(DEQUANT_SCALE[4] == 64);
    let x = l as int * 64 + 32;
    vstd::arithmetic::div_mod::lemma_fundamental_div_mod_converse(x, 64, l as int, 32);
}

/// In a state of the first quantizer (`state < 2`) a dependent-quantization
/// reconstruction equals the scalar reconstruction with the same factor and
/// shift.
pub proof fn lemma_dq_q0_matches_scalar(l: i32, state: u8, factor: int, sh: int)
    requires
        state < 2,
        sh >= 1,
    ensures
        dq_value(l, state, factor, sh) == deq_value(l as int, factor, sh),
{
    let y = l * factor + pow2((sh - 1) as nat);
    let p = pow2(sh as nat) as int;
    vstd::arithmetic::power2::lemma_pow2_pos(sh as nat);
    vstd::arithmetic::power2::lemma_pow2_unfold(sh as nat);
    vstd::arithmetic::power2::lemma_pow2_unfold((sh + 1) as nat);
    assert(spec_recon_qidx(l, state) == 2 * l);
    assert(2 * l * factor + pow2(sh as nat) == 2 * y) by (nonlinear_arith)
        requires
            y == l * factor + pow2((sh - 1) as nat),
            pow2(sh as nat) == 2 * pow2((sh - 1) as nat),
    ;
    let q = y / p;
    let r = y % p;
    vstd::arithmetic::div_mod::lemma_fundamental_div_mod(y, p);
    vstd::arithmetic::div_mod::lemma_mod_bound(y, p);
    assert(2 * y == q * (2 * p) + 2 * r) by (nonlinear_arith)
        requires
            y == p * q + r,
    ;
    vstd::arithmetic::div_mod::lemma_fundamental_div_mod_converse(2 * y, 2 * p, q, 2 * r);
}

/// The quantization and dequantization scales are inverse: each product is
/// `2^20` to within 32, in the plain and the half-octave (`√2`) tables; the
/// `√2` tables are the plain ones three steps on, and three more steps halve
/// the quantization scale and double the dequantization scale.
pub proof fn lemma_scale_tables()
    ensures
        forall|i: int| 0 <= i < 6 ==> -32 <= #[trigger] QUANT_SCALE[i] * DEQUANT_SCALE[i] - 0x10_0000 <= 32,
        forall|i: int| 0 <= i < 6 ==> -32 <= #[trigger] QUANT_SCALE_SQRT[i] * DEQUANT_SCALE_SQRT[i] - 0x10_0000 <= 32,
        forall|i: int| 0 <= i < 3 ==> #[trigger] QUANT_SCALE_SQRT[i] == QUANT_SCALE[i + 3] && DEQUANT_SCALE_SQRT[i] == DEQUANT_SCALE[i + 3],
        forall|i: int| 0 <= i < 3 ==> 2 * #[trigger] QUANT_SCALE_SQRT[i + 3] == QUANT_SCALE[i] && DEQUANT_SCALE_SQRT[i + 3] == 2 * DEQUANT_SCALE[i],
{
    assert forall|i: int| 0 <= i < 6 implies -32 <= #[trigger] QUANT_SCALE[i] * DEQUANT_SCALE[i] - 0x10_0000 <= 32 by {
        if i == 0 {} else if i == 1 {} else if i == 2 {} else if i == 3 {} else if i == 4 {} else if i == 5 {}
    }
    assert(QUANT_SCALE_SQRT[0] == 18396 && DEQUANT_SCALE_SQRT[0] == 57);
    assert(18396int * 57int == 1048572);
    assert(QUANT_SCALE_SQRT[1] == 16384 && DEQUANT_SCALE_SQRT[1] == 64);
    assert(16384int * 64int == 1048576);
    assert(QUANT_SCALE_SQRT[2] == 14564 && DEQUANT_SCALE_SQRT[2] == 72);
    assert(14564int * 72int == 1048608);
    assert(QUANT_SCALE_SQRT[3] == 13107 && DEQUANT_SCALE_SQRT[3] == 80);
    assert(13107int * 80int == 1048560);
    assert(QUANT_SCALE_SQRT[4] == 11651 && DEQUANT_SCALE_SQRT[4] == 90);
    assert(11651int * 90int == 1048590);
    assert(QUANT_SCALE_SQRT[5] == 10280 && DEQUANT_SCALE_SQRT[5] == 102);
    assert(10280int * 102int == 1048560);
    assert forall|i: int| 0 <= i < 6 implies -32 <= #[trigger] QUANT_SCALE_SQRT[i] * DEQUANT_SCALE_SQRT[i] - 0x10_0000 <= 32 by {
        if i == 0 {} else if i == 1 {} else if i == 2 {} else if i == 3 {} else if i == 4 {} else if i == 5 {}
    }
    assert forall|i: int| 0 <= i < 3 implies #[trigger] QUANT_SCALE_SQRT[i] == QUANT_SCALE[i + 3] && DEQUANT_SCALE_SQRT[i] == DEQUANT_SCALE[i + 3] by {
        if i == 0 {} else if i == 1 {} else if i == 2 {}
    }
    assert forall|i: int| 0 <= i < 3 implies 2 * #[trigger] QUANT_SCALE_SQRT[i + 3] == QUANT_SCALE[i] && DEQUANT_SCALE_SQRT[i + 3] == 2 * DEQUANT_SCALE[i] by {
        if i == 0 {} else if i == 1 {} else if i == 2 {}
    }
}

} // verus!
