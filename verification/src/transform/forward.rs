//! The forward separable transform.
use vstd::prelude::*;
use vstd::arithmetic::power2::pow2;
use crate::arith::{asr64, floor_shr};
use crate::predict::{block_dim_ok, log2_dim, trailing_zeros};
use super::basis::{
    MAX_TB, lemma_tdot_ext, dot_row, kept_count, kept_mts, lemma_dims, lemma_raster, lemma_shr_mag, residual_ok, tdot,
    tr_geometry_ok, tr_rows, tr_size_ok,
};

verus! {
/// First forward pass shift: `log2(w) + bitDepth - 9`.
pub open spec fn fwd_shift1(w: int, bd: int) -> int {
    log2_dim(w) + bd - 9
}

/// First (horizontal) forward pass: basis row `i` of size `w` against row `j`
/// of the residual, rounded and shifted when the shift is positive.
#[verifier::opaque]
pub open spec fn fwd_p1(res: Seq<i32>, w: int, bd: int, tr: int, j: int, i: int) -> int {
    let s = tdot(tr, w, i, res, j * w, 1, w);
    let sh = fwd_shift1(w, bd);
    if sh > 0 {
        floor_shr(s + pow2((sh - 1) as nat), sh as nat)
    } else {
        s
    }
}

/// Second (vertical) forward pass at raster position `k` over the first-pass
/// buffer `t`: basis row `o = k / w` of size `h` against column `k % w`,
/// shifted by `log2(h) + 6`; positions outside the kept region are 0.
#[verifier::opaque]
pub open spec fn fwd_p2(t: Seq<i32>, w: int, h: int, trh: int, trv: int, k: int) -> int {
    let o = k / w;
    let i = k % w;
    if o < kept_mts(h, trv) && i < kept_mts(w, trh) {
        let sh = log2_dim(h) + 6;
        floor_shr(tdot(trv, h, o, t, i, w, h) + pow2((sh - 1) as nat), sh as nat)
    } else {
        0
    }
}

/// The first-pass buffer of a residual (kept columns only; the rest 0).
pub open spec fn fwd_p1_seq(res: Seq<i32>, w: int, h: int, bd: int, tr: int) -> Seq<i32> {
    Seq::new((w * h) as nat, |k: int| if k % w < kept_mts(w, tr) { fwd_p1(res, w, bd, tr, k / w, k % w) as i32 } else { 0i32 })
}

/// Forward transform coefficient at raster position `k`.
pub open spec fn fwd_coeff(res: Seq<i32>, w: int, h: int, bd: int, trh: int, trv: int, k: int) -> int {
    fwd_p2(fwd_p1_seq(res, w, h, bd, trh), w, h, trh, trv, k)
}




/// One first-pass output (see [`fwd_p1`]).
fn fwd_p1_at(res: &[i32], w: usize, h: usize, bd: u8, tr: u8, x: usize, y: usize, shift1: i32) -> (v: i32)
    requires
        tr_size_ok(tr as int, w as int),
        block_dim_ok(w as int),
        w >= 4,
        x < tr_rows(w as int),
        y < h,
        h <= 64,
        1 <= bd <= 16,
        shift1 == fwd_shift1(w as int, bd as int),
        pow2(log2_dim(w as int) as nat) == w,
        residual_ok(res@, w * h, bd as int),
    ensures
        v as int == fwd_p1(res@, w as int, bd as int, tr as int, y as int, x as int),
        -0x2_0000 <= v <= 0x2_0000,
{
    reveal(fwd_p1);
    proof {
        vstd::arithmetic::power2::lemma2_to64();
        vstd::arithmetic::power2::lemma_pow2_strictly_increases(bd as nat, 28);
        assert(y * w + w <= w * h) by (nonlinear_arith)
            requires
                y < h,
        ;
        assert(w * h <= 64 * 64) by (nonlinear_arith)
            requires
                w <= 64,
                h <= 64,
        ;
        assert forall|q: int| 0 <= q < w implies -pow2(bd as nat) <= #[trigger] res@[y * w + q * 1] <= pow2(bd as nat) by {
            assert(y * w + q * 1 < w * h);
        }
    }
    let s = dot_row(tr, w, x, res, y * w, 1, w, Ghost(pow2(bd as nat) as int));
    proof {
        lemma_fwd1_bound(s as int, w as int, bd as int, shift1 as int);
    }
    if shift1 > 0 {
        let add1 = (1u64 << ((shift1 - 1) as u64)) as i64;
        asr64(s + add1, shift1 as u32) as i32
    } else {
        s as i32
    }
}

/// Forward MTS pass 1: horizontal transform of type `tr_hor` (size `w`) of
/// every residual row, writing the kept outputs `tmp[j·w + i]`,
/// `i < kept(w)`; other entries of `tmp` are left as they were.
#[verifier::rlimit(40)]
pub fn fwd_mts_pass1_into(tmp: &mut [i32], res: &[i32], w: usize, h: usize, bit_depth: u8, tr_hor: u8)
    requires
        tr_size_ok(tr_hor as int, w as int),
        h == 4 || h == 8 || h == 16 || h == 32 || h == 64,
        1 <= bit_depth <= 16,
        old(tmp).len() >= w * h,
        residual_ok(res@, w * h, bit_depth as int),
    ensures
        final(tmp).len() == old(tmp).len(),
        forall|k: int|
            0 <= k < w * h ==> final(tmp)[k] == if k % (w as int) < kept_mts(w as int, tr_hor as int) {
                fwd_p1(res@, w as int, bit_depth as int, tr_hor as int, k / (w as int), k % (w as int)) as i32
            } else {
                old(tmp)[k]
            },
        forall|k: int|
            0 <= k < w * h && k % (w as int) < kept_mts(w as int, tr_hor as int) ==> -0x2_0000 <= #[trigger] final(tmp)[k]
                <= 0x2_0000,
        forall|k: int| w * h <= k < final(tmp).len() ==> final(tmp)[k] == old(tmp)[k],
{
    proof {
        lemma_dims(w as int, h as int, tr_hor as int, 0);
    }
    let kw = kept_count(w, tr_hor);
    let log2w = trailing_zeros(w) as i32;
    proof {
        crate::predict::lemma_tz_dim(w as int);
    }
    let shift1 = log2w + bit_depth as i32 - 9;
    let n = w * h;
    let bd = bit_depth;
    let mut k: usize = 0;
    while k < n
        invariant
            n == w * h,
            1 <= n <= 4096,
            h <= 64,
            k <= n,
            tr_size_ok(tr_hor as int, w as int),
            block_dim_ok(w as int),
            kw == kept_mts(w as int, tr_hor as int),
            1 <= kw <= w,
            kw <= tr_rows(w as int),
            pow2(log2_dim(w as int) as nat) == w,
            log2w == log2_dim(w as int),
            shift1 == fwd_shift1(w as int, bd as int),
            1 <= bd <= 16,
            tmp.len() == old(tmp).len(),
            old(tmp).len() >= n,
            residual_ok(res@, n as int, bd as int),
            forall|q: int|
                0 <= q < k ==> tmp[q] == if q % (w as int) < kw {
                    fwd_p1(res@, w as int, bd as int, tr_hor as int, q / (w as int), q % (w as int)) as i32
                } else {
                    old(tmp)[q]
                },
            forall|q: int| 0 <= q < k && q % (w as int) < kw ==> -0x2_0000 <= #[trigger] tmp[q] <= 0x2_0000,
            forall|q: int| k <= q < tmp.len() ==> tmp[q] == old(tmp)[q],
        decreases n - k,
    {
        let x = k % w;
        let y = k / w;
        proof {
            lemma_raster(k as int, w as int, h as int);
        }
        if x < kw {
            let v = fwd_p1_at(res, w, h, bd, tr_hor, x, y, shift1);
            tmp[k] = v;
        }
        k += 1;
    }
}

proof fn lemma_fwd1_bound(s: int, w: int, bd: int, sh: int)
    requires
        block_dim_ok(w),
        w >= 4,
        1 <= bd <= 16,
        sh == fwd_shift1(w, bd),
        pow2(log2_dim(w) as nat) == w,
        -(w * 128 * pow2(bd as nat)) <= s <= w * 128 * pow2(bd as nat),
    ensures
        sh > 0 ==> 1u64 << ((sh - 1) as u64) == pow2((sh - 1) as nat),
        sh > 0 ==> -0x2_0000 <= floor_shr(s + pow2((sh - 1) as nat), sh as nat) <= 0x2_0000,
        sh <= 0 ==> -0x2_0000 <= s <= 0x2_0000,
        -0x2000_0000 <= s <= 0x2000_0000,
{
    let lw = log2_dim(w) as nat;
    let b = bd as nat;
    lemma_pow2_prod(w, lw, b);
    vstd::arithmetic::power2::lemma2_to64();
    if lw + b + 7 < 29 {
        vstd::arithmetic::power2::lemma_pow2_strictly_increases(lw + b + 7, 29);
    }
    if sh > 0 {
        lemma_fwd1_shifted(s, lw, b, sh as nat);
    } else {
        if lw + b + 7 < 16 {
            vstd::arithmetic::power2::lemma_pow2_strictly_increases(lw + b + 7, 16);
        }
    }
}

proof fn lemma_pow2_prod(w: int, lw: nat, b: nat)
    requires
        pow2(lw) == w,
    ensures
        w * 128 * pow2(b) == pow2(lw + b + 7),
{
    vstd::arithmetic::power2::lemma_pow2_adds(lw, b);
    vstd::arithmetic::power2::lemma_pow2_adds(lw + b, 7);
    vstd::arithmetic::power2::lemma2_to64();
    assert(w * 128 * pow2(b) == pow2(lw + b + 7)) by (nonlinear_arith)
        requires
            pow2(lw) == w,
            pow2(lw + b) == pow2(lw) * pow2(b),
            pow2(lw + b + 7) == pow2(lw + b) * pow2(7),
            pow2(7) == 128,
    ;
}

proof fn lemma_fwd1_shifted(s: int, lw: nat, b: nat, sn: nat)
    requires
        sn >= 1,
        lw + b == sn + 9,
        sn <= 13,
        -pow2(lw + b + 7) <= s <= pow2(lw + b + 7),
    ensures
        1u64 << ((sn - 1) as u64) == pow2((sn - 1) as nat),
        -0x2_0000 <= floor_shr(s + pow2((sn - 1) as nat), sn) <= 0x2_0000,
{
    vstd::arithmetic::power2::lemma2_to64();
    vstd::arithmetic::power2::lemma_pow2_strictly_increases((sn - 1) as nat, 63);
    vstd::bits::lemma_u64_shl_is_mul(1, (sn - 1) as u64);
    vstd::arithmetic::power2::lemma_pow2_adds(16, sn);
    vstd::arithmetic::power2::lemma_pow2_unfold(sn);
    assert(lw + b + 7 == 16 + sn);
    lemma_shr_mag(s + pow2((sn - 1) as nat), sn, 0x2_0000);
}


/// First-pass values of the kept columns are within `±2^17`.
pub open spec fn p1_bounded(t: Seq<i32>, w: int, h: int, kw: int) -> bool {
    forall|k: int| 0 <= k < w * h && k % w < kw ==> -0x2_0000 <= #[trigger] t[k] <= 0x2_0000
}

proof fn lemma_col_index(i: int, q: int, w: int, h: int)
    requires
        0 <= i < w,
        0 <= q < h,
        w >= 1,
    ensures
        0 <= i + q * w < w * h,
        (i + q * w) % w == i,
        (i + q * w) / w == q,
{
    assert(i + q * w < w * h) by (nonlinear_arith)
        requires
            0 <= i < w,
            0 <= q < h,
    ;
    assert(q * w >= 0) by (nonlinear_arith)
        requires
            q >= 0,
            w >= 1,
    ;
    vstd::arithmetic::div_mod::lemma_fundamental_div_mod_converse(i + q * w, w, q, i);
}

/// One second-pass output (see [`fwd_p2`]).
fn fwd_p2_at(tmp: &[i32], w: usize, h: usize, trh: u8, trv: u8, k: usize) -> (v: i32)
    requires
        tr_geometry_ok(w as int, h as int, trh as int, trv as int),
        tmp.len() >= w * h,
        k < w * h,
        p1_bounded(tmp@, w as int, h as int, kept_mts(w as int, trh as int)),
    ensures
        v as int == fwd_p2(tmp@, w as int, h as int, trh as int, trv as int, k as int),
        -0x8_0000 <= v <= 0x8_0000,
{
    reveal(fwd_p2);
    proof {
        lemma_dims(w as int, h as int, trh as int, trv as int);
        lemma_raster(k as int, w as int, h as int);
        vstd::arithmetic::power2::lemma2_to64();
    }
    let o = k / w;
    let i = k % w;
    let kw = kept_count(w, trh);
    let kh = kept_count(h, trv);
    if o < kh && i < kw {
        proof {
            assert forall|q: int| 0 <= q < h implies -0x2_0000 <= #[trigger] tmp@[i + q * w] <= 0x2_0000 by {
                lemma_col_index(i as int, q, w as int, h as int);
            }
            lemma_col_index(i as int, h - 1, w as int, h as int);
        }
        let s = dot_row(trv, h, o, tmp, i, w, h, Ghost(0x2_0000));
        let log2h = trailing_zeros(h);
        proof {
            crate::predict::lemma_tz_dim(h as int);
            lemma_fwd2_bound(s as int, h as int, log2h as nat);
        }
        let add2 = (1u64 << ((log2h + 5) as u64)) as i64;
        asr64(s + add2, log2h + 6) as i32
    } else {
        0
    }
}

proof fn lemma_fwd2_bound(s: int, h: int, lh: nat)
    requires
        2 <= lh <= 6,
        pow2(lh) == h,
        -(h * 128 * 0x2_0000) <= s <= h * 128 * 0x2_0000,
    ensures
        1u64 << ((lh + 5) as u64) == pow2(lh + 5),
        -0x8_0000 <= floor_shr(s + pow2(lh + 5), lh + 6) <= 0x8_0000,
{
    vstd::arithmetic::power2::lemma2_to64();
    vstd::bits::lemma_u64_shl_is_mul(1, (lh + 5) as u64);
    vstd::arithmetic::power2::lemma_pow2_unfold(lh + 6);
    vstd::arithmetic::power2::lemma_pow2_adds(lh, 6);
    assert(h * 128 * 0x2_0000 == 0x4_0000 * (h * 64)) by (nonlinear_arith);
    lemma_shr_mag(s + pow2(lh + 5), lh + 6, 0x8_0000);
}

/// Forward MTS pass 2: vertical transform of type `tr_ver` (size `h`) of the
/// kept columns of the first-pass buffer `tmp`; `out[..w·h]` is fully
/// written, zero outside the kept region.
pub fn fwd_mts_pass2_into(out: &mut [i32], tmp: &[i32], w: usize, h: usize, tr_hor: u8, tr_ver: u8)
    requires
        tr_geometry_ok(w as int, h as int, tr_hor as int, tr_ver as int),
        tmp.len() >= w * h,
        old(out).len() >= w * h,
        p1_bounded(tmp@, w as int, h as int, kept_mts(w as int, tr_hor as int)),
    ensures
        final(out).len() == old(out).len(),
        forall|k: int| 0 <= k < w * h ==> final(out)[k] as int == fwd_p2(tmp@, w as int, h as int, tr_hor as int, tr_ver as int, k),
        forall|k: int| 0 <= k < w * h ==> -0x8_0000 <= #[trigger] final(out)[k] <= 0x8_0000,
        forall|k: int| w * h <= k < final(out).len() ==> final(out)[k] == old(out)[k],
{
    proof {
        lemma_dims(w as int, h as int, tr_hor as int, tr_ver as int);
    }
    let n = w * h;
    let mut k: usize = 0;
    while k < n
        invariant
            n == w * h,
            k <= n,
            tr_geometry_ok(w as int, h as int, tr_hor as int, tr_ver as int),
            tmp.len() >= n,
            out.len() == old(out).len(),
            old(out).len() >= n,
            p1_bounded(tmp@, w as int, h as int, kept_mts(w as int, tr_hor as int)),
            forall|q: int| 0 <= q < k ==> out[q] as int == fwd_p2(tmp@, w as int, h as int, tr_hor as int, tr_ver as int, q),
            forall|q: int| 0 <= q < k ==> -0x8_0000 <= #[trigger] out[q] <= 0x8_0000,
            forall|q: int| k <= q < out.len() ==> out[q] == old(out)[q],
        decreases n - k,
    {
        out[k] = fwd_p2_at(tmp, w, h, tr_hor, tr_ver, k);
        k += 1;
    }
}


/// The second pass reads only the kept columns of its input.
proof fn lemma_p2_ext(t1: Seq<i32>, t2: Seq<i32>, w: int, h: int, trh: int, trv: int, k: int)
    requires
        tr_geometry_ok(w, h, trh, trv),
        0 <= k < w * h,
        forall|q: int| 0 <= q < w * h && q % w < kept_mts(w, trh) ==> #[trigger] t1[q] == t2[q],
    ensures
        fwd_p2(t1, w, h, trh, trv, k) == fwd_p2(t2, w, h, trh, trv, k),
{
    reveal(fwd_p2);
    lemma_dims(w, h, trh, trv);
    lemma_raster(k, w, h);
    let o = k / w;
    let i = k % w;
    if o < kept_mts(h, trv) && i < kept_mts(w, trh) {
        assert forall|q: int| 0 <= q < h implies #[trigger] t1[i + q * w] == t2[i + q * w] by {
            lemma_col_index(i, q, w, h);
        }
        lemma_tdot_ext(trv, h, o, t1, t2, i, w, h);
    }
}

/// Both forward passes through a scratch buffer.
fn fwd_two_pass(out: &mut [i32], res: &[i32], w: usize, h: usize, bit_depth: u8, tr_hor: u8, tr_ver: u8)
    requires
        tr_geometry_ok(w as int, h as int, tr_hor as int, tr_ver as int),
        1 <= bit_depth <= 16,
        residual_ok(res@, w * h, bit_depth as int),
        old(out).len() >= w * h,
    ensures
        final(out).len() == old(out).len(),
        forall|k: int|
            0 <= k < w * h ==> final(out)[k] as int == fwd_coeff(
                res@,
                w as int,
                h as int,
                bit_depth as int,
                tr_hor as int,
                tr_ver as int,
                k,
            ),
        forall|k: int| w * h <= k < final(out).len() ==> final(out)[k] == old(out)[k],
{
    proof {
        lemma_dims(w as int, h as int, tr_hor as int, tr_ver as int);
    }
    let mut tmp = vec![0i32; w * h];
    fwd_mts_pass1_into(tmp.as_mut_slice(), res, w, h, bit_depth, tr_hor);
    fwd_mts_pass2_into(out, tmp.as_slice(), w, h, tr_hor, tr_ver);
    proof {
        let p1 = fwd_p1_seq(res@, w as int, h as int, bit_depth as int, tr_hor as int);
        assert forall|k: int| 0 <= k < w * h implies final(out)[k] as int == fwd_coeff(
            res@,
            w as int,
            h as int,
            bit_depth as int,
            tr_hor as int,
            tr_ver as int,
            k,
        ) by {
            lemma_p2_ext(tmp@, p1, w as int, h as int, tr_hor as int, tr_ver as int, k);
        }
    }
}

/// Forward separable transform with independent horizontal / vertical types
/// (multiple transform selection): `out[k]` is [`fwd_coeff`] for `k < w·h`,
/// zero outside the kept top-left region; the rest of `out` is untouched.
pub fn fwd_transform_mts_into(
    out: &mut [i32],
    res: &[i32],
    w: usize,
    h: usize,
    bit_depth: u8,
    tr_hor: u8,
    tr_ver: u8,
)
    requires
        tr_geometry_ok(w as int, h as int, tr_hor as int, tr_ver as int),
        1 <= bit_depth <= 16,
        residual_ok(res@, w * h, bit_depth as int),
        old(out).len() >= w * h,
    ensures
        final(out).len() == old(out).len(),
        forall|k: int|
            0 <= k < w * h ==> final(out)[k] as int == fwd_coeff(
                res@,
                w as int,
                h as int,
                bit_depth as int,
                tr_hor as int,
                tr_ver as int,
                k,
            ),
        forall|k: int| w * h <= k < final(out).len() ==> final(out)[k] == old(out)[k],
{
    if tr_hor == 0 && tr_ver == 0 {
        fwd_transform_wh_into(out, res, w, h, bit_depth);
    } else {
        fwd_two_pass(out, res, w, h, bit_depth, tr_hor, tr_ver);
    }
}

/// Forward DCT-II transform of a `w × h` residual (each side 4 to 64) into
/// `out[..w·h]`; a 64-long side keeps its first 32 coefficients.
pub fn fwd_transform_wh_into(out: &mut [i32], res: &[i32], w: usize, h: usize, bit_depth: u8)
    requires
        tr_geometry_ok(w as int, h as int, 0, 0),
        1 <= bit_depth <= 16,
        residual_ok(res@, w * h, bit_depth as int),
        old(out).len() >= w * h,
    ensures
        final(out).len() == old(out).len(),
        forall|k: int|
            0 <= k < w * h ==> final(out)[k] as int == fwd_coeff(res@, w as int, h as int, bit_depth as int, 0, 0, k),
        forall|k: int| w * h <= k < final(out).len() ==> final(out)[k] == old(out)[k],
{
    fwd_two_pass(out, res, w, h, bit_depth, 0, 0);
}

/// [`fwd_transform_wh_into`] into a fresh `MAX_TB` buffer (zero past `w·h`).
pub fn fwd_transform_wh(res: &[i32], w: usize, h: usize, bit_depth: u8) -> (r: Vec<i32>)
    requires
        tr_geometry_ok(w as int, h as int, 0, 0),
        1 <= bit_depth <= 16,
        residual_ok(res@, w * h, bit_depth as int),
    ensures
        r.len() == MAX_TB,
        forall|k: int|
            0 <= k < w * h ==> r[k] as int == fwd_coeff(res@, w as int, h as int, bit_depth as int, 0, 0, k),
        forall|k: int| w * h <= k < MAX_TB ==> r[k] == 0,
{
    proof {
        lemma_dims(w as int, h as int, 0, 0);
    }
    let mut out = vec![0i32; MAX_TB];
    fwd_transform_wh_into(out.as_mut_slice(), res, w, h, bit_depth);
    out
}

/// Square forward transform of an `n × n` residual into `out[..n·n]`.
pub fn fwd_transform_into(out: &mut [i32], res: &[i32], n: usize, bit_depth: u8)
    requires
        tr_size_ok(0, n as int),
        1 <= bit_depth <= 16,
        residual_ok(res@, n * n, bit_depth as int),
        old(out).len() >= n * n,
    ensures
        final(out).len() == old(out).len(),
        forall|k: int|
            0 <= k < n * n ==> final(out)[k] as int == fwd_coeff(res@, n as int, n as int, bit_depth as int, 0, 0, k),
        forall|k: int| n * n <= k < final(out).len() ==> final(out)[k] == old(out)[k],
{
    fwd_transform_wh_into(out, res, n, n, bit_depth);
}

/// [`fwd_transform_into`] into a fresh `MAX_TB` buffer (zero past `n·n`).
pub fn fwd_transform(res: &[i32], n: usize, bit_depth: u8) -> (r: Vec<i32>)
    requires
        tr_size_ok(0, n as int),
        1 <= bit_depth <= 16,
        residual_ok(res@, n * n, bit_depth as int),
    ensures
        r.len() == MAX_TB,
        forall|k: int|
            0 <= k < n * n ==> r[k] as int == fwd_coeff(res@, n as int, n as int, bit_depth as int, 0, 0, k),
        forall|k: int| n * n <= k < MAX_TB ==> r[k] == 0,
{
    fwd_transform_wh(res, n, n, bit_depth)
}

/// High-frequency zero-out: every coefficient outside the kept top-left
/// `kept(w) × kept(h)` region is 0.
pub proof fn lemma_fwd_zero_out(res: Seq<i32>, w: int, h: int, bd: int, trh: int, trv: int, k: int)
    requires
        tr_geometry_ok(w, h, trh, trv),
        0 <= k < w * h,
        k / w >= kept_mts(h, trv) || k % w >= kept_mts(w, trh),
    ensures
        fwd_coeff(res, w, h, bd, trh, trv, k) == 0,
{
    reveal(fwd_p2);
}

} // verus!
