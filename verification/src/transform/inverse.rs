//! The inverse separable transform: a vertical pass over the kept columns
//! with a 16-bit clip, then a horizontal pass shifted by `20 - bitDepth`.
use vstd::prelude::*;
use vstd::arithmetic::power2::pow2;
use crate::arith::{asr64, clamp_i64, floor_shr, spec_clamp};
use super::basis::{
    MAX_TB, dot_col, kept_count, kept_mts, lemma_dims, lemma_raster, tdot_t, tr_geometry_ok,
    tr_size_ok,
};

verus! {

/// Coefficients within the range the inverse accepts (`±2^18`).
pub open spec fn coeff_ok(c: Seq<i32>, n: int) -> bool {
    &&& c.len() >= n
    &&& forall|k: int| 0 <= k < n ==> -0x4_0000 <= #[trigger] c[k] <= 0x4_0000
}

/// Clip to the signed 16-bit range.
pub open spec fn clip16(v: int) -> int {
    spec_clamp(v, -32768, 32767)
}

/// First (vertical) inverse pass at raster position `k = n·w + i`: column `n`
/// of the size-`h` matrix against the kept coefficients of column `i`,
/// rounded by 7 bits and clipped; columns past the kept width are 0.
#[verifier::opaque]
pub open spec fn inv_p1(c: Seq<i32>, w: int, h: int, trh: int, trv: int, k: int) -> int {
    let n = k / w;
    let i = k % w;
    if i < kept_mts(w, trh) {
        clip16(floor_shr(tdot_t(trv, h, n, c, i, w, kept_mts(h, trv)) + 64, 7))
    } else {
        0
    }
}

/// The first-pass buffer of a coefficient block.
pub open spec fn inv_p1_seq(c: Seq<i32>, w: int, h: int, trh: int, trv: int) -> Seq<i32> {
    Seq::new((w * h) as nat, |k: int| inv_p1(c, w, h, trh, trv, k) as i32)
}

/// Second (horizontal) inverse pass at raster position `k = row·w + n`.
#[verifier::opaque]
pub open spec fn inv_p2(t: Seq<i32>, w: int, trh: int, bd: int, k: int) -> int {
    let row = k / w;
    let n = k % w;
    let sh = 20 - bd;
    floor_shr(tdot_t(trh, w, n, t, row * w, 1, kept_mts(w, trh)) + pow2((sh - 1) as nat), sh as nat)
}

/// Reconstructed residual sample at raster position `k`.
pub open spec fn inv_sample(c: Seq<i32>, w: int, h: int, bd: int, trh: int, trv: int, k: int) -> int {
    inv_p2(inv_p1_seq(c, w, h, trh, trv), w, trh, bd, k)
}

proof fn lemma_col(i: int, q: int, w: int, h: int)
    requires
        0 <= i < w,
        0 <= q < h,
    ensures
        0 <= i + q * w < w * h,
{
    assert(0 <= i + q * w < w * h) by (nonlinear_arith)
        requires
            0 <= i < w,
            0 <= q < h,
    ;
}

proof fn lemma_dot_bound(s: int, m: int, b: int)
    requires
        0 <= m <= 32,
        0 <= b,
        -(m * 128 * b) <= s <= m * 128 * b,
    ensures
        -(4096 * b) <= s <= 4096 * b,
{
    assert(m * 128 * b <= 4096 * b) by (nonlinear_arith)
        requires
            0 <= m <= 32,
            0 <= b,
    ;
}

/// One first-pass output.
fn inv_p1_at(coeff: &[i32], w: usize, h: usize, trh: u8, trv: u8, k: usize) -> (v: i32)
    requires
        tr_geometry_ok(w as int, h as int, trh as int, trv as int),
        coeff_ok(coeff@, w * h),
        k < w * h,
    ensures
        v as int == inv_p1(coeff@, w as int, h as int, trh as int, trv as int, k as int),
        -32768 <= v <= 32767,
{
    reveal(inv_p1);
    proof {
        lemma_dims(w as int, h as int, trh as int, trv as int);
        lemma_raster(k as int, w as int, h as int);
    }
    let n = k / w;
    let i = k % w;
    let kw = kept_count(w, trh);
    let kh = kept_count(h, trv);
    if i < kw {
        proof {
            assert forall|q: int| 0 <= q < kh implies -0x4_0000 <= #[trigger] coeff@[i + q * w]
                <= 0x4_0000 by {
                lemma_col(i as int, q, w as int, h as int);
            }
            lemma_col(i as int, kh - 1, w as int, h as int);
            assert(kh <= 32) by {
                assert(tr_size_ok(trv as int, h as int));
            }
        }
        let s = dot_col(trv, h, n, coeff, i, w, kh, Ghost(0x4_0000));
        proof {
            lemma_dot_bound(s as int, kh as int, 0x4_0000);
        }
        let r = asr64(s + 64, 7);
        clamp_i64(r, -32768, 32767) as i32
    } else {
        0
    }
}

/// One second-pass output.
fn inv_p2_at(tmp: &[i32], w: usize, h: usize, trh: u8, trv: u8, bd: u8, k: usize) -> (v: i32)
    requires
        tr_geometry_ok(w as int, h as int, trh as int, trv as int),
        1 <= bd <= 16,
        tmp.len() >= w * h,
        forall|q: int| 0 <= q < w * h ==> -32768 <= #[trigger] tmp[q] <= 32767,
        k < w * h,
    ensures
        v as int == inv_p2(tmp@, w as int, trh as int, bd as int, k as int),
{
    reveal(inv_p2);
    proof {
        lemma_dims(w as int, h as int, trh as int, trv as int);
        lemma_raster(k as int, w as int, h as int);
        vstd::arithmetic::power2::lemma2_to64();
    }
    let row = k / w;
    let n = k % w;
    let kw = kept_count(w, trh);
    proof {
        assert forall|q: int| 0 <= q < kw implies -32768 <= #[trigger] tmp@[row * w + q * 1] <= 32768 by {
            assert(row * w + q * 1 < w * h);
        }
        assert(kw <= 32) by {
            assert(tr_size_ok(trh as int, w as int));
        }
    }
    let s = dot_col(trh, w, n, tmp, row * w, 1, kw, Ghost(32768));
    proof {
        lemma_dot_bound(s as int, kw as int, 32768);
        vstd::bits::lemma_u64_shl_is_mul(1, (19 - bd) as u64);
        vstd::arithmetic::power2::lemma_pow2_strictly_increases((19 - bd) as nat, 63);
    }
    let sh = (20 - bd) as u32;
    let add = (1u64 << (sh - 1) as u64) as i64;
    proof {
        vstd::arithmetic::power2::lemma_pow2_strictly_increases((19 - bd) as nat, 20);
        crate::arith::lemma_floor_shr_bounds(s as int + add as int, sh as nat);
    }
    asr64(s + add, sh) as i32
}

/// Inverse separable transform with independent horizontal / vertical types:
/// `out[k]` is [`inv_sample`] for `k < w·h`; the rest of `out` is untouched.
pub fn inv_transform_mts_into(
    out: &mut [i32],
    coeff: &[i32],
    w: usize,
    h: usize,
    bit_depth: u8,
    tr_hor: u8,
    tr_ver: u8,
)
    requires
        tr_geometry_ok(w as int, h as int, tr_hor as int, tr_ver as int),
        1 <= bit_depth <= 16,
        coeff_ok(coeff@, w * h),
        old(out).len() >= w * h,
    ensures
        final(out).len() == old(out).len(),
        forall|k: int|
            0 <= k < w * h ==> final(out)[k] as int == inv_sample(
                coeff@,
                w as int,
                h as int,
                bit_depth as int,
                tr_hor as int,
                tr_ver as int,
                k,
            ),
        forall|k: int| w * h <= k < final(out).len() ==> final(out)[k] == old(out)[k],
{
    proof {
        lemma_dims(w as int, h as int, tr_hor as int, tr_ver as int);
    }
    let n = w * h;
    let mut tmp = vec![0i32; n];
    let mut k: usize = 0;
    while k < n
        invariant
            n == w * h,
            k <= n,
            tmp.len() == n,
            tr_geometry_ok(w as int, h as int, tr_hor as int, tr_ver as int),
            coeff_ok(coeff@, w * h),
            forall|q: int|
                0 <= q < k ==> tmp[q] as int == inv_p1(coeff@, w as int, h as int, tr_hor as int, tr_ver as int, q),
            forall|q: int| 0 <= q < k ==> -32768 <= #[trigger] tmp[q] <= 32767,
        decreases n - k,
    {
        let v = inv_p1_at(coeff, w, h, tr_hor, tr_ver, k);
        tmp.set(k, v);
        k += 1;
    }
    proof {
        assert(tmp@ =~= inv_p1_seq(coeff@, w as int, h as int, tr_hor as int, tr_ver as int));
    }
    let mut k: usize = 0;
    while k < n
        invariant
            n == w * h,
            k <= n,
            tmp.len() == n,
            tmp@ == inv_p1_seq(coeff@, w as int, h as int, tr_hor as int, tr_ver as int),
            tr_geometry_ok(w as int, h as int, tr_hor as int, tr_ver as int),
            1 <= bit_depth <= 16,
            forall|q: int| 0 <= q < n ==> -32768 <= #[trigger] tmp[q] <= 32767,
            out.len() == old(out).len(),
            old(out).len() >= n,
            forall|q: int|
                0 <= q < k ==> out[q] as int == inv_sample(
                    coeff@,
                    w as int,
                    h as int,
                    bit_depth as int,
                    tr_hor as int,
                    tr_ver as int,
                    q,
                ),
            forall|q: int| k <= q < out.len() ==> out[q] == old(out)[q],
        decreases n - k,
    {
        out[k] = inv_p2_at(tmp.as_slice(), w, h, tr_hor, tr_ver, bit_depth, k);
        k += 1;
    }
}

/// Inverse DCT-II transform of a `w × h` coefficient block into `out[..w·h]`.
pub fn inv_transform_wh_into(out: &mut [i32], coeff: &[i32], w: usize, h: usize, bit_depth: u8)
    requires
        tr_geometry_ok(w as int, h as int, 0, 0),
        1 <= bit_depth <= 16,
        coeff_ok(coeff@, w * h),
        old(out).len() >= w * h,
    ensures
        final(out).len() == old(out).len(),
        forall|k: int|
            0 <= k < w * h ==> final(out)[k] as int == inv_sample(coeff@, w as int, h as int, bit_depth as int, 0, 0, k),
        forall|k: int| w * h <= k < final(out).len() ==> final(out)[k] == old(out)[k],
{
    inv_transform_mts_into(out, coeff, w, h, bit_depth, 0, 0);
}

/// [`inv_transform_wh_into`] into a fresh `MAX_TB` buffer (zero past `w·h`).
pub fn inv_transform_wh(coeff: &[i32], w: usize, h: usize, bit_depth: u8) -> (r: Vec<i32>)
    requires
        tr_geometry_ok(w as int, h as int, 0, 0),
        1 <= bit_depth <= 16,
        coeff_ok(coeff@, w * h),
    ensures
        r.len() == MAX_TB,
        forall|k: int|
            0 <= k < w * h ==> r[k] as int == inv_sample(coeff@, w as int, h as int, bit_depth as int, 0, 0, k),
        forall|k: int| w * h <= k < MAX_TB ==> r[k] == 0,
{
    proof {
        lemma_dims(w as int, h as int, 0, 0);
    }
    let mut out = vec![0i32; MAX_TB];
    inv_transform_wh_into(out.as_mut_slice(), coeff, w, h, bit_depth);
    out
}

/// Square inverse transform of an `n × n` block into `out[..n·n]`.
pub fn inv_transform_into(out: &mut [i32], coeff: &[i32], n: usize, bit_depth: u8)
    requires
        tr_size_ok(0, n as int),
        1 <= bit_depth <= 16,
        coeff_ok(coeff@, n * n),
        old(out).len() >= n * n,
    ensures
        final(out).len() == old(out).len(),
        forall|k: int|
            0 <= k < n * n ==> final(out)[k] as int == inv_sample(coeff@, n as int, n as int, bit_depth as int, 0, 0, k),
        forall|k: int| n * n <= k < final(out).len() ==> final(out)[k] == old(out)[k],
{
    inv_transform_wh_into(out, coeff, n, n, bit_depth);
}

/// [`inv_transform_into`] into a fresh `MAX_TB` buffer (zero past `n·n`).
pub fn inv_transform(coeff: &[i32], n: usize, bit_depth: u8) -> (r: Vec<i32>)
    requires
        tr_size_ok(0, n as int),
        1 <= bit_depth <= 16,
        coeff_ok(coeff@, n * n),
    ensures
        r.len() == MAX_TB,
        forall|k: int|
            0 <= k < n * n ==> r[k] as int == inv_sample(coeff@, n as int, n as int, bit_depth as int, 0, 0, k),
        forall|k: int| n * n <= k < MAX_TB ==> r[k] == 0,
{
    inv_transform_wh(coeff, n, n, bit_depth)
}

/// Transform types `(horizontal, vertical)` of a coded MTS index: 0 gives
/// DCT-II in both directions; otherwise, with `k = idx − 1`, bit 0 of `k`
/// picks the horizontal and bit 1 the vertical type, DST-VII (1) when clear
/// and DCT-VIII (2) when set.
pub open spec fn mts_types(idx: int) -> (int, int) {
    if idx == 0 {
        (0, 0)
    } else {
        let k = idx - 1;
        (if k % 2 == 1 { 2 } else { 1 }, if (k / 2) % 2 == 1 { 2 } else { 1 })
    }
}

/// Map a coded MTS index to its transform types (see [`mts_types`]).
pub fn mts_to_types(mts_idx: u8) -> (r: (u8, u8))
    ensures
        (r.0 as int, r.1 as int) == mts_types(mts_idx as int),
{
    if mts_idx == 0 {
        return (0, 0);
    }
    let k = mts_idx - 1;
    let hor = if k % 2 == 1 { 2 } else { 1 };
    let ver = if (k / 2) % 2 == 1 { 2 } else { 1 };
    (hor, ver)
}

/// Inverse MTS transform of a `w × h` block into a fresh `MAX_TB` buffer,
/// with the types of `mts_idx` (see [`mts_types`]).
pub fn inv_transform_mts_wh(coeff: &[i32], w: usize, h: usize, bit_depth: u8, mts_idx: u8) -> (r: Vec<i32>)
    requires
        tr_geometry_ok(w as int, h as int, mts_types(mts_idx as int).0, mts_types(mts_idx as int).1),
        1 <= bit_depth <= 16,
        coeff_ok(coeff@, w * h),
    ensures
        r.len() == MAX_TB,
        forall|k: int|
            0 <= k < w * h ==> r[k] as int == inv_sample(
                coeff@,
                w as int,
                h as int,
                bit_depth as int,
                mts_types(mts_idx as int).0,
                mts_types(mts_idx as int).1,
                k,
            ),
        forall|k: int| w * h <= k < MAX_TB ==> r[k] == 0,
{
    let (th, tv) = mts_to_types(mts_idx);
    proof {
        lemma_dims(w as int, h as int, th as int, tv as int);
    }
    let mut out = vec![0i32; MAX_TB];
    inv_transform_mts_into(out.as_mut_slice(), coeff, w, h, bit_depth, th, tv);
    out
}

} // verus!
