//! Core matrices access and the integer dot products the transforms are built
//! from.
use vstd::prelude::*;
use vstd::arithmetic::power2::pow2;
use crate::arith::floor_shr;
use crate::predict::{block_dim_ok, lemma_div_below, log2_dim};
use super::tables::{
    DCT816, DCT832, DCT84, DCT88, DST716, DST732, DST74, DST78, T16, T32, T4, T64_HALF, T8,
};

verus! {


/// Largest transform block: 64 × 64 coefficients.
pub const MAX_TB: usize = 4096;

// ---------------------------------------------------------------------------
// Core matrices
// ---------------------------------------------------------------------------
/// A transform size valid for transform type `tr` (0 = DCT-II, 1 = DST-VII,
/// 2 = DCT-VIII): 4 to 64 for DCT-II, 4 to 32 for the others.
pub open spec fn tr_size_ok(tr: int, n: int) -> bool {
    &&& 0 <= tr <= 2
    &&& (n == 4 || n == 8 || n == 16 || n == 32 || (tr == 0 && n == 64))
}

/// Entry `(k, i)` of the core matrix of type `tr` and size `n`.
#[verifier::opaque]
pub open spec fn tcoef(tr: int, n: int, k: int, i: int) -> int {
    if tr == 0 {
        if n == 4 {
            T4[k][i] as int
        } else if n == 8 {
            T8[k][i] as int
        } else if n == 16 {
            T16[k][i] as int
        } else if n == 32 {
            T32[k][i] as int
        } else if i < 32 {
            T64_HALF[k][i] as int
        } else if k % 2 == 0 {
            T64_HALF[k][63 - i] as int
        } else {
            -(T64_HALF[k][63 - i] as int)
        }
    } else if tr == 1 {
        if n == 4 {
            DST74[k][i] as int
        } else if n == 8 {
            DST78[k][i] as int
        } else if n == 16 {
            DST716[k][i] as int
        } else {
            DST732[k][i] as int
        }
    } else {
        if n == 4 {
            DCT84[k][i] as int
        } else if n == 8 {
            DCT88[k][i] as int
        } else if n == 16 {
            DCT816[k][i] as int
        } else {
            DCT832[k][i] as int
        }
    }
}

/// Number of matrix rows stored for a type and size.
pub open spec fn tr_rows(n: int) -> int {
    if n == 64 { 32 } else { n }
}

/// Entry `(k, i)` of a core matrix.
#[verifier::rlimit(40)]
pub fn coef(tr: u8, n: usize, k: usize, i: usize) -> (r: i32)
    requires
        tr_size_ok(tr as int, n as int),
        k < tr_rows(n as int),
        i < n,
    ensures
        r == tcoef(tr as int, n as int, k as int, i as int),
        -128 <= r <= 127,
{
    reveal(tcoef);
    if tr == 0 {
        if n == 4 {
            T4[k][i] as i32
        } else if n == 8 {
            T8[k][i] as i32
        } else if n == 16 {
            T16[k][i] as i32
        } else if n == 32 {
            T32[k][i] as i32
        } else if i < 32 {
            T64_HALF[k][i] as i32
        } else if k % 2 == 0 {
            T64_HALF[k][63 - i] as i32
        } else {
            -(T64_HALF[k][63 - i] as i32)
        }
    } else if tr == 1 {
        if n == 4 {
            DST74[k][i] as i32
        } else if n == 8 {
            DST78[k][i] as i32
        } else if n == 16 {
            DST716[k][i] as i32
        } else {
            DST732[k][i] as i32
        }
    } else {
        if n == 4 {
            DCT84[k][i] as i32
        } else if n == 8 {
            DCT88[k][i] as i32
        } else if n == 16 {
            DCT816[k][i] as i32
        } else {
            DCT832[k][i] as i32
        }
    }
}

/// Non-zero coefficients along a dimension of length `n` under transform type
/// `tr`: 64 keeps 32, a 32-point DST-VII / DCT-VIII keeps 16, others keep all.
pub open spec fn kept_mts(n: int, tr: int) -> int {
    if tr != 0 && n == 32 {
        16
    } else if n == 64 {
        32
    } else {
        n
    }
}

pub fn kept_count(n: usize, tr: u8) -> (r: usize)
    ensures
        r == kept_mts(n as int, tr as int),
{
    if tr != 0 && n == 32 {
        16
    } else if n == 64 {
        32
    } else {
        n
    }
}

/// `Σ_{k<m} T[row][k] · s[base + k·stride]`: a basis row against samples.
pub open spec fn tdot(tr: int, n: int, row: int, s: Seq<i32>, base: int, stride: int, m: int) -> int
    decreases m,
{
    if m <= 0 {
        0
    } else {
        tdot(tr, n, row, s, base, stride, m - 1) + tcoef(tr, n, row, m - 1) * s[base + (m - 1) * stride] as int
    }
}

/// `Σ_{k<m} T[k][col] · s[base + k·stride]`: the transposed product.
pub open spec fn tdot_t(tr: int, n: int, col: int, s: Seq<i32>, base: int, stride: int, m: int) -> int
    decreases m,
{
    if m <= 0 {
        0
    } else {
        tdot_t(tr, n, col, s, base, stride, m - 1) + tcoef(tr, n, m - 1, col) * s[base + (m - 1) * stride] as int
    }
}

pub proof fn lemma_prod_bound(c: int, v: int, b: int)
    requires
        -128 <= c <= 128,
        -b <= v <= b,
    ensures
        -128 * b <= c * v <= 128 * b,
{
    assert(-128 * b <= c * v <= 128 * b) by (nonlinear_arith)
        requires
            -128 <= c <= 128,
            -b <= v <= b,
    ;
}

proof fn lemma_dot_index(base: int, k: int, m: int, stride: int, len: int)
    requires
        0 <= k < m,
        0 <= base,
        0 <= stride,
        base + (m - 1) * stride < len,
    ensures
        0 <= base + k * stride < len,
{
    assert(k * stride <= (m - 1) * stride) by (nonlinear_arith)
        requires
            k <= m - 1,
            stride >= 0,
    ;
    assert(k * stride >= 0) by (nonlinear_arith)
        requires
            k >= 0,
            stride >= 0,
    ;
}

proof fn lemma_dot_acc(c: int, v: int, b: int, k: int, m: int, acc: int)
    requires
        -128 <= c <= 128,
        -b <= v <= b,
        0 <= b <= 0x1000_0000,
        0 <= k < m <= 64,
        -(k * 128 * b) <= acc <= k * 128 * b,
    ensures
        -((k + 1) * 128 * b) <= acc + c * v <= (k + 1) * 128 * b,
        (k + 1) * 128 * b <= 0x200_0000_0000,
        -128 * b <= c * v <= 128 * b,
{
    lemma_prod_bound(c, v, b);
    assert((k + 1) * 128 * b == k * 128 * b + 128 * b) by (nonlinear_arith);
    assert((k + 1) * 128 * b <= 64 * 128 * 0x1000_0000) by (nonlinear_arith)
        requires
            k + 1 <= 64,
            0 <= b <= 0x1000_0000,
    ;
}

/// Dot product of basis row `row` of a core matrix with `m` samples
/// `s[base + k·stride]`.
pub fn dot_row(
    tr: u8,
    n: usize,
    row: usize,
    s: &[i32],
    base: usize,
    stride: usize,
    m: usize,
    Ghost(b): Ghost<int>,
) -> (r: i64)
    requires
        tr_size_ok(tr as int, n as int),
        m <= n,
        row < tr_rows(n as int),
        0 <= b <= 0x1000_0000,
        m > 0 ==> base + (m - 1) * stride < s.len(),
        forall|k: int| 0 <= k < m ==> -b <= #[trigger] s[base + k * stride] <= b,
    ensures
        r == tdot(tr as int, n as int, row as int, s@, base as int, stride as int, m as int),
        -(m * 128 * b) <= r <= m * 128 * b,
{
    let mut acc: i64 = 0;
    let mut k: usize = 0;
    while k < m
        invariant
            k <= m,
            tr_size_ok(tr as int, n as int),
            m <= n,
            row < tr_rows(n as int),
            0 <= b <= 0x1000_0000,
            m > 0 ==> base + (m - 1) * stride < s.len(),
            forall|j: int| 0 <= j < m ==> -b <= #[trigger] s[base + j * stride] <= b,
            acc == tdot(tr as int, n as int, row as int, s@, base as int, stride as int, k as int),
            -(k * 128 * b) <= acc <= k * 128 * b,
        decreases m - k,
    {
        proof {
            lemma_dot_index(base as int, k as int, m as int, stride as int, s.len() as int);
        }
        let v = s[base + k * stride];
        let c = coef(tr, n, row, k);
        proof {
            lemma_dot_acc(c as int, v as int, b, k as int, m as int, acc as int);
        }
        acc = acc + (c as i64) * (v as i64);
        k += 1;
    }
    acc
}

/// Dot product of column `row` of a core matrix (the first `m` basis rows)
/// with `m` samples `s[base + k·stride]`.
pub fn dot_col(
    tr: u8,
    n: usize,
    row: usize,
    s: &[i32],
    base: usize,
    stride: usize,
    m: usize,
    Ghost(b): Ghost<int>,
) -> (r: i64)
    requires
        tr_size_ok(tr as int, n as int),
        m <= tr_rows(n as int),
        row < n,
        0 <= b <= 0x1000_0000,
        m > 0 ==> base + (m - 1) * stride < s.len(),
        forall|k: int| 0 <= k < m ==> -b <= #[trigger] s[base + k * stride] <= b,
    ensures
        r == tdot_t(tr as int, n as int, row as int, s@, base as int, stride as int, m as int),
        -(m * 128 * b) <= r <= m * 128 * b,
{
    let mut acc: i64 = 0;
    let mut k: usize = 0;
    while k < m
        invariant
            k <= m,
            tr_size_ok(tr as int, n as int),
            m <= tr_rows(n as int),
            row < n,
            0 <= b <= 0x1000_0000,
            m > 0 ==> base + (m - 1) * stride < s.len(),
            forall|j: int| 0 <= j < m ==> -b <= #[trigger] s[base + j * stride] <= b,
            acc == tdot_t(tr as int, n as int, row as int, s@, base as int, stride as int, k as int),
            -(k * 128 * b) <= acc <= k * 128 * b,
        decreases m - k,
    {
        proof {
            lemma_dot_index(base as int, k as int, m as int, stride as int, s.len() as int);
        }
        let v = s[base + k * stride];
        let c = coef(tr, n, k, row);
        proof {
            lemma_dot_acc(c as int, v as int, b, k as int, m as int, acc as int);
        }
        acc = acc + (c as i64) * (v as i64);
        k += 1;
    }
    acc
}


/// `|x| <= m·2^sh` bounds the floor shift by `m`.
pub proof fn lemma_shr_mag(x: int, sh: nat, m: int)
    requires
        m >= 0,
        -m * pow2(sh) <= x <= m * pow2(sh),
    ensures
        -m <= floor_shr(x, sh) <= m,
{
    vstd::arithmetic::power2::lemma_pow2_pos(sh);
    let p = pow2(sh) as int;
    vstd::arithmetic::div_mod::lemma_div_is_ordered(x, m * p, p);
    vstd::arithmetic::div_mod::lemma_div_is_ordered(-m * p, x, p);
    vstd::arithmetic::div_mod::lemma_div_multiples_vanish(m, p);
    vstd::arithmetic::div_mod::lemma_div_multiples_vanish(-m, p);
    assert(-m * p == (-m) * p) by (nonlinear_arith);
}


/// A transform geometry: `w × h` with sizes valid for the horizontal type
/// `trh` and the vertical type `trv`.
pub open spec fn tr_geometry_ok(w: int, h: int, trh: int, trv: int) -> bool {
    &&& tr_size_ok(trh, w)
    &&& tr_size_ok(trv, h)
}


/// Residual samples within `±2^bd`.
pub open spec fn residual_ok(res: Seq<i32>, n: int, bd: int) -> bool {
    &&& res.len() >= n
    &&& forall|k: int| 0 <= k < n ==> -pow2(bd as nat) <= #[trigger] res[k] <= pow2(bd as nat)
}

pub proof fn lemma_tdot_ext(tr: int, n: int, row: int, s1: Seq<i32>, s2: Seq<i32>, base: int, stride: int, m: int)
    requires
        forall|k: int| 0 <= k < m ==> #[trigger] s1[base + k * stride] == s2[base + k * stride],
    ensures
        tdot(tr, n, row, s1, base, stride, m) == tdot(tr, n, row, s2, base, stride, m),
    decreases m,
{
    if m > 0 {
        lemma_tdot_ext(tr, n, row, s1, s2, base, stride, m - 1);
    }
}

pub proof fn lemma_raster(k: int, w: int, h: int)
    requires
        0 <= k < w * h,
        w >= 1,
    ensures
        0 <= k / w < h,
        0 <= k % w < w,
        (k / w) * w + k % w == k,
        (k / w) * w + w <= w * h,
{
    vstd::arithmetic::div_mod::lemma_fundamental_div_mod(k, w);
    vstd::arithmetic::div_mod::lemma_mod_bound(k, w);
    assert(w * h == h * w) by (nonlinear_arith);
    assert(w * (k / w) == (k / w) * w) by (nonlinear_arith);
    lemma_div_below(k, w, h);
    assert((k / w) * w + w <= w * h) by (nonlinear_arith)
        requires
            k / w < h,
            w >= 1,
    ;
}

pub proof fn lemma_dims(w: int, h: int, trh: int, trv: int)
    requires
        tr_geometry_ok(w, h, trh, trv),
    ensures
        block_dim_ok(w),
        block_dim_ok(h),
        1 <= w * h <= 4096,
        w * h == h * w,
        pow2(log2_dim(w) as nat) == w,
        pow2(log2_dim(h) as nat) == h,
        2 <= log2_dim(w) <= 6,
        2 <= log2_dim(h) <= 6,
        1 <= kept_mts(w, trh) <= w,
        1 <= kept_mts(h, trv) <= h,
        kept_mts(w, trh) <= tr_rows(w),
        kept_mts(h, trv) <= tr_rows(h),
{
    vstd::arithmetic::power2::lemma2_to64();
    assert(w * h == h * w) by (nonlinear_arith);
    assert(1 <= w * h <= 4096) by (nonlinear_arith)
        requires
            4 <= w <= 64,
            4 <= h <= 64,
    ;
}
} // verus!
