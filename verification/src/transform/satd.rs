//! Sum of absolute Hadamard-transformed differences (SATD), the fast intra
//! mode-decision cost: 8×8 Walsh–Hadamard tiles (a single 4×4 for the
//! smallest blocks), without normalization.
use vstd::prelude::*;
use super::quant::abs;

verus! {

/// 8-point Walsh–Hadamard butterfly (sequency-permuted output).
pub open spec fn h8(a: Seq<int>) -> Seq<int> {
    let b0 = a[0] + a[4];
    let b1 = a[1] + a[5];
    let b2 = a[2] + a[6];
    let b3 = a[3] + a[7];
    let b4 = a[0] - a[4];
    let b5 = a[1] - a[5];
    let b6 = a[2] - a[6];
    let b7 = a[3] - a[7];
    let c0 = b0 + b2;
    let c1 = b1 + b3;
    let c2 = b0 - b2;
    let c3 = b1 - b3;
    let c4 = b4 + b6;
    let c5 = b5 + b7;
    let c6 = b4 - b6;
    let c7 = b5 - b7;
    seq![c0 + c1, c0 - c1, c2 + c3, c2 - c3, c4 + c5, c4 - c5, c6 + c7, c6 - c7]
}

/// 4-point Walsh–Hadamard butterfly.
pub open spec fn h4(a: Seq<int>) -> Seq<int> {
    let b0 = a[0] + a[2];
    let b1 = a[1] + a[3];
    let b2 = a[0] - a[2];
    let b3 = a[1] - a[3];
    seq![b0 + b1, b0 - b1, b2 + b3, b2 - b3]
}

/// `Σ_{i<m} |s[i]|`.
pub open spec fn abs_sum(s: Seq<int>, m: int) -> int
    decreases m,
{
    if m <= 0 {
        0
    } else {
        abs_sum(s, m - 1) + abs(s[m - 1])
    }
}

/// Row `r` of the 8×8 tile at `(bx, by)` of an `n`-wide residual, transformed.
pub open spec fn had_row(res: Seq<i32>, n: int, bx: int, by: int, r: int) -> Seq<int> {
    h8(Seq::new(8, |c: int| res[(by + r) * n + bx + c] as int))
}

/// Column `c` of the row-transformed tile, transformed.
pub open spec fn had_col(res: Seq<i32>, n: int, bx: int, by: int, c: int) -> Seq<int> {
    h8(Seq::new(8, |r: int| had_row(res, n, bx, by, r)[c]))
}

/// `Σ_{c<m}` of the absolute column sums of a tile.
pub open spec fn cols_cost(res: Seq<i32>, n: int, bx: int, by: int, m: int) -> int
    decreases m,
{
    if m <= 0 {
        0
    } else {
        cols_cost(res, n, bx, by, m - 1) + abs_sum(had_col(res, n, bx, by, m - 1), 8)
    }
}

/// Hadamard cost of the 8×8 tile at `(bx, by)`.
pub open spec fn tile_cost(res: Seq<i32>, n: int, bx: int, by: int) -> int {
    cols_cost(res, n, bx, by, 8)
}

/// Cost of the first `t` tiles of an `n × n` residual in raster order.
pub open spec fn tiles_cost(res: Seq<i32>, n: int, t: int) -> int
    decreases t,
{
    if t <= 0 {
        0
    } else {
        let per = n / 8;
        let u = t - 1;
        tiles_cost(res, n, t - 1) + tile_cost(res, n, 8 * (u % per), 8 * (u / per))
    }
}

/// Row `r` of a 4×4 residual, transformed.
pub open spec fn had4_row(res: Seq<i32>, r: int) -> Seq<int> {
    h4(Seq::new(4, |c: int| res[r * 4 + c] as int))
}

/// Column `c` of the row-transformed 4×4 block, transformed.
pub open spec fn had4_col(res: Seq<i32>, c: int) -> Seq<int> {
    h4(Seq::new(4, |r: int| had4_row(res, r)[c]))
}

/// `Σ_{c<m}` of the absolute column sums of the 4×4 block.
pub open spec fn cols4_cost(res: Seq<i32>, m: int) -> int
    decreases m,
{
    if m <= 0 {
        0
    } else {
        cols4_cost(res, m - 1) + abs_sum(had4_col(res, m - 1), 4)
    }
}

/// SATD of an `n × n` residual: one 4×4 transform for `n = 4`, otherwise the
/// sum over the `(n/8)²` tiles of 8×8 transforms.
pub open spec fn satd_value(res: Seq<i32>, n: int) -> int {
    if n == 4 {
        cols4_cost(res, 4)
    } else {
        tiles_cost(res, n, (n / 8) * (n / 8))
    }
}

/// Residual magnitudes that keep every butterfly within 32 bits.
pub open spec fn satd_input_ok(res: Seq<i32>, n: int) -> bool {
    &&& res.len() >= n * n
    &&& forall|k: int| 0 <= k < n * n ==> -0x1ff_ffff <= #[trigger] res[k] <= 0x1ff_ffff
}

/// SATD is defined on a single 4×4 block or on a side that is a multiple of 8.
pub open spec fn satd_size_ok(n: int) -> bool {
    n == 4 || (8 <= n <= 4096 && n % 8 == 0)
}

/// `s` as mathematical integers.
pub open spec fn ints(s: Seq<i32>) -> Seq<int> {
    Seq::new(s.len(), |i: int| s[i] as int)
}

/// Every output of an 8-point butterfly is at most 8 times the largest input.
proof fn lemma_h8_bound(a: Seq<int>, m: int)
    requires
        a.len() == 8,
        forall|i: int| 0 <= i < 8 ==> -m <= #[trigger] a[i] <= m,
    ensures
        forall|j: int| 0 <= j < 8 ==> -8 * m <= #[trigger] h8(a)[j] <= 8 * m,
{
    assert(-m <= a[0] <= m && -m <= a[1] <= m && -m <= a[2] <= m && -m <= a[3] <= m);
    assert(-m <= a[4] <= m && -m <= a[5] <= m && -m <= a[6] <= m && -m <= a[7] <= m);
}

/// Every output of a 4-point butterfly is at most 4 times the largest input.
proof fn lemma_h4_bound(a: Seq<int>, m: int)
    requires
        a.len() == 4,
        forall|i: int| 0 <= i < 4 ==> -m <= #[trigger] a[i] <= m,
    ensures
        forall|j: int| 0 <= j < 4 ==> -4 * m <= #[trigger] h4(a)[j] <= 4 * m,
{
    assert(-m <= a[0] <= m && -m <= a[1] <= m && -m <= a[2] <= m && -m <= a[3] <= m);
}

/// An 8-point butterfly.
fn hadamard_1d_8(a: [i32; 8], Ghost(m): Ghost<int>) -> (r: [i32; 8])
    requires
        0 <= m <= 0x0fff_ffff,
        forall|i: int| 0 <= i < 8 ==> -m <= #[trigger] a[i] <= m,
    ensures
        forall|j: int| 0 <= j < 8 ==> r[j] as int == #[trigger] h8(ints(a@))[j],
        forall|j: int| 0 <= j < 8 ==> -8 * m <= #[trigger] r[j] <= 8 * m,
{
    proof {
        lemma_h8_bound(ints(a@), m);
    }
    let b0 = a[0] + a[4];
    let b1 = a[1] + a[5];
    let b2 = a[2] + a[6];
    let b3 = a[3] + a[7];
    let b4 = a[0] - a[4];
    let b5 = a[1] - a[5];
    let b6 = a[2] - a[6];
    let b7 = a[3] - a[7];
    let c0 = b0 + b2;
    let c1 = b1 + b3;
    let c2 = b0 - b2;
    let c3 = b1 - b3;
    let c4 = b4 + b6;
    let c5 = b5 + b7;
    let c6 = b4 - b6;
    let c7 = b5 - b7;
    [c0 + c1, c0 - c1, c2 + c3, c2 - c3, c4 + c5, c4 - c5, c6 + c7, c6 - c7]
}

/// A 4-point butterfly.
fn hadamard_1d_4(a: [i32; 4], Ghost(m): Ghost<int>) -> (r: [i32; 4])
    requires
        0 <= m <= 0x0fff_ffff,
        forall|i: int| 0 <= i < 4 ==> -m <= #[trigger] a[i] <= m,
    ensures
        forall|j: int| 0 <= j < 4 ==> r[j] as int == #[trigger] h4(ints(a@))[j],
        forall|j: int| 0 <= j < 4 ==> -4 * m <= #[trigger] r[j] <= 4 * m,
{
    proof {
        lemma_h4_bound(ints(a@), m);
    }
    let b0 = a[0] + a[2];
    let b1 = a[1] + a[3];
    let b2 = a[0] - a[2];
    let b3 = a[1] - a[3];
    [b0 + b1, b0 - b1, b2 + b3, b2 - b3]
}

/// Largest residual magnitude SATD accepts.
pub const SATD_MAX_INPUT: i32 = 0x1ff_ffff;

proof fn lemma_tile_index(n: int, bx: int, by: int, r: int, c: int)
    requires
        0 <= bx,
        0 <= by,
        bx + 8 <= n,
        by + 8 <= n,
        0 <= r < 8,
        0 <= c < 8,
    ensures
        0 <= (by + r) * n + bx + c < n * n,
{
    assert(0 <= (by + r) * n + bx + c < n * n) by (nonlinear_arith)
        requires
            0 <= bx,
            0 <= by,
            bx + 8 <= n,
            by + 8 <= n,
            0 <= r < 8,
            0 <= c < 8,
    ;
}

/// `|v|` as a 64-bit value.
fn abs64(v: i32) -> (r: i64)
    ensures
        r as int == abs(v as int),
{
    if v < 0 {
        -(v as i64)
    } else {
        v as i64
    }
}

/// `Σ |h[j]|` over an 8-point output.
fn abs_sum8(h: [i32; 8]) -> (r: i64)
    ensures
        r as int == abs_sum(ints(h@), 8),
{
    proof {
        reveal_with_fuel(abs_sum, 9);
    }
    abs64(h[0]) + abs64(h[1]) + abs64(h[2]) + abs64(h[3]) + abs64(h[4]) + abs64(h[5]) + abs64(h[6])
        + abs64(h[7])
}

/// `Σ |h[j]|` over a 4-point output.
fn abs_sum4(h: [i32; 4]) -> (r: i64)
    ensures
        r as int == abs_sum(ints(h@), 4),
{
    proof {
        reveal_with_fuel(abs_sum, 5);
    }
    abs64(h[0]) + abs64(h[1]) + abs64(h[2]) + abs64(h[3])
}

proof fn lemma_abs_sum_bound(s: Seq<int>, m: int, b: int)
    requires
        0 <= m <= s.len(),
        0 <= b,
        forall|i: int| 0 <= i < m ==> -b <= #[trigger] s[i] <= b,
    ensures
        0 <= abs_sum(s, m) <= m * b,
    decreases m,
{
    if m > 0 {
        lemma_abs_sum_bound(s, m - 1, b);
        assert(m * b == (m - 1) * b + b) by (nonlinear_arith);
    }
}

/// Hadamard cost of the 8×8 tile at `(bx, by)` of an `n`-wide residual.
fn hadamard_8x8(res: &[i32], n: usize, bx: usize, by: usize) -> (r: i64)
    requires
        bx + 8 <= n,
        by + 8 <= n,
        n <= 4096,
        satd_input_ok(res@, n as int),
    ensures
        r as int == tile_cost(res@, n as int, bx as int, by as int),
        0 <= r <= 0x20_0000_0000,
{
    let ghost b: int = 0x1ff_ffff;
    let mut m: Vec<i32> = Vec::new();
    let mut r: usize = 0;
    while r < 8
        invariant
            b == 0x1ff_ffff,
            r <= 8,
            m.len() == r * 8,
            bx + 8 <= n,
            by + 8 <= n,
            n <= 4096,
            satd_input_ok(res@, n as int),
            forall|rr: int, c: int|
                0 <= rr < r && 0 <= c < 8 ==> m[rr * 8 + c] as int == #[trigger] had_row(
                    res@,
                    n as int,
                    bx as int,
                    by as int,
                    rr,
                )[c],
            forall|k: int| 0 <= k < m.len() ==> -8 * b <= #[trigger] m[k] <= 8 * b,
        decreases 8 - r,
    {
        proof {
            lemma_tile_index(n as int, bx as int, by as int, r as int, 7);
            lemma_tile_index(n as int, bx as int, by as int, r as int, 0);
            assert(n * n <= 4096 * 4096) by (nonlinear_arith)
                requires
                    0 <= n <= 4096,
            ;
        }
        let base = (by + r) * n + bx;
        let a = [
            res[base],
            res[base + 1],
            res[base + 2],
            res[base + 3],
            res[base + 4],
            res[base + 5],
            res[base + 6],
            res[base + 7],
        ];
        proof {
            assert(ints(a@) =~= Seq::new(8, |c: int| res@[(by + r) * n + bx + c] as int));
            assert forall|i: int| 0 <= i < 8 implies -b <= #[trigger] a[i] <= b by {
                assert(a@[i] == res@[(by + r) * n + bx + i]);
            }
        }
        let h = hadamard_1d_8(a, Ghost(b));
        let ghost m0 = m@;
        let mut c: usize = 0;
        while c < 8
            invariant
                b == 0x1ff_ffff,
                c <= 8,
                m.len() == r * 8 + c,
                r < 8,
                forall|k: int| 0 <= k < r * 8 ==> m[k] == m0[k],
                m0.len() == r * 8,
                forall|j: int| 0 <= j < 8 ==> h[j] as int == #[trigger] had_row(res@, n as int, bx as int, by as int, r as int)[j],
                forall|j: int| 0 <= j < 8 ==> -8 * b <= #[trigger] h[j] <= 8 * b,
                forall|k: int| 0 <= k < m0.len() ==> -8 * b <= #[trigger] m0[k] <= 8 * b,
                forall|j: int| 0 <= j < c ==> m[r * 8 + j] == h[j],
            decreases 8 - c,
        {
            m.push(h[c]);
            c += 1;
        }
        proof {
            assert forall|rr: int, cc: int|
                0 <= rr < r + 1 && 0 <= cc < 8 implies m[rr * 8 + cc] as int == #[trigger] had_row(
                res@,
                n as int,
                bx as int,
                by as int,
                rr,
            )[cc] by {
                if rr < r {
                    assert(rr * 8 + cc < r * 8) by (nonlinear_arith)
                        requires
                            rr < r,
                            cc < 8,
                    ;
                } else {
                    assert(rr * 8 + cc == r * 8 + cc);
                }
            }
            assert forall|k: int| 0 <= k < m.len() implies -8 * b <= #[trigger] m[k] <= 8 * b by {
                if k >= r * 8 {
                    assert(m[r * 8 + (k - r * 8)] == h[k - r * 8]);
                } else {
                    assert(m[k] == m0[k]);
                }
            }
        }
        r += 1;
    }
    let mut sum: i64 = 0;
    let mut c: usize = 0;
    while c < 8
        invariant
            b == 0x1ff_ffff,
            c <= 8,
            m.len() == 64,
            forall|rr: int, cc: int|
                0 <= rr < 8 && 0 <= cc < 8 ==> m[rr * 8 + cc] as int == #[trigger] had_row(
                    res@,
                    n as int,
                    bx as int,
                    by as int,
                    rr,
                )[cc],
            forall|k: int| 0 <= k < m.len() ==> -8 * b <= #[trigger] m[k] <= 8 * b,
            sum as int == cols_cost(res@, n as int, bx as int, by as int, c as int),
            0 <= sum <= c * 8 * 64 * b,
        decreases 8 - c,
    {
        let col = [m[c], m[8 + c], m[16 + c], m[24 + c], m[32 + c], m[40 + c], m[48 + c], m[56 + c]];
        proof {
            assert(ints(col@) =~= Seq::new(8, |rr: int| had_row(res@, n as int, bx as int, by as int, rr)[c as int])) by {
                assert forall|rr: int| 0 <= rr < 8 implies ints(col@)[rr] == had_row(res@, n as int, bx as int, by as int, rr)[c as int] by {
                    assert(col@[rr] == m@[rr * 8 + c]);
                }
            }
            assert forall|i: int| 0 <= i < 8 implies -8 * b <= #[trigger] col[i] <= 8 * b by {
                assert(col@[i] == m@[i * 8 + c]);
            }
        }
        let h = hadamard_1d_8(col, Ghost(8 * b));
        let t = abs_sum8(h);
        proof {
            assert(ints(h@) =~= had_col(res@, n as int, bx as int, by as int, c as int));
            lemma_abs_sum_bound(ints(h@), 8, 64 * b);
            assert((c + 1) * 8 * 64 * b == c * 8 * 64 * b + 8 * (64 * b)) by (nonlinear_arith);
            assert(c * 8 * 64 * b <= 7 * 8 * 64 * b) by (nonlinear_arith)
                requires
                    c <= 7,
                    b == 0x1ff_ffff,
            ;
        }
        sum = sum + t;
        c += 1;
    }
    sum
}

/// Hadamard cost of a 4×4 residual (stride 4).
fn hadamard_4x4(res: &[i32]) -> (r: i64)
    requires
        satd_input_ok(res@, 4),
    ensures
        r as int == cols4_cost(res@, 4),
        0 <= r,
{
    let ghost b: int = 0x1ff_ffff;
    let mut m: Vec<i32> = Vec::new();
    let mut r: usize = 0;
    while r < 4
        invariant
            b == 0x1ff_ffff,
            r <= 4,
            m.len() == r * 4,
            satd_input_ok(res@, 4),
            forall|rr: int, c: int|
                0 <= rr < r && 0 <= c < 4 ==> m[rr * 4 + c] as int == #[trigger] had4_row(res@, rr)[c],
            forall|k: int| 0 <= k < m.len() ==> -4 * b <= #[trigger] m[k] <= 4 * b,
        decreases 4 - r,
    {
        let a = [res[r * 4], res[r * 4 + 1], res[r * 4 + 2], res[r * 4 + 3]];
        proof {
            assert(ints(a@) =~= Seq::new(4, |c: int| res@[r * 4 + c] as int));
            assert forall|i: int| 0 <= i < 4 implies -b <= #[trigger] a[i] <= b by {
                assert(a@[i] == res@[r * 4 + i]);
            }
        }
        let h = hadamard_1d_4(a, Ghost(b));
        let ghost m0 = m@;
        m.push(h[0]);
        m.push(h[1]);
        m.push(h[2]);
        m.push(h[3]);
        proof {
            assert forall|rr: int, cc: int|
                0 <= rr < r + 1 && 0 <= cc < 4 implies m[rr * 4 + cc] as int == #[trigger] had4_row(res@, rr)[cc] by {
                if rr < r {
                    assert(rr * 4 + cc < r * 4);
                    assert(m[rr * 4 + cc] == m0[rr * 4 + cc]);
                } else {
                    assert(rr * 4 + cc == r * 4 + cc);
                }
            }
            assert forall|k: int| 0 <= k < m.len() implies -4 * b <= #[trigger] m[k] <= 4 * b by {
                if k < r * 4 {
                    assert(m[k] == m0[k]);
                }
            }
        }
        r += 1;
    }
    let mut sum: i64 = 0;
    let mut c: usize = 0;
    while c < 4
        invariant
            b == 0x1ff_ffff,
            c <= 4,
            m.len() == 16,
            forall|rr: int, cc: int|
                0 <= rr < 4 && 0 <= cc < 4 ==> m[rr * 4 + cc] as int == #[trigger] had4_row(res@, rr)[cc],
            forall|k: int| 0 <= k < m.len() ==> -4 * b <= #[trigger] m[k] <= 4 * b,
            sum as int == cols4_cost(res@, c as int),
            0 <= sum <= c * 4 * 16 * b,
        decreases 4 - c,
    {
        let col = [m[c], m[4 + c], m[8 + c], m[12 + c]];
        proof {
            assert(ints(col@) =~= Seq::new(4, |rr: int| had4_row(res@, rr)[c as int])) by {
                assert forall|rr: int| 0 <= rr < 4 implies ints(col@)[rr] == had4_row(res@, rr)[c as int] by {
                    assert(col@[rr] == m@[rr * 4 + c]);
                }
            }
            assert forall|i: int| 0 <= i < 4 implies -4 * b <= #[trigger] col[i] <= 4 * b by {
                assert(col@[i] == m@[i * 4 + c]);
            }
        }
        let h = hadamard_1d_4(col, Ghost(4 * b));
        let t = abs_sum4(h);
        proof {
            assert(ints(h@) =~= had4_col(res@, c as int));
            lemma_abs_sum_bound(ints(h@), 4, 16 * b);
            assert((c + 1) * 4 * 16 * b == c * 4 * 16 * b + 4 * (16 * b)) by (nonlinear_arith);
            assert(c * 4 * 16 * b <= 3 * 4 * 16 * b) by (nonlinear_arith)
                requires
                    c <= 3,
                    b == 0x1ff_ffff,
            ;
        }
        sum = sum + t;
        c += 1;
    }
    sum
}

proof fn lemma_tile_order(ty: int, tx: int, per: int)
    requires
        0 <= tx < per,
        0 <= ty,
    ensures
        (ty * per + tx) % per == tx,
        (ty * per + tx) / per == ty,
{
    vstd::arithmetic::div_mod::lemma_fundamental_div_mod_converse(ty * per + tx, per, ty, tx);
}

/// Sum of absolute Hadamard-transformed differences of an `n × n` residual
/// (see [`satd_value`]); never negative.
pub fn satd(res: &[i32], n: usize) -> (r: i64)
    requires
        satd_size_ok(n as int),
        satd_input_ok(res@, n as int),
    ensures
        r as int == satd_value(res@, n as int),
        r >= 0,
{
    if n == 4 {
        return hadamard_4x4(res);
    }
    let per = n / 8;
    let mut total: i64 = 0;
    let mut ty: usize = 0;
    while ty < per
        invariant
            8 <= n <= 4096,
            n % 8 == 0,
            per == n / 8,
            ty <= per,
            satd_input_ok(res@, n as int),
            total as int == tiles_cost(res@, n as int, ty * per),
            0 <= total <= ty * per * 0x20_0000_0000,
        decreases per - ty,
    {
        let mut tx: usize = 0;
        while tx < per
            invariant
                8 <= n <= 4096,
                n % 8 == 0,
                per == n / 8,
                ty < per,
                tx <= per,
                satd_input_ok(res@, n as int),
                total as int == tiles_cost(res@, n as int, ty * per + tx),
                0 <= total <= (ty * per + tx) * 0x20_0000_0000,
            decreases per - tx,
        {
            proof {
                lemma_tile_order(ty as int, tx as int, per as int);
                assert(8 * ty + 8 <= n && 8 * tx + 8 <= n);
                assert((ty * per + tx + 1) * 0x20_0000_0000 == (ty * per + tx) * 0x20_0000_0000 + 0x20_0000_0000)
                    by (nonlinear_arith);
                assert(ty * per + tx + 1 <= 512 * 512) by (nonlinear_arith)
                    requires
                        ty < per,
                        tx < per,
                        per <= 512,
                ;
            }
            let t = hadamard_8x8(res, n, 8 * tx, 8 * ty);
            total = total + t;
            tx += 1;
        }
        proof {
            assert((ty + 1) * per == ty * per + per) by (nonlinear_arith);
        }
        ty += 1;
    }
    total
}

proof fn lemma_h8_neg(a: Seq<int>, b: Seq<int>)
    requires
        a.len() == 8,
        b.len() == 8,
        forall|i: int| 0 <= i < 8 ==> #[trigger] b[i] == -a[i],
    ensures
        forall|j: int| 0 <= j < 8 ==> #[trigger] h8(b)[j] == -h8(a)[j],
{
    assert(b[0] == -a[0] && b[1] == -a[1] && b[2] == -a[2] && b[3] == -a[3]);
    assert(b[4] == -a[4] && b[5] == -a[5] && b[6] == -a[6] && b[7] == -a[7]);
}

proof fn lemma_h4_neg(a: Seq<int>, b: Seq<int>)
    requires
        a.len() == 4,
        b.len() == 4,
        forall|i: int| 0 <= i < 4 ==> #[trigger] b[i] == -a[i],
    ensures
        forall|j: int| 0 <= j < 4 ==> #[trigger] h4(b)[j] == -h4(a)[j],
{
    assert(b[0] == -a[0] && b[1] == -a[1] && b[2] == -a[2] && b[3] == -a[3]);
}

proof fn lemma_abs_sum_neg(s: Seq<int>, t: Seq<int>, m: int)
    requires
        forall|i: int| 0 <= i < m ==> #[trigger] t[i] == -s[i],
    ensures
        abs_sum(t, m) == abs_sum(s, m),
    decreases m,
{
    if m > 0 {
        lemma_abs_sum_neg(s, t, m - 1);
        assert(t[m - 1] == -s[m - 1]);
    }
}

proof fn lemma_tile_neg(res: Seq<i32>, neg: Seq<i32>, n: int, bx: int, by: int)
    requires
        0 <= bx,
        0 <= by,
        bx + 8 <= n,
        by + 8 <= n,
        res.len() >= n * n,
        neg.len() >= n * n,
        forall|k: int| 0 <= k < n * n ==> #[trigger] neg[k] == -res[k],
    ensures
        tile_cost(neg, n, bx, by) == tile_cost(res, n, bx, by),
{
    assert forall|r: int, c: int| 0 <= r < 8 && 0 <= c < 8 implies #[trigger] had_row(neg, n, bx, by, r)[c]
        == -had_row(res, n, bx, by, r)[c] by {
        let a = Seq::new(8, |cc: int| res[(by + r) * n + bx + cc] as int);
        let b = Seq::new(8, |cc: int| neg[(by + r) * n + bx + cc] as int);
        assert forall|i: int| 0 <= i < 8 implies #[trigger] b[i] == -a[i] by {
            lemma_tile_index(n, bx, by, r, i);
        }
        lemma_h8_neg(a, b);
    }
    assert forall|c: int, j: int| 0 <= c < 8 && 0 <= j < 8 implies #[trigger] had_col(neg, n, bx, by, c)[j]
        == -had_col(res, n, bx, by, c)[j] by {
        let a = Seq::new(8, |r: int| had_row(res, n, bx, by, r)[c]);
        let b = Seq::new(8, |r: int| had_row(neg, n, bx, by, r)[c]);
        assert forall|i: int| 0 <= i < 8 implies #[trigger] b[i] == -a[i] by {
            assert(had_row(neg, n, bx, by, i)[c] == -had_row(res, n, bx, by, i)[c]);
        }
        lemma_h8_neg(a, b);
    }
    lemma_cols_neg(res, neg, n, bx, by, 8);
}

proof fn lemma_cols_neg(res: Seq<i32>, neg: Seq<i32>, n: int, bx: int, by: int, m: int)
    requires
        m <= 8,
        forall|c: int, j: int| 0 <= c < 8 && 0 <= j < 8 ==> #[trigger] had_col(neg, n, bx, by, c)[j]
            == -had_col(res, n, bx, by, c)[j],
    ensures
        cols_cost(neg, n, bx, by, m) == cols_cost(res, n, bx, by, m),
    decreases m,
{
    if m > 0 {
        lemma_cols_neg(res, neg, n, bx, by, m - 1);
        lemma_abs_sum_neg(had_col(res, n, bx, by, m - 1), had_col(neg, n, bx, by, m - 1), 8);
    }
}

proof fn lemma_tiles_neg(res: Seq<i32>, neg: Seq<i32>, n: int, t: int)
    requires
        8 <= n,
        n % 8 == 0,
        t <= (n / 8) * (n / 8),
        res.len() >= n * n,
        neg.len() >= n * n,
        forall|k: int| 0 <= k < n * n ==> #[trigger] neg[k] == -res[k],
    ensures
        tiles_cost(neg, n, t) == tiles_cost(res, n, t),
    decreases t,
{
    if t > 0 {
        let per = n / 8;
        let u = t - 1;
        lemma_tiles_neg(res, neg, n, t - 1);
        vstd::arithmetic::div_mod::lemma_mod_bound(u, per);
        vstd::arithmetic::div_mod::lemma_div_pos_is_pos(u, per);
        crate::predict::lemma_div_below(u, per, per);
        lemma_tile_neg(res, neg, n, 8 * (u % per), 8 * (u / per));
    }
}

/// SATD is sign-symmetric: negating every residual sample leaves it unchanged.
pub proof fn lemma_satd_sign_symmetric(res: Seq<i32>, neg: Seq<i32>, n: int)
    requires
        satd_size_ok(n),
        res.len() >= n * n,
        neg.len() >= n * n,
        forall|k: int| 0 <= k < n * n ==> #[trigger] neg[k] == -res[k],
    ensures
        satd_value(neg, n) == satd_value(res, n),
{
    if n == 4 {
        assert forall|r: int, c: int| 0 <= r < 4 && 0 <= c < 4 implies #[trigger] had4_row(neg, r)[c]
            == -had4_row(res, r)[c] by {
            let a = Seq::new(4, |cc: int| res[r * 4 + cc] as int);
            let b = Seq::new(4, |cc: int| neg[r * 4 + cc] as int);
            assert forall|i: int| 0 <= i < 4 implies #[trigger] b[i] == -a[i] by {
                assert(neg[r * 4 + i] == -res[r * 4 + i]);
            }
            lemma_h4_neg(a, b);
        }
        assert forall|c: int| 0 <= c < 4 implies abs_sum(had4_col(neg, c), 4) == abs_sum(had4_col(res, c), 4) by {
            let a = Seq::new(4, |r: int| had4_row(res, r)[c]);
            let b = Seq::new(4, |r: int| had4_row(neg, r)[c]);
            assert forall|i: int| 0 <= i < 4 implies #[trigger] b[i] == -a[i] by {
                assert(had4_row(neg, i)[c] == -had4_row(res, i)[c]);
            }
            lemma_h4_neg(a, b);
            lemma_abs_sum_neg(had4_col(res, c), had4_col(neg, c), 4);
        }
        reveal_with_fuel(cols4_cost, 5);
    } else {
        lemma_tiles_neg(res, neg, n, (n / 8) * (n / 8));
    }
}

proof fn lemma_flat_tile(res: Seq<i32>, n: int, bx: int, by: int, k: int)
    requires
        0 <= bx,
        0 <= by,
        bx + 8 <= n,
        by + 8 <= n,
        res.len() >= n * n,
        forall|i: int| 0 <= i < n * n ==> #[trigger] res[i] == k,
    ensures
        tile_cost(res, n, bx, by) == 64 * abs(k),
{
    assert forall|r: int| 0 <= r < 8 implies #[trigger] had_row(res, n, bx, by, r) =~= seq![8 * k, 0, 0, 0, 0, 0, 0, 0]
        by {
        let a = Seq::new(8, |c: int| res[(by + r) * n + bx + c] as int);
        assert forall|i: int| 0 <= i < 8 implies #[trigger] a[i] == k by {
            lemma_tile_index(n, bx, by, r, i);
        }
        assert(a[0] == k && a[1] == k && a[2] == k && a[3] == k);
        assert(a[4] == k && a[5] == k && a[6] == k && a[7] == k);
    }
    let dc = Seq::new(8, |r: int| had_row(res, n, bx, by, r)[0]);
    assert(dc =~= seq![8 * k, 8 * k, 8 * k, 8 * k, 8 * k, 8 * k, 8 * k, 8 * k]);
    assert(had_col(res, n, bx, by, 0) =~= seq![64 * k, 0, 0, 0, 0, 0, 0, 0]);
    assert forall|c: int| 1 <= c < 8 implies #[trigger] had_col(res, n, bx, by, c) =~= seq![0int, 0, 0, 0, 0, 0, 0, 0] by {
        let a = Seq::new(8, |r: int| had_row(res, n, bx, by, r)[c]);
        assert(a =~= seq![0int, 0, 0, 0, 0, 0, 0, 0]);
    }
    reveal_with_fuel(abs_sum, 9);
    reveal_with_fuel(cols_cost, 9);
    assert(abs_sum(had_col(res, n, bx, by, 0), 8) == 64 * abs(k));
    assert(abs_sum(had_col(res, n, bx, by, 1), 8) == 0);
    assert(abs_sum(had_col(res, n, bx, by, 2), 8) == 0);
    assert(abs_sum(had_col(res, n, bx, by, 3), 8) == 0);
    assert(abs_sum(had_col(res, n, bx, by, 4), 8) == 0);
    assert(abs_sum(had_col(res, n, bx, by, 5), 8) == 0);
    assert(abs_sum(had_col(res, n, bx, by, 6), 8) == 0);
    assert(abs_sum(had_col(res, n, bx, by, 7), 8) == 0);
}

proof fn lemma_flat_tiles(res: Seq<i32>, n: int, t: int, k: int)
    requires
        8 <= n,
        n % 8 == 0,
        0 <= t <= (n / 8) * (n / 8),
        res.len() >= n * n,
        forall|i: int| 0 <= i < n * n ==> #[trigger] res[i] == k,
    ensures
        tiles_cost(res, n, t) == t * 64 * abs(k),
    decreases t,
{
    if t > 0 {
        let per = n / 8;
        let u = t - 1;
        lemma_flat_tiles(res, n, t - 1, k);
        vstd::arithmetic::div_mod::lemma_mod_bound(u, per);
        vstd::arithmetic::div_mod::lemma_div_pos_is_pos(u, per);
        crate::predict::lemma_div_below(u, per, per);
        lemma_flat_tile(res, n, 8 * (u % per), 8 * (u / per), k);
        assert(t * 64 * abs(k) == (t - 1) * 64 * abs(k) + 64 * abs(k)) by (nonlinear_arith);
    }
}

/// A flat residual `k` has one non-zero Hadamard coefficient per 8×8 tile,
/// of magnitude `64·|k|`: its SATD is `64·|k|·(n/8)²`.
pub proof fn lemma_satd_flat(res: Seq<i32>, n: int, k: int)
    requires
        satd_size_ok(n),
        n >= 8,
        res.len() >= n * n,
        forall|i: int| 0 <= i < n * n ==> #[trigger] res[i] == k,
    ensures
        satd_value(res, n) == 64 * abs(k) * ((n / 8) * (n / 8)),
{
    let t = (n / 8) * (n / 8);
    lemma_flat_tiles(res, n, t, k);
    assert(t * 64 * abs(k) == 64 * abs(k) * t) by (nonlinear_arith);
}

/// The 8-point butterfly is the Walsh–Hadamard transform: applied twice it
/// gives back eight times its input (`H8·H8 = 8·I`, each output being the
/// inner product with a distinct ±1 row), and its first output is the sum
/// of the inputs.
pub proof fn lemma_h8_involution(a: Seq<int>)
    requires
        a.len() == 8,
    ensures
        h8(h8(a)).len() == 8,
        forall|k: int| 0 <= k < 8 ==> #[trigger] h8(h8(a))[k] == 8 * a[k],
        h8(a)[0] == a[0] + a[1] + a[2] + a[3] + a[4] + a[5] + a[6] + a[7],
{
    let y = h8(a);
    assert(h8(y)[0] == 8 * a[0]);
    assert(h8(y)[1] == 8 * a[1]);
    assert(h8(y)[2] == 8 * a[2]);
    assert(h8(y)[3] == 8 * a[3]);
    assert(h8(y)[4] == 8 * a[4]);
    assert(h8(y)[5] == 8 * a[5]);
    assert(h8(y)[6] == 8 * a[6]);
    assert(h8(y)[7] == 8 * a[7]);
}

/// The 4-point butterfly is the Walsh–Hadamard transform: applied twice it
/// gives back four times its input, and its first output is the sum of the
/// inputs.
pub proof fn lemma_h4_involution(a: Seq<int>)
    requires
        a.len() == 4,
    ensures
        h4(h4(a)).len() == 4,
        forall|k: int| 0 <= k < 4 ==> #[trigger] h4(h4(a))[k] == 4 * a[k],
        h4(a)[0] == a[0] + a[1] + a[2] + a[3],
{
    let y = h4(a);
    assert(h4(y)[0] == 4 * a[0]);
    assert(h4(y)[1] == 4 * a[1]);
    assert(h4(y)[2] == 4 * a[2]);
    assert(h4(y)[3] == 4 * a[3]);
}

} // verus!
