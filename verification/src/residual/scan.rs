//! The up-right diagonal scan and the grouped coefficient scan (4×4
//! coefficient groups visited diagonally, each scanned diagonally).
use vstd::prelude::*;

verus! {

/// Highest row on anti-diagonal `d` of a `w × h` grid: `min(d, h − 1)`.
pub open spec fn diag_top(h: int, d: int) -> int {
    if d < h - 1 {
        d
    } else {
        h - 1
    }
}

/// Lowest row on anti-diagonal `d`: `max(0, d − (w − 1))`.
pub open spec fn diag_bottom(w: int, d: int) -> int {
    if d > w - 1 {
        d - (w - 1)
    } else {
        0
    }
}

/// Number of cells on anti-diagonal `d` (0 off the grid).
pub open spec fn diag_len(w: int, h: int, d: int) -> int {
    if 0 <= d <= w + h - 2 {
        diag_top(h, d) - diag_bottom(w, d) + 1
    } else {
        0
    }
}

/// The cells of anti-diagonal `d` as `(x, y)`, from the bottom-left (highest
/// row) up to the top-right.
pub open spec fn diag_line(w: int, h: int, d: int) -> Seq<(usize, usize)> {
    Seq::new(
        diag_len(w, h, d) as nat,
        |i: int| ((d - (diag_top(h, d) - i)) as usize, (diag_top(h, d) - i) as usize),
    )
}

/// The first `n` anti-diagonals, concatenated.
pub open spec fn diag_upto(w: int, h: int, n: int) -> Seq<(usize, usize)>
    decreases n,
{
    if n <= 0 {
        Seq::empty()
    } else {
        diag_upto(w, h, n - 1) + diag_line(w, h, n - 1)
    }
}

/// The up-right diagonal scan of a `w × h` grid, DC first.
pub open spec fn diag_seq(w: int, h: int) -> Seq<(usize, usize)> {
    diag_upto(w, h, w + h - 1)
}

/// Scan order key: anti-diagonal first, then from the highest row down.
pub open spec fn scan_key(p: (usize, usize)) -> int {
    (p.0 + p.1) * 128 + (127 - p.1)
}

/// `Σ_{e<n} diag_len(e)`.
pub open spec fn diag_count(w: int, h: int, n: int) -> int
    decreases n,
{
    if n <= 0 {
        0
    } else {
        diag_count(w, h, n - 1) + diag_len(w, h, n - 1)
    }
}

/// Sides that the diagonal scan accepts.
pub open spec fn grid_ok(w: int, h: int) -> bool {
    1 <= w <= 64 && 1 <= h <= 64
}

proof fn lemma_upto_len(w: int, h: int, n: int)
    requires
        grid_ok(w, h),
    ensures
        diag_upto(w, h, n).len() == diag_count(w, h, n),
    decreases n,
{
    if n > 0 {
        lemma_upto_len(w, h, n - 1);
    }
}

/// Cells of `h − 1`-row diagonals plus the band added by the last row.
proof fn lemma_count_split(w: int, h: int, n: int)
    requires
        grid_ok(w, h),
        h >= 2,
        0 <= n <= w + h - 1,
    ensures
        diag_count(w, h, n) == diag_count(w, h - 1, n) + if n <= h - 1 {
            0
        } else {
            n - (h - 1)
        },
    decreases n,
{
    if n > 0 {
        lemma_count_split(w, h, n - 1);
    }
}

proof fn lemma_count_row(w: int, n: int)
    requires
        grid_ok(w, 1),
        0 <= n <= w,
    ensures
        diag_count(w, 1, n) == n,
    decreases n,
{
    if n > 0 {
        lemma_count_row(w, n - 1);
    }
}

/// The diagonals of a `w × h` grid hold `w·h` cells.
proof fn lemma_count_total(w: int, h: int)
    requires
        grid_ok(w, h),
    ensures
        diag_count(w, h, w + h - 1) == w * h,
    decreases h,
{
    if h == 1 {
        lemma_count_row(w, w);
    } else {
        lemma_count_total(w, h - 1);
        lemma_count_split(w, h, w + h - 1);
        assert(diag_count(w, h - 1, w + h - 1) == diag_count(w, h - 1, w + h - 2));
        assert(w * h == w * (h - 1) + w) by (nonlinear_arith);
    }
}

/// Every cell of the first `n` diagonals lies in the grid, on its diagonal,
/// and the cells come in strictly increasing [`scan_key`] order.
proof fn lemma_upto_props(w: int, h: int, n: int)
    requires
        grid_ok(w, h),
        0 <= n <= w + h - 1,
    ensures
        forall|k: int|
            0 <= k < diag_upto(w, h, n).len() ==> {
                let p = #[trigger] diag_upto(w, h, n)[k];
                &&& p.0 < w
                &&& p.1 < h
                &&& p.0 + p.1 < n
            },
        forall|i: int, j: int|
            0 <= i < j < diag_upto(w, h, n).len() ==> scan_key(#[trigger] diag_upto(w, h, n)[i]) < scan_key(
                #[trigger] diag_upto(w, h, n)[j],
            ),
    decreases n,
{
    if n > 0 {
        lemma_upto_props(w, h, n - 1);
        let a = diag_upto(w, h, n - 1);
        let l = diag_line(w, h, n - 1);
        let s = diag_upto(w, h, n);
        assert(s == a + l);
        assert forall|k: int| 0 <= k < s.len() implies {
            let p = #[trigger] s[k];
            &&& p.0 < w
            &&& p.1 < h
            &&& p.0 + p.1 < n
        } by {
            if k >= a.len() {
                assert(s[k] == l[k - a.len()]);
            } else {
                assert(s[k] == a[k]);
            }
        }
        assert forall|i: int, j: int| 0 <= i < j < s.len() implies scan_key(#[trigger] s[i]) < scan_key(
            #[trigger] s[j],
        ) by {
            if j < a.len() {
                assert(s[i] == a[i] && s[j] == a[j]);
            } else if i < a.len() {
                assert(s[i] == a[i] && s[j] == l[j - a.len()]);
            } else {
                assert(s[i] == l[i - a.len()] && s[j] == l[j - a.len()]);
            }
        }
    }
}

/// The diagonal scan of a `w × h` grid: `w·h` cells, each inside the grid, in
/// strictly increasing [`scan_key`] order (so no cell twice).
pub proof fn lemma_diag_seq(w: int, h: int)
    requires
        grid_ok(w, h),
    ensures
        diag_seq(w, h).len() == w * h,
        forall|k: int|
            0 <= k < w * h ==> (#[trigger] diag_seq(w, h)[k]).0 < w && diag_seq(w, h)[k].1 < h,
        forall|i: int, j: int|
            0 <= i < j < w * h ==> scan_key(#[trigger] diag_seq(w, h)[i]) < scan_key(#[trigger] diag_seq(w, h)[j]),
{
    lemma_upto_len(w, h, w + h - 1);
    lemma_count_total(w, h);
    lemma_upto_props(w, h, w + h - 1);
}

/// Up-right diagonal scan over a `w × h` grid, as `(x, y)` in scan order (DC
/// first): anti-diagonals in turn, each from its lowest-left cell up.
pub fn diag_scan(w: usize, h: usize) -> (r: Vec<(usize, usize)>)
    requires
        grid_ok(w as int, h as int),
    ensures
        r@ == diag_seq(w as int, h as int),
        r.len() == w * h,
{
    let mut out: Vec<(usize, usize)> = Vec::new();
    let mut d: usize = 0;
    while d < w + h - 1
        invariant
            grid_ok(w as int, h as int),
            d <= w + h - 1,
            out@ == diag_upto(w as int, h as int, d as int),
        decreases w + h - 1 - d,
    {
        let top = if d < h - 1 { d } else { h - 1 };
        let bottom = if d > w - 1 { d - (w - 1) } else { 0 };
        let n = top - bottom + 1;
        let ghost line = diag_line(w as int, h as int, d as int);
        assert(line.len() == n);
        let mut i: usize = 0;
        while i < n
            invariant
                grid_ok(w as int, h as int),
                d < w + h - 1,
                top == diag_top(h as int, d as int),
                bottom == diag_bottom(w as int, d as int),
                n == top - bottom + 1,
                i <= n,
                line == diag_line(w as int, h as int, d as int),
                line.len() == n,
                out@ == diag_upto(w as int, h as int, d as int) + line.take(i as int),
            decreases n - i,
        {
            out.push((d - (top - i), top - i));
            proof {
                assert(line.take(i + 1) =~= line.take(i as int).push(line[i as int]));
            }
            i += 1;
        }
        proof {
            assert(line.take(n as int) =~= line);
        }
        d += 1;
    }
    proof {
        lemma_upto_len(w as int, h as int, (w + h - 1) as int);
        lemma_count_total(w as int, h as int);
    }
    out
}

/// A transform-block side: a power of two from 4 to 64.
pub open spec fn tb_side_ok(n: int) -> bool {
    n == 4 || n == 8 || n == 16 || n == 32 || n == 64
}

/// The coded extent of a side: high-frequency zero-out limits it to 32.
pub open spec fn coded_side(n: int) -> int {
    if n < 32 {
        n
    } else {
        32
    }
}

/// The diagonal scan of the 4×4 coefficient groups of the coded region.
pub open spec fn group_scan(w: int, h: int) -> Seq<(usize, usize)> {
    diag_seq(coded_side(w) / 4, coded_side(h) / 4)
}

/// The coefficient scan: each group of [`group_scan`] in turn, scanned
/// diagonally inside.
pub open spec fn coeff_scan(w: int, h: int) -> Seq<(usize, usize)> {
    let g = group_scan(w, h);
    let s = diag_seq(4, 4);
    Seq::new(
        g.len() * 16,
        |i: int| ((g[i / 16].0 * 4 + s[i % 16].0) as usize, (g[i / 16].1 * 4 + s[i % 16].1) as usize),
    )
}

/// Raster position of a cell in a block of width `w`.
pub open spec fn cell_pos(p: (usize, usize), w: int) -> int {
    p.1 * w + p.0
}

proof fn lemma_scan_entry(w: int, h: int, i: int)
    requires
        tb_side_ok(w),
        tb_side_ok(h),
        0 <= i < coeff_scan(w, h).len(),
    ensures
        coeff_scan(w, h)[i].0 < coded_side(w),
        coeff_scan(w, h)[i].1 < coded_side(h),
        coeff_scan(w, h)[i].0 == group_scan(w, h)[i / 16].0 * 4 + diag_seq(4, 4)[i % 16].0,
        coeff_scan(w, h)[i].1 == group_scan(w, h)[i / 16].1 * 4 + diag_seq(4, 4)[i % 16].1,
{
    let gw = coded_side(w) / 4;
    let gh = coded_side(h) / 4;
    lemma_diag_seq(gw, gh);
    lemma_diag_seq(4, 4);
    let g = group_scan(w, h);
    assert(0 <= i / 16 < gw * gh) by {
        crate::predict::lemma_div_below(i, 16, gw * gh);
        assert(g.len() * 16 == gw * gh * 16);
    }
    assert(0 <= i % 16 < 16);
}

/// The coefficient scan covers the coded region: `coded(w)·coded(h)` cells,
/// each inside it, none twice.
pub proof fn lemma_coeff_scan(w: int, h: int)
    requires
        tb_side_ok(w),
        tb_side_ok(h),
    ensures
        coeff_scan(w, h).len() == coded_side(w) * coded_side(h),
        coeff_scan(w, h).len() <= 1024,
        forall|k: int|
            0 <= k < coeff_scan(w, h).len() ==> (#[trigger] coeff_scan(w, h)[k]).0 < coded_side(w)
                && coeff_scan(w, h)[k].1 < coded_side(h),
        forall|i: int, j: int|
            0 <= i < j < coeff_scan(w, h).len() ==> #[trigger] coeff_scan(w, h)[i] != #[trigger] coeff_scan(w, h)[j],
{
    let gw = coded_side(w) / 4;
    let gh = coded_side(h) / 4;
    lemma_diag_seq(gw, gh);
    lemma_diag_seq(4, 4);
    let c = coeff_scan(w, h);
    let g = group_scan(w, h);
    let s = diag_seq(4, 4);
    assert(c.len() == coded_side(w) * coded_side(h)) by {
        assert(coded_side(w) == gw * 4 && coded_side(h) == gh * 4);
        assert(gw * gh * 16 == (gw * 4) * (gh * 4)) by (nonlinear_arith);
    }
    assert(c.len() <= 1024) by {
        assert(coded_side(w) * coded_side(h) <= 32 * 32) by (nonlinear_arith)
            requires
                1 <= coded_side(w) <= 32,
                1 <= coded_side(h) <= 32,
        ;
    }
    assert forall|k: int| 0 <= k < c.len() implies (#[trigger] c[k]).0 < coded_side(w) && c[k].1 < coded_side(h) by {
        lemma_scan_entry(w, h, k);
    }
    assert forall|i: int, j: int| 0 <= i < j < c.len() implies #[trigger] c[i] != #[trigger] c[j] by {
        lemma_scan_entry(w, h, i);
        lemma_scan_entry(w, h, j);
        let gi = i / 16;
        let gj = j / 16;
        let si = i % 16;
        let sj = j % 16;
        vstd::arithmetic::div_mod::lemma_fundamental_div_mod(i, 16);
        vstd::arithmetic::div_mod::lemma_fundamental_div_mod(j, 16);
        if gi == gj {
            assert(si < sj);
            assert(scan_key(s[si]) < scan_key(s[sj]));
        } else {
            assert(gi < gj) by {
                vstd::arithmetic::div_mod::lemma_div_is_ordered(i, j, 16);
            }
            assert(scan_key(g[gi]) < scan_key(g[gj]));
            assert(s[si].0 < 4 && s[si].1 < 4 && s[sj].0 < 4 && s[sj].1 < 4);
        }
    }
}

/// Distinct cells of a block of width `w` have distinct raster positions.
pub proof fn lemma_cell_pos_inj(p: (usize, usize), q: (usize, usize), w: int)
    requires
        p.0 < w,
        q.0 < w,
        p != q,
    ensures
        cell_pos(p, w) != cell_pos(q, w),
{
    if p.1 == q.1 {
    } else if p.1 < q.1 {
        assert(p.1 * w + p.0 < q.1 * w + q.0) by (nonlinear_arith)
            requires
                p.1 < q.1,
                p.0 < w,
                q.0 >= 0,
        ;
    } else {
        assert(q.1 * w + q.0 < p.1 * w + p.0) by (nonlinear_arith)
            requires
                q.1 < p.1,
                q.0 < w,
                p.0 >= 0,
        ;
    }
}

/// Coefficient-group scan of a `w × h` transform block (over its coded
/// region, in groups).
pub fn group_scan_of(w: usize, h: usize) -> (r: Vec<(usize, usize)>)
    requires
        tb_side_ok(w as int),
        tb_side_ok(h as int),
    ensures
        r@ == group_scan(w as int, h as int),
{
    let cw = if w < 32 { w } else { 32 };
    let ch = if h < 32 { h } else { 32 };
    diag_scan(cw / 4, ch / 4)
}

/// The coefficient scan of a `w × h` transform block: every cell of the coded
/// `min(w, 32) × min(h, 32)` region, group by group (see [`coeff_scan`]).
pub fn scan_coords(w: usize, h: usize) -> (r: Vec<(usize, usize)>)
    requires
        tb_side_ok(w as int),
        tb_side_ok(h as int),
    ensures
        r@ == coeff_scan(w as int, h as int),
{
    let g = group_scan_of(w, h);
    let s = diag_scan(4, 4);
    proof {
        let gw = coded_side(w as int) / 4;
        let gh = coded_side(h as int) / 4;
        lemma_diag_seq(gw, gh);
        lemma_diag_seq(4, 4);
        assert(gw * gh <= 64) by (nonlinear_arith)
            requires
                1 <= gw <= 8,
                1 <= gh <= 8,
        ;
    }
    let mut out: Vec<(usize, usize)> = Vec::new();
    let mut gi: usize = 0;
    while gi < g.len()
        invariant
            tb_side_ok(w as int),
            tb_side_ok(h as int),
            g@ == group_scan(w as int, h as int),
            s@ == diag_seq(4, 4),
            s.len() == 16,
            g.len() <= 64,
            forall|k: int| 0 <= k < g.len() ==> (#[trigger] g@[k]).0 < 8 && g@[k].1 < 8,
            forall|k: int| 0 <= k < 16 ==> (#[trigger] s@[k]).0 < 4 && s@[k].1 < 4,
            gi <= g.len(),
            out.len() == gi * 16,
            forall|k: int| 0 <= k < out.len() ==> #[trigger] out@[k] == coeff_scan(w as int, h as int)[k],
        decreases g.len() - gi,
    {
        let (gx, gy) = g[gi];
        let mut si: usize = 0;
        while si < 16
            invariant
                g@ == group_scan(w as int, h as int),
                s@ == diag_seq(4, 4),
                s.len() == 16,
                gi < g.len(),
                g.len() <= 64,
                (gx, gy) == g@[gi as int],
                gx < 8,
                gy < 8,
                forall|k: int| 0 <= k < 16 ==> (#[trigger] s@[k]).0 < 4 && s@[k].1 < 4,
                si <= 16,
                out.len() == gi * 16 + si,
                forall|k: int| 0 <= k < out.len() ==> #[trigger] out@[k] == coeff_scan(w as int, h as int)[k],
            decreases 16 - si,
        {
            let (sx, sy) = s[si];
            out.push((gx * 4 + sx, gy * 4 + sy));
            proof {
                let k = gi * 16 + si;
                assert(k / 16 == gi && k % 16 == si) by {
                    vstd::arithmetic::div_mod::lemma_fundamental_div_mod_converse(k as int, 16, gi as int, si as int);
                }
                assert(k < g.len() * 16);
            }
            si += 1;
        }
        gi += 1;
    }
    proof {
        assert(out@ =~= coeff_scan(w as int, h as int));
    }
    out
}

} // verus!
