//! Context selection for residual coding: the per-block coding context, the
//! significance-flag template, the greater-than / parity context offset and
//! the Golomb-Rice parameter.
use vstd::prelude::*;
use vstd::arithmetic::power2::pow2;
use crate::transform::quant::abs;
use super::scan::{
    coded_side, coeff_scan, group_scan, group_scan_of, lemma_coeff_scan, scan_coords, tb_side_ok,
};

verus! {

/// Colour component of a transform block. Cb and Cr share the chroma
/// context sets.
#[derive(Clone, Copy, PartialEq, Eq, Debug)]
pub enum Component {
    Luma,
    Cb,
    Cr,
}

impl Component {
    /// Whether this is the luma component.
    pub fn is_luma(self) -> (r: bool)
        ensures
            r == (self == Component::Luma),
    {
        match self {
            Component::Luma => true,
            _ => false,
        }
    }
}

/// Position coordinate → last-significant group index.
pub const GROUP_IDX: [u32; 32] = [
    0, 1, 2, 3, 4, 4, 5, 5, 6, 6, 6, 6, 7, 7, 7, 7, 8, 8, 8, 8, 8, 8, 8, 8, 9, 9, 9, 9, 9, 9, 9, 9,
];

/// Lowest coordinate in each last-significant group.
pub const MIN_IN_GROUP: [u32; 14] = [0, 1, 2, 3, 4, 6, 8, 12, 16, 24, 32, 48, 64, 96];

/// Golomb-Rice parameter from the clamped neighbour sum.
pub const GO_RICE_PARS: [u32; 32] = [
    0, 0, 0, 0, 0, 0, 0, 1, 1, 1, 1, 1, 1, 1, 2, 2, 2, 2, 2, 2, 2, 2, 2, 2, 2, 2, 2, 2, 3, 3, 3, 3,
];

/// Per-log2-size luma last-prefix context offset.
pub const PREFIX_CTX: [i32; 8] = [0, 0, 0, 3, 6, 10, 15, 21];

/// The table facts the last-position coder relies on: a coordinate's group
/// starts at or below it, has at most `⌊(g − 2)/2⌋` suffix bits covering the
/// rest, and groups grow with the coordinate.
pub proof fn lemma_group_table(p: int)
    requires
        0 <= p < 32,
    ensures
        GROUP_IDX[p] <= 9,
        MIN_IN_GROUP[GROUP_IDX[p] as int] <= p,
        GROUP_IDX[p] <= 3 ==> GROUP_IDX[p] == p,
        GROUP_IDX[p] > 3 ==> p - MIN_IN_GROUP[GROUP_IDX[p] as int] < pow2(((GROUP_IDX[p] - 2) / 2) as nat),
        p < 4 ==> GROUP_IDX[p] <= GROUP_IDX[3],
        p < 8 ==> GROUP_IDX[p] <= GROUP_IDX[7],
        p < 16 ==> GROUP_IDX[p] <= GROUP_IDX[15],
        GROUP_IDX[p] <= GROUP_IDX[31],
{
    vstd::arithmetic::power2::lemma2_to64();
    if p < 8 {
        if p < 4 {
        } else if p < 6 {
        } else {
        }
    } else if p < 16 {
        if p < 12 {
        } else {
        }
    } else if p < 24 {
    } else {
    }
}

/// Luma/chroma last-position context offset for a side of length `n`.
pub open spec fn last_offset(n: int, luma: bool) -> int {
    if luma {
        PREFIX_CTX[crate::predict::log2_dim(n)] as int
    } else {
        0
    }
}

/// Last-position context shift: `(log2 n + 1) >> 2` for luma,
/// `clamp(n >> 3, 0, 2)` for chroma.
pub open spec fn last_shift(n: int, luma: bool) -> int {
    if luma {
        (crate::predict::log2_dim(n) + 1) / 4
    } else if n / 8 < 2 {
        n / 8
    } else {
        2
    }
}

/// Number of last-position contexts per direction.
pub open spec fn last_ctx_count(luma: bool) -> int {
    if luma {
        20
    } else {
        3
    }
}

/// Coding context of one transform block: its coefficient and group scans,
/// the group grid and the last-position context parameters. The buffer
/// stride and the context offset/shift use the real size; the scans and the
/// last-position range use the coded (≤ 32) size.
pub struct CoeffCtx {
    pub w: usize,
    pub h: usize,
    pub scan: Vec<(usize, usize)>,
    pub scan_cg: Vec<(usize, usize)>,
    pub width_in_groups: usize,
    pub height_in_groups: usize,
    pub last_offset_x: u32,
    pub last_offset_y: u32,
    pub last_shift_x: u32,
    pub last_shift_y: u32,
    pub max_last_x: u32,
    pub max_last_y: u32,
}

impl CoeffCtx {
    /// The context of a `w × h` block of the given component.
    pub open spec fn is_for(&self, w: int, h: int, luma: bool) -> bool {
        &&& self.w == w
        &&& self.h == h
        &&& self.scan@ == coeff_scan(w, h)
        &&& self.scan_cg@ == group_scan(w, h)
        &&& self.width_in_groups == coded_side(w) / 4
        &&& self.height_in_groups == coded_side(h) / 4
        &&& self.last_offset_x == last_offset(w, luma)
        &&& self.last_offset_y == last_offset(h, luma)
        &&& self.last_shift_x == last_shift(w, luma)
        &&& self.last_shift_y == last_shift(h, luma)
        &&& self.max_last_x == GROUP_IDX[coded_side(w) - 1]
        &&& self.max_last_y == GROUP_IDX[coded_side(h) - 1]
    }

    /// Build the coding context of a `w × h` block.
    pub fn new(w: usize, h: usize, comp: Component) -> (cc: Self)
        requires
            tb_side_ok(w as int),
            tb_side_ok(h as int),
        ensures
            cc.is_for(w as int, h as int, comp == Component::Luma),
    {
        let cw = if w < 32 { w } else { 32 };
        let ch = if h < 32 { h } else { 32 };
        let lw = crate::predict::trailing_zeros(w);
        let lh = crate::predict::trailing_zeros(h);
        proof {
            crate::predict::lemma_tz_dim(w as int);
            crate::predict::lemma_tz_dim(h as int);
        }
        let luma = comp.is_luma();
        let (lox, loy, lsx, lsy) = if luma {
            (PREFIX_CTX[lw as usize] as u32, PREFIX_CTX[lh as usize] as u32, (lw + 1) / 4, (lh + 1) / 4)
        } else {
            let sx = if w / 8 < 2 { (w / 8) as u32 } else { 2 };
            let sy = if h / 8 < 2 { (h / 8) as u32 } else { 2 };
            (0, 0, sx, sy)
        };
        CoeffCtx {
            w,
            h,
            scan: scan_coords(w, h),
            scan_cg: group_scan_of(w, h),
            width_in_groups: cw / 4,
            height_in_groups: ch / 4,
            last_offset_x: lox,
            last_offset_y: loy,
            last_shift_x: lsx,
            last_shift_y: lsy,
            max_last_x: GROUP_IDX[cw - 1],
            max_last_y: GROUP_IDX[ch - 1],
        }
    }

    /// Raster position of scan index `p`.
    pub fn block_pos(&self, p: usize) -> (r: usize)
        requires
            self.is_for(self.w as int, self.h as int, true) || self.is_for(self.w as int, self.h as int, false),
            tb_side_ok(self.w as int),
            tb_side_ok(self.h as int),
            p < self.scan.len(),
        ensures
            r == self.scan@[p as int].1 * self.w + self.scan@[p as int].0,
            r < self.w * self.h,
            self.scan@[p as int].0 < coded_side(self.w as int),
            self.scan@[p as int].1 < coded_side(self.h as int),
    {
        proof {
            lemma_coeff_scan(self.w as int, self.h as int);
        }
        let (x, y) = self.scan[p];
        proof {
            lemma_cell_bound(x as int, y as int, self.w as int, self.h as int);
            assert(self.w * self.h <= 4096) by (nonlinear_arith)
                requires
                    self.w <= 64,
                    self.h <= 64,
            ;
        }
        y * self.w + x
    }
}

/// A cell inside a `w × h` block lies before `w·h` in raster order.
pub proof fn lemma_cell_bound(x: int, y: int, w: int, h: int)
    requires
        0 <= x < w,
        0 <= y < h,
    ensures
        0 <= y * w + x < w * h,
{
    assert(0 <= y * w + x < w * h) by (nonlinear_arith)
        requires
            0 <= x < w,
            0 <= y < h,
    ;
}

/// Context index of group step `c` of the last-position prefix:
/// `offset + (c >> shift)`.
pub open spec fn last_ctx_index(offset: int, shift: int, c: int) -> int {
    offset + c / (pow2(shift as nat) as int)
}

/// Every prefix bin of the last position of a block side uses a context
/// inside its set.
pub proof fn lemma_last_ctx_in_range(n: int, luma: bool, c: int)
    requires
        tb_side_ok(n),
        0 <= c < GROUP_IDX[coded_side(n) - 1],
    ensures
        0 <= last_ctx_index(last_offset(n, luma), last_shift(n, luma), c) < last_ctx_count(luma),
{
    vstd::arithmetic::power2::lemma2_to64();
    let s = last_shift(n, luma);
    assert(0 <= s <= 2);
    vstd::arithmetic::div_mod::lemma_div_pos_is_pos(c, pow2(s as nat) as int);
    vstd::arithmetic::div_mod::lemma_div_is_ordered_by_denominator(c, 1, pow2(s as nat) as int);
    if s == 1 {
        assert(c / 2 <= 4);
    } else if s == 2 {
        assert(c / 4 <= 2);
    }
}

/// `x >> s` of a small value, as a division.
pub fn shr_small(x: u32, s: u32) -> (r: u32)
    requires
        s <= 2,
    ensures
        r as int == (x as int) / (pow2(s as nat) as int),
{
    proof {
        vstd::bits::lemma_u32_shr_is_div(x, s);
    }
    x >> s
}

/// Largest level magnitude the coder accepts (neighbour sums stay in 32 bits).
pub const LEVEL_MAX: i32 = 0x0fff_ffff;

/// The first `n` levels are within `±LEVEL_MAX`.
pub open spec fn levels_ok(c: Seq<i32>, n: int) -> bool {
    &&& c.len() >= n
    &&& forall|k: int| 0 <= k < n ==> -LEVEL_MAX <= #[trigger] c[k] <= LEVEL_MAX
}

/// A neighbour's contribution to the significance template:
/// `min(4 + (|v| mod 2), |v|)`.
pub open spec fn tmpl_part(v: int) -> int {
    let a = abs(v);
    if 4 + a % 2 < a {
        4 + a % 2
    } else {
        a
    }
}

/// 1 for a non-zero level.
pub open spec fn nz(v: int) -> int {
    if v != 0 {
        1
    } else {
        0
    }
}

/// Whether template neighbour `k` of `(x, y)` lies inside the block: right,
/// right-right, right-below, below, below-below.
pub open spec fn nb_in(x: int, y: int, w: int, h: int, k: int) -> bool {
    if k == 0 {
        x < w - 1
    } else if k == 1 {
        x < w - 2
    } else if k == 2 {
        x < w - 1 && y < h - 1
    } else if k == 3 {
        y < h - 1
    } else {
        y < h - 2
    }
}

/// Raster position of template neighbour `k` of `(x, y)`.
pub open spec fn nb_pos(x: int, y: int, w: int, k: int) -> int {
    let p = y * w + x;
    if k == 0 {
        p + 1
    } else if k == 1 {
        p + 2
    } else if k == 2 {
        p + w + 1
    } else if k == 3 {
        p + w
    } else {
        p + 2 * w
    }
}

/// Level of template neighbour `k` (0 outside the block).
pub open spec fn nb_val(c: Seq<i32>, x: int, y: int, w: int, h: int, k: int) -> int {
    if nb_in(x, y, w, h, k) {
        c[nb_pos(x, y, w, k)] as int
    } else {
        0
    }
}

/// Sum of the significance-template contributions of the neighbours.
pub open spec fn tmpl_part_sum(c: Seq<i32>, x: int, y: int, w: int, h: int) -> int {
    tmpl_part(nb_val(c, x, y, w, h, 0)) + tmpl_part(nb_val(c, x, y, w, h, 1)) + tmpl_part(nb_val(c, x, y, w, h, 2))
        + tmpl_part(nb_val(c, x, y, w, h, 3)) + tmpl_part(nb_val(c, x, y, w, h, 4))
}

/// Number of non-zero neighbours.
pub open spec fn tmpl_nz_sum(c: Seq<i32>, x: int, y: int, w: int, h: int) -> int {
    nz(nb_val(c, x, y, w, h, 0)) + nz(nb_val(c, x, y, w, h, 1)) + nz(nb_val(c, x, y, w, h, 2)) + nz(
        nb_val(c, x, y, w, h, 3),
    ) + nz(nb_val(c, x, y, w, h, 4))
}

/// Sum of the neighbours' magnitudes.
pub open spec fn tmpl_abs_sum(c: Seq<i32>, x: int, y: int, w: int, h: int) -> int {
    abs(nb_val(c, x, y, w, h, 0)) + abs(nb_val(c, x, y, w, h, 1)) + abs(nb_val(c, x, y, w, h, 2)) + abs(
        nb_val(c, x, y, w, h, 3),
    ) + abs(nb_val(c, x, y, w, h, 4))
}

/// Significance context of `(x, y)` with the template values the gt1 /
/// parity / gt2 contexts reuse: `(ctx, diag, sum1)`.
pub open spec fn sig_ctx_spec(c: Seq<i32>, x: int, y: int, w: int, h: int, luma: bool) -> (int, int, int) {
    let sum_abs = tmpl_part_sum(c, x, y, w, h);
    let num_pos = tmpl_nz_sum(c, x, y, w, h);
    let diag = x + y;
    let base = if (sum_abs + 1) / 2 < 3 {
        (sum_abs + 1) / 2
    } else {
        3
    };
    let ofs = base + (if diag < 2 {
        4int
    } else {
        0
    }) + (if luma && diag < 5 {
        4int
    } else {
        0
    });
    (ofs, diag, sum_abs - num_pos)
}

/// Neighbour template sum for the Golomb-Rice parameter:
/// `clamp(Σ|v| − 5·base, 0, 31)`.
pub open spec fn template_abs_spec(c: Seq<i32>, x: int, y: int, w: int, h: int, base: int) -> int {
    let s = tmpl_abs_sum(c, x, y, w, h) - 5 * base;
    if s < 0 {
        0
    } else if s > 31 {
        31
    } else {
        s
    }
}

/// Context offset of the gt1 / parity / gt2 flags from the template
/// (`-1` diagonal: no template yet, offset 0).
pub open spec fn ctx_offset_spec(diag: int, sum1: int, luma: bool) -> int {
    if diag == -1 {
        0
    } else {
        let base = (if sum1 < 4 {
            sum1
        } else {
            4
        }) + 1;
        base + if luma {
            if diag == 0 {
                15int
            } else if diag < 3 {
                10
            } else if diag < 10 {
                5
            } else {
                0
            }
        } else if diag == 0 {
            5
        } else {
            0
        }
    }
}

/// Template neighbour indices of `(x, y)` stay inside the block.
proof fn lemma_tmpl_index(x: int, y: int, w: int, h: int)
    requires
        0 <= x < w,
        0 <= y < h,
        w <= 64,
        h <= 64,
    ensures
        x < w - 1 ==> y * w + x + 1 < w * h,
        x < w - 2 ==> y * w + x + 2 < w * h,
        x < w - 1 && y < h - 1 ==> y * w + x + w + 1 < w * h,
        y < h - 1 ==> y * w + x + w < w * h,
        y < h - 2 ==> y * w + x + 2 * w < w * h,
        0 <= y * w + x < w * h,
        w * h <= 4096,
{
    lemma_cell_bound(x, y, w, h);
    if x < w - 1 {
        lemma_cell_bound(x + 1, y, w, h);
    }
    if x < w - 2 {
        lemma_cell_bound(x + 2, y, w, h);
    }
    assert((y + 1) * w == y * w + w) by (nonlinear_arith);
    assert((y + 2) * w == y * w + 2 * w) by (nonlinear_arith);
    if y < h - 1 {
        lemma_cell_bound(x, y + 1, w, h);
        if x < w - 1 {
            lemma_cell_bound(x + 1, y + 1, w, h);
        }
    }
    if y < h - 2 {
        lemma_cell_bound(x, y + 2, w, h);
    }
    assert(w * h <= 4096) by (nonlinear_arith)
        requires
            0 < w <= 64,
            0 < h <= 64,
    ;
}

/// Level of template neighbour `k` of `(x, y)` (0 outside the block).
fn nb_level(coeff: &[i32], x: usize, y: usize, w: usize, h: usize, k: usize) -> (r: i32)
    requires
        x < w <= 64,
        y < h <= 64,
        k < 5,
        levels_ok(coeff@, w * h),
    ensures
        r as int == nb_val(coeff@, x as int, y as int, w as int, h as int, k as int),
        -LEVEL_MAX <= r <= LEVEL_MAX,
{
    proof {
        lemma_tmpl_index(x as int, y as int, w as int, h as int);
    }
    let p = y * w + x;
    if k == 0 {
        if x < w - 1 { coeff[p + 1] } else { 0 }
    } else if k == 1 {
        if x + 2 < w { coeff[p + 2] } else { 0 }
    } else if k == 2 {
        if x < w - 1 && y < h - 1 { coeff[p + w + 1] } else { 0 }
    } else if k == 3 {
        if y < h - 1 { coeff[p + w] } else { 0 }
    } else {
        if y + 2 < h { coeff[p + 2 * w] } else { 0 }
    }
}

/// One neighbour's significance-template contribution and non-zero count.
fn tmpl_step(v: i32) -> (r: (i32, i32))
    requires
        -LEVEL_MAX <= v <= LEVEL_MAX,
    ensures
        r.0 == tmpl_part(v as int),
        r.1 == nz(v as int),
        0 <= r.0 <= 5,
        r.1 <= r.0,
{
    let a = if v < 0 { -v } else { v };
    let cap = 4 + a % 2;
    let part = if cap < a { cap } else { a };
    (part, if v != 0 { 1 } else { 0 })
}

/// Significance-flag context of `(x, y)` with the template values
/// `(ctx, diag, sum1)` (see [`sig_ctx_spec`]).
pub fn sig_ctx(coeff: &[i32], x: usize, y: usize, w: usize, h: usize, is_luma: bool) -> (r: (usize, i32, i32))
    requires
        x < w <= 64,
        y < h <= 64,
        levels_ok(coeff@, w * h),
    ensures
        (r.0 as int, r.1 as int, r.2 as int) == sig_ctx_spec(coeff@, x as int, y as int, w as int, h as int, is_luma),
        r.0 < (if is_luma {
            12int
        } else {
            8int
        }),
        0 <= r.1 <= 126,
        0 <= r.2 <= 25,
{
    let (a0, n0) = tmpl_step(nb_level(coeff, x, y, w, h, 0));
    let (a1, n1) = tmpl_step(nb_level(coeff, x, y, w, h, 1));
    let (a2, n2) = tmpl_step(nb_level(coeff, x, y, w, h, 2));
    let (a3, n3) = tmpl_step(nb_level(coeff, x, y, w, h, 3));
    let (a4, n4) = tmpl_step(nb_level(coeff, x, y, w, h, 4));
    let sum_abs = a0 + a1 + a2 + a3 + a4;
    let num_pos = n0 + n1 + n2 + n3 + n4;
    let diag = (x + y) as i32;
    let half = (sum_abs + 1) / 2;
    let mut ctx_ofs = (if half < 3 { half } else { 3 }) + if diag < 2 { 4 } else { 0 };
    if is_luma {
        ctx_ofs += if diag < 5 { 4 } else { 0 };
    }
    (ctx_ofs as usize, diag, sum_abs - num_pos)
}

/// Context offset of the gt1 / parity / gt2 flags (see
/// [`ctx_offset_spec`]).
pub fn ctx_offset_abs(diag: i32, sum1: i32, is_luma: bool) -> (r: usize)
    requires
        diag == -1 || (0 <= diag && 0 <= sum1),
    ensures
        r as int == ctx_offset_spec(diag as int, sum1 as int, is_luma),
        r < (if is_luma {
            21int
        } else {
            11int
        }),
{
    if diag == -1 {
        return 0;
    }
    let mut offset = (if sum1 < 4 { sum1 } else { 4 }) + 1;
    offset += if is_luma {
        if diag == 0 {
            15
        } else if diag < 3 {
            10
        } else if diag < 10 {
            5
        } else {
            0
        }
    } else if diag == 0 {
        5
    } else {
        0
    };
    offset as usize
}

/// Neighbour absolute sum for the Rice parameter (see
/// [`template_abs_spec`]).
pub fn template_abs_sum(coeff: &[i32], x: usize, y: usize, w: usize, h: usize, base_level: i32) -> (r: usize)
    requires
        x < w <= 64,
        y < h <= 64,
        levels_ok(coeff@, w * h),
        0 <= base_level <= 4,
    ensures
        r as int == template_abs_spec(coeff@, x as int, y as int, w as int, h as int, base_level as int),
        r < 32,
{
    let sum = abs32(nb_level(coeff, x, y, w, h, 0)) + abs32(nb_level(coeff, x, y, w, h, 1)) + abs32(
        nb_level(coeff, x, y, w, h, 2),
    ) + abs32(nb_level(coeff, x, y, w, h, 3)) + abs32(nb_level(coeff, x, y, w, h, 4));
    let s = sum - 5 * base_level;
    (if s < 0 { 0 } else if s > 31 { 31 } else { s }) as usize
}

/// `|v|` of a bounded level.
fn abs32(v: i32) -> (r: i32)
    requires
        -LEVEL_MAX <= v <= LEVEL_MAX,
    ensures
        r == abs(v as int),
        0 <= r <= LEVEL_MAX,
{
    if v < 0 {
        -v
    } else {
        v
    }
}

/// Golomb-Rice parameter of `(x, y)`: `GO_RICE_PARS` at the template sum.
pub fn derive_rice(coeff: &[i32], x: usize, y: usize, w: usize, h: usize, base_level: i32) -> (r: u32)
    requires
        x < w <= 64,
        y < h <= 64,
        levels_ok(coeff@, w * h),
        0 <= base_level <= 4,
    ensures
        r == GO_RICE_PARS[template_abs_spec(coeff@, x as int, y as int, w as int, h as int, base_level as int)],
        r <= 3,
{
    let t = template_abs_sum(coeff, x, y, w, h, base_level);
    GO_RICE_PARS[t]
}

/// Last-significant group index of a coordinate (clamped to 31).
pub fn last_group_idx(c: usize) -> (r: u32)
    ensures
        r == GROUP_IDX[if c < 31 {
            c as int
        } else {
            31
        }],
{
    GROUP_IDX[if c < 31 { c } else { 31 }]
}

/// The gt1 / parity / gt2 contexts (H.266 `ctxInc` of
/// `abs_level_gtx_flag`): context 0 before any template; otherwise
/// `1 + min(sum1, 4)` inside a set of five chosen by the diagonal — for luma
/// the set starting at 16 on the DC diagonal, at 11 on diagonals 1 and 2, at
/// 6 on diagonals 3 to 9 and at 1 beyond; for chroma at 6 on the DC diagonal
/// and at 1 beyond.
pub proof fn lemma_gtx_ctx_sets(diag: int, sum1: int)
    requires
        diag >= 0,
        sum1 >= 0,
    ensures
        ctx_offset_spec(-1, sum1, true) == 0,
        ctx_offset_spec(-1, sum1, false) == 0,
        diag == 0 ==> ctx_offset_spec(diag, sum1, true) == 16 + if sum1 < 4 { sum1 } else { 4 },
        1 <= diag < 3 ==> ctx_offset_spec(diag, sum1, true) == 11 + if sum1 < 4 { sum1 } else { 4 },
        3 <= diag < 10 ==> ctx_offset_spec(diag, sum1, true) == 6 + if sum1 < 4 { sum1 } else { 4 },
        10 <= diag ==> ctx_offset_spec(diag, sum1, true) == 1 + if sum1 < 4 { sum1 } else { 4 },
        diag == 0 ==> ctx_offset_spec(diag, sum1, false) == 6 + if sum1 < 4 { sum1 } else { 4 },
        1 <= diag ==> ctx_offset_spec(diag, sum1, false) == 1 + if sum1 < 4 { sum1 } else { 4 },
{
}

/// The significance contexts (H.266 `ctxInc` of `sig_coeff_flag`, before the
/// dependent-quantization set): `min((sumAbs + 1) / 2, 3)` inside a set of
/// four chosen by the diagonal — for luma the set starting at 8 on
/// diagonals 0 and 1, at 4 on diagonals 2 to 4 and at 0 beyond; for chroma
/// at 4 on diagonals 0 and 1 and at 0 beyond. The diagonal is `x + y`.
pub proof fn lemma_sig_ctx_sets(c: Seq<i32>, x: int, y: int, w: int, h: int)
    ensures
        ({
            let sa = tmpl_part_sum(c, x, y, w, h);
            let t: int = if (sa + 1) / 2 < 3 { (sa + 1) / 2 } else { 3 };
            &&& sig_ctx_spec(c, x, y, w, h, true).1 == x + y
            &&& x + y < 2 ==> sig_ctx_spec(c, x, y, w, h, true).0 == 8 + t
            &&& 2 <= x + y < 5 ==> sig_ctx_spec(c, x, y, w, h, true).0 == 4 + t
            &&& 5 <= x + y ==> sig_ctx_spec(c, x, y, w, h, true).0 == t
            &&& x + y < 2 ==> sig_ctx_spec(c, x, y, w, h, false).0 == 4 + t
            &&& 2 <= x + y ==> sig_ctx_spec(c, x, y, w, h, false).0 == t
        }),
{
}

/// The context template of `(x, y)` in a `w × h` block is the two cells to
/// its right, the cell below-right and the two cells below it; a cell
/// outside the block counts as 0.
pub proof fn lemma_template_cells(c: Seq<i32>, x: int, y: int, w: int, h: int)
    requires
        0 <= x < w,
        0 <= y < h,
    ensures
        nb_val(c, x, y, w, h, 0) == if x + 1 < w { c[y * w + x + 1] as int } else { 0 },
        nb_val(c, x, y, w, h, 1) == if x + 2 < w { c[y * w + x + 2] as int } else { 0 },
        nb_val(c, x, y, w, h, 2) == if x + 1 < w && y + 1 < h { c[(y + 1) * w + x + 1] as int } else { 0 },
        nb_val(c, x, y, w, h, 3) == if y + 1 < h { c[(y + 1) * w + x] as int } else { 0 },
        nb_val(c, x, y, w, h, 4) == if y + 2 < h { c[(y + 2) * w + x] as int } else { 0 },
{
    assert((y + 1) * w == y * w + w) by (nonlinear_arith);
    assert((y + 2) * w == y * w + 2 * w) by (nonlinear_arith);
}

/// The Rice parameter for a clamped template sum `s` (H.266 Table 128): 0
/// below 7, 1 from 7 to 13, 2 from 14 to 27, 3 from 28 on.
pub proof fn lemma_rice_thresholds(s: int)
    requires
        0 <= s < 32,
    ensures
        s < 7 ==> GO_RICE_PARS[s] == 0,
        7 <= s < 14 ==> GO_RICE_PARS[s] == 1,
        14 <= s < 28 ==> GO_RICE_PARS[s] == 2,
        28 <= s ==> GO_RICE_PARS[s] == 3,
{
}

/// The last-position prefix contexts (H.266 §9.3.4.2.4): for luma the
/// offset is 0, 3, 6, 10, 15 for sizes 4 to 64 and the shift is
/// `(log2 n + 1) >> 2`; for chroma the offset is 0 and the shift is
/// `min(n >> 3, 2)`.
pub proof fn lemma_last_ctx_sizes()
    ensures
        last_offset(4, true) == 0 && last_shift(4, true) == 0,
        last_offset(8, true) == 3 && last_shift(8, true) == 1,
        last_offset(16, true) == 6 && last_shift(16, true) == 1,
        last_offset(32, true) == 10 && last_shift(32, true) == 1,
        last_offset(64, true) == 15 && last_shift(64, true) == 1,
        last_offset(4, false) == 0 && last_shift(4, false) == 0,
        last_offset(8, false) == 0 && last_shift(8, false) == 1,
        last_offset(16, false) == 0 && last_shift(16, false) == 2,
        last_offset(32, false) == 0 && last_shift(32, false) == 2,
{
}

} // verus!
