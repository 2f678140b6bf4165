//! Transform-skip residual coding (TSRC): the level remap against the
//! left/above neighbours, its context offsets, and the block coder and
//! decoder (groups in forward diagonal order, three passes per group, a
//! constant Rice parameter of 1).
use vstd::prelude::*;
use crate::cabac::contexts::Contexts;
use crate::cabac::engine::{
    bits_prefix, ctx_after, d_ctx_bin, d_decode_bypass, m_bypass_seq, m_ctx_bin, m_encode_bypass, ArithModel,
    CabacDecoder, CabacEncoder, DecModel,
};
use super::rem::{d_rem, rem_bits};
use vstd::array::spec_array_update;
use crate::transform::quant::abs;
use super::rem::{decode_rem_abs_ep, encode_rem_abs_ep};
use super::scan::{diag_scan, diag_seq, lemma_diag_seq, tb_side_ok};

verus! {

/// The QP at which transform-skip coding is lossless.
pub const LOSSLESS_QP: u8 = 4;

/// Lossless transform-skip dequantization: `(level·64 + 32) >> 6`.
pub open spec fn ts_dequant_lossless_spec(level: int) -> int {
    (level * 64 + 32) / 64
}

/// Transform-skip dequantization at the lossless QP.
pub fn ts_dequant_lossless(level: i32) -> (r: i32)
    requires
        -0x100_0000 <= level <= 0x100_0000,
    ensures
        r == ts_dequant_lossless_spec(level as int),
        r == level,
{
    proof {
        vstd::arithmetic::power2::lemma2_to64();
        vstd::arithmetic::div_mod::lemma_fundamental_div_mod_converse(level * 64 + 32, 64, level as int, 32);
    }
    crate::arith::asr32(level * 64 + 32, 6)
}

/// Predicted magnitude of a transform-skip level: the larger neighbour
/// magnitude.
pub open spec fn mod_pred(right: int, below: int) -> int {
    if abs(below) > abs(right) {
        abs(below)
    } else {
        abs(right)
    }
}

/// The coded magnitude of `abs_coeff` against its neighbours: the predicted
/// magnitude becomes 1, smaller ones move up by one, larger stay.
pub open spec fn mod_coeff_spec(right: int, below: int, abs_coeff: int) -> int {
    if abs_coeff == 0 {
        0
    } else {
        let pred = mod_pred(right, below);
        if abs_coeff == pred {
            1
        } else if abs_coeff < pred {
            abs_coeff + 1
        } else {
            abs_coeff
        }
    }
}

/// The decoder's inverse of [`mod_coeff_spec`].
pub open spec fn dec_mod_coeff_spec(right: int, below: int, abs_mod: int) -> int {
    if abs_mod == 0 {
        0
    } else {
        let pred = mod_pred(right, below);
        if abs_mod == 1 && pred > 0 {
            pred
        } else if abs_mod <= pred {
            abs_mod - 1
        } else {
            abs_mod
        }
    }
}

/// Level magnitudes (and their neighbours) the transform-skip coder
/// accepts: products of two of them fit in 32 bits.
pub open spec fn ts_level_ok(v: int) -> bool {
    -0x7fff <= v <= 0x7fff
}

/// Remap a level magnitude against its right/below neighbours.
pub fn derive_mod_coeff(right: i32, below: i32, abs_coeff: i32) -> (r: i32)
    requires
        ts_level_ok(right as int),
        ts_level_ok(below as int),
        0 <= abs_coeff <= 0x7fff,
    ensures
        r == mod_coeff_spec(right as int, below as int, abs_coeff as int),
        0 <= r <= 0x8000,
{
    if abs_coeff == 0 {
        return 0;
    }
    let ab = if below < 0 { -below } else { below };
    let ar = if right < 0 { -right } else { right };
    let pred = if ab > ar { ab } else { ar };
    if abs_coeff == pred {
        1
    } else if abs_coeff < pred {
        abs_coeff + 1
    } else {
        abs_coeff
    }
}

/// Undo [`derive_mod_coeff`] on the decoder side.
pub fn dec_derive_mod_coeff(right: i32, below: i32, abs_mod: i32) -> (r: i32)
    requires
        -0x100_0000 <= right <= 0x100_0000,
        -0x100_0000 <= below <= 0x100_0000,
        0 <= abs_mod <= 0x100_0000,
    ensures
        r == dec_mod_coeff_spec(right as int, below as int, abs_mod as int),
        0 <= r <= 0x100_0000,
{
    if abs_mod == 0 {
        return 0;
    }
    let ab = if below < 0 { -below } else { below };
    let ar = if right < 0 { -right } else { right };
    let pred = if ab > ar { ab } else { ar };
    if abs_mod == 1 && pred > 0 {
        pred
    } else {
        abs_mod - if abs_mod <= pred { 1 } else { 0 }
    }
}

/// The level remap is exactly invertible: decoding the coded magnitude of a
/// significant level gives the level back, and the coded magnitude stays
/// significant.
pub proof fn lemma_mod_coeff_inverse(right: int, below: int, abs_coeff: int)
    requires
        abs_coeff >= 1,
    ensures
        mod_coeff_spec(right, below, abs_coeff) >= 1,
        dec_mod_coeff_spec(right, below, mod_coeff_spec(right, below, abs_coeff)) == abs_coeff,
{
}

/// Significance context offset: the number of non-zero left/above
/// neighbours.
pub fn sig_ctx_offset_ts(left_nonzero: bool, above_nonzero: bool) -> (r: usize)
    ensures
        r == (if left_nonzero {
            1int
        } else {
            0
        }) + (if above_nonzero {
            1int
        } else {
            0
        }),
{
    (if left_nonzero { 1 } else { 0 }) + (if above_nonzero { 1 } else { 0 })
}

/// Greater-than-one context offset: the neighbour count, or 3 under BDPCM.
pub fn gt1_ctx_offset_ts(left_nonzero: bool, above_nonzero: bool, bdpcm: bool) -> (r: usize)
    ensures
        r == if bdpcm {
            3int
        } else {
            (if left_nonzero {
                1int
            } else {
                0
            }) + (if above_nonzero {
                1int
            } else {
                0
            })
        },
{
    if bdpcm {
        3
    } else {
        sig_ctx_offset_ts(left_nonzero, above_nonzero)
    }
}

/// Sign context offset: 0 when both neighbours are zero or of opposite
/// signs, 1 when both are non-negative, 2 otherwise; BDPCM adds 3.
pub open spec fn sign_ctx_spec(right: int, below: int, bdpcm: bool) -> int {
    let base = if (right == 0 && below == 0) || right * below < 0 {
        0int
    } else if right >= 0 && below >= 0 {
        1
    } else {
        2
    };
    base + if bdpcm {
        3int
    } else {
        0
    }
}

/// Sign context offset from the signed right/below neighbour levels (see
/// [`sign_ctx_spec`]).
pub fn sign_ctx_offset_ts(right: i32, below: i32, bdpcm: bool) -> (r: usize)
    ensures
        r == sign_ctx_spec(right as int, below as int, bdpcm),
        r < 6,
{
    proof {
        if right < 0 && below > 0 {
            assert(right * below < 0) by (nonlinear_arith)
                requires
                    right < 0,
                    below > 0,
            ;
        } else if right > 0 && below < 0 {
            assert(right * below < 0) by (nonlinear_arith)
                requires
                    right > 0,
                    below < 0,
            ;
        } else {
            assert(right * below >= 0) by (nonlinear_arith)
                requires
                    !(right < 0 && below > 0),
                    !(right > 0 && below < 0),
            ;
        }
    }
    let opposite = (right < 0 && below > 0) || (right > 0 && below < 0);
    let base: usize = if (right == 0 && below == 0) || opposite {
        0
    } else if right >= 0 && below >= 0 {
        1
    } else {
        2
    };
    base + if bdpcm { 3 } else { 0 }
}

/// The transform-skip Rice parameter (a constant 1).
pub fn rice_param_ts() -> (r: u32)
    ensures
        r == 1,
{
    1
}

/// Transform-skip block sides: powers of two from 4 to 64.
pub open spec fn ts_size_ok(w: int, h: int) -> bool {
    tb_side_ok(w) && tb_side_ok(h)
}

/// The first `n` levels are within the transform-skip level range.
pub open spec fn ts_levels_ok(c: Seq<i32>, n: int) -> bool {
    &&& c.len() >= n
    &&& forall|k: int| 0 <= k < n ==> ts_level_ok(#[trigger] c[k] as int)
}

/// Bound on the CABAC growth (outstanding bits, or decoder position) of one
/// transform-skip block.
pub open spec fn ts_budget() -> int {
    0x10_0000
}

/// Bound on the growth of one coefficient group.
pub open spec fn ts_group_budget() -> int {
    2200
}

/// A cell of a block of at most 64 × 64 lies before `w·h ≤ 4096` in raster
/// order.
proof fn lemma_cell_small(x: int, y: int, w: int, h: int)
    requires
        0 <= x < w <= 64,
        0 <= y < h <= 64,
    ensures
        0 <= y * w + x < w * h <= 4096,
{
    super::ctx::lemma_cell_bound(x, y, w, h);
    assert(w * h <= 4096) by (nonlinear_arith)
        requires
            0 < w <= 64,
            0 < h <= 64,
    ;
}

/// The 16 cells of coefficient group `(cgx, cgy)` in diagonal order.
pub open spec fn ts_group_cells(cgx: int, cgy: int) -> Seq<(usize, usize)> {
    Seq::new(16, |k: int| ((cgx * 4 + diag_seq(4, 4)[k].0) as usize, (cgy * 4 + diag_seq(4, 4)[k].1) as usize))
}

/// Some level of the cells is non-zero.
pub open spec fn ts_cells_nonzero(c: Seq<i32>, w: int, cells: Seq<(usize, usize)>) -> bool {
    exists|k: int| 0 <= k < 16 && #[trigger] c[cells[k].1 as int * w + cells[k].0 as int] != 0
}

/// Encoder state, contexts, regular-bin budget, group significance map and
/// whether any group so far was significant, while a transform-skip block is
/// coded group by group.
pub struct TsBlock {
    pub m: ArithModel,
    pub c: Contexts,
    pub bins: int,
    pub sig: Seq<bool>,
    pub any: bool,
}

/// Coefficient group `g` of the diagonal group scan `cg` (`wig × hig`
/// groups): its significance flag (context: significant left and above
/// groups; inferred for the last group when no earlier one was
/// significant), then, when significant, the three passes.
pub open spec fn ts_group(
    s: TsBlock,
    c: Seq<i32>,
    w: int,
    wig: int,
    num_cg: int,
    cg: Seq<(usize, usize)>,
    bdpcm: bool,
    g: int,
) -> TsBlock {
    let cgx = cg[g].0 as int;
    let cgy = cg[g].1 as int;
    let cells = ts_group_cells(cgx, cgy);
    let gs = ts_cells_nonzero(c, w, cells);
    let infer = g == num_cg - 1 && !s.any;
    let ci = (if cgx > 0 && s.sig[cgy * wig + cgx - 1] { 1int } else { 0 }) + (if cgy > 0 && s.sig[(cgy - 1) * wig
        + cgx] { 1int } else { 0 });
    let b: u8 = if gs { 1 } else { 0 };
    let m1 = if infer { s.m } else { m_ctx_bin(s.m, b, s.c.ts_sig_group[ci]) };
    let c1 = if infer {
        s.c
    } else {
        Contexts { ts_sig_group: spec_array_update(s.c.ts_sig_group, ci, ctx_after(s.c.ts_sig_group[ci], b)), ..s.c }
    };
    if infer || gs {
        let q1 = ts_p1(TsPass { m: m1, c: c1, bins: s.bins, nz: 0, last: -1 }, c, w, cells, bdpcm, 16);
        let q2 = ts_p2(TsPass { nz: 0, last: -1, ..q1 }, c, w, cells, bdpcm, 16);
        TsBlock {
            m: ts_p3(q2.m, c, w, cells, bdpcm, q1.last, q2.last, 16),
            c: q2.c,
            bins: q2.bins,
            sig: s.sig.update(cgy * wig + cgx, true),
            any: true,
        }
    } else {
        TsBlock { m: m1, c: c1, ..s }
    }
}

/// The first `n` groups of the block.
pub open spec fn ts_groups(
    s: TsBlock,
    c: Seq<i32>,
    w: int,
    wig: int,
    num_cg: int,
    cg: Seq<(usize, usize)>,
    bdpcm: bool,
    n: nat,
) -> TsBlock
    decreases n,
{
    if n == 0 {
        s
    } else {
        ts_group(ts_groups(s, c, w, wig, num_cg, cg, bdpcm, (n - 1) as nat), c, w, wig, num_cg, cg, bdpcm, n - 1)
    }
}

/// The encoder state and contexts after coding the `w × h` transform-skip
/// block `c` from `m` and `ctx`: the groups in diagonal order with a budget
/// of `7·w·h/4` regular bins.
pub open spec fn ts_residual_model(m: ArithModel, ctx: Contexts, c: Seq<i32>, w: int, h: int, bdpcm: bool) -> (ArithModel, Contexts) {
    let wig = w / 4;
    let hig = h / 4;
    let s0 = TsBlock { m, c: ctx, bins: (w * h * 7) / 4, sig: Seq::new((wig * hig) as nat, |i: int| false), any: false };
    let r = ts_groups(s0, c, w, wig, wig * hig, diag_seq(wig, hig), bdpcm, (wig * hig) as nat);
    (r.m, r.c)
}

fn group_cells(cgx: usize, cgy: usize, sub: &Vec<(usize, usize)>, w: usize, h: usize) -> (r: Vec<(usize, usize)>)
    requires
        sub@ == diag_seq(4, 4),
        cgx < w / 4,
        cgy < h / 4,
        w <= 64,
        h <= 64,
    ensures
        r.len() == 16,
        forall|k: int| 0 <= k < 16 ==> (#[trigger] r@[k]).0 < w && r@[k].1 < h,
        r@ == ts_group_cells(cgx as int, cgy as int),
{
    proof {
        lemma_diag_seq(4, 4);
    }
    let mut r: Vec<(usize, usize)> = Vec::new();
    let mut i: usize = 0;
    while i < 16
        invariant
            sub@ == diag_seq(4, 4),
            sub.len() == 16,
            forall|k: int| 0 <= k < 16 ==> (#[trigger] sub@[k]).0 < 4 && sub@[k].1 < 4,
            cgx < w / 4,
            cgy < h / 4,
            w <= 64,
            h <= 64,
            i <= 16,
            r.len() == i,
            forall|k: int| 0 <= k < i ==> (#[trigger] r@[k]).0 < w && r@[k].1 < h,
            forall|k: int| 0 <= k < i ==> #[trigger] r@[k] == ts_group_cells(cgx as int, cgy as int)[k],
        decreases 16 - i,
    {
        let (sx, sy) = sub[i];
        r.push((cgx * 4 + sx, cgy * 4 + sy));
        i += 1;
    }
    assert(r@ =~= ts_group_cells(cgx as int, cgy as int));
    r
}

/// The level at `(x, y)`, 0 outside the block.
fn getv(coeff: &[i32], w: usize, h: usize, x: usize, y: usize, dx: bool, dy: bool) -> (r: i32)
    requires
        coeff.len() >= w * h,
        x < w <= 64,
        y < h <= 64,
        !(dx && dy),
    ensures
        r == (if (dx && x == 0) || (dy && y == 0) {
            0
        } else {
            coeff@[(if dy {
                y - 1
            } else {
                y as int
            }) * w + (if dx {
                x - 1
            } else {
                x as int
            })]
        }),
{
    if (dx && x == 0) || (dy && y == 0) {
        0
    } else {
        let xx = if dx { x - 1 } else { x };
        let yy = if dy { y - 1 } else { y };
        proof {
            super::ctx::lemma_cell_bound(xx as int, yy as int, w as int, h as int);
        }
        coeff[yy * w + xx]
    }
}

/// Left and above neighbours of `(x, y)` (0 outside the block), bounded.
fn neighbours(coeff: &[i32], w: usize, h: usize, x: usize, y: usize, Ghost(b): Ghost<int>) -> (r: (i32, i32))
    requires
        coeff.len() >= w * h,
        x < w <= 64,
        y < h <= 64,
        0 <= b,
        forall|k: int| 0 <= k < w * h ==> -b <= #[trigger] coeff@[k] <= b,
    ensures
        -b <= r.0 <= b,
        -b <= r.1 <= b,
        r.0 == ts_left(coeff@, w as int, x as int, y as int),
        r.1 == ts_above(coeff@, w as int, x as int, y as int),
{
    proof {
        if x > 0 {
            super::ctx::lemma_cell_bound(x - 1, y as int, w as int, h as int);
        }
        if y > 0 {
            super::ctx::lemma_cell_bound(x as int, y - 1, w as int, h as int);
        }
    }
    (getv(coeff, w, h, x, y, true, false), getv(coeff, w, h, x, y, false, true))
}

/// Magnitude of `(x, y)` as coded: remapped against the neighbours unless
/// BDPCM.
fn mod_abs(coeff: &[i32], w: usize, h: usize, x: usize, y: usize, bdpcm: bool) -> (r: i32)
    requires
        ts_levels_ok(coeff@, w * h),
        x < w <= 64,
        y < h <= 64,
    ensures
        0 <= r <= 0x8000,
        r == ts_mod_abs(coeff@, w as int, x as int, y as int, bdpcm),
{
    proof {
        lemma_cell_small(x as int, y as int, w as int, h as int);
    }
    let v = coeff[y * w + x];
    let a = if v < 0 { -v } else { v };
    if bdpcm {
        a
    } else {
        let (l, u) = neighbours(coeff, w, h, x, y, Ghost(0x7fff));
        derive_mod_coeff(l, u, a)
    }
}

/// The left neighbour level of `(x, y)` in a block of width `w` (0 on the
/// left edge).
pub open spec fn ts_left(c: Seq<i32>, w: int, x: int, y: int) -> int {
    if x == 0 {
        0
    } else {
        c[y * w + x - 1] as int
    }
}

/// The above neighbour level of `(x, y)` (0 on the top edge).
pub open spec fn ts_above(c: Seq<i32>, w: int, x: int, y: int) -> int {
    if y == 0 {
        0
    } else {
        c[(y - 1) * w + x] as int
    }
}

/// The magnitude of `(x, y)` as coded: remapped against the neighbours
/// unless BDPCM.
pub open spec fn ts_mod_abs(c: Seq<i32>, w: int, x: int, y: int, bdpcm: bool) -> int {
    let v = c[y * w + x] as int;
    let a = if v < 0 {
        -v
    } else {
        v
    };
    if bdpcm {
        a
    } else {
        mod_coeff_spec(ts_left(c, w, x, y), ts_above(c, w, x, y), a)
    }
}

/// Encoder state, contexts and regular-bin budget while a transform-skip
/// block is coded, with the non-zero count and last cell of a pass.
pub struct TsPass {
    pub m: ArithModel,
    pub c: Contexts,
    pub bins: int,
    pub nz: int,
    pub last: int,
}

/// `s` after coding `b` with `ts_sig_flag[i]`.
pub open spec fn ts_sig_bin(s: TsPass, i: int, b: u8) -> TsPass {
    TsPass {
        m: m_ctx_bin(s.m, b, s.c.ts_sig_flag[i]),
        c: Contexts { ts_sig_flag: spec_array_update(s.c.ts_sig_flag, i, ctx_after(s.c.ts_sig_flag[i], b)), ..s.c },
        bins: s.bins - 1,
        ..s
    }
}

/// `s` after coding `b` with `ts_sign_flag[i]`.
pub open spec fn ts_sign_bin(s: TsPass, i: int, b: u8) -> TsPass {
    TsPass {
        m: m_ctx_bin(s.m, b, s.c.ts_sign_flag[i]),
        c: Contexts { ts_sign_flag: spec_array_update(s.c.ts_sign_flag, i, ctx_after(s.c.ts_sign_flag[i], b)), ..s.c },
        bins: s.bins - 1,
        ..s
    }
}

/// `s` after coding `b` with `ts_lrg1_flag[i]`.
pub open spec fn ts_gt1_bin(s: TsPass, i: int, b: u8) -> TsPass {
    TsPass {
        m: m_ctx_bin(s.m, b, s.c.ts_lrg1_flag[i]),
        c: Contexts { ts_lrg1_flag: spec_array_update(s.c.ts_lrg1_flag, i, ctx_after(s.c.ts_lrg1_flag[i], b)), ..s.c },
        bins: s.bins - 1,
        ..s
    }
}

/// `s` after coding `b` with `ts_par_flag[0]`.
pub open spec fn ts_par_bin(s: TsPass, b: u8) -> TsPass {
    TsPass {
        m: m_ctx_bin(s.m, b, s.c.ts_par_flag[0]),
        c: Contexts { ts_par_flag: spec_array_update(s.c.ts_par_flag, 0, ctx_after(s.c.ts_par_flag[0], b)), ..s.c },
        bins: s.bins - 1,
        ..s
    }
}

/// `s` after coding `b` with `ts_gtx_flag[i]`.
pub open spec fn ts_gtx_bin(s: TsPass, i: int, b: u8) -> TsPass {
    TsPass {
        m: m_ctx_bin(s.m, b, s.c.ts_gtx_flag[i]),
        c: Contexts { ts_gtx_flag: spec_array_update(s.c.ts_gtx_flag, i, ctx_after(s.c.ts_gtx_flag[i], b)), ..s.c },
        bins: s.bins - 1,
        ..s
    }
}

/// Pass 1 at cell `k` of a group: the significance flag (skipped at the
/// last cell when nothing before was significant), then for a non-zero
/// level its sign, greater-than-one flag and, above one, the parity of the
/// rest.
pub open spec fn ts_p1_cell(s: TsPass, c: Seq<i32>, w: int, cells: Seq<(usize, usize)>, bdpcm: bool, k: int) -> TsPass {
    let x = cells[k].0 as int;
    let y = cells[k].1 as int;
    let v = c[y * w + x];
    let l = ts_left(c, w, x, y);
    let u = ts_above(c, w, x, y);
    let s1 = if s.nz > 0 || k != 15 {
        ts_sig_bin(s, (if l != 0 { 1int } else { 0 }) + (if u != 0 { 1int } else { 0 }), if v != 0 { 1u8 } else { 0u8 })
    } else {
        s
    };
    if v == 0 {
        TsPass { last: k, ..s1 }
    } else {
        let s2 = ts_sign_bin(s1, sign_ctx_spec(l, u, bdpcm), if v < 0 { 1u8 } else { 0u8 });
        let rem = ts_mod_abs(c, w, x, y, bdpcm) - 1;
        let gi = if bdpcm { 3int } else { (if l != 0 { 1int } else { 0 }) + (if u != 0 { 1int } else { 0 }) };
        let s3 = ts_gt1_bin(s2, gi, if rem != 0 { 1u8 } else { 0u8 });
        let s4 = if rem != 0 {
            ts_par_bin(s3, ((rem - 1) % 2) as u8)
        } else {
            s3
        };
        TsPass { nz: s4.nz + 1, last: k, ..s4 }
    }
}

/// Pass 1 over the first `n` cells of a group, stopping once fewer than four
/// regular bins remain.
pub open spec fn ts_p1(s: TsPass, c: Seq<i32>, w: int, cells: Seq<(usize, usize)>, bdpcm: bool, n: nat) -> TsPass
    decreases n,
{
    if n == 0 {
        s
    } else {
        let p = ts_p1(s, c, w, cells, bdpcm, (n - 1) as nat);
        if p.bins >= 4 {
            ts_p1_cell(p, c, w, cells, bdpcm, n - 1)
        } else {
            p
        }
    }
}

proof fn lemma_ts_p1_stop(s: TsPass, c: Seq<i32>, w: int, cells: Seq<(usize, usize)>, bdpcm: bool, k: nat, n: nat)
    requires
        k <= n,
        ts_p1(s, c, w, cells, bdpcm, k).bins < 4,
    ensures
        ts_p1(s, c, w, cells, bdpcm, n) == ts_p1(s, c, w, cells, bdpcm, k),
    decreases n,
{
    if n > k {
        lemma_ts_p1_stop(s, c, w, cells, bdpcm, k, (n - 1) as nat);
    }
}

/// The first `i` greater-than flags of pass 2 for a cell of coded
/// magnitude `a`: flag `j` (context `1 + j`) says whether `a ≥ 4 + 2j`, coded
/// when `a ≥ 2 + 2j`.
pub open spec fn ts_p2_flags(s: TsPass, a: int, i: nat) -> TsPass
    decreases i,
{
    if i == 0 {
        s
    } else {
        let p = ts_p2_flags(s, a, (i - 1) as nat);
        let cutoff = 2 + 2 * (i - 1);
        if a >= cutoff {
            ts_gtx_bin(p, cutoff / 2, if a >= cutoff + 2 { 1u8 } else { 0u8 })
        } else {
            p
        }
    }
}

/// Pass 2 over the first `n` cells of a group, stopping once fewer than four
/// regular bins remain.
pub open spec fn ts_p2(s: TsPass, c: Seq<i32>, w: int, cells: Seq<(usize, usize)>, bdpcm: bool, n: nat) -> TsPass
    decreases n,
{
    if n == 0 {
        s
    } else {
        let p = ts_p2(s, c, w, cells, bdpcm, (n - 1) as nat);
        if p.bins >= 4 {
            let q = ts_p2_flags(p, ts_mod_abs(c, w, cells[n - 1].0 as int, cells[n - 1].1 as int, bdpcm), 4);
            TsPass { last: n - 1, ..q }
        } else {
            p
        }
    }
}

proof fn lemma_ts_p2_stop(s: TsPass, c: Seq<i32>, w: int, cells: Seq<(usize, usize)>, bdpcm: bool, k: nat, n: nat)
    requires
        k <= n,
        ts_p2(s, c, w, cells, bdpcm, k).bins < 4,
    ensures
        ts_p2(s, c, w, cells, bdpcm, n) == ts_p2(s, c, w, cells, bdpcm, k),
    decreases n,
{
    if n > k {
        lemma_ts_p2_stop(s, c, w, cells, bdpcm, k, (n - 1) as nat);
    }
}

/// Pass 3 at cell `k`: the bypass remainder (Rice parameter 1) of what the
/// flags left (all of the level for cells pass 1 did not reach, `(a − 10)/2`
/// after pass 2, `(a − 2)/2` after pass 1 only), then the sign of cells pass
/// 1 did not reach.
pub open spec fn ts_p3_cell(
    m: ArithModel,
    c: Seq<i32>,
    w: int,
    cells: Seq<(usize, usize)>,
    bdpcm: bool,
    last1: int,
    last2: int,
    k: int,
) -> ArithModel {
    let x = cells[k].0 as int;
    let y = cells[k].1 as int;
    let v = c[y * w + x] as int;
    let cutoff = if k <= last2 {
        10int
    } else if k <= last1 {
        2
    } else {
        0
    };
    let a = if cutoff == 0 || bdpcm {
        if v < 0 {
            -v
        } else {
            v
        }
    } else {
        ts_mod_abs(c, w, x, y, bdpcm)
    };
    if a >= cutoff {
        let rem = if k <= last1 {
            (a - cutoff) / 2
        } else {
            a
        };
        let m1 = m_bypass_seq(m, rem_bits(rem, 1));
        if a != 0 && k > last1 {
            m_encode_bypass(m1, v < 0)
        } else {
            m1
        }
    } else {
        m
    }
}

/// Pass 3 over the first `n` cells of a group.
pub open spec fn ts_p3(
    m: ArithModel,
    c: Seq<i32>,
    w: int,
    cells: Seq<(usize, usize)>,
    bdpcm: bool,
    last1: int,
    last2: int,
    n: nat,
) -> ArithModel
    decreases n,
{
    if n == 0 {
        m
    } else {
        ts_p3_cell(ts_p3(m, c, w, cells, bdpcm, last1, last2, (n - 1) as nat), c, w, cells, bdpcm, last1, last2, n - 1)
    }
}

/// Pass 1 of a group: significance (inferred at the last cell when nothing
/// before it was significant), sign, greater-than-one and parity flags,
/// while at least 4 regular bins remain. Returns the last cell visited.
#[verifier::rlimit(80)]
fn encode_ts_pass1(
    enc: &mut CabacEncoder,
    ctx: &mut Contexts,
    coeff: &[i32],
    w: usize,
    h: usize,
    cells: &Vec<(usize, usize)>,
    bdpcm: bool,
    bins: &mut i32,
) -> (last: i32)
    requires
        old(enc).wf(),
        old(enc).headroom() >= 16 * 32,
        ts_levels_ok(coeff@, w * h),
        w <= 64,
        h <= 64,
        cells.len() == 16,
        forall|k: int| 0 <= k < 16 ==> (#[trigger] cells@[k]).0 < w && cells@[k].1 < h,
        0 <= *old(bins) <= 0x2000,
    ensures
        final(enc).wf(),
        bits_prefix(old(enc).model().bits, final(enc).model().bits),
        final(enc).model().outstanding <= old(enc).model().outstanding + 16 * 32,
        0 <= *final(bins) <= *old(bins),
        -1 <= last < 16,
        ({
            let r = ts_p1(
                TsPass { m: old(enc).model(), c: *old(ctx), bins: *old(bins) as int, nz: 0, last: -1 },
                coeff@,
                w as int,
                cells@,
                bdpcm,
                16,
            );
            final(enc).model() == r.m && *final(ctx) == r.c && *final(bins) == r.bins && last == r.last
        }),
{
    let mut num_nonzero: u32 = 0;
    let mut last: i32 = -1;
    let mut k: usize = 0;
    let ghost o0 = enc.model().outstanding;
    let ghost s0 = TsPass { m: enc.model(), c: *ctx, bins: *bins as int, nz: 0, last: -1 };
    while k < 16 && *bins >= 4
        invariant
            enc.wf(),
            bits_prefix(old(enc).model().bits, enc.model().bits),
            old(enc).headroom() >= 16 * 32,
            o0 == old(enc).model().outstanding,
            ts_levels_ok(coeff@, w * h),
            w <= 64,
            h <= 64,
            cells.len() == 16,
            forall|j: int| 0 <= j < 16 ==> (#[trigger] cells@[j]).0 < w && cells@[j].1 < h,
            0 <= *bins <= *old(bins),
            k <= 16,
            num_nonzero <= k,
            -1 <= last < k,
            enc.model().outstanding <= o0 + 32 * k,
            s0 == (TsPass { m: old(enc).model(), c: *old(ctx), bins: *old(bins) as int, nz: 0, last: -1 }),
            (TsPass { m: enc.model(), c: *ctx, bins: *bins as int, nz: num_nonzero as int, last: last as int })
                == ts_p1(s0, coeff@, w as int, cells@, bdpcm, k as nat),
        decreases 16 - k,
    {
        let ghost sp = TsPass { m: enc.model(), c: *ctx, bins: *bins as int, nz: num_nonzero as int, last: last as int };
        let (x, y) = cells[k];
        proof {
            lemma_cell_small(x as int, y as int, w as int, h as int);
        }
        let cval = coeff[y * w + x];
        let (l, u) = neighbours(coeff, w, h, x, y, Ghost(0x7fff));
        let left_nz = l != 0;
        let above_nz = u != 0;
        if num_nonzero > 0 || k != 15 {
            let si = sig_ctx_offset_ts(left_nz, above_nz);
            let sb: u8 = if cval != 0 { 1 } else { 0 };
            let ghost cb = *ctx;
            enc.encode_bin(sb, &mut ctx.ts_sig_flag[si]);
            proof {
                assert(ctx.ts_sig_flag =~= spec_array_update(cb.ts_sig_flag, si as int, ctx_after(cb.ts_sig_flag[si as int], sb)));
            }
            *bins = *bins - 1;
        }
        let ghost s1 = TsPass { m: enc.model(), c: *ctx, bins: *bins as int, nz: num_nonzero as int, last: last as int };
        if cval != 0 {
            let sofs = sign_ctx_offset_ts(l, u, bdpcm);
            let gb: u8 = if cval < 0 { 1 } else { 0 };
            let ghost cb = *ctx;
            enc.encode_bin(gb, &mut ctx.ts_sign_flag[sofs]);
            proof {
                assert(ctx.ts_sign_flag =~= spec_array_update(cb.ts_sign_flag, sofs as int, ctx_after(cb.ts_sign_flag[sofs as int], gb)));
            }
            *bins = *bins - 1;
            let ghost s2 = TsPass { m: enc.model(), c: *ctx, bins: *bins as int, nz: num_nonzero as int, last: last as int };
            assert(s2 == ts_sign_bin(s1, sign_ctx_spec(l as int, u as int, bdpcm), gb));
            num_nonzero += 1;
            let mut rem = mod_abs(coeff, w, h, x, y, bdpcm) - 1;
            let gt1: u8 = if rem != 0 { 1 } else { 0 };
            let gi = gt1_ctx_offset_ts(left_nz, above_nz, bdpcm);
            let ghost cb = *ctx;
            enc.encode_bin(gt1, &mut ctx.ts_lrg1_flag[gi]);
            proof {
                assert(ctx.ts_lrg1_flag =~= spec_array_update(cb.ts_lrg1_flag, gi as int, ctx_after(cb.ts_lrg1_flag[gi as int], gt1)));
            }
            *bins = *bins - 1;
            let ghost s3 = TsPass { m: enc.model(), c: *ctx, bins: *bins as int, nz: s2.nz, last: last as int };
            assert(s3 == ts_gt1_bin(s2, gi as int, gt1));
            if gt1 == 1 {
                rem = rem - 1;
                let pb: u8 = (rem % 2) as u8;
                let ghost cb = *ctx;
                enc.encode_bin(pb, &mut ctx.ts_par_flag[0]);
                proof {
                    assert(ctx.ts_par_flag =~= spec_array_update(cb.ts_par_flag, 0, ctx_after(cb.ts_par_flag[0], pb)));
                }
                *bins = *bins - 1;
            }
        }
        last = k as i32;
        k += 1;
    }
    proof {
        if k < 16 {
            lemma_ts_p1_stop(s0, coeff@, w as int, cells@, bdpcm, k as nat, 16);
        }
    }
    last
}

/// Pass 2 of a group: up to four greater-than flags per cell while at least
/// 4 regular bins remain. Returns the last cell visited.
fn encode_ts_pass2(
    enc: &mut CabacEncoder,
    ctx: &mut Contexts,
    coeff: &[i32],
    w: usize,
    h: usize,
    cells: &Vec<(usize, usize)>,
    bdpcm: bool,
    bins: &mut i32,
) -> (last: i32)
    requires
        old(enc).wf(),
        old(enc).headroom() >= 16 * 32,
        ts_levels_ok(coeff@, w * h),
        w <= 64,
        h <= 64,
        cells.len() == 16,
        forall|k: int| 0 <= k < 16 ==> (#[trigger] cells@[k]).0 < w && cells@[k].1 < h,
        0 <= *old(bins) <= 0x2000,
    ensures
        final(enc).wf(),
        bits_prefix(old(enc).model().bits, final(enc).model().bits),
        final(enc).model().outstanding <= old(enc).model().outstanding + 16 * 32,
        0 <= *final(bins) <= *old(bins),
        -1 <= last < 16,
        ({
            let r = ts_p2(
                TsPass { m: old(enc).model(), c: *old(ctx), bins: *old(bins) as int, nz: 0, last: -1 },
                coeff@,
                w as int,
                cells@,
                bdpcm,
                16,
            );
            final(enc).model() == r.m && *final(ctx) == r.c && *final(bins) == r.bins && last == r.last
        }),
{
    let mut last: i32 = -1;
    let mut k: usize = 0;
    let ghost o0 = enc.model().outstanding;
    let ghost s0 = TsPass { m: enc.model(), c: *ctx, bins: *bins as int, nz: 0, last: -1 };
    while k < 16 && *bins >= 4
        invariant
            enc.wf(),
            bits_prefix(old(enc).model().bits, enc.model().bits),
            old(enc).headroom() >= 16 * 32,
            o0 == old(enc).model().outstanding,
            ts_levels_ok(coeff@, w * h),
            w <= 64,
            h <= 64,
            cells.len() == 16,
            forall|j: int| 0 <= j < 16 ==> (#[trigger] cells@[j]).0 < w && cells@[j].1 < h,
            0 <= *bins <= *old(bins),
            k <= 16,
            -1 <= last < k,
            enc.model().outstanding <= o0 + 32 * k,
            s0 == (TsPass { m: old(enc).model(), c: *old(ctx), bins: *old(bins) as int, nz: 0, last: -1 }),
            (TsPass { m: enc.model(), c: *ctx, bins: *bins as int, nz: 0, last: last as int })
                == ts_p2(s0, coeff@, w as int, cells@, bdpcm, k as nat),
        decreases 16 - k,
    {
        let (x, y) = cells[k];
        let abs_level = mod_abs(coeff, w, h, x, y, bdpcm);
        let mut cutoff: i32 = 2;
        let mut i: usize = 0;
        let ghost o1 = enc.model().outstanding;
        let ghost b1 = *bins;
        let ghost sp = TsPass { m: enc.model(), c: *ctx, bins: *bins as int, nz: 0, last: last as int };
        while i < 4
            invariant
                enc.wf(),
                bits_prefix(old(enc).model().bits, enc.model().bits),
                old(enc).headroom() >= 16 * 32,
                o0 == old(enc).model().outstanding,
                o1 <= o0 + 32 * k,
                k < 16,
                i <= 4,
                cutoff == 2 + 2 * i,
                b1 >= 4,
                b1 - i <= *bins <= b1,
                enc.model().outstanding <= o1 + 8 * i,
                (TsPass { m: enc.model(), c: *ctx, bins: *bins as int, nz: 0, last: last as int })
                    == ts_p2_flags(sp, abs_level as int, i as nat),
            decreases 4 - i,
        {
            if abs_level >= cutoff {
                let gb: u8 = if abs_level >= cutoff + 2 { 1 } else { 0 };
                let gi = (cutoff / 2) as usize;
                let ghost cb = *ctx;
                enc.encode_bin(gb, &mut ctx.ts_gtx_flag[gi]);
                proof {
                    assert(ctx.ts_gtx_flag =~= spec_array_update(cb.ts_gtx_flag, gi as int, ctx_after(cb.ts_gtx_flag[gi as int], gb)));
                }
                *bins = *bins - 1;
            }
            cutoff += 2;
            i += 1;
        }
        last = k as i32;
        k += 1;
    }
    proof {
        if k < 16 {
            lemma_ts_p2_stop(s0, coeff@, w as int, cells@, bdpcm, k as nat, 16);
        }
    }
    last
}

/// Pass 3 of a group: bypass remainders (Rice parameter 1) beyond what the
/// flags coded, and the signs of cells pass 1 did not reach.
fn encode_ts_pass3(
    enc: &mut CabacEncoder,
    coeff: &[i32],
    w: usize,
    h: usize,
    cells: &Vec<(usize, usize)>,
    bdpcm: bool,
    last_pass1: i32,
    last_pass2: i32,
)
    requires
        old(enc).wf(),
        old(enc).headroom() >= 16 * 66,
        ts_levels_ok(coeff@, w * h),
        w <= 64,
        h <= 64,
        cells.len() == 16,
        forall|k: int| 0 <= k < 16 ==> (#[trigger] cells@[k]).0 < w && cells@[k].1 < h,
    ensures
        final(enc).wf(),
        bits_prefix(old(enc).model().bits, final(enc).model().bits),
        final(enc).model().outstanding <= old(enc).model().outstanding + 16 * 66,
        final(enc).model() == ts_p3(
            old(enc).model(),
            coeff@,
            w as int,
            cells@,
            bdpcm,
            last_pass1 as int,
            last_pass2 as int,
            16,
        ),
{
    let mut k: usize = 0;
    let ghost o0 = enc.model().outstanding;
    while k < 16
        invariant
            enc.wf(),
            bits_prefix(old(enc).model().bits, enc.model().bits),
            old(enc).headroom() >= 16 * 66,
            o0 == old(enc).model().outstanding,
            ts_levels_ok(coeff@, w * h),
            w <= 64,
            h <= 64,
            cells.len() == 16,
            forall|j: int| 0 <= j < 16 ==> (#[trigger] cells@[j]).0 < w && cells@[j].1 < h,
            k <= 16,
            enc.model().outstanding <= o0 + 66 * k,
            enc.model() == ts_p3(
                old(enc).model(),
                coeff@,
                w as int,
                cells@,
                bdpcm,
                last_pass1 as int,
                last_pass2 as int,
                k as nat,
            ),
        decreases 16 - k,
    {
        let (x, y) = cells[k];
        proof {
            lemma_cell_small(x as int, y as int, w as int, h as int);
        }
        let ki = k as i32;
        let cutoff: i32 = if ki <= last_pass2 { 10 } else if ki <= last_pass1 { 2 } else { 0 };
        let v = coeff[y * w + x];
        let abs_level = if cutoff == 0 || bdpcm {
            if v < 0 { -v } else { v }
        } else {
            mod_abs(coeff, w, h, x, y, bdpcm)
        };
        if abs_level >= cutoff {
            let rem = if ki <= last_pass1 { (abs_level - cutoff) / 2 } else { abs_level };
            encode_rem_abs_ep(enc, rem as u32, rice_param_ts());
            if abs_level != 0 && ki > last_pass1 {
                enc.encode_bypass(if v < 0 { 1 } else { 0 });
            }
        }
        k += 1;
    }
}

/// Code one transform-skip block of `w × h` signed levels (raster order):
/// coefficient groups in forward diagonal order, each with its significance
/// flag (inferred for the last group when no earlier group was
/// significant) and three passes.
pub fn encode_residual_ts(
    enc: &mut CabacEncoder,
    ctx: &mut Contexts,
    coeff: &[i32],
    w: usize,
    h: usize,
    bdpcm: bool,
)
    requires
        old(enc).wf(),
        old(enc).headroom() >= ts_budget(),
        ts_size_ok(w as int, h as int),
        ts_levels_ok(coeff@, w * h),
    ensures
        final(enc).wf(),
        bits_prefix(old(enc).model().bits, final(enc).model().bits),
        final(enc).model().outstanding <= old(enc).model().outstanding + ts_budget(),
        (final(enc).model(), *final(ctx)) == ts_residual_model(
            old(enc).model(),
            *old(ctx),
            coeff@,
            w as int,
            h as int,
            bdpcm,
        ),
{
    let wig = w / 4;
    let hig = h / 4;
    let cg_scan = diag_scan(wig, hig);
    let sub_scan = diag_scan(4, 4);
    proof {
        lemma_diag_seq(wig as int, hig as int);
        assert(wig * hig <= 256) by (nonlinear_arith)
            requires
                1 <= wig <= 16,
                1 <= hig <= 16,
        ;
        assert(w * h <= 4096) by (nonlinear_arith)
            requires
                w <= 64,
                h <= 64,
        ;
    }
    let num_cg = cg_scan.len();
    let mut bins: i32 = ((w * h * 7) / 4) as i32;
    let mut sig_cg: Vec<bool> = vec![false; wig * hig];
    let mut any_prior_sig = false;
    let mut g: usize = 0;
    let ghost o0 = enc.model().outstanding;
    let ghost s0 = TsBlock {
        m: enc.model(),
        c: *ctx,
        bins: bins as int,
        sig: Seq::new((wig * hig) as nat, |i: int| false),
        any: false,
    };
    assert(sig_cg@ =~= s0.sig);
    while g < num_cg
        invariant
            enc.wf(),
            bits_prefix(old(enc).model().bits, enc.model().bits),
            old(enc).headroom() >= ts_budget(),
            o0 == old(enc).model().outstanding,
            ts_size_ok(w as int, h as int),
            ts_levels_ok(coeff@, w * h),
            wig == w / 4,
            hig == h / 4,
            cg_scan@ == diag_seq(wig as int, hig as int),
            forall|k: int| 0 <= k < wig * hig ==> (#[trigger] cg_scan@[k]).0 < wig && cg_scan@[k].1 < hig,
            sub_scan@ == diag_seq(4, 4),
            num_cg == cg_scan.len(),
            num_cg == wig * hig,
            num_cg <= 256,
            sig_cg.len() == wig * hig,
            0 <= bins <= 0x2000,
            g <= num_cg,
            enc.model().outstanding <= o0 + ts_group_budget() * g,
            s0 == (TsBlock {
                m: old(enc).model(),
                c: *old(ctx),
                bins: (w * h * 7) / 4,
                sig: Seq::new((wig * hig) as nat, |i: int| false),
                any: false,
            }),
            (TsBlock { m: enc.model(), c: *ctx, bins: bins as int, sig: sig_cg@, any: any_prior_sig })
                == ts_groups(s0, coeff@, w as int, wig as int, num_cg as int, cg_scan@, bdpcm, g as nat),
        decreases num_cg - g,
    {
        let (cgx, cgy) = cg_scan[g];
        proof {
            crate::residual::ctx::lemma_cell_bound(cgx as int, cgy as int, wig as int, hig as int);
        }
        let ghost sp = TsBlock { m: enc.model(), c: *ctx, bins: bins as int, sig: sig_cg@, any: any_prior_sig };
        let cells = group_cells(cgx, cgy, &sub_scan, w, h);
        let mut group_sig = false;
        let mut i: usize = 0;
        while i < 16
            invariant
                ts_levels_ok(coeff@, w * h),
                cells.len() == 16,
                group_sig <==> exists|j: int| 0 <= j < i && #[trigger] coeff@[cells@[j].1 as int * w + cells@[j].0 as int] != 0,
                forall|j: int| 0 <= j < 16 ==> (#[trigger] cells@[j]).0 < w && cells@[j].1 < h,
                w <= 64,
                h <= 64,
                i <= 16,
            decreases 16 - i,
        {
            let (x, y) = cells[i];
            proof {
                lemma_cell_small(x as int, y as int, w as int, h as int);
            }
            if coeff[y * w + x] != 0 {
                group_sig = true;
            }
            i += 1;
        }
        let infer = g == num_cg - 1 && !any_prior_sig;
        let mut coded = true;
        if !infer {
            proof {
                if cgy > 0 {
                    crate::residual::ctx::lemma_cell_bound(cgx as int, cgy - 1, wig as int, hig as int);
                }
            }
            let s_left = cgx > 0 && sig_cg[cgy * wig + cgx - 1];
            let s_above = cgy > 0 && sig_cg[(cgy - 1) * wig + cgx];
            let c = (if s_left { 1usize } else { 0 }) + (if s_above { 1usize } else { 0 });
            let gb: u8 = if group_sig { 1 } else { 0 };
            let ghost cb = *ctx;
            enc.encode_bin(gb, &mut ctx.ts_sig_group[c]);
            proof {
                assert(ctx.ts_sig_group =~= spec_array_update(cb.ts_sig_group, c as int, ctx_after(cb.ts_sig_group[c as int], gb)));
            }
            if !group_sig {
                coded = false;
            }
        }
        if coded {
            sig_cg.set(cgy * wig + cgx, true);
            any_prior_sig = true;
            proof {
                crate::residual::ctx::lemma_cell_bound(cgx as int, cgy as int, wig as int, hig as int);
            }
            let last_pass1 = encode_ts_pass1(enc, ctx, coeff, w, h, &cells, bdpcm, &mut bins);
            let last_pass2 = encode_ts_pass2(enc, ctx, coeff, w, h, &cells, bdpcm, &mut bins);
            encode_ts_pass3(enc, coeff, w, h, &cells, bdpcm, last_pass1, last_pass2);
        }
        assert((TsBlock { m: enc.model(), c: *ctx, bins: bins as int, sig: sig_cg@, any: any_prior_sig })
            =~= ts_group(sp, coeff@, w as int, wig as int, num_cg as int, cg_scan@, bdpcm, g as int));
        g += 1;
    }
}

/// Magnitude bound of decoded transform-skip levels.
pub open spec fn ts_dec_max() -> int {
    0x100_0000
}

/// Every entry of `c` lies in `[-b, b]`.
pub open spec fn within(c: Seq<i32>, b: int) -> bool {
    forall|k: int| 0 <= k < c.len() ==> -b <= #[trigger] c[k] <= b
}

/// What the decoder of group `(cgx, cgy)` may rely on: a `w × h` block of
/// bounded levels, the group inside it, the 4 × 4 diagonal scan.
pub open spec fn dec_group_ok(c: Seq<i32>, w: int, h: int, cgx: int, cgy: int, sub: Seq<(usize, usize)>) -> bool {
    &&& c.len() == w * h
    &&& 4 <= w <= 64
    &&& 4 <= h <= 64
    &&& 0 <= cgx < w / 4
    &&& 0 <= cgy < h / 4
    &&& sub == diag_seq(4, 4)
    &&& within(c, ts_dec_max())
}

/// Left (`left`) or above neighbour of the cell `(x, y)` at `(sx, sy)` in the
/// group being decoded: from the group's own levels `vals` (4 × 4, raster)
/// when inside the group, else from the block, 0 outside the block.
fn dec_nb(
    coeff: &Vec<i32>,
    vals: &Vec<i32>,
    w: usize,
    h: usize,
    x: usize,
    y: usize,
    sx: usize,
    sy: usize,
    left: bool,
    Ghost(b): Ghost<int>,
) -> (r: i32)
    requires
        coeff.len() == w * h,
        vals.len() == 16,
        x < w <= 64,
        y < h <= 64,
        sx < 4,
        sy < 4,
        sx <= x,
        sy <= y,
        0 <= b,
        within(coeff@, b),
        within(vals@, b),
    ensures
        -b <= r <= b,
        r == ts_dnb(coeff@, vals@, w as int, x as int, y as int, sx as int, sy as int, left),
{
    if left {
        if sx > 0 {
            vals[sy * 4 + sx - 1]
        } else if x > 0 {
            proof {
                lemma_cell_small(x - 1, y as int, w as int, h as int);
            }
            coeff[y * w + x - 1]
        } else {
            0
        }
    } else {
        if sy > 0 {
            vals[(sy - 1) * 4 + sx]
        } else if y > 0 {
            proof {
                lemma_cell_small(x as int, y - 1, w as int, h as int);
            }
            coeff[(y - 1) * w + x]
        } else {
            0
        }
    }
}

/// Decoder state, contexts, regular-bin budget, non-zero count and last
/// cell of a pass, with the group's levels so far and the signs recorded
/// for later, while a transform-skip group is decoded.
pub struct TsDec {
    pub m: DecModel,
    pub c: Contexts,
    pub bins: int,
    pub nz: int,
    pub last: int,
    pub vals: Seq<i32>,
    pub signs: Seq<(usize, bool)>,
}

/// The left (or above) neighbour of cell `(sx, sy)` of a group at block
/// position `(x, y)`: from the group's own levels inside it, from the block
/// outside it, 0 past the block edge.
pub open spec fn ts_dnb(c: Seq<i32>, vals: Seq<i32>, w: int, x: int, y: int, sx: int, sy: int, left: bool) -> int {
    if left {
        if sx > 0 {
            vals[sy * 4 + sx - 1] as int
        } else if x > 0 {
            c[y * w + x - 1] as int
        } else {
            0
        }
    } else {
        if sy > 0 {
            vals[(sy - 1) * 4 + sx] as int
        } else if y > 0 {
            c[(y - 1) * w + x] as int
        } else {
            0
        }
    }
}

/// Read a bin with `ts_sig_flag[i]`.
pub open spec fn ts_dsig(data: Seq<u8>, s: TsDec, i: int) -> (TsDec, u8) {
    let (m1, b) = d_ctx_bin(data, s.m, s.c.ts_sig_flag[i]);
    (TsDec {
        m: m1,
        c: Contexts { ts_sig_flag: spec_array_update(s.c.ts_sig_flag, i, ctx_after(s.c.ts_sig_flag[i], b)), ..s.c },
        bins: s.bins - 1,
        ..s
    }, b)
}

/// Read a bin with `ts_sign_flag[i]`.
pub open spec fn ts_dsign(data: Seq<u8>, s: TsDec, i: int) -> (TsDec, u8) {
    let (m1, b) = d_ctx_bin(data, s.m, s.c.ts_sign_flag[i]);
    (TsDec {
        m: m1,
        c: Contexts { ts_sign_flag: spec_array_update(s.c.ts_sign_flag, i, ctx_after(s.c.ts_sign_flag[i], b)), ..s.c },
        bins: s.bins - 1,
        ..s
    }, b)
}

/// Read a bin with `ts_lrg1_flag[i]`.
pub open spec fn ts_dgt1(data: Seq<u8>, s: TsDec, i: int) -> (TsDec, u8) {
    let (m1, b) = d_ctx_bin(data, s.m, s.c.ts_lrg1_flag[i]);
    (TsDec {
        m: m1,
        c: Contexts { ts_lrg1_flag: spec_array_update(s.c.ts_lrg1_flag, i, ctx_after(s.c.ts_lrg1_flag[i], b)), ..s.c },
        bins: s.bins - 1,
        ..s
    }, b)
}

/// Read a bin with `ts_par_flag[0]`.
pub open spec fn ts_dpar(data: Seq<u8>, s: TsDec) -> (TsDec, u8) {
    let (m1, b) = d_ctx_bin(data, s.m, s.c.ts_par_flag[0]);
    (TsDec {
        m: m1,
        c: Contexts { ts_par_flag: spec_array_update(s.c.ts_par_flag, 0, ctx_after(s.c.ts_par_flag[0], b)), ..s.c },
        bins: s.bins - 1,
        ..s
    }, b)
}

/// Read a bin with `ts_gtx_flag[i]`.
pub open spec fn ts_dgtx(data: Seq<u8>, s: TsDec, i: int) -> (TsDec, u8) {
    let (m1, b) = d_ctx_bin(data, s.m, s.c.ts_gtx_flag[i]);
    (TsDec {
        m: m1,
        c: Contexts { ts_gtx_flag: spec_array_update(s.c.ts_gtx_flag, i, ctx_after(s.c.ts_gtx_flag[i], b)), ..s.c },
        bins: s.bins - 1,
        ..s
    }, b)
}

/// Decoder pass 1 at cell `k` of group `(cgx, cgy)`: the significance flag
/// (inferred at the last cell when nothing before was significant), then
/// for a significant cell its sign (recorded), greater-than-one flag and
/// parity; the cell's level becomes `±(1 + gt1 + parity)`.
pub open spec fn ts_dp1_cell(data: Seq<u8>, s: TsDec, c: Seq<i32>, w: int, cgx: int, cgy: int, bdpcm: bool, k: int) -> TsDec {
    let sx = diag_seq(4, 4)[k].0 as int;
    let sy = diag_seq(4, 4)[k].1 as int;
    let x = cgx * 4 + sx;
    let y = cgy * 4 + sy;
    let li = sy * 4 + sx;
    let l = ts_dnb(c, s.vals, w, x, y, sx, sy, true);
    let u = ts_dnb(c, s.vals, w, x, y, sx, sy, false);
    let (s1, sig) = if s.nz == 0 && k == 15 {
        (s, 1u8)
    } else {
        ts_dsig(data, s, (if l != 0 { 1int } else { 0 }) + (if u != 0 { 1int } else { 0 }))
    };
    if sig == 1 {
        let (s2, sg) = ts_dsign(data, s1, sign_ctx_spec(l, u, bdpcm));
        let (s3, g1) = ts_dgt1(data, s2, if bdpcm { 3int } else { (if l != 0 { 1int } else { 0 }) + (if u != 0 { 1int } else { 0 }) });
        let (s4, par) = if g1 == 1 {
            ts_dpar(data, s3)
        } else {
            (s3, 0u8)
        };
        let mag = 1 + par + g1;
        TsDec {
            vals: s4.vals.update(li, (if sg == 1 { -mag } else { mag }) as i32),
            signs: s4.signs.push((li as usize, sg == 1)),
            nz: s4.nz + 1,
            last: k,
            ..s4
        }
    } else {
        TsDec { last: k, ..s1 }
    }
}

/// Decoder pass 1 over the first `n` cells, stopping once fewer than four
/// regular bins remain.
pub open spec fn ts_dp1(data: Seq<u8>, s: TsDec, c: Seq<i32>, w: int, cgx: int, cgy: int, bdpcm: bool, n: nat) -> TsDec
    decreases n,
{
    if n == 0 {
        s
    } else {
        let p = ts_dp1(data, s, c, w, cgx, cgy, bdpcm, (n - 1) as nat);
        if p.bins >= 4 {
            ts_dp1_cell(data, p, c, w, cgx, cgy, bdpcm, n - 1)
        } else {
            p
        }
    }
}

proof fn lemma_ts_dp1_stop(data: Seq<u8>, s: TsDec, c: Seq<i32>, w: int, cgx: int, cgy: int, bdpcm: bool, k: nat, n: nat)
    requires
        k <= n,
        ts_dp1(data, s, c, w, cgx, cgy, bdpcm, k).bins < 4,
    ensures
        ts_dp1(data, s, c, w, cgx, cgy, bdpcm, n) == ts_dp1(data, s, c, w, cgx, cgy, bdpcm, k),
    decreases n,
{
    if n > k {
        lemma_ts_dp1_stop(data, s, c, w, cgx, cgy, bdpcm, k, (n - 1) as nat);
    }
}

/// The first `i` greater-than flags of decoder pass 2 on magnitude `tc`:
/// flag `j` (context `1 + j`) is read when the magnitude so far is at least
/// `2 + 2j`, and adds 2 when set.
pub open spec fn ts_dp2_flags(data: Seq<u8>, s: TsDec, tc: int, i: nat) -> (TsDec, int)
    decreases i,
{
    if i == 0 {
        (s, tc)
    } else {
        let (p, t) = ts_dp2_flags(data, s, tc, (i - 1) as nat);
        let cutoff = 2 + 2 * (i - 1);
        if t >= cutoff {
            let (q, g) = ts_dgtx(data, p, cutoff / 2);
            (q, t + 2 * g)
        } else {
            (p, t)
        }
    }
}

/// Decoder pass 2 over the first `n` cells: each visited cell's level
/// becomes its magnitude after the flags.
pub open spec fn ts_dp2(data: Seq<u8>, s: TsDec, n: nat) -> TsDec
    decreases n,
{
    if n == 0 {
        s
    } else {
        let p = ts_dp2(data, s, (n - 1) as nat);
        if p.bins >= 4 {
            let li = diag_seq(4, 4)[n - 1].1 as int * 4 + diag_seq(4, 4)[n - 1].0 as int;
            let v = p.vals[li] as int;
            let (q, t) = ts_dp2_flags(data, p, if v < 0 { -v } else { v }, 4);
            TsDec { vals: q.vals.update(li, t as i32), last: n - 1, ..q }
        } else {
            p
        }
    }
}

proof fn lemma_ts_dp2_stop(data: Seq<u8>, s: TsDec, k: nat, n: nat)
    requires
        k <= n,
        ts_dp2(data, s, k).bins < 4,
    ensures
        ts_dp2(data, s, n) == ts_dp2(data, s, k),
    decreases n,
{
    if n > k {
        lemma_ts_dp2_stop(data, s, k, (n - 1) as nat);
    }
}

/// Decoder state, group levels and recorded signs during pass 3.
pub struct TsRest {
    pub m: DecModel,
    pub vals: Seq<i32>,
    pub signs: Seq<(usize, bool)>,
}

/// Decoder pass 3 at cell `k`: the bypass remainder (Rice parameter 1) on
/// top of the magnitude `mags` holds (doubled for cells pass 1 reached), the
/// sign of a non-zero cell pass 1 did not reach (recorded), and the inverse
/// remap against the neighbours unless BDPCM or pass 1 did not reach it.
pub open spec fn ts_dp3_cell(
    data: Seq<u8>,
    s: TsRest,
    c: Seq<i32>,
    mags: Seq<i32>,
    w: int,
    cgx: int,
    cgy: int,
    bdpcm: bool,
    last1: int,
    last2: int,
    k: int,
) -> TsRest {
    let sx = diag_seq(4, 4)[k].0 as int;
    let sy = diag_seq(4, 4)[k].1 as int;
    let x = cgx * 4 + sx;
    let y = cgy * 4 + sy;
    let li = sy * 4 + sx;
    let cutoff = if k <= last2 {
        10int
    } else if k <= last1 {
        2
    } else {
        0
    };
    let tc0 = mags[li] as int;
    let (m1, tc1, sg1) = if tc0 >= cutoff {
        let (m2, rem) = d_rem(data, s.m, 1);
        let tc = tc0 + if k <= last1 { 2 * rem } else { rem };
        if tc != 0 && k > last1 {
            let (m3, b) = d_decode_bypass(data, m2);
            (m3, tc, s.signs.push((li as usize, b == 1)))
        } else {
            (m2, tc, s.signs)
        }
    } else {
        (s.m, tc0, s.signs)
    };
    let l = ts_dnb(c, s.vals, w, x, y, sx, sy, true);
    let u = ts_dnb(c, s.vals, w, x, y, sx, sy, false);
    let tc2 = if cutoff != 0 && tc1 > 0 && !bdpcm {
        dec_mod_coeff_spec(l, u, tc1)
    } else {
        tc1
    };
    TsRest { m: m1, vals: s.vals.update(li, tc2 as i32), signs: sg1 }
}

/// Decoder pass 3 over the first `n` cells.
pub open spec fn ts_dp3(
    data: Seq<u8>,
    s: TsRest,
    c: Seq<i32>,
    mags: Seq<i32>,
    w: int,
    cgx: int,
    cgy: int,
    bdpcm: bool,
    last1: int,
    last2: int,
    n: nat,
) -> TsRest
    decreases n,
{
    if n == 0 {
        s
    } else {
        ts_dp3_cell(data, ts_dp3(data, s, c, mags, w, cgx, cgy, bdpcm, last1, last2, (n - 1) as nat), c, mags, w, cgx, cgy, bdpcm, last1, last2, n - 1)
    }
}

/// The group's levels after the first `n` recorded signs are applied, in
/// order.
pub open spec fn ts_apply_signs(vals: Seq<i32>, signs: Seq<(usize, bool)>, n: nat) -> Seq<i32>
    decreases n,
{
    if n == 0 {
        vals
    } else {
        let v = ts_apply_signs(vals, signs, (n - 1) as nat);
        let li = signs[n - 1].0 as int;
        v.update(li, (if signs[n - 1].1 { -(v[li] as int) } else { v[li] as int }) as i32)
    }
}

/// The block with the first `n` cells of group `(cgx, cgy)` set from the
/// group's levels.
pub open spec fn ts_write_group(c: Seq<i32>, vals: Seq<i32>, w: int, cgx: int, cgy: int, n: nat) -> Seq<i32>
    decreases n,
{
    if n == 0 {
        c
    } else {
        let sx = diag_seq(4, 4)[n - 1].0 as int;
        let sy = diag_seq(4, 4)[n - 1].1 as int;
        ts_write_group(c, vals, w, cgx, cgy, (n - 1) as nat).update((cgy * 4 + sy) * w + cgx * 4 + sx, vals[sy * 4 + sx])
    }
}

/// The magnitudes of the group's levels.
pub open spec fn ts_mags(vals: Seq<i32>) -> Seq<i32> {
    Seq::new(16, |i: int| (if vals[i] < 0 { -(vals[i] as int) } else { vals[i] as int }) as i32)
}

/// A significant group decoded into the block: the three passes on levels
/// starting at 0, the recorded signs, then the levels written to the cells.
pub open spec fn ts_dgroup_levels(data: Seq<u8>, m: DecModel, ctx: Contexts, bins: int, c: Seq<i32>, w: int, cgx: int, cgy: int, bdpcm: bool) -> (DecModel, Contexts, int, Seq<i32>) {
    let p0 = TsDec { m, c: ctx, bins, nz: 0, last: -1, vals: Seq::new(16, |i: int| 0i32), signs: Seq::empty() };
    let q1 = ts_dp1(data, p0, c, w, cgx, cgy, bdpcm, 16);
    let q2 = ts_dp2(data, TsDec { nz: 0, last: -1, signs: Seq::empty(), ..q1 }, 16);
    let q3 = ts_dp3(data, TsRest { m: q2.m, vals: q2.vals, signs: q1.signs }, c, ts_mags(q2.vals), w, cgx, cgy, bdpcm, q1.last, q2.last, 16);
    let vals = ts_apply_signs(q3.vals, q3.signs, q3.signs.len());
    (q3.m, q2.c, q2.bins, ts_write_group(c, vals, w, cgx, cgy, 16))
}

/// Decoder state, contexts, regular-bin budget, group significance map,
/// whether any group so far was significant, and the block so far.
pub struct TsDBlock {
    pub m: DecModel,
    pub c: Contexts,
    pub bins: int,
    pub sig: Seq<bool>,
    pub any: bool,
    pub coeff: Seq<i32>,
}

/// Decoding group `g` of the diagonal group scan `cg`: its significance flag
/// (inferred for the last group when no earlier one was significant), then
/// its levels when significant.
pub open spec fn ts_dgroup(data: Seq<u8>, s: TsDBlock, w: int, wig: int, num_cg: int, cg: Seq<(usize, usize)>, bdpcm: bool, g: int) -> TsDBlock {
    let cgx = cg[g].0 as int;
    let cgy = cg[g].1 as int;
    let infer = g == num_cg - 1 && !s.any;
    let ci = (if cgx > 0 && s.sig[cgy * wig + cgx - 1] { 1int } else { 0 }) + (if cgy > 0 && s.sig[(cgy - 1) * wig
        + cgx] { 1int } else { 0 });
    let (m1, b) = if infer {
        (s.m, 1u8)
    } else {
        d_ctx_bin(data, s.m, s.c.ts_sig_group[ci])
    };
    let c1 = if infer {
        s.c
    } else {
        Contexts { ts_sig_group: spec_array_update(s.c.ts_sig_group, ci, ctx_after(s.c.ts_sig_group[ci], b)), ..s.c }
    };
    if b == 1 {
        let (m2, c2, bins2, coeff2) = ts_dgroup_levels(data, m1, c1, s.bins, s.coeff, w, cgx, cgy, bdpcm);
        TsDBlock { m: m2, c: c2, bins: bins2, sig: s.sig.update(cgy * wig + cgx, true), any: true, coeff: coeff2 }
    } else {
        TsDBlock { m: m1, c: c1, ..s }
    }
}

/// The first `n` groups decoded.
pub open spec fn ts_dgroups(data: Seq<u8>, s: TsDBlock, w: int, wig: int, num_cg: int, cg: Seq<(usize, usize)>, bdpcm: bool, n: nat) -> TsDBlock
    decreases n,
{
    if n == 0 {
        s
    } else {
        ts_dgroup(data, ts_dgroups(data, s, w, wig, num_cg, cg, bdpcm, (n - 1) as nat), w, wig, num_cg, cg, bdpcm, n - 1)
    }
}

/// The decoder state, contexts and `w × h` levels after reading a
/// transform-skip block from `m` and `ctx` over `data`.
pub open spec fn ts_residual_decode(data: Seq<u8>, m: DecModel, ctx: Contexts, w: int, h: int, bdpcm: bool) -> (DecModel, Contexts, Seq<i32>) {
    let wig = w / 4;
    let hig = h / 4;
    let s0 = TsDBlock {
        m,
        c: ctx,
        bins: (w * h * 7) / 4,
        sig: Seq::new((wig * hig) as nat, |i: int| false),
        any: false,
        coeff: Seq::new((w * h) as nat, |i: int| 0i32),
    };
    let r = ts_dgroups(data, s0, w, wig, wig * hig, diag_seq(wig, hig), bdpcm, (wig * hig) as nat);
    (r.m, r.c, r.coeff)
}

/// Pass 1 of a group (decoder): significance (inferred at the last cell
/// when nothing before it was significant), sign, greater-than-one and
/// parity flags, while at least 4 regular bins remain. The group's levels
/// start at 0 and end within ±3; each significant cell's sign is recorded.
/// Returns the last cell visited.
#[verifier::rlimit(60)]
fn decode_ts_pass1(
    dec: &mut CabacDecoder,
    ctx: &mut Contexts,
    coeff: &Vec<i32>,
    vals: &mut Vec<i32>,
    w: usize,
    h: usize,
    cgx: usize,
    cgy: usize,
    sub: &Vec<(usize, usize)>,
    bdpcm: bool,
    bins: &mut i32,
    signs: &mut Vec<(usize, bool)>,
) -> (last: i32)
    requires
        old(dec).wf(),
        old(dec).headroom() >= 16 * 32,
        dec_group_ok(coeff@, w as int, h as int, cgx as int, cgy as int, sub@),
        old(vals).len() == 16,
        within(old(vals)@, 0),
        old(signs).len() == 0,
        0 <= *old(bins) <= 0x2000,
    ensures
        final(dec).wf(),
        final(dec).data() == old(dec).data(),
        old(dec).model().pos <= final(dec).model().pos <= old(dec).model().pos + 16 * 32,
        final(vals).len() == 16,
        within(final(vals)@, 3),
        final(signs).len() <= 16,
        forall|j: int| 0 <= j < final(signs).len() ==> (#[trigger] final(signs)@[j]).0 < 16,
        0 <= *final(bins) <= *old(bins),
        -1 <= last < 16,
        ({
            let r = ts_dp1(
                old(dec).data(),
                TsDec {
                    m: old(dec).model(),
                    c: *old(ctx),
                    bins: *old(bins) as int,
                    nz: 0,
                    last: -1,
                    vals: old(vals)@,
                    signs: old(signs)@,
                },
                coeff@,
                w as int,
                cgx as int,
                cgy as int,
                bdpcm,
                16,
            );
            final(dec).model() == r.m && *final(ctx) == r.c && *final(bins) == r.bins && final(vals)@ == r.vals
                && final(signs)@ == r.signs && last == r.last
        }),
{
    proof {
        lemma_diag_seq(4, 4);
    }
    let mut num_nonzero: u32 = 0;
    let mut last: i32 = -1;
    let mut k: usize = 0;
    let ghost p0 = dec.model().pos;
    let ghost s0 = TsDec {
        m: dec.model(),
        c: *ctx,
        bins: *bins as int,
        nz: 0,
        last: -1,
        vals: vals@,
        signs: signs@,
    };
    while k < 16 && *bins >= 4
        invariant
            dec.wf(),
            dec.data() == old(dec).data(),
            old(dec).headroom() >= 16 * 32,
            p0 == old(dec).model().pos,
            p0 <= dec.model().pos <= p0 + 32 * k,
            dec_group_ok(coeff@, w as int, h as int, cgx as int, cgy as int, sub@),
            sub.len() == 16,
            forall|j: int| 0 <= j < 16 ==> (#[trigger] sub@[j]).0 < 4 && sub@[j].1 < 4,
            vals.len() == 16,
            within(vals@, 3),
            signs.len() == num_nonzero,
            forall|j: int| 0 <= j < signs.len() ==> (#[trigger] signs@[j]).0 < 16,
            0 <= *bins <= *old(bins),
            *old(bins) <= 0x2000,
            k <= 16,
            num_nonzero <= k,
            -1 <= last < k,
            s0 == (TsDec {
                m: old(dec).model(),
                c: *old(ctx),
                bins: *old(bins) as int,
                nz: 0,
                last: -1,
                vals: old(vals)@,
                signs: old(signs)@,
            }),
            (TsDec {
                m: dec.model(),
                c: *ctx,
                bins: *bins as int,
                nz: num_nonzero as int,
                last: last as int,
                vals: vals@,
                signs: signs@,
            }) == ts_dp1(dec.data(), s0, coeff@, w as int, cgx as int, cgy as int, bdpcm, k as nat),
        decreases 16 - k,
    {
        let (sx, sy) = sub[k];
        let x = cgx * 4 + sx;
        let y = cgy * 4 + sy;
        let li = sy * 4 + sx;
        let l = dec_nb(coeff, vals, w, h, x, y, sx, sy, true, Ghost(ts_dec_max()));
        let u = dec_nb(coeff, vals, w, h, x, y, sx, sy, false, Ghost(ts_dec_max()));
        let mut sig: u8 = if num_nonzero == 0 && k == 15 { 1 } else { 0 };
        if sig == 0 {
            let si = sig_ctx_offset_ts(l != 0, u != 0);
            let ghost cb = *ctx;
            sig = dec.decode_bin(&mut ctx.ts_sig_flag[si]);
            proof {
                assert(ctx.ts_sig_flag =~= spec_array_update(cb.ts_sig_flag, si as int, ctx_after(cb.ts_sig_flag[si as int], sig)));
            }
            *bins = *bins - 1;
        }
        if sig == 1 {
            let so = sign_ctx_offset_ts(l, u, bdpcm);
            let ghost cb = *ctx;
            let sign = dec.decode_bin(&mut ctx.ts_sign_flag[so]);
            proof {
                assert(ctx.ts_sign_flag =~= spec_array_update(cb.ts_sign_flag, so as int, ctx_after(cb.ts_sign_flag[so as int], sign)));
            }
            *bins = *bins - 1;
            signs.push((li, sign == 1));
            num_nonzero += 1;
            let gi = gt1_ctx_offset_ts(l != 0, u != 0, bdpcm);
            let ghost cb = *ctx;
            let gt1 = dec.decode_bin(&mut ctx.ts_lrg1_flag[gi]);
            proof {
                assert(ctx.ts_lrg1_flag =~= spec_array_update(cb.ts_lrg1_flag, gi as int, ctx_after(cb.ts_lrg1_flag[gi as int], gt1)));
            }
            *bins = *bins - 1;
            let mut par: u8 = 0;
            if gt1 == 1 {
                let ghost cb = *ctx;
                par = dec.decode_bin(&mut ctx.ts_par_flag[0]);
                proof {
                    assert(ctx.ts_par_flag =~= spec_array_update(cb.ts_par_flag, 0, ctx_after(cb.ts_par_flag[0], par)));
                }
                *bins = *bins - 1;
            }
            let mag = 1 + par as i32 + gt1 as i32;
            vals.set(li, if sign == 1 { -mag } else { mag });
        }
        last = k as i32;
        k += 1;
    }
    proof {
        if k < 16 {
            lemma_ts_dp1_stop(dec.data(), s0, coeff@, w as int, cgx as int, cgy as int, bdpcm, k as nat, 16);
        }
    }
    last
}

/// Pass 2 of a group (decoder): up to four greater-than flags per cell,
/// each adding 2 to the magnitude, while at least 4 regular bins remain; the
/// cells it visits keep their magnitudes. Returns the last cell visited.
fn decode_ts_pass2(
    dec: &mut CabacDecoder,
    ctx: &mut Contexts,
    vals: &mut Vec<i32>,
    sub: &Vec<(usize, usize)>,
    bins: &mut i32,
) -> (last: i32)
    requires
        old(dec).wf(),
        old(dec).headroom() >= 16 * 32,
        sub@ == diag_seq(4, 4),
        old(vals).len() == 16,
        within(old(vals)@, 3),
        0 <= *old(bins) <= 0x2000,
    ensures
        final(dec).wf(),
        final(dec).data() == old(dec).data(),
        old(dec).model().pos <= final(dec).model().pos <= old(dec).model().pos + 16 * 32,
        final(vals).len() == 16,
        within(final(vals)@, 131),
        0 <= *final(bins) <= *old(bins),
        -1 <= last < 16,
        ({
            let r = ts_dp2(
                old(dec).data(),
                TsDec {
                    m: old(dec).model(),
                    c: *old(ctx),
                    bins: *old(bins) as int,
                    nz: 0,
                    last: -1,
                    vals: old(vals)@,
                    signs: Seq::empty(),
                },
                16,
            );
            final(dec).model() == r.m && *final(ctx) == r.c && *final(bins) == r.bins && final(vals)@ == r.vals
                && last == r.last
        }),
{
    proof {
        lemma_diag_seq(4, 4);
    }
    let mut last: i32 = -1;
    let mut k: usize = 0;
    let ghost p0 = dec.model().pos;
    let ghost s0 = TsDec {
        m: dec.model(),
        c: *ctx,
        bins: *bins as int,
        nz: 0,
        last: -1,
        vals: vals@,
        signs: Seq::empty(),
    };
    while k < 16 && *bins >= 4
        invariant
            dec.wf(),
            dec.data() == old(dec).data(),
            old(dec).headroom() >= 16 * 32,
            p0 == old(dec).model().pos,
            p0 <= dec.model().pos <= p0 + 32 * k,
            sub.len() == 16,
            forall|j: int| 0 <= j < 16 ==> (#[trigger] sub@[j]).0 < 4 && sub@[j].1 < 4,
            vals.len() == 16,
            within(vals@, 3 + 8 * (k as int)),
            0 <= *bins <= *old(bins),
            *old(bins) <= 0x2000,
            k <= 16,
            -1 <= last < k,
            s0 == (TsDec {
                m: old(dec).model(),
                c: *old(ctx),
                bins: *old(bins) as int,
                nz: 0,
                last: -1,
                vals: old(vals)@,
                signs: Seq::empty(),
            }),
            sub@ == diag_seq(4, 4),
            (TsDec {
                m: dec.model(),
                c: *ctx,
                bins: *bins as int,
                nz: 0,
                last: last as int,
                vals: vals@,
                signs: Seq::empty(),
            }) == ts_dp2(dec.data(), s0, k as nat),
        decreases 16 - k,
    {
        let (sx, sy) = sub[k];
        let li = sy * 4 + sx;
        let v = vals[li];
        let mut tc: i32 = if v < 0 { -v } else { v };
        let mut cutoff: i32 = 2;
        let mut i: usize = 0;
        let ghost p1 = dec.model().pos;
        let ghost b1 = *bins;
        let ghost sp = TsDec {
            m: dec.model(),
            c: *ctx,
            bins: *bins as int,
            nz: 0,
            last: last as int,
            vals: vals@,
            signs: Seq::empty(),
        };
        while i < 4
            invariant
                dec.wf(),
                dec.data() == old(dec).data(),
                old(dec).headroom() >= 16 * 32,
                p0 == old(dec).model().pos,
                p0 <= p1 <= p0 + 32 * k,
                p1 <= dec.model().pos <= p1 + 8 * i,
                k < 16,
                i <= 4,
                cutoff == 2 + 2 * i,
                0 <= tc <= 3 + 8 * k + 2 * i,
                b1 >= 4,
                b1 <= 0x2000,
                b1 - i <= *bins <= b1,
                vals@ == sp.vals,
                (TsDec {
                    m: dec.model(),
                    c: *ctx,
                    bins: *bins as int,
                    nz: 0,
                    last: last as int,
                    vals: vals@,
                    signs: Seq::empty(),
                }, tc as int) == ts_dp2_flags(dec.data(), sp, if v < 0 { -(v as int) } else { v as int }, i as nat),
            decreases 4 - i,
        {
            if tc >= cutoff {
                let gi = (cutoff / 2) as usize;
                let ghost cb = *ctx;
                let gt = dec.decode_bin(&mut ctx.ts_gtx_flag[gi]);
                proof {
                    assert(ctx.ts_gtx_flag =~= spec_array_update(cb.ts_gtx_flag, gi as int, ctx_after(cb.ts_gtx_flag[gi as int], gt)));
                }
                tc = tc + 2 * gt as i32;
                *bins = *bins - 1;
            }
            cutoff += 2;
            i += 1;
        }
        vals.set(li, tc);
        last = k as i32;
        k += 1;
    }
    proof {
        if k < 16 {
            lemma_ts_dp2_stop(dec.data(), s0, k as nat, 16);
        }
    }
    last
}

/// Pass 3 of a group (decoder): the bypass remainders beyond what the flags
/// coded (doubled for cells pass 1 reached), the signs of cells pass 1 did
/// not reach, and the inverse level remap against the neighbours unless
/// BDPCM. `mags` are the magnitudes the first two passes left.
#[verifier::rlimit(60)]
fn decode_ts_pass3(
    dec: &mut CabacDecoder,
    coeff: &Vec<i32>,
    vals: &mut Vec<i32>,
    mags: &Vec<i32>,
    w: usize,
    h: usize,
    cgx: usize,
    cgy: usize,
    sub: &Vec<(usize, usize)>,
    bdpcm: bool,
    last_pass1: i32,
    last_pass2: i32,
    signs: &mut Vec<(usize, bool)>,
)
    requires
        old(dec).wf(),
        old(dec).headroom() >= 16 * 34 + 64,
        dec_group_ok(coeff@, w as int, h as int, cgx as int, cgy as int, sub@),
        old(vals).len() == 16,
        within(old(vals)@, ts_dec_max()),
        mags.len() == 16,
        forall|j: int| 0 <= j < 16 ==> 0 <= #[trigger] mags@[j] <= 3 + 8 * 16,
        old(signs).len() <= 16,
        forall|j: int| 0 <= j < old(signs).len() ==> (#[trigger] old(signs)@[j]).0 < 16,
    ensures
        final(dec).wf(),
        final(dec).data() == old(dec).data(),
        old(dec).model().pos <= final(dec).model().pos <= old(dec).model().pos + 16 * 34,
        final(vals).len() == 16,
        within(final(vals)@, ts_dec_max()),
        final(signs).len() <= 32,
        forall|j: int| 0 <= j < final(signs).len() ==> (#[trigger] final(signs)@[j]).0 < 16,
        ({
            let r = ts_dp3(
                old(dec).data(),
                TsRest { m: old(dec).model(), vals: old(vals)@, signs: old(signs)@ },
                coeff@,
                mags@,
                w as int,
                cgx as int,
                cgy as int,
                bdpcm,
                last_pass1 as int,
                last_pass2 as int,
                16,
            );
            final(dec).model() == r.m && final(vals)@ == r.vals && final(signs)@ == r.signs
        }),
{
    proof {
        lemma_diag_seq(4, 4);
    }
    let mut k: usize = 0;
    let ghost p0 = dec.model().pos;
    let ghost s0 = signs.len();
    while k < 16
        invariant
            dec.wf(),
            dec.data() == old(dec).data(),
            old(dec).headroom() >= 16 * 34 + 64,
            p0 == old(dec).model().pos,
            p0 <= dec.model().pos <= p0 + 34 * k,
            dec_group_ok(coeff@, w as int, h as int, cgx as int, cgy as int, sub@),
            sub.len() == 16,
            forall|j: int| 0 <= j < 16 ==> (#[trigger] sub@[j]).0 < 4 && sub@[j].1 < 4,
            vals.len() == 16,
            within(vals@, ts_dec_max()),
            mags.len() == 16,
            forall|j: int| 0 <= j < 16 ==> 0 <= #[trigger] mags@[j] <= 3 + 8 * 16,
            s0 <= 16,
            signs.len() <= s0 + k,
            forall|j: int| 0 <= j < signs.len() ==> (#[trigger] signs@[j]).0 < 16,
            k <= 16,
            (TsRest { m: dec.model(), vals: vals@, signs: signs@ }) == ts_dp3(
                dec.data(),
                TsRest { m: old(dec).model(), vals: old(vals)@, signs: old(signs)@ },
                coeff@,
                mags@,
                w as int,
                cgx as int,
                cgy as int,
                bdpcm,
                last_pass1 as int,
                last_pass2 as int,
                k as nat,
            ),
        decreases 16 - k,
    {
        let (sx, sy) = sub[k];
        let x = cgx * 4 + sx;
        let y = cgy * 4 + sy;
        let li = sy * 4 + sx;
        let ki = k as i32;
        let cutoff: i32 = if ki <= last_pass2 { 10 } else if ki <= last_pass1 { 2 } else { 0 };
        let mut tc = mags[li];
        if tc >= cutoff {
            let rem = decode_rem_abs_ep(dec, rice_param_ts()) as i32;
            tc = tc + if ki <= last_pass1 { 2 * rem } else { rem };
            if tc != 0 && ki > last_pass1 {
                let sign = dec.decode_bypass();
                signs.push((li, sign == 1));
            }
        }
        if cutoff != 0 && tc > 0 && !bdpcm {
            let l = dec_nb(coeff, vals, w, h, x, y, sx, sy, true, Ghost(ts_dec_max()));
            let u = dec_nb(coeff, vals, w, h, x, y, sx, sy, false, Ghost(ts_dec_max()));
            tc = dec_derive_mod_coeff(l, u, tc);
        }
        vals.set(li, tc);
        k += 1;
    }
}

/// Decode the levels of one significant group into the block: its three
/// passes on the group's own levels (starting at 0), then the recorded
/// signs, then the levels written to their cells.
#[verifier::rlimit(40)]
fn decode_ts_group(
    dec: &mut CabacDecoder,
    ctx: &mut Contexts,
    coeff: &mut Vec<i32>,
    w: usize,
    h: usize,
    cgx: usize,
    cgy: usize,
    sub: &Vec<(usize, usize)>,
    bdpcm: bool,
    bins: &mut i32,
)
    requires
        old(dec).wf(),
        old(dec).headroom() >= 2 * 16 * 32 + 16 * 34 + 64,
        dec_group_ok(old(coeff)@, w as int, h as int, cgx as int, cgy as int, sub@),
        0 <= *old(bins) <= 0x2000,
    ensures
        final(dec).wf(),
        final(dec).data() == old(dec).data(),
        old(dec).model().pos <= final(dec).model().pos <= old(dec).model().pos + 2 * 16 * 32 + 16 * 34,
        final(coeff).len() == old(coeff).len(),
        within(final(coeff)@, ts_dec_max()),
        0 <= *final(bins) <= *old(bins),
        ({
            let r = ts_dgroup_levels(
                old(dec).data(),
                old(dec).model(),
                *old(ctx),
                *old(bins) as int,
                old(coeff)@,
                w as int,
                cgx as int,
                cgy as int,
                bdpcm,
            );
            final(dec).model() == r.0 && *final(ctx) == r.1 && *final(bins) == r.2 && final(coeff)@ == r.3
        }),
{
    proof {
        lemma_diag_seq(4, 4);
    }
    let mut vals: Vec<i32> = vec![0i32; 16];
    let mut signs: Vec<(usize, bool)> = Vec::new();
    assert(vals@ =~= Seq::new(16, |i: int| 0i32));
    assert(signs@ =~= Seq::<(usize, bool)>::empty());
    let ghost data = dec.data();
    let ghost p0 = TsDec {
        m: dec.model(),
        c: *ctx,
        bins: *bins as int,
        nz: 0,
        last: -1,
        vals: vals@,
        signs: signs@,
    };
    let ghost q1 = ts_dp1(data, p0, coeff@, w as int, cgx as int, cgy as int, bdpcm, 16);
    let last_pass1 = decode_ts_pass1(dec, ctx, coeff, &mut vals, w, h, cgx, cgy, sub, bdpcm, bins, &mut signs);
    let ghost q2 = ts_dp2(data, TsDec { nz: 0, last: -1, signs: Seq::empty(), ..q1 }, 16);
    let last_pass2 = decode_ts_pass2(dec, ctx, &mut vals, sub, bins);
    let mut mags: Vec<i32> = Vec::new();
    let mut i: usize = 0;
    while i < 16
        invariant
            vals.len() == 16,
            within(vals@, 131),
            i <= 16,
            mags.len() == i,
            forall|j: int| 0 <= j < i ==> 0 <= #[trigger] mags@[j] <= 131,
            forall|j: int| 0 <= j < i ==> #[trigger] mags@[j] == ts_mags(vals@)[j],
        decreases 16 - i,
    {
        let v = vals[i];
        mags.push(if v < 0 { -v } else { v });
        i += 1;
    }
    assert(mags@ =~= ts_mags(vals@));
    let ghost q3 = ts_dp3(
        data,
        TsRest { m: q2.m, vals: q2.vals, signs: q1.signs },
        coeff@,
        ts_mags(q2.vals),
        w as int,
        cgx as int,
        cgy as int,
        bdpcm,
        q1.last,
        q2.last,
        16,
    );
    decode_ts_pass3(dec, coeff, &mut vals, &mags, w, h, cgx, cgy, sub, bdpcm, last_pass1, last_pass2, &mut signs);
    let ghost v3 = vals@;
    let mut j: usize = 0;
    while j < signs.len()
        invariant
            vals.len() == 16,
            within(vals@, ts_dec_max()),
            forall|t: int| 0 <= t < signs.len() ==> (#[trigger] signs@[t]).0 < 16,
            j <= signs.len(),
            vals@ == ts_apply_signs(v3, signs@, j as nat),
        decreases signs.len() - j,
    {
        let (li, neg) = signs[j];
        let a = vals[li];
        vals.set(li, if neg { -a } else { a });
        j += 1;
    }
    let ghost vf = vals@;
    let mut k: usize = 0;
    while k < 16
        invariant
            vals@ == vf,
            coeff@ == ts_write_group(old(coeff)@, vf, w as int, cgx as int, cgy as int, k as nat),
            dec_group_ok(old(coeff)@, w as int, h as int, cgx as int, cgy as int, sub@),
            sub.len() == 16,
            forall|t: int| 0 <= t < 16 ==> (#[trigger] sub@[t]).0 < 4 && sub@[t].1 < 4,
            coeff.len() == old(coeff).len(),
            within(coeff@, ts_dec_max()),
            vals.len() == 16,
            within(vals@, ts_dec_max()),
            k <= 16,
        decreases 16 - k,
    {
        let (sx, sy) = sub[k];
        let x = cgx * 4 + sx;
        let y = cgy * 4 + sy;
        proof {
            lemma_cell_small(x as int, y as int, w as int, h as int);
        }
        coeff.set(y * w + x, vals[sy * 4 + sx]);
        k += 1;
    }
}

/// Decode one transform-skip block of `w × h` levels (raster order): the
/// groups in forward diagonal order, each with its significance flag
/// (inferred for the last group when no earlier group was significant);
/// groups that are not significant stay 0.
pub fn decode_residual_ts(
    dec: &mut CabacDecoder,
    ctx: &mut Contexts,
    w: usize,
    h: usize,
    bdpcm: bool,
) -> (r: Vec<i32>)
    requires
        old(dec).wf(),
        old(dec).headroom() >= ts_budget(),
        ts_size_ok(w as int, h as int),
    ensures
        final(dec).wf(),
        final(dec).data() == old(dec).data(),
        old(dec).model().pos <= final(dec).model().pos <= old(dec).model().pos + ts_budget(),
        r.len() == w * h,
        within(r@, ts_dec_max()),
        (final(dec).model(), *final(ctx), r@) == ts_residual_decode(
            old(dec).data(),
            old(dec).model(),
            *old(ctx),
            w as int,
            h as int,
            bdpcm,
        ),
{
    let wig = w / 4;
    let hig = h / 4;
    let cg_scan = diag_scan(wig, hig);
    let sub_scan = diag_scan(4, 4);
    proof {
        lemma_diag_seq(wig as int, hig as int);
        assert(wig * hig <= 256) by (nonlinear_arith)
            requires
                1 <= wig <= 16,
                1 <= hig <= 16,
        ;
        assert(w * h <= 4096) by (nonlinear_arith)
            requires
                w <= 64,
                h <= 64,
        ;
    }
    let num_cg = cg_scan.len();
    let mut bins: i32 = ((w * h * 7) / 4) as i32;
    let mut coeff: Vec<i32> = vec![0i32; w * h];
    let mut sig_cg: Vec<bool> = vec![false; wig * hig];
    let mut any_prior_sig = false;
    let mut g: usize = 0;
    let ghost p0 = dec.model().pos;
    let ghost s0 = TsDBlock {
        m: dec.model(),
        c: *ctx,
        bins: bins as int,
        sig: Seq::new((wig * hig) as nat, |i: int| false),
        any: false,
        coeff: Seq::new((w * h) as nat, |i: int| 0i32),
    };
    assert(sig_cg@ =~= s0.sig);
    assert(coeff@ =~= s0.coeff);
    while g < num_cg
        invariant
            dec.wf(),
            dec.data() == old(dec).data(),
            old(dec).headroom() >= ts_budget(),
            p0 == old(dec).model().pos,
            p0 <= dec.model().pos <= p0 + ts_group_budget() * g,
            ts_size_ok(w as int, h as int),
            wig == w / 4,
            hig == h / 4,
            cg_scan@ == diag_seq(wig as int, hig as int),
            forall|t: int| 0 <= t < wig * hig ==> (#[trigger] cg_scan@[t]).0 < wig && cg_scan@[t].1 < hig,
            sub_scan@ == diag_seq(4, 4),
            num_cg == cg_scan.len(),
            num_cg == wig * hig,
            num_cg <= 256,
            coeff.len() == w * h,
            within(coeff@, ts_dec_max()),
            sig_cg.len() == wig * hig,
            0 <= bins <= 0x2000,
            g <= num_cg,
            s0 == (TsDBlock {
                m: old(dec).model(),
                c: *old(ctx),
                bins: (w * h * 7) / 4,
                sig: Seq::new((wig * hig) as nat, |i: int| false),
                any: false,
                coeff: Seq::new((w * h) as nat, |i: int| 0i32),
            }),
            (TsDBlock { m: dec.model(), c: *ctx, bins: bins as int, sig: sig_cg@, any: any_prior_sig, coeff: coeff@ })
                == ts_dgroups(dec.data(), s0, w as int, wig as int, num_cg as int, cg_scan@, bdpcm, g as nat),
        decreases num_cg - g,
    {
        let (cgx, cgy) = cg_scan[g];
        proof {
            crate::residual::ctx::lemma_cell_bound(cgx as int, cgy as int, wig as int, hig as int);
            if cgy > 0 {
                crate::residual::ctx::lemma_cell_bound(cgx as int, cgy - 1, wig as int, hig as int);
            }
        }
        let ghost sp = TsDBlock { m: dec.model(), c: *ctx, bins: bins as int, sig: sig_cg@, any: any_prior_sig, coeff: coeff@ };
        let infer = g == num_cg - 1 && !any_prior_sig;
        let group_sig = if infer {
            true
        } else {
            let s_left = cgx > 0 && sig_cg[cgy * wig + cgx - 1];
            let s_above = cgy > 0 && sig_cg[(cgy - 1) * wig + cgx];
            let c = (if s_left { 1usize } else { 0 }) + (if s_above { 1usize } else { 0 });
            let ghost cb = *ctx;
            let gb = dec.decode_bin(&mut ctx.ts_sig_group[c]);
            proof {
                assert(ctx.ts_sig_group =~= spec_array_update(cb.ts_sig_group, c as int, ctx_after(cb.ts_sig_group[c as int], gb)));
            }
            gb == 1
        };
        if group_sig {
            sig_cg.set(cgy * wig + cgx, true);
            any_prior_sig = true;
            decode_ts_group(dec, ctx, &mut coeff, w, h, cgx, cgy, &sub_scan, bdpcm, &mut bins);
        }
        assert((TsDBlock { m: dec.model(), c: *ctx, bins: bins as int, sig: sig_cg@, any: any_prior_sig, coeff: coeff@ })
            =~= ts_dgroup(dec.data(), sp, w as int, wig as int, num_cg as int, cg_scan@, bdpcm, g as int));
        g += 1;
    }
    coeff
}

/// The transform-skip sign contexts (H.266 `ctxInc` of `coeff_sign_flag`):
/// 0 when both neighbours are zero or have opposite signs, 1 when neither
/// is negative, 2 when neither is positive, each moved up by 3 under BDPCM.
pub proof fn lemma_ts_sign_ctx(right: int, below: int, bdpcm: bool)
    ensures
        ((right == 0 && below == 0) || (right > 0 && below < 0) || (right < 0 && below > 0))
            ==> sign_ctx_spec(right, below, bdpcm) == if bdpcm { 3int } else { 0 },
        (right >= 0 && below >= 0 && (right > 0 || below > 0))
            ==> sign_ctx_spec(right, below, bdpcm) == if bdpcm { 4int } else { 1 },
        (right <= 0 && below <= 0 && (right < 0 || below < 0))
            ==> sign_ctx_spec(right, below, bdpcm) == if bdpcm { 5int } else { 2 },
{
    if right > 0 && below < 0 {
        assert(right * below < 0) by (nonlinear_arith)
            requires
                right > 0,
                below < 0,
        ;
    }
    if right < 0 && below > 0 {
        assert(right * below < 0) by (nonlinear_arith)
            requires
                right < 0,
                below > 0,
        ;
    }
    if right >= 0 && below >= 0 {
        assert(right * below >= 0) by (nonlinear_arith)
            requires
                right >= 0,
                below >= 0,
        ;
    }
    if right <= 0 && below <= 0 {
        assert(right * below >= 0) by (nonlinear_arith)
            requires
                right <= 0,
                below <= 0,
        ;
    }
}

} // verus!
