//! The residual block coder: last position, coefficient-group flags, the
//! context-coded significance / gt1 / parity / gt2 pass under the
//! regular-bin budget, the Rice remainders, the bypass fallback and the signs.
use vstd::prelude::*;
use crate::cabac::contexts::Contexts;
use crate::cabac::engine::{bits_prefix, ctx_after, m_bypass_seq, m_ctx_bin, ArithModel, CabacEncoder, CtxModel};
use vstd::array::spec_array_update;
use crate::depquant::{level_parity, next_state, spec_next_state};
use super::ctx::{
    CoeffCtx, Component, GROUP_IDX, GO_RICE_PARS, MIN_IN_GROUP, ctx_offset_abs, ctx_offset_spec, sig_ctx_spec, template_abs_spec, derive_rice, last_ctx_count,
    last_offset, last_shift, lemma_group_table, lemma_last_ctx_in_range, levels_ok, shr_small, sig_ctx,
};
use super::rem::{encode_rem_abs_ep, rem_bits};
use crate::bitstream::low_bits;
use super::scan::{cell_pos, coded_side, coeff_scan, group_scan, lemma_coeff_scan, lemma_diag_seq, tb_side_ok};

verus! {

/// Regular-bin budget per coefficient, in sixteenths (28/16 = 1.75 bins).
pub const CTX_BIN_RATIO: i32 = 28;

/// Bound on the outstanding-bit growth of coding one residual block.
pub open spec fn residual_budget() -> int {
    0x4_0000
}

/// Bound on the outstanding-bit growth of one coefficient group.
pub open spec fn group_budget() -> int {
    2600
}

/// Some level of the coded region is non-zero.
pub open spec fn has_nonzero(c: Seq<i32>, w: int, h: int) -> bool {
    exists|k: int| 0 <= k < coeff_scan(w, h).len() && #[trigger] c[cell_pos(coeff_scan(w, h)[k], w)] != 0
}

/// Encoder state and contexts while a residual block is coded.
pub struct RState {
    pub m: ArithModel,
    pub c: Contexts,
}

/// The last-position prefix context `i` of the x (or y) coordinate.
pub open spec fn last_ctx(c: Contexts, luma: bool, is_x: bool, i: int) -> CtxModel {
    if luma {
        if is_x { c.last_x[i] } else { c.last_y[i] }
    } else {
        if is_x { c.last_x_c[i] } else { c.last_y_c[i] }
    }
}

/// The contexts after a bin `b` with the last-position prefix context `i`.
pub open spec fn last_upd(c: Contexts, luma: bool, is_x: bool, i: int, b: u8) -> Contexts {
    let v = ctx_after(last_ctx(c, luma, is_x, i), b);
    if luma {
        if is_x {
            Contexts { last_x: spec_array_update(c.last_x, i, v), ..c }
        } else {
            Contexts { last_y: spec_array_update(c.last_y, i, v), ..c }
        }
    } else {
        if is_x {
            Contexts { last_x_c: spec_array_update(c.last_x_c, i, v), ..c }
        } else {
            Contexts { last_y_c: spec_array_update(c.last_y_c, i, v), ..c }
        }
    }
}

/// `s` after coding `b` with the last-position prefix context `i`.
pub open spec fn last_bin(s: RState, luma: bool, is_x: bool, i: int, b: u8) -> RState {
    RState { m: m_ctx_bin(s.m, b, last_ctx(s.c, luma, is_x, i)), c: last_upd(s.c, luma, is_x, i, b) }
}

/// The gt1 (`kind` 0), parity (1) or gt2 (2) context at offset `off`.
pub open spec fn gtx_ctx(c: Contexts, luma: bool, kind: u8, off: int) -> CtxModel {
    if luma {
        if kind == 0 { c.gt1_flag[off] } else if kind == 1 { c.par_flag[off] } else { c.gt2_flag[off] }
    } else {
        if kind == 0 { c.gt1_flag_c[off] } else if kind == 1 { c.par_flag_c[off] } else { c.gt2_flag_c[off] }
    }
}

/// The contexts after a bin `b` with the gt1 / parity / gt2 context at
/// `off`.
pub open spec fn gtx_upd(c: Contexts, luma: bool, kind: u8, off: int, b: u8) -> Contexts {
    let v = ctx_after(gtx_ctx(c, luma, kind, off), b);
    if luma {
        if kind == 0 {
            Contexts { gt1_flag: spec_array_update(c.gt1_flag, off, v), ..c }
        } else if kind == 1 {
            Contexts { par_flag: spec_array_update(c.par_flag, off, v), ..c }
        } else {
            Contexts { gt2_flag: spec_array_update(c.gt2_flag, off, v), ..c }
        }
    } else {
        if kind == 0 {
            Contexts { gt1_flag_c: spec_array_update(c.gt1_flag_c, off, v), ..c }
        } else if kind == 1 {
            Contexts { par_flag_c: spec_array_update(c.par_flag_c, off, v), ..c }
        } else {
            Contexts { gt2_flag_c: spec_array_update(c.gt2_flag_c, off, v), ..c }
        }
    }
}

/// `s` after coding `b` with the gt1 / parity / gt2 context at `off`.
pub open spec fn gtx_bin(s: RState, luma: bool, kind: u8, off: int, b: u8) -> RState {
    RState { m: m_ctx_bin(s.m, b, gtx_ctx(s.c, luma, kind, off)), c: gtx_upd(s.c, luma, kind, off, b) }
}

/// The contexts after a bin `b` with significance context `i` of the set
/// selected by the component and the dependent-quantization state.
pub open spec fn sig_upd(c: Contexts, luma: bool, state: u8, i: int, b: u8) -> Contexts {
    let g: int = if state == 0 { 0 } else { state - 1 };
    let v = ctx_after(c.sig_set(luma, state)[i], b);
    if luma {
        if g == 0 {
            Contexts { sig_flag: spec_array_update(c.sig_flag, i, v), ..c }
        } else if g == 1 {
            Contexts { sig_flag_st1: spec_array_update(c.sig_flag_st1, i, v), ..c }
        } else {
            Contexts { sig_flag_st2: spec_array_update(c.sig_flag_st2, i, v), ..c }
        }
    } else {
        if g == 0 {
            Contexts { sig_flag_c: spec_array_update(c.sig_flag_c, i, v), ..c }
        } else if g == 1 {
            Contexts { sig_flag_c_st1: spec_array_update(c.sig_flag_c_st1, i, v), ..c }
        } else {
            Contexts { sig_flag_c_st2: spec_array_update(c.sig_flag_c_st2, i, v), ..c }
        }
    }
}

/// `s` after coding `b` with significance context `i` of the set selected by
/// the component and the dependent-quantization state.
pub open spec fn sig_bin(s: RState, luma: bool, state: u8, i: int, b: u8) -> RState {
    RState { m: m_ctx_bin(s.m, b, s.c.sig_set(luma, state)[i]), c: sig_upd(s.c, luma, state, i, b) }
}

/// The coefficient-group flag context `i`.
pub open spec fn sgrp_ctx(c: Contexts, luma: bool, i: int) -> CtxModel {
    if luma { c.sig_group[i] } else { c.sig_group_c[i] }
}

/// The contexts after a bin `b` with coefficient-group flag context `i`.
pub open spec fn sgrp_upd(c: Contexts, luma: bool, i: int, b: u8) -> Contexts {
    if luma {
        Contexts { sig_group: spec_array_update(c.sig_group, i, ctx_after(c.sig_group[i], b)), ..c }
    } else {
        Contexts { sig_group_c: spec_array_update(c.sig_group_c, i, ctx_after(c.sig_group_c[i], b)), ..c }
    }
}

/// `s` after coding `b` with coefficient-group flag context `i`.
pub open spec fn sgrp_bin(s: RState, luma: bool, i: int, b: u8) -> RState {
    RState { m: m_ctx_bin(s.m, b, sgrp_ctx(s.c, luma, i)), c: sgrp_upd(s.c, luma, i, b) }
}

/// Encode a significance flag with context `idx` of the set selected by the
/// component and the dependent-quantization state.
fn encode_sig_bin(enc: &mut CabacEncoder, ctx: &mut Contexts, luma: bool, state: u8, idx: usize, bin: u8)
    requires
        old(enc).wf(),
        old(enc).headroom() >= 8,
        idx < (if luma { 12int } else { 8int }),
    ensures
        final(enc).wf(),
        bits_prefix(old(enc).model().bits, final(enc).model().bits),
        final(enc).model().outstanding <= old(enc).model().outstanding + 8,
        (RState { m: final(enc).model(), c: *final(ctx) }) == sig_bin(
            RState { m: old(enc).model(), c: *old(ctx) },
            luma,
            state,
            idx as int,
            bin,
        ),
{
    let ghost c0 = *ctx;
    let group = if state == 0 { 0 } else { state - 1 };
    if luma {
        if group == 0 {
            enc.encode_bin(bin, &mut ctx.sig_flag[idx]);
            assert(ctx.sig_flag =~= spec_array_update(c0.sig_flag, idx as int, ctx_after(c0.sig_flag[idx as int], bin)));
        } else if group == 1 {
            enc.encode_bin(bin, &mut ctx.sig_flag_st1[idx]);
            assert(ctx.sig_flag_st1 =~= spec_array_update(c0.sig_flag_st1, idx as int, ctx_after(c0.sig_flag_st1[idx as int], bin)));
        } else {
            enc.encode_bin(bin, &mut ctx.sig_flag_st2[idx]);
            assert(ctx.sig_flag_st2 =~= spec_array_update(c0.sig_flag_st2, idx as int, ctx_after(c0.sig_flag_st2[idx as int], bin)));
        }
    } else {
        if group == 0 {
            enc.encode_bin(bin, &mut ctx.sig_flag_c[idx]);
            assert(ctx.sig_flag_c =~= spec_array_update(c0.sig_flag_c, idx as int, ctx_after(c0.sig_flag_c[idx as int], bin)));
        } else if group == 1 {
            enc.encode_bin(bin, &mut ctx.sig_flag_c_st1[idx]);
            assert(ctx.sig_flag_c_st1 =~= spec_array_update(c0.sig_flag_c_st1, idx as int, ctx_after(c0.sig_flag_c_st1[idx as int], bin)));
        } else {
            enc.encode_bin(bin, &mut ctx.sig_flag_c_st2[idx]);
            assert(ctx.sig_flag_c_st2 =~= spec_array_update(c0.sig_flag_c_st2, idx as int, ctx_after(c0.sig_flag_c_st2[idx as int], bin)));
        }
    }
}

/// The first `n` ones of a last-position prefix: bin `k` with context
/// `offset + (k >> shift)`.
pub open spec fn last_ones(s: RState, luma: bool, is_x: bool, offset: int, shift: int, n: nat) -> RState
    decreases n,
{
    if n == 0 {
        s
    } else {
        let p = last_ones(s, luma, is_x, offset, shift, (n - 1) as nat);
        last_bin(p, luma, is_x, offset + (n - 1) / (vstd::arithmetic::power2::pow2(shift as nat) as int), 1)
    }
}

/// One coordinate `pos` of the last position: its group index in truncated
/// unary (ones, then a zero unless it is the largest group), then for groups
/// above 3 the offset inside the group in `(g − 2)/2` bypass bins.
pub open spec fn last_coord_model(s: RState, luma: bool, is_x: bool, pos: int, offset: int, shift: int, max_last: int) -> RState {
    let g = GROUP_IDX[pos] as int;
    let s1 = last_ones(s, luma, is_x, offset, shift, g as nat);
    let s2 = if g < max_last {
        last_bin(s1, luma, is_x, offset + g / (vstd::arithmetic::power2::pow2(shift as nat) as int), 0)
    } else {
        s1
    };
    if g > 3 {
        RState { m: m_bypass_seq(s2.m, low_bits((pos - MIN_IN_GROUP[g]) as u64, ((g - 2) / 2) as nat)), ..s2 }
    } else {
        s2
    }
}

/// The last-significant position, scan index `p` of a `w × h` block: its x
/// then its y coordinate.
pub open spec fn last_sig_model(s: RState, w: int, h: int, luma: bool, p: int) -> RState {
    let (x, y) = coeff_scan(w, h)[p];
    let s1 = last_coord_model(s, luma, true, x as int, last_offset(w, luma), last_shift(w, luma), GROUP_IDX[coded_side(w) - 1] as int);
    last_coord_model(s1, luma, false, y as int, last_offset(h, luma), last_shift(h, luma), GROUP_IDX[coded_side(h) - 1] as int)
}

/// Encode one prefix bin of the last position with its context.
fn encode_last_bin(enc: &mut CabacEncoder, ctx: &mut Contexts, luma: bool, is_x: bool, i: usize, bin: u8)
    requires
        old(enc).wf(),
        old(enc).headroom() >= 8,
        i < last_ctx_count(luma),
    ensures
        final(enc).wf(),
        bits_prefix(old(enc).model().bits, final(enc).model().bits),
        final(enc).model().outstanding <= old(enc).model().outstanding + 8,
        (RState { m: final(enc).model(), c: *final(ctx) }) == last_bin(
            RState { m: old(enc).model(), c: *old(ctx) },
            luma,
            is_x,
            i as int,
            bin,
        ),
{
    let ghost c0 = *ctx;
    if luma {
        if is_x {
            enc.encode_bin(bin, &mut ctx.last_x[i]);
            assert(ctx.last_x =~= spec_array_update(c0.last_x, i as int, ctx_after(c0.last_x[i as int], bin)));
        } else {
            enc.encode_bin(bin, &mut ctx.last_y[i]);
            assert(ctx.last_y =~= spec_array_update(c0.last_y, i as int, ctx_after(c0.last_y[i as int], bin)));
        }
    } else {
        if is_x {
            enc.encode_bin(bin, &mut ctx.last_x_c[i]);
            assert(ctx.last_x_c =~= spec_array_update(c0.last_x_c, i as int, ctx_after(c0.last_x_c[i as int], bin)));
        } else {
            enc.encode_bin(bin, &mut ctx.last_y_c[i]);
            assert(ctx.last_y_c =~= spec_array_update(c0.last_y_c, i as int, ctx_after(c0.last_y_c[i as int], bin)));
        }
    }
}

/// Encode one coordinate of the last position: the group prefix (ones, then
/// a zero unless the group is the largest) and, for groups above 3, the
/// offset inside the group in bypass bins.
fn encode_last_coord(
    enc: &mut CabacEncoder,
    ctx: &mut Contexts,
    luma: bool,
    is_x: bool,
    pos: u32,
    n: usize,
    offset: u32,
    shift: u32,
    max_last: u32,
)
    requires
        old(enc).wf(),
        old(enc).headroom() >= 100,
        tb_side_ok(n as int),
        pos < coded_side(n as int),
        offset == last_offset(n as int, luma),
        shift == last_shift(n as int, luma),
        max_last == GROUP_IDX[coded_side(n as int) - 1],
    ensures
        final(enc).wf(),
        bits_prefix(old(enc).model().bits, final(enc).model().bits),
        final(enc).model().outstanding <= old(enc).model().outstanding + 100,
        (RState { m: final(enc).model(), c: *final(ctx) }) == last_coord_model(
            RState { m: old(enc).model(), c: *old(ctx) },
            luma,
            is_x,
            pos as int,
            offset as int,
            shift as int,
            max_last as int,
        ),
{
    let ghost s0 = RState { m: enc.model(), c: *ctx };
    proof {
        lemma_group_table(pos as int);
        lemma_group_table(coded_side(n as int) - 1);
    }
    let g = GROUP_IDX[pos as usize];
    proof {
        assert(g <= max_last);
    }
    let mut c: u32 = 0;
    while c < g
        invariant
            enc.wf(),
            bits_prefix(old(enc).model().bits, enc.model().bits),
            c <= g <= max_last <= 9,
            tb_side_ok(n as int),
            offset == last_offset(n as int, luma),
            shift == last_shift(n as int, luma),
            max_last == GROUP_IDX[coded_side(n as int) - 1],
            old(enc).headroom() >= 100,
            enc.model().outstanding <= old(enc).model().outstanding + 8 * c,
            s0 == (RState { m: old(enc).model(), c: *old(ctx) }),
            (RState { m: enc.model(), c: *ctx }) == last_ones(s0, luma, is_x, offset as int, shift as int, c as nat),
        decreases g - c,
    {
        proof {
            lemma_last_ctx_in_range(n as int, luma, c as int);
        }
        let i = offset + shr_small(c, shift);
        encode_last_bin(enc, ctx, luma, is_x, i as usize, 1);
        c += 1;
    }
    if g < max_last {
        proof {
            lemma_last_ctx_in_range(n as int, luma, g as int);
        }
        let i = offset + shr_small(g, shift);
        encode_last_bin(enc, ctx, luma, is_x, i as usize, 0);
    }
    if g > 3 {
        let rest = pos - MIN_IN_GROUP[g as usize];
        let nbits = (g - 2) / 2;
        enc.encode_bypass_bits(rest, nbits);
    }
}

/// Encode the last-significant position (scan index `scan_pos_last`).
fn encode_last_sig(enc: &mut CabacEncoder, ctx: &mut Contexts, cc: &CoeffCtx, scan_pos_last: usize, luma: bool)
    requires
        old(enc).wf(),
        old(enc).headroom() >= 200,
        tb_side_ok(cc.w as int),
        tb_side_ok(cc.h as int),
        cc.is_for(cc.w as int, cc.h as int, luma),
        scan_pos_last < cc.scan.len(),
    ensures
        final(enc).wf(),
        bits_prefix(old(enc).model().bits, final(enc).model().bits),
        final(enc).model().outstanding <= old(enc).model().outstanding + 200,
        (RState { m: final(enc).model(), c: *final(ctx) }) == last_sig_model(
            RState { m: old(enc).model(), c: *old(ctx) },
            cc.w as int,
            cc.h as int,
            luma,
            scan_pos_last as int,
        ),
{
    proof {
        lemma_coeff_scan(cc.w as int, cc.h as int);
    }
    let (x, y) = cc.scan[scan_pos_last];
    encode_last_coord(enc, ctx, luma, true, x as u32, cc.w, cc.last_offset_x, cc.last_shift_x, cc.max_last_x);
    encode_last_coord(enc, ctx, luma, false, y as u32, cc.h, cc.last_offset_y, cc.last_shift_y, cc.max_last_y);
}

/// Encode a context-coded flag from the gt1 / parity / gt2 sets.
fn encode_gtx_bin(enc: &mut CabacEncoder, ctx: &mut Contexts, luma: bool, kind: u8, off: usize, bin: u8)
    requires
        old(enc).wf(),
        old(enc).headroom() >= 8,
        off < (if luma {
            21int
        } else {
            11int
        }),
    ensures
        final(enc).wf(),
        bits_prefix(old(enc).model().bits, final(enc).model().bits),
        final(enc).model().outstanding <= old(enc).model().outstanding + 8,
        (RState { m: final(enc).model(), c: *final(ctx) }) == gtx_bin(
            RState { m: old(enc).model(), c: *old(ctx) },
            luma,
            kind,
            off as int,
            bin,
        ),
{
    let ghost c0 = *ctx;
    if luma {
        if kind == 0 {
            enc.encode_bin(bin, &mut ctx.gt1_flag[off]);
            assert(ctx.gt1_flag =~= spec_array_update(c0.gt1_flag, off as int, ctx_after(c0.gt1_flag[off as int], bin)));
        } else if kind == 1 {
            enc.encode_bin(bin, &mut ctx.par_flag[off]);
            assert(ctx.par_flag =~= spec_array_update(c0.par_flag, off as int, ctx_after(c0.par_flag[off as int], bin)));
        } else {
            enc.encode_bin(bin, &mut ctx.gt2_flag[off]);
            assert(ctx.gt2_flag =~= spec_array_update(c0.gt2_flag, off as int, ctx_after(c0.gt2_flag[off as int], bin)));
        }
    } else {
        if kind == 0 {
            enc.encode_bin(bin, &mut ctx.gt1_flag_c[off]);
            assert(ctx.gt1_flag_c =~= spec_array_update(c0.gt1_flag_c, off as int, ctx_after(c0.gt1_flag_c[off as int], bin)));
        } else if kind == 1 {
            enc.encode_bin(bin, &mut ctx.par_flag_c[off]);
            assert(ctx.par_flag_c =~= spec_array_update(c0.par_flag_c, off as int, ctx_after(c0.par_flag_c[off as int], bin)));
        } else {
            enc.encode_bin(bin, &mut ctx.gt2_flag_c[off]);
            assert(ctx.gt2_flag_c =~= spec_array_update(c0.gt2_flag_c, off as int, ctx_after(c0.gt2_flag_c[off as int], bin)));
        }
    }
}

/// Coder state carried from one coefficient group to the next.
pub struct GroupState {
    pub reg_bin_limit: i32,
    pub tmpl_diag: i32,
    pub tmpl_sum1: i32,
    pub dq_state: u8,
}

impl GroupState {
    /// Bounds kept across groups.
    pub open spec fn ok(&self) -> bool {
        &&& 0 <= self.reg_bin_limit <= 1792
        &&& (self.tmpl_diag == -1 || (0 <= self.tmpl_diag <= 126 && 0 <= self.tmpl_sum1 <= 25))
        &&& self.dq_state < 4
    }
}

/// Positions `[lo, hi]` of a group, in scan order, and where its passes split.
pub struct GroupPass {
    pub min_pos_2nd: i32,
    pub first_pos_2nd: i32,
    pub num_nonzero: u32,
    pub sign_pattern: u32,
}

/// State of the first pass over a group: coder and contexts, remaining
/// regular bins, the significance template (diagonal, partial sum), the
/// dependent-quantization state, the non-zero count and sign bits so far,
/// the highest position left for the remainder pass, and the next position.
pub struct FpState {
    pub r: RState,
    pub rem: int,
    pub diag: int,
    pub sum1: int,
    pub dq: u8,
    pub nz: int,
    pub signs: u32,
    pub first2: int,
    pub pos: int,
}

/// One step of the first pass at scan position `s.pos`: the significance
/// flag (not coded where inferred), then for a non-zero level its sign bit
/// (kept for later), gt1 flag and, above one, parity and gt2 flags; the
/// dependent-quantization state follows the level's parity.
pub open spec fn fp_step(s: FpState, coeff: Seq<i32>, w: int, h: int, luma: bool, dep_quant: bool, infer: int, last: int) -> FpState {
    let (x, y) = coeff_scan(w, h)[s.pos];
    let level = coeff[y as int * w + x as int];
    let b = fp_lvl(fp_sig(s, coeff, w, h, luma, infer, last), s.pos, level, luma, last);
    FpState {
        dq: if dep_quant { spec_next_state(b.dq, level_parity(level)) } else { b.dq },
        pos: s.pos - 1,
        ..b
    }
}

/// The significance part of a first-pass step: the flag with its template
/// context unless inferred; the template is also refreshed (for the level
/// contexts) except at the last position.
pub open spec fn fp_sig(s: FpState, coeff: Seq<i32>, w: int, h: int, luma: bool, infer: int, last: int) -> FpState {
    let (x, y) = coeff_scan(w, h)[s.pos];
    let xi = x as int;
    let yi = y as int;
    let level = coeff[yi * w + xi];
    let (sctx, d, s1) = sig_ctx_spec(coeff, xi, yi, w, h, luma);
    if s.nz > 0 || s.pos != infer {
        FpState {
            r: sig_bin(s.r, luma, s.dq, sctx, if level != 0 { 1u8 } else { 0u8 }),
            rem: s.rem - 1,
            diag: d,
            sum1: s1,
            ..s
        }
    } else if s.pos != last {
        FpState { diag: d, sum1: s1, ..s }
    } else {
        s
    }
}

/// The level part of a first-pass step at position `pos`.
pub open spec fn fp_lvl(a: FpState, pos: int, level: i32, luma: bool, last: int) -> FpState {
    if level != 0 {
        let off = ctx_offset_spec(a.diag, a.sum1, luma);
        let al = if level < 0 { -(level as int) } else { level as int };
        let t: u32 = if pos != last { a.signs << 1u32 } else { a.signs };
        let sg: u32 = if level < 0 { t | 1u32 } else { t };
        let b1 = FpState {
            r: gtx_bin(a.r, luma, 0, off, if al > 1 { 1u8 } else { 0u8 }),
            rem: a.rem - 1,
            nz: a.nz + 1,
            signs: sg,
            ..a
        };
        if al > 1 {
            FpState {
                r: gtx_bin(gtx_bin(b1.r, luma, 1, off, (al % 2) as u8), luma, 2, off, if al > 3 { 1u8 } else { 0u8 }),
                rem: b1.rem - 2,
                first2: if al > 3 && pos > b1.first2 { pos } else { b1.first2 },
                ..b1
            }
        } else {
            b1
        }
    } else {
        a
    }
}

/// The first pass after `n` steps, stopping below `min_sub` or once fewer
/// than four regular bins remain.
pub open spec fn fp_run(
    s: FpState,
    coeff: Seq<i32>,
    w: int,
    h: int,
    luma: bool,
    dep_quant: bool,
    infer: int,
    last: int,
    min_sub: int,
    n: nat,
) -> FpState
    decreases n,
{
    if n == 0 {
        s
    } else {
        let p = fp_run(s, coeff, w, h, luma, dep_quant, infer, last, min_sub, (n - 1) as nat);
        if p.pos >= min_sub && p.rem >= 4 {
            fp_step(p, coeff, w, h, luma, dep_quant, infer, last)
        } else {
            p
        }
    }
}

proof fn lemma_fp_stop(
    s: FpState,
    coeff: Seq<i32>,
    w: int,
    h: int,
    luma: bool,
    dep_quant: bool,
    infer: int,
    last: int,
    min_sub: int,
    k: nat,
    n: nat,
)
    requires
        k <= n,
        !({
            let p = fp_run(s, coeff, w, h, luma, dep_quant, infer, last, min_sub, k);
            p.pos >= min_sub && p.rem >= 4
        }),
    ensures
        fp_run(s, coeff, w, h, luma, dep_quant, infer, last, min_sub, n) == fp_run(
            s,
            coeff,
            w,
            h,
            luma,
            dep_quant,
            infer,
            last,
            min_sub,
            k,
        ),
    decreases n,
{
    if n > k {
        lemma_fp_stop(s, coeff, w, h, luma, dep_quant, infer, last, min_sub, k, (n - 1) as nat);
    }
}

/// First pass over a group: significance, gt1, parity and gt2 flags while at
/// least 4 regular bins remain in the budget.
#[verifier::rlimit(100)]
fn encode_first_pass(
    enc: &mut CabacEncoder,
    ctx: &mut Contexts,
    cc: &CoeffCtx,
    coeff: &[i32],
    luma: bool,
    dep_quant: bool,
    min_sub: usize,
    first_sig_pos: usize,
    infer_sig_pos: i32,
    scan_pos_last: usize,
    st: &mut GroupState,
) -> (r: GroupPass)
    requires
        old(enc).wf(),
        old(enc).headroom() >= 16 * 32,
        tb_side_ok(cc.w as int),
        tb_side_ok(cc.h as int),
        cc.is_for(cc.w as int, cc.h as int, luma),
        levels_ok(coeff@, cc.w * cc.h),
        min_sub <= first_sig_pos < min_sub + 16,
        first_sig_pos < cc.scan.len(),
        scan_pos_last < cc.scan.len(),
        old(st).ok(),
    ensures
        final(enc).wf(),
        bits_prefix(old(enc).model().bits, final(enc).model().bits),
        final(enc).model().outstanding <= old(enc).model().outstanding + 16 * 32,
        final(st).ok(),
        min_sub as int - 1 <= r.min_pos_2nd <= first_sig_pos,
        min_sub as int - 1 <= r.first_pos_2nd <= first_sig_pos,
        r.num_nonzero <= first_sig_pos - r.min_pos_2nd,
        ({
            let f = fp_run(
                FpState {
                    r: RState { m: old(enc).model(), c: *old(ctx) },
                    rem: old(st).reg_bin_limit as int,
                    diag: old(st).tmpl_diag as int,
                    sum1: old(st).tmpl_sum1 as int,
                    dq: old(st).dq_state,
                    nz: 0,
                    signs: 0,
                    first2: min_sub - 1,
                    pos: first_sig_pos as int,
                },
                coeff@,
                cc.w as int,
                cc.h as int,
                luma,
                dep_quant,
                infer_sig_pos as int,
                scan_pos_last as int,
                min_sub as int,
                16,
            );
            &&& (RState { m: final(enc).model(), c: *final(ctx) }) == f.r
            &&& final(st).reg_bin_limit == f.rem
            &&& final(st).tmpl_diag == f.diag
            &&& final(st).tmpl_sum1 == f.sum1
            &&& final(st).dq_state == f.dq
            &&& r.num_nonzero == f.nz
            &&& r.sign_pattern == f.signs
            &&& r.first_pos_2nd == f.first2
            &&& r.min_pos_2nd == f.pos
        }),
{
    proof {
        lemma_coeff_scan(cc.w as int, cc.h as int);
    }
    let w = cc.w;
    let h = cc.h;
    let mut num_nonzero: u32 = 0;
    let mut sign_pattern: u32 = 0;
    let mut rem_reg_bins = st.reg_bin_limit;
    let mut first_pos_2nd: i32 = min_sub as i32 - 1;
    let mut next_sig_pos: i32 = first_sig_pos as i32;
    let ghost o0 = enc.model().outstanding;
    let ghost s0 = FpState {
        r: RState { m: enc.model(), c: *ctx },
        rem: st.reg_bin_limit as int,
        diag: st.tmpl_diag as int,
        sum1: st.tmpl_sum1 as int,
        dq: st.dq_state,
        nz: 0,
        signs: 0,
        first2: min_sub - 1,
        pos: first_sig_pos as int,
    };
    while next_sig_pos >= min_sub as i32 && rem_reg_bins >= 4
        invariant
            enc.wf(),
            bits_prefix(old(enc).model().bits, enc.model().bits),
            old(enc).headroom() >= 16 * 32,
            o0 == old(enc).model().outstanding,
            tb_side_ok(w as int),
            tb_side_ok(h as int),
            w == cc.w,
            h == cc.h,
            cc.is_for(w as int, h as int, luma),
            levels_ok(coeff@, w * h),
            min_sub <= first_sig_pos < min_sub + 16,
            first_sig_pos < cc.scan.len(),
            scan_pos_last < cc.scan.len(),
            cc.scan.len() <= 1024,
            min_sub as int - 1 <= next_sig_pos <= first_sig_pos,
            min_sub as int - 1 <= first_pos_2nd <= first_sig_pos,
            0 <= rem_reg_bins <= 1792,
            st.tmpl_diag == -1 || (0 <= st.tmpl_diag <= 126 && 0 <= st.tmpl_sum1 <= 25),
            st.dq_state < 4,
            0 <= st.reg_bin_limit <= 1792,
            num_nonzero <= first_sig_pos - next_sig_pos,
            enc.model().outstanding <= o0 + 32 * (first_sig_pos - next_sig_pos),
            s0 == (FpState {
                r: RState { m: old(enc).model(), c: *old(ctx) },
                rem: old(st).reg_bin_limit as int,
                diag: old(st).tmpl_diag as int,
                sum1: old(st).tmpl_sum1 as int,
                dq: old(st).dq_state,
                nz: 0,
                signs: 0,
                first2: min_sub - 1,
                pos: first_sig_pos as int,
            }),
            (FpState {
                r: RState { m: enc.model(), c: *ctx },
                rem: rem_reg_bins as int,
                diag: st.tmpl_diag as int,
                sum1: st.tmpl_sum1 as int,
                dq: st.dq_state,
                nz: num_nonzero as int,
                signs: sign_pattern,
                first2: first_pos_2nd as int,
                pos: next_sig_pos as int,
            }) == fp_run(
                s0,
                coeff@,
                w as int,
                h as int,
                luma,
                dep_quant,
                infer_sig_pos as int,
                scan_pos_last as int,
                min_sub as int,
                (first_sig_pos - next_sig_pos) as nat,
            ),
        decreases next_sig_pos - min_sub as i32 + 1,
    {
        let ghost cur = FpState {
            r: RState { m: enc.model(), c: *ctx },
            rem: rem_reg_bins as int,
            diag: st.tmpl_diag as int,
            sum1: st.tmpl_sum1 as int,
            dq: st.dq_state,
            nz: num_nonzero as int,
            signs: sign_pattern,
            first2: first_pos_2nd as int,
            pos: next_sig_pos as int,
        };
        first_pass_step(
            enc,
            ctx,
            cc,
            coeff,
            luma,
            dep_quant,
            infer_sig_pos,
            scan_pos_last,
            st,
            &mut rem_reg_bins,
            &mut num_nonzero,
            &mut sign_pattern,
            &mut first_pos_2nd,
            next_sig_pos,
        );
        next_sig_pos -= 1;
        proof {
            let t = (first_sig_pos - cur.pos) as nat;
            assert((t + 1) as nat - 1 == t);
        }
    }
    proof {
        lemma_fp_stop(
            s0,
            coeff@,
            w as int,
            h as int,
            luma,
            dep_quant,
            infer_sig_pos as int,
            scan_pos_last as int,
            min_sub as int,
            (first_sig_pos - next_sig_pos) as nat,
            16,
        );
    }
    st.reg_bin_limit = rem_reg_bins;
    GroupPass { min_pos_2nd: next_sig_pos, first_pos_2nd, num_nonzero, sign_pattern }
}

/// One step of the first pass at scan position `next_sig_pos` (see
/// [`fp_step`]).
#[verifier::rlimit(100)]
fn first_pass_step(
    enc: &mut CabacEncoder,
    ctx: &mut Contexts,
    cc: &CoeffCtx,
    coeff: &[i32],
    luma: bool,
    dep_quant: bool,
    infer_sig_pos: i32,
    scan_pos_last: usize,
    st: &mut GroupState,
    rem_reg_bins: &mut i32,
    num_nonzero: &mut u32,
    sign_pattern: &mut u32,
    first_pos_2nd: &mut i32,
    next_sig_pos: i32,
)
    requires
        old(enc).wf(),
        old(enc).headroom() >= 32,
        tb_side_ok(cc.w as int),
        tb_side_ok(cc.h as int),
        cc.is_for(cc.w as int, cc.h as int, luma),
        cc.scan.len() <= 1024,
        levels_ok(coeff@, cc.w * cc.h),
        0 <= next_sig_pos < cc.scan.len(),
        scan_pos_last < cc.scan.len(),
        old(st).tmpl_diag == -1 || (0 <= old(st).tmpl_diag <= 126 && 0 <= old(st).tmpl_sum1 <= 25),
        old(st).dq_state < 4,
        4 <= *old(rem_reg_bins) <= 1792,
        *old(num_nonzero) <= 16,
    ensures
        final(enc).wf(),
        bits_prefix(old(enc).model().bits, final(enc).model().bits),
        final(enc).model().outstanding <= old(enc).model().outstanding + 32,
        final(st).tmpl_diag == -1 || (0 <= final(st).tmpl_diag <= 126 && 0 <= final(st).tmpl_sum1 <= 25),
        final(st).dq_state < 4,
        final(st).reg_bin_limit == old(st).reg_bin_limit,
        *old(rem_reg_bins) - 4 <= *final(rem_reg_bins) <= *old(rem_reg_bins),
        *final(num_nonzero) <= *old(num_nonzero) + 1,
        *final(first_pos_2nd) == *old(first_pos_2nd) || *final(first_pos_2nd) == next_sig_pos,
        (FpState {
            r: RState { m: final(enc).model(), c: *final(ctx) },
            rem: *final(rem_reg_bins) as int,
            diag: final(st).tmpl_diag as int,
            sum1: final(st).tmpl_sum1 as int,
            dq: final(st).dq_state,
            nz: *final(num_nonzero) as int,
            signs: *final(sign_pattern),
            first2: *final(first_pos_2nd) as int,
            pos: next_sig_pos - 1,
        }) == fp_step(
            FpState {
                r: RState { m: old(enc).model(), c: *old(ctx) },
                rem: *old(rem_reg_bins) as int,
                diag: old(st).tmpl_diag as int,
                sum1: old(st).tmpl_sum1 as int,
                dq: old(st).dq_state,
                nz: *old(num_nonzero) as int,
                signs: *old(sign_pattern),
                first2: *old(first_pos_2nd) as int,
                pos: next_sig_pos as int,
            },
            coeff@,
            cc.w as int,
            cc.h as int,
            luma,
            dep_quant,
            infer_sig_pos as int,
            scan_pos_last as int,
        ),
{
    proof {
        lemma_coeff_scan(cc.w as int, cc.h as int);
    }
    let w = cc.w;
    let h = cc.h;
    let ghost cur = FpState {
        r: RState { m: enc.model(), c: *ctx },
        rem: *rem_reg_bins as int,
        diag: st.tmpl_diag as int,
        sum1: st.tmpl_sum1 as int,
        dq: st.dq_state,
        nz: *num_nonzero as int,
        signs: *sign_pattern,
        first2: *first_pos_2nd as int,
        pos: next_sig_pos as int,
    };
    let sp = next_sig_pos as usize;
    let blk = cc.block_pos(sp);
    let x = cc.scan[sp].0;
    let y = cc.scan[sp].1;
    let level = coeff[blk];
    let sig: u8 = if level != 0 { 1 } else { 0 };
    if *num_nonzero > 0 || next_sig_pos != infer_sig_pos {
        let (sctx, diag, sum1) = sig_ctx(coeff, x, y, w, h, luma);
        st.tmpl_diag = diag;
        st.tmpl_sum1 = sum1;
        encode_sig_bin(enc, ctx, luma, st.dq_state, sctx, sig);
        *rem_reg_bins = *rem_reg_bins - 1;
    } else if next_sig_pos != scan_pos_last as i32 {
        let (_sctx, diag, sum1) = sig_ctx(coeff, x, y, w, h, luma);
        st.tmpl_diag = diag;
        st.tmpl_sum1 = sum1;
    }
    let ghost ga = FpState {
        r: RState { m: enc.model(), c: *ctx },
        rem: *rem_reg_bins as int,
        diag: st.tmpl_diag as int,
        sum1: st.tmpl_sum1 as int,
        dq: st.dq_state,
        nz: *num_nonzero as int,
        signs: *sign_pattern,
        first2: *first_pos_2nd as int,
        pos: next_sig_pos as int,
    };
    assert(ga == fp_sig(cur, coeff@, w as int, h as int, luma, infer_sig_pos as int, scan_pos_last as int));
    if sig != 0 {
        let off = ctx_offset_abs(st.tmpl_diag, st.tmpl_sum1, luma);
        *num_nonzero = *num_nonzero + 1;
        let abs_level: u32 = if level < 0 { (-level) as u32 } else { level as u32 };
        if next_sig_pos != scan_pos_last as i32 {
            *sign_pattern = *sign_pattern << 1;
        }
        if level < 0 {
            *sign_pattern = *sign_pattern | 1;
        }
        let gt1 = abs_level > 1;
        encode_gtx_bin(enc, ctx, luma, 0, off, if gt1 { 1 } else { 0 });
        *rem_reg_bins = *rem_reg_bins - 1;
        if gt1 {
            encode_gtx_bin(enc, ctx, luma, 1, off, (abs_level % 2) as u8);
            *rem_reg_bins = *rem_reg_bins - 1;
            let gt2 = abs_level > 3;
            encode_gtx_bin(enc, ctx, luma, 2, off, if gt2 { 1 } else { 0 });
            *rem_reg_bins = *rem_reg_bins - 1;
            if gt2 && next_sig_pos > *first_pos_2nd {
                *first_pos_2nd = next_sig_pos;
            }
        }
    }
    let ghost gb = FpState {
        r: RState { m: enc.model(), c: *ctx },
        rem: *rem_reg_bins as int,
        diag: st.tmpl_diag as int,
        sum1: st.tmpl_sum1 as int,
        dq: st.dq_state,
        nz: *num_nonzero as int,
        signs: *sign_pattern,
        first2: *first_pos_2nd as int,
        pos: next_sig_pos as int,
    };
    assert(gb == fp_lvl(ga, next_sig_pos as int, level, luma, scan_pos_last as int));
    if dep_quant {
        st.dq_state = next_state(st.dq_state, level);
    }
}

/// The remainder of position `sp` in the remainder pass: for a magnitude
/// of at least 4, `(|l| − 4)/2` with the Rice parameter of its template
/// (base 4).
pub open spec fn rp_cell(m: ArithModel, coeff: Seq<i32>, w: int, h: int, sp: int) -> ArithModel {
    let (x, y) = coeff_scan(w, h)[sp];
    let v = coeff[y as int * w + x as int] as int;
    let al = if v < 0 { -v } else { v };
    if al >= 4 {
        m_bypass_seq(m, rem_bits((al - 4) / 2, GO_RICE_PARS[template_abs_spec(coeff, x as int, y as int, w, h, 4)] as int))
    } else {
        m
    }
}

/// The remainder pass after `n` steps down from `first2`, stopping at
/// `min2`.
pub open spec fn rp_run(m: ArithModel, coeff: Seq<i32>, w: int, h: int, first2: int, min2: int, n: nat) -> ArithModel
    decreases n,
{
    if n == 0 {
        m
    } else {
        let p = rp_run(m, coeff, w, h, first2, min2, (n - 1) as nat);
        let sp = first2 - (n - 1);
        if sp > min2 {
            rp_cell(p, coeff, w, h, sp)
        } else {
            p
        }
    }
}

proof fn lemma_rp_stop(m: ArithModel, coeff: Seq<i32>, w: int, h: int, first2: int, min2: int, k: nat, n: nat)
    requires
        k <= n,
        first2 - k <= min2,
    ensures
        rp_run(m, coeff, w, h, first2, min2, n) == rp_run(m, coeff, w, h, first2, min2, k),
    decreases n,
{
    if n > k {
        lemma_rp_stop(m, coeff, w, h, first2, min2, k, (n - 1) as nat);
    }
}

/// State of the bypass pass: coder, non-zero count, sign bits and
/// dependent-quantization state.
pub struct BpState {
    pub m: ArithModel,
    pub nz: int,
    pub signs: u32,
    pub dq: u8,
}

/// Position `sp` in the bypass pass: the level as a Rice remainder around
/// the state's zero position `(1 or 2) << rice` (template base 0), its sign
/// bit kept for later, and the next dependent-quantization state.
pub open spec fn bp_cell(s: BpState, coeff: Seq<i32>, w: int, h: int, dep_quant: bool, sp: int) -> BpState {
    let (x, y) = coeff_scan(w, h)[sp];
    let val = coeff[y as int * w + x as int];
    let al = if val < 0 { -(val as int) } else { val as int };
    let rice: u32 = GO_RICE_PARS[template_abs_spec(coeff, x as int, y as int, w, h, 0)];
    let pos0: u32 = (if s.dq < 2 { 1u32 } else { 2u32 }) << rice;
    let rem = if al == 0 { pos0 as int } else if al <= pos0 { al - 1 } else { al };
    BpState {
        m: m_bypass_seq(s.m, rem_bits(rem, rice as int)),
        nz: if al != 0 { s.nz + 1 } else { s.nz },
        signs: if al != 0 {
            if val < 0 { (s.signs << 1u32) | 1u32 } else { s.signs << 1u32 }
        } else {
            s.signs
        },
        dq: if dep_quant { spec_next_state(s.dq, level_parity(val)) } else { s.dq },
    }
}

/// The bypass pass after `n` steps down from `min2`, stopping below
/// `min_sub`.
pub open spec fn bp_run(s: BpState, coeff: Seq<i32>, w: int, h: int, dep_quant: bool, min_sub: int, min2: int, n: nat) -> BpState
    decreases n,
{
    if n == 0 {
        s
    } else {
        let p = bp_run(s, coeff, w, h, dep_quant, min_sub, min2, (n - 1) as nat);
        let sp = min2 - (n - 1);
        if sp >= min_sub {
            bp_cell(p, coeff, w, h, dep_quant, sp)
        } else {
            p
        }
    }
}

proof fn lemma_bp_stop(s: BpState, coeff: Seq<i32>, w: int, h: int, dep_quant: bool, min_sub: int, min2: int, k: nat, n: nat)
    requires
        k <= n,
        min2 - k < min_sub,
    ensures
        bp_run(s, coeff, w, h, dep_quant, min_sub, min2, n) == bp_run(s, coeff, w, h, dep_quant, min_sub, min2, k),
    decreases n,
{
    if n > k {
        lemma_bp_stop(s, coeff, w, h, dep_quant, min_sub, min2, k, (n - 1) as nat);
    }
}

/// Magnitude of a bounded level.
fn level_abs(v: i32) -> (r: u32)
    requires
        -super::ctx::LEVEL_MAX <= v <= super::ctx::LEVEL_MAX,
    ensures
        r as int == crate::transform::quant::abs(v as int),
        r <= super::ctx::LEVEL_MAX,
{
    if v < 0 {
        (-v) as u32
    } else {
        v as u32
    }
}

/// Second pass: Rice remainders `(|l| − 4) >> 1` of the context-coded levels
/// above 3, over scan positions `(min_pos_2nd, first_pos_2nd]`.
fn encode_rem_pass(
    enc: &mut CabacEncoder,
    cc: &CoeffCtx,
    coeff: &[i32],
    luma: bool,
    min_sub: usize,
    pass: &GroupPass,
)
    requires
        old(enc).wf(),
        old(enc).headroom() >= 16 * 64,
        tb_side_ok(cc.w as int),
        tb_side_ok(cc.h as int),
        cc.is_for(cc.w as int, cc.h as int, luma),
        cc.scan.len() <= 1024,
        levels_ok(coeff@, cc.w * cc.h),
        min_sub as int - 1 <= pass.min_pos_2nd,
        pass.first_pos_2nd < min_sub + 16,
        pass.first_pos_2nd < cc.scan.len(),
    ensures
        final(enc).wf(),
        bits_prefix(old(enc).model().bits, final(enc).model().bits),
        final(enc).model().outstanding <= old(enc).model().outstanding + 16 * 64,
        final(enc).model() == rp_run(
            old(enc).model(),
            coeff@,
            cc.w as int,
            cc.h as int,
            pass.first_pos_2nd as int,
            pass.min_pos_2nd as int,
            16,
        ),
{
    proof {
        lemma_coeff_scan(cc.w as int, cc.h as int);
    }
    let mut scan_pos = pass.first_pos_2nd;
    let ghost o0 = enc.model().outstanding;
    while scan_pos > pass.min_pos_2nd
        invariant
            enc.wf(),
            bits_prefix(old(enc).model().bits, enc.model().bits),
            old(enc).headroom() >= 16 * 64,
            o0 == old(enc).model().outstanding,
            tb_side_ok(cc.w as int),
            tb_side_ok(cc.h as int),
            cc.is_for(cc.w as int, cc.h as int, luma),
            cc.scan.len() <= 1024,
            levels_ok(coeff@, cc.w * cc.h),
            min_sub as int - 1 <= pass.min_pos_2nd,
            pass.first_pos_2nd < min_sub + 16,
            pass.first_pos_2nd < cc.scan.len(),
            scan_pos <= pass.first_pos_2nd,
            pass.min_pos_2nd <= scan_pos || scan_pos == pass.first_pos_2nd,
            enc.model().outstanding <= o0 + 64 * (pass.first_pos_2nd - scan_pos),
            enc.model() == rp_run(
                old(enc).model(),
                coeff@,
                cc.w as int,
                cc.h as int,
                pass.first_pos_2nd as int,
                pass.min_pos_2nd as int,
                (pass.first_pos_2nd - scan_pos) as nat,
            ),
        decreases scan_pos - pass.min_pos_2nd,
    {
        let sp = scan_pos as usize;
        let blk = cc.block_pos(sp);
        let x = cc.scan[sp].0;
        let y = cc.scan[sp].1;
        let abs_level = level_abs(coeff[blk]);
        if abs_level >= 4 {
            let rice = derive_rice(coeff, x, y, cc.w, cc.h, 4);
            encode_rem_abs_ep(enc, (abs_level - 4) / 2, rice);
        }
        scan_pos -= 1;
        proof {
            let t = (pass.first_pos_2nd - scan_pos) as nat;
            assert((t - 1) as nat == t - 1);
        }
    }
    proof {
        if pass.first_pos_2nd - scan_pos <= 16 {
            lemma_rp_stop(
                old(enc).model(),
                coeff@,
                cc.w as int,
                cc.h as int,
                pass.first_pos_2nd as int,
                pass.min_pos_2nd as int,
                (pass.first_pos_2nd - scan_pos) as nat,
                16,
            );
        }
    }
}

/// Bypass pass over scan positions `[min_sub, min_pos_2nd]`: each level as a
/// Rice remainder around the state's zero position; returns the updated
/// non-zero count and sign pattern.
#[verifier::rlimit(40)]
fn encode_bypass_pass(
    enc: &mut CabacEncoder,
    cc: &CoeffCtx,
    coeff: &[i32],
    luma: bool,
    dep_quant: bool,
    min_sub: usize,
    pass: &GroupPass,
    st: &mut GroupState,
) -> (r: (u32, u32))
    requires
        old(enc).wf(),
        old(enc).headroom() >= 16 * 64,
        tb_side_ok(cc.w as int),
        tb_side_ok(cc.h as int),
        cc.is_for(cc.w as int, cc.h as int, luma),
        cc.scan.len() <= 1024,
        levels_ok(coeff@, cc.w * cc.h),
        min_sub as int - 1 <= pass.min_pos_2nd < min_sub + 16,
        pass.min_pos_2nd < cc.scan.len(),
        pass.num_nonzero + (pass.min_pos_2nd - min_sub + 1) <= 16,
        old(st).ok(),
    ensures
        final(enc).wf(),
        bits_prefix(old(enc).model().bits, final(enc).model().bits),
        final(enc).model().outstanding <= old(enc).model().outstanding + 16 * 64,
        final(st).ok(),
        r.0 <= 16,
        ({
            let b = bp_run(
                BpState { m: old(enc).model(), nz: pass.num_nonzero as int, signs: pass.sign_pattern, dq: old(st).dq_state },
                coeff@,
                cc.w as int,
                cc.h as int,
                dep_quant,
                min_sub as int,
                pass.min_pos_2nd as int,
                16,
            );
            &&& final(enc).model() == b.m
            &&& r.0 == b.nz
            &&& r.1 == b.signs
            &&& final(st).dq_state == b.dq
            &&& final(st).reg_bin_limit == old(st).reg_bin_limit
            &&& final(st).tmpl_diag == old(st).tmpl_diag
            &&& final(st).tmpl_sum1 == old(st).tmpl_sum1
        }),
{
    proof {
        lemma_coeff_scan(cc.w as int, cc.h as int);
    }
    let mut num_nonzero = pass.num_nonzero;
    let mut sign_pattern = pass.sign_pattern;
    let mut scan_pos = pass.min_pos_2nd;
    let ghost o0 = enc.model().outstanding;
    while scan_pos >= min_sub as i32
        invariant
            enc.wf(),
            bits_prefix(old(enc).model().bits, enc.model().bits),
            old(enc).headroom() >= 16 * 64,
            o0 == old(enc).model().outstanding,
            tb_side_ok(cc.w as int),
            tb_side_ok(cc.h as int),
            cc.is_for(cc.w as int, cc.h as int, luma),
            cc.scan.len() <= 1024,
            levels_ok(coeff@, cc.w * cc.h),
            min_sub as int - 1 <= pass.min_pos_2nd < min_sub + 16,
            pass.min_pos_2nd < cc.scan.len(),
            min_sub as int - 1 <= scan_pos <= pass.min_pos_2nd,
            num_nonzero + (scan_pos - min_sub + 1) <= 16,
            st.ok(),
            enc.model().outstanding <= o0 + 64 * (pass.min_pos_2nd - scan_pos),
            st.reg_bin_limit == old(st).reg_bin_limit,
            st.tmpl_diag == old(st).tmpl_diag,
            st.tmpl_sum1 == old(st).tmpl_sum1,
            (BpState { m: enc.model(), nz: num_nonzero as int, signs: sign_pattern, dq: st.dq_state }) == bp_run(
                BpState { m: old(enc).model(), nz: pass.num_nonzero as int, signs: pass.sign_pattern, dq: old(st).dq_state },
                coeff@,
                cc.w as int,
                cc.h as int,
                dep_quant,
                min_sub as int,
                pass.min_pos_2nd as int,
                (pass.min_pos_2nd - scan_pos) as nat,
            ),
        decreases scan_pos - min_sub as i32 + 1,
    {
        let sp = scan_pos as usize;
        let blk = cc.block_pos(sp);
        let x = cc.scan[sp].0;
        let y = cc.scan[sp].1;
        let val = coeff[blk];
        let abs_level = level_abs(val);
        let rice = derive_rice(coeff, x, y, cc.w, cc.h, 0);
        let pos0: u32 = (if st.dq_state < 2 { 1u32 } else { 2 }) << rice;
        proof {
            vstd::arithmetic::power2::lemma2_to64();
            if rice < 3 {
                vstd::arithmetic::power2::lemma_pow2_strictly_increases(rice as nat, 3);
            }
            vstd::bits::lemma_u32_shl_is_mul(1, rice);
            vstd::bits::lemma_u32_shl_is_mul(2, rice);
        }
        let rem = if abs_level == 0 {
            pos0
        } else if abs_level <= pos0 {
            abs_level - 1
        } else {
            abs_level
        };
        encode_rem_abs_ep(enc, rem, rice);
        if abs_level != 0 {
            num_nonzero += 1;
            sign_pattern = sign_pattern << 1;
            if val < 0 {
                sign_pattern = sign_pattern | 1;
            }
        }
        if dep_quant {
            st.dq_state = next_state(st.dq_state, val);
        }
        scan_pos -= 1;
        proof {
            let t = (pass.min_pos_2nd - scan_pos) as nat;
            assert((t - 1) as nat == t - 1);
        }
    }
    proof {
        lemma_bp_stop(
            BpState { m: old(enc).model(), nz: pass.num_nonzero as int, signs: pass.sign_pattern, dq: old(st).dq_state },
            coeff@,
            cc.w as int,
            cc.h as int,
            dep_quant,
            min_sub as int,
            pass.min_pos_2nd as int,
            (pass.min_pos_2nd - scan_pos) as nat,
            16,
        );
    }
    (num_nonzero, sign_pattern)
}

/// State carried from one coefficient group to the next: coder and
/// contexts, remaining regular bins, significance template,
/// dependent-quantization state, and which groups (raster order) were
/// significant.
pub struct GState {
    pub r: RState,
    pub rem: int,
    pub diag: int,
    pub sum1: int,
    pub dq: u8,
    pub raster: Seq<bool>,
}

/// Coefficient group `id` (scan order) of a block whose last significant
/// scan position is `last`: its flag (coded unless it is the last or the
/// first group; context: a significant right or lower group), then, if
/// significant or inferred, the first pass, the remainders, the bypass pass
/// and the sign bits. `sigs[id]` says whether the group has a non-zero
/// level.
pub open spec fn group_model(
    s: GState,
    coeff: Seq<i32>,
    w: int,
    h: int,
    luma: bool,
    dep_quant: bool,
    sigs: Seq<bool>,
    last: int,
    id: int,
) -> GState {
    let wig = coded_side(w) / 4;
    let hig = coded_side(h) / 4;
    let min_sub = id * 16;
    let is_last = id == last / 16;
    let not_first = id != 0;
    let (cgx, cgy) = group_scan(w, h)[id];
    let pos = cgy as int * wig + cgx as int;
    let significant = sigs[id];
    let coded_flag = !is_last && not_first;
    let r1 = if coded_flag {
        let right = cgx + 1 < wig && s.raster[pos + 1];
        let lower = cgy + 1 < hig && s.raster[pos + wig];
        sgrp_bin(s.r, luma, if right || lower { 1 } else { 0 }, if significant { 1u8 } else { 0u8 })
    } else {
        s.r
    };
    if coded_flag && !significant {
        GState { r: r1, ..s }
    } else {
        let raster = if significant { s.raster.update(pos, true) } else { s.raster };
        let first_sig = if is_last { last } else { min_sub + 15 };
        let infer = if first_sig != last {
            if not_first { min_sub } else { -1 }
        } else {
            first_sig
        };
        let f = fp_run(
            FpState { r: r1, rem: s.rem, diag: s.diag, sum1: s.sum1, dq: s.dq, nz: 0, signs: 0, first2: min_sub - 1, pos: first_sig },
            coeff,
            w,
            h,
            luma,
            dep_quant,
            infer,
            last,
            min_sub,
            16,
        );
        let m2 = rp_run(f.r.m, coeff, w, h, f.first2, f.pos, 16);
        let b = bp_run(BpState { m: m2, nz: f.nz, signs: f.signs, dq: f.dq }, coeff, w, h, dep_quant, min_sub, f.pos, 16);
        GState {
            r: RState { m: m_bypass_seq(b.m, low_bits(b.signs as u64, b.nz as nat)), c: f.r.c },
            rem: f.rem,
            diag: f.diag,
            sum1: f.sum1,
            dq: b.dq,
            raster,
        }
    }
}

/// Code one coefficient group: its significance flag (inferred for the last
/// and the first group), the first pass, the remainders, the bypass levels
/// and the signs.
#[verifier::rlimit(100)]
fn encode_group(
    enc: &mut CabacEncoder,
    ctx: &mut Contexts,
    cc: &CoeffCtx,
    coeff: &[i32],
    luma: bool,
    dep_quant: bool,
    sub_set_id: usize,
    last_cg: usize,
    scan_pos_last: usize,
    sig_scan: &Vec<bool>,
    sig_raster: &mut Vec<bool>,
    st: &mut GroupState,
)
    requires
        old(enc).wf(),
        old(enc).headroom() >= group_budget(),
        tb_side_ok(cc.w as int),
        tb_side_ok(cc.h as int),
        cc.is_for(cc.w as int, cc.h as int, luma),
        levels_ok(coeff@, cc.w * cc.h),
        sub_set_id <= last_cg,
        last_cg == scan_pos_last / 16,
        scan_pos_last < cc.scan.len(),
        sig_scan.len() == cc.scan.len() / 16,
        old(sig_raster).len() == cc.scan.len() / 16,
        old(st).ok(),
    ensures
        final(enc).wf(),
        bits_prefix(old(enc).model().bits, final(enc).model().bits),
        final(enc).model().outstanding <= old(enc).model().outstanding + group_budget(),
        final(sig_raster).len() == old(sig_raster).len(),
        final(st).ok(),
        ({
            let g = group_model(
                GState {
                    r: RState { m: old(enc).model(), c: *old(ctx) },
                    rem: old(st).reg_bin_limit as int,
                    diag: old(st).tmpl_diag as int,
                    sum1: old(st).tmpl_sum1 as int,
                    dq: old(st).dq_state,
                    raster: old(sig_raster)@,
                },
                coeff@,
                cc.w as int,
                cc.h as int,
                luma,
                dep_quant,
                sig_scan@,
                scan_pos_last as int,
                sub_set_id as int,
            );
            &&& (RState { m: final(enc).model(), c: *final(ctx) }) == g.r
            &&& final(st).reg_bin_limit == g.rem
            &&& final(st).tmpl_diag == g.diag
            &&& final(st).tmpl_sum1 == g.sum1
            &&& final(st).dq_state == g.dq
            &&& final(sig_raster)@ == g.raster
        }),
{
    proof {
        lemma_coeff_scan(cc.w as int, cc.h as int);
        lemma_diag_seq(coded_side(cc.w as int) / 4, coded_side(cc.h as int) / 4);
        assert(cc.scan.len() == cc.scan_cg.len() * 16);
        assert(cc.scan_cg.len() == cc.width_in_groups * cc.height_in_groups);
    }
    let min_sub = sub_set_id * 16;
    let max_sub = min_sub + 15;
    let is_last = sub_set_id == last_cg;
    let is_not_first = sub_set_id != 0;
    let cgx = cc.scan_cg[sub_set_id].0;
    let cgy = cc.scan_cg[sub_set_id].1;
    proof {
        lemma_cell_in_groups(cgx as int, cgy as int, cc.width_in_groups as int, cc.height_in_groups as int);
    }
    let sub_set_pos = cgy * cc.width_in_groups + cgx;
    let significant = sig_scan[sub_set_id];
    let ghost o0 = enc.model().outstanding;
    if !is_last && is_not_first {
        let sig_right = cgx + 1 < cc.width_in_groups && sig_raster[sub_set_pos + 1];
        let sig_lower = cgy + 1 < cc.height_in_groups && sig_raster[sub_set_pos + cc.width_in_groups];
        let bin: u8 = if significant { 1 } else { 0 };
        let gi: usize = if sig_right || sig_lower { 1 } else { 0 };
        let ghost c0 = *ctx;
        if luma {
            enc.encode_bin(bin, &mut ctx.sig_group[gi]);
            assert(ctx.sig_group =~= spec_array_update(c0.sig_group, gi as int, ctx_after(c0.sig_group[gi as int], bin)));
        } else {
            enc.encode_bin(bin, &mut ctx.sig_group_c[gi]);
            assert(ctx.sig_group_c =~= spec_array_update(c0.sig_group_c, gi as int, ctx_after(c0.sig_group_c[gi as int], bin)));
        }
        if !significant {
            return;
        }
    }
    if significant {
        sig_raster.set(sub_set_pos, true);
    }
    let first_sig_pos = if is_last { scan_pos_last } else { max_sub };
    let infer_sig_pos: i32 = if first_sig_pos != scan_pos_last {
        if is_not_first { min_sub as i32 } else { -1 }
    } else {
        first_sig_pos as i32
    };
    let pass = encode_first_pass(
        enc,
        ctx,
        cc,
        coeff,
        luma,
        dep_quant,
        min_sub,
        first_sig_pos,
        infer_sig_pos,
        scan_pos_last,
        st,
    );
    encode_rem_pass(enc, cc, coeff, luma, min_sub, &pass);
    let (num_nonzero, sign_pattern) = encode_bypass_pass(enc, cc, coeff, luma, dep_quant, min_sub, &pass, st);
    enc.encode_bypass_bits(sign_pattern, num_nonzero);
}

/// The level at scan index `k` of a `w × h` block is non-zero.
pub open spec fn nz_at(c: Seq<i32>, w: int, h: int, k: int) -> bool {
    c[cell_pos(coeff_scan(w, h)[k], w)] != 0
}

/// The last scan index below `n` with a non-zero level, or −1.
pub open spec fn last_sig_pos(c: Seq<i32>, w: int, h: int, n: nat) -> int
    decreases n,
{
    if n == 0 {
        -1
    } else if nz_at(c, w, h, n - 1) {
        n - 1
    } else {
        last_sig_pos(c, w, h, (n - 1) as nat)
    }
}

/// Which coefficient groups (scan order) hold a non-zero level.
pub open spec fn sig_groups(c: Seq<i32>, w: int, h: int) -> Seq<bool> {
    let n = coeff_scan(w, h).len();
    Seq::new(n / 16, |g: int| exists|k: int| 0 <= k < n && k / 16 == g && #[trigger] nz_at(c, w, h, k))
}

/// The groups after the first `n`, from the last significant one down.
pub open spec fn groups_run(
    s: GState,
    coeff: Seq<i32>,
    w: int,
    h: int,
    luma: bool,
    dep_quant: bool,
    sigs: Seq<bool>,
    last: int,
    n: nat,
) -> GState
    decreases n,
{
    if n == 0 {
        s
    } else {
        group_model(groups_run(s, coeff, w, h, luma, dep_quant, sigs, last, (n - 1) as nat), coeff, w, h, luma, dep_quant, sigs, last, last / 16 - (n - 1))
    }
}

/// The encoder state and contexts after coding the `w × h` block `coeff`
/// with the regular residual coder from `m` and `c`: the last significant
/// position, then the groups from the last significant one down to the
/// first, with a budget of `28/16` regular bins per coded coefficient.
pub open spec fn residual_model(
    m: ArithModel,
    c: Contexts,
    coeff: Seq<i32>,
    w: int,
    h: int,
    luma: bool,
    dep_quant: bool,
) -> (ArithModel, Contexts) {
    let n = coeff_scan(w, h).len();
    let last = last_sig_pos(coeff, w, h, n);
    let r0 = last_sig_model(RState { m, c }, w, h, luma, last);
    let g0 = GState {
        r: r0,
        rem: (n as int * 28) / 16,
        diag: -1,
        sum1: 0,
        dq: 0,
        raster: Seq::new(n / 16, |i: int| false),
    };
    let gf = groups_run(g0, coeff, w, h, luma, dep_quant, sig_groups(coeff, w, h), last, (last / 16 + 1) as nat);
    (gf.r.m, gf.r.c)
}

/// A group cell lies inside the group grid.
proof fn lemma_cell_in_groups(gx: int, gy: int, gw: int, gh: int)
    requires
        0 <= gx < gw,
        0 <= gy < gh,
    ensures
        0 <= gy * gw + gx < gw * gh,
        gx + 1 < gw ==> gy * gw + gx + 1 < gw * gh,
        gy + 1 < gh ==> gy * gw + gx + gw < gw * gh,
{
    super::ctx::lemma_cell_bound(gx, gy, gw, gh);
    if gx + 1 < gw {
        super::ctx::lemma_cell_bound(gx + 1, gy, gw, gh);
    }
    if gy + 1 < gh {
        super::ctx::lemma_cell_bound(gx, gy + 1, gw, gh);
        assert((gy + 1) * gw == gy * gw + gw) by (nonlinear_arith);
    }
}

/// Code the quantized levels of a `w × h` transform block (raster order,
/// stride `w`) over its coded region. Some level there must be non-zero.
#[verifier::rlimit(100)]
pub fn encode_residual(
    enc: &mut CabacEncoder,
    ctx: &mut Contexts,
    coeff: &[i32],
    w: usize,
    h: usize,
    comp: Component,
    dep_quant: bool,
)
    requires
        old(enc).wf(),
        old(enc).headroom() >= residual_budget(),
        tb_side_ok(w as int),
        tb_side_ok(h as int),
        levels_ok(coeff@, w * h),
        has_nonzero(coeff@, w as int, h as int),
    ensures
        final(enc).wf(),
        bits_prefix(old(enc).model().bits, final(enc).model().bits),
        final(enc).model().outstanding <= old(enc).model().outstanding + residual_budget(),
        (final(enc).model(), *final(ctx)) == residual_model(
            old(enc).model(),
            *old(ctx),
            coeff@,
            w as int,
            h as int,
            comp == Component::Luma,
            dep_quant,
        ),
{
    let luma = comp.is_luma();
    let cc = CoeffCtx::new(w, h, comp);
    proof {
        lemma_coeff_scan(w as int, h as int);
        assert(cc.scan.len() % 16 == 0 && cc.scan.len() >= 16) by {
            assert(coded_side(w as int) * coded_side(h as int) == (coded_side(w as int) / 4) * (
            coded_side(h as int) / 4) * 16) by (nonlinear_arith)
                requires
                    coded_side(w as int) % 4 == 0,
                    coded_side(h as int) % 4 == 0,
            ;
            assert((coded_side(w as int) / 4) * (coded_side(h as int) / 4) >= 1) by (nonlinear_arith)
                requires
                    coded_side(w as int) / 4 >= 1,
                    coded_side(h as int) / 4 >= 1,
            ;
        }
    }
    let max_coeff = cc.scan.len();
    let num_cg = max_coeff / 16;
    let mut sig_scan: Vec<bool> = vec![false; num_cg];
    let mut found = false;
    let mut scan_pos_last: usize = 0;
    let mut scan_pos: usize = 0;
    while scan_pos < max_coeff
        invariant
            tb_side_ok(w as int),
            tb_side_ok(h as int),
            cc.is_for(w as int, h as int, luma),
            max_coeff == cc.scan.len(),
            max_coeff <= 1024,
            num_cg == max_coeff / 16,
            max_coeff % 16 == 0,
            sig_scan.len() == num_cg,
            levels_ok(coeff@, w * h),
            scan_pos <= max_coeff,
            found ==> scan_pos_last < scan_pos,
            found <==> exists|k: int| 0 <= k < scan_pos && #[trigger] coeff@[cell_pos(cc.scan@[k], w as int)] != 0,
            (if found { scan_pos_last as int } else { -1 }) == last_sig_pos(coeff@, w as int, h as int, scan_pos as nat),
            forall|g: int|
                0 <= g < num_cg ==> (#[trigger] sig_scan@[g] <==> exists|k: int|
                    0 <= k < scan_pos && k / 16 == g && #[trigger] nz_at(coeff@, w as int, h as int, k)),
        decreases max_coeff - scan_pos,
    {
        let blk = cc.block_pos(scan_pos);
        let ghost prev = found;
        let ghost sig_prev = sig_scan@;
        proof {
            assert(blk == cell_pos(cc.scan@[scan_pos as int], w as int));
        }
        if coeff[blk] != 0 {
            proof {
                assert(coeff@[cell_pos(cc.scan@[scan_pos as int], w as int)] != 0);
            }
            found = true;
            scan_pos_last = scan_pos;
            proof {
                assert(scan_pos / 16 < num_cg) by {
                    crate::predict::lemma_div_below(scan_pos as int, 16, num_cg as int);
                }
            }
            sig_scan.set(scan_pos / 16, true);
            proof {
                assert(nz_at(coeff@, w as int, h as int, scan_pos as int));
                assert forall|g: int| 0 <= g < num_cg implies (#[trigger] sig_scan@[g] <==> exists|k: int|
                    0 <= k < scan_pos + 1 && k / 16 == g && #[trigger] nz_at(coeff@, w as int, h as int, k)) by {
                    if g != scan_pos / 16 {
                        if exists|k: int| 0 <= k < scan_pos + 1 && k / 16 == g && #[trigger] nz_at(coeff@, w as int, h as int, k) {
                            let k = choose|k: int| 0 <= k < scan_pos + 1 && k / 16 == g && #[trigger] nz_at(coeff@, w as int, h as int, k);
                            assert(k != scan_pos);
                            assert(sig_prev[g]);
                        }
                    }
                }
            }
        } else {
            proof {
                assert(!nz_at(coeff@, w as int, h as int, scan_pos as int));
                assert forall|g: int| 0 <= g < num_cg implies (#[trigger] sig_scan@[g] <==> exists|k: int|
                    0 <= k < scan_pos + 1 && k / 16 == g && #[trigger] nz_at(coeff@, w as int, h as int, k)) by {
                    if exists|k: int| 0 <= k < scan_pos + 1 && k / 16 == g && #[trigger] nz_at(coeff@, w as int, h as int, k) {
                        let k = choose|k: int| 0 <= k < scan_pos + 1 && k / 16 == g && #[trigger] nz_at(coeff@, w as int, h as int, k);
                        assert(k != scan_pos);
                    }
                }
                if exists|k: int| 0 <= k < scan_pos + 1 && #[trigger] coeff@[cell_pos(cc.scan@[k], w as int)] != 0 {
                    let k = choose|k: int| 0 <= k < scan_pos + 1 && #[trigger] coeff@[cell_pos(cc.scan@[k], w as int)] != 0;
                    assert(k != scan_pos);
                    assert(0 <= k < scan_pos && coeff@[cell_pos(cc.scan@[k], w as int)] != 0);
                }
            }
        }
        scan_pos += 1;
    }
    if !found {
        proof {
            let k = choose|k: int| 0 <= k < coeff_scan(w as int, h as int).len() && #[trigger] coeff@[cell_pos(coeff_scan(w as int, h as int)[k], w as int)] != 0;
            assert(coeff@[cell_pos(cc.scan@[k], w as int)] != 0);
        }
        return;
    }
    proof {
        let sg = sig_groups(coeff@, w as int, h as int);
        assert(sig_scan@ =~= sg);
    }
    let ghost sigs = sig_scan@;
    let ghost r0 = last_sig_model(RState { m: enc.model(), c: *ctx }, w as int, h as int, luma, scan_pos_last as int);
    encode_last_sig(enc, ctx, &cc, scan_pos_last, luma);
    let last_cg = scan_pos_last / 16;
    let mut st = GroupState {
        reg_bin_limit: (max_coeff as i32 * CTX_BIN_RATIO) / 16,
        tmpl_diag: -1,
        tmpl_sum1: 0,
        dq_state: 0,
    };
    let mut sig_raster: Vec<bool> = vec![false; num_cg];
    let ghost o1 = enc.model().outstanding;
    let ghost g0 = GState {
        r: r0,
        rem: (max_coeff * 28) / 16,
        diag: -1,
        sum1: 0,
        dq: 0,
        raster: Seq::new(num_cg as nat, |i: int| false),
    };
    assert(sig_raster@ =~= g0.raster);
    let mut g: usize = last_cg + 1;
    while g > 0
        invariant
            enc.wf(),
            bits_prefix(old(enc).model().bits, enc.model().bits),
            old(enc).headroom() >= residual_budget(),
            o1 <= old(enc).model().outstanding + 200,
            tb_side_ok(w as int),
            tb_side_ok(h as int),
            cc.is_for(w as int, h as int, luma),
            cc.w == w,
            cc.h == h,
            max_coeff == cc.scan.len(),
            max_coeff <= 1024,
            num_cg == max_coeff / 16,
            sig_scan.len() == num_cg,
            sig_raster.len() == num_cg,
            levels_ok(coeff@, w * h),
            scan_pos_last < max_coeff,
            last_cg == scan_pos_last / 16,
            g <= last_cg + 1,
            last_cg < 64,
            st.ok(),
            enc.model().outstanding <= o1 + group_budget() * (last_cg + 1 - g),
            sigs == sig_scan@,
            (GState {
                r: RState { m: enc.model(), c: *ctx },
                rem: st.reg_bin_limit as int,
                diag: st.tmpl_diag as int,
                sum1: st.tmpl_sum1 as int,
                dq: st.dq_state,
                raster: sig_raster@,
            }) == groups_run(g0, coeff@, w as int, h as int, luma, dep_quant, sigs, scan_pos_last as int, (last_cg + 1 - g) as nat),
        decreases g,
    {
        proof {
            crate::predict::lemma_div_below(scan_pos_last as int, 16, 64);
        }
        encode_group(
            enc,
            ctx,
            &cc,
            coeff,
            luma,
            dep_quant,
            g - 1,
            last_cg,
            scan_pos_last,
            &sig_scan,
            &mut sig_raster,
            &mut st,
        );
        g -= 1;
    }
}


/// Every level of the first `n` is even.
pub open spec fn all_even(c: Seq<i32>, n: int) -> bool {
    forall|k: int| 0 <= k < n ==> #[trigger] c[k] % 2 == 0
}

/// A scan position of a `w × h` block names a cell inside it.
proof fn lemma_scan_cell(w: int, h: int, p: int)
    requires
        tb_side_ok(w),
        tb_side_ok(h),
        0 <= p < coeff_scan(w, h).len(),
    ensures
        0 <= (coeff_scan(w, h)[p].1 as int) * w + (coeff_scan(w, h)[p].0 as int) < w * h,
{
    lemma_coeff_scan(w, h);
    let (x, y) = coeff_scan(w, h)[p];
    super::ctx::lemma_cell_bound(x as int, y as int, w, h);
}

/// One first-pass step at an even level from state 0 is the same with or
/// without dependent quantization, and stays in state 0.
proof fn lemma_fp_step_even(p: FpState, coeff: Seq<i32>, w: int, h: int, luma: bool, infer: int, last: int)
    requires
        tb_side_ok(w),
        tb_side_ok(h),
        all_even(coeff, w * h),
        p.dq == 0,
        0 <= p.pos < coeff_scan(w, h).len(),
    ensures
        fp_step(p, coeff, w, h, luma, true, infer, last) == fp_step(p, coeff, w, h, luma, false, infer, last),
        fp_step(p, coeff, w, h, luma, false, infer, last).dq == 0,
{
    lemma_scan_cell(w, h, p.pos);
    let (x, y) = coeff_scan(w, h)[p.pos];
    let level = coeff[y as int * w + x as int];
    assert(level % 2 == 0);
    let a = fp_sig(p, coeff, w, h, luma, infer, last);
    assert(a.dq == p.dq);
    let b = fp_lvl(a, p.pos, level, luma, last);
    assert(b.dq == a.dq);
    assert(level_parity(level) == 0);
    assert(spec_next_state(b.dq, level_parity(level)) == b.dq);
}

proof fn lemma_fp_even(s: FpState, coeff: Seq<i32>, w: int, h: int, luma: bool, infer: int, last: int, min_sub: int, n: nat)
    requires
        tb_side_ok(w),
        tb_side_ok(h),
        all_even(coeff, w * h),
        s.dq == 0,
        0 <= min_sub,
        s.pos < coeff_scan(w, h).len(),
    ensures
        fp_run(s, coeff, w, h, luma, true, infer, last, min_sub, n) == fp_run(s, coeff, w, h, luma, false, infer, last, min_sub, n),
        fp_run(s, coeff, w, h, luma, false, infer, last, min_sub, n).dq == 0,
        fp_run(s, coeff, w, h, luma, false, infer, last, min_sub, n).pos <= s.pos,
    decreases n,
{
    if n > 0 {
        lemma_fp_even(s, coeff, w, h, luma, infer, last, min_sub, (n - 1) as nat);
        let p = fp_run(s, coeff, w, h, luma, false, infer, last, min_sub, (n - 1) as nat);
        if p.pos >= min_sub && p.rem >= 4 {
            lemma_fp_step_even(p, coeff, w, h, luma, infer, last);
        }
    }
}

proof fn lemma_bp_even(s: BpState, coeff: Seq<i32>, w: int, h: int, min_sub: int, min2: int, n: nat)
    requires
        tb_side_ok(w),
        tb_side_ok(h),
        all_even(coeff, w * h),
        s.dq == 0,
        0 <= min_sub,
        min2 < coeff_scan(w, h).len(),
    ensures
        bp_run(s, coeff, w, h, true, min_sub, min2, n) == bp_run(s, coeff, w, h, false, min_sub, min2, n),
        bp_run(s, coeff, w, h, false, min_sub, min2, n).dq == 0,
    decreases n,
{
    if n > 0 {
        lemma_bp_even(s, coeff, w, h, min_sub, min2, (n - 1) as nat);
        let sp = min2 - (n - 1);
        if sp >= min_sub {
            lemma_scan_cell(w, h, sp);
            let (x, y) = coeff_scan(w, h)[sp];
            assert(coeff[y as int * w + x as int] % 2 == 0);
        }
    }
}

proof fn lemma_scan_len16(w: int, h: int)
    requires
        tb_side_ok(w),
        tb_side_ok(h),
    ensures
        coeff_scan(w, h).len() % 16 == 0,
{
    lemma_coeff_scan(w, h);
    let a = coded_side(w);
    let b = coded_side(h);
    let i = a / 4;
    let j = b / 4;
    assert(a == 4 * i && b == 4 * j);
    assert(a * b == (i * j) * 16) by (nonlinear_arith)
        requires
            a == 4 * i,
            b == 4 * j,
    ;
    vstd::arithmetic::div_mod::lemma_mod_multiples_basic(i * j, 16);
}

/// One coefficient group of even levels from state 0 is coded the same
/// with or without dependent quantization, and stays in state 0.
proof fn lemma_group_even(s: GState, coeff: Seq<i32>, w: int, h: int, luma: bool, sigs: Seq<bool>, last: int, id: int)
    requires
        tb_side_ok(w),
        tb_side_ok(h),
        all_even(coeff, w * h),
        s.dq == 0,
        0 <= last < coeff_scan(w, h).len(),
        0 <= id <= last / 16,
    ensures
        group_model(s, coeff, w, h, luma, true, sigs, last, id) == group_model(s, coeff, w, h, luma, false, sigs, last, id),
        group_model(s, coeff, w, h, luma, false, sigs, last, id).dq == 0,
{
    lemma_scan_len16(w, h);
    let min_sub = id * 16;
    let is_last = id == last / 16;
    let first_sig = if is_last { last } else { min_sub + 15 };
    assert(first_sig < coeff_scan(w, h).len());
    let not_first = id != 0;
    let coded_flag = !is_last && not_first;
    let significant = sigs[id];
    if !(coded_flag && !significant) {
        let wig = coded_side(w) / 4;
        let hig = coded_side(h) / 4;
        let (cgx, cgy) = group_scan(w, h)[id];
        let pos = cgy as int * wig + cgx as int;
        let r1 = if coded_flag {
            let right = cgx + 1 < wig && s.raster[pos + 1];
            let lower = cgy + 1 < hig && s.raster[pos + wig];
            sgrp_bin(s.r, luma, if right || lower { 1 } else { 0 }, if significant { 1u8 } else { 0u8 })
        } else {
            s.r
        };
        let infer = if first_sig != last {
            if not_first { min_sub } else { -1 }
        } else {
            first_sig
        };
        let f0 = FpState { r: r1, rem: s.rem, diag: s.diag, sum1: s.sum1, dq: s.dq, nz: 0, signs: 0, first2: min_sub - 1, pos: first_sig };
        lemma_fp_even(f0, coeff, w, h, luma, infer, last, min_sub, 16);
        let f = fp_run(f0, coeff, w, h, luma, false, infer, last, min_sub, 16);
        let m2 = rp_run(f.r.m, coeff, w, h, f.first2, f.pos, 16);
        lemma_bp_even(BpState { m: m2, nz: f.nz, signs: f.signs, dq: f.dq }, coeff, w, h, min_sub, f.pos, 16);
    }
}

proof fn lemma_groups_even(g: GState, coeff: Seq<i32>, w: int, h: int, luma: bool, sigs: Seq<bool>, last: int, n: nat)
    requires
        tb_side_ok(w),
        tb_side_ok(h),
        all_even(coeff, w * h),
        g.dq == 0,
        0 <= last < coeff_scan(w, h).len(),
        n <= last / 16 + 1,
    ensures
        groups_run(g, coeff, w, h, luma, true, sigs, last, n) == groups_run(g, coeff, w, h, luma, false, sigs, last, n),
        groups_run(g, coeff, w, h, luma, false, sigs, last, n).dq == 0,
    decreases n,
{
    if n > 0 {
        lemma_groups_even(g, coeff, w, h, luma, sigs, last, (n - 1) as nat);
        let s = groups_run(g, coeff, w, h, luma, false, sigs, last, (n - 1) as nat);
        lemma_group_even(s, coeff, w, h, luma, sigs, last, last / 16 - (n - 1));
    }
}

/// With every level even the dependent-quantization state never leaves 0,
/// so coding with dependent quantization writes exactly what scalar coding
/// writes, and leaves the same contexts.
pub proof fn lemma_dq_even_matches_scalar(m: ArithModel, c: Contexts, coeff: Seq<i32>, w: int, h: int, luma: bool)
    requires
        tb_side_ok(w),
        tb_side_ok(h),
        coeff.len() >= w * h,
        all_even(coeff, w * h),
        has_nonzero(coeff, w, h),
    ensures
        residual_model(m, c, coeff, w, h, luma, true) == residual_model(m, c, coeff, w, h, luma, false),
{
    let n = coeff_scan(w, h).len();
    lemma_last_sig_pos(coeff, w, h, n);
    let last = last_sig_pos(coeff, w, h, n);
    let r0 = last_sig_model(RState { m, c }, w, h, luma, last);
    let g0 = GState { r: r0, rem: (n as int * 28) / 16, diag: -1, sum1: 0, dq: 0, raster: Seq::new(n / 16, |i: int| false) };
    lemma_groups_even(g0, coeff, w, h, luma, sig_groups(coeff, w, h), last, (last / 16 + 1) as nat);
}

/// The last significant position lies in the scan when some level there is
/// non-zero.
proof fn lemma_last_sig_pos(c: Seq<i32>, w: int, h: int, n: nat)
    requires
        n <= coeff_scan(w, h).len(),
        exists|k: int| 0 <= k < n && #[trigger] c[cell_pos(coeff_scan(w, h)[k], w)] != 0,
    ensures
        0 <= last_sig_pos(c, w, h, n) < n,
    decreases n,
{
    if !nz_at(c, w, h, n - 1) {
        let k = choose|k: int| 0 <= k < n && #[trigger] c[cell_pos(coeff_scan(w, h)[k], w)] != 0;
        assert(k != n - 1);
        lemma_last_sig_pos(c, w, h, (n - 1) as nat);
    }
}

} // verus!
