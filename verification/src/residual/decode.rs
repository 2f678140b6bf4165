//! The residual block decoder: it reads the syntax the coder writes, pass by
//! pass.
use vstd::prelude::*;
use crate::cabac::contexts::Contexts;
use crate::cabac::engine::{ctx_after, d_ctx_bin, CabacDecoder, DecModel};
use vstd::array::spec_array_update;
use crate::depquant::{level_parity, next_state, spec_next_state};
use super::code::{gtx_ctx, gtx_upd, last_ctx, last_upd, sgrp_ctx, sgrp_upd, sig_upd, GroupState};
use super::ctx::{
    CoeffCtx, Component, GROUP_IDX, GO_RICE_PARS, LEVEL_MAX, MIN_IN_GROUP, ctx_offset_abs, ctx_offset_spec, sig_ctx_spec, template_abs_spec, derive_rice, last_ctx_count,
    last_offset, last_shift, lemma_group_table, lemma_last_ctx_in_range, levels_ok, shr_small, sig_ctx,
};
use super::rem::{d_bypass_run, d_rem, dec_bits, decode_rem_abs_ep, lemma_run_is_bits};
use super::code::{last_bin, last_coord_model, last_ones, last_sig_model, RState};
use crate::bitstream::low_bits;
use crate::cabac::engine::m_regs_ok;
use crate::cabac::roundtrip::{
    contains, in_step, lemma_bypass_seq_nests, lemma_contains_back, lemma_ctx_nests, lemma_dec_bypass_bits,
    lemma_dec_ctx_bin, lemma_nests_compose, lemma_nests_refl, m_pre, nests,
};
use super::scan::{coded_side, coeff_scan, group_scan, lemma_coeff_scan, lemma_diag_seq, tb_side_ok};

verus! {

/// Bound on the decoder position advance over one residual block.
pub open spec fn decode_budget() -> int {
    0x4_0000
}

/// Every level outside the coded `min(w, 32) × min(h, 32)` region is zero.
pub open spec fn zero_outside_coded(c: Seq<i32>, w: int, h: int) -> bool {
    forall|x: int, y: int|
        0 <= x < w && 0 <= y < h && (x >= coded_side(w) || y >= coded_side(h)) ==> #[trigger] c[y * w + x] == 0
}

/// Decode one prefix bin of the last position with its context.
/// Decoder state and contexts while a residual block is read.
pub struct DState {
    pub m: DecModel,
    pub c: Contexts,
}

/// Read a bin with the last-position prefix context `i`.
pub open spec fn d_last_bin(data: Seq<u8>, s: DState, luma: bool, is_x: bool, i: int) -> (DState, u8) {
    let (m1, b) = d_ctx_bin(data, s.m, last_ctx(s.c, luma, is_x, i));
    (DState { m: m1, c: last_upd(s.c, luma, is_x, i, b) }, b)
}

/// Read a bin with the gt1 / parity / gt2 context at `off`.
pub open spec fn d_gtx_bin(data: Seq<u8>, s: DState, luma: bool, kind: u8, off: int) -> (DState, u8) {
    let (m1, b) = d_ctx_bin(data, s.m, gtx_ctx(s.c, luma, kind, off));
    (DState { m: m1, c: gtx_upd(s.c, luma, kind, off, b) }, b)
}

/// Read a significance flag with context `i` of the set selected by the
/// component and the dependent-quantization state.
pub open spec fn d_sig_bin(data: Seq<u8>, s: DState, luma: bool, state: u8, i: int) -> (DState, u8) {
    let (m1, b) = d_ctx_bin(data, s.m, s.c.sig_set(luma, state)[i]);
    (DState { m: m1, c: sig_upd(s.c, luma, state, i, b) }, b)
}

/// Read a coefficient-group flag with context `i`.
pub open spec fn d_sgrp_bin(data: Seq<u8>, s: DState, luma: bool, i: int) -> (DState, u8) {
    let (m1, b) = d_ctx_bin(data, s.m, sgrp_ctx(s.c, luma, i));
    (DState { m: m1, c: sgrp_upd(s.c, luma, i, b) }, b)
}

/// The group prefix of a last-position coordinate from group `g` on: ones
/// (context `offset + (g >> shift)`) until a zero or the largest group.
pub open spec fn d_last_prefix(
    data: Seq<u8>,
    s: DState,
    luma: bool,
    is_x: bool,
    offset: int,
    shift: int,
    max_last: int,
    g: int,
) -> (DState, int)
    decreases max_last - g,
{
    if g >= max_last || g < 0 {
        (s, g)
    } else {
        let (s1, b) = d_last_bin(data, s, luma, is_x, offset + g / (vstd::arithmetic::power2::pow2(shift as nat) as int));
        if b == 1 {
            d_last_prefix(data, s1, luma, is_x, offset, shift, max_last, g + 1)
        } else {
            (s1, g)
        }
    }
}

/// One last-position coordinate: the group prefix, then for groups above 3
/// the `(g − 2)/2`-bit offset inside the group.
pub open spec fn d_last_coord(data: Seq<u8>, s: DState, luma: bool, is_x: bool, offset: int, shift: int, max_last: int) -> (DState, int) {
    let (s1, g) = d_last_prefix(data, s, luma, is_x, offset, shift, max_last, 0);
    if g > 3 {
        let (m2, v) = d_bypass_run(data, s1.m, ((g - 2) / 2) as nat);
        (DState { m: m2, ..s1 }, MIN_IN_GROUP[g] + v)
    } else {
        (s1, g)
    }
}

/// The first index at or after `k` whose scan cell is `(px, py)`, or 0.
pub open spec fn scan_find(sq: Seq<(usize, usize)>, px: int, py: int, k: int) -> int
    decreases sq.len() - k,
{
    if k >= sq.len() || k < 0 {
        0
    } else if sq[k].0 == px && sq[k].1 == py {
        k
    } else {
        scan_find(sq, px, py, k + 1)
    }
}

/// The last-significant position: x then y coordinate, as a scan index (0
/// when the cell is outside the scan).
pub open spec fn d_last_sig(data: Seq<u8>, s: DState, w: int, h: int, luma: bool) -> (DState, int) {
    let (s1, px) = d_last_coord(data, s, luma, true, last_offset(w, luma), last_shift(w, luma), GROUP_IDX[coded_side(w) - 1] as int);
    let (s2, py) = d_last_coord(data, s1, luma, false, last_offset(h, luma), last_shift(h, luma), GROUP_IDX[coded_side(h) - 1] as int);
    (s2, scan_find(coeff_scan(w, h), px, py, 0))
}

fn decode_last_bin(dec: &mut CabacDecoder, ctx: &mut Contexts, luma: bool, is_x: bool, i: usize) -> (r: u8)
    requires
        old(dec).wf(),
        old(dec).headroom() >= 8,
        i < last_ctx_count(luma),
    ensures
        final(dec).wf(),
        final(dec).data() == old(dec).data(),
        old(dec).model().pos <= final(dec).model().pos <= old(dec).model().pos + 8,
        r <= 1,
        (DState { m: final(dec).model(), c: *final(ctx) }, r) == d_last_bin(
            old(dec).data(),
            DState { m: old(dec).model(), c: *old(ctx) },
            luma,
            is_x,
            i as int,
        ),
{
    let ghost c0 = *ctx;
    if luma {
        if is_x {
            {
            let b = dec.decode_bin(&mut ctx.last_x[i]);
            assert(ctx.last_x =~= spec_array_update(c0.last_x, i as int, ctx_after(c0.last_x[i as int], b)));
            b
        }
        } else {
            {
            let b = dec.decode_bin(&mut ctx.last_y[i]);
            assert(ctx.last_y =~= spec_array_update(c0.last_y, i as int, ctx_after(c0.last_y[i as int], b)));
            b
        }
        }
    } else {
        if is_x {
            {
            let b = dec.decode_bin(&mut ctx.last_x_c[i]);
            assert(ctx.last_x_c =~= spec_array_update(c0.last_x_c, i as int, ctx_after(c0.last_x_c[i as int], b)));
            b
        }
        } else {
            {
            let b = dec.decode_bin(&mut ctx.last_y_c[i]);
            assert(ctx.last_y_c =~= spec_array_update(c0.last_y_c, i as int, ctx_after(c0.last_y_c[i as int], b)));
            b
        }
        }
    }
}

/// Decode one coordinate of the last position: the group prefix and the
/// in-group offset.
fn decode_last_coord(
    dec: &mut CabacDecoder,
    ctx: &mut Contexts,
    luma: bool,
    is_x: bool,
    n: usize,
    offset: u32,
    shift: u32,
    max_last: u32,
) -> (r: u32)
    requires
        old(dec).wf(),
        old(dec).headroom() >= 100,
        tb_side_ok(n as int),
        offset == last_offset(n as int, luma),
        shift == last_shift(n as int, luma),
        max_last == GROUP_IDX[coded_side(n as int) - 1],
    ensures
        final(dec).wf(),
        final(dec).data() == old(dec).data(),
        old(dec).model().pos <= final(dec).model().pos <= old(dec).model().pos + 100,
        r < 128,
        (DState { m: final(dec).model(), c: *final(ctx) }, r as int) == d_last_coord(
            old(dec).data(),
            DState { m: old(dec).model(), c: *old(ctx) },
            luma,
            is_x,
            offset as int,
            shift as int,
            max_last as int,
        ),
{
    let ghost s0 = DState { m: dec.model(), c: *ctx };
    proof {
        lemma_group_table(coded_side(n as int) - 1);
    }
    let mut g: u32 = 0;
    let mut stop = false;
    while !stop && g < max_last
        invariant
            dec.wf(),
            dec.data() == old(dec).data(),
            g <= max_last <= 9,
            tb_side_ok(n as int),
            offset == last_offset(n as int, luma),
            shift == last_shift(n as int, luma),
            max_last == GROUP_IDX[coded_side(n as int) - 1],
            old(dec).headroom() >= 100,
            s0 == (DState { m: old(dec).model(), c: *old(ctx) }),
            dec.data() == old(dec).data(),
            (if stop {
                (DState { m: dec.model(), c: *ctx }, g as int)
            } else {
                d_last_prefix(dec.data(), DState { m: dec.model(), c: *ctx }, luma, is_x, offset as int, shift as int, max_last as int, g as int)
            }) == d_last_prefix(dec.data(), s0, luma, is_x, offset as int, shift as int, max_last as int, 0),
            old(dec).model().pos <= dec.model().pos <= old(dec).model().pos + 8 * (g + if stop {
                1int
            } else {
                0
            }),
        decreases max_last - g + if stop {
            0int
        } else {
            1
        },
    {
        proof {
            lemma_last_ctx_in_range(n as int, luma, g as int);
        }
        let i = offset + shr_small(g, shift);
        let b = decode_last_bin(dec, ctx, luma, is_x, i as usize);
        if b == 1 {
            g += 1;
        } else {
            stop = true;
        }
    }
    if g > 3 {
        let nbits = (g - 2) / 2;
        let v = dec_bits(dec, nbits);
        proof {
            vstd::arithmetic::power2::lemma2_to64();
            vstd::arithmetic::power2::lemma_pow2_strictly_increases(nbits as nat, 4);
        }
        MIN_IN_GROUP[g as usize] + v
    } else {
        g
    }
}

/// Decode the last-significant position into a scan index (0 when the
/// decoded cell lies outside the scan).
fn decode_last_sig(dec: &mut CabacDecoder, ctx: &mut Contexts, cc: &CoeffCtx, luma: bool) -> (r: usize)
    requires
        old(dec).wf(),
        old(dec).headroom() >= 200,
        tb_side_ok(cc.w as int),
        tb_side_ok(cc.h as int),
        cc.is_for(cc.w as int, cc.h as int, luma),
    ensures
        final(dec).wf(),
        final(dec).data() == old(dec).data(),
        old(dec).model().pos <= final(dec).model().pos <= old(dec).model().pos + 200,
        r < cc.scan.len(),
        (DState { m: final(dec).model(), c: *final(ctx) }, r as int) == d_last_sig(
            old(dec).data(),
            DState { m: old(dec).model(), c: *old(ctx) },
            cc.w as int,
            cc.h as int,
            luma,
        ),
{
    proof {
        lemma_coeff_scan(cc.w as int, cc.h as int);
    }
    let pos_x = decode_last_coord(dec, ctx, luma, true, cc.w, cc.last_offset_x, cc.last_shift_x, cc.max_last_x);
    let pos_y = decode_last_coord(dec, ctx, luma, false, cc.h, cc.last_offset_y, cc.last_shift_y, cc.max_last_y);
    let mut k: usize = 0;
    while k < cc.scan.len()
        invariant
            k <= cc.scan.len(),
            cc.scan.len() >= 16,
            dec.wf(),
            dec.data() == old(dec).data(),
            old(dec).model().pos <= dec.model().pos <= old(dec).model().pos + 200,
            cc.scan@ == coeff_scan(cc.w as int, cc.h as int),
            scan_find(cc.scan@, pos_x as int, pos_y as int, k as int) == scan_find(cc.scan@, pos_x as int, pos_y as int, 0),
            (DState { m: dec.model(), c: *ctx }, scan_find(cc.scan@, pos_x as int, pos_y as int, 0)) == d_last_sig(
                old(dec).data(),
                DState { m: old(dec).model(), c: *old(ctx) },
                cc.w as int,
                cc.h as int,
                luma,
            ),
        decreases cc.scan.len() - k,
    {
        if cc.scan[k].0 == pos_x as usize && cc.scan[k].1 == pos_y as usize {
            return k;
        }
        k += 1;
    }
    0
}

/// Decode a context-coded flag from the gt1 / parity / gt2 sets.
fn decode_gtx_bin(dec: &mut CabacDecoder, ctx: &mut Contexts, luma: bool, kind: u8, off: usize) -> (r: u8)
    requires
        old(dec).wf(),
        old(dec).headroom() >= 8,
        off < (if luma {
            21int
        } else {
            11int
        }),
    ensures
        final(dec).wf(),
        final(dec).data() == old(dec).data(),
        old(dec).model().pos <= final(dec).model().pos <= old(dec).model().pos + 8,
        r <= 1,
        (DState { m: final(dec).model(), c: *final(ctx) }, r) == d_gtx_bin(
            old(dec).data(),
            DState { m: old(dec).model(), c: *old(ctx) },
            luma,
            kind,
            off as int,
        ),
{
    let ghost c0 = *ctx;
    if luma {
        if kind == 0 {
            {
            let b = dec.decode_bin(&mut ctx.gt1_flag[off]);
            assert(ctx.gt1_flag =~= spec_array_update(c0.gt1_flag, off as int, ctx_after(c0.gt1_flag[off as int], b)));
            b
        }
        } else if kind == 1 {
            {
            let b = dec.decode_bin(&mut ctx.par_flag[off]);
            assert(ctx.par_flag =~= spec_array_update(c0.par_flag, off as int, ctx_after(c0.par_flag[off as int], b)));
            b
        }
        } else {
            {
            let b = dec.decode_bin(&mut ctx.gt2_flag[off]);
            assert(ctx.gt2_flag =~= spec_array_update(c0.gt2_flag, off as int, ctx_after(c0.gt2_flag[off as int], b)));
            b
        }
        }
    } else {
        if kind == 0 {
            {
            let b = dec.decode_bin(&mut ctx.gt1_flag_c[off]);
            assert(ctx.gt1_flag_c =~= spec_array_update(c0.gt1_flag_c, off as int, ctx_after(c0.gt1_flag_c[off as int], b)));
            b
        }
        } else if kind == 1 {
            {
            let b = dec.decode_bin(&mut ctx.par_flag_c[off]);
            assert(ctx.par_flag_c =~= spec_array_update(c0.par_flag_c, off as int, ctx_after(c0.par_flag_c[off as int], b)));
            b
        }
        } else {
            {
            let b = dec.decode_bin(&mut ctx.gt2_flag_c[off]);
            assert(ctx.gt2_flag_c =~= spec_array_update(c0.gt2_flag_c, off as int, ctx_after(c0.gt2_flag_c[off as int], b)));
            b
        }
        }
    }
}

/// The block being rebuilt: raster levels of a `w × h` block, bounded, zero
/// outside the coded region.
pub open spec fn rebuild_ok(c: Seq<i32>, w: int, h: int) -> bool {
    &&& c.len() == w * h
    &&& levels_ok(c, w * h)
    &&& zero_outside_coded(c, w, h)
}

/// Writing a bounded level at a coded cell keeps a block well-formed.
proof fn lemma_rebuild_set(c: Seq<i32>, w: int, h: int, x: int, y: int, v: i32)
    requires
        rebuild_ok(c, w, h),
        0 <= x < coded_side(w),
        0 <= y < coded_side(h),
        coded_side(w) <= w,
        coded_side(h) <= h,
        -LEVEL_MAX <= v <= LEVEL_MAX,
    ensures
        rebuild_ok(c.update(y * w + x, v), w, h),
{
    super::ctx::lemma_cell_bound(x, y, w, h);
    let c2 = c.update(y * w + x, v);
    assert forall|xx: int, yy: int|
        0 <= xx < w && 0 <= yy < h && (xx >= coded_side(w) || yy >= coded_side(h)) implies #[trigger] c2[yy * w + xx] == 0 by {
        super::ctx::lemma_cell_bound(xx, yy, w, h);
        if yy * w + xx == y * w + x {
            lemma_raster_inj(xx, yy, x, y, w);
        }
    }
}

/// Raster positions of cells of a width-`w` block determine the cells.
pub proof fn lemma_raster_inj(x1: int, y1: int, x2: int, y2: int, w: int)
    requires
        0 <= x1 < w,
        0 <= x2 < w,
        0 <= y1,
        0 <= y2,
        y1 * w + x1 == y2 * w + x2,
    ensures
        x1 == x2,
        y1 == y2,
{
    vstd::arithmetic::div_mod::lemma_fundamental_div_mod_converse(y1 * w + x1, w, y1, x1);
    vstd::arithmetic::div_mod::lemma_fundamental_div_mod_converse(y2 * w + x2, w, y2, x2);
}

/// Per-group decoding scratch: provisional parity / gt2 flags and the
/// non-zero positions in processing order.
pub struct GroupScratch {
    pub par: Vec<i32>,
    pub gt2: Vec<bool>,
    pub order: Vec<usize>,
}

/// Where a group's passes split, and its non-zero count so far.
pub struct DecPass {
    pub min_pos_2nd: i32,
    pub first_pos_2nd: i32,
    pub num_nonzero: u32,
}

/// Shared preconditions of the group passes over a block being rebuilt.
pub open spec fn pass_ctx_ok(cc: &CoeffCtx, luma: bool) -> bool {
    &&& tb_side_ok(cc.w as int)
    &&& tb_side_ok(cc.h as int)
    &&& cc.is_for(cc.w as int, cc.h as int, luma)
    &&& cc.scan.len() <= 1024
}

/// The scratch of a group starting at scan index `min_sub`.
pub open spec fn scratch_ok(scr: &GroupScratch, min_sub: int, len: int) -> bool {
    &&& scr.par.len() == 16
    &&& scr.gt2.len() == 16
    &&& scr.order.len() <= 16
    &&& forall|i: int| 0 <= i < scr.order.len() ==> min_sub <= #[trigger] scr.order[i] < min_sub + 16
    &&& forall|i: int| 0 <= i < scr.order.len() ==> #[trigger] scr.order[i] < len
    &&& forall|i: int| 0 <= i < 16 ==> 0 <= #[trigger] scr.par[i] <= 1
}

/// State of the decoder's first pass over a group: decoder and contexts,
/// the block being rebuilt, remaining regular bins, significance template,
/// dependent-quantization state, non-zero count, the provisional parity and
/// gt2 flags of the group's cells, the non-zero positions in order, the
/// highest position left for the remainder pass, and the next position.
pub struct DFp {
    pub s: DState,
    pub coeff: Seq<i32>,
    pub rem: int,
    pub diag: int,
    pub sum1: int,
    pub dq: u8,
    pub nz: int,
    pub par: Seq<i32>,
    pub gt2: Seq<bool>,
    pub order: Seq<usize>,
    pub first2: int,
    pub pos: int,
}

/// The significance part of a decoder first-pass step: the flag read with
/// its template context unless inferred (then 1).
pub open spec fn dfp_sig(data: Seq<u8>, f: DFp, w: int, h: int, luma: bool, infer: int, last: int) -> (DFp, u8) {
    let (x, y) = coeff_scan(w, h)[f.pos];
    let (sctx, d, s1) = sig_ctx_spec(f.coeff, x as int, y as int, w, h, luma);
    if f.nz > 0 || f.pos != infer {
        let (s2, b) = d_sig_bin(data, f.s, luma, f.dq, sctx);
        (DFp { s: s2, rem: f.rem - 1, diag: d, sum1: s1, ..f }, b)
    } else if f.pos != last {
        (DFp { diag: d, sum1: s1, ..f }, 1u8)
    } else {
        (f, 1u8)
    }
}

/// The level part of a decoder first-pass step at a significant position:
/// gt1, then parity and gt2; the provisional magnitude is `1`, `2 + par` or
/// `4 + par`.
pub open spec fn dfp_lvl(data: Seq<u8>, a: DFp, sig: u8, w: int, h: int, luma: bool, min_sub: int) -> DFp {
    if sig != 0 {
        let pos = a.pos;
        let (x, y) = coeff_scan(w, h)[pos];
        let blk = y as int * w + x as int;
        let off = ctx_offset_spec(a.diag, a.sum1, luma);
        let (s2, g1) = d_gtx_bin(data, a.s, luma, 0, off);
        let a1 = DFp { s: s2, nz: a.nz + 1, order: a.order.push(pos as usize), rem: a.rem - 1, ..a };
        if g1 == 1 {
            let (s3, p) = d_gtx_bin(data, a1.s, luma, 1, off);
            let (s4, g2) = d_gtx_bin(data, s3, luma, 2, off);
            DFp {
                s: s4,
                rem: a1.rem - 2,
                par: a1.par.update(pos - min_sub, p as i32),
                gt2: a1.gt2.update(pos - min_sub, g2 == 1),
                coeff: a1.coeff.update(blk, (if g2 == 1 { 4 + p } else { 2 + p }) as i32),
                first2: if g2 == 1 && pos > a1.first2 { pos } else { a1.first2 },
                ..a1
            }
        } else {
            DFp { coeff: a1.coeff.update(blk, 1), ..a1 }
        }
    } else {
        a
    }
}

/// One step of the decoder's first pass at `f.pos`.
pub open spec fn dfp_step(data: Seq<u8>, f: DFp, w: int, h: int, luma: bool, dep_quant: bool, infer: int, last: int, min_sub: int) -> DFp {
    let (a, sig) = dfp_sig(data, f, w, h, luma, infer, last);
    let b = dfp_lvl(data, a, sig, w, h, luma, min_sub);
    let (x, y) = coeff_scan(w, h)[f.pos];
    let blk = y as int * w + x as int;
    DFp {
        dq: if dep_quant { spec_next_state(b.dq, level_parity(b.coeff[blk])) } else { b.dq },
        pos: f.pos - 1,
        ..b
    }
}

/// The decoder's first pass after `n` steps, stopping below `min_sub` or
/// once fewer than four regular bins remain.
pub open spec fn dfp_run(
    data: Seq<u8>,
    f: DFp,
    w: int,
    h: int,
    luma: bool,
    dep_quant: bool,
    infer: int,
    last: int,
    min_sub: int,
    n: nat,
) -> DFp
    decreases n,
{
    if n == 0 {
        f
    } else {
        let p = dfp_run(data, f, w, h, luma, dep_quant, infer, last, min_sub, (n - 1) as nat);
        if p.pos >= min_sub && p.rem >= 4 {
            dfp_step(data, p, w, h, luma, dep_quant, infer, last, min_sub)
        } else {
            p
        }
    }
}

proof fn lemma_dfp_stop(
    data: Seq<u8>,
    f: DFp,
    w: int,
    h: int,
    luma: bool,
    dep_quant: bool,
    infer: int,
    last: int,
    min_sub: int,
    k: nat,
    n: nat,
)
    requires
        k <= n,
        !({
            let p = dfp_run(data, f, w, h, luma, dep_quant, infer, last, min_sub, k);
            p.pos >= min_sub && p.rem >= 4
        }),
    ensures
        dfp_run(data, f, w, h, luma, dep_quant, infer, last, min_sub, n) == dfp_run(data, f, w, h, luma, dep_quant, infer, last, min_sub, k),
    decreases n,
{
    if n > k {
        lemma_dfp_stop(data, f, w, h, luma, dep_quant, infer, last, min_sub, k, (n - 1) as nat);
    }
}

/// Read a significance flag with context `idx` of the set selected by the
/// component and the dependent-quantization state.
fn decode_sig_bin(dec: &mut CabacDecoder, ctx: &mut Contexts, luma: bool, state: u8, idx: usize) -> (r: u8)
    requires
        old(dec).wf(),
        old(dec).headroom() >= 8,
        idx < (if luma { 12int } else { 8int }),
    ensures
        final(dec).wf(),
        final(dec).data() == old(dec).data(),
        old(dec).model().pos <= final(dec).model().pos <= old(dec).model().pos + 8,
        r <= 1,
        (DState { m: final(dec).model(), c: *final(ctx) }, r) == d_sig_bin(
            old(dec).data(),
            DState { m: old(dec).model(), c: *old(ctx) },
            luma,
            state,
            idx as int,
        ),
{
    let ghost c0 = *ctx;
    let group = if state == 0 { 0 } else { state - 1 };
    if luma {
        if group == 0 {
            let b = dec.decode_bin(&mut ctx.sig_flag[idx]);
            assert(ctx.sig_flag =~= spec_array_update(c0.sig_flag, idx as int, ctx_after(c0.sig_flag[idx as int], b)));
            b
        } else if group == 1 {
            let b = dec.decode_bin(&mut ctx.sig_flag_st1[idx]);
            assert(ctx.sig_flag_st1 =~= spec_array_update(c0.sig_flag_st1, idx as int, ctx_after(c0.sig_flag_st1[idx as int], b)));
            b
        } else {
            let b = dec.decode_bin(&mut ctx.sig_flag_st2[idx]);
            assert(ctx.sig_flag_st2 =~= spec_array_update(c0.sig_flag_st2, idx as int, ctx_after(c0.sig_flag_st2[idx as int], b)));
            b
        }
    } else {
        if group == 0 {
            let b = dec.decode_bin(&mut ctx.sig_flag_c[idx]);
            assert(ctx.sig_flag_c =~= spec_array_update(c0.sig_flag_c, idx as int, ctx_after(c0.sig_flag_c[idx as int], b)));
            b
        } else if group == 1 {
            let b = dec.decode_bin(&mut ctx.sig_flag_c_st1[idx]);
            assert(ctx.sig_flag_c_st1 =~= spec_array_update(c0.sig_flag_c_st1, idx as int, ctx_after(c0.sig_flag_c_st1[idx as int], b)));
            b
        } else {
            let b = dec.decode_bin(&mut ctx.sig_flag_c_st2[idx]);
            assert(ctx.sig_flag_c_st2 =~= spec_array_update(c0.sig_flag_c_st2, idx as int, ctx_after(c0.sig_flag_c_st2[idx as int], b)));
            b
        }
    }
}

/// First pass of a group: significance, gt1, parity and gt2 flags while at
/// least 4 regular bins remain; writes the provisional magnitudes.
/// One step of the decoder's first pass at `next_sig_pos` (see
/// [`dfp_step`]).
#[verifier::rlimit(100)]
fn decode_fp_step(
    dec: &mut CabacDecoder,
    ctx: &mut Contexts,
    cc: &CoeffCtx,
    coeff: &mut Vec<i32>,
    luma: bool,
    dep_quant: bool,
    min_sub: usize,
    infer_sig_pos: i32,
    scan_pos_last: usize,
    st: &mut GroupState,
    scr: &mut GroupScratch,
    rem_reg_bins: &mut i32,
    num_nonzero: &mut u32,
    first_pos_2nd: &mut i32,
    next_sig_pos: i32,
)
    requires
        old(dec).wf(),
        old(dec).headroom() >= 32,
        pass_ctx_ok(cc, luma),
        rebuild_ok(old(coeff)@, cc.w as int, cc.h as int),
        min_sub <= next_sig_pos < min_sub + 16,
        next_sig_pos < cc.scan.len(),
        scan_pos_last < cc.scan.len(),
        old(st).tmpl_diag == -1 || (0 <= old(st).tmpl_diag <= 126 && 0 <= old(st).tmpl_sum1 <= 25),
        old(st).dq_state < 4,
        scratch_ok(old(scr), min_sub as int, cc.scan.len() as int),
        *old(num_nonzero) == old(scr).order.len(),
        *old(num_nonzero) < 16,
        forall|i: int| 0 <= i < old(scr).order.len() ==> next_sig_pos < #[trigger] old(scr).order[i],
        4 <= *old(rem_reg_bins) <= 1792,
    ensures
        final(dec).wf(),
        final(dec).data() == old(dec).data(),
        old(dec).model().pos <= final(dec).model().pos <= old(dec).model().pos + 32,
        rebuild_ok(final(coeff)@, cc.w as int, cc.h as int),
        final(st).tmpl_diag == -1 || (0 <= final(st).tmpl_diag <= 126 && 0 <= final(st).tmpl_sum1 <= 25),
        final(st).dq_state < 4,
        final(st).reg_bin_limit == old(st).reg_bin_limit,
        scratch_ok(final(scr), min_sub as int, cc.scan.len() as int),
        *final(num_nonzero) == final(scr).order.len(),
        *final(num_nonzero) <= *old(num_nonzero) + 1,
        forall|i: int| 0 <= i < final(scr).order.len() ==> next_sig_pos - 1 < #[trigger] final(scr).order[i],
        *old(rem_reg_bins) - 4 <= *final(rem_reg_bins) <= *old(rem_reg_bins),
        *final(first_pos_2nd) == *old(first_pos_2nd) || *final(first_pos_2nd) == next_sig_pos,
        (DFp {
            s: DState { m: final(dec).model(), c: *final(ctx) },
            coeff: final(coeff)@,
            rem: *final(rem_reg_bins) as int,
            diag: final(st).tmpl_diag as int,
            sum1: final(st).tmpl_sum1 as int,
            dq: final(st).dq_state,
            nz: *final(num_nonzero) as int,
            par: final(scr).par@,
            gt2: final(scr).gt2@,
            order: final(scr).order@,
            first2: *final(first_pos_2nd) as int,
            pos: next_sig_pos - 1,
        }) == dfp_step(
            old(dec).data(),
            DFp {
                s: DState { m: old(dec).model(), c: *old(ctx) },
                coeff: old(coeff)@,
                rem: *old(rem_reg_bins) as int,
                diag: old(st).tmpl_diag as int,
                sum1: old(st).tmpl_sum1 as int,
                dq: old(st).dq_state,
                nz: *old(num_nonzero) as int,
                par: old(scr).par@,
                gt2: old(scr).gt2@,
                order: old(scr).order@,
                first2: *old(first_pos_2nd) as int,
                pos: next_sig_pos as int,
            },
            cc.w as int,
            cc.h as int,
            luma,
            dep_quant,
            infer_sig_pos as int,
            scan_pos_last as int,
            min_sub as int,
        ),
{
    proof {
        lemma_coeff_scan(cc.w as int, cc.h as int);
    }
    let w = cc.w;
    let h = cc.h;
    let ghost data = dec.data();
    let ghost f0 = DFp {
        s: DState { m: dec.model(), c: *ctx },
        coeff: coeff@,
        rem: *rem_reg_bins as int,
        diag: st.tmpl_diag as int,
        sum1: st.tmpl_sum1 as int,
        dq: st.dq_state,
        nz: *num_nonzero as int,
        par: scr.par@,
        gt2: scr.gt2@,
        order: scr.order@,
        first2: *first_pos_2nd as int,
        pos: next_sig_pos as int,
    };
    let sp = next_sig_pos as usize;
    let blk = cc.block_pos(sp);
    let x = cc.scan[sp].0;
    let y = cc.scan[sp].1;
    let sig: u8 = if *num_nonzero > 0 || next_sig_pos != infer_sig_pos {
        let (sctx, diag, sum1) = sig_ctx(coeff.as_slice(), x, y, w, h, luma);
        st.tmpl_diag = diag;
        st.tmpl_sum1 = sum1;
        let b = decode_sig_bin(dec, ctx, luma, st.dq_state, sctx);
        *rem_reg_bins = *rem_reg_bins - 1;
        b
    } else if next_sig_pos != scan_pos_last as i32 {
        let (_sctx, diag, sum1) = sig_ctx(coeff.as_slice(), x, y, w, h, luma);
        st.tmpl_diag = diag;
        st.tmpl_sum1 = sum1;
        1
    } else {
        1
    };
    let ghost ga = DFp {
        s: DState { m: dec.model(), c: *ctx },
        coeff: coeff@,
        rem: *rem_reg_bins as int,
        diag: st.tmpl_diag as int,
        sum1: st.tmpl_sum1 as int,
        dq: st.dq_state,
        nz: *num_nonzero as int,
        par: scr.par@,
        gt2: scr.gt2@,
        order: scr.order@,
        first2: *first_pos_2nd as int,
        pos: next_sig_pos as int,
    };
    assert((ga, sig) == dfp_sig(data, f0, w as int, h as int, luma, infer_sig_pos as int, scan_pos_last as int));
    if sig != 0 {
        let off = ctx_offset_abs(st.tmpl_diag, st.tmpl_sum1, luma);
        *num_nonzero = *num_nonzero + 1;
        scr.order.push(sp);
        let gt1 = decode_gtx_bin(dec, ctx, luma, 0, off) == 1;
        *rem_reg_bins = *rem_reg_bins - 1;
        let mut abs_level: i32 = 1;
        if gt1 {
            let p = decode_gtx_bin(dec, ctx, luma, 1, off) as i32;
            *rem_reg_bins = *rem_reg_bins - 1;
            let g2 = decode_gtx_bin(dec, ctx, luma, 2, off) == 1;
            *rem_reg_bins = *rem_reg_bins - 1;
            scr.par.set(sp - min_sub, p);
            scr.gt2.set(sp - min_sub, g2);
            abs_level = if g2 { 4 + p } else { 2 + p };
            if g2 && next_sig_pos > *first_pos_2nd {
                *first_pos_2nd = next_sig_pos;
            }
        }
        proof {
            lemma_rebuild_set(coeff@, w as int, h as int, x as int, y as int, abs_level);
        }
        coeff.set(blk, abs_level);
    }
    let ghost gb = DFp {
        s: DState { m: dec.model(), c: *ctx },
        coeff: coeff@,
        rem: *rem_reg_bins as int,
        diag: st.tmpl_diag as int,
        sum1: st.tmpl_sum1 as int,
        dq: st.dq_state,
        nz: *num_nonzero as int,
        par: scr.par@,
        gt2: scr.gt2@,
        order: scr.order@,
        first2: *first_pos_2nd as int,
        pos: next_sig_pos as int,
    };
    assert(gb =~= dfp_lvl(data, ga, sig, w as int, h as int, luma, min_sub as int));
    if dep_quant {
        st.dq_state = next_state(st.dq_state, coeff[blk]);
    }
}

#[verifier::rlimit(100)]
fn decode_first_pass(
    dec: &mut CabacDecoder,
    ctx: &mut Contexts,
    cc: &CoeffCtx,
    coeff: &mut Vec<i32>,
    luma: bool,
    dep_quant: bool,
    min_sub: usize,
    first_sig_pos: usize,
    infer_sig_pos: i32,
    scan_pos_last: usize,
    st: &mut GroupState,
    scr: &mut GroupScratch,
) -> (r: DecPass)
    requires
        old(dec).wf(),
        old(dec).headroom() >= 16 * 32,
        pass_ctx_ok(cc, luma),
        rebuild_ok(old(coeff)@, cc.w as int, cc.h as int),
        min_sub <= first_sig_pos < min_sub + 16,
        first_sig_pos < cc.scan.len(),
        scan_pos_last < cc.scan.len(),
        old(st).ok(),
        scratch_ok(old(scr), min_sub as int, cc.scan.len() as int),
        old(scr).order.len() == 0,
    ensures
        final(dec).wf(),
        final(dec).data() == old(dec).data(),
        old(dec).model().pos <= final(dec).model().pos <= old(dec).model().pos + 16 * 32,
        rebuild_ok(final(coeff)@, cc.w as int, cc.h as int),
        final(st).ok(),
        scratch_ok(final(scr), min_sub as int, cc.scan.len() as int),
        min_sub as int - 1 <= r.min_pos_2nd <= first_sig_pos,
        min_sub as int - 1 <= r.first_pos_2nd <= first_sig_pos,
        r.num_nonzero == final(scr).order.len(),
        r.num_nonzero <= first_sig_pos - r.min_pos_2nd,
        ({
            let f = dfp_run(
                old(dec).data(),
                DFp {
                s: DState { m: old(dec).model(), c: *old(ctx) },
                coeff: old(coeff)@,
                rem: old(st).reg_bin_limit as int,
                diag: old(st).tmpl_diag as int,
                sum1: old(st).tmpl_sum1 as int,
                dq: old(st).dq_state,
                nz: 0,
                par: old(scr).par@,
                gt2: old(scr).gt2@,
                order: old(scr).order@,
                first2: min_sub - 1,
                pos: first_sig_pos as int,
            },
                cc.w as int,
                cc.h as int,
                luma,
                dep_quant,
                infer_sig_pos as int,
                scan_pos_last as int,
                min_sub as int,
                16,
            );
            &&& (DState { m: final(dec).model(), c: *final(ctx) }) == f.s
            &&& final(coeff)@ == f.coeff
            &&& final(st).reg_bin_limit == f.rem
            &&& final(st).tmpl_diag == f.diag
            &&& final(st).tmpl_sum1 == f.sum1
            &&& final(st).dq_state == f.dq
            &&& r.num_nonzero == f.nz
            &&& final(scr).par@ == f.par
            &&& final(scr).gt2@ == f.gt2
            &&& final(scr).order@ == f.order
            &&& r.first_pos_2nd == f.first2
            &&& r.min_pos_2nd == f.pos
        }),
{
    proof {
        lemma_coeff_scan(cc.w as int, cc.h as int);
    }
    let w = cc.w;
    let h = cc.h;
    let mut num_nonzero: u32 = 0;
    let mut rem_reg_bins = st.reg_bin_limit;
    let mut first_pos_2nd: i32 = min_sub as i32 - 1;
    let mut next_sig_pos: i32 = first_sig_pos as i32;
    let ghost p0 = dec.model().pos;
    while next_sig_pos >= min_sub as i32 && rem_reg_bins >= 4
        invariant
            dec.wf(),
            dec.data() == old(dec).data(),
            old(dec).headroom() >= 16 * 32,
            p0 == old(dec).model().pos,
            pass_ctx_ok(cc, luma),
            w == cc.w,
            h == cc.h,
            rebuild_ok(coeff@, w as int, h as int),
            min_sub <= first_sig_pos < min_sub + 16,
            first_sig_pos < cc.scan.len(),
            scan_pos_last < cc.scan.len(),
            min_sub as int - 1 <= next_sig_pos <= first_sig_pos,
            min_sub as int - 1 <= first_pos_2nd <= first_sig_pos,
            0 <= rem_reg_bins <= 1792,
            st.tmpl_diag == -1 || (0 <= st.tmpl_diag <= 126 && 0 <= st.tmpl_sum1 <= 25),
            st.dq_state < 4,
            0 <= st.reg_bin_limit <= 1792,
            scratch_ok(scr, min_sub as int, cc.scan.len() as int),
            num_nonzero == scr.order.len(),
            num_nonzero <= first_sig_pos - next_sig_pos,
            forall|i: int| 0 <= i < scr.order.len() ==> next_sig_pos < #[trigger] scr.order[i],
            p0 <= dec.model().pos <= p0 + 32 * (first_sig_pos - next_sig_pos),
            dec.data() == old(dec).data(),
            (DFp {
                s: DState { m: dec.model(), c: *ctx },
                coeff: coeff@,
                rem: rem_reg_bins as int,
                diag: st.tmpl_diag as int,
                sum1: st.tmpl_sum1 as int,
                dq: st.dq_state,
                nz: num_nonzero as int,
                par: scr.par@,
                gt2: scr.gt2@,
                order: scr.order@,
                first2: first_pos_2nd as int,
                pos: next_sig_pos as int,
            }) == dfp_run(
                dec.data(),
                DFp {
                s: DState { m: old(dec).model(), c: *old(ctx) },
                coeff: old(coeff)@,
                rem: old(st).reg_bin_limit as int,
                diag: old(st).tmpl_diag as int,
                sum1: old(st).tmpl_sum1 as int,
                dq: old(st).dq_state,
                nz: 0,
                par: old(scr).par@,
                gt2: old(scr).gt2@,
                order: old(scr).order@,
                first2: min_sub - 1,
                pos: first_sig_pos as int,
            },
                w as int,
                h as int,
                luma,
                dep_quant,
                infer_sig_pos as int,
                scan_pos_last as int,
                min_sub as int,
                (first_sig_pos - next_sig_pos) as nat,
            ),
        decreases next_sig_pos - min_sub as i32 + 1,
    {
        decode_fp_step(
            dec,
            ctx,
            cc,
            coeff,
            luma,
            dep_quant,
            min_sub,
            infer_sig_pos,
            scan_pos_last,
            st,
            scr,
            &mut rem_reg_bins,
            &mut num_nonzero,
            &mut first_pos_2nd,
            next_sig_pos,
        );
        proof {
            let t = (first_sig_pos - next_sig_pos) as nat;
            assert((t + 1) as nat - 1 == t);
        }
        next_sig_pos -= 1;
    }
    proof {
        lemma_dfp_stop(
            old(dec).data(),
            DFp {
                s: DState { m: old(dec).model(), c: *old(ctx) },
                coeff: old(coeff)@,
                rem: old(st).reg_bin_limit as int,
                diag: old(st).tmpl_diag as int,
                sum1: old(st).tmpl_sum1 as int,
                dq: old(st).dq_state,
                nz: 0,
                par: old(scr).par@,
                gt2: old(scr).gt2@,
                order: old(scr).order@,
                first2: min_sub - 1,
                pos: first_sig_pos as int,
            },
            w as int,
            h as int,
            luma,
            dep_quant,
            infer_sig_pos as int,
            scan_pos_last as int,
            min_sub as int,
            (first_sig_pos - next_sig_pos) as nat,
            16,
        );
    }
    st.reg_bin_limit = rem_reg_bins;
    DecPass { min_pos_2nd: next_sig_pos, first_pos_2nd, num_nonzero }
}

/// Decoder state and the block being rebuilt.
pub struct DRest {
    pub m: DecModel,
    pub coeff: Seq<i32>,
}

/// Position `sp` in the decoder's remainder pass: a level flagged above 3
/// becomes `4 + 2·rem + parity`, `rem` read with the Rice parameter of its
/// template (base 4).
pub open spec fn drp_cell(data: Seq<u8>, s: DRest, par: Seq<i32>, gt2: Seq<bool>, w: int, h: int, min_sub: int, sp: int) -> DRest {
    if gt2[sp - min_sub] {
        let (x, y) = coeff_scan(w, h)[sp];
        let rice = GO_RICE_PARS[template_abs_spec(s.coeff, x as int, y as int, w, h, 4)] as int;
        let (m2, rem) = d_rem(data, s.m, rice);
        DRest { m: m2, coeff: s.coeff.update(y as int * w + x as int, (4 + 2 * rem + par[sp - min_sub]) as i32) }
    } else {
        s
    }
}

/// The decoder's remainder pass after `n` steps down from `first2`,
/// stopping at `min2`.
pub open spec fn drp_run(
    data: Seq<u8>,
    s: DRest,
    par: Seq<i32>,
    gt2: Seq<bool>,
    w: int,
    h: int,
    min_sub: int,
    first2: int,
    min2: int,
    n: nat,
) -> DRest
    decreases n,
{
    if n == 0 {
        s
    } else {
        let p = drp_run(data, s, par, gt2, w, h, min_sub, first2, min2, (n - 1) as nat);
        let sp = first2 - (n - 1);
        if sp > min2 {
            drp_cell(data, p, par, gt2, w, h, min_sub, sp)
        } else {
            p
        }
    }
}

proof fn lemma_drp_stop(
    data: Seq<u8>,
    s: DRest,
    par: Seq<i32>,
    gt2: Seq<bool>,
    w: int,
    h: int,
    min_sub: int,
    first2: int,
    min2: int,
    k: nat,
    n: nat,
)
    requires
        k <= n,
        first2 - k <= min2,
    ensures
        drp_run(data, s, par, gt2, w, h, min_sub, first2, min2, n) == drp_run(data, s, par, gt2, w, h, min_sub, first2, min2, k),
    decreases n,
{
    if n > k {
        lemma_drp_stop(data, s, par, gt2, w, h, min_sub, first2, min2, k, (n - 1) as nat);
    }
}

/// State of the decoder's bypass pass: decoder, block, non-zero count,
/// non-zero positions in order, dependent-quantization state.
pub struct DByp {
    pub m: DecModel,
    pub coeff: Seq<i32>,
    pub nz: int,
    pub order: Seq<usize>,
    pub dq: u8,
}

/// Position `sp` in the decoder's bypass pass: a remainder (template base 0)
/// mapped around the state's zero position `(1 or 2) << rice`.
pub open spec fn dbp_cell(data: Seq<u8>, s: DByp, w: int, h: int, dep_quant: bool, sp: int) -> DByp {
    let (x, y) = coeff_scan(w, h)[sp];
    let blk = y as int * w + x as int;
    let rice: u32 = GO_RICE_PARS[template_abs_spec(s.coeff, x as int, y as int, w, h, 0)];
    let pos0: u32 = (if s.dq < 2 { 1u32 } else { 2u32 }) << rice;
    let (m2, rem) = d_rem(data, s.m, rice as int);
    let a = if rem < pos0 { rem + 1 } else if rem == pos0 { 0 } else { rem };
    let c2 = if a != 0 { s.coeff.update(blk, a as i32) } else { s.coeff };
    DByp {
        m: m2,
        coeff: c2,
        nz: if a != 0 { s.nz + 1 } else { s.nz },
        order: if a != 0 { s.order.push(sp as usize) } else { s.order },
        dq: if dep_quant { spec_next_state(s.dq, level_parity(c2[blk])) } else { s.dq },
    }
}

/// The decoder's bypass pass after `n` steps down from `min2`, stopping
/// below `min_sub`.
pub open spec fn dbp_run(data: Seq<u8>, s: DByp, w: int, h: int, dep_quant: bool, min_sub: int, min2: int, n: nat) -> DByp
    decreases n,
{
    if n == 0 {
        s
    } else {
        let p = dbp_run(data, s, w, h, dep_quant, min_sub, min2, (n - 1) as nat);
        let sp = min2 - (n - 1);
        if sp >= min_sub {
            dbp_cell(data, p, w, h, dep_quant, sp)
        } else {
            p
        }
    }
}

proof fn lemma_dbp_stop(data: Seq<u8>, s: DByp, w: int, h: int, dep_quant: bool, min_sub: int, min2: int, k: nat, n: nat)
    requires
        k <= n,
        min2 - k < min_sub,
    ensures
        dbp_run(data, s, w, h, dep_quant, min_sub, min2, n) == dbp_run(data, s, w, h, dep_quant, min_sub, min2, k),
    decreases n,
{
    if n > k {
        lemma_dbp_stop(data, s, w, h, dep_quant, min_sub, min2, k, (n - 1) as nat);
    }
}

/// The block after the first `n` sign bits: the `i`-th non-zero position
/// (in processing order) is negated when bit `k − 1 − i` of `signs` is set.
pub open spec fn signs_applied(c: Seq<i32>, w: int, h: int, order: Seq<usize>, signs: u32, k: u32, n: nat) -> Seq<i32>
    decreases n,
{
    if n == 0 {
        c
    } else {
        let p = signs_applied(c, w, h, order, signs, k, (n - 1) as nat);
        let i = n - 1;
        let (x, y) = coeff_scan(w, h)[order[i] as int];
        let blk = y as int * w + x as int;
        if (signs >> ((k - 1 - i) as u32)) & 1u32 == 1u32 {
            p.update(blk, (-(p[blk] as int)) as i32)
        } else {
            p
        }
    }
}

/// Second pass: remainders of the levels flagged above 3, over scan
/// positions `(min_pos_2nd, first_pos_2nd]`.
fn decode_rem_pass(
    dec: &mut CabacDecoder,
    cc: &CoeffCtx,
    coeff: &mut Vec<i32>,
    luma: bool,
    min_sub: usize,
    pass: &DecPass,
    scr: &GroupScratch,
)
    requires
        old(dec).wf(),
        old(dec).headroom() >= 16 * 64,
        pass_ctx_ok(cc, luma),
        rebuild_ok(old(coeff)@, cc.w as int, cc.h as int),
        min_sub as int - 1 <= pass.min_pos_2nd,
        pass.first_pos_2nd < min_sub + 16,
        pass.first_pos_2nd < cc.scan.len(),
        scratch_ok(scr, min_sub as int, cc.scan.len() as int),
    ensures
        final(dec).wf(),
        final(dec).data() == old(dec).data(),
        old(dec).model().pos <= final(dec).model().pos <= old(dec).model().pos + 16 * 64,
        rebuild_ok(final(coeff)@, cc.w as int, cc.h as int),
        (DRest { m: final(dec).model(), coeff: final(coeff)@ }) == drp_run(
            old(dec).data(),
            DRest { m: old(dec).model(), coeff: old(coeff)@ },
            scr.par@,
            scr.gt2@,
            cc.w as int,
            cc.h as int,
            min_sub as int,
            pass.first_pos_2nd as int,
            pass.min_pos_2nd as int,
            16,
        ),
{
    proof {
        lemma_coeff_scan(cc.w as int, cc.h as int);
    }
    let mut scan_pos = pass.first_pos_2nd;
    let ghost p0 = dec.model().pos;
    while scan_pos > pass.min_pos_2nd
        invariant
            dec.wf(),
            dec.data() == old(dec).data(),
            old(dec).headroom() >= 16 * 64,
            p0 == old(dec).model().pos,
            pass_ctx_ok(cc, luma),
            rebuild_ok(coeff@, cc.w as int, cc.h as int),
            min_sub as int - 1 <= pass.min_pos_2nd,
            pass.first_pos_2nd < min_sub + 16,
            pass.first_pos_2nd < cc.scan.len(),
            scratch_ok(scr, min_sub as int, cc.scan.len() as int),
            scan_pos <= pass.first_pos_2nd,
            pass.min_pos_2nd <= scan_pos || scan_pos == pass.first_pos_2nd,
            p0 <= dec.model().pos <= p0 + 33 * (pass.first_pos_2nd - scan_pos),
            (DRest { m: dec.model(), coeff: coeff@ }) == drp_run(
                old(dec).data(),
                DRest { m: old(dec).model(), coeff: old(coeff)@ },
                scr.par@,
                scr.gt2@,
                cc.w as int,
                cc.h as int,
                min_sub as int,
                pass.first_pos_2nd as int,
                pass.min_pos_2nd as int,
                (pass.first_pos_2nd - scan_pos) as nat,
            ),
        decreases scan_pos - pass.min_pos_2nd,
    {
        let sp = scan_pos as usize;
        if scr.gt2[sp - min_sub] {
            let blk = cc.block_pos(sp);
            let x = cc.scan[sp].0;
            let y = cc.scan[sp].1;
            let rice = derive_rice(coeff.as_slice(), x, y, cc.w, cc.h, 4);
            let rem = decode_rem_abs_ep(dec, rice);
            let v = 4 + 2 * rem as i32 + scr.par[sp - min_sub];
            proof {
                lemma_rebuild_set(coeff@, cc.w as int, cc.h as int, x as int, y as int, v);
            }
            coeff.set(blk, v);
        }
        scan_pos -= 1;
        proof {
            let t = (pass.first_pos_2nd - scan_pos) as nat;
            assert((t - 1) as nat == t - 1);
        }
    }
    proof {
        lemma_drp_stop(
            old(dec).data(),
            DRest { m: old(dec).model(), coeff: old(coeff)@ },
            scr.par@,
            scr.gt2@,
            cc.w as int,
            cc.h as int,
            min_sub as int,
            pass.first_pos_2nd as int,
            pass.min_pos_2nd as int,
            (pass.first_pos_2nd - scan_pos) as nat,
            16,
        );
    }
}

/// Bypass pass over scan positions `[min_sub, min_pos_2nd]`: each level from
/// a remainder around the state's zero position.
#[verifier::rlimit(40)]
fn decode_bypass_pass(
    dec: &mut CabacDecoder,
    cc: &CoeffCtx,
    coeff: &mut Vec<i32>,
    luma: bool,
    dep_quant: bool,
    min_sub: usize,
    pass: &DecPass,
    st: &mut GroupState,
    scr: &mut GroupScratch,
) -> (num_nonzero: u32)
    requires
        old(dec).wf(),
        old(dec).headroom() >= 16 * 64,
        pass_ctx_ok(cc, luma),
        rebuild_ok(old(coeff)@, cc.w as int, cc.h as int),
        min_sub as int - 1 <= pass.min_pos_2nd < min_sub + 16,
        pass.min_pos_2nd < cc.scan.len(),
        pass.num_nonzero == old(scr).order.len(),
        pass.num_nonzero + (pass.min_pos_2nd - min_sub + 1) <= 16,
        old(st).ok(),
        scratch_ok(old(scr), min_sub as int, cc.scan.len() as int),
    ensures
        final(dec).wf(),
        final(dec).data() == old(dec).data(),
        old(dec).model().pos <= final(dec).model().pos <= old(dec).model().pos + 16 * 64,
        rebuild_ok(final(coeff)@, cc.w as int, cc.h as int),
        final(st).ok(),
        scratch_ok(final(scr), min_sub as int, cc.scan.len() as int),
        num_nonzero == final(scr).order.len(),
        num_nonzero <= 16,
        ({
            let r = dbp_run(old(dec).data(), DByp { m: old(dec).model(), coeff: old(coeff)@, nz: pass.num_nonzero as int, order: old(scr).order@, dq: old(st).dq_state }, cc.w as int, cc.h as int, dep_quant, min_sub as int, pass.min_pos_2nd as int, 16);
            &&& final(dec).model() == r.m
            &&& final(coeff)@ == r.coeff
            &&& num_nonzero == r.nz
            &&& final(scr).order@ == r.order
            &&& final(st).dq_state == r.dq
            &&& final(st).reg_bin_limit == old(st).reg_bin_limit
            &&& final(st).tmpl_diag == old(st).tmpl_diag
            &&& final(st).tmpl_sum1 == old(st).tmpl_sum1
            &&& final(scr).par@ == old(scr).par@
            &&& final(scr).gt2@ == old(scr).gt2@
        }),
{
    proof {
        lemma_coeff_scan(cc.w as int, cc.h as int);
    }
    let mut num_nonzero = pass.num_nonzero;
    let mut scan_pos = pass.min_pos_2nd;
    let ghost p0 = dec.model().pos;
    while scan_pos >= min_sub as i32
        invariant
            dec.wf(),
            dec.data() == old(dec).data(),
            old(dec).headroom() >= 16 * 64,
            p0 == old(dec).model().pos,
            pass_ctx_ok(cc, luma),
            rebuild_ok(coeff@, cc.w as int, cc.h as int),
            min_sub as int - 1 <= pass.min_pos_2nd < min_sub + 16,
            pass.min_pos_2nd < cc.scan.len(),
            min_sub as int - 1 <= scan_pos <= pass.min_pos_2nd,
            num_nonzero == scr.order.len(),
            num_nonzero + (scan_pos - min_sub + 1) <= 16,
            st.ok(),
            scratch_ok(scr, min_sub as int, cc.scan.len() as int),
            p0 <= dec.model().pos <= p0 + 33 * (pass.min_pos_2nd - scan_pos),
            st.reg_bin_limit == old(st).reg_bin_limit,
            st.tmpl_diag == old(st).tmpl_diag,
            st.tmpl_sum1 == old(st).tmpl_sum1,
            scr.par@ == old(scr).par@,
            scr.gt2@ == old(scr).gt2@,
            (DByp { m: dec.model(), coeff: coeff@, nz: num_nonzero as int, order: scr.order@, dq: st.dq_state }) == dbp_run(
                old(dec).data(),
                DByp { m: old(dec).model(), coeff: old(coeff)@, nz: pass.num_nonzero as int, order: old(scr).order@, dq: old(st).dq_state },
                cc.w as int,
                cc.h as int,
                dep_quant,
                min_sub as int,
                pass.min_pos_2nd as int,
                (pass.min_pos_2nd - scan_pos) as nat,
            ),
        decreases scan_pos - min_sub as i32 + 1,
    {
        let sp = scan_pos as usize;
        let blk = cc.block_pos(sp);
        let x = cc.scan[sp].0;
        let y = cc.scan[sp].1;
        let rice = derive_rice(coeff.as_slice(), x, y, cc.w, cc.h, 0);
        let pos0: u32 = (if st.dq_state < 2 { 1u32 } else { 2 }) << rice;
        let rem = decode_rem_abs_ep(dec, rice);
        let abs_level = if rem < pos0 {
            rem + 1
        } else if rem == pos0 {
            0
        } else {
            rem
        };
        if abs_level != 0 {
            proof {
                lemma_rebuild_set(coeff@, cc.w as int, cc.h as int, x as int, y as int, abs_level as i32);
            }
            coeff.set(blk, abs_level as i32);
            num_nonzero += 1;
            scr.order.push(sp);
        }
        if dep_quant {
            st.dq_state = next_state(st.dq_state, coeff[blk]);
        }
        scan_pos -= 1;
        proof {
            let t = (pass.min_pos_2nd - scan_pos) as nat;
            assert((t - 1) as nat == t - 1);
        }
    }
    proof {
        lemma_dbp_stop(
            old(dec).data(),
            DByp { m: old(dec).model(), coeff: old(coeff)@, nz: pass.num_nonzero as int, order: old(scr).order@, dq: old(st).dq_state },
            cc.w as int,
            cc.h as int,
            dep_quant,
            min_sub as int,
            pass.min_pos_2nd as int,
            (pass.min_pos_2nd - scan_pos) as nat,
            16,
        );
    }
    num_nonzero
}

/// Apply the sign bits: the first-processed non-zero takes the most
/// significant of the `order.len()` bits; a set bit negates the level.
fn apply_signs(coeff: &mut Vec<i32>, cc: &CoeffCtx, luma: bool, order: &Vec<usize>, signs: u32)
    requires
        pass_ctx_ok(cc, luma),
        rebuild_ok(old(coeff)@, cc.w as int, cc.h as int),
        order.len() <= 16,
        forall|i: int| 0 <= i < order.len() ==> #[trigger] order[i] < cc.scan.len(),
    ensures
        rebuild_ok(final(coeff)@, cc.w as int, cc.h as int),
        final(coeff)@ == signs_applied(old(coeff)@, cc.w as int, cc.h as int, order@, signs, order.len() as u32, order.len() as nat),
{
    proof {
        lemma_coeff_scan(cc.w as int, cc.h as int);
    }
    let k = order.len() as u32;
    let mut i: usize = 0;
    while i < order.len()
        invariant
            pass_ctx_ok(cc, luma),
            rebuild_ok(coeff@, cc.w as int, cc.h as int),
            k == order.len(),
            order.len() <= 16,
            forall|j: int| 0 <= j < order.len() ==> #[trigger] order[j] < cc.scan.len(),
            i <= order.len(),
            coeff@ == signs_applied(old(coeff)@, cc.w as int, cc.h as int, order@, signs, k, i as nat),
        decreases order.len() - i,
    {
        let bit = (signs >> (k - 1 - i as u32)) & 1;
        if bit == 1 {
            let sp = order[i];
            let blk = cc.block_pos(sp);
            let x = cc.scan[sp].0;
            let y = cc.scan[sp].1;
            let v = -coeff[blk];
            proof {
                lemma_rebuild_set(coeff@, cc.w as int, cc.h as int, x as int, y as int, v);
            }
            coeff.set(blk, v);
        }
        i += 1;
    }
}

/// State carried from one decoded group to the next: decoder and contexts,
/// the block so far, remaining regular bins, significance template,
/// dependent-quantization state, and which groups (raster order) were
/// significant.
pub struct DGState {
    pub s: DState,
    pub coeff: Seq<i32>,
    pub rem: int,
    pub diag: int,
    pub sum1: int,
    pub dq: u8,
    pub raster: Seq<bool>,
}

/// Decoding coefficient group `id` (scan order) of a block whose last
/// significant position is `last`: its flag (read unless it is the last or
/// the first group), then, unless the flag is 0, the first pass, the
/// remainders, the bypass pass and the sign bits.
pub open spec fn dgroup_model(data: Seq<u8>, g: DGState, w: int, h: int, luma: bool, dep_quant: bool, last: int, id: int) -> DGState {
    let wig = coded_side(w) / 4;
    let hig = coded_side(h) / 4;
    let min_sub = id * 16;
    let is_last = id == last / 16;
    let not_first = id != 0;
    let (cgx, cgy) = group_scan(w, h)[id];
    let pos = cgy as int * wig + cgx as int;
    let coded_flag = !is_last && not_first;
    let (s1, b) = if coded_flag {
        let right = cgx + 1 < wig && g.raster[pos + 1];
        let lower = cgy + 1 < hig && g.raster[pos + wig];
        d_sgrp_bin(data, g.s, luma, if right || lower { 1 } else { 0 })
    } else {
        (g.s, 0u8)
    };
    if coded_flag && b != 1 {
        DGState { s: s1, ..g }
    } else {
        let significant = is_last || coded_flag;
        let raster = if significant { g.raster.update(pos, true) } else { g.raster };
        let first_sig = if is_last { last } else { min_sub + 15 };
        let infer = if first_sig != last {
            if not_first { min_sub } else { -1 }
        } else {
            first_sig
        };
        let f = dfp_run(
            data,
            DFp {
                s: s1,
                coeff: g.coeff,
                rem: g.rem,
                diag: g.diag,
                sum1: g.sum1,
                dq: g.dq,
                nz: 0,
                par: Seq::new(16, |i: int| 0i32),
                gt2: Seq::new(16, |i: int| false),
                order: Seq::empty(),
                first2: min_sub - 1,
                pos: first_sig,
            },
            w,
            h,
            luma,
            dep_quant,
            infer,
            last,
            min_sub,
            16,
        );
        let r = drp_run(data, DRest { m: f.s.m, coeff: f.coeff }, f.par, f.gt2, w, h, min_sub, f.first2, f.pos, 16);
        let bp = dbp_run(data, DByp { m: r.m, coeff: r.coeff, nz: f.nz, order: f.order, dq: f.dq }, w, h, dep_quant, min_sub, f.pos, 16);
        let (m4, sg) = d_bypass_run(data, bp.m, bp.nz as nat);
        DGState {
            s: DState { m: m4, c: f.s.c },
            coeff: signs_applied(bp.coeff, w, h, bp.order, sg as u32, bp.order.len() as u32, bp.order.len()),
            rem: f.rem,
            diag: f.diag,
            sum1: f.sum1,
            dq: bp.dq,
            raster,
        }
    }
}

/// The groups decoded after the first `n`, from the last significant one
/// down.
pub open spec fn dgroups_run(data: Seq<u8>, g: DGState, w: int, h: int, luma: bool, dep_quant: bool, last: int, n: nat) -> DGState
    decreases n,
{
    if n == 0 {
        g
    } else {
        dgroup_model(data, dgroups_run(data, g, w, h, luma, dep_quant, last, (n - 1) as nat), w, h, luma, dep_quant, last, last / 16 - (n - 1))
    }
}

/// The decoder state, contexts and `w × h` levels after reading a block
/// with the regular residual decoder from `m` and `c` over `data`: the last
/// significant position, then the groups from the last one down.
pub open spec fn residual_decode(data: Seq<u8>, m: DecModel, c: Contexts, w: int, h: int, luma: bool, dep_quant: bool) -> (DecModel, Contexts, Seq<i32>) {
    let n = coeff_scan(w, h).len();
    let (s1, last) = d_last_sig(data, DState { m, c }, w, h, luma);
    let g0 = DGState {
        s: s1,
        coeff: Seq::new((w * h) as nat, |i: int| 0i32),
        rem: (n as int * 28) / 16,
        diag: -1,
        sum1: 0,
        dq: 0,
        raster: Seq::new(n / 16, |i: int| false),
    };
    let gf = dgroups_run(data, g0, w, h, luma, dep_quant, last, (last / 16 + 1) as nat);
    (gf.s.m, gf.s.c, gf.coeff)
}

/// Bound on the decoder position advance over one coefficient group.
pub open spec fn dec_group_budget() -> int {
    2600
}

/// Decode one coefficient group, in the coder's pass order.
#[verifier::rlimit(100)]
fn decode_group(
    dec: &mut CabacDecoder,
    ctx: &mut Contexts,
    cc: &CoeffCtx,
    coeff: &mut Vec<i32>,
    luma: bool,
    dep_quant: bool,
    sub_set_id: usize,
    last_cg: usize,
    scan_pos_last: usize,
    sig_raster: &mut Vec<bool>,
    st: &mut GroupState,
)
    requires
        old(dec).wf(),
        old(dec).headroom() >= dec_group_budget(),
        pass_ctx_ok(cc, luma),
        rebuild_ok(old(coeff)@, cc.w as int, cc.h as int),
        sub_set_id <= last_cg,
        last_cg == scan_pos_last / 16,
        scan_pos_last < cc.scan.len(),
        old(sig_raster).len() == cc.scan.len() / 16,
        old(st).ok(),
    ensures
        final(dec).wf(),
        final(dec).data() == old(dec).data(),
        old(dec).model().pos <= final(dec).model().pos <= old(dec).model().pos + dec_group_budget(),
        rebuild_ok(final(coeff)@, cc.w as int, cc.h as int),
        final(sig_raster).len() == old(sig_raster).len(),
        final(st).ok(),
        ({
            let g = dgroup_model(
                old(dec).data(),
                DGState {
                    s: DState { m: old(dec).model(), c: *old(ctx) },
                    coeff: old(coeff)@,
                    rem: old(st).reg_bin_limit as int,
                    diag: old(st).tmpl_diag as int,
                    sum1: old(st).tmpl_sum1 as int,
                    dq: old(st).dq_state,
                    raster: old(sig_raster)@,
                },
                cc.w as int,
                cc.h as int,
                luma,
                dep_quant,
                scan_pos_last as int,
                sub_set_id as int,
            );
            &&& (DState { m: final(dec).model(), c: *final(ctx) }) == g.s
            &&& final(coeff)@ == g.coeff
            &&& final(st).reg_bin_limit == g.rem
            &&& final(st).tmpl_diag == g.diag
            &&& final(st).tmpl_sum1 == g.sum1
            &&& final(st).dq_state == g.dq
            &&& final(sig_raster)@ == g.raster
        }),
{
    proof {
        lemma_coeff_scan(cc.w as int, cc.h as int);
        lemma_diag_seq(coded_side(cc.w as int) / 4, coded_side(cc.h as int) / 4);
        assert(cc.scan.len() == cc.scan_cg.len() * 16);
        assert(cc.scan_cg.len() == cc.width_in_groups * cc.height_in_groups);
        crate::predict::lemma_div_below(scan_pos_last as int, 16, cc.scan_cg.len() as int);
    }
    let min_sub = sub_set_id * 16;
    let max_sub = min_sub + 15;
    let is_last = sub_set_id == last_cg;
    let is_not_first = sub_set_id != 0;
    let cgx = cc.scan_cg[sub_set_id].0;
    let cgy = cc.scan_cg[sub_set_id].1;
    proof {
        lemma_group_cell(cgx as int, cgy as int, cc.width_in_groups as int, cc.height_in_groups as int);
    }
    let sub_set_pos = cgy * cc.width_in_groups + cgx;
    let mut significant = is_last;
    if !is_last && is_not_first {
        let sig_right = cgx + 1 < cc.width_in_groups && sig_raster[sub_set_pos + 1];
        let sig_lower = cgy + 1 < cc.height_in_groups && sig_raster[sub_set_pos + cc.width_in_groups];
        let gi: usize = if sig_right || sig_lower { 1 } else { 0 };
        let ghost c0 = *ctx;
        let b = if luma {
            let b = dec.decode_bin(&mut ctx.sig_group[gi]);
            assert(ctx.sig_group =~= spec_array_update(c0.sig_group, gi as int, ctx_after(c0.sig_group[gi as int], b)));
            b
        } else {
            let b = dec.decode_bin(&mut ctx.sig_group_c[gi]);
            assert(ctx.sig_group_c =~= spec_array_update(c0.sig_group_c, gi as int, ctx_after(c0.sig_group_c[gi as int], b)));
            b
        };
        if b == 1 {
            significant = true;
        } else {
            return;
        }
    }
    if significant {
        sig_raster.set(sub_set_pos, true);
    }
    let first_sig_pos = if is_last { scan_pos_last } else { max_sub };
    let infer_sig_pos: i32 = if first_sig_pos != scan_pos_last {
        if is_not_first { min_sub as i32 } else { -1 }
    } else {
        first_sig_pos as i32
    };
    let mut scr = GroupScratch { par: vec![0i32; 16], gt2: vec![false; 16], order: Vec::new() };
    assert(scr.par@ =~= Seq::new(16, |i: int| 0i32));
    assert(scr.gt2@ =~= Seq::new(16, |i: int| false));
    assert(scr.order@ =~= Seq::<usize>::empty());
    let pass = decode_first_pass(
        dec,
        ctx,
        cc,
        coeff,
        luma,
        dep_quant,
        min_sub,
        first_sig_pos,
        infer_sig_pos,
        scan_pos_last,
        st,
        &mut scr,
    );
    decode_rem_pass(dec, cc, coeff, luma, min_sub, &pass, &scr);
    let num_nonzero = decode_bypass_pass(dec, cc, coeff, luma, dep_quant, min_sub, &pass, st, &mut scr);
    let signs = dec_bits(dec, num_nonzero);
    apply_signs(coeff, cc, luma, &scr.order, signs);
}

/// A group cell lies inside the group grid.
proof fn lemma_group_cell(gx: int, gy: int, gw: int, gh: int)
    requires
        0 <= gx < gw,
        0 <= gy < gh,
    ensures
        0 <= gy * gw + gx < gw * gh,
        gx + 1 < gw ==> gy * gw + gx + 1 < gw * gh,
        gy + 1 < gh ==> gy * gw + gx + gw < gw * gh,
{
    super::ctx::lemma_cell_bound(gx, gy, gw, gh);
    if gx + 1 < gw {
        super::ctx::lemma_cell_bound(gx + 1, gy, gw, gh);
    }
    if gy + 1 < gh {
        super::ctx::lemma_cell_bound(gx, gy + 1, gw, gh);
        assert((gy + 1) * gw == gy * gw + gw) by (nonlinear_arith);
    }
}

/// Decode the levels of a `w × h` transform block (raster order, stride
/// `w`): bounded levels, zero outside the coded `min(w, 32) × min(h, 32)`
/// region.
#[verifier::rlimit(100)]
pub fn decode_residual(
    dec: &mut CabacDecoder,
    ctx: &mut Contexts,
    w: usize,
    h: usize,
    comp: Component,
    dep_quant: bool,
) -> (r: Vec<i32>)
    requires
        old(dec).wf(),
        old(dec).headroom() >= decode_budget(),
        tb_side_ok(w as int),
        tb_side_ok(h as int),
    ensures
        final(dec).wf(),
        final(dec).data() == old(dec).data(),
        old(dec).model().pos <= final(dec).model().pos <= old(dec).model().pos + decode_budget(),
        r.len() == w * h,
        levels_ok(r@, w * h),
        zero_outside_coded(r@, w as int, h as int),
        (final(dec).model(), *final(ctx), r@) == residual_decode(
            old(dec).data(),
            old(dec).model(),
            *old(ctx),
            w as int,
            h as int,
            comp == Component::Luma,
            dep_quant,
        ),
{
    let luma = comp.is_luma();
    let cc = CoeffCtx::new(w, h, comp);
    proof {
        lemma_coeff_scan(w as int, h as int);
        assert(cc.scan.len() % 16 == 0 && cc.scan.len() >= 16) by {
            assert(coded_side(w as int) * coded_side(h as int) == (coded_side(w as int) / 4) * (
            coded_side(h as int) / 4) * 16) by (nonlinear_arith)
                requires
                    coded_side(w as int) % 4 == 0,
                    coded_side(h as int) % 4 == 0,
            ;
            assert((coded_side(w as int) / 4) * (coded_side(h as int) / 4) >= 1) by (nonlinear_arith)
                requires
                    coded_side(w as int) / 4 >= 1,
                    coded_side(h as int) / 4 >= 1,
            ;
        }
        assert(w * h <= 4096) by (nonlinear_arith)
            requires
                w <= 64,
                h <= 64,
        ;
    }
    let mut coeff = vec![0i32; w * h];
    proof {
        assert forall|x: int, y: int|
            0 <= x < w && 0 <= y < h && (x >= coded_side(w as int) || y >= coded_side(h as int)) implies #[trigger] coeff@[y * w + x] == 0 by {
            super::ctx::lemma_cell_bound(x, y, w as int, h as int);
        }
        assert(levels_ok(coeff@, w * h));
    }
    let max_coeff = cc.scan.len();
    assert(coeff@ =~= Seq::new((w * h) as nat, |i: int| 0i32));
    let ghost c_init = coeff@;
    let scan_pos_last = decode_last_sig(dec, ctx, &cc, luma);
    let last_cg = scan_pos_last / 16;
    let mut st = GroupState {
        reg_bin_limit: (max_coeff as i32 * super::code::CTX_BIN_RATIO) / 16,
        tmpl_diag: -1,
        tmpl_sum1: 0,
        dq_state: 0,
    };
    let mut sig_raster: Vec<bool> = vec![false; max_coeff / 16];
    let ghost p1 = dec.model().pos;
    let ghost g0 = DGState {
        s: DState { m: dec.model(), c: *ctx },
        coeff: c_init,
        rem: (max_coeff as int * 28) / 16,
        diag: -1,
        sum1: 0,
        dq: 0,
        raster: Seq::new((max_coeff / 16) as nat, |i: int| false),
    };
    assert(sig_raster@ =~= g0.raster);
    let mut g: usize = last_cg + 1;
    while g > 0
        invariant
            dec.wf(),
            dec.data() == old(dec).data(),
            old(dec).headroom() >= decode_budget(),
            old(dec).model().pos <= p1 <= old(dec).model().pos + 200,
            pass_ctx_ok(&cc, luma),
            cc.w == w,
            cc.h == h,
            max_coeff == cc.scan.len(),
            sig_raster.len() == max_coeff / 16,
            rebuild_ok(coeff@, w as int, h as int),
            scan_pos_last < max_coeff,
            last_cg == scan_pos_last / 16,
            g <= last_cg + 1,
            last_cg < 64,
            st.ok(),
            p1 <= dec.model().pos <= p1 + dec_group_budget() * (last_cg + 1 - g),
            dec.data() == old(dec).data(),
            (DGState {
                s: DState { m: dec.model(), c: *ctx },
                coeff: coeff@,
                rem: st.reg_bin_limit as int,
                diag: st.tmpl_diag as int,
                sum1: st.tmpl_sum1 as int,
                dq: st.dq_state,
                raster: sig_raster@,
            }) == dgroups_run(dec.data(), g0, w as int, h as int, luma, dep_quant, scan_pos_last as int, (last_cg + 1 - g) as nat),
        decreases g,
    {
        decode_group(dec, ctx, &cc, &mut coeff, luma, dep_quant, g - 1, last_cg, scan_pos_last, &mut sig_raster, &mut st);
        g -= 1;
    }
    coeff
}


/// Looking up the cell of scan position `p` from position `k ≤ p` finds `p`.
proof fn lemma_scan_find_from(w: int, h: int, p: int, k: int)
    requires
        tb_side_ok(w),
        tb_side_ok(h),
        0 <= k <= p < coeff_scan(w, h).len(),
    ensures
        scan_find(coeff_scan(w, h), coeff_scan(w, h)[p].0 as int, coeff_scan(w, h)[p].1 as int, k) == p,
    decreases p - k,
{
    lemma_coeff_scan(w, h);
    let sq = coeff_scan(w, h);
    if k < p {
        assert(sq[k] != sq[p]);
        lemma_scan_find_from(w, h, p, k + 1);
    }
}

/// The decoder's lookup of a last-position cell inverts the scan: the cell
/// of scan position `p` of a `w × h` block is found at `p`, so a decoded
/// coordinate pair names the scan position it was coded from.
pub proof fn lemma_scan_find_inverts(w: int, h: int, p: int)
    requires
        tb_side_ok(w),
        tb_side_ok(h),
        0 <= p < coeff_scan(w, h).len(),
    ensures
        scan_find(coeff_scan(w, h), coeff_scan(w, h)[p].0 as int, coeff_scan(w, h)[p].1 as int, 0) == p,
{
    lemma_scan_find_from(w, h, p, 0);
}

// ---------------------------------------------------------------------------
// Last-position round trip
// ---------------------------------------------------------------------------
proof fn lemma_last_ones_nests(s: RState, luma: bool, is_x: bool, offset: int, shift: int, j: nat, n: nat) -> (e: nat)
    requires
        m_regs_ok(last_ones(s, luma, is_x, offset, shift, j).m),
        m_pre(last_ones(s, luma, is_x, offset, shift, j).m),
        j <= n,
    ensures
        m_regs_ok(last_ones(s, luma, is_x, offset, shift, n).m),
        m_pre(last_ones(s, luma, is_x, offset, shift, n).m),
        nests(last_ones(s, luma, is_x, offset, shift, j).m, last_ones(s, luma, is_x, offset, shift, n).m, e),
    decreases n,
{
    if n == j {
        lemma_nests_refl(last_ones(s, luma, is_x, offset, shift, j).m);
        0
    } else {
        let e1 = lemma_last_ones_nests(s, luma, is_x, offset, shift, j, (n - 1) as nat);
        let p = last_ones(s, luma, is_x, offset, shift, (n - 1) as nat);
        let i: int = offset + (n - 1) / (vstd::arithmetic::power2::pow2(shift as nat) as int);
        let e2 = lemma_ctx_nests(p.m, last_ctx(p.c, luma, is_x, i), 1);
        lemma_nests_compose(last_ones(s, luma, is_x, offset, shift, j).m, p.m, last_ones(s, luma, is_x, offset, shift, n).m, e1, e2);
        e1 + e2
    }
}

/// The encoder after the group prefix `g` of a last-position coordinate.
pub open spec fn last_prefix_model(s: RState, luma: bool, is_x: bool, offset: int, shift: int, max_last: int, g: nat) -> RState {
    let s1 = last_ones(s, luma, is_x, offset, shift, g);
    if g < max_last {
        last_bin(s1, luma, is_x, offset + (g as int) / (vstd::arithmetic::power2::pow2(shift as nat) as int), 0)
    } else {
        s1
    }
}

proof fn lemma_last_prefix_nests(s: RState, luma: bool, is_x: bool, offset: int, shift: int, max_last: int, j: nat, g: nat) -> (e: nat)
    requires
        m_regs_ok(last_ones(s, luma, is_x, offset, shift, j).m),
        m_pre(last_ones(s, luma, is_x, offset, shift, j).m),
        j <= g,
    ensures
        m_regs_ok(last_prefix_model(s, luma, is_x, offset, shift, max_last, g).m),
        m_pre(last_prefix_model(s, luma, is_x, offset, shift, max_last, g).m),
        nests(last_ones(s, luma, is_x, offset, shift, j).m, last_prefix_model(s, luma, is_x, offset, shift, max_last, g).m, e),
{
    let e1 = lemma_last_ones_nests(s, luma, is_x, offset, shift, j, g);
    let s1 = last_ones(s, luma, is_x, offset, shift, g);
    if g < max_last {
        let i: int = offset + (g as int) / (vstd::arithmetic::power2::pow2(shift as nat) as int);
        let e2 = lemma_ctx_nests(s1.m, last_ctx(s1.c, luma, is_x, i), 0);
        lemma_nests_compose(last_ones(s, luma, is_x, offset, shift, j).m, s1.m, last_prefix_model(s, luma, is_x, offset, shift, max_last, g).m, e1, e2);
        e1 + e2
    } else {
        e1
    }
}

/// The group prefix read back from group `j` on.
proof fn lemma_last_prefix_round_trip(
    data: Seq<u8>,
    s: RState,
    t: DState,
    luma: bool,
    is_x: bool,
    offset: int,
    shift: int,
    max_last: int,
    j: nat,
    g: nat,
)
    requires
        j <= g <= max_last,
        m_regs_ok(last_ones(s, luma, is_x, offset, shift, j).m),
        m_pre(last_ones(s, luma, is_x, offset, shift, j).m),
        in_step(data, last_ones(s, luma, is_x, offset, shift, j).m, t.m),
        t.c == last_ones(s, luma, is_x, offset, shift, j).c,
        contains(data, last_prefix_model(s, luma, is_x, offset, shift, max_last, g).m),
    ensures
        d_last_prefix(data, t, luma, is_x, offset, shift, max_last, j as int).1 == g,
        d_last_prefix(data, t, luma, is_x, offset, shift, max_last, j as int).0.c == last_prefix_model(s, luma, is_x, offset, shift, max_last, g).c,
        in_step(data, last_prefix_model(s, luma, is_x, offset, shift, max_last, g).m, d_last_prefix(data, t, luma, is_x, offset, shift, max_last, j as int).0.m),
    decreases max_last - j,
{
    let sj = last_ones(s, luma, is_x, offset, shift, j);
    let i: int = offset + (j as int) / (vstd::arithmetic::power2::pow2(shift as nat) as int);
    if j < g {
        let s1 = last_ones(s, luma, is_x, offset, shift, j + 1);
        assert(s1 == last_bin(sj, luma, is_x, i, 1));
        lemma_ctx_nests(sj.m, last_ctx(sj.c, luma, is_x, i), 1);
        let e = lemma_last_prefix_nests(s, luma, is_x, offset, shift, max_last, j + 1, g);
        lemma_contains_back(data, s1.m, last_prefix_model(s, luma, is_x, offset, shift, max_last, g).m, e);
        lemma_dec_ctx_bin(data, sj.m, t.m, last_ctx(sj.c, luma, is_x, i), 1);
        let (t1, b) = d_last_bin(data, t, luma, is_x, i);
        lemma_last_prefix_round_trip(data, s, t1, luma, is_x, offset, shift, max_last, j + 1, g);
    } else if j < max_last {
        lemma_dec_ctx_bin(data, sj.m, t.m, last_ctx(sj.c, luma, is_x, i), 0);
    }
}

proof fn lemma_last_coord_nests(s: RState, luma: bool, is_x: bool, pos: int, offset: int, shift: int, max_last: int) -> (e: nat)
    requires
        0 <= pos < 32,
        m_regs_ok(s.m),
        m_pre(s.m),
    ensures
        m_regs_ok(last_coord_model(s, luma, is_x, pos, offset, shift, max_last).m),
        m_pre(last_coord_model(s, luma, is_x, pos, offset, shift, max_last).m),
        nests(s.m, last_coord_model(s, luma, is_x, pos, offset, shift, max_last).m, e),
{
    lemma_group_table(pos);
    let g: nat = GROUP_IDX[pos] as nat;
    let s2 = last_prefix_model(s, luma, is_x, offset, shift, max_last, g);
    assert(last_ones(s, luma, is_x, offset, shift, 0) == s);
    let e1 = lemma_last_prefix_nests(s, luma, is_x, offset, shift, max_last, 0, g);
    if g > 3 {
        let k: nat = ((g - 2) / 2) as nat;
        let bits = low_bits((pos - MIN_IN_GROUP[g as int]) as u64, k);
        let e2 = lemma_bypass_seq_nests(s2.m, bits);
        lemma_nests_compose(s.m, s2.m, last_coord_model(s, luma, is_x, pos, offset, shift, max_last).m, e1, e2);
        e1 + e2
    } else {
        e1
    }
}

/// One last-position coordinate read back.
proof fn lemma_last_coord_round_trip(
    data: Seq<u8>,
    s: RState,
    t: DState,
    luma: bool,
    is_x: bool,
    pos: int,
    offset: int,
    shift: int,
    max_last: int,
)
    requires
        0 <= pos < 32,
        GROUP_IDX[pos] <= max_last,
        m_regs_ok(s.m),
        m_pre(s.m),
        in_step(data, s.m, t.m),
        t.c == s.c,
        contains(data, last_coord_model(s, luma, is_x, pos, offset, shift, max_last).m),
    ensures
        d_last_coord(data, t, luma, is_x, offset, shift, max_last).1 == pos,
        d_last_coord(data, t, luma, is_x, offset, shift, max_last).0.c == last_coord_model(s, luma, is_x, pos, offset, shift, max_last).c,
        in_step(data, last_coord_model(s, luma, is_x, pos, offset, shift, max_last).m, d_last_coord(data, t, luma, is_x, offset, shift, max_last).0.m),
        m_regs_ok(last_coord_model(s, luma, is_x, pos, offset, shift, max_last).m),
        m_pre(last_coord_model(s, luma, is_x, pos, offset, shift, max_last).m),
{
    lemma_group_table(pos);
    let g: nat = GROUP_IDX[pos] as nat;
    let s2 = last_prefix_model(s, luma, is_x, offset, shift, max_last, g);
    assert(last_ones(s, luma, is_x, offset, shift, 0) == s);
    lemma_last_prefix_nests(s, luma, is_x, offset, shift, max_last, 0, g);
    let mf = last_coord_model(s, luma, is_x, pos, offset, shift, max_last);
    if g > 3 {
        let k: nat = ((g - 2) / 2) as nat;
        let bits = low_bits((pos - MIN_IN_GROUP[g as int]) as u64, k);
        let e = lemma_bypass_seq_nests(s2.m, bits);
        lemma_contains_back(data, s2.m, mf.m, e);
    }
    lemma_last_prefix_round_trip(data, s, t, luma, is_x, offset, shift, max_last, 0, g);
    if g > 3 {
        let k: nat = ((g - 2) / 2) as nat;
        let v: int = pos - MIN_IN_GROUP[g as int];
        let bits = low_bits(v as u64, k);
        let t1 = d_last_prefix(data, t, luma, is_x, offset, shift, max_last, 0).0;
        lemma_run_is_bits(data, t1.m, k);
        lemma_dec_bypass_bits(data, s2.m, t1.m, bits);
        crate::bitstream::lemma_bits_value_low_bits(v as u64, k);
        vstd::arithmetic::div_mod::lemma_small_mod(v as nat, vstd::arithmetic::power2::pow2(k));
    }
}

/// Last-position round trip: a decoder that follows the encoder (see
/// `cabac::roundtrip`) with the same contexts, and whose code value lies in
/// the encoder's interval after the last significant position, reads back
/// the scan position the encoder coded; it then still follows the encoder,
/// with the same contexts.
pub proof fn lemma_last_sig_round_trip(data: Seq<u8>, s: RState, t: DState, w: int, h: int, luma: bool, p: int)
    requires
        tb_side_ok(w),
        tb_side_ok(h),
        0 <= p < coeff_scan(w, h).len(),
        m_regs_ok(s.m),
        m_pre(s.m),
        in_step(data, s.m, t.m),
        t.c == s.c,
        contains(data, last_sig_model(s, w, h, luma, p).m),
    ensures
        d_last_sig(data, t, w, h, luma).1 == p,
        d_last_sig(data, t, w, h, luma).0.c == last_sig_model(s, w, h, luma, p).c,
        in_step(data, last_sig_model(s, w, h, luma, p).m, d_last_sig(data, t, w, h, luma).0.m),
{
    lemma_coeff_scan(w, h);
    let (x, y) = coeff_scan(w, h)[p];
    let ox = last_offset(w, luma);
    let sx = last_shift(w, luma);
    let mx = GROUP_IDX[coded_side(w) - 1] as int;
    let oy = last_offset(h, luma);
    let sy = last_shift(h, luma);
    let my = GROUP_IDX[coded_side(h) - 1] as int;
    lemma_group_table(x as int);
    lemma_group_table(y as int);
    let s1 = last_coord_model(s, luma, true, x as int, ox, sx, mx);
    let mf = last_sig_model(s, w, h, luma, p);
    assert(mf == last_coord_model(s1, luma, false, y as int, oy, sy, my));
    lemma_last_coord_nests(s, luma, true, x as int, ox, sx, mx);
    let e = lemma_last_coord_nests(s1, luma, false, y as int, oy, sy, my);
    lemma_contains_back(data, s1.m, mf.m, e);
    lemma_last_coord_round_trip(data, s, t, luma, true, x as int, ox, sx, mx);
    let t1 = d_last_coord(data, t, luma, true, ox, sx, mx).0;
    lemma_last_coord_round_trip(data, s1, t1, luma, false, y as int, oy, sy, my);
    lemma_scan_find_inverts(w, h, p);
}

} // verus!
