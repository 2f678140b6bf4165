//! Transform units: the coded block flags, the optional QP delta and the
//! residual of each component (regular or transform-skip coding), with the
//! matching decoder.
use vstd::prelude::*;
use crate::cabac::contexts::Contexts;
use crate::cabac::engine::{
    bits_prefix, ctx_after, d_ctx_bin, d_decode_bypass, m_bypass_seq, m_ctx_bin, m_encode_bypass, CabacDecoder, CabacEncoder,
    CtxModel, DecModel,
};
use crate::bitstream::{bits_value, low_bits};
use crate::cabac::engine::{d_bypass_bits, m_regs_ok, repeat_bit};
use crate::cabac::roundtrip::{
    contains, in_step, lemma_bypass, lemma_bypass_seq_first, lemma_bypass_seq_nests, lemma_contains_back,
    lemma_ctx_nests, lemma_dec_bypass, lemma_dec_bypass_bits, lemma_dec_ctx_bin, lemma_nests_compose,
    lemma_nests_refl, m_pre, nests,
};
use vstd::arithmetic::power2::{pow2, lemma2_to64, lemma_pow2_pos, lemma_pow2_unfold, lemma_pow2_strictly_increases};
use vstd::array::spec_array_update;
use crate::residual::code::{encode_residual, has_nonzero, residual_model, RState};
use crate::residual::ctx::{levels_ok, Component};
use crate::residual::decode::{decode_residual, residual_decode, DState};
use crate::residual::rem::{d_bypass_run, lemma_run_is_bits};
use crate::residual::scan::tb_side_ok;
use crate::residual::ts::{decode_residual_ts, encode_residual_ts, ts_residual_decode, ts_residual_model, ts_dec_max, ts_levels_ok, ts_size_ok, within};

verus! {

/// Which components a coding unit codes: both together (single tree), or
/// the luma or chroma pass of an intra dual tree.
#[derive(Clone, Copy, Debug, PartialEq, Eq)]
pub enum TreeType {
    Single,
    Luma,
    Chroma,
}

impl TreeType {
    /// Whether this tree codes luma (every tree but the chroma pass).
    pub fn codes_luma(self) -> (r: bool)
        ensures
            r == !(self is Chroma),
    {
        match self {
            TreeType::Chroma => false,
            _ => true,
        }
    }

    /// Whether this tree codes chroma (every tree but the luma pass).
    pub fn codes_chroma(self) -> (r: bool)
        ensures
            r == !(self is Luma),
    {
        match self {
            TreeType::Luma => false,
            _ => true,
        }
    }
}

/// One transform unit's level blocks (raster, stride = width): luma, and
/// `(cb, cr, cw, ch)` when chroma is present, with the coding choices.
pub struct TuCoeffs<'a> {
    pub luma: &'a [i32],
    pub lw: usize,
    pub lh: usize,
    pub chroma: Option<(&'a [i32], &'a [i32], usize, usize)>,
    /// Lossless: every component uses transform skip, and the levels are
    /// the raw residual.
    pub lossless: bool,
    /// Luma BDPCM: its transform-skip flag is inferred (not coded) and the
    /// transform-skip coder runs in its BDPCM variant.
    pub luma_bdpcm: bool,
    /// Chroma BDPCM (Cb and Cr); the chroma CBFs then use contexts 1 and 2.
    pub chroma_bdpcm: bool,
    /// Lossy transform skip for luma.
    pub luma_ts: bool,
    /// Lossy transform skip for chroma.
    pub chroma_ts: bool,
    /// The signed QP delta, coded here when this is the first unit of its
    /// quantization group with a coded block.
    pub code_dqp: Option<i32>,
    /// Dependent quantization for the transformed components.
    pub dep_quant: bool,
    /// Which components this unit codes.
    pub tree: TreeType,
}

/// Levels of one component of a decoded transform unit and the choices
/// read with them.
pub struct DecodedTu {
    pub luma: Vec<i32>,
    pub cb: Vec<i32>,
    pub cr: Vec<i32>,
    pub luma_ts: bool,
    pub cb_ts: bool,
    pub cr_ts: bool,
    /// The QP delta read in this unit, if any.
    pub dqp: Option<i32>,
}

/// Some entry of `c` is non-zero.
pub open spec fn nonzero_in(c: Seq<i32>) -> bool {
    exists|k: int| 0 <= k < c.len() && #[trigger] c[k] != 0
}

/// Transform skip exists only for blocks of at most 32 × 32.
pub open spec fn ts_allowed(w: int, h: int) -> bool {
    w <= 32 && h <= 32
}

/// Whether a component is coded with transform skip: always under BDPCM
/// (which implies it), otherwise when lossless or lossy transform skip is
/// asked for on a block small enough.
pub open spec fn uses_ts(w: int, h: int, lossless: bool, ts: bool, bdpcm: bool) -> bool {
    bdpcm || ((lossless || ts) && ts_allowed(w, h))
}

/// What coding one component needs: its coder's size and level range, a
/// lossless block small enough for transform skip, and for the regular
/// coder a non-zero level inside the coded region whenever there is one at
/// all.
pub open spec fn component_ok(c: Seq<i32>, w: int, h: int, lossless: bool, ts: bool, bdpcm: bool) -> bool {
    &&& (lossless ==> ts_allowed(w, h))
    &&& if uses_ts(w, h, lossless, ts, bdpcm) {
        ts_size_ok(w, h) && ts_levels_ok(c, w * h)
    } else {
        &&& tb_side_ok(w)
        &&& tb_side_ok(h)
        &&& levels_ok(c, w * h)
        &&& (nonzero_in(c) ==> has_nonzero(c, w, h))
    }
}

/// Whether a transform unit codes chroma.
pub open spec fn tu_codes_chroma(tu: TuCoeffs) -> bool {
    !(tu.tree is Luma) && tu.chroma is Some
}

/// The components a transform unit codes can be coded, and a QP delta is
/// only coded with a coded block.
pub open spec fn tu_ok(tu: TuCoeffs) -> bool {
    &&& (!(tu.tree is Chroma) ==> component_ok(tu.luma@, tu.lw as int, tu.lh as int, tu.lossless, tu.luma_ts, tu.luma_bdpcm))
    &&& (tu_codes_chroma(tu) ==> {
        let (cb, cr, cw, ch) = tu.chroma.unwrap();
        &&& component_ok(cb@, cw as int, ch as int, tu.lossless, tu.chroma_ts, tu.chroma_bdpcm)
        &&& component_ok(cr@, cw as int, ch as int, tu.lossless, tu.chroma_ts, tu.chroma_bdpcm)
    })
    &&& (tu.code_dqp is Some ==> {
        ||| (!(tu.tree is Chroma) && nonzero_in(tu.luma@))
        ||| (tu_codes_chroma(tu) && (nonzero_in(tu.chroma.unwrap().0@) || nonzero_in(tu.chroma.unwrap().1@)))
    })
}

/// Bound on the CABAC growth of one component (flag and residual).
pub open spec fn component_budget() -> int {
    0x10_0100
}

/// Bound on the CABAC growth of one transform unit.
pub open spec fn tu_budget() -> int {
    0x40_0000
}

/// Whether any level is non-zero.
pub fn any_nonzero(c: &[i32]) -> (r: bool)
    ensures
        r == nonzero_in(c@),
{
    let mut i: usize = 0;
    while i < c.len()
        invariant
            i <= c.len(),
            forall|k: int| 0 <= k < i ==> c@[k] == 0,
        decreases c.len() - i,
    {
        if c[i] != 0 {
            return true;
        }
        i += 1;
    }
    false
}

/// `s` after coding `b` with `cu_qp_delta_abs` context `i`.
pub open spec fn dqp_bin(s: RState, i: int, b: u8) -> RState {
    RState {
        m: m_ctx_bin(s.m, b, s.c.cu_qp_delta_abs[i]),
        c: Contexts { cu_qp_delta_abs: spec_array_update(s.c.cu_qp_delta_abs, i, ctx_after(s.c.cu_qp_delta_abs[i], b)), ..s.c },
    }
}

/// The first `n` ones of the QP-delta prefix (context 0 for the first bin,
/// 1 for the rest).
pub open spec fn dqp_ones(s: RState, n: nat) -> RState
    decreases n,
{
    if n == 0 {
        s
    } else {
        dqp_bin(dqp_ones(s, (n - 1) as nat), if n - 1 == 0 { 0 } else { 1 }, 1)
    }
}

/// Order-0 Exp-Golomb split of `symbol`: the number of prefix ones, the
/// prefix value `2^count − 1` and what is left for the suffix.
pub open spec fn eg0_split(symbol: int, pw: int, count: int, bins: int) -> (int, int, int)
    decreases symbol,
{
    if pw >= 1 && symbol >= pw {
        eg0_split(symbol - pw, 2 * pw, count + 1, 2 * bins + 1)
    } else {
        (count, bins, symbol)
    }
}

/// The bins of a QP delta: `|delta|` as a truncated unary prefix of at most
/// 5 context-coded bins, from 5 on `|delta| − 5` as a bypass order-0
/// Exp-Golomb code, then the sign when non-zero.
pub open spec fn dqp_model(s: RState, delta: i32) -> RState {
    let a = if delta < 0 { -(delta as int) } else { delta as int };
    let prefix = if a < 5 { a } else { 5 };
    let s1 = dqp_ones(s, prefix as nat);
    let s2 = if prefix < 5 { dqp_bin(s1, if prefix == 0 { 0 } else { 1 }, 0) } else { s1 };
    let s3 = if a >= 5 {
        let (count, bins, symbol) = eg0_split(a - 5, 1, 0, 0);
        RState {
            m: m_bypass_seq(m_bypass_seq(s2.m, low_bits((bins * 2) as u64, (count + 1) as nat)), low_bits(symbol as u64, count as nat)),
            ..s2
        }
    } else {
        s2
    };
    if a > 0 { RState { m: m_encode_bypass(s3.m, delta < 0), ..s3 } } else { s3 }
}

/// The bins of one component's residual: the transform-skip flag (MTS
/// context 4 for luma, 5 for chroma) unless BDPCM or above 32 × 32, then
/// the transform-skip or the regular residual.
pub open spec fn component_model(
    s: RState,
    coeff: Seq<i32>,
    w: int,
    h: int,
    luma: bool,
    lossless: bool,
    bdpcm: bool,
    ts: bool,
    dep_quant: bool,
) -> RState {
    let use_ts = uses_ts(w, h, lossless, ts, bdpcm);
    let i: int = if luma { 4 } else { 5 };
    let b: u8 = if use_ts { 1 } else { 0 };
    let s1 = if !bdpcm && ts_allowed(w, h) {
        RState {
            m: m_ctx_bin(s.m, b, s.c.mts_index[i]),
            c: Contexts { mts_index: spec_array_update(s.c.mts_index, i, ctx_after(s.c.mts_index[i], b)), ..s.c },
        }
    } else {
        s
    };
    let (m2, c2) = if use_ts {
        ts_residual_model(s1.m, s1.c, coeff, w, h, bdpcm)
    } else {
        residual_model(s1.m, s1.c, coeff, w, h, luma, dep_quant)
    };
    RState { m: m2, c: c2 }
}

/// Code one component's residual. Under BDPCM transform skip is inferred:
/// no flag, and the transform-skip coder runs. Otherwise the transform-skip
/// flag is coded for blocks of at most 32 × 32 (MTS context 4 for luma, 5
/// for chroma) and selects the transform-skip or the regular coder.
fn encode_component_residual(
    enc: &mut CabacEncoder,
    ctx: &mut Contexts,
    coeff: &[i32],
    w: usize,
    h: usize,
    comp: Component,
    lossless: bool,
    bdpcm: bool,
    ts: bool,
    dep_quant: bool,
)
    requires
        old(enc).wf(),
        old(enc).headroom() >= component_budget(),
        component_ok(coeff@, w as int, h as int, lossless, ts, bdpcm),
        nonzero_in(coeff@),
    ensures
        final(enc).wf(),
        bits_prefix(old(enc).model().bits, final(enc).model().bits),
        final(enc).model().outstanding <= old(enc).model().outstanding + component_budget(),
        (RState { m: final(enc).model(), c: *final(ctx) }) == component_model(
            RState { m: old(enc).model(), c: *old(ctx) },
            coeff@,
            w as int,
            h as int,
            comp == Component::Luma,
            lossless,
            bdpcm,
            ts,
            dep_quant,
        ),
{
    let ts_allowed = w <= 32 && h <= 32;
    let use_ts = bdpcm || ((lossless || ts) && ts_allowed);
    if !bdpcm && ts_allowed {
        let ctx_idx: usize = if comp.is_luma() { 4 } else { 5 };
        let ghost c0 = *ctx;
        let b: u8 = if use_ts { 1 } else { 0 };
        enc.encode_bin(b, &mut ctx.mts_index[ctx_idx]);
        assert(ctx.mts_index =~= spec_array_update(c0.mts_index, ctx_idx as int, ctx_after(c0.mts_index[ctx_idx as int], b)));
    }
    if use_ts {
        encode_residual_ts(enc, ctx, coeff, w, h, bdpcm);
    } else {
        encode_residual(enc, ctx, coeff, w, h, comp, dep_quant);
    }
}

/// Code a QP delta: `|delta|` as a truncated unary prefix of at most 5
/// context-coded bins (context 0 for the first, 1 for the rest), then, from
/// 5 on, `|delta| − 5` as a bypass order-0 Exp-Golomb code; then the sign
/// (bypass) when non-zero.
fn encode_cu_qp_delta(enc: &mut CabacEncoder, ctx: &mut Contexts, delta: i32)
    requires
        old(enc).wf(),
        old(enc).headroom() >= 128,
    ensures
        final(enc).wf(),
        bits_prefix(old(enc).model().bits, final(enc).model().bits),
        final(enc).model().outstanding <= old(enc).model().outstanding + 128,
        (RState { m: final(enc).model(), c: *final(ctx) }) == dqp_model(RState { m: old(enc).model(), c: *old(ctx) }, delta),
{
    let ghost s0 = RState { m: enc.model(), c: *ctx };
    let abs: u32 = if delta < 0 { (-(delta as i64)) as u32 } else { delta as u32 };
    let prefix: u32 = if abs < 5 { abs } else { 5 };
    let ghost o0 = enc.model().outstanding;
    let mut i: u32 = 0;
    while i < prefix
        invariant
            enc.wf(),
            bits_prefix(old(enc).model().bits, enc.model().bits),
            old(enc).headroom() >= 128,
            o0 == old(enc).model().outstanding,
            prefix <= 5,
            i <= prefix,
            enc.model().outstanding <= o0 + 8 * i,
            s0 == (RState { m: old(enc).model(), c: *old(ctx) }),
            (RState { m: enc.model(), c: *ctx }) == dqp_ones(s0, i as nat),
        decreases prefix - i,
    {
        let c: usize = if i == 0 { 0 } else { 1 };
        let ghost cb = *ctx;
        enc.encode_bin(1, &mut ctx.cu_qp_delta_abs[c]);
        assert(ctx.cu_qp_delta_abs =~= spec_array_update(cb.cu_qp_delta_abs, c as int, ctx_after(cb.cu_qp_delta_abs[c as int], 1)));
        i += 1;
    }
    if prefix < 5 {
        let c: usize = if prefix == 0 { 0 } else { 1 };
        let ghost cb = *ctx;
        enc.encode_bin(0, &mut ctx.cu_qp_delta_abs[c]);
        assert(ctx.cu_qp_delta_abs =~= spec_array_update(cb.cu_qp_delta_abs, c as int, ctx_after(cb.cu_qp_delta_abs[c as int], 0)));
    }
    if abs >= 5 {
        let ghost e0: int = abs - 5;
        let mut symbol: u32 = abs - 5;
        let mut count: u32 = 0;
        let mut pw: u32 = 1;
        let mut bins: u32 = 0;
        assert(abs <= 0x8000_0000);
        proof {
            vstd::arithmetic::power2::lemma2_to64();
        }
        while symbol >= pw
            invariant
                e0 <= 0x8000_0000 - 5,
                pw == vstd::arithmetic::power2::pow2(count as nat),
                bins + 1 == pw,
                symbol + bins == e0,
                count <= 30,
                eg0_split(symbol as int, pw as int, count as int, bins as int) == eg0_split(e0, 1, 0, 0),
            decreases symbol,
        {
            proof {
                vstd::arithmetic::power2::lemma_pow2_unfold((count + 1) as nat);
                vstd::arithmetic::power2::lemma2_to64();
            }
            bins = bins * 2 + 1;
            symbol = symbol - pw;
            pw = pw * 2;
            count += 1;
        }
        enc.encode_bypass_bits(bins * 2, count + 1);
        enc.encode_bypass_bits(symbol, count);
    }
    if abs > 0 {
        enc.encode_bypass(if delta < 0 { 1 } else { 0 });
    }
}

/// Coded-block-flag context `i` of component `comp` (0 luma, 1 Cb, 2 Cr).
pub open spec fn cbf_ctx(c: Contexts, comp: int, i: int) -> CtxModel {
    if comp == 0 { c.qt_cbf_luma[i] } else if comp == 1 { c.qt_cbf_cb[i] } else { c.qt_cbf_cr[i] }
}

/// The contexts after a bin `b` with coded-block-flag context `i` of
/// component `comp`.
pub open spec fn cbf_upd(c: Contexts, comp: int, i: int, b: u8) -> Contexts {
    let v = ctx_after(cbf_ctx(c, comp, i), b);
    if comp == 0 {
        Contexts { qt_cbf_luma: spec_array_update(c.qt_cbf_luma, i, v), ..c }
    } else if comp == 1 {
        Contexts { qt_cbf_cb: spec_array_update(c.qt_cbf_cb, i, v), ..c }
    } else {
        Contexts { qt_cbf_cr: spec_array_update(c.qt_cbf_cr, i, v), ..c }
    }
}

/// `s` after coding `b` with coded-block-flag context `i` of component
/// `comp` (0 luma, 1 Cb, 2 Cr).
pub open spec fn cbf_bin(s: RState, comp: int, i: int, b: u8) -> RState {
    RState { m: m_ctx_bin(s.m, b, cbf_ctx(s.c, comp, i)), c: cbf_upd(s.c, comp, i, b) }
}

/// The flags of a transform unit: Cb and Cr coded block flags when it codes
/// chroma (Cr's context is the Cb flag, or contexts 1 and 2 under BDPCM),
/// then the luma flag when it codes luma (context 1 under BDPCM), then the QP
/// delta when asked for. A flag is set when its component has a non-zero
/// level.
pub open spec fn tu_flags_model(s: RState, tu: TuCoeffs) -> RState {
    let code_luma = !(tu.tree is Chroma);
    let code_chroma = !(tu.tree is Luma) && tu.chroma is Some;
    let cbf_luma = code_luma && nonzero_in(tu.luma@);
    let cbf_cb = code_chroma && nonzero_in(tu.chroma.unwrap().0@);
    let cbf_cr = code_chroma && nonzero_in(tu.chroma.unwrap().1@);
    let s1 = if code_chroma {
        let t = cbf_bin(s, 1, if tu.chroma_bdpcm { 1 } else { 0 }, if cbf_cb { 1u8 } else { 0u8 });
        cbf_bin(t, 2, if tu.chroma_bdpcm { 2 } else if cbf_cb { 1 } else { 0 }, if cbf_cr { 1u8 } else { 0u8 })
    } else {
        s
    };
    let s2 = if code_luma {
        cbf_bin(s1, 0, if tu.luma_bdpcm { 1 } else { 0 }, if cbf_luma { 1u8 } else { 0u8 })
    } else {
        s1
    };
    match tu.code_dqp {
        Some(d) => dqp_model(s2, d),
        None => s2,
    }
}

/// All the bins of a transform unit: its flags, then the residual of each
/// component whose flag is set, luma, Cb, Cr.
pub open spec fn tu_model(s: RState, tu: TuCoeffs) -> RState {
    let code_luma = !(tu.tree is Chroma);
    let code_chroma = !(tu.tree is Luma) && tu.chroma is Some;
    let cbf_luma = code_luma && nonzero_in(tu.luma@);
    let (cb, cr, cw, ch) = tu.chroma.unwrap();
    let cbf_cb = code_chroma && nonzero_in(cb@);
    let cbf_cr = code_chroma && nonzero_in(cr@);
    let s3 = tu_flags_model(s, tu);
    let s4 = if cbf_luma {
        component_model(s3, tu.luma@, tu.lw as int, tu.lh as int, true, tu.lossless, tu.luma_bdpcm, tu.luma_ts, tu.dep_quant)
    } else {
        s3
    };
    let s5 = if cbf_cb {
        component_model(s4, cb@, cw as int, ch as int, false, tu.lossless, tu.chroma_bdpcm, tu.chroma_ts, tu.dep_quant)
    } else {
        s4
    };
    if cbf_cr {
        component_model(s5, cr@, cw as int, ch as int, false, tu.lossless, tu.chroma_bdpcm, tu.chroma_ts, tu.dep_quant)
    } else {
        s5
    }
}

/// Code one transform unit: the chroma CBFs (Cb, then Cr whose context is
/// the Cb flag, or contexts 1 and 2 under BDPCM), the luma CBF (context 1
/// under BDPCM), the QP delta when asked for, then the residual of each
/// component whose CBF is set. A CBF is set when the component has a
/// non-zero level.
/// Code the flags of a transform unit (see [`tu_flags_model`]) and return
/// the luma, Cb and Cr coded block flags.
#[verifier::rlimit(60)]
fn encode_tu_flags(enc: &mut CabacEncoder, ctx: &mut Contexts, tu: &TuCoeffs) -> (r: (bool, bool, bool))
    requires
        old(enc).wf(),
        old(enc).headroom() >= tu_budget(),
    ensures
        final(enc).wf(),
        bits_prefix(old(enc).model().bits, final(enc).model().bits),
        final(enc).model().outstanding <= old(enc).model().outstanding + 24 + 128,
        (RState { m: final(enc).model(), c: *final(ctx) }) == tu_flags_model(RState { m: old(enc).model(), c: *old(ctx) }, *tu),
        r.0 == (!(tu.tree is Chroma) && nonzero_in(tu.luma@)),
        r.1 == (!(tu.tree is Luma) && tu.chroma is Some && nonzero_in(tu.chroma.unwrap().0@)),
        r.2 == (!(tu.tree is Luma) && tu.chroma is Some && nonzero_in(tu.chroma.unwrap().1@)),
{
    let ghost s0 = RState { m: enc.model(), c: *ctx };
    let code_luma = tu.tree.codes_luma();
    let code_chroma = tu.tree.codes_chroma() && tu.chroma.is_some();
    let cbf_luma = code_luma && any_nonzero(tu.luma);
    let (cbf_cb, cbf_cr) = match tu.chroma {
        Some((cb, cr, _, _)) => {
            if code_chroma {
                (any_nonzero(cb), any_nonzero(cr))
            } else {
                (false, false)
            }
        },
        None => (false, false),
    };
    if code_chroma {
        let cb_ctx: usize = if tu.chroma_bdpcm { 1 } else { 0 };
        let b1: u8 = if cbf_cb { 1 } else { 0 };
        let ghost cb0 = *ctx;
        enc.encode_bin(b1, &mut ctx.qt_cbf_cb[cb_ctx]);
        assert(ctx.qt_cbf_cb =~= spec_array_update(cb0.qt_cbf_cb, cb_ctx as int, ctx_after(cb0.qt_cbf_cb[cb_ctx as int], b1)));
        let cr_ctx: usize = if tu.chroma_bdpcm { 2 } else if cbf_cb { 1 } else { 0 };
        let b2: u8 = if cbf_cr { 1 } else { 0 };
        let ghost cb1 = *ctx;
        enc.encode_bin(b2, &mut ctx.qt_cbf_cr[cr_ctx]);
        assert(ctx.qt_cbf_cr =~= spec_array_update(cb1.qt_cbf_cr, cr_ctx as int, ctx_after(cb1.qt_cbf_cr[cr_ctx as int], b2)));
    }
    if code_luma {
        let luma_cbf_ctx: usize = if tu.luma_bdpcm { 1 } else { 0 };
        let b3: u8 = if cbf_luma { 1 } else { 0 };
        let ghost cb2 = *ctx;
        enc.encode_bin(b3, &mut ctx.qt_cbf_luma[luma_cbf_ctx]);
        assert(ctx.qt_cbf_luma =~= spec_array_update(cb2.qt_cbf_luma, luma_cbf_ctx as int, ctx_after(cb2.qt_cbf_luma[luma_cbf_ctx as int], b3)));
    }
    if let Some(delta) = tu.code_dqp {
        encode_cu_qp_delta(enc, ctx, delta);
    }
    (cbf_luma, cbf_cb, cbf_cr)
}

#[verifier::rlimit(100)]
pub fn encode_transform_unit(enc: &mut CabacEncoder, ctx: &mut Contexts, tu: &TuCoeffs)
    requires
        old(enc).wf(),
        old(enc).headroom() >= tu_budget(),
        tu_ok(*tu),
    ensures
        final(enc).wf(),
        bits_prefix(old(enc).model().bits, final(enc).model().bits),
        final(enc).model().outstanding <= old(enc).model().outstanding + tu_budget(),
        (RState { m: final(enc).model(), c: *final(ctx) }) == tu_model(RState { m: old(enc).model(), c: *old(ctx) }, *tu),
{
    let ghost o0 = enc.model().outstanding;
    let code_chroma = tu.tree.codes_chroma() && tu.chroma.is_some();
    let (cbf_luma, cbf_cb, cbf_cr) = encode_tu_flags(enc, ctx, tu);
    assert(enc.model().outstanding <= o0 + 24 + 128);
    if cbf_luma {
        encode_component_residual(
            enc,
            ctx,
            tu.luma,
            tu.lw,
            tu.lh,
            Component::Luma,
            tu.lossless,
            tu.luma_bdpcm,
            tu.luma_ts,
            tu.dep_quant,
        );
    }
    assert(enc.model().outstanding <= o0 + 24 + 128 + component_budget());
    if code_chroma {
        if let Some((cb, cr, cw, ch)) = tu.chroma {
            if cbf_cb {
                encode_component_residual(
                    enc,
                    ctx,
                    cb,
                    cw,
                    ch,
                    Component::Cb,
                    tu.lossless,
                    tu.chroma_bdpcm,
                    tu.chroma_ts,
                    tu.dep_quant,
                );
            }
            assert(enc.model().outstanding <= o0 + 24 + 128 + 2 * component_budget());
            if cbf_cr {
                encode_component_residual(
                    enc,
                    ctx,
                    cr,
                    cw,
                    ch,
                    Component::Cr,
                    tu.lossless,
                    tu.chroma_bdpcm,
                    tu.chroma_ts,
                    tu.dep_quant,
                );
            }
        }
    }
}

/// Code the transform tree of a leaf coding unit: the coding unit is its
/// own transform unit, so this is that unit.
pub fn encode_transform_tree(enc: &mut CabacEncoder, ctx: &mut Contexts, tu: &TuCoeffs)
    requires
        old(enc).wf(),
        old(enc).headroom() >= tu_budget(),
        tu_ok(*tu),
    ensures
        final(enc).wf(),
        bits_prefix(old(enc).model().bits, final(enc).model().bits),
        final(enc).model().outstanding <= old(enc).model().outstanding + tu_budget(),
        (RState { m: final(enc).model(), c: *final(ctx) }) == tu_model(RState { m: old(enc).model(), c: *old(ctx) }, *tu),
{
    encode_transform_unit(enc, ctx, tu);
}

/// What a decoded transform unit holds: a level block per coded
/// component (all zero for an uncoded luma), none for chroma that is absent
/// or not coded, levels in range, and transform skip only where it exists.
pub open spec fn decoded_tu_ok(
    r: DecodedTu,
    lw: int,
    lh: int,
    chroma: Option<(usize, usize)>,
    chroma_coded: bool,
    luma_bdpcm: bool,
    chroma_bdpcm: bool,
) -> bool {
    &&& r.luma.len() == lw * lh
    &&& levels_ok(r.luma@, lw * lh)
    &&& (r.luma_ts ==> luma_bdpcm || ts_allowed(lw, lh))
    &&& if chroma_coded && chroma is Some {
        let (cw, ch) = chroma.unwrap();
        &&& r.cb.len() == cw * ch
        &&& r.cr.len() == cw * ch
        &&& levels_ok(r.cb@, cw * ch)
        &&& levels_ok(r.cr@, cw * ch)
        &&& (r.cb_ts ==> chroma_bdpcm || ts_allowed(cw as int, ch as int))
        &&& (r.cr_ts ==> chroma_bdpcm || ts_allowed(cw as int, ch as int))
    } else {
        r.cb.len() == 0 && r.cr.len() == 0 && !r.cb_ts && !r.cr_ts
    }
}

/// The block sizes a transform unit decoder accepts.
pub open spec fn tu_sizes_ok(lw: int, lh: int, chroma: Option<(usize, usize)>) -> bool {
    &&& tb_side_ok(lw)
    &&& tb_side_ok(lh)
    &&& (chroma is Some ==> tb_side_ok(chroma.unwrap().0 as int) && tb_side_ok(chroma.unwrap().1 as int))
}

/// Read a coded block flag with context `i` of component `comp`.
pub open spec fn d_cbf(data: Seq<u8>, s: DState, comp: int, i: int) -> (DState, u8) {
    let (m1, b) = d_ctx_bin(data, s.m, cbf_ctx(s.c, comp, i));
    (DState { m: m1, c: cbf_upd(s.c, comp, i, b) }, b)
}

/// Read a bin with `cu_qp_delta_abs` context `i`.
pub open spec fn d_dqp_bin(data: Seq<u8>, s: DState, i: int) -> (DState, u8) {
    let (m1, b) = d_ctx_bin(data, s.m, s.c.cu_qp_delta_abs[i]);
    (DState { m: m1, c: Contexts { cu_qp_delta_abs: spec_array_update(s.c.cu_qp_delta_abs, i, ctx_after(s.c.cu_qp_delta_abs[i], b)), ..s.c } }, b)
}

/// The QP-delta prefix from `ones` on: ones (context 0 for the first bin, 1
/// for the rest) until a zero or five.
pub open spec fn d_dqp_prefix(data: Seq<u8>, s: DState, ones: int) -> (DState, int)
    decreases 5 - ones,
{
    if ones >= 5 || ones < 0 {
        (s, ones)
    } else {
        let (s1, b) = d_dqp_bin(data, s, if ones == 0 { 0 } else { 1 });
        if b == 1 { d_dqp_prefix(data, s1, ones + 1) } else { (s1, ones) }
    }
}

/// The Exp-Golomb prefix of a QP delta from `count` on: bypass bins, each
/// set bin adding `pw` and doubling it, until a zero bin or 32 bins; returns
/// the decoder, the number of bins read and the sum.
pub open spec fn d_eg_prefix(data: Seq<u8>, m: DecModel, count: int, pw: int, symbol: int) -> (DecModel, int, int)
    decreases 32 - count,
{
    if count >= 32 || count < 0 {
        (m, count, symbol)
    } else {
        let (m1, b) = d_decode_bypass(data, m);
        if b == 1 {
            d_eg_prefix(data, m1, count + 1, 2 * pw, symbol + pw)
        } else {
            (m1, count + 1, symbol)
        }
    }
}

/// A QP delta: the truncated unary prefix; from 5 on an Exp-Golomb
/// remainder (prefix bins, then one fewer suffix bits); then the sign when
/// non-zero. The value saturates to the `i32` range.
pub open spec fn d_dqp(data: Seq<u8>, s: DState) -> (DState, i32) {
    let (s1, ones) = d_dqp_prefix(data, s, 0);
    let (m2, a) = if ones >= 5 {
        let (m3, count, symbol) = d_eg_prefix(data, s1.m, 0, 1, 0);
        let (m4, suffix) = d_bypass_run(data, m3, (count - 1) as nat);
        (m4, ones + symbol + suffix)
    } else {
        (s1.m, ones)
    };
    if a == 0 {
        (DState { m: m2, c: s1.c }, 0i32)
    } else {
        let (m5, neg) = d_decode_bypass(data, m2);
        (DState { m: m5, c: s1.c }, if neg == 1 {
            if a >= 0x8000_0000 { i32::MIN } else { (-a) as i32 }
        } else {
            if a > 0x7fff_ffff { i32::MAX } else { a as i32 }
        })
    }
}

/// One component's levels as read: the transform-skip flag (inferred under
/// BDPCM, absent above 32 × 32), then the transform-skip or the regular
/// decoder. Returns the decoder, the levels and whether transform skip was
/// used.
pub open spec fn d_comp(data: Seq<u8>, s: DState, w: int, h: int, luma: bool, bdpcm: bool, dep_quant: bool) -> (DState, Seq<i32>, bool) {
    let i: int = if luma { 4 } else { 5 };
    let (s1, ts) = if bdpcm {
        (s, true)
    } else if w <= 32 && h <= 32 {
        let (m1, b) = d_ctx_bin(data, s.m, s.c.mts_index[i]);
        (DState { m: m1, c: Contexts { mts_index: spec_array_update(s.c.mts_index, i, ctx_after(s.c.mts_index[i], b)), ..s.c } }, b == 1)
    } else {
        (s, false)
    };
    if ts {
        let (m2, c2, lv) = ts_residual_decode(data, s1.m, s1.c, w, h, bdpcm);
        (DState { m: m2, c: c2 }, lv, true)
    } else {
        let (m2, c2, lv) = residual_decode(data, s1.m, s1.c, w, h, luma, dep_quant);
        (DState { m: m2, c: c2 }, lv, false)
    }
}

/// One component's levels when its flag is set, else `n` zeros.
pub open spec fn d_comp_if(data: Seq<u8>, s: DState, cbf: bool, w: int, h: int, luma: bool, bdpcm: bool, dep_quant: bool) -> (DState, Seq<i32>, bool) {
    if cbf {
        d_comp(data, s, w, h, luma, bdpcm, dep_quant)
    } else {
        (s, Seq::new((w * h) as nat, |k: int| 0i32), false)
    }
}

/// What a transform unit decodes to: the decoder, luma, Cb, Cr levels,
/// their transform-skip flags, and the QP delta.
pub struct TuRead {
    pub s: DState,
    pub luma: Seq<i32>,
    pub cb: Seq<i32>,
    pub cr: Seq<i32>,
    pub luma_ts: bool,
    pub cb_ts: bool,
    pub cr_ts: bool,
    pub dqp: Option<i32>,
}

/// A transform unit as read: the Cb and Cr flags when chroma is coded (Cr's
/// context is the Cb flag, or contexts 1 and 2 under BDPCM), the luma flag
/// when luma is coded (context 1 under BDPCM), the QP delta when asked for
/// and some flag is set, then the levels of each coded component (zeros
/// when its flag is 0; no chroma levels when chroma is absent or not coded).
pub open spec fn d_tu(
    data: Seq<u8>,
    s: DState,
    lw: int,
    lh: int,
    chroma: Option<(usize, usize)>,
    code_luma: bool,
    code_chroma: bool,
    luma_bdpcm: bool,
    chroma_bdpcm: bool,
    dep_quant: bool,
    read_dqp: bool,
) -> TuRead {
    let cc = code_chroma && chroma is Some;
    let (s1, b_cb, b_cr) = if cc {
        let (t1, x) = d_cbf(data, s, 1, if chroma_bdpcm { 1 } else { 0 });
        let (t2, y) = d_cbf(data, t1, 2, if chroma_bdpcm { 2 } else if x == 1 { 1 } else { 0 });
        (t2, x == 1, y == 1)
    } else {
        (s, false, false)
    };
    let (s2, b_l) = if code_luma {
        let (t3, z) = d_cbf(data, s1, 0, if luma_bdpcm { 1 } else { 0 });
        (t3, z == 1)
    } else {
        (s1, false)
    };
    let (s3, dqp) = if read_dqp && (b_l || b_cb || b_cr) {
        let (t4, d) = d_dqp(data, s2);
        (t4, Some(d))
    } else {
        (s2, None)
    };
    let (s4, luma, luma_ts) = d_comp_if(data, s3, b_l, lw, lh, true, luma_bdpcm, dep_quant);
    if cc {
        let (cw, ch) = chroma.unwrap();
        let (s5, cb, cb_ts) = d_comp_if(data, s4, b_cb, cw as int, ch as int, false, chroma_bdpcm, dep_quant);
        let (s6, cr, cr_ts) = d_comp_if(data, s5, b_cr, cw as int, ch as int, false, chroma_bdpcm, dep_quant);
        TuRead { s: s6, luma, cb, cr, luma_ts, cb_ts, cr_ts, dqp }
    } else {
        TuRead { s: s4, luma, cb: Seq::empty(), cr: Seq::empty(), luma_ts, cb_ts: false, cr_ts: false, dqp }
    }
}

/// Read the transform-skip flag of a block that is not BDPCM (MTS context 4
/// for luma, 5 for chroma).
fn read_ts_flag(dec: &mut CabacDecoder, ctx: &mut Contexts, luma: bool) -> (r: bool)
    requires
        old(dec).wf(),
        old(dec).headroom() >= 8,
    ensures
        final(dec).wf(),
        final(dec).data() == old(dec).data(),
        old(dec).model().pos <= final(dec).model().pos <= old(dec).model().pos + 8,
        ({
            let i: int = if luma { 4 } else { 5 };
            let (m1, b) = d_ctx_bin(old(dec).data(), old(dec).model(), old(ctx).mts_index[i]);
            &&& final(dec).model() == m1
            &&& *final(ctx) == Contexts { mts_index: spec_array_update(old(ctx).mts_index, i, ctx_after(old(ctx).mts_index[i], b)), ..*old(ctx) }
            &&& r == (b == 1)
        }),
{
    let i: usize = if luma { 4 } else { 5 };
    let ghost c0 = *ctx;
    let b = dec.decode_bin(&mut ctx.mts_index[i]);
    assert(ctx.mts_index =~= spec_array_update(c0.mts_index, i as int, ctx_after(c0.mts_index[i as int], b)));
    b == 1
}

/// All-zero levels of a `n`-entry block.
fn zero_block(n: usize) -> (r: Vec<i32>)
    ensures
        r.len() == n,
        forall|k: int| 0 <= k < n ==> r@[k] == 0,
        levels_ok(r@, n as int),
{
    vec![0i32; n]
}

/// Decode one component's levels: its transform-skip flag (inferred under
/// BDPCM, absent above 32 × 32), then the transform-skip or the regular
/// decoder.
fn decode_comp_full(
    dec: &mut CabacDecoder,
    ctx: &mut Contexts,
    w: usize,
    h: usize,
    comp: Component,
    bdpcm: bool,
    dep_quant: bool,
) -> (r: (Vec<i32>, bool))
    requires
        old(dec).wf(),
        old(dec).headroom() >= component_budget(),
        tb_side_ok(w as int),
        tb_side_ok(h as int),
    ensures
        final(dec).wf(),
        final(dec).data() == old(dec).data(),
        old(dec).model().pos <= final(dec).model().pos <= old(dec).model().pos + component_budget(),
        r.0.len() == w * h,
        levels_ok(r.0@, w * h),
        bdpcm ==> r.1,
        r.1 && !bdpcm ==> ts_allowed(w as int, h as int),
        (DState { m: final(dec).model(), c: *final(ctx) }, r.0@, r.1) == d_comp(
            old(dec).data(),
            DState { m: old(dec).model(), c: *old(ctx) },
            w as int,
            h as int,
            comp == Component::Luma,
            bdpcm,
            dep_quant,
        ),
{
    let ts = if bdpcm {
        true
    } else if w <= 32 && h <= 32 {
        read_ts_flag(dec, ctx, comp.is_luma())
    } else {
        false
    };
    if ts {
        let levels = decode_residual_ts(dec, ctx, w, h, bdpcm);
        assert(levels_ok(levels@, w * h)) by {
            assert(within(levels@, ts_dec_max()));
            assert(forall|k: int| 0 <= k < w * h ==> -ts_dec_max() <= #[trigger] levels@[k] <= ts_dec_max());
        }
        (levels, true)
    } else {
        (decode_residual(dec, ctx, w, h, comp, dep_quant), false)
    }
}

/// Decode a QP delta (see `encode_cu_qp_delta`). An Exp-Golomb prefix is
/// read for at most 32 bins, and a magnitude beyond what an `i32` delta
/// has saturates; neither occurs in what the encoder writes.
fn decode_cu_qp_delta(dec: &mut CabacDecoder, ctx: &mut Contexts) -> (r: i32)
    requires
        old(dec).wf(),
        old(dec).headroom() >= 256,
    ensures
        final(dec).wf(),
        final(dec).data() == old(dec).data(),
        old(dec).model().pos <= final(dec).model().pos <= old(dec).model().pos + 128,
        (DState { m: final(dec).model(), c: *final(ctx) }, r) == d_dqp(old(dec).data(), DState { m: old(dec).model(), c: *old(ctx) }),
{
    let ghost p0 = dec.model().pos;
    let ghost s0 = DState { m: dec.model(), c: *ctx };
    let mut ones: u32 = 0;
    let mut stop = false;
    while !stop && ones < 5
        invariant
            dec.wf(),
            dec.data() == old(dec).data(),
            old(dec).headroom() >= 256,
            p0 == old(dec).model().pos,
            ones <= 5,
            p0 <= dec.model().pos <= p0 + 8 * ones + (if stop { 8int } else { 0 }),
            s0 == (DState { m: old(dec).model(), c: *old(ctx) }),
            (if stop {
                (DState { m: dec.model(), c: *ctx }, ones as int)
            } else {
                d_dqp_prefix(dec.data(), DState { m: dec.model(), c: *ctx }, ones as int)
            }) == d_dqp_prefix(dec.data(), s0, 0),
        decreases 5 - ones + (if stop { 0int } else { 1 }),
    {
        let c: usize = if ones == 0 { 0 } else { 1 };
        let ghost cb = *ctx;
        let bb = dec.decode_bin(&mut ctx.cu_qp_delta_abs[c]);
        assert(ctx.cu_qp_delta_abs =~= spec_array_update(cb.cu_qp_delta_abs, c as int, ctx_after(cb.cu_qp_delta_abs[c as int], bb)));
        if bb == 1 {
            ones += 1;
        } else {
            stop = true;
        }
    }
    let ghost s1 = DState { m: dec.model(), c: *ctx };
    let mut abs: u64 = ones as u64;
    if ones >= 5 {
        let ghost p1 = dec.model().pos;
        let ghost m1 = dec.model();
        let mut symbol: u64 = 0;
        let mut count: u32 = 0;
        let mut pw: u64 = 1;
        let mut bit: u8 = 1;
        proof {
            vstd::arithmetic::power2::lemma2_to64();
        }
        while bit != 0 && count < 32
            invariant
                dec.wf(),
                dec.data() == old(dec).data(),
                old(dec).headroom() >= 256,
                p0 == old(dec).model().pos,
                p0 <= p1 <= p0 + 48,
                dec.model().pos == p1 + count,
                count <= 32,
                pw == vstd::arithmetic::power2::pow2(count as nat),
                symbol < pw,
                count == 0 ==> bit == 1,
                (if bit != 0 {
                    d_eg_prefix(dec.data(), dec.model(), count as int, pw as int, symbol as int)
                } else {
                    (dec.model(), count as int, symbol as int)
                }) == d_eg_prefix(dec.data(), m1, 0, 1, 0),
            decreases 32 - count,
        {
            proof {
                vstd::arithmetic::power2::lemma_pow2_unfold((count + 1) as nat);
                vstd::arithmetic::power2::lemma2_to64();
                vstd::arithmetic::power2::lemma_pow2_adds(count as nat, 1);
                if count < 32 {
                    vstd::arithmetic::power2::lemma_pow2_strictly_increases(count as nat, 32);
                }
            }
            bit = dec.decode_bypass();
            if bit == 1 {
                symbol = symbol + pw;
            }
            pw = pw * 2;
            count += 1;
        }
        count -= 1;
        let ghost p2 = dec.model().pos;
        let ghost m3 = dec.model();
        let mut suffix: u64 = 0;
        let mut i: u32 = 0;
        proof {
            vstd::arithmetic::power2::lemma2_to64();
        }
        while i < count
            invariant
                dec.wf(),
                dec.data() == old(dec).data(),
                old(dec).headroom() >= 256,
                p0 == old(dec).model().pos,
                p0 <= p2 <= p0 + 48 + 32,
                dec.model().pos == p2 + i,
                count <= 31,
                i <= count,
                suffix < vstd::arithmetic::power2::pow2(i as nat),
                (dec.model(), suffix as int) == d_bypass_run(dec.data(), m3, i as nat),
            decreases count - i,
        {
            proof {
                vstd::arithmetic::power2::lemma_pow2_unfold((i + 1) as nat);
                vstd::arithmetic::power2::lemma2_to64();
                vstd::arithmetic::power2::lemma_pow2_strictly_increases(i as nat, 32);
            }
            let b = dec.decode_bypass();
            suffix = suffix * 2 + b as u64;
            i += 1;
        }
        proof {
            vstd::arithmetic::power2::lemma2_to64();
            vstd::arithmetic::power2::lemma_pow2_strictly_increases(count as nat, 32);
        }
        abs = abs + symbol + suffix;
    }
    assert(s1.c == *ctx);
    if abs == 0 {
        return 0;
    }
    let neg = dec.decode_bypass() == 1;
    if neg {
        if abs >= 0x8000_0000 {
            i32::MIN
        } else {
            -(abs as i32)
        }
    } else {
        if abs > 0x7fff_ffff {
            i32::MAX
        } else {
            abs as i32
        }
    }
}

/// The luma levels of a transform unit: decoded when its CBF is set, else
/// all zero.
fn decode_luma_levels(
    dec: &mut CabacDecoder,
    ctx: &mut Contexts,
    lw: usize,
    lh: usize,
    cbf: bool,
    bdpcm: bool,
    dep_quant: bool,
) -> (r: (Vec<i32>, bool))
    requires
        old(dec).wf(),
        old(dec).headroom() >= component_budget(),
        tb_side_ok(lw as int),
        tb_side_ok(lh as int),
    ensures
        final(dec).wf(),
        final(dec).data() == old(dec).data(),
        old(dec).model().pos <= final(dec).model().pos <= old(dec).model().pos + component_budget(),
        r.0.len() == lw * lh,
        levels_ok(r.0@, lw * lh),
        r.1 ==> bdpcm || ts_allowed(lw as int, lh as int),
        !cbf ==> !r.1 && forall|k: int| 0 <= k < lw * lh ==> r.0@[k] == 0,
        (DState { m: final(dec).model(), c: *final(ctx) }, r.0@, r.1) == d_comp_if(
            old(dec).data(),
            DState { m: old(dec).model(), c: *old(ctx) },
            cbf,
            lw as int,
            lh as int,
            true,
            bdpcm,
            dep_quant,
        ),
{
    proof {
        assert(lw * lh <= 4096) by (nonlinear_arith)
            requires
                lw <= 64,
                lh <= 64,
        ;
    }
    if cbf {
        decode_comp_full(dec, ctx, lw, lh, Component::Luma, bdpcm, dep_quant)
    } else {
        let z = zero_block(lw * lh);
        assert(z@ =~= Seq::new((lw * lh) as nat, |k: int| 0i32));
        (z, false)
    }
}

/// The Cb and Cr levels of a transform unit, each decoded when its CBF is
/// set, else all zero.
fn decode_chroma_levels(
    dec: &mut CabacDecoder,
    ctx: &mut Contexts,
    cw: usize,
    ch: usize,
    cbf_cb: bool,
    cbf_cr: bool,
    bdpcm: bool,
    dep_quant: bool,
) -> (r: (Vec<i32>, Vec<i32>, bool, bool))
    requires
        old(dec).wf(),
        old(dec).headroom() >= 2 * component_budget(),
        tb_side_ok(cw as int),
        tb_side_ok(ch as int),
    ensures
        final(dec).wf(),
        final(dec).data() == old(dec).data(),
        old(dec).model().pos <= final(dec).model().pos <= old(dec).model().pos + 2 * component_budget(),
        r.0.len() == cw * ch,
        r.1.len() == cw * ch,
        levels_ok(r.0@, cw * ch),
        levels_ok(r.1@, cw * ch),
        r.2 ==> bdpcm || ts_allowed(cw as int, ch as int),
        r.3 ==> bdpcm || ts_allowed(cw as int, ch as int),
        ({
            let (s5, cb, cb_ts) = d_comp_if(old(dec).data(), DState { m: old(dec).model(), c: *old(ctx) }, cbf_cb, cw as int, ch as int, false, bdpcm, dep_quant);
            let (s6, cr, cr_ts) = d_comp_if(old(dec).data(), s5, cbf_cr, cw as int, ch as int, false, bdpcm, dep_quant);
            &&& (DState { m: final(dec).model(), c: *final(ctx) }) == s6
            &&& r.0@ == cb
            &&& r.1@ == cr
            &&& r.2 == cb_ts
            &&& r.3 == cr_ts
        }),
{
    proof {
        assert(cw * ch <= 4096) by (nonlinear_arith)
            requires
                cw <= 64,
                ch <= 64,
        ;
    }
    let (cb, cb_ts) = if cbf_cb {
        decode_comp_full(dec, ctx, cw, ch, Component::Cb, bdpcm, dep_quant)
    } else {
        let z = zero_block(cw * ch);
        assert(z@ =~= Seq::new((cw * ch) as nat, |k: int| 0i32));
        (z, false)
    };
    let (cr, cr_ts) = if cbf_cr {
        decode_comp_full(dec, ctx, cw, ch, Component::Cr, bdpcm, dep_quant)
    } else {
        let z = zero_block(cw * ch);
        assert(z@ =~= Seq::new((cw * ch) as nat, |k: int| 0i32));
        (z, false)
    };
    (cb, cr, cb_ts, cr_ts)
}

/// Decode a transform unit of a single tree without BDPCM, dependent
/// quantization or QP delta.
pub fn decode_transform_unit(
    dec: &mut CabacDecoder,
    ctx: &mut Contexts,
    lw: usize,
    lh: usize,
    chroma: Option<(usize, usize)>,
) -> (r: DecodedTu)
    requires
        old(dec).wf(),
        old(dec).headroom() >= tu_budget(),
        tu_sizes_ok(lw as int, lh as int, chroma),
    ensures
        final(dec).wf(),
        final(dec).data() == old(dec).data(),
        old(dec).model().pos <= final(dec).model().pos <= old(dec).model().pos + tu_budget(),
        decoded_tu_ok(r, lw as int, lh as int, chroma, true, false, false),
        r.dqp is None,
        ({
            let t = d_tu(
                old(dec).data(),
                DState { m: old(dec).model(), c: *old(ctx) },
                lw as int,
                lh as int,
                chroma,
                true,
                true,
                false,
                false,
                false,
                false,
            );
            &&& (DState { m: final(dec).model(), c: *final(ctx) }) == t.s
            &&& r.luma@ == t.luma
            &&& r.cb@ == t.cb
            &&& r.cr@ == t.cr
            &&& r.luma_ts == t.luma_ts
            &&& r.cb_ts == t.cb_ts
            &&& r.cr_ts == t.cr_ts
        }),
{
    decode_transform_unit_tree(dec, ctx, lw, lh, chroma, TreeType::Single, false, false)
}

/// Decode a transform unit of the given tree: the chroma CBFs when it codes
/// chroma, the luma CBF when it codes luma, the QP delta when asked for and
/// some CBF is set, then the levels of each coded component (all zero when
/// its CBF is 0).
#[verifier::rlimit(100)]
pub fn decode_transform_unit_tree(
    dec: &mut CabacDecoder,
    ctx: &mut Contexts,
    lw: usize,
    lh: usize,
    chroma: Option<(usize, usize)>,
    tree: TreeType,
    dep_quant: bool,
    read_dqp: bool,
) -> (r: DecodedTu)
    requires
        old(dec).wf(),
        old(dec).headroom() >= tu_budget(),
        tu_sizes_ok(lw as int, lh as int, chroma),
    ensures
        final(dec).wf(),
        final(dec).data() == old(dec).data(),
        old(dec).model().pos <= final(dec).model().pos <= old(dec).model().pos + tu_budget(),
        decoded_tu_ok(r, lw as int, lh as int, chroma, !(tree is Luma), false, false),
        tree is Chroma ==> !r.luma_ts && forall|k: int| 0 <= k < lw * lh ==> r.luma@[k] == 0,
        !read_dqp ==> r.dqp is None,
        ({
            let t = d_tu(
                old(dec).data(),
                DState { m: old(dec).model(), c: *old(ctx) },
                lw as int,
                lh as int,
                chroma,
                !(tree is Chroma),
                !(tree is Luma),
                false,
                false,
                dep_quant,
                read_dqp,
            );
            &&& (DState { m: final(dec).model(), c: *final(ctx) }) == t.s
            &&& r.luma@ == t.luma
            &&& r.cb@ == t.cb
            &&& r.cr@ == t.cr
            &&& r.luma_ts == t.luma_ts
            &&& r.cb_ts == t.cb_ts
            &&& r.cr_ts == t.cr_ts
            &&& r.dqp == t.dqp
        }),
{
    let code_luma = tree.codes_luma();
    let code_chroma = tree.codes_chroma() && chroma.is_some();
    let ghost p0 = dec.model().pos;
    let (cbf_cb, cbf_cr) = if code_chroma {
        let ghost c0 = *ctx;
        let bb = dec.decode_bin(&mut ctx.qt_cbf_cb[0]);
        assert(ctx.qt_cbf_cb =~= spec_array_update(c0.qt_cbf_cb, 0, ctx_after(c0.qt_cbf_cb[0], bb)));
        let b = bb == 1;
        let ci: usize = if b { 1 } else { 0 };
        let ghost c1 = *ctx;
        let rr = dec.decode_bin(&mut ctx.qt_cbf_cr[ci]);
        assert(ctx.qt_cbf_cr =~= spec_array_update(c1.qt_cbf_cr, ci as int, ctx_after(c1.qt_cbf_cr[ci as int], rr)));
        (b, rr == 1)
    } else {
        (false, false)
    };
    let cbf_luma = if code_luma {
        let ghost c2 = *ctx;
        let lb = dec.decode_bin(&mut ctx.qt_cbf_luma[0]);
        assert(ctx.qt_cbf_luma =~= spec_array_update(c2.qt_cbf_luma, 0, ctx_after(c2.qt_cbf_luma[0], lb)));
        lb == 1
    } else {
        false
    };
    let dqp = if read_dqp && (cbf_luma || cbf_cb || cbf_cr) {
        Some(decode_cu_qp_delta(dec, ctx))
    } else {
        None
    };
    assert(dec.model().pos <= p0 + 24 + 128);
    let (luma, luma_ts) = decode_luma_levels(dec, ctx, lw, lh, cbf_luma, false, dep_quant);
    let (cb, cr, cb_ts, cr_ts) = match chroma {
        Some((cw, ch)) => {
            if code_chroma {
                decode_chroma_levels(dec, ctx, cw, ch, cbf_cb, cbf_cr, false, dep_quant)
            } else {
                (Vec::new(), Vec::new(), false, false)
            }
        },
        None => (Vec::new(), Vec::new(), false, false),
    };
    DecodedTu { luma, cb, cr, luma_ts, cb_ts, cr_ts, dqp }
}

/// Decode a transform unit of a single tree with BDPCM: the CBFs (with the
/// BDPCM contexts), the QP delta when asked for and some CBF is set
/// (returned beside the unit), then the levels of each coded component.
#[verifier::rlimit(100)]
pub fn decode_transform_unit_full(
    dec: &mut CabacDecoder,
    ctx: &mut Contexts,
    lw: usize,
    lh: usize,
    chroma: Option<(usize, usize)>,
    luma_bdpcm: bool,
    chroma_bdpcm: bool,
    dep_quant: bool,
    read_dqp: bool,
) -> (r: (DecodedTu, Option<i32>))
    requires
        old(dec).wf(),
        old(dec).headroom() >= tu_budget(),
        tu_sizes_ok(lw as int, lh as int, chroma),
    ensures
        final(dec).wf(),
        final(dec).data() == old(dec).data(),
        old(dec).model().pos <= final(dec).model().pos <= old(dec).model().pos + tu_budget(),
        decoded_tu_ok(r.0, lw as int, lh as int, chroma, true, luma_bdpcm, chroma_bdpcm),
        r.0.dqp is None,
        !read_dqp ==> r.1 is None,
        ({
            let t = d_tu(
                old(dec).data(),
                DState { m: old(dec).model(), c: *old(ctx) },
                lw as int,
                lh as int,
                chroma,
                true,
                true,
                luma_bdpcm,
                chroma_bdpcm,
                dep_quant,
                read_dqp,
            );
            &&& (DState { m: final(dec).model(), c: *final(ctx) }) == t.s
            &&& r.0.luma@ == t.luma
            &&& r.0.cb@ == t.cb
            &&& r.0.cr@ == t.cr
            &&& r.0.luma_ts == t.luma_ts
            &&& r.0.cb_ts == t.cb_ts
            &&& r.0.cr_ts == t.cr_ts
            &&& r.1 == t.dqp
        }),
{
    let ghost p0 = dec.model().pos;
    let (cbf_cb, cbf_cr) = if chroma.is_some() {
        let cb_ctx: usize = if chroma_bdpcm { 1 } else { 0 };
        let ghost c0 = *ctx;
        let bb = dec.decode_bin(&mut ctx.qt_cbf_cb[cb_ctx]);
        assert(ctx.qt_cbf_cb =~= spec_array_update(c0.qt_cbf_cb, cb_ctx as int, ctx_after(c0.qt_cbf_cb[cb_ctx as int], bb)));
        let b = bb == 1;
        let cr_ctx: usize = if chroma_bdpcm { 2 } else if b { 1 } else { 0 };
        let ghost c1 = *ctx;
        let rr = dec.decode_bin(&mut ctx.qt_cbf_cr[cr_ctx]);
        assert(ctx.qt_cbf_cr =~= spec_array_update(c1.qt_cbf_cr, cr_ctx as int, ctx_after(c1.qt_cbf_cr[cr_ctx as int], rr)));
        (b, rr == 1)
    } else {
        (false, false)
    };
    let luma_cbf_ctx: usize = if luma_bdpcm { 1 } else { 0 };
    let ghost c2 = *ctx;
    let lb = dec.decode_bin(&mut ctx.qt_cbf_luma[luma_cbf_ctx]);
    assert(ctx.qt_cbf_luma =~= spec_array_update(c2.qt_cbf_luma, luma_cbf_ctx as int, ctx_after(c2.qt_cbf_luma[luma_cbf_ctx as int], lb)));
    let cbf_luma = lb == 1;
    let dqp = if read_dqp && (cbf_luma || cbf_cb || cbf_cr) {
        Some(decode_cu_qp_delta(dec, ctx))
    } else {
        None
    };
    assert(dec.model().pos <= p0 + 24 + 128);
    let (luma, luma_ts) = decode_luma_levels(dec, ctx, lw, lh, cbf_luma, luma_bdpcm, dep_quant);
    let (cb, cr, cb_ts, cr_ts) = match chroma {
        Some((cw, ch)) => decode_chroma_levels(dec, ctx, cw, ch, cbf_cb, cbf_cr, chroma_bdpcm, dep_quant),
        None => (Vec::new(), Vec::new(), false, false),
    };
    (DecodedTu { luma, cb, cr, luma_ts, cb_ts, cr_ts, dqp: None }, dqp)
}

// ---------------------------------------------------------------------------
// QP-delta round trip
// ---------------------------------------------------------------------------
/// The QP-delta prefix ones from `j` to `n` nest the encoder's interval.
proof fn lemma_dqp_ones_nests(s: RState, j: nat, n: nat) -> (e: nat)
    requires
        m_regs_ok(dqp_ones(s, j).m),
        m_pre(dqp_ones(s, j).m),
        j <= n,
    ensures
        m_regs_ok(dqp_ones(s, n).m),
        m_pre(dqp_ones(s, n).m),
        nests(dqp_ones(s, j).m, dqp_ones(s, n).m, e),
    decreases n,
{
    if n == j {
        lemma_nests_refl(dqp_ones(s, j).m);
        0
    } else {
        let e1 = lemma_dqp_ones_nests(s, j, (n - 1) as nat);
        let p = dqp_ones(s, (n - 1) as nat);
        let i: int = if n - 1 == 0 { 0 } else { 1 };
        let e2 = lemma_ctx_nests(p.m, p.c.cu_qp_delta_abs[i], 1);
        lemma_nests_compose(dqp_ones(s, j).m, p.m, dqp_ones(s, n).m, e1, e2);
        e1 + e2
    }
}

/// The encoder after the QP-delta prefix of `prefix` ones (and its closing
/// zero below five).
pub open spec fn dqp_prefix_model(s: RState, prefix: nat) -> RState {
    let s1 = dqp_ones(s, prefix);
    if prefix < 5 { dqp_bin(s1, if prefix == 0 { 0 } else { 1 }, 0) } else { s1 }
}

proof fn lemma_dqp_prefix_nests(s: RState, j: nat, prefix: nat) -> (e: nat)
    requires
        m_regs_ok(dqp_ones(s, j).m),
        m_pre(dqp_ones(s, j).m),
        j <= prefix <= 5,
    ensures
        m_regs_ok(dqp_prefix_model(s, prefix).m),
        m_pre(dqp_prefix_model(s, prefix).m),
        nests(dqp_ones(s, j).m, dqp_prefix_model(s, prefix).m, e),
{
    let e1 = lemma_dqp_ones_nests(s, j, prefix);
    let s1 = dqp_ones(s, prefix);
    if prefix < 5 {
        let i: int = if prefix == 0 { 0 } else { 1 };
        let e2 = lemma_ctx_nests(s1.m, s1.c.cu_qp_delta_abs[i], 0);
        lemma_nests_compose(dqp_ones(s, j).m, s1.m, dqp_prefix_model(s, prefix).m, e1, e2);
        e1 + e2
    } else {
        e1
    }
}

/// The QP-delta prefix read back from the `j`-th bin on.
proof fn lemma_dqp_prefix_round_trip(data: Seq<u8>, s: RState, t: DState, j: nat, prefix: nat)
    requires
        j <= prefix <= 5,
        m_regs_ok(dqp_ones(s, j).m),
        m_pre(dqp_ones(s, j).m),
        in_step(data, dqp_ones(s, j).m, t.m),
        t.c == dqp_ones(s, j).c,
        contains(data, dqp_prefix_model(s, prefix).m),
    ensures
        d_dqp_prefix(data, t, j as int).1 == prefix,
        d_dqp_prefix(data, t, j as int).0.c == dqp_prefix_model(s, prefix).c,
        in_step(data, dqp_prefix_model(s, prefix).m, d_dqp_prefix(data, t, j as int).0.m),
    decreases 5 - j,
{
    let sj = dqp_ones(s, j);
    let i: int = if j == 0 { 0 } else { 1 };
    if j < prefix {
        let s1 = dqp_ones(s, j + 1);
        assert(s1 == dqp_bin(sj, i, 1));
        lemma_ctx_nests(sj.m, sj.c.cu_qp_delta_abs[i], 1);
        let e = lemma_dqp_prefix_nests(s, j + 1, prefix);
        lemma_contains_back(data, s1.m, dqp_prefix_model(s, prefix).m, e);
        lemma_dec_ctx_bin(data, sj.m, t.m, sj.c.cu_qp_delta_abs[i], 1);
        let (t1, b) = d_dqp_bin(data, t, i);
        lemma_dqp_prefix_round_trip(data, s, t1, j + 1, prefix);
    } else if j < 5 {
        lemma_dec_ctx_bin(data, sj.m, t.m, sj.c.cu_qp_delta_abs[i], 0);
    }
}

/// The order-0 Exp-Golomb split, from `2^c − 1` already taken: `bins` is
/// `2^count − 1`, and `bins + symbol` is what was split.
proof fn lemma_eg0_split(x: int, c: nat)
    requires
        x >= 0,
    ensures
        eg0_split(x, pow2(c) as int, c as int, pow2(c) - 1).0 >= c,
        eg0_split(x, pow2(c) as int, c as int, pow2(c) - 1).1 == pow2(eg0_split(x, pow2(c) as int, c as int, pow2(c) - 1).0 as nat) - 1,
        eg0_split(x, pow2(c) as int, c as int, pow2(c) - 1).1 + eg0_split(x, pow2(c) as int, c as int, pow2(c) - 1).2 == x + pow2(c) - 1,
        0 <= eg0_split(x, pow2(c) as int, c as int, pow2(c) - 1).2 < pow2(eg0_split(x, pow2(c) as int, c as int, pow2(c) - 1).0 as nat),
    decreases x,
{
    lemma_pow2_pos(c);
    lemma_pow2_unfold(c + 1);
    let pw: int = pow2(c) as int;
    if pw >= 1 && x >= pw {
        lemma_eg0_split(x - pw, c + 1);
        assert(2 * (pw - 1) + 1 == pow2(c + 1) - 1);
    }
}

/// Two bin strings of one length with one value are equal.
proof fn lemma_bv_inj(a: Seq<bool>, b: Seq<bool>)
    requires
        a.len() == b.len(),
        bits_value(a) == bits_value(b),
    ensures
        a == b,
    decreases a.len(),
{
    if a.len() > 0 {
        assert(a.last() == b.last());
        lemma_bv_inj(a.drop_last(), b.drop_last());
        assert(a =~= a.drop_last().push(a.last()));
        assert(b =~= b.drop_last().push(b.last()));
    } else {
        assert(a =~= b);
    }
}

proof fn lemma_ones_value(k: nat)
    ensures
        bits_value(repeat_bit(true, k)) == pow2(k) - 1,
    decreases k,
{
    lemma2_to64();
    if k > 0 {
        lemma_ones_value((k - 1) as nat);
        assert(repeat_bit(true, k).drop_last() =~= repeat_bit(true, (k - 1) as nat));
        lemma_pow2_unfold(k);
    }
}

/// The Exp-Golomb prefix bins: `count` ones, then a zero.
proof fn lemma_eg_prefix_bits(count: nat)
    requires
        count <= 31,
    ensures
        low_bits(((pow2(count) - 1) * 2) as u64, count + 1) == repeat_bit(true, count).push(false),
{
    lemma2_to64();
    lemma_pow2_pos(count);
    lemma_pow2_unfold(count + 1);
    lemma_pow2_strictly_increases(count, 32);
    let v: int = (pow2(count) - 1) * 2;
    assert(0 <= v < pow2(count + 1));
    crate::bitstream::lemma_bits_value_low_bits(v as u64, count + 1);
    vstd::arithmetic::div_mod::lemma_small_mod(v as nat, pow2(count + 1));
    let ones = repeat_bit(true, count);
    lemma_ones_value(count);
    assert(ones.push(false).drop_last() =~= ones);
    assert(bits_value(ones.push(false)) == 2 * bits_value(ones));
    lemma_bv_inj(low_bits(v as u64, count + 1), ones.push(false));
}

/// The Exp-Golomb prefix read back from its `j`-th bin on.
proof fn lemma_eg_prefix_round_trip(data: Seq<u8>, m: crate::cabac::engine::ArithModel, d: DecModel, count: nat, j: nat)
    requires
        j <= count <= 31,
        m_regs_ok(m),
        m_pre(m),
        in_step(data, m, d),
        contains(data, m_bypass_seq(m, repeat_bit(true, (count - j) as nat).push(false))),
    ensures
        d_eg_prefix(data, d, j as int, pow2(j) as int, pow2(j) - 1).1 == count + 1,
        d_eg_prefix(data, d, j as int, pow2(j) as int, pow2(j) - 1).2 == pow2(count) - 1,
        in_step(
            data,
            m_bypass_seq(m, repeat_bit(true, (count - j) as nat).push(false)),
            d_eg_prefix(data, d, j as int, pow2(j) as int, pow2(j) - 1).0,
        ),
    decreases count - j,
{
    lemma2_to64();
    let r = repeat_bit(true, (count - j) as nat).push(false);
    let b0: bool = j < count;
    assert(r[0] == b0);
    lemma_bypass_seq_first(m, r);
    let m1 = crate::cabac::engine::m_encode_bypass(m, b0);
    lemma_bypass(m, b0);
    let e = lemma_bypass_seq_nests(m1, r.drop_first());
    lemma_contains_back(data, m1, m_bypass_seq(m, r), e);
    lemma_dec_bypass(data, m, d, b0);
    let d1 = d_decode_bypass(data, d).0;
    lemma_pow2_unfold(j + 1);
    if b0 {
        assert(r.drop_first() =~= repeat_bit(true, (count - (j + 1)) as nat).push(false));
        lemma_eg_prefix_round_trip(data, m1, d1, count, j + 1);
    } else {
        assert(r.drop_first() =~= Seq::<bool>::empty());
        assert(m_bypass_seq(m1, Seq::<bool>::empty()) == m1);
    }
}

/// QP-delta round trip: a decoder that follows the encoder (see
/// `cabac::roundtrip`) with the same contexts, and whose code value lies in
/// the encoder's interval after the QP delta, reads back the QP delta the
/// encoder coded; it then still follows the encoder, with the same
/// contexts.
pub proof fn lemma_dqp_round_trip(data: Seq<u8>, s: RState, t: DState, delta: i32)
    requires
        m_regs_ok(s.m),
        m_pre(s.m),
        in_step(data, s.m, t.m),
        t.c == s.c,
        contains(data, dqp_model(s, delta).m),
    ensures
        d_dqp(data, t).1 == delta,
        d_dqp(data, t).0.c == dqp_model(s, delta).c,
        in_step(data, dqp_model(s, delta).m, d_dqp(data, t).0.m),
{
    lemma2_to64();
    let a: int = if delta < 0 { -(delta as int) } else { delta as int };
    let prefix: nat = if a < 5 { a as nat } else { 5 };
    let s2 = dqp_prefix_model(s, prefix);
    lemma_dqp_prefix_nests(s, 0, prefix);
    let mf = dqp_model(s, delta);
    // The state after the magnitude, and the code value inside it.
    let s3m = if a >= 5 {
        let (count, bins, symbol) = eg0_split(a - 5, 1, 0, 0);
        m_bypass_seq(m_bypass_seq(s2.m, low_bits((bins * 2) as u64, (count + 1) as nat)), low_bits(symbol as u64, count as nat))
    } else {
        s2.m
    };
    if a >= 5 {
        let (count, bins, symbol) = eg0_split(a - 5, 1, 0, 0);
        let pb = low_bits((bins * 2) as u64, (count + 1) as nat);
        let mid = m_bypass_seq(s2.m, pb);
        let e1 = lemma_bypass_seq_nests(s2.m, pb);
        let e2 = lemma_bypass_seq_nests(mid, low_bits(symbol as u64, count as nat));
        if a > 0 {
            lemma_bypass(s3m, delta < 0);
            lemma_contains_back(data, s3m, mf.m, 1);
        }
        lemma_contains_back(data, mid, s3m, e2);
        lemma_contains_back(data, s2.m, mid, e1);
    } else if a > 0 {
        lemma_bypass(s3m, delta < 0);
        lemma_contains_back(data, s3m, mf.m, 1);
    }
    assert(dqp_ones(s, 0) == s);
    lemma_dqp_prefix_round_trip(data, s, t, 0, prefix);
    let (t1, ones) = d_dqp_prefix(data, t, 0);
    let m2d = if a >= 5 {
        let (count, bins, symbol) = eg0_split(a - 5, 1, 0, 0);
        lemma_eg0_split(a - 5, 0);
        assert(count <= 31) by {
            if count > 31 {
                lemma_pow2_strictly_increases(31, count as nat);
            }
        }
        let pb = low_bits((bins * 2) as u64, (count + 1) as nat);
        lemma_eg_prefix_bits(count as nat);
        assert(pb == repeat_bit(true, count as nat).push(false));
        let mid = m_bypass_seq(s2.m, pb);
        lemma_bypass_seq_nests(s2.m, pb);
        lemma_eg_prefix_round_trip(data, s2.m, t1.m, count as nat, 0);
        let (m3, cnt, sym) = d_eg_prefix(data, t1.m, 0, 1, 0);
        lemma_run_is_bits(data, m3, count as nat);
        lemma_dec_bypass_bits(data, mid, m3, low_bits(symbol as u64, count as nat));
        crate::bitstream::lemma_bits_value_low_bits(symbol as u64, count as nat);
        vstd::arithmetic::div_mod::lemma_small_mod(symbol as nat, pow2(count as nat));
        let (m4, suffix) = d_bypass_run(data, m3, (cnt - 1) as nat);
        assert(suffix == symbol);
        m4
    } else {
        t1.m
    };
    if a > 0 {
        lemma_dec_bypass(data, s3m, m2d, delta < 0);
    }
}

} // verus!
