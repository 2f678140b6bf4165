//! Dependent quantization (H.266 §7.4.11.11 / §8.7.3): the four-state
//! machine that decides, for every coefficient in reverse scan order, which of
//! the two scalar quantizers (Q0 on the even grid, Q1 on the odd grid) applies.
use vstd::prelude::*;

verus! {

/// Packed dependent-quantization state transition table: two bits per
/// `(state, parity)` entry, state-major.
pub const STATE_TRANS_PACKED: u32 = 32040;

/// The dependent-quantization state machine, as a table indexed by
/// `[state][parity]`.
pub const STATE_TRANS: [[u8; 2]; 4] = [[0, 2], [2, 0], [1, 3], [3, 1]];

/// Next state of the four-state dependent quantizer after a level of the
/// given parity (`STATE_TRANS[state][parity]`).
pub open spec fn spec_next_state(state: u8, parity: int) -> u8 {
    if state == 0 {
        if parity == 0 { 0 } else { 2 }
    } else if state == 1 {
        if parity == 0 { 2 } else { 0 }
    } else if state == 2 {
        if parity == 0 { 1 } else { 3 }
    } else {
        if parity == 0 { 3 } else { 1 }
    }
}

/// Parity of a level, as 0 or 1, for either sign.
pub open spec fn level_parity(level: i32) -> int {
    if level % 2 == 0 { 0 } else { 1 }
}

/// Reconstruction index of a level under the quantizer selected by `state`:
/// `2·level` on the Q0 grid, moved one step towards zero on the Q1 grid; a
/// zero level stays zero.
pub open spec fn spec_recon_qidx(level: i32, state: u8) -> int {
    if level == 0 {
        0
    } else {
        let q = (state / 2) as int;
        if level > 0 { 2 * level - q } else { 2 * level + q }
    }
}

/// The two-bit fields of the packed transition table.
proof fn lemma_packed_table(s32: u32, p: u32)
    by (bit_vector)
    requires
        s32 < 8,
        p < 2,
    ensures
        ({
            let v = (32040u32 >> (s32 * 4 + p * 2)) & 3u32;
            &&& v < 4
            &&& (s32 == 0 && p == 0 ==> v == 0)
            &&& (s32 == 0 && p == 1 ==> v == 2)
            &&& (s32 == 1 && p == 0 ==> v == 2)
            &&& (s32 == 1 && p == 1 ==> v == 0)
            &&& (s32 == 2 && p == 0 ==> v == 1)
            &&& (s32 == 2 && p == 1 ==> v == 3)
            &&& (s32 == 3 && p == 0 ==> v == 3)
            &&& (s32 == 3 && p == 1 ==> v == 1)
            &&& (s32 >= 4 ==> v == 0)
        }),
{
}

/// Next dependent-quant state after coding `level` (any sign) from `state`.
/// States outside the machine (4..8) read past the packed table and give 0.
pub fn next_state(state: u8, level: i32) -> (r: u8)
    requires
        state < 8,
    ensures
        state < 4 ==> r == spec_next_state(state, level_parity(level)),
        state >= 4 ==> r == 0,
        r < 4,
{
    let mag: i64 = if level < 0 {
        -(level as i64)
    } else {
        level as i64
    };
    let p: u32 = (mag % 2) as u32;
    assert(p as int == level_parity(level)) by {
        assert((level as int) % 2 == (-(level as int)) % 2) by (nonlinear_arith);
    }
    let v = (STATE_TRANS_PACKED >> ((state as u32) * 4 + p * 2)) & 3u32;
    proof {
        lemma_packed_table(state as u32, p);
    }
    v as u8
}

/// Quantizer (0 = Q0, 1 = Q1) used in `state`.
pub fn quantizer(state: u8) -> (r: u8)
    ensures
        r == state / 2,
{
    state / 2
}

/// Reconstruction index `qIdx` of a coded level in the given state.
pub fn recon_qidx(level: i32, state: u8) -> (r: i32)
    requires
        -0x3fff_ffff <= level <= 0x3fff_ffff,
    ensures
        r == spec_recon_qidx(level, state),
{
    if level == 0 {
        return 0;
    }
    let q = (state / 2) as i32;
    2 * level + if level > 0 { -q } else { q }
}

/// The state walk over a sequence of levels, starting in state 0.
pub open spec fn state_after(levels: Seq<i32>) -> u8
    decreases levels.len(),
{
    if levels.len() == 0 {
        0
    } else {
        spec_next_state(state_after(levels.drop_last()), level_parity(levels.last()))
    }
}

/// Every state the machine can reach is one of its four states.
pub proof fn lemma_state_walk_bounded(levels: Seq<i32>)
    ensures
        state_after(levels) < 4,
    decreases levels.len(),
{
    if levels.len() > 0 {
        lemma_state_walk_bounded(levels.drop_last());
    }
}

/// The quantizer of a state only depends on the state's high bit, and the
/// packed table agrees with `STATE_TRANS` on every state and parity.
pub proof fn lemma_table_agrees(state: u8, parity: int)
    requires
        state < 4,
        0 <= parity < 2,
    ensures
        spec_next_state(state, parity) == STATE_TRANS[state as int][parity],
{
}

} // verus!
