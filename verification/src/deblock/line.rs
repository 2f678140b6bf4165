//! The deblocking filters on one line of samples across an edge.
//!
//! A line is a window of 16 samples: `p7..p0` at indices `0..8` and
//! `q0..q7` at `8..16`, so the edge lies between indices 7 and 8.
//! Every filter keeps a window inside `[0, max]` when it starts there, and
//! leaves a constant window unchanged.
use vstd::prelude::*;
use vstd::arithmetic::power2::pow2;
use crate::arith::{asr32, floor_shr};

verus! {

/// Window length.
pub const WIN: usize = 16;

/// Index of `q0` in the window.
pub const Q0: usize = 8;

/// Every sample of `s` lies in `[0, m]`.
pub open spec fn in_range(s: Seq<i32>, m: int) -> bool {
    forall|k: int| 0 <= k < s.len() ==> 0 <= #[trigger] s[k] <= m
}

/// Every sample of `s` equals `v`.
pub open spec fn all_eq(s: Seq<i32>, v: int) -> bool {
    forall|k: int| 0 <= k < s.len() ==> #[trigger] s[k] == v
}

/// `min(max(v, lo), hi)`.
pub open spec fn clip3(lo: int, hi: int, v: int) -> int {
    let a = if v < lo {
        lo
    } else {
        v
    };
    if a > hi {
        hi
    } else {
        a
    }
}

/// Clamp `v` into `[lo, hi]` (`hi` wins when `lo > hi`).
pub fn clip3_i32(lo: i32, hi: i32, v: i32) -> (r: i32)
    ensures
        r == clip3(lo as int, hi as int, v as int),
{
    let a = if v < lo { lo } else { v };
    if a > hi {
        hi
    } else {
        a
    }
}

/// Clipping around a centre `c` inside the bounds lands between `v` and `c`.
pub proof fn lemma_clip_between(lo: int, hi: int, v: int, c: int)
    requires
        lo <= c <= hi,
    ensures
        (v <= c ==> v <= clip3(lo, hi, v) <= c),
        (v >= c ==> c <= clip3(lo, hi, v) <= v),
        clip3(lo, hi, c) == c,
{
}

/// A rounded weighted average `(s + 2^(k-1)) >> k` of samples in `[0, m]`
/// whose weights sum to `2^k` lies in `[0, m]`, and is `v` when every sample
/// is `v`.
pub proof fn lemma_avg(s: int, k: nat, m: int)
    requires
        1 <= k <= 6,
        0 <= s <= pow2(k) * m,
    ensures
        0 <= floor_shr(s + pow2((k - 1) as nat), k) <= m,
{
    vstd::arithmetic::power2::lemma_pow2_pos(k);
    vstd::arithmetic::power2::lemma_pow2_unfold(k);
    let p = pow2(k) as int;
    let h = pow2((k - 1) as nat) as int;
    vstd::arithmetic::div_mod::lemma_div_pos_is_pos(s + h, p);
    assert(s + h < p * (m + 1)) by (nonlinear_arith)
        requires
            s <= p * m,
            h < p,
    ;
    crate::predict::lemma_div_below(s + h, p, m + 1);
}

/// A rounded average of equal samples is that sample.
pub proof fn lemma_avg_flat(v: int, k: nat)
    requires
        1 <= k <= 6,
    ensures
        floor_shr(pow2(k) * v + pow2((k - 1) as nat), k) == v,
{
    vstd::arithmetic::power2::lemma_pow2_pos(k);
    vstd::arithmetic::power2::lemma_pow2_unfold(k);
    let p = pow2(k) as int;
    let h = pow2((k - 1) as nat) as int;
    assert(p * v + h == v * p + h) by (nonlinear_arith);
    vstd::arithmetic::div_mod::lemma_fundamental_div_mod_converse(p * v + h, p, v, h);
}

/// `|p2 − 2·p1 + p0|` for the three samples before `base`; the chroma CTB
/// variant uses `p1` in place of `p2`.
pub open spec fn dp_spec(b: Seq<i32>, base: int, chroma_ctb: bool) -> int {
    let v = if chroma_ctb {
        b[base - 2] - 2 * b[base - 2] + b[base - 1]
    } else {
        b[base - 3] - 2 * b[base - 2] + b[base - 1]
    };
    if v < 0 {
        -v
    } else {
        v
    }
}

/// `|q0 − 2·q1 + q2|` for the three samples from `base`.
pub open spec fn dq_spec(b: Seq<i32>, base: int) -> int {
    let v = b[base] - 2 * b[base + 1] + b[base + 2];
    if v < 0 {
        -v
    } else {
        v
    }
}

/// Window samples within 16 bits.
pub open spec fn win_ok(b: Seq<i32>) -> bool {
    &&& b.len() == WIN
    &&& forall|k: int| 0 <= k < WIN ==> -0x1_0000 <= #[trigger] b[k] <= 0x1_0000
}

/// Second-difference activity on the P side ending before `base`.
pub fn calc_dp(b: &Vec<i32>, base: usize, chroma_ctb: bool) -> (r: i32)
    requires
        win_ok(b@),
        3 <= base <= WIN,
    ensures
        r == dp_spec(b@, base as int, chroma_ctb),
        0 <= r <= 0x4_0000,
{
    let v = if chroma_ctb {
        b[base - 2] - 2 * b[base - 2] + b[base - 1]
    } else {
        b[base - 3] - 2 * b[base - 2] + b[base - 1]
    };
    if v < 0 {
        -v
    } else {
        v
    }
}

/// Second-difference activity on the Q side from `base`.
pub fn calc_dq(b: &Vec<i32>, base: usize) -> (r: i32)
    requires
        win_ok(b@),
        base + 3 <= WIN,
    ensures
        r == dq_spec(b@, base as int),
        0 <= r <= 0x4_0000,
{
    let v = b[base] - 2 * b[base + 1] + b[base + 2];
    if v < 0 {
        -v
    } else {
        v
    }
}

/// `|x|` of a bounded value.
fn iabs(x: i32) -> (r: i32)
    requires
        -0x10_0000 <= x <= 0x10_0000,
    ensures
        r as int == (if x < 0 {
            -(x as int)
        } else {
            x as int
        }),
        0 <= r <= 0x10_0000,
{
    if x < 0 {
        -x
    } else {
        x
    }
}

/// `|x|`.
pub open spec fn abs_int(x: int) -> int {
    if x < 0 {
        -x
    } else {
        x
    }
}

/// The strong/long filter decision of one line: the side activities
/// (extended over a large side and halved), the activity `d` and the step
/// across the edge all below their `beta`/`tc` thresholds.
pub open spec fn use_strong_spec(
    b: Seq<i32>,
    d: int,
    beta: int,
    tc: int,
    side_p_large: bool,
    side_q_large: bool,
    max_p: int,
    max_q: int,
    chroma_ctb: bool,
) -> bool {
    let (m0, m2, m3, m4, m7) = (smp(b, -4), smp(b, -2), smp(b, -1), smp(b, 0), smp(b, 3));
    let sp3_0 = if chroma_ctb {
        abs_int(m2 - m3)
    } else {
        abs_int(m0 - m3)
    };
    let sq3_0 = abs_int(m7 - m4);
    if side_p_large || side_q_large {
        let sp3 = if side_p_large {
            let acc = if max_p == 7 {
                sp3_0 + abs_int(smp(b, -5) - smp(b, -6) - smp(b, -7) + smp(b, -8))
            } else {
                sp3_0
            };
            let mp4 = if max_p == 7 {
                smp(b, -8)
            } else {
                smp(b, -6)
            };
            floor_shr(acc + abs_int(m0 - mp4) + 1, 1)
        } else {
            sp3_0
        };
        let sq3 = if side_q_large {
            let acc = if max_q == 7 {
                sq3_0 + abs_int(smp(b, 4) - smp(b, 5) - smp(b, 6) + smp(b, 7))
            } else {
                sq3_0
            };
            let m11 = if max_q == 7 {
                smp(b, 7)
            } else {
                smp(b, 5)
            };
            floor_shr(acc + abs_int(m11 - m7) + 1, 1)
        } else {
            sq3_0
        };
        sp3 + sq3 < floor_shr(beta * 3, 5) && d < floor_shr(beta, 4) && abs_int(m3 - m4) < floor_shr(tc * 5 + 1, 1)
    } else {
        sp3_0 + sq3_0 < floor_shr(beta, 3) && d < floor_shr(beta, 2) && abs_int(m3 - m4) < floor_shr(tc * 5 + 1, 1)
    }
}

/// The strong-filter decision for one line (`xUseStrongFiltering`):
/// flatness on both sides (extended on a large side), the activity `d`, and
/// the step across the edge.
pub(crate) fn use_strong(
    b: &Vec<i32>,
    d: i32,
    beta: i32,
    tc: i32,
    side_p_large: bool,
    side_q_large: bool,
    max_p: u8,
    max_q: u8,
    chroma_ctb: bool,
) -> (r: bool)
    requires
        win_ok(b@),
        0 <= beta <= 0x10_0000,
        0 <= tc <= 0x10_0000,
    ensures
        r == use_strong_spec(
            b@,
            d as int,
            beta as int,
            tc as int,
            side_p_large,
            side_q_large,
            max_p as int,
            max_q as int,
            chroma_ctb,
        ),
{
    let m4 = b[Q0];
    let m3 = b[Q0 - 1];
    let m7 = b[Q0 + 3];
    let m0 = b[Q0 - 4];
    let m2 = b[Q0 - 2];
    let mut sp3 = if chroma_ctb { iabs(m2 - m3) } else { iabs(m0 - m3) };
    let mut sq3 = iabs(m7 - m4);
    if side_p_large || side_q_large {
        if side_p_large {
            let mp4;
            if max_p == 7 {
                let mp5 = b[Q0 - 5];
                let mp6 = b[Q0 - 6];
                let mp7 = b[Q0 - 7];
                mp4 = b[Q0 - 8];
                sp3 = sp3 + iabs(mp5 - mp6 - mp7 + mp4);
            } else {
                mp4 = b[Q0 - 6];
            }
            let t = sp3 + iabs(m0 - mp4) + 1;
            proof {
                crate::arith::lemma_floor_shr_bounds(t as int, 1);
            }
            sp3 = asr32(t, 1);
        }
        if side_q_large {
            let m11;
            if max_q == 7 {
                let m8 = b[Q0 + 4];
                let m9 = b[Q0 + 5];
                let m10 = b[Q0 + 6];
                m11 = b[Q0 + 7];
                sq3 = sq3 + iabs(m8 - m9 - m10 + m11);
            } else {
                m11 = b[Q0 + 5];
            }
            let t = sq3 + iabs(m11 - m7) + 1;
            proof {
                crate::arith::lemma_floor_shr_bounds(t as int, 1);
            }
            sq3 = asr32(t, 1);
        }
        sp3 + sq3 < asr32(beta * 3, 5) && d < asr32(beta, 4) && iabs(m3 - m4) < asr32(tc * 5 + 1, 1)
    } else {
        sp3 + sq3 < asr32(beta, 3) && d < asr32(beta, 2) && iabs(m3 - m4) < asr32(tc * 5 + 1, 1)
    }
}

/// A window fit for filtering: 16 samples in `[0, mx]`, `mx` a sample
/// maximum of at most 16 bits.
pub open spec fn line_ok(b: Seq<i32>, mx: int) -> bool {
    &&& b.len() == WIN
    &&& 1 <= mx <= 0xffff
    &&& in_range(b, mx)
}

/// A constant window stays constant.
pub open spec fn keeps_flat(old_b: Seq<i32>, new_b: Seq<i32>) -> bool {
    all_eq(old_b, old_b[Q0 as int] as int) ==> all_eq(new_b, old_b[Q0 as int] as int)
}

/// `(s + 2^(k-1)) >> k`: a rounded weighted average whose weights sum to
/// `2^k`.
fn wavg(s: i32, k: u32, Ghost(mx): Ghost<int>, Ghost(v): Ghost<int>) -> (r: i32)
    requires
        1 <= k <= 6,
        0 <= mx <= 0xffff,
        0 <= s <= pow2(k as nat) * mx,
    ensures
        r == floor_shr(s + pow2((k - 1) as nat), k as nat),
        0 <= r <= mx,
        s == pow2(k as nat) * v ==> r == v,
{
    proof {
        lemma_avg(s as int, k as nat, mx);
        if s == pow2(k as nat) * v {
            lemma_avg_flat(v, k as nat);
        }
        vstd::arithmetic::power2::lemma2_to64();
        vstd::arithmetic::power2::lemma_pow2_strictly_increases((k - 1) as nat, 6);
        vstd::arithmetic::power2::lemma_pow2_strictly_increases(k as nat, 7);
        assert(pow2(k as nat) * mx <= 128 * 0xffff) by (nonlinear_arith)
            requires
                pow2(k as nat) <= 128,
                0 <= mx <= 0xffff,
        ;
        vstd::bits::lemma_u32_shl_is_mul(1, (k - 1) as u32);
    }
    asr32(s + (1u32 << (k - 1)) as i32, k)
}

/// `clip3(c − t, c + t, avg)`: the average pulled at most `t` away from the
/// sample `c`.
fn blend(c: i32, t: i32, avg: i32, Ghost(mx): Ghost<int>) -> (r: i32)
    requires
        0 <= c <= mx,
        0 <= avg <= mx,
        0 <= t <= 0x10_0000,
        mx <= 0xffff,
    ensures
        r == clip3(c - t, c + t, avg as int),
        0 <= r <= mx,
        avg == c ==> r == c,
{
    proof {
        lemma_clip_between(c - t, c + t, avg as int, c as int);
    }
    clip3_i32(c - t, c + t, avg)
}

/// Read a window sample with its bounds.
fn get(b: &Vec<i32>, k: usize, Ghost(mx): Ghost<int>, Ghost(v): Ghost<int>) -> (r: i32)
    requires
        b.len() == WIN,
        k < WIN,
        in_range(b@, mx),
    ensures
        r == b@[k as int],
        0 <= r <= mx,
        all_eq(b@, v) ==> r == v,
{
    b[k]
}

/// Store a filtered sample, keeping the window in range (and constant when
/// the sample is the constant).
fn put(b: &mut Vec<i32>, idx: usize, val: i32, Ghost(mx): Ghost<int>, Ghost(v): Ghost<int>)
    requires
        old(b).len() == WIN,
        idx < WIN,
        in_range(old(b)@, mx),
        0 <= val <= mx,
    ensures
        final(b)@ == old(b)@.update(idx as int, val),
        in_range(final(b)@, mx),
        all_eq(old(b)@, v) && val == v ==> all_eq(final(b)@, v),
{
    b.set(idx, val);
}

/// Sample `d` positions from `q0` (negative: on the P side).
pub open spec fn smp(b: Seq<i32>, d: int) -> int {
    b[Q0 + d] as int
}

/// The average `avg` pulled at most `t` away from the sample `c`.
pub open spec fn pull(c: int, t: int, avg: int) -> i32 {
    clip3(c - t, c + t, avg) as i32
}

/// The strong chroma filter at a chroma CTB boundary: p0 and q0..q2 move
/// towards 8-weight averages, at most `tc` away.
pub open spec fn chroma_strong_ctb_line(b: Seq<i32>, tc: int) -> Seq<i32> {
    let (m2, m3, m4, m5, m6, m7) = (smp(b, -2), smp(b, -1), smp(b, 0), smp(b, 1), smp(b, 2), smp(b, 3));
    b.update(Q0 - 1, pull(m3, tc, floor_shr(3 * m2 + 2 * m3 + m4 + m5 + m6 + 4, 3)))
        .update(Q0 as int, pull(m4, tc, floor_shr(2 * m2 + m3 + 2 * m4 + m5 + m6 + m7 + 4, 3)))
        .update(Q0 + 1, pull(m5, tc, floor_shr(m2 + m3 + m4 + 2 * m5 + m6 + 2 * m7 + 4, 3)))
        .update(Q0 + 2, pull(m6, tc, floor_shr(m3 + m4 + m5 + 2 * m6 + 3 * m7 + 4, 3)))
}

/// The strong chroma filter: p2..p0 and q0..q2 move towards 8-weight
/// averages, at most `tc` away.
pub open spec fn chroma_strong_line(b: Seq<i32>, tc: int) -> Seq<i32> {
    let (m0, m1, m2, m3) = (smp(b, -4), smp(b, -3), smp(b, -2), smp(b, -1));
    let (m4, m5, m6, m7) = (smp(b, 0), smp(b, 1), smp(b, 2), smp(b, 3));
    b.update(Q0 - 3, pull(m1, tc, floor_shr(3 * m0 + 2 * m1 + m2 + m3 + m4 + 4, 3)))
        .update(Q0 - 2, pull(m2, tc, floor_shr(2 * m0 + m1 + 2 * m2 + m3 + m4 + m5 + 4, 3)))
        .update(Q0 - 1, pull(m3, tc, floor_shr(m0 + m1 + m2 + 2 * m3 + m4 + m5 + m6 + 4, 3)))
        .update(Q0 as int, pull(m4, tc, floor_shr(m1 + m2 + m3 + 2 * m4 + m5 + m6 + m7 + 4, 3)))
        .update(Q0 + 1, pull(m5, tc, floor_shr(m2 + m3 + m4 + 2 * m5 + m6 + 2 * m7 + 4, 3)))
        .update(Q0 + 2, pull(m6, tc, floor_shr(m3 + m4 + m5 + 2 * m6 + 3 * m7 + 4, 3)))
}

/// The normal chroma filter: p0 and q0 move by
/// `Δ = clip3(−tc, tc, (4·(q0 − p0) + p1 − q1 + 4) >> 3)`, clipped to
/// `[0, mx]`.
pub open spec fn chroma_weak_line(b: Seq<i32>, tc: int, mx: int) -> Seq<i32> {
    let (m2, m3, m4, m5) = (smp(b, -2), smp(b, -1), smp(b, 0), smp(b, 1));
    let delta = clip3(-tc, tc, floor_shr(4 * (m4 - m3) + m2 - m5 + 4, 3));
    b.update(Q0 - 1, clip3(0, mx, m3 + delta) as i32).update(Q0 as int, clip3(0, mx, m4 - delta) as i32)
}

/// The chroma filter of one line.
pub open spec fn chroma_line_filter(b: Seq<i32>, tc: int, sw: bool, chroma_ctb: bool, mx: int) -> Seq<i32> {
    if sw {
        if chroma_ctb {
            chroma_strong_ctb_line(b, tc)
        } else {
            chroma_strong_line(b, tc)
        }
    } else {
        chroma_weak_line(b, tc, mx)
    }
}

/// The strong short luma filter: p2..p0 and q0..q2 move towards 4/5-tap
/// averages, at most `tc`, `2·tc`, `3·tc` away (outermost to innermost).
pub open spec fn luma_strong_line(b: Seq<i32>, tc: int) -> Seq<i32> {
    let (m0, m1, m2, m3) = (smp(b, -4), smp(b, -3), smp(b, -2), smp(b, -1));
    let (m4, m5, m6, m7) = (smp(b, 0), smp(b, 1), smp(b, 2), smp(b, 3));
    b.update(Q0 - 1, pull(m3, 3 * tc, floor_shr(m1 + 2 * m2 + 2 * m3 + 2 * m4 + m5 + 4, 3)))
        .update(Q0 as int, pull(m4, 3 * tc, floor_shr(m2 + 2 * m3 + 2 * m4 + 2 * m5 + m6 + 4, 3)))
        .update(Q0 - 2, pull(m2, 2 * tc, floor_shr(m1 + m2 + m3 + m4 + 2, 2)))
        .update(Q0 + 1, pull(m5, 2 * tc, floor_shr(m3 + m4 + m5 + m6 + 2, 2)))
        .update(Q0 - 3, pull(m1, tc, floor_shr(2 * m0 + 3 * m1 + m2 + m3 + m4 + 4, 3)))
        .update(Q0 + 2, pull(m6, tc, floor_shr(m3 + m4 + m5 + 3 * m6 + 2 * m7 + 4, 3)))
}

/// The normal luma filter: when
/// `|Δ0| = |(9·(q0 − p0) − 3·(q1 − p1) + 8) >> 4|` is below `thr_cut`, p0 and
/// q0 move by `clip3(−tc, tc, Δ0)` and, where enabled, p1 / q1 by a half-size
/// step clipped to `tc/2`; all clipped to `[0, mx]`.
pub open spec fn luma_weak_line(b: Seq<i32>, tc: int, thr_cut: int, filter_p: bool, filter_q: bool, mx: int) -> Seq<i32> {
    let (m1, m2, m3, m4, m5, m6) = (smp(b, -3), smp(b, -2), smp(b, -1), smp(b, 0), smp(b, 1), smp(b, 2));
    let delta0 = floor_shr(9 * (m4 - m3) - 3 * (m5 - m2) + 8, 4);
    if (if delta0 < 0 { -delta0 } else { delta0 }) < thr_cut {
        let delta = clip3(-tc, tc, delta0);
        let tc2 = tc / 2;
        let b1 = b.update(Q0 - 1, clip3(0, mx, m3 + delta) as i32).update(Q0 as int, clip3(0, mx, m4 - delta) as i32);
        let b2 = if filter_p {
            b1.update(Q0 - 2, clip3(0, mx, m2 + clip3(-tc2, tc2, floor_shr(floor_shr(m1 + m3 + 1, 1) - m2 + delta, 1))) as i32)
        } else {
            b1
        };
        if filter_q {
            b2.update(Q0 + 1, clip3(0, mx, m5 + clip3(-tc2, tc2, floor_shr(floor_shr(m6 + m4 + 1, 1) - m5 - delta, 1))) as i32)
        } else {
            b2
        }
    } else {
        b
    }
}

/// Strong chroma filter at a chroma CTB boundary: p0 and q0..q2.
#[verifier::rlimit(30)]
fn chroma_strong_ctb(b: &mut Vec<i32>, tc: i32, max_val: i32)
    requires
        line_ok(old(b)@, max_val as int),
        0 <= tc <= 0x10_0000,
    ensures
        line_ok(final(b)@, max_val as int),
        keeps_flat(old(b)@, final(b)@),
        final(b)@ == chroma_strong_ctb_line(old(b)@, tc as int),
{
    let ghost mx = max_val as int;
    let ghost v = b@[Q0 as int] as int;
    let ghost b0 = b@;
    let m2 = get(b, Q0 - 2, Ghost(mx), Ghost(v));
    let m3 = get(b, Q0 - 1, Ghost(mx), Ghost(v));
    let m4 = get(b, Q0, Ghost(mx), Ghost(v));
    let m5 = get(b, Q0 + 1, Ghost(mx), Ghost(v));
    let m6 = get(b, Q0 + 2, Ghost(mx), Ghost(v));
    let m7 = get(b, Q0 + 3, Ghost(mx), Ghost(v));
    proof {
        vstd::arithmetic::power2::lemma2_to64();
    }
    let a3 = wavg(3 * m2 + 2 * m3 + m4 + m5 + m6, 3, Ghost(mx), Ghost(v));
    let a4 = wavg(2 * m2 + m3 + 2 * m4 + m5 + m6 + m7, 3, Ghost(mx), Ghost(v));
    let a5 = wavg(m2 + m3 + m4 + 2 * m5 + m6 + 2 * m7, 3, Ghost(mx), Ghost(v));
    let a6 = wavg(m3 + m4 + m5 + 2 * m6 + 3 * m7, 3, Ghost(mx), Ghost(v));
    let r3 = blend(m3, tc, a3, Ghost(mx));
    let r4 = blend(m4, tc, a4, Ghost(mx));
    let r5 = blend(m5, tc, a5, Ghost(mx));
    let r6 = blend(m6, tc, a6, Ghost(mx));
    put(b, Q0 - 1, r3, Ghost(mx), Ghost(v));
    put(b, Q0, r4, Ghost(mx), Ghost(v));
    put(b, Q0 + 1, r5, Ghost(mx), Ghost(v));
    put(b, Q0 + 2, r6, Ghost(mx), Ghost(v));

}

/// Strong chroma filter: p2..p0 and q0..q2.
#[verifier::rlimit(100)]
fn chroma_strong(b: &mut Vec<i32>, tc: i32, max_val: i32)
    requires
        line_ok(old(b)@, max_val as int),
        0 <= tc <= 0x10_0000,
    ensures
        line_ok(final(b)@, max_val as int),
        keeps_flat(old(b)@, final(b)@),
        final(b)@ == chroma_strong_line(old(b)@, tc as int),
{
    let ghost mx = max_val as int;
    let ghost v = b@[Q0 as int] as int;
    let ghost b0 = b@;
    let m0 = get(b, Q0 - 4, Ghost(mx), Ghost(v));
    let m1 = get(b, Q0 - 3, Ghost(mx), Ghost(v));
    let m2 = get(b, Q0 - 2, Ghost(mx), Ghost(v));
    let m3 = get(b, Q0 - 1, Ghost(mx), Ghost(v));
    let m4 = get(b, Q0, Ghost(mx), Ghost(v));
    let m5 = get(b, Q0 + 1, Ghost(mx), Ghost(v));
    let m6 = get(b, Q0 + 2, Ghost(mx), Ghost(v));
    let m7 = get(b, Q0 + 3, Ghost(mx), Ghost(v));
    proof {
        vstd::arithmetic::power2::lemma2_to64();
    }
    let a1 = wavg(3 * m0 + 2 * m1 + m2 + m3 + m4, 3, Ghost(mx), Ghost(v));
    let a2 = wavg(2 * m0 + m1 + 2 * m2 + m3 + m4 + m5, 3, Ghost(mx), Ghost(v));
    let a3 = wavg(m0 + m1 + m2 + 2 * m3 + m4 + m5 + m6, 3, Ghost(mx), Ghost(v));
    let a4 = wavg(m1 + m2 + m3 + 2 * m4 + m5 + m6 + m7, 3, Ghost(mx), Ghost(v));
    let a5 = wavg(m2 + m3 + m4 + 2 * m5 + m6 + 2 * m7, 3, Ghost(mx), Ghost(v));
    let a6 = wavg(m3 + m4 + m5 + 2 * m6 + 3 * m7, 3, Ghost(mx), Ghost(v));
    let r1 = blend(m1, tc, a1, Ghost(mx));
    let r2 = blend(m2, tc, a2, Ghost(mx));
    let r3 = blend(m3, tc, a3, Ghost(mx));
    let r4 = blend(m4, tc, a4, Ghost(mx));
    let r5 = blend(m5, tc, a5, Ghost(mx));
    let r6 = blend(m6, tc, a6, Ghost(mx));
    put(b, Q0 - 3, r1, Ghost(mx), Ghost(v));
    put(b, Q0 - 2, r2, Ghost(mx), Ghost(v));
    put(b, Q0 - 1, r3, Ghost(mx), Ghost(v));
    put(b, Q0, r4, Ghost(mx), Ghost(v));
    put(b, Q0 + 1, r5, Ghost(mx), Ghost(v));
    put(b, Q0 + 2, r6, Ghost(mx), Ghost(v));
    assert(b@ =~= chroma_strong_line(b0, tc as int));
}

/// Normal chroma filter: a clipped step on p0 and q0.
fn chroma_weak(b: &mut Vec<i32>, tc: i32, max_val: i32)
    requires
        line_ok(old(b)@, max_val as int),
        0 <= tc <= 0x10_0000,
    ensures
        line_ok(final(b)@, max_val as int),
        keeps_flat(old(b)@, final(b)@),
        final(b)@ == chroma_weak_line(old(b)@, tc as int, max_val as int),
{
    let ghost mx = max_val as int;
    let ghost v = b@[Q0 as int] as int;
    let ghost b0 = b@;
    let m2 = get(b, Q0 - 2, Ghost(mx), Ghost(v));
    let m3 = get(b, Q0 - 1, Ghost(mx), Ghost(v));
    let m4 = get(b, Q0, Ghost(mx), Ghost(v));
    let m5 = get(b, Q0 + 1, Ghost(mx), Ghost(v));
    proof {
        vstd::arithmetic::power2::lemma2_to64();
    }
    let delta = clip3_i32(-tc, tc, asr32(4 * (m4 - m3) + m2 - m5 + 4, 3));
    proof {
        if all_eq(b0, v) {
            assert(4 * (m4 - m3) + m2 - m5 + 4 == 4);
            vstd::arithmetic::div_mod::lemma_basic_div(4, 8);
        }
    }
    b.set(Q0 - 1, clip3_i32(0, max_val, m3 + delta));
    b.set(Q0, clip3_i32(0, max_val, m4 - delta));
    proof {
        if all_eq(b0, v) {
            assert(all_eq(b@, v));
        }
    }
}

/// Chroma filter of one line (`xPelFilterChroma`): the strong filter (at a
/// chroma CTB boundary the variant that keeps p1/p2) or the normal filter
/// on p0/q0.
pub fn pel_filter_chroma(b: &mut Vec<i32>, tc: i32, sw: bool, chroma_ctb: bool, max_val: i32)
    requires
        line_ok(old(b)@, max_val as int),
        0 <= tc <= 0x10_0000,
    ensures
        line_ok(final(b)@, max_val as int),
        keeps_flat(old(b)@, final(b)@),
        final(b)@ == chroma_line_filter(old(b)@, tc as int, sw, chroma_ctb, max_val as int),
{
    if sw {
        if chroma_ctb {
            chroma_strong_ctb(b, tc, max_val);
        } else {
            chroma_strong(b, tc, max_val);
        }
    } else {
        chroma_weak(b, tc, max_val);
    }
}

/// Long-filter weight of position `pos` for a side of length `len`.
pub open spec fn db_coef(len: int, pos: int) -> int {
    if len == 3 {
        seq![53int, 32, 11][pos]
    } else if len == 5 {
        seq![58int, 45, 32, 19, 6][pos]
    } else {
        seq![59int, 50, 41, 32, 23, 14, 5][pos]
    }
}

/// Long-filter clipping factor of position `pos` for a side of length `len`.
pub open spec fn tc_coef(len: int, pos: int) -> int {
    if len == 3 {
        seq![6int, 4, 2][pos]
    } else if len == 5 {
        seq![6int, 5, 4, 3, 2][pos]
    } else {
        seq![6int, 5, 4, 3, 2, 1, 1][pos]
    }
}

fn db_coef_at(len: u8, pos: usize) -> (r: (i32, i32))
    requires
        len == 3 || len == 5 || len == 7,
        pos < len,
    ensures
        r.0 == db_coef(len as int, pos as int),
        r.1 == tc_coef(len as int, pos as int),
        0 <= r.0 <= 64,
        0 <= r.1 <= 6,
{
    if len == 3 {
        let d = [53i32, 32, 11];
        let t = [6i32, 4, 2];
        proof {
            assert(d@ == seq![53i32, 32, 11]);
        }
        (d[pos], t[pos])
    } else if len == 5 {
        let d = [58i32, 45, 32, 19, 6];
        let t = [6i32, 5, 4, 3, 2];
        (d[pos], t[pos])
    } else {
        let d = [59i32, 50, 41, 32, 23, 14, 5];
        let t = [6i32, 5, 4, 3, 2, 1, 1];
        (d[pos], t[pos])
    }
}

/// The middle reference of the long filter (see [`ref_middle`]).
pub open spec fn ref_middle_spec(b: Seq<i32>, len_p: int, len_q: int) -> int {
    let (sm1, sm2, sm3, sm4, sm5, sm6, sm7) = (smp(b, -1), smp(b, -2), smp(b, -3), smp(b, -4), smp(b, -5), smp(b, -6), smp(b, -7));
    let (s0, s1, s2, s3, s4, s5, s6) = (smp(b, 0), smp(b, 1), smp(b, 2), smp(b, 3), smp(b, 4), smp(b, 5), smp(b, 6));
    if len_p == len_q {
        if len_p == 5 {
            floor_shr(2 * (sm1 + s0 + sm2 + s1 + sm3 + s2) + sm4 + s3 + sm5 + s4 + 8, 4)
        } else {
            floor_shr(2 * (sm1 + s0) + sm2 + s1 + sm3 + s2 + sm4 + s3 + sm5 + s4 + sm6 + s5 + sm7 + s6 + 8, 4)
        }
    } else {
        let lp = if len_p > len_q { len_p } else { len_q };
        let lq = if len_p > len_q { len_q } else { len_p };
        if lp == 7 && lq == 5 {
            floor_shr(2 * (sm1 + s0 + sm2 + s1) + sm3 + s2 + sm4 + s3 + sm5 + s4 + sm6 + s5 + 8, 4)
        } else if lp == 7 {
            let (p0, p1, p2, p3, p4, p5, p6) = if len_q > len_p {
                (s0, s1, s2, s3, s4, s5, s6)
            } else {
                (sm1, sm2, sm3, sm4, sm5, sm6, sm7)
            };
            let (q0, q1, q2) = if len_q > len_p { (sm1, sm2, sm3) } else { (s0, s1, s2) };
            floor_shr(2 * (p0 + q0) + q0 + 2 * (q1 + q2) + p1 + q1 + p2 + p3 + p4 + p5 + p6 + 8, 4)
        } else {
            floor_shr(sm1 + s0 + sm2 + s1 + sm3 + s2 + sm4 + s3 + 4, 3)
        }
    }
}

/// Long-filter output at distance `pos` from the edge on a side of length
/// `len`: the blend of the middle and outer references, at most
/// `(tc·factor) >> 1` away from the input `src`.
pub open spec fn long_val(src: int, tc: int, len: int, pos: int, rm: int, refx: int) -> i32 {
    pull(
        src,
        floor_shr(tc * tc_coef(len, pos), 1),
        floor_shr(rm * db_coef(len, pos) + refx * (64 - db_coef(len, pos)) + 32, 6),
    )
}

/// The P pass of the long filter over its first `n` positions (`p0`,
/// `p1`, … backwards from the edge), every input read before the pass.
pub open spec fn long_p_pass(b: Seq<i32>, len_p: int, tc: int, rm: int, ref_p: int, n: int) -> Seq<i32> {
    Seq::new(WIN as nat, |i: int| if Q0 - n <= i < Q0 { long_val(b[i] as int, tc, len_p, Q0 - 1 - i, rm, ref_p) } else { b[i] })
}

/// The Q pass of the long filter over its first `n` positions (from `q0`
/// forwards).
pub open spec fn long_q_pass(b: Seq<i32>, len_q: int, tc: int, rm: int, ref_q: int, n: int) -> Seq<i32> {
    Seq::new(WIN as nat, |i: int| if Q0 <= i < Q0 + n { long_val(b[i] as int, tc, len_q, i - Q0, rm, ref_q) } else { b[i] })
}

/// The long luma filter on one line: `p0 … p(len_p−1)` and
/// `q0 … q(len_q−1)` each blended once between the middle reference and the
/// outer reference of its side (`refP = (p(len_p−1) + p(len_p) + 1) >> 1`,
/// `refQ = (q(len_q−1) + q(len_q) + 1) >> 1`), all references taken before
/// any sample changes.
pub open spec fn long_line(b: Seq<i32>, len_p: int, len_q: int, tc: int) -> Seq<i32> {
    let rm = ref_middle_spec(b, len_p, len_q);
    let ref_p = floor_shr(smp(b, -len_p) + smp(b, -(len_p + 1)) + 1, 1);
    let ref_q = floor_shr(smp(b, len_q - 1) + smp(b, len_q) + 1, 1);
    long_q_pass(long_p_pass(b, len_p, tc, rm, ref_p, len_p), len_q, tc, rm, ref_q, len_q)
}

/// The long filter moves each sample at most `(6·tc) >> 1 = 3·tc` from its
/// input and leaves every sample outside `p(len_p−1) … q(len_q−1)` as it was.
pub proof fn lemma_long_line_bounded(b: Seq<i32>, len_p: int, len_q: int, tc: int)
    requires
        b.len() == WIN,
        len_p == 3 || len_p == 5 || len_p == 7,
        len_q == 3 || len_q == 5 || len_q == 7,
        0 <= tc <= 0x1_0000,
        forall|j: int| 0 <= j < WIN ==> -0x1000_0000 <= #[trigger] b[j] <= 0x1000_0000,
    ensures
        long_line(b, len_p, len_q, tc).len() == WIN,
        forall|j: int|
            0 <= j < WIN ==> -3 * tc <= #[trigger] long_line(b, len_p, len_q, tc)[j] - b[j] <= 3 * tc,
        forall|j: int|
            0 <= j < WIN && (j < Q0 - len_p || j >= Q0 + len_q) ==> #[trigger] long_line(b, len_p, len_q, tc)[j]
                == b[j],
{
    vstd::arithmetic::power2::lemma2_to64();
    let rm = ref_middle_spec(b, len_p, len_q);
    let ref_p = floor_shr(smp(b, -len_p) + smp(b, -(len_p + 1)) + 1, 1);
    let ref_q = floor_shr(smp(b, len_q - 1) + smp(b, len_q) + 1, 1);
    let b1 = long_p_pass(b, len_p, tc, rm, ref_p, len_p);
    let b2 = long_q_pass(b1, len_q, tc, rm, ref_q, len_q);
    assert forall|j: int| 0 <= j < WIN implies -3 * tc <= #[trigger] b2[j] - b[j] <= 3 * tc by {
        if Q0 - len_p <= j < Q0 {
            let c = tc * tc_coef(len_p, Q0 - 1 - j);
            assert(0 <= c <= 6 * tc) by (nonlinear_arith)
                requires
                    c == tc * tc_coef(len_p, Q0 - 1 - j),
                    0 <= tc,
                    0 <= tc_coef(len_p, Q0 - 1 - j) <= 6,
            ;
        } else if Q0 <= j < Q0 + len_q {
            let c = tc * tc_coef(len_q, j - Q0);
            assert(0 <= c <= 6 * tc) by (nonlinear_arith)
                requires
                    c == tc * tc_coef(len_q, j - Q0),
                    0 <= tc,
                    0 <= tc_coef(len_q, j - Q0) <= 6,
            ;
        }
    }
}

/// The middle reference of the long filter: a 16-weight (8-weight for the
/// 5/3 pair) average around the edge, oriented towards the longer side.
#[verifier::rlimit(60)]
fn ref_middle(b: &Vec<i32>, len_p: u8, len_q: u8, Ghost(mx): Ghost<int>, Ghost(v): Ghost<int>) -> (r: i32)
    requires
        b.len() == WIN,
        1 <= mx <= 0xffff,
        in_range(b@, mx),
        len_p == 3 || len_p == 5 || len_p == 7,
        len_q == 3 || len_q == 5 || len_q == 7,
    ensures
        0 <= r <= mx,
        all_eq(b@, v) ==> r == v,
        r == ref_middle_spec(b@, len_p as int, len_q as int),
{
    proof {
        vstd::arithmetic::power2::lemma2_to64();
    }
    let sm1 = get(b, Q0 - 1, Ghost(mx), Ghost(v));
    let s0 = get(b, Q0, Ghost(mx), Ghost(v));
    let sm2 = get(b, Q0 - 2, Ghost(mx), Ghost(v));
    let s1 = get(b, Q0 + 1, Ghost(mx), Ghost(v));
    let sm3 = get(b, Q0 - 3, Ghost(mx), Ghost(v));
    let s2 = get(b, Q0 + 2, Ghost(mx), Ghost(v));
    let sm4 = get(b, Q0 - 4, Ghost(mx), Ghost(v));
    let s3 = get(b, Q0 + 3, Ghost(mx), Ghost(v));
    let sm5 = get(b, Q0 - 5, Ghost(mx), Ghost(v));
    let s4 = get(b, Q0 + 4, Ghost(mx), Ghost(v));
    let sm6 = get(b, Q0 - 6, Ghost(mx), Ghost(v));
    let s5 = get(b, Q0 + 5, Ghost(mx), Ghost(v));
    let sm7 = get(b, Q0 - 7, Ghost(mx), Ghost(v));
    let s6 = get(b, Q0 + 6, Ghost(mx), Ghost(v));
    if len_p == len_q {
        if len_p == 5 {
            wavg(2 * (sm1 + s0 + sm2 + s1 + sm3 + s2) + sm4 + s3 + sm5 + s4, 4, Ghost(mx), Ghost(v))
        } else {
            wavg(
                2 * (sm1 + s0) + sm2 + s1 + sm3 + s2 + sm4 + s3 + sm5 + s4 + sm6 + s5 + sm7 + s6,
                4,
                Ghost(mx),
                Ghost(v),
            )
        }
    } else {
        let lp = if len_p > len_q { len_p } else { len_q };
        let lq = if len_p > len_q { len_q } else { len_p };
        if lp == 7 && lq == 5 {
            wavg(2 * (sm1 + s0 + sm2 + s1) + sm3 + s2 + sm4 + s3 + sm5 + s4 + sm6 + s5, 4, Ghost(mx), Ghost(v))
        } else if lp == 7 {
            let longer_is_q = len_q > len_p;
            let (p0, p1, p2, p3, p4, p5, p6) = if longer_is_q {
                (s0, s1, s2, s3, s4, s5, s6)
            } else {
                (sm1, sm2, sm3, sm4, sm5, sm6, sm7)
            };
            let (q0, q1, q2) = if longer_is_q { (sm1, sm2, sm3) } else { (s0, s1, s2) };
            wavg(
                2 * (p0 + q0) + q0 + 2 * (q1 + q2) + p1 + q1 + p2 + p3 + p4 + p5 + p6,
                4,
                Ghost(mx),
                Ghost(v),
            )
        } else {
            wavg(sm1 + s0 + sm2 + s1 + sm3 + s2 + sm4 + s3, 3, Ghost(mx), Ghost(v))
        }
    }
}

/// The long luma filter (`xFilteringPandQ`, 5/7 taps on a large side): every
/// filtered sample is the blend of the middle and outer references, at most
/// `tc·factor/2` away from its input. The P pass writes `p0 … p(len_p−1)`
/// (indices `Q0 − 1` down to `Q0 − len_p`), the Q pass `q0 … q(len_q−1)`
/// (indices `Q0` up to `Q0 + len_q − 1`); no sample is written twice.
#[verifier::rlimit(40)]
pub fn filtering_p_and_q(b: &mut Vec<i32>, len_p: u8, len_q: u8, tc: i32, max_val: i32)
    requires
        line_ok(old(b)@, max_val as int),
        len_p == 3 || len_p == 5 || len_p == 7,
        len_q == 3 || len_q == 5 || len_q == 7,
        0 <= tc <= 0x1_0000,
    ensures
        line_ok(final(b)@, max_val as int),
        keeps_flat(old(b)@, final(b)@),
        final(b)@ == long_line(old(b)@, len_p as int, len_q as int, tc as int),
{
    let ghost mx = max_val as int;
    let ghost v = b@[Q0 as int] as int;
    let ghost b0 = b@;
    proof {
        vstd::arithmetic::power2::lemma2_to64();
    }
    let np = len_p as usize;
    let nq = len_q as usize;
    let rp0 = get(b, Q0 - np, Ghost(mx), Ghost(v));
    let rp1 = get(b, Q0 - np - 1, Ghost(mx), Ghost(v));
    let rq0 = get(b, Q0 + nq - 1, Ghost(mx), Ghost(v));
    let rq1 = get(b, Q0 + nq, Ghost(mx), Ghost(v));
    let ref_p = wavg(rp0 + rp1, 1, Ghost(mx), Ghost(v));
    let ref_q = wavg(rq0 + rq1, 1, Ghost(mx), Ghost(v));
    let rm = ref_middle(b, len_p, len_q, Ghost(mx), Ghost(v));
    assert(b@ =~= long_p_pass(b0, len_p as int, tc as int, rm as int, ref_p as int, 0));
    let mut pos: usize = 0;
    while pos < np
        invariant
            b.len() == WIN,
            1 <= mx <= 0xffff,
            mx == max_val,
            in_range(b@, mx),
            all_eq(b0, v) ==> all_eq(b@, v) && ref_p == v && rm == v,
            0 <= ref_p <= mx,
            0 <= rm <= mx,
            np == len_p,
            len_p == 3 || len_p == 5 || len_p == 7,
            0 <= tc <= 0x1_0000,
            pos <= np,
            b@ == long_p_pass(b0, len_p as int, tc as int, rm as int, ref_p as int, pos as int),
        decreases np - pos,
    {
        let src = get(b, Q0 - 1 - pos, Ghost(mx), Ghost(v));
        proof {
            vstd::arithmetic::power2::lemma2_to64();
        }
        let (cp, tcp) = db_coef_at(len_p, pos);
        proof {
            assert(0 <= tc * tcp <= 6 * 0x1_0000) by (nonlinear_arith)
                requires
                    0 <= tc <= 0x1_0000,
                    0 <= tcp <= 6,
            ;
        }
        let cvalue = asr32(tc * tcp, 1);
        proof {
            crate::arith::lemma_floor_shr_bounds((tc * tcp) as int, 1);
            assert(rm * cp + ref_p * (64 - cp) <= 64 * mx) by (nonlinear_arith)
                requires
                    0 <= rm <= mx,
                    0 <= ref_p <= mx,
                    0 <= cp <= 64,
            ;
            assert(rm * cp + ref_p * (64 - cp) >= 0) by (nonlinear_arith)
                requires
                    0 <= rm,
                    0 <= ref_p,
                    0 <= cp <= 64,
            ;
            if rm == v && ref_p == v {
                assert(rm * cp + ref_p * (64 - cp) == 64 * v) by (nonlinear_arith)
                    requires
                        rm == v,
                        ref_p == v,
                ;
            }
        }
        let target = wavg(rm * cp + ref_p * (64 - cp), 6, Ghost(mx), Ghost(v));
        let r = blend(src, cvalue, target, Ghost(mx));
        put(b, Q0 - 1 - pos, r, Ghost(mx), Ghost(v));
        assert(b@ =~= long_p_pass(b0, len_p as int, tc as int, rm as int, ref_p as int, pos + 1));
        pos += 1;
    }
    let ghost b1 = b@;
    assert(b@ =~= long_q_pass(b1, len_q as int, tc as int, rm as int, ref_q as int, 0));
    let mut pos: usize = 0;
    while pos < nq
        invariant
            b.len() == WIN,
            1 <= mx <= 0xffff,
            mx == max_val,
            in_range(b@, mx),
            all_eq(b0, v) ==> all_eq(b@, v) && ref_q == v && rm == v,
            0 <= ref_q <= mx,
            0 <= rm <= mx,
            nq == len_q,
            len_q == 3 || len_q == 5 || len_q == 7,
            0 <= tc <= 0x1_0000,
            pos <= nq,
            b1 == long_p_pass(b0, len_p as int, tc as int, rm as int, ref_p as int, len_p as int),
            b@ == long_q_pass(b1, len_q as int, tc as int, rm as int, ref_q as int, pos as int),
        decreases nq - pos,
    {
        let src = get(b, Q0 + pos, Ghost(mx), Ghost(v));
        proof {
            vstd::arithmetic::power2::lemma2_to64();
        }
        let (cq, tcq) = db_coef_at(len_q, pos);
        proof {
            assert(0 <= tc * tcq <= 6 * 0x1_0000) by (nonlinear_arith)
                requires
                    0 <= tc <= 0x1_0000,
                    0 <= tcq <= 6,
            ;
        }
        let cvalue = asr32(tc * tcq, 1);
        proof {
            crate::arith::lemma_floor_shr_bounds((tc * tcq) as int, 1);
            assert(rm * cq + ref_q * (64 - cq) <= 64 * mx) by (nonlinear_arith)
                requires
                    0 <= rm <= mx,
                    0 <= ref_q <= mx,
                    0 <= cq <= 64,
            ;
            assert(rm * cq + ref_q * (64 - cq) >= 0) by (nonlinear_arith)
                requires
                    0 <= rm,
                    0 <= ref_q,
                    0 <= cq <= 64,
            ;
            if rm == v && ref_q == v {
                assert(rm * cq + ref_q * (64 - cq) == 64 * v) by (nonlinear_arith)
                    requires
                        rm == v,
                        ref_q == v,
                ;
            }
        }
        let target = wavg(rm * cq + ref_q * (64 - cq), 6, Ghost(mx), Ghost(v));
        let r = blend(src, cvalue, target, Ghost(mx));
        put(b, Q0 + pos, r, Ghost(mx), Ghost(v));
        assert(b@ =~= long_q_pass(b1, len_q as int, tc as int, rm as int, ref_q as int, pos + 1));
        pos += 1;
    }
}

/// Strong short luma filter: p2..p0 and q0..q2 pulled towards 4/5-tap
/// averages, at most `3·tc`, `2·tc`, `tc` away.
#[verifier::rlimit(100)]
fn luma_strong(b: &mut Vec<i32>, tc: i32, max_val: i32)
    requires
        line_ok(old(b)@, max_val as int),
        0 <= tc <= 0x1_0000,
    ensures
        line_ok(final(b)@, max_val as int),
        keeps_flat(old(b)@, final(b)@),
        final(b)@ == luma_strong_line(old(b)@, tc as int),
{
    let ghost mx = max_val as int;
    let ghost v = b@[Q0 as int] as int;
    let ghost b0 = b@;
    proof {
        vstd::arithmetic::power2::lemma2_to64();
    }
    let m0 = get(b, Q0 - 4, Ghost(mx), Ghost(v));
    let m1 = get(b, Q0 - 3, Ghost(mx), Ghost(v));
    let m2 = get(b, Q0 - 2, Ghost(mx), Ghost(v));
    let m3 = get(b, Q0 - 1, Ghost(mx), Ghost(v));
    let m4 = get(b, Q0, Ghost(mx), Ghost(v));
    let m5 = get(b, Q0 + 1, Ghost(mx), Ghost(v));
    let m6 = get(b, Q0 + 2, Ghost(mx), Ghost(v));
    let m7 = get(b, Q0 + 3, Ghost(mx), Ghost(v));
    let a3 = wavg(m1 + 2 * m2 + 2 * m3 + 2 * m4 + m5, 3, Ghost(mx), Ghost(v));
    let a4 = wavg(m2 + 2 * m3 + 2 * m4 + 2 * m5 + m6, 3, Ghost(mx), Ghost(v));
    let a2 = wavg(m1 + m2 + m3 + m4, 2, Ghost(mx), Ghost(v));
    let a5 = wavg(m3 + m4 + m5 + m6, 2, Ghost(mx), Ghost(v));
    let a1 = wavg(2 * m0 + 3 * m1 + m2 + m3 + m4, 3, Ghost(mx), Ghost(v));
    let a6 = wavg(m3 + m4 + m5 + 3 * m6 + 2 * m7, 3, Ghost(mx), Ghost(v));
    let r3 = blend(m3, 3 * tc, a3, Ghost(mx));
    let r4 = blend(m4, 3 * tc, a4, Ghost(mx));
    let r2 = blend(m2, 2 * tc, a2, Ghost(mx));
    let r5 = blend(m5, 2 * tc, a5, Ghost(mx));
    let r1 = blend(m1, tc, a1, Ghost(mx));
    let r6 = blend(m6, tc, a6, Ghost(mx));
    put(b, Q0 - 1, r3, Ghost(mx), Ghost(v));
    put(b, Q0, r4, Ghost(mx), Ghost(v));
    put(b, Q0 - 2, r2, Ghost(mx), Ghost(v));
    put(b, Q0 + 1, r5, Ghost(mx), Ghost(v));
    put(b, Q0 - 3, r1, Ghost(mx), Ghost(v));
    put(b, Q0 + 2, r6, Ghost(mx), Ghost(v));
    assert(b@ =~= luma_strong_line(b0, tc as int));
}

/// The half-size step of p1 (or q1): `side` moves by
/// `clip3(−tc2, tc2, (((far + near + 1) >> 1) − side + d) >> 1)`, clipped to
/// `[0, mx]`; a constant line with `d = 0` keeps its value.
fn side_step(far: i32, near: i32, side: i32, d: i32, tc2: i32, max_val: i32, Ghost(v): Ghost<int>) -> (r: i32)
    requires
        0 <= far <= max_val <= 0xffff,
        0 <= near <= max_val,
        0 <= side <= max_val,
        -0x1_0000 <= d <= 0x1_0000,
        0 <= tc2 <= 0x1_0000,
    ensures
        r == clip3(0, max_val as int, side + clip3(-tc2, tc2 as int, floor_shr(floor_shr(far + near + 1, 1) - side + d, 1))),
        0 <= r <= max_val,
        far == v && near == v && side == v && d == 0 ==> r == v,
{
    proof {
        vstd::arithmetic::power2::lemma2_to64();
    }
    let h = asr32(far + near + 1, 1);
    proof {
        crate::arith::lemma_floor_shr_bounds((far + near + 1) as int, 1);
        crate::arith::lemma_floor_shr_bounds((h - side + d) as int, 1);
        if far == v && near == v && side == v && d == 0 {
            vstd::arithmetic::div_mod::lemma_fundamental_div_mod_converse(2 * v + 1, 2, v, 1);
            vstd::arithmetic::div_mod::lemma_basic_div(0, 2);
        }
    }
    let d1 = clip3_i32(-tc2, tc2, asr32(h - side + d, 1));
    clip3_i32(0, max_val, side + d1)
}

/// Normal luma filter: a clipped step on p0/q0 when it is below
/// `thr_cut`, and half-size steps on p1 / q1 where enabled.
#[verifier::rlimit(100)]
fn luma_weak(b: &mut Vec<i32>, tc: i32, thr_cut: i32, filter_p: bool, filter_q: bool, max_val: i32)
    requires
        line_ok(old(b)@, max_val as int),
        0 <= tc <= 0x1_0000,
    ensures
        line_ok(final(b)@, max_val as int),
        keeps_flat(old(b)@, final(b)@),
        final(b)@ == luma_weak_line(old(b)@, tc as int, thr_cut as int, filter_p, filter_q, max_val as int),
{
    let ghost mx = max_val as int;
    let ghost v = b@[Q0 as int] as int;
    let ghost b0 = b@;
    let m1 = get(b, Q0 - 3, Ghost(mx), Ghost(v));
    let m2 = get(b, Q0 - 2, Ghost(mx), Ghost(v));
    let m3 = get(b, Q0 - 1, Ghost(mx), Ghost(v));
    let m4 = get(b, Q0, Ghost(mx), Ghost(v));
    let m5 = get(b, Q0 + 1, Ghost(mx), Ghost(v));
    let m6 = get(b, Q0 + 2, Ghost(mx), Ghost(v));
    let delta0 = asr32(9 * (m4 - m3) - 3 * (m5 - m2) + 8, 4);
    proof {
        vstd::arithmetic::power2::lemma2_to64();
        crate::arith::lemma_floor_shr_bounds(9 * (m4 - m3) - 3 * (m5 - m2) + 8, 4);
        if all_eq(b0, v) {
            vstd::arithmetic::div_mod::lemma_basic_div(8, 16);
        }
    }
    let ad = if delta0 < 0 { -delta0 } else { delta0 };
    if ad < thr_cut {
        let delta = clip3_i32(-tc, tc, delta0);
        let r3 = clip3_i32(0, max_val, m3 + delta);
        let r4 = clip3_i32(0, max_val, m4 - delta);
        put(b, Q0 - 1, r3, Ghost(mx), Ghost(v));
        put(b, Q0, r4, Ghost(mx), Ghost(v));
        let tc2 = tc / 2;
        if filter_p {
            let r2 = side_step(m1, m3, m2, delta, tc2, max_val, Ghost(v));
            put(b, Q0 - 2, r2, Ghost(mx), Ghost(v));
        }
        if filter_q {
            let r5 = side_step(m6, m4, m5, -delta, tc2, max_val, Ghost(v));
            put(b, Q0 + 1, r5, Ghost(mx), Ghost(v));
        }
        assert(b@ =~= luma_weak_line(b0, tc as int, thr_cut as int, filter_p, filter_q, mx));
    } else {
        assert(b@ =~= luma_weak_line(b0, tc as int, thr_cut as int, filter_p, filter_q, mx));
    }
}

/// The luma filter of one line: the long filter when a side is large
/// (length 3 on a side that is not), the strong short filter, or the normal
/// filter.
pub open spec fn luma_line_filter(
    b: Seq<i32>,
    tc: int,
    sw: bool,
    thr_cut: int,
    filter_p: bool,
    filter_q: bool,
    side_p_large: bool,
    side_q_large: bool,
    max_p: int,
    max_q: int,
    mx: int,
) -> Seq<i32> {
    if sw {
        if side_p_large || side_q_large {
            long_line(b, if side_p_large { max_p } else { 3 }, if side_q_large { max_q } else { 3 }, tc)
        } else {
            luma_strong_line(b, tc)
        }
    } else {
        luma_weak_line(b, tc, thr_cut, filter_p, filter_q, mx)
    }
}

/// Luma filter of one line (`xPelFilterLuma`): the long filter when a side
/// is large, the strong short filter, or the normal filter.
pub fn pel_filter_luma(
    b: &mut Vec<i32>,
    tc: i32,
    sw: bool,
    thr_cut: i32,
    filter_p: bool,
    filter_q: bool,
    side_p_large: bool,
    side_q_large: bool,
    max_p: u8,
    max_q: u8,
    max_val: i32,
)
    requires
        line_ok(old(b)@, max_val as int),
        0 <= tc <= 0x1_0000,
        side_p_large ==> max_p == 3 || max_p == 5 || max_p == 7,
        side_q_large ==> max_q == 3 || max_q == 5 || max_q == 7,
    ensures
        line_ok(final(b)@, max_val as int),
        keeps_flat(old(b)@, final(b)@),
        final(b)@ == luma_line_filter(
            old(b)@,
            tc as int,
            sw,
            thr_cut as int,
            filter_p,
            filter_q,
            side_p_large,
            side_q_large,
            max_p as int,
            max_q as int,
            max_val as int,
        ),
{
    if sw {
        if side_p_large || side_q_large {
            let lp = if side_p_large { max_p } else { 3 };
            let lq = if side_q_large { max_q } else { 3 };
            filtering_p_and_q(b, lp, lq, tc, max_val);
        } else {
            luma_strong(b, tc, max_val);
        }
    } else {
        luma_weak(b, tc, thr_cut, filter_p, filter_q, max_val);
    }
}

} // verus!
