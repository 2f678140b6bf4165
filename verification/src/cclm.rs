//! Cross-component linear model (CCLM) chroma prediction (H.266 §8.4.5.2.13):
//! chroma is predicted from the co-located downsampled luma through a linear
//! model `C = ((a·L) >> shift) + b` fitted on neighbouring samples.
use vstd::prelude::*;
use vstd::arithmetic::power2::pow2;
use crate::arith::{asr32, floor_shr, lemma_floor_shr_bounds};
use crate::cabac::engine::log2_floor;
use crate::intra::{floor_log2, lemma_log2_floor_pow2, CCLM_L_MODE, CCLM_T_MODE};

verus! {

/// The three CCLM modes (which neighbour template fits the model).
#[derive(Clone, Copy, PartialEq, Eq, Debug)]
pub enum CclmMode {
    /// LM_CHROMA: top + left templates.
    Lt,
    /// MDLM_L: left (and below-left) template only.
    L,
    /// MDLM_T: top (and above-right) template only.
    T,
}

/// Division significand table (`DivSigTable`, H.266 §8.4.5.2.13): 4-bit
/// significands minus 8 (the leading one is implied).
pub const DIV_SIG_TABLE: [i32; 16] = [0, 7, 6, 5, 5, 4, 4, 3, 3, 2, 2, 1, 1, 1, 1, 0];

/// Largest magnitude a model input sample may have.
pub const CCLM_SAMPLE_LIMIT: i32 = 0x100_0000;

/// The four selected samples are within the model's working range.
pub open spec fn cclm_inputs_ok(v: Seq<i32>) -> bool {
    v.len() == 4 && forall|i: int| 0 <= i < 4 ==> -CCLM_SAMPLE_LIMIT <= #[trigger] v[i] <= CCLM_SAMPLE_LIMIT
}

/// Split the four selected samples into the two with the smaller luma and the
/// two with the larger luma: `(min0, min1, max0, max1)` indices, found by the
/// three compare-and-swap steps of the standard.
pub open spec fn cclm_groups(l: Seq<i32>) -> (int, int, int, int) {
    let a0: int = if l[0] > l[2] { 2 } else { 0 };
    let a1: int = if l[0] > l[2] { 0 } else { 2 };
    let b0: int = if l[1] > l[3] { 3 } else { 1 };
    let b1: int = if l[1] > l[3] { 1 } else { 3 };
    let sw = l[a0] > l[b1];
    let c0 = if sw { b0 } else { a0 };
    let c1 = if sw { b1 } else { a1 };
    let d0 = if sw { a0 } else { b0 };
    let d1 = if sw { a1 } else { b1 };
    if l[c1] > l[d0] {
        (c0, d0, c1, d1)
    } else {
        (c0, c1, d0, d1)
    }
}

/// Rounded average of two samples.
pub open spec fn avg2(a: int, b: int) -> int {
    floor_shr(a + b + 1, 1)
}

/// Magnitude of `v`, at least one.
pub open spec fn abs_at_least_one(v: int) -> int {
    if v < 0 {
        -v
    } else if v == 0 {
        1
    } else {
        v
    }
}

/// The linear model through the lower-group point `(min_l, min_c)` and the
/// upper-group point `(max_l, max_c)`: slope `a / 2^shift` from the division
/// significand table, offset `b` so that the line passes the lower point.
pub open spec fn spec_cclm_fit(min_l: int, min_c: int, max_l: int, max_c: int) -> (int, int, int) {
    let diff = max_l - min_l;
    if diff <= 0 {
        (0, min_c, 0)
    } else {
        let diff_c = max_c - min_c;
        let x0 = log2_floor(diff);
        let norm = floor_shr(diff * 16, x0 as nat) % 16;
        let v = DIV_SIG_TABLE[norm] + 8;
        let x = x0 + if norm != 0 { 1int } else { 0int };
        let y = log2_floor(abs_at_least_one(diff_c)) + 1;
        let add = pow2(y as nat) as int / 2;
        let a0 = floor_shr(diff_c * v + add, y as nat);
        let sh0 = 3 + x - y;
        let a = if sh0 < 1 {
            if a0 == 0 {
                0
            } else if a0 < 0 {
                -15
            } else {
                15
            }
        } else {
            a0
        };
        let sh = if sh0 < 1 { 1 } else { sh0 };
        (a, min_c - floor_shr(a * min_l, sh as nat), sh)
    }
}

/// The CCLM model `(a, b, shift)` fitted on the selected luma `l` and chroma
/// `c` samples (H.266 §8.4.5.2.13). Without neighbours the model predicts the
/// mid-level `2^(bd-1)`; with a flat luma template it predicts the average
/// chroma of the lower group.
pub open spec fn spec_cclm_model(l: Seq<i32>, c: Seq<i32>, have: bool, bd: u8) -> (int, int, int) {
    if !have {
        (0, pow2((bd - 1) as nat) as int, 0)
    } else {
        let g = cclm_groups(l);
        spec_cclm_fit(
            avg2(l[g.0] as int, l[g.1] as int),
            avg2(c[g.0] as int, c[g.1] as int),
            avg2(l[g.2] as int, l[g.3] as int),
            avg2(c[g.2] as int, c[g.3] as int),
        )
    }
}

/// A flat chroma template gives a flat model: slope 0 and offset the
/// chroma value, whatever the luma samples.
pub proof fn lemma_cclm_constant_chroma(l: Seq<i32>, c: Seq<i32>, bd: u8)
    requires
        l.len() == 4,
        c.len() == 4,
        c[0] == c[1],
        c[1] == c[2],
        c[2] == c[3],
    ensures
        spec_cclm_model(l, c, true, bd).0 == 0,
        spec_cclm_model(l, c, true, bd).1 == c[0],
{
    vstd::arithmetic::power2::lemma2_to64();
    let v = c[0] as int;
    let g = cclm_groups(l);
    assert(0 <= g.0 < 4 && 0 <= g.1 < 4 && 0 <= g.2 < 4 && 0 <= g.3 < 4);
    vstd::arithmetic::div_mod::lemma_fundamental_div_mod_converse(2 * v + 1, 2, v, 1);
    assert(avg2(v, v) == v);
    let min_l = avg2(l[g.0] as int, l[g.1] as int);
    let max_l = avg2(l[g.2] as int, l[g.3] as int);
    let diff = max_l - min_l;
    if diff > 0 {
        assert(abs_at_least_one(0) == 1);
        assert(log2_floor(1) == 0);
        let x0 = log2_floor(diff);
        let norm = floor_shr(diff * 16, x0 as nat) % 16;
        assert(0 <= norm < 16);
        let dv = DIV_SIG_TABLE[norm] + 8;
        assert(floor_shr(0 * dv + 1, 1) == 0);
        let x = x0 + if norm != 0 { 1int } else { 0int };
        let sh0 = 3 + x - 1;
        let sh = if sh0 < 1 { 1 } else { sh0 };
        vstd::arithmetic::power2::lemma_pow2_pos(sh as nat);
        assert(floor_shr(0 * min_l, sh as nat) == 0);
    }
}

/// A flat luma template gives a flat model: slope 0, shift 0 and offset the
/// rounded mean of the chroma samples at positions 0 and 2.
pub proof fn lemma_cclm_flat_luma(l: Seq<i32>, c: Seq<i32>, bd: u8)
    requires
        l.len() == 4,
        c.len() == 4,
        l[0] == l[1],
        l[1] == l[2],
        l[2] == l[3],
    ensures
        spec_cclm_model(l, c, true, bd) == (0int, avg2(c[0] as int, c[2] as int), 0int),
{
    assert(cclm_groups(l) == (0int, 2int, 1int, 3int));
}

proof fn lemma_slope_bound(n: int, dc: int, v: int, p: int)
    requires
        p >= 2,
        -p < dc < p,
        8 <= v <= 15,
        n == dc * v + p / 2,
    ensures
        -16 <= n / p <= 16,
{
    assert(-15 * p < dc * v + p / 2 < 16 * p) by (nonlinear_arith)
        requires
            p >= 2,
            -p < dc < p,
            8 <= v <= 15,
    ;
    vstd::arithmetic::div_mod::lemma_fundamental_div_mod(n, p);
    vstd::arithmetic::div_mod::lemma_mod_bound(n, p);
    let q = n / p;
    let r = n % p;
    assert(-16 <= q <= 16) by (nonlinear_arith)
        requires
            n == p * q + r,
            0 <= r < p,
            -15 * p < n < 16 * p,
            p >= 2,
    ;
}

/// Fit the CCLM model on the four selected neighbour samples.
pub fn cclm_model(sel_luma: [i32; 4], sel_chroma: [i32; 4], have_neighbours: bool, bd: u8) -> (r: (
    i32,
    i32,
    u32,
))
    requires
        1 <= bd <= 16,
        cclm_inputs_ok(sel_luma@),
        cclm_inputs_ok(sel_chroma@),
    ensures
        (r.0 as int, r.1 as int, r.2 as int) == spec_cclm_model(
            sel_luma@,
            sel_chroma@,
            have_neighbours,
            bd,
        ),
        r.2 < 32,
        -16 <= r.0 <= 16,
        -0x2000_0000 <= r.1 <= 0x2000_0000,
{
    if !have_neighbours {
        proof {
            vstd::arithmetic::power2::lemma2_to64();
            if bd - 1 < 16 {
                vstd::arithmetic::power2::lemma_pow2_strictly_increases((bd - 1) as nat, 16);
            }
            vstd::bits::lemma_u32_shl_is_mul(1, (bd - 1) as u32);
        }
        return (0, (1u32 << ((bd - 1) as u32)) as i32, 0);
    }
    let l = sel_luma;
    let c = sel_chroma;
    let (mut a0, mut a1): (usize, usize) = if l[0] > l[2] {
        (2, 0)
    } else {
        (0, 2)
    };
    let (mut b0, mut b1): (usize, usize) = if l[1] > l[3] {
        (3, 1)
    } else {
        (1, 3)
    };
    if l[a0] > l[b1] {
        let (t0, t1) = (a0, a1);
        a0 = b0;
        a1 = b1;
        b0 = t0;
        b1 = t1;
    }
    if l[a1] > l[b0] {
        let t = a1;
        a1 = b0;
        b0 = t;
    }
    assert(cclm_groups(l@) == (a0 as int, a1 as int, b0 as int, b1 as int));
    assert(-CCLM_SAMPLE_LIMIT <= l@[a0 as int] <= CCLM_SAMPLE_LIMIT);
    assert(-CCLM_SAMPLE_LIMIT <= l@[a1 as int] <= CCLM_SAMPLE_LIMIT);
    assert(-CCLM_SAMPLE_LIMIT <= l@[b0 as int] <= CCLM_SAMPLE_LIMIT);
    assert(-CCLM_SAMPLE_LIMIT <= l@[b1 as int] <= CCLM_SAMPLE_LIMIT);
    assert(-CCLM_SAMPLE_LIMIT <= c@[a0 as int] <= CCLM_SAMPLE_LIMIT);
    assert(-CCLM_SAMPLE_LIMIT <= c@[a1 as int] <= CCLM_SAMPLE_LIMIT);
    assert(-CCLM_SAMPLE_LIMIT <= c@[b0 as int] <= CCLM_SAMPLE_LIMIT);
    assert(-CCLM_SAMPLE_LIMIT <= c@[b1 as int] <= CCLM_SAMPLE_LIMIT);
    let min_luma = asr32(l[a0] + l[a1] + 1, 1);
    let min_chroma = asr32(c[a0] + c[a1] + 1, 1);
    let max_luma = asr32(l[b0] + l[b1] + 1, 1);
    let max_chroma = asr32(c[b0] + c[b1] + 1, 1);
    proof {
        lemma_floor_shr_bounds(l@[a0 as int] + l@[a1 as int] + 1, 1);
        lemma_floor_shr_bounds(c@[a0 as int] + c@[a1 as int] + 1, 1);
        lemma_floor_shr_bounds(l@[b0 as int] + l@[b1 as int] + 1, 1);
        lemma_floor_shr_bounds(c@[b0 as int] + c@[b1 as int] + 1, 1);
        vstd::arithmetic::power2::lemma2_to64();
        assert(pow2(1) == 2);
    }
    assert(min_luma == (l@[a0 as int] + l@[a1 as int] + 1) / 2);
    assert(min_chroma == (c@[a0 as int] + c@[a1 as int] + 1) / 2);
    assert(max_luma == (l@[b0 as int] + l@[b1 as int] + 1) / 2);
    assert(max_chroma == (c@[b0 as int] + c@[b1 as int] + 1) / 2);
    assert(-CCLM_SAMPLE_LIMIT <= min_luma <= CCLM_SAMPLE_LIMIT);
    assert(-CCLM_SAMPLE_LIMIT <= min_chroma <= CCLM_SAMPLE_LIMIT);
    assert(-CCLM_SAMPLE_LIMIT <= max_luma <= CCLM_SAMPLE_LIMIT);
    assert(-CCLM_SAMPLE_LIMIT <= max_chroma <= CCLM_SAMPLE_LIMIT);
    cclm_fit(min_luma, min_chroma, max_luma, max_chroma)
}

/// Fit the line through the two group averages.
fn cclm_fit(min_luma: i32, min_chroma: i32, max_luma: i32, max_chroma: i32) -> (r: (i32, i32, u32))
    requires
        -CCLM_SAMPLE_LIMIT <= min_luma <= CCLM_SAMPLE_LIMIT,
        -CCLM_SAMPLE_LIMIT <= min_chroma <= CCLM_SAMPLE_LIMIT,
        -CCLM_SAMPLE_LIMIT <= max_luma <= CCLM_SAMPLE_LIMIT,
        -CCLM_SAMPLE_LIMIT <= max_chroma <= CCLM_SAMPLE_LIMIT,
    ensures
        (r.0 as int, r.1 as int, r.2 as int) == spec_cclm_fit(
            min_luma as int,
            min_chroma as int,
            max_luma as int,
            max_chroma as int,
        ),
        r.2 < 32,
        -16 <= r.0 <= 16,
        -0x2000_0000 <= r.1 <= 0x2000_0000,
{
    proof {
        vstd::arithmetic::power2::lemma2_to64();
    }
    let diff = max_luma - min_luma;
    if diff <= 0 {
        return (0, min_chroma, 0);
    }
    let diff_c = max_chroma - min_chroma;
    let mut x = floor_log2(diff as u32) as i32;
    proof {
        lemma_log2_floor_pow2(diff as int);
        vstd::arithmetic::power2::lemma2_to64_rest();
        if x < 26 {
            vstd::arithmetic::power2::lemma_pow2_strictly_increases(x as nat, 26);
        }
        if x > 26 {
            vstd::arithmetic::power2::lemma_pow2_strictly_increases(26, x as nat);
        }
    }
    assert(x <= 26);
    let norm_diff = asr32(diff * 16, x as u32) % 16;
    proof {
        lemma_floor_shr_bounds(diff * 16, x as nat);
    }
    let v = DIV_SIG_TABLE[norm_diff as usize] + 8;
    proof {
        assert(DIV_SIG_TABLE@ =~= seq![0i32, 7, 6, 5, 5, 4, 4, 3, 3, 2, 2, 1, 1, 1, 1, 0]);
    }
    assert(8 <= v <= 15);
    x += (norm_diff != 0) as i32;
    let mag = if diff_c < 0 {
        -diff_c
    } else if diff_c == 0 {
        1
    } else {
        diff_c
    };
    let y = floor_log2(mag as u32) as i32 + 1;
    proof {
        lemma_log2_floor_pow2(mag as int);
        vstd::arithmetic::power2::lemma_pow2_unfold(y as nat);
        if y - 1 < 26 {
            vstd::arithmetic::power2::lemma_pow2_strictly_increases((y - 1) as nat, 26);
        }
        if y - 1 > 26 {
            vstd::arithmetic::power2::lemma_pow2_strictly_increases(26, (y - 1) as nat);
        }
        vstd::bits::lemma_u32_shl_is_mul(1, y as u32);
        vstd::bits::lemma_u32_pow2_no_overflow(y as nat);
    }
    assert(1 <= y <= 27);
    let add = ((1u32 << (y as u32)) / 2) as i32;
    assert(-0x7000_0000 <= diff_c * v <= 0x7000_0000) by (nonlinear_arith)
        requires
            -0x200_0000 <= diff_c <= 0x200_0000,
            8 <= v <= 15,
    ;
    let n = diff_c * v + add;
    let mut a = asr32(n, y as u32);
    proof {
        lemma_slope_bound(n as int, diff_c as int, v as int, pow2(y as nat) as int);
    }
    let mut shift = 3 + x - y;
    if shift < 1 {
        shift = 1;
        a = if a == 0 {
            0
        } else if a < 0 {
            -15
        } else {
            15
        };
    }
    assert(-16 <= a <= 16);
    assert(-0x1000_0000 <= a * min_luma <= 0x1000_0000) by (nonlinear_arith)
        requires
            -16 <= a <= 16,
            -0x100_0000 <= min_luma <= 0x100_0000,
    ;
    let prod = a * min_luma;
    proof {
        lemma_floor_shr_bounds(prod as int, shift as nat);
    }
    let b = min_chroma - asr32(prod, shift as u32);
    (a, b, shift as u32)
}


// ---------------------------------------------------------------------------
// Neighbour sample selection
// ---------------------------------------------------------------------------
/// First selected position in a template of `len` samples.
pub open spec fn sel_start(len: int, only: bool) -> int {
    if only { len / 8 } else { len / 4 }
}

/// Distance between selected positions.
pub open spec fn sel_step(len: int, only: bool) -> int {
    let s = if only { len / 4 } else { len / 2 };
    if s < 1 { 1 } else { s }
}

/// Number of samples selected from a template of `len` samples: two, or four
/// when it is the only template.
pub open spec fn sel_count(len: int, only: bool) -> int {
    let m: int = if only { 4 } else { 2 };
    if len < m { len } else { m }
}

/// The `k`-th selected sample of template `v` (positions come from the
/// template length `len`).
pub open spec fn sel_pick(v: Seq<i32>, len: int, only: bool, k: int) -> i32 {
    v[sel_start(len, only) + k * sel_step(len, only)]
}

/// The selected samples: those of the top template, then those of the left.
pub open spec fn cclm_picks(
    top: Seq<i32>,
    top_len: int,
    left: Seq<i32>,
    left_len: int,
    above_avail: bool,
    left_avail: bool,
) -> Seq<i32> {
    let ct = if above_avail { sel_count(top_len, !left_avail) } else { 0 };
    let cl = if left_avail { sel_count(left_len, !above_avail) } else { 0 };
    Seq::new(ct as nat, |k: int| sel_pick(top, top_len, !left_avail, k)) + Seq::new(
        cl as nat,
        |k: int| sel_pick(left, left_len, !above_avail, k),
    )
}

/// The four model inputs from the selected samples: two selections are
/// repeated crosswise, fewer than four otherwise are padded with zeros.
pub open spec fn cclm_arrange(p: Seq<i32>) -> Seq<i32> {
    if p.len() == 2 {
        seq![p[1], p[0], p[1], p[0]]
    } else {
        Seq::new(4, |i: int| if i < p.len() { p[i] } else { 0i32 })
    }
}

proof fn lemma_sel_in_bounds(len: int, only: bool, k: int)
    requires
        0 <= k < sel_count(len, only),
    ensures
        0 <= sel_start(len, only) + k * sel_step(len, only) < len,
{
    if k == 0 {
    } else if k == 1 {
    } else if k == 2 {
    } else {
        assert(k == 3);
    }
}

/// Pick `cnt` samples of `v` (and of `w` at the same positions) from `start`
/// in steps of `step`, storing them from `at` on.
fn pick_into(
    sel_l: &mut [i32; 4],
    sel_c: &mut [i32; 4],
    at: usize,
    v: &[i32],
    w: &[i32],
    only: bool,
)
    requires
        w.len() >= v.len(),
        v.len() < 0x8000_0000,
        at + sel_count(v.len() as int, only) <= 4,
    ensures
        forall|i: int|
            0 <= i < 4 && !(at <= i < at + sel_count(v.len() as int, only))
                ==> final(sel_l)[i] == old(sel_l)[i] && final(sel_c)[i] == old(sel_c)[i],
        forall|k: int|
            0 <= k < sel_count(v.len() as int, only) ==> final(sel_l)[at + k] == sel_pick(
                v@,
                v.len() as int,
                only,
                k,
            ) && final(sel_c)[at + k] == sel_pick(w@, v.len() as int, only, k),
{
    let len = v.len();
    let start = if only {
        len / 8
    } else {
        len / 4
    };
    let half = if only {
        len / 4
    } else {
        len / 2
    };
    let step = if half < 1 {
        1
    } else {
        half
    };
    let m: usize = if only {
        4
    } else {
        2
    };
    let cnt = if len < m {
        len
    } else {
        m
    };
    let mut k: usize = 0;
    while k < cnt
        invariant
            k <= cnt,
            cnt == sel_count(len as int, only),
            start == sel_start(len as int, only),
            step == sel_step(len as int, only),
            len == v.len(),
            w.len() >= v.len(),
            at + cnt <= 4,
            forall|i: int| 0 <= i < 4 && !(at <= i < at + k) ==> sel_l[i] == old(sel_l)[i]
                && sel_c[i] == old(sel_c)[i],
            forall|j: int|
                0 <= j < k ==> sel_l[at + j] == sel_pick(v@, len as int, only, j) && sel_c[at
                    + j] == sel_pick(w@, len as int, only, j),
        decreases cnt - k,
    {
        proof {
            lemma_sel_in_bounds(len as int, only, k as int);
        }
        let pos = start + k * step;
        sel_l[at + k] = v[pos];
        sel_c[at + k] = w[pos];
        k += 1;
    }
}

/// Select the four neighbour sample pairs the model is fitted on (two from
/// each template when both exist, four from the only one otherwise).
/// Returns `false` when no template is available.
pub fn cclm_select(
    top_luma: &[i32],
    top_chroma: &[i32],
    left_luma: &[i32],
    left_chroma: &[i32],
    above_avail: bool,
    left_avail: bool,
) -> (r: ([i32; 4], [i32; 4], bool))
    requires
        top_chroma.len() >= top_luma.len(),
        left_chroma.len() >= left_luma.len(),
        top_luma.len() < 0x8000_0000,
        left_luma.len() < 0x8000_0000,
    ensures
        r.2 == (above_avail || left_avail),
        !r.2 ==> r.0@ == seq![0i32, 0, 0, 0] && r.1@ == seq![0i32, 0, 0, 0],
        r.2 ==> r.0@ == cclm_arrange(
            cclm_picks(
                top_luma@,
                top_luma.len() as int,
                left_luma@,
                left_luma.len() as int,
                above_avail,
                left_avail,
            ),
        ),
        r.2 ==> r.1@ == cclm_arrange(
            cclm_picks(
                top_chroma@,
                top_luma.len() as int,
                left_chroma@,
                left_luma.len() as int,
                above_avail,
                left_avail,
            ),
        ),
{
    let mut sel_l = [0i32; 4];
    let mut sel_c = [0i32; 4];
    if !above_avail && !left_avail {
        assert(sel_l@ =~= seq![0i32, 0, 0, 0]);
        assert(sel_c@ =~= seq![0i32, 0, 0, 0]);
        return (sel_l, sel_c, false);
    }
    let mut cnt_t: usize = 0;
    if above_avail {
        pick_into(&mut sel_l, &mut sel_c, 0, top_luma, top_chroma, !left_avail);
        let len = top_luma.len();
        let m: usize = if !left_avail {
            4
        } else {
            2
        };
        cnt_t = if len < m {
            len
        } else {
            m
        };
    }
    let mut cnt_l: usize = 0;
    if left_avail {
        pick_into(&mut sel_l, &mut sel_c, cnt_t, left_luma, left_chroma, !above_avail);
        let len = left_luma.len();
        let m: usize = if !above_avail {
            4
        } else {
            2
        };
        cnt_l = if len < m {
            len
        } else {
            m
        };
    }
    let ghost pl = cclm_picks(
        top_luma@,
        top_luma.len() as int,
        left_luma@,
        left_luma.len() as int,
        above_avail,
        left_avail,
    );
    let ghost pc = cclm_picks(
        top_chroma@,
        top_luma.len() as int,
        left_chroma@,
        left_luma.len() as int,
        above_avail,
        left_avail,
    );
    assert(pl.len() == cnt_t + cnt_l);
    if cnt_t + cnt_l == 2 {
        sel_l[3] = sel_l[0];
        sel_c[3] = sel_c[0];
        sel_l[2] = sel_l[1];
        sel_c[2] = sel_c[1];
        sel_l[0] = sel_l[1];
        sel_c[0] = sel_c[1];
        sel_l[1] = sel_l[3];
        sel_c[1] = sel_c[3];
    }
    assert(sel_l@ =~= cclm_arrange(pl));
    assert(sel_c@ =~= cclm_arrange(pc));
    (sel_l, sel_c, true)
}

// ---------------------------------------------------------------------------
// Prediction
// ---------------------------------------------------------------------------
/// The chroma predicted from a downsampled luma sample by the model.
pub open spec fn cclm_sample(l: int, a: int, b: int, shift: nat, max_val: int) -> int {
    let v = floor_shr(a * l, shift) + b;
    if v < 0 {
        0
    } else if v > max_val {
        max_val
    } else {
        v
    }
}

/// The model applied to a luma sample stays in `i32` range.
pub open spec fn cclm_sample_fits(l: int, a: int, b: int, shift: nat) -> bool {
    &&& i32::MIN <= a * l <= i32::MAX
    &&& i32::MIN <= floor_shr(a * l, shift) + b <= i32::MAX
}

/// Apply the model to every downsampled luma sample, clamping to
/// `[0, max_val]`.
pub fn predict_cclm(luma_ds: &[i32], a: i32, b: i32, shift: u32, max_val: i32) -> (r: Vec<i32>)
    requires
        shift < 32,
        max_val >= 0,
        forall|i: int|
            0 <= i < luma_ds.len() ==> cclm_sample_fits(#[trigger] luma_ds[i] as int, a as int, b as int, shift as nat),
    ensures
        r.len() == luma_ds.len(),
        forall|i: int|
            0 <= i < luma_ds.len() ==> r[i] == cclm_sample(
                #[trigger] luma_ds[i] as int,
                a as int,
                b as int,
                shift as nat,
                max_val as int,
            ),
{
    let mut out: Vec<i32> = Vec::new();
    let mut i: usize = 0;
    while i < luma_ds.len()
        invariant
            i <= luma_ds.len(),
            out.len() == i,
            shift < 32,
            max_val >= 0,
            forall|k: int|
                0 <= k < luma_ds.len() ==> cclm_sample_fits(#[trigger] luma_ds[k] as int, a as int, b as int, shift as nat),
            forall|k: int|
                0 <= k < i ==> out[k] == cclm_sample(
                    #[trigger] luma_ds[k] as int,
                    a as int,
                    b as int,
                    shift as nat,
                    max_val as int,
                ),
        decreases luma_ds.len() - i,
    {
        let l = luma_ds[i];
        assert(cclm_sample_fits(luma_ds[i as int] as int, a as int, b as int, shift as nat));
        let v = asr32(a * l, shift) + b;
        let c = if v < 0 {
            0
        } else if v > max_val {
            max_val
        } else {
            v
        };
        out.push(c);
        i += 1;
    }
    out
}


// ---------------------------------------------------------------------------
// Reconstructed planes and luma downsampling
// ---------------------------------------------------------------------------
/// A reconstructed sample plane (row-major), read with coordinates clamped to
/// its edges.
pub struct Plane {
    pub data: Vec<i32>,
    pub width: usize,
    pub height: usize,
}

/// `v` clamped to `[0, n - 1]`.
pub open spec fn clamp_coord(v: int, n: int) -> int {
    if v < 0 {
        0
    } else if v >= n {
        n - 1
    } else {
        v
    }
}

/// Largest magnitude of a plane sample the downsampling accepts.
pub const PLANE_SAMPLE_LIMIT: i32 = 0x100_0000;

impl Plane {
    /// The plane holds `width * height` samples of bounded magnitude.
    pub open spec fn wf(&self) -> bool {
        &&& 1 <= self.width <= 0x10000
        &&& 1 <= self.height <= 0x10000
        &&& self.data.len() == self.width * self.height
        &&& forall|k: int|
            0 <= k < self.data.len() ==> -PLANE_SAMPLE_LIMIT <= #[trigger] self.data[k]
                <= PLANE_SAMPLE_LIMIT
    }

    /// The sample at `(x, y)` with both coordinates clamped into the plane.
    pub open spec fn sample(&self, x: int, y: int) -> int {
        self.data[clamp_coord(y, self.height as int) * self.width + clamp_coord(
            x,
            self.width as int,
        )] as int
    }

    /// Read the sample at `(x, y)`, clamping the coordinates to the plane.
    pub fn at(&self, x: isize, y: isize) -> (r: i32)
        requires
            self.wf(),
        ensures
            r == self.sample(x as int, y as int),
            -PLANE_SAMPLE_LIMIT <= r <= PLANE_SAMPLE_LIMIT,
    {
        let cx: usize = if x < 0 {
            0
        } else if x as usize >= self.width {
            self.width - 1
        } else {
            x as usize
        };
        let cy: usize = if y < 0 {
            0
        } else if y as usize >= self.height {
            self.height - 1
        } else {
            y as usize
        };
        assert(cy * self.width + cx < self.width * self.height) by (nonlinear_arith)
            requires
                cy < self.height,
                cx < self.width,
        ;
        self.data[cy * self.width + cx]
    }
}

/// Downsampled luma under the chroma sample `(i, j)` of the block at luma
/// position `(lx, ly)`: a copy in 4:4:4, the 4-tap horizontal filter in 4:2:2,
/// the 6-tap filter over two rows otherwise. The left tap falls back onto the
/// centre in the first column when the left neighbour is unavailable.
pub open spec fn ds_block(
    p: &Plane,
    lx: int,
    ly: int,
    i: int,
    j: int,
    sub_w: int,
    sub_h: int,
    left_avail: bool,
) -> int {
    let xx = lx + i * sub_w;
    let yy = ly + j * sub_h;
    let lo: int = if i == 0 && !left_avail { 0 } else { 1 };
    if sub_w == 1 && sub_h == 1 {
        p.sample(xx, yy)
    } else if sub_w == 2 && sub_h == 1 {
        floor_shr(2 + p.sample(xx, yy) * 2 + p.sample(xx + 1, yy) + p.sample(xx - lo, yy), 2)
    } else {
        floor_shr(
            4 + p.sample(xx, yy) * 2 + p.sample(xx + 1, yy) + p.sample(xx - lo, yy) + p.sample(
                xx,
                yy + 1,
            ) * 2 + p.sample(xx + 1, yy + 1) + p.sample(xx - lo, yy + 1),
            3,
        )
    }
}

/// Downsampled luma of the top template at chroma column `i`: at the first
/// row of a CTU only the row just above is used.
pub open spec fn ds_top(
    p: &Plane,
    lx: int,
    ly: int,
    i: int,
    sub_w: int,
    sub_h: int,
    left_avail: bool,
    first_row_of_ctu: bool,
) -> int {
    let xx = lx + i * sub_w;
    let lo: int = if i == 0 && !left_avail { 0 } else { 1 };
    if sub_w == 1 && sub_h == 1 {
        p.sample(xx, ly - 1)
    } else if first_row_of_ctu {
        floor_shr(p.sample(xx, ly - 1) * 2 + p.sample(xx - lo, ly - 1) + p.sample(xx + 1, ly - 1) + 2, 2)
    } else if sub_w == 2 && sub_h == 1 {
        floor_shr(2 + p.sample(xx, ly - 1) * 2 + p.sample(xx - lo, ly - 1) + p.sample(xx + 1, ly - 1), 2)
    } else {
        floor_shr(
            4 + p.sample(xx, ly - 2) * 2 + p.sample(xx + 1, ly - 2) + p.sample(xx - lo, ly - 2)
                + p.sample(xx, ly - 1) * 2 + p.sample(xx + 1, ly - 1) + p.sample(xx - lo, ly - 1),
            3,
        )
    }
}

/// Downsampled luma of the left template at chroma row `j`.
pub open spec fn ds_left(p: &Plane, lx: int, ly: int, j: int, sub_w: int, sub_h: int) -> int {
    let yy = ly + j * sub_h;
    if sub_w == 1 && sub_h == 1 {
        p.sample(lx - 1, yy)
    } else if sub_w == 2 && sub_h == 1 {
        floor_shr(2 + p.sample(lx - 2, yy) * 2 + p.sample(lx - 1, yy) + p.sample(lx - 3, yy), 2)
    } else {
        floor_shr(
            4 + p.sample(lx - 2, yy) * 2 + p.sample(lx - 1, yy) + p.sample(lx - 3, yy) + p.sample(
                lx - 2,
                yy + 1,
            ) * 2 + p.sample(lx - 1, yy + 1) + p.sample(lx - 3, yy + 1),
            3,
        )
    }
}

/// Geometry the downsampling accepts: chroma subsampling of one or two, and
/// coordinates far from the `isize` limits.
pub open spec fn ds_geometry_ok(lx: int, ly: int, ccw: int, cch: int, sub_w: int, sub_h: int, top_len: int, left_len: int) -> bool {
    &&& 1 <= sub_w <= 2
    &&& 1 <= sub_h <= 2
    &&& lx <= 0x10_0000
    &&& ly <= 0x10_0000
    &&& ccw <= 0x1000
    &&& cch <= 0x1000
    &&& top_len <= 0x1000
    &&& left_len <= 0x1000
}

proof fn lemma_ds_bound(a: int, b: int, c: int, d: int, e: int, f: int)
    requires
        -0x100_0000 <= a <= 0x100_0000,
        -0x100_0000 <= b <= 0x100_0000,
        -0x100_0000 <= c <= 0x100_0000,
        -0x100_0000 <= d <= 0x100_0000,
        -0x100_0000 <= e <= 0x100_0000,
        -0x100_0000 <= f <= 0x100_0000,
    ensures
        -0x100_0000 <= floor_shr(2 + a * 2 + b + c, 2) <= 0x100_0000,
        -0x100_0000 <= floor_shr(a * 2 + b + c + 2, 2) <= 0x100_0000,
        -0x100_0000 <= floor_shr(4 + a * 2 + b + c + d * 2 + e + f, 3) <= 0x100_0000,
{
    vstd::arithmetic::power2::lemma2_to64();
}

/// One downsampled sample of the block (see [`ds_block`]).
fn ds_block_at(
    p: &Plane,
    xx: isize,
    yy: isize,
    lo: isize,
    sub_w: usize,
    sub_h: usize,
) -> (r: i32)
    requires
        p.wf(),
        -0x1000_0000 <= xx <= 0x1000_0000,
        -0x1000_0000 <= yy <= 0x1000_0000,
        0 <= lo <= 1,
    ensures
        r as int == (if sub_w == 1 && sub_h == 1 {
            p.sample(xx as int, yy as int)
        } else if sub_w == 2 && sub_h == 1 {
            floor_shr(
                2 + p.sample(xx as int, yy as int) * 2 + p.sample(xx + 1, yy as int) + p.sample(
                    xx - lo,
                    yy as int,
                ),
                2,
            )
        } else {
            floor_shr(
                4 + p.sample(xx as int, yy as int) * 2 + p.sample(xx + 1, yy as int) + p.sample(
                    xx - lo,
                    yy as int,
                ) + p.sample(xx as int, yy + 1) * 2 + p.sample(xx + 1, yy + 1) + p.sample(
                    xx - lo,
                    yy + 1,
                ),
                3,
            )
        }),
        -PLANE_SAMPLE_LIMIT <= r <= PLANE_SAMPLE_LIMIT,
{
    if sub_w == 1 && sub_h == 1 {
        p.at(xx, yy)
    } else if sub_w == 2 && sub_h == 1 {
        let a = p.at(xx, yy);
        let b = p.at(xx + 1, yy);
        let c = p.at(xx - lo, yy);
        proof {
            lemma_ds_bound(a as int, b as int, c as int, 0, 0, 0);
        }
        asr32(2 + a * 2 + b + c, 2)
    } else {
        let a = p.at(xx, yy);
        let b = p.at(xx + 1, yy);
        let c = p.at(xx - lo, yy);
        let d = p.at(xx, yy + 1);
        let e = p.at(xx + 1, yy + 1);
        let f = p.at(xx - lo, yy + 1);
        proof {
            lemma_ds_bound(a as int, b as int, c as int, d as int, e as int, f as int);
        }
        asr32(4 + a * 2 + b + c + d * 2 + e + f, 3)
    }
}

/// Downsample the co-located luma for a `ccw × cch` chroma block at luma
/// position `(lx, ly)`, plus the top (`top_len` samples, when above is
/// available) and left (`left_len` samples, when left is available) luma
/// templates. Returns `(block, top, left)`; `block` is row-major.
pub fn cclm_luma(
    luma: &Plane,
    lx: usize,
    ly: usize,
    ccw: usize,
    cch: usize,
    sub_w: usize,
    sub_h: usize,
    top_len: usize,
    left_len: usize,
    above_avail: bool,
    left_avail: bool,
    first_row_of_ctu: bool,
) -> (r: (Vec<i32>, Vec<i32>, Vec<i32>))
    requires
        luma.wf(),
        ds_geometry_ok(lx as int, ly as int, ccw as int, cch as int, sub_w as int, sub_h as int, top_len as int, left_len as int),
    ensures
        r.0.len() == ccw * cch,
        forall|k: int|
            0 <= k < ccw * cch ==> r.0[k] as int == ds_block(
                luma,
                lx as int,
                ly as int,
                k % (ccw as int),
                k / (ccw as int),
                sub_w as int,
                sub_h as int,
                left_avail,
            ),
        r.1.len() == (if above_avail { top_len as int } else { 0 }),
        forall|i: int|
            0 <= i < r.1.len() ==> r.1[i] as int == ds_top(
                luma,
                lx as int,
                ly as int,
                i,
                sub_w as int,
                sub_h as int,
                left_avail,
                first_row_of_ctu,
            ),
        r.2.len() == (if left_avail { left_len as int } else { 0 }),
        forall|j: int|
            0 <= j < r.2.len() ==> r.2[j] as int == ds_left(luma, lx as int, ly as int, j, sub_w as int, sub_h as int),
        forall|k: int| 0 <= k < r.0.len() ==> -PLANE_SAMPLE_LIMIT <= #[trigger] r.0[k] <= PLANE_SAMPLE_LIMIT,
        forall|k: int| 0 <= k < r.1.len() ==> -PLANE_SAMPLE_LIMIT <= #[trigger] r.1[k] <= PLANE_SAMPLE_LIMIT,
        forall|k: int| 0 <= k < r.2.len() ==> -PLANE_SAMPLE_LIMIT <= #[trigger] r.2[k] <= PLANE_SAMPLE_LIMIT,
{
    let is444 = sub_w == 1 && sub_h == 1;
    let is422 = sub_w == 2 && sub_h == 1;
    let lxi = lx as isize;
    let lyi = ly as isize;
    let mut block: Vec<i32> = Vec::new();
    let mut j: usize = 0;
    while j < cch
        invariant
            luma.wf(),
            ds_geometry_ok(lx as int, ly as int, ccw as int, cch as int, sub_w as int, sub_h as int, top_len as int, left_len as int),
            lxi == lx,
            lyi == ly,
            j <= cch,
            block.len() == j * ccw,
            forall|k: int|
                0 <= k < block.len() ==> block[k] as int == ds_block(
                    luma,
                    lx as int,
                    ly as int,
                    k % (ccw as int),
                    k / (ccw as int),
                    sub_w as int,
                    sub_h as int,
                    left_avail,
                ),
            forall|k: int| 0 <= k < block.len() ==> -PLANE_SAMPLE_LIMIT <= #[trigger] block[k] <= PLANE_SAMPLE_LIMIT,
        decreases cch - j,
    {
        let mut i: usize = 0;
        while i < ccw
            invariant
                luma.wf(),
                ds_geometry_ok(lx as int, ly as int, ccw as int, cch as int, sub_w as int, sub_h as int, top_len as int, left_len as int),
                lxi == lx,
                lyi == ly,
                j < cch,
                i <= ccw,
                block.len() == j * ccw + i,
                forall|k: int|
                    0 <= k < block.len() ==> block[k] as int == ds_block(
                        luma,
                        lx as int,
                        ly as int,
                        k % (ccw as int),
                        k / (ccw as int),
                        sub_w as int,
                        sub_h as int,
                        left_avail,
                    ),
                forall|k: int| 0 <= k < block.len() ==> -PLANE_SAMPLE_LIMIT <= #[trigger] block[k] <= PLANE_SAMPLE_LIMIT,
            decreases ccw - i,
        {
            assert(i * sub_w <= 0x2000 && j * sub_h <= 0x2000) by (nonlinear_arith)
                requires
                    i < 0x1000,
                    j < 0x1000,
                    sub_w <= 2,
                    sub_h <= 2,
            ;
            let xx = lxi + (i * sub_w) as isize;
            let yy = lyi + (j * sub_h) as isize;
            let lo: isize = if i == 0 && !left_avail {
                0
            } else {
                1
            };
            let v = ds_block_at(luma, xx, yy, lo, sub_w, sub_h);
            proof {
                let k = block.len() as int;
                vstd::arithmetic::div_mod::lemma_fundamental_div_mod_converse(
                    k,
                    ccw as int,
                    j as int,
                    i as int,
                );
            }
            block.push(v);
            i += 1;
        }
        assert((j + 1) * ccw == j * ccw + ccw) by (nonlinear_arith);
        j += 1;
    }
    assert(block.len() == ccw * cch) by (nonlinear_arith)
        requires
            block.len() == j * ccw,
            j == cch,
    ;
    let mut top: Vec<i32> = Vec::new();
    if above_avail {
        let mut i: usize = 0;
        while i < top_len
            invariant
                luma.wf(),
                ds_geometry_ok(lx as int, ly as int, ccw as int, cch as int, sub_w as int, sub_h as int, top_len as int, left_len as int),
                lxi == lx,
                lyi == ly,
                is444 == (sub_w == 1 && sub_h == 1),
                is422 == (sub_w == 2 && sub_h == 1),
                i <= top_len,
                top.len() == i,
                forall|k: int|
                    0 <= k < i ==> top[k] as int == ds_top(
                        luma,
                        lx as int,
                        ly as int,
                        k,
                        sub_w as int,
                        sub_h as int,
                        left_avail,
                        first_row_of_ctu,
                    ),
                forall|k: int| 0 <= k < top.len() ==> -PLANE_SAMPLE_LIMIT <= #[trigger] top[k] <= PLANE_SAMPLE_LIMIT,
            decreases top_len - i,
        {
            assert(i * sub_w <= 0x2000) by (nonlinear_arith)
                requires
                    i < 0x1000,
                    sub_w <= 2,
            ;
            let xx = lxi + (i * sub_w) as isize;
            let lo: isize = if i == 0 && !left_avail {
                0
            } else {
                1
            };
            let v = if is444 {
                luma.at(xx, lyi - 1)
            } else if first_row_of_ctu {
                let a = luma.at(xx, lyi - 1);
                let b = luma.at(xx - lo, lyi - 1);
                let c = luma.at(xx + 1, lyi - 1);
                proof {
                    lemma_ds_bound(a as int, b as int, c as int, 0, 0, 0);
                }
                asr32(a * 2 + b + c + 2, 2)
            } else if is422 {
                ds_block_at(luma, xx, lyi - 1, lo, sub_w, sub_h)
            } else {
                ds_block_at(luma, xx, lyi - 2, lo, sub_w, sub_h)
            };
            assert(v as int == ds_top(
                luma,
                lx as int,
                ly as int,
                i as int,
                sub_w as int,
                sub_h as int,
                left_avail,
                first_row_of_ctu,
            ));
            top.push(v);
            i += 1;
        }
    }
    let mut left: Vec<i32> = Vec::new();
    if left_avail {
        let mut j: usize = 0;
        while j < left_len
            invariant
                luma.wf(),
                ds_geometry_ok(lx as int, ly as int, ccw as int, cch as int, sub_w as int, sub_h as int, top_len as int, left_len as int),
                lxi == lx,
                lyi == ly,
                is444 == (sub_w == 1 && sub_h == 1),
                j <= left_len,
                left.len() == j,
                forall|k: int|
                    0 <= k < j ==> left[k] as int == ds_left(luma, lx as int, ly as int, k, sub_w as int, sub_h as int),
                forall|k: int| 0 <= k < left.len() ==> -PLANE_SAMPLE_LIMIT <= #[trigger] left[k] <= PLANE_SAMPLE_LIMIT,
            decreases left_len - j,
        {
            assert(j * sub_h <= 0x2000) by (nonlinear_arith)
                requires
                    j < 0x1000,
                    sub_h <= 2,
            ;
            let yy = lyi + (j * sub_h) as isize;
            let v = if is444 {
                luma.at(lxi - 1, yy)
            } else {
                ds_block_at(luma, lxi - 2, yy, 1, sub_w, sub_h)
            };

            assert(v as int == ds_left(luma, lx as int, ly as int, j as int, sub_w as int, sub_h as int));
            left.push(v);
            j += 1;
        }
    }
    (block, top, left)
}


// ---------------------------------------------------------------------------
// Full CCLM predictor
// ---------------------------------------------------------------------------
/// All values of `v` are within the model's working range.
pub open spec fn seq_in_range(v: Seq<i32>) -> bool {
    forall|i: int| 0 <= i < v.len() ==> -CCLM_SAMPLE_LIMIT <= #[trigger] v[i] <= CCLM_SAMPLE_LIMIT
}

proof fn lemma_picks_in_range(
    top: Seq<i32>,
    top_len: int,
    left: Seq<i32>,
    left_len: int,
    above_avail: bool,
    left_avail: bool,
)
    requires
        seq_in_range(top),
        seq_in_range(left),
        top.len() >= top_len >= 0,
        left.len() >= left_len >= 0,
    ensures
        cclm_inputs_ok(cclm_arrange(cclm_picks(top, top_len, left, left_len, above_avail, left_avail))),
{
    let p = cclm_picks(top, top_len, left, left_len, above_avail, left_avail);
    let ct = if above_avail { sel_count(top_len, !left_avail) } else { 0 };
    assert forall|i: int| 0 <= i < p.len() implies -CCLM_SAMPLE_LIMIT <= #[trigger] p[i]
        <= CCLM_SAMPLE_LIMIT by {
        if i < ct {
            lemma_sel_in_bounds(top_len, !left_avail, i);
        } else {
            lemma_sel_in_bounds(left_len, !above_avail, i - ct);
        }
    }
}

/// Template geometry of a CCLM mode: `(use_above, use_left, top_len,
/// left_len)`. MDLM_T uses only the above template, extended to the right by
/// the available above-right units (capped at the block height in units);
/// MDLM_L only the left template, extended downwards likewise; LT uses both.
pub open spec fn cclm_template(
    mode: u8,
    ccw: int,
    cch: int,
    sub_w: int,
    sub_h: int,
    above_avail: bool,
    left_avail: bool,
    ar_units: int,
    bl_units: int,
) -> (bool, bool, int, int) {
    let uw: int = if sub_w == 2 { 2 } else { 4 };
    let uh: int = if sub_h == 2 { 2 } else { 4 };
    if mode == CCLM_T_MODE {
        let cap = cch / uw;
        let ar = if ar_units < cap { ar_units } else { cap };
        (above_avail, false, if above_avail { ccw + uw * ar } else { 0 }, 0)
    } else if mode == CCLM_L_MODE {
        let cap = ccw / uh;
        let bl = if bl_units < cap { bl_units } else { cap };
        (false, left_avail, 0, if left_avail { cch + uh * bl } else { 0 })
    } else {
        (above_avail, left_avail, if above_avail { ccw } else { 0 }, if left_avail { cch } else { 0 })
    }
}

/// The chroma prediction of one component: the model fitted on the
/// downsampled luma templates `top_l`/`left_l` and the chroma templates read
/// from `ch`, applied to the downsampled block.
pub open spec fn cclm_component(
    block: Seq<i32>,
    top_l: Seq<i32>,
    left_l: Seq<i32>,
    ch: &Plane,
    cx: int,
    cy: int,
    top_len: int,
    left_len: int,
    use_above: bool,
    use_left: bool,
    max_val: int,
    bd: u8,
) -> Seq<i32> {
    let top_c = Seq::new(top_len as nat, |i: int| ch.sample(cx + i, cy - 1) as i32);
    let left_c = Seq::new(left_len as nat, |j: int| ch.sample(cx - 1, cy + j) as i32);
    let have = use_above || use_left;
    let sl = if have {
        cclm_arrange(cclm_picks(top_l, top_l.len() as int, left_l, left_l.len() as int, use_above, use_left))
    } else {
        seq![0i32, 0, 0, 0]
    };
    let sc = if have {
        cclm_arrange(cclm_picks(top_c, top_l.len() as int, left_c, left_l.len() as int, use_above, use_left))
    } else {
        seq![0i32, 0, 0, 0]
    };
    let m = spec_cclm_model(sl, sc, have, bd);
    Seq::new(block.len(), |k: int| cclm_sample(block[k] as int, m.0, m.1, m.2 as nat, max_val) as i32)
}

/// Read `n` chroma samples along a row (`vertical == false`, from `(x, y)`
/// rightwards) or a column (downwards).
fn read_template(ch: &Plane, x: isize, y: isize, n: usize, vertical: bool) -> (r: Vec<i32>)
    requires
        ch.wf(),
        -0x1000_0000 <= x <= 0x1000_0000,
        -0x1000_0000 <= y <= 0x1000_0000,
        n <= 0x1000,
    ensures
        r.len() == n,
        forall|i: int|
            0 <= i < n ==> r[i] as int == if vertical {
                ch.sample(x as int, y + i)
            } else {
                ch.sample(x + i, y as int)
            },
        seq_in_range(r@),
{
    let mut out: Vec<i32> = Vec::new();
    let mut i: usize = 0;
    while i < n
        invariant
            ch.wf(),
            -0x1000_0000 <= x <= 0x1000_0000,
            -0x1000_0000 <= y <= 0x1000_0000,
            n <= 0x1000,
            i <= n,
            out.len() == i,
            forall|k: int|
                0 <= k < i ==> out[k] as int == if vertical {
                    ch.sample(x as int, y + k)
                } else {
                    ch.sample(x + k, y as int)
                },
            seq_in_range(out@),
        decreases n - i,
    {
        let v = if vertical {
            ch.at(x, y + i as isize)
        } else {
            ch.at(x + i as isize, y)
        };
        out.push(v);
        i += 1;
    }
    out
}

/// Fit the model for one chroma component and predict it.
fn cclm_fit_component(
    block: &Vec<i32>,
    top_l: &Vec<i32>,
    left_l: &Vec<i32>,
    ch: &Plane,
    cx: usize,
    cy: usize,
    top_len: usize,
    left_len: usize,
    use_above: bool,
    use_left: bool,
    max_val: i32,
    bd: u8,
) -> (r: Vec<i32>)
    requires
        ch.wf(),
        cx <= 0x10_0000,
        cy <= 0x10_0000,
        top_len <= 0x1000,
        left_len <= 0x1000,
        top_l.len() <= top_len,
        left_l.len() <= left_len,
        seq_in_range(block@),
        seq_in_range(top_l@),
        seq_in_range(left_l@),
        max_val >= 0,
        1 <= bd <= 16,
    ensures
        r@ == cclm_component(
            block@,
            top_l@,
            left_l@,
            ch,
            cx as int,
            cy as int,
            top_len as int,
            left_len as int,
            use_above,
            use_left,
            max_val as int,
            bd,
        ),
{
    let top_c = read_template(ch, cx as isize, cy as isize - 1, top_len, false);
    let left_c = read_template(ch, cx as isize - 1, cy as isize, left_len, true);
    let ghost tc = Seq::new(top_len as nat, |i: int| ch.sample(cx + i, cy - 1) as i32);
    let ghost lc = Seq::new(left_len as nat, |j: int| ch.sample(cx - 1, cy + j) as i32);
    assert(top_c@ =~= tc);
    assert(left_c@ =~= lc);
    let (sl, sc, have) = cclm_select(
        top_l.as_slice(),
        top_c.as_slice(),
        left_l.as_slice(),
        left_c.as_slice(),
        use_above,
        use_left,
    );
    proof {
        if have {
            lemma_picks_in_range(top_l@, top_l.len() as int, left_l@, left_l.len() as int, use_above, use_left);
            lemma_picks_in_range(top_c@, top_l.len() as int, left_c@, left_l.len() as int, use_above, use_left);
        }
    }
    let (a, b, shift) = cclm_model(sl, sc, have, bd);
    proof {
        assert forall|i: int| 0 <= i < block.len() implies cclm_sample_fits(
            #[trigger] block[i] as int,
            a as int,
            b as int,
            shift as nat,
        ) by {
            let l = block[i] as int;
            assert(-0x1000_0000 <= a * l <= 0x1000_0000) by (nonlinear_arith)
                requires
                    -16 <= a <= 16,
                    -0x100_0000 <= l <= 0x100_0000,
            ;
            lemma_floor_shr_bounds(a * l, shift as nat);
        }
    }
    let r = predict_cclm(block.as_slice(), a, b, shift, max_val);
    assert(r@ =~= cclm_component(
        block@,
        top_l@,
        left_l@,
        ch,
        cx as int,
        cy as int,
        top_len as int,
        left_len as int,
        use_above,
        use_left,
        max_val as int,
        bd,
    ));
    r
}


/// The CCLM prediction of chroma plane `ch` for a `ccw × cch` block at chroma
/// position `(cx, cy)`, co-located with luma position `(lx, ly)`.
pub open spec fn cclm_prediction(
    luma: &Plane,
    ch: &Plane,
    lx: int,
    ly: int,
    cx: int,
    cy: int,
    ccw: int,
    cch: int,
    sub_w: int,
    sub_h: int,
    above_avail: bool,
    left_avail: bool,
    first_row_of_ctu: bool,
    mode: u8,
    ar_units: int,
    bl_units: int,
    max_val: int,
    bd: u8,
) -> Seq<i32> {
    let t = cclm_template(mode, ccw, cch, sub_w, sub_h, above_avail, left_avail, ar_units, bl_units);
    let block = Seq::new(
        (ccw * cch) as nat,
        |k: int| ds_block(luma, lx, ly, k % ccw, k / ccw, sub_w, sub_h, left_avail) as i32,
    );
    let top_l = Seq::new(
        (if above_avail { t.2 } else { 0 }) as nat,
        |i: int| ds_top(luma, lx, ly, i, sub_w, sub_h, left_avail, first_row_of_ctu) as i32,
    );
    let left_l = Seq::new(
        (if left_avail { t.3 } else { 0 }) as nat,
        |j: int| ds_left(luma, lx, ly, j, sub_w, sub_h) as i32,
    );
    cclm_component(block, top_l, left_l, ch, cx, cy, t.2, t.3, t.0, t.1, max_val, bd)
}

/// Full CCLM predictor for one chroma block: downsample the co-located
/// reconstructed luma (block and templates), read the reconstructed chroma
/// templates, fit a separate model for Cb and Cr, and predict both. Returns
/// `(pred_cb, pred_cr)`, each `ccw·cch` samples in raster order.
pub fn cclm_predict(
    luma: &Plane,
    cb: &Plane,
    cr: &Plane,
    lx: usize,
    ly: usize,
    cx: usize,
    cy: usize,
    ccw: usize,
    cch: usize,
    sub_w: usize,
    sub_h: usize,
    above_avail: bool,
    left_avail: bool,
    first_row_of_ctu: bool,
    mode: u8,
    avai_ar_units: usize,
    avai_bl_units: usize,
    max_val: i32,
    bd: u8,
) -> (r: (Vec<i32>, Vec<i32>))
    requires
        luma.wf(),
        cb.wf(),
        cr.wf(),
        lx <= 0x10_0000,
        ly <= 0x10_0000,
        cx <= 0x10_0000,
        cy <= 0x10_0000,
        ccw <= 0x800,
        cch <= 0x800,
        1 <= sub_w <= 2,
        1 <= sub_h <= 2,
        max_val >= 0,
        1 <= bd <= 16,
    ensures
        r.0@ == cclm_prediction(
            luma,
            cb,
            lx as int,
            ly as int,
            cx as int,
            cy as int,
            ccw as int,
            cch as int,
            sub_w as int,
            sub_h as int,
            above_avail,
            left_avail,
            first_row_of_ctu,
            mode,
            avai_ar_units as int,
            avai_bl_units as int,
            max_val as int,
            bd,
        ),
        r.1@ == cclm_prediction(
            luma,
            cr,
            lx as int,
            ly as int,
            cx as int,
            cy as int,
            ccw as int,
            cch as int,
            sub_w as int,
            sub_h as int,
            above_avail,
            left_avail,
            first_row_of_ctu,
            mode,
            avai_ar_units as int,
            avai_bl_units as int,
            max_val as int,
            bd,
        ),
{
    let uw: usize = if sub_w == 2 {
        2
    } else {
        4
    };
    let uh: usize = if sub_h == 2 {
        2
    } else {
        4
    };
    let (eff_above, eff_left, top_len, left_len) = if mode == CCLM_T_MODE {
        let cap = cch / uw;
        let ar = if avai_ar_units < cap {
            avai_ar_units
        } else {
            cap
        };
        let tlen = if above_avail {
            ccw + uw * ar
        } else {
            0
        };
        (above_avail, false, tlen, 0)
    } else if mode == CCLM_L_MODE {
        let cap = ccw / uh;
        let bl = if avai_bl_units < cap {
            avai_bl_units
        } else {
            cap
        };
        let llen = if left_avail {
            cch + uh * bl
        } else {
            0
        };
        (false, left_avail, 0, llen)
    } else {
        let tlen = if above_avail {
            ccw
        } else {
            0
        };
        let llen = if left_avail {
            cch
        } else {
            0
        };
        (above_avail, left_avail, tlen, llen)
    };
    let ghost t = cclm_template(
        mode,
        ccw as int,
        cch as int,
        sub_w as int,
        sub_h as int,
        above_avail,
        left_avail,
        avai_ar_units as int,
        avai_bl_units as int,
    );
    assert((eff_above, eff_left, top_len as int, left_len as int) == t);
    assert(top_len <= 0x1000 && left_len <= 0x1000);
    let (block, top_l, left_l) = cclm_luma(
        luma,
        lx,
        ly,
        ccw,
        cch,
        sub_w,
        sub_h,
        top_len,
        left_len,
        above_avail,
        left_avail,
        first_row_of_ctu,
    );
    proof {
        let bs = Seq::new(
            (ccw * cch) as nat,
            |k: int| ds_block(luma, lx as int, ly as int, k % (ccw as int), k / (ccw as int), sub_w as int, sub_h as int, left_avail) as i32,
        );
        assert(block@ =~= bs);
        let ts = Seq::new(
            (if above_avail { t.2 } else { 0 }) as nat,
            |i: int| ds_top(luma, lx as int, ly as int, i, sub_w as int, sub_h as int, left_avail, first_row_of_ctu) as i32,
        );
        assert(top_l@ =~= ts);
        let ls = Seq::new(
            (if left_avail { t.3 } else { 0 }) as nat,
            |j: int| ds_left(luma, lx as int, ly as int, j, sub_w as int, sub_h as int) as i32,
        );
        assert(left_l@ =~= ls);
    }
    let pred_cb = cclm_fit_component(
        &block,
        &top_l,
        &left_l,
        cb,
        cx,
        cy,
        top_len,
        left_len,
        eff_above,
        eff_left,
        max_val,
        bd,
    );
    let pred_cr = cclm_fit_component(
        &block,
        &top_l,
        &left_l,
        cr,
        cx,
        cy,
        top_len,
        left_len,
        eff_above,
        eff_left,
        max_val,
        bd,
    );
    (pred_cb, pred_cr)
}

} // verus!
