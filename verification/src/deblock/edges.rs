//! Edge decisions and the plane passes of the deblocking filter.
//!
//! Each line across an edge is copied into a 16-sample window (positions
//! past either end of the plane read the nearest sample of the plane, in
//! raster order), filtered, and copied back where it lies inside the plane.
use vstd::prelude::*;
use super::grid::{Blk, Grid, beta_of, chroma_max_large, luma_max_len, luma_max_len_spec, luma_tc_beta, tc_of};
use super::line::{
    Q0, WIN, all_eq, calc_dp, calc_dq, chroma_line_filter, dp_spec, dq_spec, in_range, line_ok, luma_line_filter,
    pel_filter_chroma, pel_filter_luma, use_strong, use_strong_spec,
};

verus! {

/// Largest plane length the passes accept (raster positions stay far from
/// the limits of 64-bit arithmetic).
pub open spec fn plane_len_ok(n: int) -> bool {
    1 <= n <= 0x4000_0000_0000
}

/// A raster position bound safe for the index arithmetic.
pub open spec fn pos_ok(x: int) -> bool {
    x < 0x1_0000_0000_0000 && x <= usize::MAX
}

/// Plane index of window position `t` of the line whose `q0` is at `i`
/// (step `off`), clamped to the plane of `n` samples.
pub open spec fn win_index(i: int, off: int, t: int, n: int) -> int {
    let pos = i + off * (t - Q0);
    if pos < 0 {
        0
    } else if pos >= n {
        n - 1
    } else {
        pos
    }
}

/// The window of the line at `i` as it is read from the plane.
pub open spec fn load_spec(p: Seq<i32>, i: int, off: int) -> Seq<i32> {
    Seq::new(WIN as nat, |t: int| p[win_index(i, off, t, p.len() as int)])
}

/// The plane after writing the first `t` window samples of the line at `i`
/// back where they lie inside it.
pub open spec fn store_spec(p: Seq<i32>, i: int, off: int, w: Seq<i32>, t: int) -> Seq<i32>
    decreases t,
{
    if t <= 0 {
        p
    } else {
        let q = store_spec(p, i, off, w, t - 1);
        let pos = i + off * (t - 1 - Q0);
        if 0 <= pos < p.len() {
            q.update(pos, w[t - 1])
        } else {
            q
        }
    }
}

/// `store_spec` keeps the plane's length.
proof fn lemma_store_len(p: Seq<i32>, i: int, off: int, w: Seq<i32>, t: int)
    ensures
        store_spec(p, i, off, w, t).len() == p.len(),
    decreases t,
{
    if t > 0 {
        lemma_store_len(p, i, off, w, t - 1);
    }
}

/// Copy the window of the line at `i` (clamped to the plane).
fn load_line(plane: &[i32], i: usize, off: usize, Ghost(mx): Ghost<int>, Ghost(c): Ghost<int>) -> (w: Vec<i32>)
    requires
        plane_len_ok(plane.len() as int),
        pos_ok(i + 8 * off),
        1 <= mx <= 0xffff,
        in_range(plane@, mx),
    ensures
        line_ok(w@, mx),
        all_eq(plane@, c) ==> all_eq(w@, c),
        w@ == load_spec(plane@, i as int, off as int),
{
    let n = plane.len() as i64;
    let mut w: Vec<i32> = Vec::new();
    let mut t: usize = 0;
    while t < WIN
        invariant
            n == plane.len(),
            plane_len_ok(n as int),
            pos_ok(i + 8 * off),
            1 <= mx <= 0xffff,
            in_range(plane@, mx),
            t <= WIN,
            w.len() == t,
            in_range(w@, mx),
            all_eq(plane@, c) ==> all_eq(w@, c),
            forall|u: int| 0 <= u < t ==> w@[u] == plane@[win_index(i as int, off as int, u, n as int)],
        decreases WIN - t,
    {
        proof {
            assert(-8 * off <= off * (t - 8) <= 8 * off) by (nonlinear_arith)
                requires
                    0 <= t < 16,
                    off >= 0,
            ;
        }
        let pos = i as i64 + off as i64 * (t as i64 - 8);
        let k = if pos < 0 { 0 } else if pos >= n { n - 1 } else { pos };
        w.push(plane[k as usize]);
        t += 1;
    }
    assert(w@ =~= load_spec(plane@, i as int, off as int));
    w
}

/// Copy a filtered window back into the plane where it lies inside it.
fn store_line(plane: &mut [i32], i: usize, off: usize, w: &Vec<i32>, Ghost(mx): Ghost<int>, Ghost(c): Ghost<int>)
    requires
        plane_len_ok(old(plane).len() as int),
        pos_ok(i + 8 * off),
        line_ok(w@, mx),
        in_range(old(plane)@, mx),
    ensures
        final(plane).len() == old(plane).len(),
        in_range(final(plane)@, mx),
        all_eq(old(plane)@, c) && all_eq(w@, c) ==> all_eq(final(plane)@, c),
        final(plane)@ == store_spec(old(plane)@, i as int, off as int, w@, WIN as int),
{
    let n = plane.len() as i64;
    let ghost p0 = plane@;
    let mut t: usize = 0;
    while t < WIN
        invariant
            n == plane.len(),
            plane.len() == old(plane).len(),
            plane_len_ok(n as int),
            pos_ok(i + 8 * off),
            line_ok(w@, mx),
            in_range(plane@, mx),
            p0 == old(plane)@,
            all_eq(p0, c) && all_eq(w@, c) ==> all_eq(plane@, c),
            t <= WIN,
            plane@ == store_spec(p0, i as int, off as int, w@, t as int),
        decreases WIN - t,
    {
        proof {
            assert(-8 * off <= off * (t - 8) <= 8 * off) by (nonlinear_arith)
                requires
                    0 <= t < 16,
                    off >= 0,
            ;
        }
        let pos = i as i64 + off as i64 * (t as i64 - 8);
        if 0 <= pos && pos < n {
            plane[pos as usize] = w[t];
        }
        t += 1;
    }
}

/// Filter one luma line in the plane.
fn luma_line(
    plane: &mut [i32],
    i: usize,
    off: usize,
    tc: i32,
    sw: bool,
    thr_cut: i32,
    filter_p: bool,
    filter_q: bool,
    side_p_large: bool,
    side_q_large: bool,
    max_p: u8,
    max_q: u8,
    max_val: i32,
)
    requires
        plane_len_ok(old(plane).len() as int),
        pos_ok(i + 8 * off),
        1 <= max_val <= 0xffff,
        in_range(old(plane)@, max_val as int),
        0 <= tc <= 0x1_0000,
        side_p_large ==> max_p == 3 || max_p == 5 || max_p == 7,
        side_q_large ==> max_q == 3 || max_q == 5 || max_q == 7,
    ensures
        final(plane).len() == old(plane).len(),
        in_range(final(plane)@, max_val as int),
        forall|c: int| all_eq(old(plane)@, c) ==> #[trigger] all_eq(final(plane)@, c),
        final(plane)@ == store_spec(
            old(plane)@,
            i as int,
            off as int,
            luma_line_filter(
                load_spec(old(plane)@, i as int, off as int),
                tc as int,
                sw,
                thr_cut as int,
                filter_p,
                filter_q,
                side_p_large,
                side_q_large,
                max_p as int,
                max_q as int,
                max_val as int,
            ),
            WIN as int,
        ),
{
    let ghost mx = max_val as int;
    let ghost p0 = plane@;
    let ghost c0 = plane@[0] as int;
    let mut w = load_line(plane, i, off, Ghost(mx), Ghost(c0));
    let ghost w0 = w@;
    pel_filter_luma(&mut w, tc, sw, thr_cut, filter_p, filter_q, side_p_large, side_q_large, max_p, max_q, max_val);
    store_line(plane, i, off, &w, Ghost(mx), Ghost(c0));
    proof {
        assert forall|c: int| all_eq(p0, c) implies #[trigger] all_eq(plane@, c) by {
            assert(p0[0] == c);
            assert(w0[Q0 as int] == c);
        }
    }
}

/// Filter one chroma line in the plane.
fn chroma_line(plane: &mut [i32], i: usize, off: usize, tc: i32, sw: bool, chroma_ctb: bool, max_val: i32)
    requires
        plane_len_ok(old(plane).len() as int),
        pos_ok(i + 8 * off),
        1 <= max_val <= 0xffff,
        in_range(old(plane)@, max_val as int),
        0 <= tc <= 0x1_0000,
    ensures
        final(plane).len() == old(plane).len(),
        in_range(final(plane)@, max_val as int),
        forall|c: int| all_eq(old(plane)@, c) ==> #[trigger] all_eq(final(plane)@, c),
        final(plane)@ == store_spec(
            old(plane)@,
            i as int,
            off as int,
            chroma_line_filter(load_spec(old(plane)@, i as int, off as int), tc as int, sw, chroma_ctb, max_val as int),
            WIN as int,
        ),
{
    let ghost mx = max_val as int;
    let ghost p0 = plane@;
    let ghost c0 = plane@[0] as int;
    let mut w = load_line(plane, i, off, Ghost(mx), Ghost(c0));
    let ghost w0 = w@;
    pel_filter_chroma(&mut w, tc, sw, chroma_ctb, max_val);
    store_line(plane, i, off, &w, Ghost(mx), Ghost(c0));
    proof {
        assert forall|c: int| all_eq(p0, c) implies #[trigger] all_eq(plane@, c) by {
            assert(p0[0] == c);
            assert(w0[Q0 as int] == c);
        }
    }
}

/// `2^bd − 1`.
fn max_sample(bit_depth: u8) -> (r: i32)
    requires
        8 <= bit_depth <= 16,
    ensures
        r == vstd::arithmetic::power2::pow2(bit_depth as nat) - 1,
        255 <= r <= 0xffff,
{
    proof {
        vstd::arithmetic::power2::lemma2_to64();
        vstd::arithmetic::power2::lemma_pow2_strictly_increases(bit_depth as nat, 17);
        if bit_depth > 8 {
            vstd::arithmetic::power2::lemma_pow2_strictly_increases(8, bit_depth as nat);
        }
        vstd::bits::lemma_u32_shl_is_mul(1, bit_depth as u32);
    }
    ((1u32 << bit_depth as u32) - 1) as i32
}

/// The plane-level promises of every deblocking step: samples stay in
/// `[0, max]`, and a constant plane stays constant.
pub open spec fn keeps_plane(old_p: Seq<i32>, new_p: Seq<i32>, mx: int) -> bool {
    &&& new_p.len() == old_p.len()
    &&& (in_range(old_p, mx) ==> in_range(new_p, mx))
    &&& forall|c: int| all_eq(old_p, c) ==> #[trigger] all_eq(new_p, c)
}

/// The decisions of a luma edge segment from its lines 0 and 3:
/// `(filter, strong, filter_p1, filter_q1, long_p, long_q, max_p, max_q)`.
/// With a large side (length above 3, the P side not at a CTU row
/// boundary) the long filter applies when the extended activities are
/// below `beta` and both lines pass the strong test; otherwise, when the
/// activity `d` is below `beta`, the strong or normal short filter.
pub open spec fn luma_seg_decision(
    p: Seq<i32>,
    i0: int,
    off: int,
    along: int,
    size_p: int,
    size_q: int,
    tc: int,
    beta: int,
    ctu_hor_p: bool,
) -> (bool, bool, bool, bool, bool, bool, int, int) {
    let (max_p0, max_q) = luma_max_len_spec(size_p, size_q);
    let spl = max_p0 > 3 && !ctu_hor_p;
    let sql = max_q > 3;
    let max_p = if (spl || sql) && !spl && max_p0 > 3 {
        3
    } else {
        max_p0
    };
    let st = (beta + beta / 2) / 8;
    let w0 = load_spec(p, i0, off);
    let w3 = load_spec(p, i0 + 3 * along, off);
    let dp0 = dp_spec(w0, Q0 as int, false);
    let dq0 = dq_spec(w0, Q0 as int);
    let dp3 = dp_spec(w3, Q0 as int, false);
    let dq3 = dq_spec(w3, Q0 as int);
    let dp0l = if spl { (dp0 + dp_spec(w0, Q0 - 3, false) + 1) / 2 } else { dp0 };
    let dp3l = if spl { (dp3 + dp_spec(w3, Q0 - 3, false) + 1) / 2 } else { dp3 };
    let dq0l = if sql { (dq0 + dq_spec(w0, Q0 + 3) + 1) / 2 } else { dq0 };
    let dq3l = if sql { (dq3 + dq_spec(w3, Q0 + 3) + 1) / 2 } else { dq3 };
    let used_long = (spl || sql) && dp0l + dq0l + dp3l + dq3l < beta && use_strong_spec(
        w0,
        2 * (dp0l + dq0l),
        beta,
        tc,
        spl,
        sql,
        max_p,
        max_q,
        false,
    ) && use_strong_spec(w3, 2 * (dp3l + dq3l), beta, tc, spl, sql, max_p, max_q, false);
    if used_long {
        (true, true, dp0l + dp3l < st, dq0l + dq3l < st, spl, sql, max_p, max_q)
    } else if dp0 + dq0 + dp3 + dq3 < beta {
        let larger1 = max_p > 1 && max_q > 1;
        let larger2 = max_p > 2 && max_q > 2;
        let sw = larger2 && use_strong_spec(w0, 2 * (dp0 + dq0), beta, tc, false, false, max_p, max_q, false)
            && use_strong_spec(w3, 2 * (dp3 + dq3), beta, tc, false, false, max_p, max_q, false);
        (true, sw, larger1 && dp0 + dp3 < st, larger1 && dq0 + dq3 < st, false, false, max_p, max_q)
    } else {
        (false, false, false, false, false, false, max_p, max_q)
    }
}

/// The plane after filtering the first `k` lines of a luma segment, line
/// after line, with the segment's decisions `dec`.
pub open spec fn luma_seg_lines(
    p: Seq<i32>,
    i0: int,
    off: int,
    along: int,
    tc: int,
    dec: (bool, bool, bool, bool, bool, bool, int, int),
    mx: int,
    k: int,
) -> Seq<i32>
    decreases k,
{
    if k <= 0 {
        p
    } else {
        let q = luma_seg_lines(p, i0, off, along, tc, dec, mx, k - 1);
        let i = i0 + along * (k - 1);
        store_spec(
            q,
            i,
            off,
            luma_line_filter(load_spec(q, i, off), tc, dec.1, tc * 10, dec.2, dec.3, dec.4, dec.5, dec.6, dec.7, mx),
            WIN as int,
        )
    }
}

/// A luma segment filtered: unchanged when `tc` and `beta` are both 0 or the
/// decisions filter nothing, else its four lines filtered in turn.
pub open spec fn luma_segment_spec(
    p: Seq<i32>,
    i0: int,
    off: int,
    along: int,
    size_p: int,
    size_q: int,
    qp: int,
    bd: int,
    ctu_hor_p: bool,
) -> Seq<i32> {
    let tc = tc_of(qp, bd);
    let beta = beta_of(qp, bd);
    let dec = luma_seg_decision(p, i0, off, along, size_p, size_q, tc, beta, ctu_hor_p);
    if (tc == 0 && beta == 0) || !dec.0 {
        p
    } else {
        luma_seg_lines(p, i0, off, along, tc, dec, vstd::arithmetic::power2::pow2(bd as nat) - 1, 4)
    }
}

/// The decisions of a luma edge segment (see [`luma_seg_decision`]).
#[verifier::rlimit(60)]
fn luma_seg_decide(
    plane: &[i32],
    i0: usize,
    off: usize,
    along: usize,
    size_p: i32,
    size_q: i32,
    tc: i32,
    beta: i32,
    ctu_hor_p: bool,
    Ghost(mx): Ghost<int>,
) -> (r: (bool, bool, bool, bool, bool, bool, u8, u8))
    requires
        plane_len_ok(plane.len() as int),
        pos_ok(i0 + 3 * along + 8 * off),
        1 <= mx <= 0xffff,
        in_range(plane@, mx),
        0 <= tc <= 395 * 64,
        0 <= beta <= 88 * 256,
    ensures
        (r.0, r.1, r.2, r.3, r.4, r.5, r.6 as int, r.7 as int) == luma_seg_decision(
            plane@,
            i0 as int,
            off as int,
            along as int,
            size_p as int,
            size_q as int,
            tc as int,
            beta as int,
            ctu_hor_p,
        ),
        r.4 ==> r.6 == 7,
        r.5 ==> r.7 == 7,
{
    let (max_p0, max_q) = luma_max_len(size_p, size_q);
    let mut max_p = max_p0;
    let side_p_large = max_p0 > 3 && !ctu_hor_p;
    let side_q_large = max_q > 3;
    let side_threshold = (beta + beta / 2) / 8;
    let ghost c0 = plane@[0] as int;
    let w0 = load_line(plane, i0, off, Ghost(mx), Ghost(c0));
    let w3 = load_line(plane, i0 + 3 * along, off, Ghost(mx), Ghost(c0));
    let dp0 = calc_dp(&w0, Q0, false);
    let dq0 = calc_dq(&w0, Q0);
    let dp3 = calc_dp(&w3, Q0, false);
    let dq3 = calc_dq(&w3, Q0);
    if side_p_large || side_q_large {
        if !side_p_large {
            max_p = if max_p > 3 { 3 } else { max_p };
        }
        let dp0l = if side_p_large { (dp0 + calc_dp(&w0, Q0 - 3, false) + 1) / 2 } else { dp0 };
        let dp3l = if side_p_large { (dp3 + calc_dp(&w3, Q0 - 3, false) + 1) / 2 } else { dp3 };
        let dq0l = if side_q_large { (dq0 + calc_dq(&w0, Q0 + 3) + 1) / 2 } else { dq0 };
        let dq3l = if side_q_large { (dq3 + calc_dq(&w3, Q0 + 3) + 1) / 2 } else { dq3 };
        let d0l = dp0l + dq0l;
        let d3l = dp3l + dq3l;
        if d0l + d3l < beta {
            let used_long = use_strong(&w0, 2 * d0l, beta, tc, side_p_large, side_q_large, max_p, max_q, false)
                && use_strong(&w3, 2 * d3l, beta, tc, side_p_large, side_q_large, max_p, max_q, false);
            if used_long {
                return (
                    true,
                    true,
                    dp0l + dp3l < side_threshold,
                    dq0l + dq3l < side_threshold,
                    side_p_large,
                    side_q_large,
                    max_p,
                    max_q,
                );
            }
        }
    }
    let d0 = dp0 + dq0;
    let d3 = dp3 + dq3;
    if d0 + d3 < beta {
        let larger1 = max_p > 1 && max_q > 1;
        let larger2 = max_p > 2 && max_q > 2;
        let sw = larger2 && use_strong(&w0, 2 * d0, beta, tc, false, false, max_p, max_q, false) && use_strong(
            &w3,
            2 * d3,
            beta,
            tc,
            false,
            false,
            max_p,
            max_q,
            false,
        );
        (true, sw, larger1 && dp0 + dp3 < side_threshold, larger1 && dq0 + dq3 < side_threshold, false, false, max_p, max_q)
    } else {
        (false, false, false, false, false, false, max_p, max_q)
    }
}

/// Filter one 4-line luma edge segment (`q0` of line 0 at `i0`, lines
/// `along` apart, `off` across the edge): edge decisions on lines 0 and 3,
/// then the long, strong or normal filter on each line.
#[verifier::rlimit(60)]
fn luma_segment(
    plane: &mut [i32],
    i0: usize,
    off: usize,
    along: usize,
    size_p: i32,
    size_q: i32,
    qp: i32,
    bit_depth: u8,
    ctu_hor_p: bool,
)
    requires
        plane_len_ok(old(plane).len() as int),
        pos_ok(i0 + 3 * along + 8 * off),
        8 <= bit_depth <= 16,
        in_range(old(plane)@, vstd::arithmetic::power2::pow2(bit_depth as nat) - 1),
    ensures
        keeps_plane(old(plane)@, final(plane)@, vstd::arithmetic::power2::pow2(bit_depth as nat) - 1),
        final(plane)@ == luma_segment_spec(
            old(plane)@,
            i0 as int,
            off as int,
            along as int,
            size_p as int,
            size_q as int,
            qp as int,
            bit_depth as int,
            ctu_hor_p,
        ),
{
    let (tc, beta) = luma_tc_beta(qp, bit_depth);
    if tc == 0 && beta == 0 {
        return;
    }
    let max_val = max_sample(bit_depth);
    let ghost mx = max_val as int;
    let ghost p0 = plane@;
    let dec = luma_seg_decide(plane, i0, off, along, size_p, size_q, tc, beta, ctu_hor_p, Ghost(mx));
    let (apply, sw, filter_p, filter_q, side_p_large, side_q_large, max_p, max_q) = dec;
    let ghost sdec = (apply, sw, filter_p, filter_q, side_p_large, side_q_large, max_p as int, max_q as int);
    if apply {
        let thr_cut = tc * 10;
        let mut k: usize = 0;
        while k < 4
            invariant
                plane.len() == old(plane).len(),
                plane_len_ok(plane.len() as int),
                pos_ok(i0 + 3 * along + 8 * off),
                mx == max_val,
                1 <= max_val <= 0xffff,
                mx == vstd::arithmetic::power2::pow2(bit_depth as nat) - 1,
                in_range(plane@, mx),
                0 <= tc <= 0x1_0000,
                thr_cut == tc * 10,
                sdec == (apply, sw, filter_p, filter_q, side_p_large, side_q_large, max_p as int, max_q as int),
                side_p_large ==> max_p == 7,
                side_q_large ==> max_q == 7,
                k <= 4,
                forall|c: int| all_eq(old(plane)@, c) ==> #[trigger] all_eq(plane@, c),
                plane@ == luma_seg_lines(p0, i0 as int, off as int, along as int, tc as int, sdec, mx, k as int),
            decreases 4 - k,
        {
            proof {
                assert(along * k <= 3 * along) by (nonlinear_arith)
                    requires
                        k < 4,
                ;
                assert(along * k >= 0) by (nonlinear_arith)
                    requires
                        k >= 0,
                ;
            }
            let ghost prev = plane@;
            luma_line(
                plane,
                i0 + along * k,
                off,
                tc,
                sw,
                thr_cut,
                filter_p,
                filter_q,
                side_p_large,
                side_q_large,
                max_p,
                max_q,
                max_val,
            );
            proof {
                let i = i0 + along * k;
                let kk = k as int;
                assert(i0 + along * (kk + 1 - 1) == i);
                assert(luma_seg_lines(p0, i0 as int, off as int, along as int, tc as int, sdec, mx, k + 1) == store_spec(
                    prev,
                    i,
                    off as int,
                    luma_line_filter(
                        load_spec(prev, i, off as int),
                        tc as int,
                        sw,
                        tc * 10,
                        filter_p,
                        filter_q,
                        side_p_large,
                        side_q_large,
                        max_p as int,
                        max_q as int,
                        mx,
                    ),
                    WIN as int,
                ));
            }
            k += 1;
        }
    }
}

/// Every sample of a plane lies in `[0, 2^bd − 1]`.
pub open spec fn plane_in_range(p: Seq<i32>, bd: int) -> bool {
    in_range(p, vstd::arithmetic::power2::pow2(bd as nat) - 1)
}

/// A luma plane and its block map fit each other: the map covers at most the
/// plane, which is `width × height` samples.
pub open spec fn luma_plane_ok(len: int, width: int, height: int, grid: &Grid) -> bool {
    &&& grid.wf()
    &&& len == width * height
    &&& plane_len_ok(len)
    &&& grid.cols * 4 <= width
    &&& grid.rows * 4 <= height
    &&& pos_ok(width * height + 9 * width + 8)
}

/// Row-major index arithmetic of a grid cell.
proof fn lemma_rowmajor(by: int, bx: int, cols: int)
    requires
        0 <= by,
        0 <= bx < cols,
    ensures
        (by * cols + bx) / cols == by,
        (by * cols + bx) % cols == bx,
        by * cols + cols == (by + 1) * cols,
{
    vstd::arithmetic::div_mod::lemma_fundamental_div_mod_converse(by * cols + bx, cols, by, bx);
    assert(by * cols + cols == (by + 1) * cols) by (nonlinear_arith);
}

/// The luma segment on the left edge of grid cell `(bx, by)` when a coding
/// unit starts there (edges at the picture border are not filtered).
pub open spec fn luma_ver_at(p: Seq<i32>, blk: Seq<Blk>, cols: int, width: int, bd: int, by: int, bx: int) -> Seq<i32> {
    let q = blk[by * cols + bx];
    if bx >= 1 && q.cux == bx * 4 {
        let pb = blk[by * cols + bx - 1];
        luma_segment_spec(
            p,
            by * 4 * width + bx * 4,
            1,
            width,
            pb.cuw as int,
            q.cuw as int,
            (pb.qp + q.qp + 1) / 2,
            bd,
            false,
        )
    } else {
        p
    }
}

/// The luma segment on the top edge of grid cell `(bx, by)` when a coding
/// unit starts there; on a CTU row boundary the P side takes no long filter.
pub open spec fn luma_hor_at(
    p: Seq<i32>,
    blk: Seq<Blk>,
    cols: int,
    width: int,
    bd: int,
    ctu: int,
    by: int,
    bx: int,
) -> Seq<i32> {
    let q = blk[by * cols + bx];
    if by >= 1 && q.cuy == by * 4 {
        let pb = blk[(by - 1) * cols + bx];
        luma_segment_spec(
            p,
            by * 4 * width + bx * 4,
            width,
            1,
            pb.cuh as int,
            q.cuh as int,
            (pb.qp + q.qp + 1) / 2,
            bd,
            (by * 4) % ctu == 0,
        )
    } else {
        p
    }
}

/// The plane after the vertical-edge pass over the first `n` grid cells in
/// raster order.
pub open spec fn luma_ver_pass(p: Seq<i32>, blk: Seq<Blk>, cols: int, width: int, bd: int, n: int) -> Seq<i32>
    decreases n,
{
    if n <= 0 || cols <= 0 {
        p
    } else {
        luma_ver_at(luma_ver_pass(p, blk, cols, width, bd, n - 1), blk, cols, width, bd, (n - 1) / cols, (n - 1) % cols)
    }
}

/// The plane after the horizontal-edge pass over the first `n` grid cells in
/// raster order.
pub open spec fn luma_hor_pass(p: Seq<i32>, blk: Seq<Blk>, cols: int, width: int, bd: int, ctu: int, n: int) -> Seq<i32>
    decreases n,
{
    if n <= 0 || cols <= 0 {
        p
    } else {
        luma_hor_at(
            luma_hor_pass(p, blk, cols, width, bd, ctu, n - 1),
            blk,
            cols,
            width,
            bd,
            ctu,
            (n - 1) / cols,
            (n - 1) % cols,
        )
    }
}

/// The first grid row has no top edges to filter.
proof fn lemma_hor_pass_first_row(p: Seq<i32>, blk: Seq<Blk>, cols: int, width: int, bd: int, ctu: int, n: int)
    requires
        0 <= n <= cols,
    ensures
        luma_hor_pass(p, blk, cols, width, bd, ctu, n) == p,
    decreases n,
{
    if n > 0 {
        lemma_hor_pass_first_row(p, blk, cols, width, bd, ctu, n - 1);
        lemma_rowmajor(0, n - 1, cols);
    }
}

/// Deblock a luma plane in place: first every vertical coding-unit edge on
/// the 4-sample grid, then every horizontal one (at a CTU row boundary the
/// P side is never treated as large).
#[verifier::rlimit(50)]
pub fn deblock_luma(buf: &mut [i32], width: usize, height: usize, grid: &Grid, bit_depth: u8, ctu_size: usize)
    requires
        luma_plane_ok(old(buf).len() as int, width as int, height as int, grid),
        8 <= bit_depth <= 16,
        ctu_size > 0,
        plane_in_range(old(buf)@, bit_depth as int),
    ensures
        keeps_plane(old(buf)@, final(buf)@, vstd::arithmetic::power2::pow2(bit_depth as nat) - 1),
        final(buf)@ == luma_hor_pass(
            luma_ver_pass(old(buf)@, grid.blk@, grid.cols as int, width as int, bit_depth as int, grid.rows * grid.cols),
            grid.blk@,
            grid.cols as int,
            width as int,
            bit_depth as int,
            ctu_size as int,
            grid.rows * grid.cols,
        ),
{
    let ghost mx = vstd::arithmetic::power2::pow2(bit_depth as nat) - 1;
    let ghost p0 = buf@;
    let ghost blk = grid.blk@;
    let ghost cols = grid.cols as int;
    let stride = width;
    let mut by: usize = 0;
    while by < grid.rows
        invariant
            luma_plane_ok(buf.len() as int, width as int, height as int, grid),
            buf.len() == old(buf).len(),
            stride == width,
            8 <= bit_depth <= 16,
            mx == vstd::arithmetic::power2::pow2(bit_depth as nat) - 1,
            in_range(buf@, mx),
            forall|c: int| all_eq(old(buf)@, c) ==> #[trigger] all_eq(buf@, c),
            by <= grid.rows,
            p0 == old(buf)@,
            blk == grid.blk@,
            cols == grid.cols,
            buf@ == luma_ver_pass(p0, blk, cols, width as int, bit_depth as int, by * cols),
        decreases grid.rows - by,
    {
        proof {
            if cols > 0 {
                lemma_rowmajor(by as int, 0, cols);
            }
        }
        let mut bx: usize = 1;
        while bx < grid.cols
            invariant
                luma_plane_ok(buf.len() as int, width as int, height as int, grid),
                buf.len() == old(buf).len(),
                stride == width,
                8 <= bit_depth <= 16,
                mx == vstd::arithmetic::power2::pow2(bit_depth as nat) - 1,
                in_range(buf@, mx),
                forall|c: int| all_eq(old(buf)@, c) ==> #[trigger] all_eq(buf@, c),
                by < grid.rows,
                1 <= bx,
                p0 == old(buf)@,
                blk == grid.blk@,
                cols == grid.cols,
                bx <= grid.cols ==> buf@ == luma_ver_pass(p0, blk, cols, width as int, bit_depth as int, by * cols + bx),
                bx > grid.cols ==> grid.cols == 0 && buf@ == luma_ver_pass(p0, blk, cols, width as int, bit_depth as int, by * cols),
            decreases grid.cols - bx,
        {
            proof {
                lemma_rowmajor(by as int, bx as int, cols);
            }
            let q = grid.at(bx, by);
            if q.cux as usize == bx * 4 {
                let p = grid.at(bx - 1, by);
                let qp = (p.qp as i32 + q.qp as i32 + 1) / 2;
                proof {
                    crate::residual::ctx::lemma_cell_bound((bx * 4) as int, (by * 4) as int, width as int, height as int);
                    assert((by * 4) * width + 3 * width <= width * height) by (nonlinear_arith)
                        requires
                            by * 4 + 4 <= height,
                    ;
                }
                let i0 = by * 4 * stride + bx * 4;
                luma_segment(buf, i0, 1, stride, p.cuw as i32, q.cuw as i32, qp, bit_depth, false);
            }
            bx += 1;
        }
        proof {
            if cols > 0 {
                lemma_rowmajor(by as int, 0, cols);
            }
        }
        by += 1;
    }
    let ghost pv = buf@;
    proof {
        lemma_hor_pass_first_row(pv, blk, cols, width as int, bit_depth as int, ctu_size as int, cols);
    }
    let mut by: usize = 1;
    while by < grid.rows
        invariant
            luma_plane_ok(buf.len() as int, width as int, height as int, grid),
            buf.len() == old(buf).len(),
            stride == width,
            8 <= bit_depth <= 16,
            ctu_size > 0,
            mx == vstd::arithmetic::power2::pow2(bit_depth as nat) - 1,
            in_range(buf@, mx),
            forall|c: int| all_eq(old(buf)@, c) ==> #[trigger] all_eq(buf@, c),
            1 <= by,
            by <= grid.rows || grid.rows == 0,
            grid.rows == 0 ==> buf@ == pv,
            p0 == old(buf)@,
            blk == grid.blk@,
            cols == grid.cols,
            pv == luma_ver_pass(p0, blk, cols, width as int, bit_depth as int, grid.rows * cols),
            buf@ == luma_hor_pass(pv, blk, cols, width as int, bit_depth as int, ctu_size as int, by * cols),
        decreases grid.rows - by,
    {
        let mut bx: usize = 0;
        while bx < grid.cols
            invariant
                luma_plane_ok(buf.len() as int, width as int, height as int, grid),
                buf.len() == old(buf).len(),
                stride == width,
                8 <= bit_depth <= 16,
                ctu_size > 0,
                mx == vstd::arithmetic::power2::pow2(bit_depth as nat) - 1,
                in_range(buf@, mx),
                forall|c: int| all_eq(old(buf)@, c) ==> #[trigger] all_eq(buf@, c),
                1 <= by < grid.rows,
                bx <= grid.cols,
                blk == grid.blk@,
                cols == grid.cols,
                buf@ == luma_hor_pass(pv, blk, cols, width as int, bit_depth as int, ctu_size as int, by * cols + bx),
            decreases grid.cols - bx,
        {
            proof {
                lemma_rowmajor(by as int, bx as int, cols);
            }
            let q = grid.at(bx, by);
            if q.cuy as usize == by * 4 {
                let p = grid.at(bx, by - 1);
                let qp = (p.qp as i32 + q.qp as i32 + 1) / 2;
                proof {
                    crate::residual::ctx::lemma_cell_bound((bx * 4) as int, (by * 4) as int, width as int, height as int);
                    assert((by * 4) * width + 4 * width <= width * height) by (nonlinear_arith)
                        requires
                            by * 4 + 4 <= height,
                    ;
                }
                let i0 = by * 4 * stride + bx * 4;
                let ctu_hor_p = (by * 4) % ctu_size == 0;
                luma_segment(buf, i0, stride, 1, p.cuh as i32, q.cuh as i32, qp, bit_depth, ctu_hor_p);
            }
            bx += 1;
        }
        proof {
            assert(by * cols + cols == (by + 1) * cols) by (nonlinear_arith);
        }
        by += 1;
    }
}

/// Whether a chroma edge run takes the strong filter: both sides at least
/// 8, the activity of lines 0 and `dec3` below `beta`, and both lines
/// passing the strong test.
pub open spec fn chroma_run_strong(
    p: Seq<i32>,
    i0: int,
    off: int,
    dec3: int,
    size_p: int,
    size_q: int,
    tc: int,
    beta: int,
    chroma_ctb: bool,
) -> bool {
    let w0 = load_spec(p, i0, off);
    let w3 = load_spec(p, i0 + dec3, off);
    let d0 = dp_spec(w0, Q0 as int, chroma_ctb) + dq_spec(w0, Q0 as int);
    let d3 = dp_spec(w3, Q0 as int, chroma_ctb) + dq_spec(w3, Q0 as int);
    &&& size_p >= 8 && size_q >= 8
    &&& d0 + d3 < beta
    &&& use_strong_spec(w0, 2 * d0, beta, tc, false, false, 7, 7, chroma_ctb)
    &&& use_strong_spec(w3, 2 * d3, beta, tc, false, false, 7, 7, chroma_ctb)
}

/// The plane after filtering the first `k` lines of a chroma run, line
/// after line.
pub open spec fn chroma_run_lines(
    p: Seq<i32>,
    i0: int,
    off: int,
    along: int,
    tc: int,
    sw: bool,
    chroma_ctb: bool,
    mx: int,
    k: int,
) -> Seq<i32>
    decreases k,
{
    if k <= 0 {
        p
    } else {
        let q = chroma_run_lines(p, i0, off, along, tc, sw, chroma_ctb, mx, k - 1);
        let i = i0 + along * (k - 1);
        store_spec(q, i, off, chroma_line_filter(load_spec(q, i, off), tc, sw, chroma_ctb, mx), WIN as int)
    }
}

/// The plane after filtering a chroma edge run of `run_len` lines starting
/// at `i0`: one strong-or-weak decision from lines 0 and `dec3`, then each
/// line in turn.
pub open spec fn chroma_run_spec(
    p: Seq<i32>,
    i0: int,
    off: int,
    along: int,
    dec3: int,
    run_len: int,
    size_p: int,
    size_q: int,
    qp: int,
    bd: int,
    chroma_ctb: bool,
) -> Seq<i32> {
    let tc = tc_of(qp, bd);
    let sw = chroma_run_strong(p, i0, off, dec3, size_p, size_q, tc, beta_of(qp, bd), chroma_ctb);
    chroma_run_lines(p, i0, off, along, tc, sw, chroma_ctb, vstd::arithmetic::power2::pow2(bd as nat) - 1, run_len)
}

/// Whether a chroma edge run takes the strong filter (see
/// [`chroma_run_strong`]).
fn chroma_run_decide(
    plane: &[i32],
    i0: usize,
    off: usize,
    dec3: usize,
    size_p: i32,
    size_q: i32,
    tc: i32,
    beta: i32,
    chroma_ctb: bool,
    Ghost(mx): Ghost<int>,
) -> (r: bool)
    requires
        plane_len_ok(plane.len() as int),
        pos_ok(i0 + dec3 + 8 * off),
        1 <= mx <= 0xffff,
        in_range(plane@, mx),
        0 <= tc <= 395 * 64,
        0 <= beta <= 88 * 256,
    ensures
        r == chroma_run_strong(
            plane@,
            i0 as int,
            off as int,
            dec3 as int,
            size_p as int,
            size_q as int,
            tc as int,
            beta as int,
            chroma_ctb,
        ),
{
    if !chroma_max_large(size_p, size_q) {
        return false;
    }
    let ghost c0 = plane@[0] as int;
    let w0 = load_line(plane, i0, off, Ghost(mx), Ghost(c0));
    let w3 = load_line(plane, i0 + dec3, off, Ghost(mx), Ghost(c0));
    let d0 = calc_dp(&w0, Q0, chroma_ctb) + calc_dq(&w0, Q0);
    let d3 = calc_dp(&w3, Q0, chroma_ctb) + calc_dq(&w3, Q0);
    d0 + d3 < beta && use_strong(&w0, 2 * d0, beta, tc, false, false, 7, 7, chroma_ctb) && use_strong(
        &w3,
        2 * d3,
        beta,
        tc,
        false,
        false,
        7,
        7,
        chroma_ctb,
    )
}

/// Filter one chroma edge run: `run_len` lines, the strong-filter decision
/// taken on lines 0 and `dec3` (positions apart) when both sides are at
/// least 8 wide.
#[verifier::rlimit(40)]
fn chroma_run(
    plane: &mut [i32],
    i0: usize,
    off: usize,
    along: usize,
    dec3: usize,
    run_len: usize,
    size_p: i32,
    size_q: i32,
    qp: i32,
    bit_depth: u8,
    chroma_ctb: bool,
)
    requires
        plane_len_ok(old(plane).len() as int),
        run_len <= 4,
        dec3 <= 3 * along,
        pos_ok(i0 + 3 * along + 8 * off),
        8 <= bit_depth <= 16,
        plane_in_range(old(plane)@, bit_depth as int),
    ensures
        keeps_plane(old(plane)@, final(plane)@, vstd::arithmetic::power2::pow2(bit_depth as nat) - 1),
        final(plane)@ == chroma_run_spec(
            old(plane)@,
            i0 as int,
            off as int,
            along as int,
            dec3 as int,
            run_len as int,
            size_p as int,
            size_q as int,
            qp as int,
            bit_depth as int,
            chroma_ctb,
        ),
{
    let (tc, beta) = luma_tc_beta(qp, bit_depth);
    let max_val = max_sample(bit_depth);
    let ghost mx = max_val as int;
    let ghost p0 = plane@;
    let sw = chroma_run_decide(plane, i0, off, dec3, size_p, size_q, tc, beta, chroma_ctb, Ghost(mx));
    let mut k: usize = 0;
    while k < run_len
        invariant
            plane.len() == old(plane).len(),
            plane_len_ok(plane.len() as int),
            pos_ok(i0 + 3 * along + 8 * off),
            run_len <= 4,
            mx == max_val,
            1 <= max_val <= 0xffff,
            mx == vstd::arithmetic::power2::pow2(bit_depth as nat) - 1,
            in_range(plane@, mx),
            0 <= tc <= 0x1_0000,
            k <= run_len,
            forall|c: int| all_eq(old(plane)@, c) ==> #[trigger] all_eq(plane@, c),
            plane@ == chroma_run_lines(p0, i0 as int, off as int, along as int, tc as int, sw, chroma_ctb, mx, k as int),
        decreases run_len - k,
    {
        proof {
            assert(along * k <= 3 * along) by (nonlinear_arith)
                requires
                    k < 4,
            ;
            assert(along * k >= 0) by (nonlinear_arith)
                requires
                    k >= 0,
            ;
        }
        let ghost prev = plane@;
        chroma_line(plane, i0 + along * k, off, tc, sw, chroma_ctb, max_val);
        proof {
            let kk = k as int;
            assert(i0 + along * (kk + 1 - 1) == i0 + along * k);
        }
        k += 1;
    }
}

/// A chroma plane and the luma block map fit each other.
pub open spec fn chroma_plane_ok(len: int, cw: int, ch: int, grid: &Grid, subx: int, suby: int) -> bool {
    &&& grid.wf()
    &&& grid.cols >= 1
    &&& grid.rows >= 1
    &&& len == cw * ch
    &&& plane_len_ok(len)
    &&& 0 <= subx <= 1
    &&& 0 <= suby <= 1
    &&& pos_ok(cw * ch + 12 * cw + 12)
    &&& pos_ok(2 * cw + 16)
    &&& pos_ok(2 * ch + 16)
}

/// A chroma coordinate on the luma grid (`sub` is the subsampling shift).
pub open spec fn sub_pos(c: int, sub: int) -> int {
    if sub == 0 {
        c
    } else {
        2 * c
    }
}

/// A luma length in chroma samples.
pub open spec fn sub_len(n: int, sub: int) -> int {
    if sub == 0 {
        n
    } else {
        n / 2
    }
}

/// Lines in a chroma edge run (one luma 4-sample segment).
pub open spec fn run_lines(sub: int) -> int {
    if sub == 0 {
        4
    } else {
        2
    }
}

/// Offset of the second decision line of a chroma edge run.
pub open spec fn run_dec3(sub: int) -> int {
    if sub == 0 {
        3
    } else {
        1
    }
}

/// The run on the vertical edge at chroma position `(ccx, ccy)`, filtered
/// when a coding unit starts there.
pub open spec fn chroma_ver_at(
    p: Seq<i32>,
    blk: Seq<Blk>,
    cols: int,
    rows: int,
    cw: int,
    subx: int,
    suby: int,
    bd: int,
    ccx: int,
    ccy: int,
) -> Seq<i32> {
    let lx = sub_pos(ccx, subx);
    let bx = lx / 4;
    let ly = sub_pos(ccy, suby);
    let by = if ly / 4 < rows - 1 {
        ly / 4
    } else {
        rows - 1
    };
    let q = blk[by * cols + bx];
    if q.cux == lx && bx >= 1 {
        let pb = blk[by * cols + bx - 1];
        chroma_run_spec(
            p,
            ccy * cw + ccx,
            1,
            cw,
            run_dec3(suby) * cw,
            run_lines(suby),
            sub_len(pb.cuw as int, subx),
            sub_len(q.cuw as int, subx),
            (pb.qp + q.qp + 1) / 2,
            bd,
            false,
        )
    } else {
        p
    }
}

/// The plane after the first `n` runs down the chroma column `ccx`.
pub open spec fn chroma_ver_col(
    p: Seq<i32>,
    blk: Seq<Blk>,
    cols: int,
    rows: int,
    cw: int,
    ch: int,
    subx: int,
    suby: int,
    bd: int,
    ccx: int,
    n: int,
) -> Seq<i32>
    decreases n,
{
    if n <= 0 {
        p
    } else {
        let prev = chroma_ver_col(p, blk, cols, rows, cw, ch, subx, suby, bd, ccx, n - 1);
        let ccy = run_lines(suby) * (n - 1);
        if ccy < ch {
            chroma_ver_at(prev, blk, cols, rows, cw, subx, suby, bd, ccx, ccy)
        } else {
            prev
        }
    }
}

/// The plane after the vertical pass over the chroma columns `8, 16, …, 8m`
/// (those inside the plane and the block map).
pub open spec fn chroma_ver_pass(
    p: Seq<i32>,
    blk: Seq<Blk>,
    cols: int,
    rows: int,
    cw: int,
    ch: int,
    subx: int,
    suby: int,
    bd: int,
    m: int,
) -> Seq<i32>
    decreases m,
{
    if m <= 0 {
        p
    } else {
        let prev = chroma_ver_pass(p, blk, cols, rows, cw, ch, subx, suby, bd, m - 1);
        let ccx = 8 * m;
        if ccx < cw && sub_pos(ccx, subx) / 4 < cols {
            chroma_ver_col(prev, blk, cols, rows, cw, ch, subx, suby, bd, ccx, ch)
        } else {
            prev
        }
    }
}

/// The run on the horizontal edge at chroma position `(ccx, ccy)`, filtered
/// when a coding unit starts there; on a chroma CTU row boundary the P side
/// takes the short filter.
pub open spec fn chroma_hor_at(
    p: Seq<i32>,
    blk: Seq<Blk>,
    cols: int,
    rows: int,
    cw: int,
    subx: int,
    suby: int,
    bd: int,
    ctu: int,
    ccx: int,
    ccy: int,
) -> Seq<i32> {
    let ly = sub_pos(ccy, suby);
    let by = ly / 4;
    let lx = sub_pos(ccx, subx);
    let bx = if lx / 4 < cols - 1 {
        lx / 4
    } else {
        cols - 1
    };
    let q = blk[by * cols + bx];
    if q.cuy == ly && by >= 1 {
        let pb = blk[(by - 1) * cols + bx];
        let ctu_rows = sub_len(ctu, suby);
        chroma_run_spec(
            p,
            ccy * cw + ccx,
            cw,
            1,
            run_dec3(subx),
            run_lines(subx),
            sub_len(pb.cuh as int, suby),
            sub_len(q.cuh as int, suby),
            (pb.qp + q.qp + 1) / 2,
            bd,
            ctu_rows != 0 && ccy % ctu_rows == 0,
        )
    } else {
        p
    }
}

/// The plane after the first `n` runs along the chroma row `ccy`.
pub open spec fn chroma_hor_row(
    p: Seq<i32>,
    blk: Seq<Blk>,
    cols: int,
    rows: int,
    cw: int,
    subx: int,
    suby: int,
    bd: int,
    ctu: int,
    ccy: int,
    n: int,
) -> Seq<i32>
    decreases n,
{
    if n <= 0 {
        p
    } else {
        let prev = chroma_hor_row(p, blk, cols, rows, cw, subx, suby, bd, ctu, ccy, n - 1);
        let ccx = run_lines(subx) * (n - 1);
        if ccx < cw {
            chroma_hor_at(prev, blk, cols, rows, cw, subx, suby, bd, ctu, ccx, ccy)
        } else {
            prev
        }
    }
}

/// The plane after the horizontal pass over the chroma rows `8, 16, …, 8m`
/// (those inside the plane and the block map).
pub open spec fn chroma_hor_pass(
    p: Seq<i32>,
    blk: Seq<Blk>,
    cols: int,
    rows: int,
    cw: int,
    ch: int,
    subx: int,
    suby: int,
    bd: int,
    ctu: int,
    m: int,
) -> Seq<i32>
    decreases m,
{
    if m <= 0 {
        p
    } else {
        let prev = chroma_hor_pass(p, blk, cols, rows, cw, ch, subx, suby, bd, ctu, m - 1);
        let ccy = 8 * m;
        if ccy < ch && sub_pos(ccy, suby) / 4 < rows {
            chroma_hor_row(prev, blk, cols, rows, cw, subx, suby, bd, ctu, ccy, cw)
        } else {
            prev
        }
    }
}

/// Runs past the end of a column change nothing.
proof fn lemma_ver_col_stable(
    p: Seq<i32>,
    blk: Seq<Blk>,
    cols: int,
    rows: int,
    cw: int,
    ch: int,
    subx: int,
    suby: int,
    bd: int,
    ccx: int,
    k: int,
    n: int,
)
    requires
        0 <= k <= n,
        run_lines(suby) * k >= ch,
    ensures
        chroma_ver_col(p, blk, cols, rows, cw, ch, subx, suby, bd, ccx, n)
            == chroma_ver_col(p, blk, cols, rows, cw, ch, subx, suby, bd, ccx, k),
    decreases n,
{
    if n > k {
        lemma_ver_col_stable(p, blk, cols, rows, cw, ch, subx, suby, bd, ccx, k, n - 1);
        let l = run_lines(suby);
        assert(l * (n - 1) >= l * k) by (nonlinear_arith)
            requires
                n - 1 >= k,
                l >= 0,
        ;
    }
}

/// Columns past the end of the plane change nothing.
proof fn lemma_ver_pass_stable(
    p: Seq<i32>,
    blk: Seq<Blk>,
    cols: int,
    rows: int,
    cw: int,
    ch: int,
    subx: int,
    suby: int,
    bd: int,
    k: int,
    n: int,
)
    requires
        0 <= k <= n,
        8 * (k + 1) >= cw,
    ensures
        chroma_ver_pass(p, blk, cols, rows, cw, ch, subx, suby, bd, n)
            == chroma_ver_pass(p, blk, cols, rows, cw, ch, subx, suby, bd, k),
    decreases n,
{
    if n > k {
        lemma_ver_pass_stable(p, blk, cols, rows, cw, ch, subx, suby, bd, k, n - 1);
    }
}

/// Runs past the end of a row change nothing.
proof fn lemma_hor_row_stable(
    p: Seq<i32>,
    blk: Seq<Blk>,
    cols: int,
    rows: int,
    cw: int,
    subx: int,
    suby: int,
    bd: int,
    ctu: int,
    ccy: int,
    k: int,
    n: int,
)
    requires
        0 <= k <= n,
        run_lines(subx) * k >= cw,
    ensures
        chroma_hor_row(p, blk, cols, rows, cw, subx, suby, bd, ctu, ccy, n)
            == chroma_hor_row(p, blk, cols, rows, cw, subx, suby, bd, ctu, ccy, k),
    decreases n,
{
    if n > k {
        lemma_hor_row_stable(p, blk, cols, rows, cw, subx, suby, bd, ctu, ccy, k, n - 1);
        let l = run_lines(subx);
        assert(l * (n - 1) >= l * k) by (nonlinear_arith)
            requires
                n - 1 >= k,
                l >= 0,
        ;
    }
}

/// Rows past the end of the plane change nothing.
proof fn lemma_hor_pass_stable(
    p: Seq<i32>,
    blk: Seq<Blk>,
    cols: int,
    rows: int,
    cw: int,
    ch: int,
    subx: int,
    suby: int,
    bd: int,
    ctu: int,
    k: int,
    n: int,
)
    requires
        0 <= k <= n,
        8 * (k + 1) >= ch,
    ensures
        chroma_hor_pass(p, blk, cols, rows, cw, ch, subx, suby, bd, ctu, n)
            == chroma_hor_pass(p, blk, cols, rows, cw, ch, subx, suby, bd, ctu, k),
    decreases n,
{
    if n > k {
        lemma_hor_pass_stable(p, blk, cols, rows, cw, ch, subx, suby, bd, ctu, k, n - 1);
    }
}

/// Deblock a chroma plane (`cw × ch`) in place with the luma block map:
/// coding-unit edges on the 8-sample chroma grid, vertical then horizontal,
/// in runs of one luma 4-sample segment. `subx`/`suby` are the chroma
/// subsampling shifts.
#[verifier::rlimit(50)]
pub fn deblock_chroma(
    plane: &mut [i32],
    cw: usize,
    ch: usize,
    grid: &Grid,
    subx: usize,
    suby: usize,
    bit_depth: u8,
    ctu_size: usize,
)
    requires
        chroma_plane_ok(old(plane).len() as int, cw as int, ch as int, grid, subx as int, suby as int),
        8 <= bit_depth <= 16,
        plane_in_range(old(plane)@, bit_depth as int),
    ensures
        keeps_plane(old(plane)@, final(plane)@, vstd::arithmetic::power2::pow2(bit_depth as nat) - 1),
        final(plane)@ == chroma_hor_pass(
            chroma_ver_pass(
                old(plane)@,
                grid.blk@,
                grid.cols as int,
                grid.rows as int,
                cw as int,
                ch as int,
                subx as int,
                suby as int,
                bit_depth as int,
                cw as int,
            ),
            grid.blk@,
            grid.cols as int,
            grid.rows as int,
            cw as int,
            ch as int,
            subx as int,
            suby as int,
            bit_depth as int,
            ctu_size as int,
            ch as int,
        ),
{
    let ghost mx = vstd::arithmetic::power2::pow2(bit_depth as nat) - 1;
    let ghost p0 = plane@;
    let ghost blk = grid.blk@;
    let ghost cols = grid.cols as int;
    let ghost rows = grid.rows as int;
    let ghost bd = bit_depth as int;
    let ghost sx = subx as int;
    let ghost sy = suby as int;
    let stride = cw;
    let lpc_v: usize = if suby == 0 { 4 } else { 2 };
    let lpc_h: usize = if subx == 0 { 4 } else { 2 };
    let dec3_v: usize = if suby == 0 { 3 } else { 1 };
    let dec3_h: usize = if subx == 0 { 3 } else { 1 };
    let chroma_ctu_rows = if suby == 0 { ctu_size } else { ctu_size / 2 };
    let mut ccx: usize = 8;
    let ghost mut j: int = 0;
    while ccx < cw
        invariant
            chroma_plane_ok(plane.len() as int, cw as int, ch as int, grid, subx as int, suby as int),
            plane.len() == old(plane).len(),
            stride == cw,
            lpc_v == run_lines(sy),
            dec3_v == run_dec3(sy),
            sx == subx,
            sy == suby,
            8 <= bit_depth <= 16,
            bd == bit_depth,
            mx == vstd::arithmetic::power2::pow2(bit_depth as nat) - 1,
            in_range(plane@, mx),
            forall|c: int| all_eq(old(plane)@, c) ==> #[trigger] all_eq(plane@, c),
            ccx <= cw + 8,
            ccx == 8 * (j + 1),
            0 <= j <= cw,
            p0 == old(plane)@,
            blk == grid.blk@,
            cols == grid.cols,
            rows == grid.rows,
            plane@ == chroma_ver_pass(p0, blk, cols, rows, cw as int, ch as int, sx, sy, bd, j),
        decreases cw + 8 - ccx,
    {
        let lx = if subx == 0 { ccx } else { ccx * 2 };
        let bx = lx / 4;
        let ghost start = plane@;
        if bx < grid.cols {
            let mut ccy: usize = 0;
            let ghost mut k: int = 0;
            while ccy < ch
                invariant
                    chroma_plane_ok(plane.len() as int, cw as int, ch as int, grid, subx as int, suby as int),
                    plane.len() == old(plane).len(),
                    stride == cw,
                    lpc_v == run_lines(sy),
                    dec3_v == run_dec3(sy),
                    sx == subx,
                    sy == suby,
                    ccx < cw,
                    lx == sub_pos(ccx as int, sx),
                    bx == lx / 4,
                    bx < grid.cols,
                    8 <= bit_depth <= 16,
                    bd == bit_depth,
                    mx == vstd::arithmetic::power2::pow2(bit_depth as nat) - 1,
                    in_range(plane@, mx),
                    forall|c: int| all_eq(old(plane)@, c) ==> #[trigger] all_eq(plane@, c),
                    ccy <= ch + 4,
                    ccy == lpc_v * k,
                    0 <= k <= ch,
                    blk == grid.blk@,
                    cols == grid.cols,
                    rows == grid.rows,
                    plane@ == chroma_ver_col(start, blk, cols, rows, cw as int, ch as int, sx, sy, bd, ccx as int, k),
                decreases ch + 4 - ccy,
            {
                let ly = if suby == 0 { ccy } else { ccy * 2 };
                let by = if ly / 4 < grid.rows - 1 { ly / 4 } else { grid.rows - 1 };
                proof {
                    lemma_rowmajor(by as int, bx as int, cols);
                }
                let q = grid.at(bx, by);
                if q.cux as usize == lx && bx >= 1 {
                    let p = grid.at(bx - 1, by);
                    let qp = (p.qp as i32 + q.qp as i32 + 1) / 2;
                    let size_p = if subx == 0 { p.cuw as i32 } else { p.cuw as i32 / 2 };
                    let size_q = if subx == 0 { q.cuw as i32 } else { q.cuw as i32 / 2 };
                    proof {
                        crate::residual::ctx::lemma_cell_bound(ccx as int, ccy as int, cw as int, ch as int);
                    }
                    let i0 = ccy * stride + ccx;
                    chroma_run(plane, i0, 1, stride, dec3_v * stride, lpc_v, size_p, size_q, qp, bit_depth, false);
                }
                ccy += lpc_v;
                proof {
                    k = k + 1;
                }
            }
            proof {
                lemma_ver_col_stable(start, blk, cols, rows, cw as int, ch as int, sx, sy, bd, ccx as int, k, ch as int);
            }
        }
        ccx += 8;
        proof {
            j = j + 1;
        }
    }
    proof {
        lemma_ver_pass_stable(p0, blk, cols, rows, cw as int, ch as int, sx, sy, bd, j, cw as int);
    }
    let ghost pv = plane@;
    let mut ccy: usize = 8;
    let ghost mut j: int = 0;
    while ccy < ch
        invariant
            chroma_plane_ok(plane.len() as int, cw as int, ch as int, grid, subx as int, suby as int),
            plane.len() == old(plane).len(),
            stride == cw,
            lpc_h == run_lines(sx),
            dec3_h == run_dec3(sx),
            chroma_ctu_rows == sub_len(ctu_size as int, sy),
            sx == subx,
            sy == suby,
            8 <= bit_depth <= 16,
            bd == bit_depth,
            mx == vstd::arithmetic::power2::pow2(bit_depth as nat) - 1,
            in_range(plane@, mx),
            forall|c: int| all_eq(old(plane)@, c) ==> #[trigger] all_eq(plane@, c),
            ccy <= ch + 8,
            ccy == 8 * (j + 1),
            0 <= j <= ch,
            blk == grid.blk@,
            cols == grid.cols,
            rows == grid.rows,
            plane@ == chroma_hor_pass(pv, blk, cols, rows, cw as int, ch as int, sx, sy, bd, ctu_size as int, j),
        decreases ch + 8 - ccy,
    {
        let ly = if suby == 0 { ccy } else { ccy * 2 };
        let by = ly / 4;
        let ghost start = plane@;
        if by < grid.rows {
            let chroma_ctb = chroma_ctu_rows != 0 && ccy % chroma_ctu_rows == 0;
            let mut ccx: usize = 0;
            let ghost mut k: int = 0;
            while ccx < cw
                invariant
                    chroma_plane_ok(plane.len() as int, cw as int, ch as int, grid, subx as int, suby as int),
                    plane.len() == old(plane).len(),
                    stride == cw,
                    lpc_h == run_lines(sx),
                    dec3_h == run_dec3(sx),
                    sx == subx,
                    sy == suby,
                    ccy < ch,
                    ly == sub_pos(ccy as int, sy),
                    by == ly / 4,
                    by < grid.rows,
                    chroma_ctb == (chroma_ctu_rows != 0 && ccy % chroma_ctu_rows == 0),
                    chroma_ctu_rows == sub_len(ctu_size as int, sy),
                    8 <= bit_depth <= 16,
                    bd == bit_depth,
                    mx == vstd::arithmetic::power2::pow2(bit_depth as nat) - 1,
                    in_range(plane@, mx),
                    forall|c: int| all_eq(old(plane)@, c) ==> #[trigger] all_eq(plane@, c),
                    ccx <= cw + 4,
                    ccx == lpc_h * k,
                    0 <= k <= cw,
                    blk == grid.blk@,
                    cols == grid.cols,
                    rows == grid.rows,
                    plane@ == chroma_hor_row(start, blk, cols, rows, cw as int, sx, sy, bd, ctu_size as int, ccy as int, k),
                decreases cw + 4 - ccx,
            {
                let lx = if subx == 0 { ccx } else { ccx * 2 };
                let bx = if lx / 4 < grid.cols - 1 { lx / 4 } else { grid.cols - 1 };
                proof {
                    lemma_rowmajor(by as int, bx as int, cols);
                    if by >= 1 {
                        lemma_rowmajor((by - 1) as int, bx as int, cols);
                    }
                }
                let q = grid.at(bx, by);
                if q.cuy as usize == ly && by >= 1 {
                    let p = grid.at(bx, by - 1);
                    let qp = (p.qp as i32 + q.qp as i32 + 1) / 2;
                    let size_p = if suby == 0 { p.cuh as i32 } else { p.cuh as i32 / 2 };
                    let size_q = if suby == 0 { q.cuh as i32 } else { q.cuh as i32 / 2 };
                    proof {
                        crate::residual::ctx::lemma_cell_bound(ccx as int, ccy as int, cw as int, ch as int);
                        assert(ccy * cw + ccx + 3 + 8 * cw <= cw * ch + 12 * cw + 12);
                    }
                    let i0 = ccy * stride + ccx;
                    chroma_run(plane, i0, stride, 1, dec3_h, lpc_h, size_p, size_q, qp, bit_depth, chroma_ctb);
                }
                ccx += lpc_h;
                proof {
                    k = k + 1;
                }
            }
            proof {
                lemma_hor_row_stable(start, blk, cols, rows, cw as int, sx, sy, bd, ctu_size as int, ccy as int, k, cw as int);
            }
        }
        ccy += 8;
        proof {
            j = j + 1;
        }
    }
    proof {
        lemma_hor_pass_stable(pv, blk, cols, rows, cw as int, ch as int, sx, sy, bd, ctu_size as int, j, ch as int);
    }
}

} // verus!
