//! Questions about a block of levels that signalling decisions depend on:
//! its last significant scan position, whether an MTS index may be coded,
//! and whether an LFNST index is present.
use vstd::prelude::*;
use super::ctx::{CoeffCtx, Component};
use super::scan::{cell_pos, coeff_scan, lemma_coeff_scan, tb_side_ok};

verus! {

/// Highest scan index below `n` whose level is non-zero, or −1.
pub open spec fn last_nz_below(c: Seq<i32>, w: int, h: int, n: int) -> int
    decreases n,
{
    if n <= 0 {
        -1
    } else if c[cell_pos(coeff_scan(w, h)[n - 1], w)] != 0 {
        n - 1
    } else {
        last_nz_below(c, w, h, n - 1)
    }
}

/// Last significant scan index of a block, or −1 when every coded level is 0.
pub open spec fn last_sig(c: Seq<i32>, w: int, h: int) -> int {
    last_nz_below(c, w, h, coeff_scan(w, h).len() as int)
}

/// Last significant scan position of a `w × h` block of levels (−1 when
/// none); the scan does not depend on the component.
pub fn last_sig_scan_pos(levels: &[i32], w: usize, h: usize, comp: Component) -> (r: i32)
    requires
        tb_side_ok(w as int),
        tb_side_ok(h as int),
        levels.len() >= w * h,
    ensures
        r as int == last_sig(levels@, w as int, h as int),
        -1 <= r < 1024,
{
    let cc = CoeffCtx::new(w, h, comp);
    proof {
        lemma_coeff_scan(w as int, h as int);
    }
    let mut last: i32 = -1;
    let mut p: usize = 0;
    while p < cc.scan.len()
        invariant
            tb_side_ok(w as int),
            tb_side_ok(h as int),
            cc.is_for(w as int, h as int, comp == Component::Luma),
            cc.scan.len() <= 1024,
            levels.len() >= w * h,
            p <= cc.scan.len(),
            last as int == last_nz_below(levels@, w as int, h as int, p as int),
            -1 <= last < p,
        decreases cc.scan.len() - p,
    {
        let blk = cc.block_pos(p);
        if levels[blk] != 0 {
            last = p as i32;
        }
        p += 1;
    }
    last
}

/// An MTS index may be coded: some level past the DC is significant and
/// every level outside the top-left 16×16 is zero.
pub open spec fn mts_signallable_spec(c: Seq<i32>, w: int, h: int) -> bool {
    &&& last_sig(c, w, h) >= 1
    &&& forall|x: int, y: int| 0 <= x < w && 0 <= y < h && (x >= 16 || y >= 16) ==> #[trigger] c[y * w + x] == 0
}

/// Whether an MTS index may be coded for a luma block (see
/// [`mts_signallable_spec`]).
pub fn mts_signallable(levels: &[i32], w: usize, h: usize) -> (r: bool)
    requires
        tb_side_ok(w as int),
        tb_side_ok(h as int),
        levels.len() >= w * h,
    ensures
        r == mts_signallable_spec(levels@, w as int, h as int),
{
    if last_sig_scan_pos(levels, w, h, Component::Luma) < 1 {
        return false;
    }
    let mut y: usize = 0;
    while y < h
        invariant
            tb_side_ok(w as int),
            tb_side_ok(h as int),
            levels.len() >= w * h,
            y <= h,
            forall|xx: int, yy: int|
                0 <= xx < w && 0 <= yy < y && (xx >= 16 || yy >= 16) ==> #[trigger] levels@[yy * w + xx] == 0,
        decreases h - y,
    {
        let mut x: usize = 0;
        while x < w
            invariant
                tb_side_ok(w as int),
                tb_side_ok(h as int),
                levels.len() >= w * h,
                y < h,
                x <= w,
                forall|xx: int, yy: int|
                    0 <= xx < w && 0 <= yy < y && (xx >= 16 || yy >= 16) ==> #[trigger] levels@[yy * w + xx] == 0,
                forall|xx: int| 0 <= xx < x && (xx >= 16 || y >= 16) ==> #[trigger] levels@[y * w + xx] == 0,
            decreases w - x,
        {
            proof {
                super::ctx::lemma_cell_bound(x as int, y as int, w as int, h as int);
            }
            if (x >= 16 || y >= 16) && levels[y * w + x] != 0 {
                proof {
                    assert(levels@[y * w + x] != 0);
                }
                return false;
            }
            x += 1;
        }
        proof {
            assert forall|xx: int, yy: int|
                0 <= xx < w && 0 <= yy < y + 1 && (xx >= 16 || yy >= 16) implies #[trigger] levels@[yy * w + xx] == 0 by {
                if yy == y {
                    assert(levels@[y * w + xx] == 0);
                }
            }
        }
        y += 1;
    }
    true
}

/// What one component tells the LFNST decision: `(a significant position
/// past the first, the last position beyond the LFNST region, a coded
/// transform-skip block)`; an empty or all-zero component tells nothing.
pub open spec fn lfnst_visit(c: Seq<i32>, w: int, h: int, ts: bool) -> (bool, bool, bool) {
    if c.len() == 0 {
        (false, false, false)
    } else {
        let sp = last_sig(c, w, h);
        if sp < 0 {
            (false, false, false)
        } else if ts {
            (false, false, true)
        } else {
            let max_pos: int = if (w == 4 && h == 4) || (w == 8 && h == 8) {
                7
            } else {
                15
            };
            (sp >= 1, sp > max_pos, false)
        }
    }
}

/// The levels of a component the LFNST decision may look at: empty, or a
/// whole transform block.
pub open spec fn lfnst_input_ok(c: Seq<i32>, w: int, h: int) -> bool {
    c.len() == 0 || (tb_side_ok(w) && tb_side_ok(h) && c.len() >= w * h)
}

fn visit(levels: &[i32], w: usize, h: usize, ts: bool) -> (r: (bool, bool, bool))
    requires
        lfnst_input_ok(levels@, w as int, h as int),
    ensures
        r == lfnst_visit(levels@, w as int, h as int, ts),
{
    if levels.len() == 0 {
        return (false, false, false);
    }
    let sp_last = last_sig_scan_pos(levels, w, h, Component::Luma);
    if sp_last < 0 {
        return (false, false, false);
    }
    if ts {
        return (false, false, true);
    }
    let max_pos: i32 = if (w == 4 && h == 4) || (w == 8 && h == 8) { 7 } else { 15 };
    (sp_last >= 1, sp_last > max_pos, false)
}

/// Whether an LFNST index is present for a coding unit: LFNST enabled, luma
/// no larger than 64×64, some component with a significant level past the
/// first position, none with its last position beyond the LFNST region, and
/// no coded transform-skip component.
pub open spec fn lfnst_present_spec(
    sps_lfnst: bool,
    luma_w: int,
    luma_h: int,
    luma: (Seq<i32>, bool),
    chroma: Option<(Seq<i32>, Seq<i32>, int, int, bool)>,
) -> bool {
    let l = lfnst_visit(luma.0, luma_w, luma_h, luma.1);
    let (cb, cr) = match chroma {
        Some((b, r, cw, ch, cts)) => (lfnst_visit(b, cw, ch, cts), lfnst_visit(r, cw, ch, cts)),
        None => ((false, false, false), (false, false, false)),
    };
    &&& sps_lfnst
    &&& luma_w <= 64
    &&& luma_h <= 64
    &&& (l.0 || cb.0 || cr.0)
    &&& !(l.1 || cb.1 || cr.1)
    &&& !(l.2 || cb.2 || cr.2)
}

/// Whether an LFNST index is present (see [`lfnst_present_spec`]).
pub fn lfnst_present(
    sps_lfnst: bool,
    luma_w: usize,
    luma_h: usize,
    luma: (&[i32], bool),
    chroma: Option<(&[i32], &[i32], usize, usize, bool)>,
) -> (r: bool)
    requires
        lfnst_input_ok(luma.0@, luma_w as int, luma_h as int),
        chroma matches Some((b, c, cw, ch, _cts)) ==> lfnst_input_ok(b@, cw as int, ch as int)
            && lfnst_input_ok(c@, cw as int, ch as int),
    ensures
        r == lfnst_present_spec(
            sps_lfnst,
            luma_w as int,
            luma_h as int,
            (luma.0@, luma.1),
            match chroma {
                Some((b, c, cw, ch, cts)) => Some((b@, c@, cw as int, ch as int, cts)),
                None => None,
            },
        ),
{
    if !sps_lfnst || luma_w > 64 || luma_h > 64 {
        return false;
    }
    let l = visit(luma.0, luma_w, luma_h, luma.1);
    let (cb, cr) = match chroma {
        Some((b, c, cw, ch, cts)) => (visit(b, cw, ch, cts), visit(c, cw, ch, cts)),
        None => ((false, false, false), (false, false, false)),
    };
    (l.0 || cb.0 || cr.0) && !(l.1 || cb.1 || cr.1) && !(l.2 || cb.2 || cr.2)
}

} // verus!
