//! The coding-unit map the deblocking filter reads, on the 4×4 luma grid,
//! and the filter strengths derived from the QP.
use vstd::prelude::*;

verus! {

/// Largest QP.
pub const MAX_QP: i32 = 63;

/// tc offset of boundary strength 2 (intra).
pub const DEFAULT_INTRA_TC_OFFSET: i32 = 2;

/// tc′ table, indexed by `clip(0, MAX_QP + 2, qp + 2)`.
pub const TC_TABLE: [u16; 66] = [
    0, 0, 0, 0, 0, 0, 0, 0, 0, 0, 0, 0, 0, 0, 0, 0, 0, 0, 3, 4, 4, 4, 4, 5, 5, 5, 5, 7, 7, 8, 9, 10, 10, 11, 13, 14,
    15, 17, 19, 21, 24, 25, 29, 33, 36, 41, 45, 51, 57, 64, 71, 80, 89, 100, 112, 125, 141, 157, 177, 198, 222, 250,
    280, 314, 352, 395,
];

/// β′ table, indexed by `clip(0, MAX_QP, qp)`.
pub const BETA_TABLE: [u8; 64] = [
    0, 0, 0, 0, 0, 0, 0, 0, 0, 0, 0, 0, 0, 0, 0, 0, 6, 7, 8, 9, 10, 11, 12, 13, 14, 15, 16, 17, 18, 20, 22, 24, 26,
    28, 30, 32, 34, 36, 38, 40, 42, 44, 46, 48, 50, 52, 54, 56, 58, 60, 62, 64, 66, 68, 70, 72, 74, 76, 78, 80, 82,
    84, 86, 88,
];

/// One 4×4 luma block of the map: the coding unit covering it (top-left
/// and size in luma samples) and that unit's QP.
#[derive(Clone, Copy, Debug, PartialEq, Eq)]
pub struct Blk {
    pub cux: u16,
    pub cuy: u16,
    pub cuw: u16,
    pub cuh: u16,
    pub qp: u8,
}

/// The block map of a picture: `cols × rows` blocks of 4×4 luma samples in
/// raster order.
pub struct Grid {
    pub cols: usize,
    pub rows: usize,
    pub blk: Vec<Blk>,
}

/// The all-zero block.
pub open spec fn zero_blk() -> Blk {
    Blk { cux: 0, cuy: 0, cuw: 0, cuh: 0, qp: 0 }
}

impl Grid {
    /// The map holds one block per grid cell.
    pub open spec fn wf(&self) -> bool {
        self.blk.len() == self.cols * self.rows
    }

    /// An empty map of a `width × height` picture.
    pub fn new(width: usize, height: usize) -> (g: Self)
        requires
            (width / 4) * (height / 4) <= usize::MAX,
        ensures
            g.wf(),
            g.cols == width / 4,
            g.rows == height / 4,
            forall|k: int| 0 <= k < g.blk.len() ==> #[trigger] g.blk[k] == zero_blk(),
    {
        let cols = width / 4;
        let rows = height / 4;
        let z = Blk { cux: 0, cuy: 0, cuw: 0, cuh: 0, qp: 0 };
        Grid { cols, rows, blk: vec![z; cols * rows] }
    }

    /// The block at grid cell `(bx, by)`.
    pub fn at(&self, bx: usize, by: usize) -> (b: Blk)
        requires
            self.wf(),
            bx < self.cols,
            by < self.rows,
        ensures
            b == self.blk[by * self.cols + bx],
    {
        proof {
            crate::residual::ctx::lemma_cell_bound(bx as int, by as int, self.cols as int, self.rows as int);
        }
        self.blk[by * self.cols + bx]
    }

    /// Record the coding unit at `(x, y)` of size `w × h` (luma samples) with
    /// QP `qp` on every grid cell it covers; other cells are unchanged.
    pub fn set_cu(&mut self, x: usize, y: usize, w: usize, h: usize, qp: u8)
        requires
            old(self).wf(),
            x + w <= usize::MAX,
            y + h <= usize::MAX,
            (x + w) / 4 <= old(self).cols,
            (y + h) / 4 <= old(self).rows,
        ensures
            final(self).wf(),
            final(self).cols == old(self).cols,
            final(self).rows == old(self).rows,
            forall|bx: int, by: int|
                0 <= bx < final(self).cols && 0 <= by < final(self).rows ==> #[trigger] final(self).blk[by
                    * final(self).cols + bx] == if x / 4 <= bx < (x + w) / 4 && y / 4 <= by < (y + h) / 4 {
                    Blk { cux: x as u16, cuy: y as u16, cuw: w as u16, cuh: h as u16, qp }
                } else {
                    old(self).blk[by * old(self).cols + bx]
                },
    {
        let b = Blk { cux: x as u16, cuy: y as u16, cuw: w as u16, cuh: h as u16, qp };
        let cols = self.cols;
        let rows = self.rows;
        let ghost old_blk = self.blk@;
        let mut by = y / 4;
        while by < (y + h) / 4
            invariant
                self.blk.len() == cols * rows,
                self.cols == cols,
                self.rows == rows,
                old_blk == old(self).blk@,
                old(self).cols == cols,
                old(self).rows == rows,
                x + w <= usize::MAX,
                y + h <= usize::MAX,
                (x + w) / 4 <= cols,
                (y + h) / 4 <= rows,
                y / 4 <= by <= (y + h) / 4 || by == y / 4,
                forall|bx2: int, by2: int|
                    0 <= bx2 < cols && 0 <= by2 < rows ==> #[trigger] self.blk[by2 * cols + bx2] == if x / 4 <= bx2
                        < (x + w) / 4 && y / 4 <= by2 < by {
                        b
                    } else {
                        old_blk[by2 * cols + bx2]
                    },
            decreases (y + h) / 4 - by,
        {
            let mut bx = x / 4;
            while bx < (x + w) / 4
                invariant
                    self.blk.len() == cols * rows,
                    self.cols == cols,
                    self.rows == rows,
                    x + w <= usize::MAX,
                    y + h <= usize::MAX,
                    (x + w) / 4 <= cols,
                    by < (y + h) / 4 <= rows,
                    y / 4 <= by,
                    x / 4 <= bx <= (x + w) / 4 || bx == x / 4,
                    forall|bx2: int, by2: int|
                        0 <= bx2 < cols && 0 <= by2 < rows ==> #[trigger] self.blk[by2 * cols + bx2] == if (x / 4
                            <= bx2 < (x + w) / 4 && y / 4 <= by2 < by) || (by2 == by && x / 4 <= bx2 < bx) {
                            b
                        } else {
                            old_blk[by2 * cols + bx2]
                        },
                decreases (x + w) / 4 - bx,
            {
                proof {
                    crate::residual::ctx::lemma_cell_bound(bx as int, by as int, cols as int, rows as int);
                }
                let ghost pre = self.blk@;
                self.blk.set(by * cols + bx, b);
                proof {
                    assert forall|bx2: int, by2: int| 0 <= bx2 < cols && 0 <= by2 < rows implies #[trigger] self.blk[by2
                        * cols + bx2] == if (x / 4 <= bx2 < (x + w) / 4 && y / 4 <= by2 < by) || (by2 == by && x / 4
                        <= bx2 < bx + 1) {
                        b
                    } else {
                        old_blk[by2 * cols + bx2]
                    } by {
                        crate::residual::ctx::lemma_cell_bound(bx2, by2, cols as int, rows as int);
                        if by2 * cols + bx2 == by * cols + bx {
                            crate::residual::decode::lemma_raster_inj(bx2, by2, bx as int, by as int, cols as int);
                        } else {
                            assert(self.blk@[by2 * cols + bx2] == pre[by2 * cols + bx2]);
                        }
                    }
                }
                bx += 1;
            }
            by += 1;
        }
    }
}

/// Clamp `v` into `[lo, hi]`.
pub open spec fn clamp_int(lo: int, hi: int, v: int) -> int {
    if v < lo {
        lo
    } else if v > hi {
        hi
    } else {
        v
    }
}

/// Luma/chroma tc for boundary strength 2 at `qp`, scaled to the bit depth.
pub open spec fn tc_of(qp: int, bd: int) -> int {
    let t = TC_TABLE[clamp_int(0, (MAX_QP + DEFAULT_INTRA_TC_OFFSET) as int, qp + DEFAULT_INTRA_TC_OFFSET)] as int;
    if bd < 10 {
        (t + vstd::arithmetic::power2::pow2((9 - bd) as nat)) / (vstd::arithmetic::power2::pow2((10 - bd) as nat) as int)
    } else {
        t * vstd::arithmetic::power2::pow2((bd - 10) as nat)
    }
}

/// β at `qp`, scaled to the bit depth.
pub open spec fn beta_of(qp: int, bd: int) -> int {
    BETA_TABLE[clamp_int(0, MAX_QP as int, qp)] as int * vstd::arithmetic::power2::pow2((bd - 8) as nat)
}

/// tc and β of an edge at the averaged `qp`.
#[verifier::rlimit(60)]
pub fn luma_tc_beta(qp: i32, bit_depth: u8) -> (r: (i32, i32))
    requires
        8 <= bit_depth <= 16,
    ensures
        r.0 == tc_of(qp as int, bit_depth as int),
        r.1 == beta_of(qp as int, bit_depth as int),
        0 <= r.0 <= 395 * 64,
        0 <= r.1 <= 88 * 256,
{
    let a = qp as i64 + DEFAULT_INTRA_TC_OFFSET as i64;
    let index_tc = if a < 0 { 0 } else if a > 65 { 65 } else { a as usize };
    let index_b = if qp < 0 { 0 } else if qp > 63 { 63 } else { qp as usize };
    let bd = bit_depth as u32;
    proof {
        vstd::arithmetic::power2::lemma2_to64();
        assert(TC_TABLE[index_tc as int] <= 395);
        assert(BETA_TABLE[index_b as int] <= 88);
        vstd::arithmetic::power2::lemma_pow2_strictly_increases((bd - 8) as nat, 9);
        if bd >= 10 {
            vstd::arithmetic::power2::lemma_pow2_strictly_increases((bd - 10) as nat, 7);
        }
    }
    let t = TC_TABLE[index_tc] as i32;
    let tc = if bd < 10 {
        proof {
            vstd::bits::lemma_u32_shl_is_mul(1, (9 - bd) as u32);
            vstd::bits::lemma_u32_shr_is_div((t as u32 + (1u32 << (9 - bd))) as u32, (10 - bd) as u32);
        }
        ((t as u32 + (1u32 << (9 - bd))) >> (10 - bd)) as i32
    } else {
        proof {
            vstd::bits::lemma_u32_shl_is_mul(1, (bd - 10) as u32);
            assert(t * vstd::arithmetic::power2::pow2((bd - 10) as nat) <= 395 * 64) by (nonlinear_arith)
                requires
                    0 <= t <= 395,
                    vstd::arithmetic::power2::pow2((bd - 10) as nat) <= 64,
            ;
        }
        t * (1u32 << (bd - 10)) as i32
    };
    let bv = BETA_TABLE[index_b] as i32;
    proof {
        vstd::bits::lemma_u32_shl_is_mul(1, (bd - 8) as u32);
        assert(bv * vstd::arithmetic::power2::pow2((bd - 8) as nat) <= 88 * 256) by (nonlinear_arith)
            requires
                0 <= bv <= 88,
                vstd::arithmetic::power2::pow2((bd - 8) as nat) <= 256,
        ;
        assert(bv * vstd::arithmetic::power2::pow2((bd - 8) as nat) >= 0) by (nonlinear_arith)
            requires
                0 <= bv <= 88,
                vstd::arithmetic::power2::pow2((bd - 8) as nat) <= 256,
                vstd::arithmetic::power2::pow2((bd - 8) as nat) >= 0,
        ;
    }
    let beta = bv * (1u32 << (bd - 8)) as i32;
    (tc, beta)
}

/// Longest filter per side of a luma edge: 1 when either side is at most 4
/// wide, otherwise 7 for a side of 32 or more and 3 below.
pub open spec fn luma_max_len_spec(size_p: int, size_q: int) -> (int, int) {
    if size_p <= 4 || size_q <= 4 {
        (1, 1)
    } else {
        (if size_p >= 32 {
            7
        } else {
            3
        }, if size_q >= 32 {
            7
        } else {
            3
        })
    }
}

/// Longest luma filter per side of an edge (see [`luma_max_len_spec`]).
pub fn luma_max_len(size_p: i32, size_q: i32) -> (r: (u8, u8))
    ensures
        (r.0 as int, r.1 as int) == luma_max_len_spec(size_p as int, size_q as int),
{
    if size_p <= 4 || size_q <= 4 {
        (1, 1)
    } else {
        (if size_p >= 32 { 7 } else { 3 }, if size_q >= 32 { 7 } else { 3 })
    }
}

/// Chroma edges take the strong filter only when both sides are at least 8.
pub fn chroma_max_large(size_p: i32, size_q: i32) -> (r: bool)
    ensures
        r == (size_p >= 8 && size_q >= 8),
{
    size_p >= 8 && size_q >= 8
}

/// The deblocking thresholds grow with the QP: `tc′` and `β′` never
/// decrease along their tables, and both are 0 at the lowest QPs.
pub proof fn lemma_threshold_tables_grow()
    ensures
        forall|i: int| 0 <= i < 65 ==> #[trigger] TC_TABLE[i] <= TC_TABLE[i + 1],
        forall|i: int| 0 <= i < 63 ==> #[trigger] BETA_TABLE[i] <= BETA_TABLE[i + 1],
        TC_TABLE[0] == 0 && BETA_TABLE[0] == 0,
{
    assert forall|i: int| 0 <= i < 65 implies #[trigger] TC_TABLE[i] <= TC_TABLE[i + 1] by {
        if i == 0 {} else if i == 1 {} else if i == 2 {} else if i == 3 {} else if i == 4 {} else if i == 5 {}
        else if i == 6 {} else if i == 7 {} else if i == 8 {} else if i == 9 {} else if i == 10 {} else if i == 11 {}
        else if i == 12 {} else if i == 13 {} else if i == 14 {} else if i == 15 {} else if i == 16 {} else if i == 17 {}
        else if i == 18 {} else if i == 19 {} else if i == 20 {} else if i == 21 {} else if i == 22 {} else if i == 23 {}
        else if i == 24 {} else if i == 25 {} else if i == 26 {} else if i == 27 {} else if i == 28 {} else if i == 29 {}
        else if i == 30 {} else if i == 31 {} else if i == 32 {} else if i == 33 {} else if i == 34 {} else if i == 35 {}
        else if i == 36 {} else if i == 37 {} else if i == 38 {} else if i == 39 {} else if i == 40 {} else if i == 41 {}
        else if i == 42 {} else if i == 43 {} else if i == 44 {} else if i == 45 {} else if i == 46 {} else if i == 47 {}
        else if i == 48 {} else if i == 49 {} else if i == 50 {} else if i == 51 {} else if i == 52 {} else if i == 53 {}
        else if i == 54 {} else if i == 55 {} else if i == 56 {} else if i == 57 {} else if i == 58 {} else if i == 59 {}
        else if i == 60 {} else if i == 61 {} else if i == 62 {} else if i == 63 {} else if i == 64 {}
    }
    assert forall|i: int| 0 <= i < 63 implies #[trigger] BETA_TABLE[i] <= BETA_TABLE[i + 1] by {
        if i == 0 {} else if i == 1 {} else if i == 2 {} else if i == 3 {} else if i == 4 {} else if i == 5 {}
        else if i == 6 {} else if i == 7 {} else if i == 8 {} else if i == 9 {} else if i == 10 {} else if i == 11 {}
        else if i == 12 {} else if i == 13 {} else if i == 14 {} else if i == 15 {} else if i == 16 {} else if i == 17 {}
        else if i == 18 {} else if i == 19 {} else if i == 20 {} else if i == 21 {} else if i == 22 {} else if i == 23 {}
        else if i == 24 {} else if i == 25 {} else if i == 26 {} else if i == 27 {} else if i == 28 {} else if i == 29 {}
        else if i == 30 {} else if i == 31 {} else if i == 32 {} else if i == 33 {} else if i == 34 {} else if i == 35 {}
        else if i == 36 {} else if i == 37 {} else if i == 38 {} else if i == 39 {} else if i == 40 {} else if i == 41 {}
        else if i == 42 {} else if i == 43 {} else if i == 44 {} else if i == 45 {} else if i == 46 {} else if i == 47 {}
        else if i == 48 {} else if i == 49 {} else if i == 50 {} else if i == 51 {} else if i == 52 {} else if i == 53 {}
        else if i == 54 {} else if i == 55 {} else if i == 56 {} else if i == 57 {} else if i == 58 {} else if i == 59 {}
        else if i == 60 {} else if i == 61 {} else if i == 62 {}
    }
}

} // verus!
