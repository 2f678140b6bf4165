//! The low-frequency non-separable transform (LFNST): the intra mode remap,
//! the transposition rule, the gather of the low-frequency L-shape, the
//! kernel products with their rounding and clamping, and the scatter into
//! the LFNST scan. The kernel matrices and the mode → set table are
//! supplied by the caller in an [`LfnstKernels`].
use vstd::prelude::*;
use crate::arith::{asr64, clamp_i64, floor_shr, spec_clamp};
use crate::residual::scan::{diag_scan, diag_seq, lemma_diag_seq};

verus! {

/// Number of regular luma intra modes.
pub const NUM_LUMA_MODE: i32 = 67;

/// Number of extended (wide-angle) luma modes.
pub const NUM_EXT_LUMA_MODE: i32 = 28;

/// The diagonal intra mode.
pub const DIA_IDX: i32 = 34;

/// Entries of the mode → transform-set table.
pub const LFNST_LUT_LEN: usize = 95;

/// Entries of the 4 × 4 kernels: 4 sets × 2 kernels × 16 rows × 16 columns.
pub const LFNST_4X4_LEN: usize = 2048;

/// Entries of the 8 × 8 kernels: 4 sets × 2 kernels × 16 rows × 48 columns.
pub const LFNST_8X8_LEN: usize = 6144;

/// The LFNST tables: the transform set of each remapped intra mode, and the
/// kernels, row-major, kernel `(set, idx)` starting at row `(set·2 + idx)·16`.
pub struct LfnstKernels {
    pub lut: Vec<u8>,
    pub k4: Vec<i8>,
    pub k8: Vec<i8>,
}

impl LfnstKernels {
    /// Table sizes, and every set index below 4.
    pub open spec fn wf(&self) -> bool {
        &&& self.lut.len() == LFNST_LUT_LEN
        &&& forall|i: int| 0 <= i < LFNST_LUT_LEN ==> #[trigger] self.lut@[i] < 4
        &&& self.k4.len() == LFNST_4X4_LEN
        &&& self.k8.len() == LFNST_8X8_LEN
    }
}

/// The LUT index of a (possibly wide-angle) intra mode: modes below 0 and
/// from 67 on fold into the extended range after the regular modes.
pub open spec fn spec_lfnst_intra_mode(wide_ang: int) -> int {
    if wide_ang < 0 {
        wide_ang + NUM_EXT_LUMA_MODE / 2 + NUM_LUMA_MODE
    } else if wide_ang >= NUM_LUMA_MODE {
        wide_ang + NUM_EXT_LUMA_MODE / 2
    } else {
        wide_ang
    }
}

/// Remap an intra mode into the index space of the mode → set table.
pub fn lfnst_intra_mode(wide_ang: i32) -> (r: usize)
    requires
        wide_ang <= i32::MAX - NUM_EXT_LUMA_MODE / 2,
    ensures
        r == spec_lfnst_intra_mode(wide_ang as int) as usize,
{
    if wide_ang < 0 {
        (wide_ang + (NUM_EXT_LUMA_MODE / 2) + NUM_LUMA_MODE) as usize
    } else if wide_ang >= NUM_LUMA_MODE {
        (wide_ang + (NUM_EXT_LUMA_MODE / 2)) as usize
    } else {
        wide_ang as usize
    }
}

/// Whether the L-shape is transposed: extended modes past the regular
/// range and regular modes beyond the diagonal.
pub open spec fn spec_lfnst_transpose(m: int) -> bool {
    (m >= NUM_LUMA_MODE + NUM_EXT_LUMA_MODE / 2) || (m < NUM_LUMA_MODE && m > DIA_IDX)
}

/// Whether the coefficient L-shape is transposed before LFNST.
pub fn lfnst_transpose(intra_mode_lut_idx: usize) -> (r: bool)
    ensures
        r == spec_lfnst_transpose((intra_mode_lut_idx as i32) as int),
{
    let m = intra_mode_lut_idx as i32;
    (m >= NUM_LUMA_MODE + (NUM_EXT_LUMA_MODE / 2)) || (m < NUM_LUMA_MODE && m > DIA_IDX)
}

/// The LFNST transform set of a remapped intra mode.
pub fn lfnst_set(kern: &LfnstKernels, intra_mode_lut_idx: usize) -> (r: usize)
    requires
        kern.wf(),
        intra_mode_lut_idx < LFNST_LUT_LEN,
    ensures
        r == kern.lut@[intra_mode_lut_idx as int],
        r < 4,
{
    kern.lut[intra_mode_lut_idx] as usize
}

/// `Σ_{i<n} src[i]·k[base + i·step]`.
pub open spec fn lin_sum(src: Seq<i32>, k: Seq<i8>, base: int, step: int, n: int) -> int
    decreases n,
{
    if n <= 0 {
        0
    } else {
        lin_sum(src, k, base, step, n - 1) + src[n - 1] * k[base + (n - 1) * step]
    }
}

/// The kernel table and its column count for sub-block size `size`.
pub open spec fn kernel_of(kern: LfnstKernels, size: int) -> (Seq<i8>, int) {
    if size > 4 {
        (kern.k8@, 48)
    } else {
        (kern.k4@, 16)
    }
}

/// Forward LFNST output `j`: row `j` of the kernel against the input,
/// rounded by 7 bits (truncated to 32 bits), for the first `zero_out`
/// outputs; 0 after them.
pub open spec fn fwd_out(src: Seq<i32>, kern: LfnstKernels, set: int, idx: int, size: int, zero_out: int, j: int) -> i32 {
    let (mat, cols) = kernel_of(kern, size);
    if j < zero_out {
        floor_shr(lin_sum(src, mat, ((set * 2 + idx) * 16 + j) * cols, 1, cols) + 64, 7) as i32
    } else {
        0
    }
}

/// Inverse LFNST output `j`: column `j` of the kernel against the first
/// `zero_out` inputs, rounded by 7 bits and clamped to
/// `[−2^max_log2, 2^max_log2 − 1]` (truncated to 32 bits), for the `16` (or
/// `48` for 8 × 8) outputs; 0 after them.
pub open spec fn inv_out(
    src: Seq<i32>,
    kern: LfnstKernels,
    set: int,
    idx: int,
    size: int,
    zero_out: int,
    max_log2: int,
    j: int,
) -> i32 {
    let (mat, cols) = kernel_of(kern, size);
    let lim = vstd::arithmetic::power2::pow2(max_log2 as nat) as int;
    if j < cols {
        spec_clamp(floor_shr(lin_sum(src, mat, (set * 2 + idx) * 16 * cols + j, cols, zero_out) + 64, 7), -lim, lim - 1) as i32
    } else {
        0
    }
}

/// Every input magnitude is at most `2^31`, so a 48-term product sum fits
/// in 64 bits.
proof fn lemma_lin_sum_bound(src: Seq<i32>, k: Seq<i8>, base: int, step: int, n: int)
    requires
        0 <= n,
    ensures
        -n * 0x40_0000_0000 <= lin_sum(src, k, base, step, n) <= n * 0x40_0000_0000,
    decreases n,
{
    if n > 0 {
        lemma_lin_sum_bound(src, k, base, step, n - 1);
        let a = src[n - 1];
        let b = k[base + (n - 1) * step];
        assert(-0x40_0000_0000 <= a * b <= 0x40_0000_0000) by (nonlinear_arith)
            requires
                -0x8000_0000 <= a <= 0x7fff_ffff,
                -128 <= b <= 127,
        ;
    }
}

/// `Σ_{i<n} src[i]·k[base + i·step]` in 64-bit arithmetic.
fn lin_sum_exec(src: &[i32], k: &Vec<i8>, base: usize, step: usize, n: usize) -> (r: i64)
    requires
        n <= 48,
        n <= src.len(),
        n > 0 ==> base + (n - 1) * step < k.len(),
    ensures
        r == lin_sum(src@, k@, base as int, step as int, n as int),
{
    let mut acc: i64 = 0;
    let mut i: usize = 0;
    while i < n
        invariant
            i <= n,
            n <= 48,
            n <= src.len(),
            n > 0 ==> base + (n - 1) * step < k.len(),
            acc == lin_sum(src@, k@, base as int, step as int, i as int),
        decreases n - i,
    {
        proof {
            lemma_lin_sum_bound(src@, k@, base as int, step as int, i as int);
            assert(base + i * step <= base + (n - 1) * step) by (nonlinear_arith)
                requires
                    i <= n - 1,
            ;
            let a = src@[i as int];
            let b = k@[base + i * step];
            assert(-0x40_0000_0000 <= a * b <= 0x40_0000_0000) by (nonlinear_arith)
                requires
                    -0x8000_0000 <= a <= 0x7fff_ffff,
                    -128 <= b <= 127,
            ;
        }
        acc = acc + (src[i] as i64) * (k[base + i * step] as i64);
        i += 1;
    }
    acc
}

/// Forward LFNST of a 16- (4 × 4) or 48-entry (8 × 8) L-shape: the first
/// `zero_out` outputs, the rest 0.
pub fn fwd_lfnst_nxn(src: &[i32], kern: &LfnstKernels, set: usize, idx: usize, size: usize, zero_out: usize) -> (r: Vec<i32>)
    requires
        kern.wf(),
        set < 4,
        idx < 2,
        zero_out <= 16,
        src.len() >= (if size > 4 { 48int } else { 16 }),
    ensures
        r.len() == 48,
        forall|j: int| 0 <= j < 48 ==> r@[j] == fwd_out(src@, *kern, set as int, idx as int, size as int, zero_out as int, j),
{
    let cols: usize = if size > 4 { 48 } else { 16 };
    let mut out: Vec<i32> = vec![0i32; 48];
    let mut j: usize = 0;
    while j < zero_out
        invariant
            kern.wf(),
            set < 4,
            idx < 2,
            zero_out <= 16,
            cols == (if size > 4 { 48usize } else { 16 }),
            src.len() >= cols,
            j <= zero_out,
            out.len() == 48,
            forall|t: int| 0 <= t < j ==> out@[t] == fwd_out(src@, *kern, set as int, idx as int, size as int, zero_out as int, t),
            forall|t: int| j <= t < 48 ==> out@[t] == 0,
        decreases zero_out - j,
    {
        let base = ((set * 2 + idx) * 16 + j) * cols;
        proof {
            assert(base + (cols - 1) < cols * 128) by (nonlinear_arith)
                requires
                    base == ((set * 2 + idx) * 16 + j) * cols,
                    set < 4,
                    idx < 2,
                    j < 16,
                    cols > 0,
            ;
        }
        let coef = if size > 4 {
            lin_sum_exec(src, &kern.k8, base, 1, 48)
        } else {
            lin_sum_exec(src, &kern.k4, base, 1, 16)
        };
        proof {
            lemma_lin_sum_bound(src@, kernel_of(*kern, size as int).0, base as int, 1, cols as int);
        }
        let v = asr64(coef + 64, 7) as i32;
        out.set(j, v);
        j += 1;
    }
    out
}

/// Inverse LFNST: `zero_out` secondary coefficients back to the 16 (4 × 4)
/// or 48 (8 × 8) primary coefficients of the L-shape, clamped to the
/// transform dynamic range `±2^max_log2`; entries past them are 0.
pub fn inv_lfnst_nxn(
    src: &[i32],
    kern: &LfnstKernels,
    set: usize,
    idx: usize,
    size: usize,
    zero_out: usize,
    max_log2: i32,
) -> (r: Vec<i32>)
    requires
        kern.wf(),
        set < 4,
        idx < 2,
        zero_out <= 16,
        src.len() >= zero_out,
        0 <= max_log2 <= 62,
    ensures
        r.len() == 48,
        forall|j: int|
            0 <= j < 48 ==> r@[j] == inv_out(src@, *kern, set as int, idx as int, size as int, zero_out as int, max_log2 as int, j),
{
    let sh: u64 = max_log2 as u64;
    proof {
        vstd::arithmetic::power2::lemma_pow2_pos(sh as nat);
        vstd::arithmetic::power2::lemma2_to64();
        vstd::arithmetic::power2::lemma_pow2_strictly_increases(sh as nat, 63);
        vstd::arithmetic::power2::lemma2_to64_rest();
        vstd::bits::lemma_u64_shl_is_mul(1, sh);
    }
    let lim: i64 = (1u64 << sh) as i64;
    let lo = -lim;
    let hi = lim - 1;
    let cols: usize = if size > 4 { 48 } else { 16 };
    let mut out: Vec<i32> = vec![0i32; 48];
    let mut j: usize = 0;
    while j < cols
        invariant
            kern.wf(),
            set < 4,
            idx < 2,
            zero_out <= 16,
            src.len() >= zero_out,
            0 <= max_log2 <= 62,
            lim == vstd::arithmetic::power2::pow2(max_log2 as nat),
            1 <= lim,
            lo == -lim,
            hi == lim - 1,
            cols == (if size > 4 { 48usize } else { 16 }),
            j <= cols,
            out.len() == 48,
            forall|t: int|
                0 <= t < j ==> out@[t] == inv_out(src@, *kern, set as int, idx as int, size as int, zero_out as int, max_log2 as int, t),
            forall|t: int| j <= t < 48 ==> out@[t] == 0,
        decreases cols - j,
    {
        let base = (set * 2 + idx) * 16 * cols + j;
        proof {
            if zero_out > 0 {
                assert(base + (zero_out - 1) * cols < cols * 128) by (nonlinear_arith)
                    requires
                        base == (set * 2 + idx) * 16 * cols + j,
                        set < 4,
                        idx < 2,
                        j < cols,
                        zero_out <= 16,
                        cols > 0,
                ;
            }
        }
        let resi = if size > 4 {
            lin_sum_exec(src, &kern.k8, base, cols, zero_out)
        } else {
            lin_sum_exec(src, &kern.k4, base, cols, zero_out)
        };
        proof {
            lemma_lin_sum_bound(src@, kernel_of(*kern, size as int).0, base as int, cols as int, zero_out as int);
        }
        let v = clamp_i64(asr64(resi + 64, 7), lo, hi) as i32;
        out.set(j, v);
        j += 1;
    }
    proof {
        assert forall|t: int| 0 <= t < 48 implies out@[t] == inv_out(
            src@,
            *kern,
            set as int,
            idx as int,
            size as int,
            zero_out as int,
            max_log2 as int,
            t,
        ) by {
            if t >= cols {
                assert(out@[t] == 0);
            }
        }
    }
    out
}

/// LFNST sub-block size of a `w × h` block: 8 when both sides are at least
/// 8, else 4.
pub open spec fn lfnst_sb(w: int, h: int) -> int {
    if w >= 8 && h >= 8 {
        8
    } else {
        4
    }
}

/// Number of LFNST outputs kept: 8 for 4 × 4 and 8 × 8 blocks, else 16.
pub open spec fn lfnst_zero_out(w: int, h: int) -> int {
    if (w == 4 && h == 4) || (w == 8 && h == 8) {
        8
    } else {
        16
    }
}

/// Entries of the L-shape: 16 for 4 × 4, 48 for 8 × 8.
pub open spec fn lfnst_num(sb: int) -> int {
    if sb == 4 {
        16
    } else {
        48
    }
}

/// Position `(x, y)` of entry `k` of the L-shape: the first four rows
/// across `sb` columns, then (for 8 × 8) rows 4..8 across four columns;
/// transposed, columns take the place of rows.
pub open spec fn lshape_pos(transpose: bool, sb: int, k: int) -> (int, int) {
    if k < 4 * sb {
        if transpose {
            (k / sb, k % sb)
        } else {
            (k % sb, k / sb)
        }
    } else {
        let j = k - 32;
        if transpose {
            (4 + j / 4, j % 4)
        } else {
            (j % 4, 4 + j / 4)
        }
    }
}

/// Position of entry `k` of the LFNST scan: the 4 × 4 diagonal scan of the
/// top-left group, then (for 8 × 8) of the group below it, then of the
/// group to its right.
pub open spec fn lfnst_scan_pos(k: int) -> (int, int) {
    if k < 16 {
        (diag_seq(4, 4)[k].0 as int, diag_seq(4, 4)[k].1 as int)
    } else if k < 32 {
        (diag_seq(4, 4)[k - 16].0 as int, diag_seq(4, 4)[k - 16].1 + 4)
    } else {
        (diag_seq(4, 4)[k - 32].0 + 4, diag_seq(4, 4)[k - 32].1 as int)
    }
}

/// Raster index of `p` in a block of width `w`.
pub open spec fn raster(p: (int, int), w: int) -> int {
    p.1 * w + p.0
}

/// `c` with `vals[k]` written at `pos(k)` for `k < n`, in order.
pub open spec fn scatter(c: Seq<i32>, w: int, pos: spec_fn(int) -> (int, int), vals: Seq<i32>, n: int) -> Seq<i32>
    decreases n,
{
    if n <= 0 {
        c
    } else {
        scatter(c, w, pos, vals, n - 1).update(raster(pos(n - 1), w), vals[n - 1])
    }
}

/// `c` with its first `n` entries zeroed.
pub open spec fn zero_prefix(c: Seq<i32>, n: int) -> Seq<i32> {
    Seq::new(c.len(), |i: int| if i < n { 0i32 } else { c[i] })
}

/// The L-shape of a block as the forward LFNST reads it (48 entries, 0
/// past the L-shape).
pub open spec fn gathered(c: Seq<i32>, w: int, transpose: bool, sb: int) -> Seq<i32> {
    Seq::new(48, |k: int| if k < lfnst_num(sb) { c[raster(lshape_pos(transpose, sb, k), w)] } else { 0i32 })
}

/// Position of entry `k` of the L-shape.
fn lshape_pos_exec(transpose: bool, sb: usize, k: usize) -> (r: (usize, usize))
    requires
        sb == 4 || sb == 8,
        k < lfnst_num(sb as int),
    ensures
        (r.0 as int, r.1 as int) == lshape_pos(transpose, sb as int, k as int),
        r.0 < sb,
        r.1 < sb,
{
    if sb == 4 {
        if transpose {
            (k / 4, k % 4)
        } else {
            (k % 4, k / 4)
        }
    } else if k < 32 {
        if transpose {
            (k / 8, k % 8)
        } else {
            (k % 8, k / 8)
        }
    } else {
        let j = k - 32;
        if transpose {
            (4 + j / 4, j % 4)
        } else {
            (j % 4, 4 + j / 4)
        }
    }
}

/// The LFNST scan as block coordinates: 48 entries for sub-block size 8,
/// else 16.
pub fn lfnst_scan_coords(sb: usize, w: usize, h: usize) -> (r: Vec<(usize, usize)>)
    ensures
        r.len() == (if sb > 4 { 48int } else { 16 }),
        forall|k: int| 0 <= k < r.len() ==> (#[trigger] r@[k].0 as int, r@[k].1 as int) == lfnst_scan_pos(k),
        forall|k: int| 0 <= k < r.len() ==> (#[trigger] r@[k]).0 < 8 && r@[k].1 < 8,
        sb <= 4 ==> forall|k: int| 0 <= k < r.len() ==> (#[trigger] r@[k]).0 < 4 && r@[k].1 < 4,
{
    let d = diag_scan(4, 4);
    proof {
        lemma_diag_seq(4, 4);
    }
    let groups: usize = if sb > 4 { 3 } else { 1 };
    let mut r: Vec<(usize, usize)> = Vec::new();
    let mut g: usize = 0;
    while g < groups
        invariant
            d@ == diag_seq(4, 4),
            d.len() == 16,
            forall|t: int| 0 <= t < 16 ==> (#[trigger] d@[t]).0 < 4 && d@[t].1 < 4,
            groups == (if sb > 4 { 3usize } else { 1 }),
            g <= groups,
            r.len() == 16 * g,
            forall|k: int| 0 <= k < r.len() ==> (#[trigger] r@[k].0 as int, r@[k].1 as int) == lfnst_scan_pos(k),
            forall|k: int| 0 <= k < r.len() ==> (#[trigger] r@[k]).0 < 8 && r@[k].1 < 8,
            sb <= 4 ==> forall|k: int| 0 <= k < r.len() ==> (#[trigger] r@[k]).0 < 4 && r@[k].1 < 4,
        decreases groups - g,
    {
        let (ox, oy): (usize, usize) = if g == 0 {
            (0, 0)
        } else if g == 1 {
            (0, 4)
        } else {
            (4, 0)
        };
        let mut i: usize = 0;
        while i < 16
            invariant
                d@ == diag_seq(4, 4),
                d.len() == 16,
                forall|t: int| 0 <= t < 16 ==> (#[trigger] d@[t]).0 < 4 && d@[t].1 < 4,
                groups == (if sb > 4 { 3usize } else { 1 }),
                g < groups,
                (ox, oy) == (if g == 0 { (0usize, 0usize) } else if g == 1 { (0usize, 4usize) } else { (4usize, 0usize) }),
                i <= 16,
                r.len() == 16 * g + i,
                forall|k: int| 0 <= k < r.len() ==> (#[trigger] r@[k].0 as int, r@[k].1 as int) == lfnst_scan_pos(k),
                forall|k: int| 0 <= k < r.len() ==> (#[trigger] r@[k]).0 < 8 && r@[k].1 < 8,
                sb <= 4 ==> forall|k: int| 0 <= k < r.len() ==> (#[trigger] r@[k]).0 < 4 && r@[k].1 < 4,
            decreases 16 - i,
        {
            let (sx, sy) = d[i];
            r.push((ox + sx, oy + sy));
            i += 1;
        }
        g += 1;
    }
    r
}

/// What the LFNST of a `w × h` block needs: at least 4 × 4 samples held in
/// `len` entries, a remapped mode inside the table, a kernel index of 1 or 2.
pub open spec fn lfnst_args_ok(len: int, w: int, h: int, mode: int, lfnst_idx: int) -> bool {
    &&& 4 <= w
    &&& 4 <= h
    &&& w * h <= len
    &&& 0 <= mode < LFNST_LUT_LEN
    &&& 1 <= lfnst_idx <= 2
}

/// The forward LFNST outputs of a block (see [`apply_fwd_lfnst`]).
pub open spec fn fwd_block_out(c: Seq<i32>, kern: LfnstKernels, w: int, h: int, mode: int, lfnst_idx: int) -> Seq<i32> {
    let sb = lfnst_sb(w, h);
    let t = spec_lfnst_transpose((mode as i32) as int);
    Seq::new(
        48,
        |j: int| fwd_out(gathered(c, w, t, sb), kern, kern.lut@[mode] as int, lfnst_idx - 1, sb, lfnst_zero_out(w, h), j),
    )
}

/// The 16 lowest-frequency LFNST scan entries of a block.
pub open spec fn scan_read(c: Seq<i32>, w: int) -> Seq<i32> {
    Seq::new(16, |k: int| c[raster(lfnst_scan_pos(k), w)])
}

/// The inverse LFNST outputs of a block (see [`apply_inv_lfnst`]).
pub open spec fn inv_block_out(c: Seq<i32>, kern: LfnstKernels, w: int, h: int, mode: int, lfnst_idx: int, max_log2: int) -> Seq<i32> {
    let sb = lfnst_sb(w, h);
    Seq::new(
        48,
        |j: int|
            inv_out(scan_read(c, w), kern, kern.lut@[mode] as int, lfnst_idx - 1, sb, lfnst_zero_out(w, h), max_log2, j),
    )
}

/// Apply the forward LFNST in place to a primary-transform block (raster,
/// stride `w`): gather the L-shape (transposed beyond the diagonal), apply
/// kernel `lfnst_idx` (1 or 2) of the mode's set, zero the block, and write
/// the outputs at the LFNST scan positions; only they can be non-zero.
pub fn apply_fwd_lfnst(coeff: &mut Vec<i32>, kern: &LfnstKernels, w: usize, h: usize, mode: usize, lfnst_idx: usize)
    requires
        kern.wf(),
        lfnst_args_ok(old(coeff).len() as int, w as int, h as int, mode as int, lfnst_idx as int),
    ensures
        final(coeff)@ == scatter(
            zero_prefix(old(coeff)@, w * h),
            w as int,
            |k: int| lfnst_scan_pos(k),
            fwd_block_out(old(coeff)@, *kern, w as int, h as int, mode as int, lfnst_idx as int),
            lfnst_num(lfnst_sb(w as int, h as int)),
        ),
{
    let sb: usize = if w >= 8 && h >= 8 { 8 } else { 4 };
    let set = lfnst_set(kern, mode);
    let transpose = lfnst_transpose(mode);
    let zero_out: usize = if (w == 4 && h == 4) || (w == 8 && h == 8) { 8 } else { 16 };
    let coeff_num: usize = if sb == 4 { 16 } else { 48 };
    let ghost c0 = coeff@;
    let len0 = coeff.len();
    let mut inv: Vec<i32> = vec![0i32; 48];
    let mut k: usize = 0;
    while k < coeff_num
        invariant
            coeff@ == c0,
            len0 == c0.len(),
            lfnst_args_ok(c0.len() as int, w as int, h as int, mode as int, lfnst_idx as int),
            sb == lfnst_sb(w as int, h as int),
            coeff_num == lfnst_num(sb as int),
            transpose == spec_lfnst_transpose((mode as i32) as int),
            k <= coeff_num,
            inv.len() == 48,
            forall|t: int| 0 <= t < k ==> inv@[t] == gathered(c0, w as int, transpose, sb as int)[t],
            forall|t: int| k <= t < 48 ==> inv@[t] == 0,
        decreases coeff_num - k,
    {
        let (x, y) = lshape_pos_exec(transpose, sb, k);
        proof {
            crate::residual::ctx::lemma_cell_bound(x as int, y as int, w as int, h as int);
        }
        inv.set(k, coeff[y * w + x]);
        k += 1;
    }
    assert(inv@ =~= gathered(c0, w as int, transpose, sb as int));
    let out = fwd_lfnst_nxn(inv.as_slice(), kern, set, lfnst_idx - 1, sb, zero_out);
    assert(out@ =~= fwd_block_out(c0, *kern, w as int, h as int, mode as int, lfnst_idx as int));
    let n = w * h;
    let mut i: usize = 0;
    while i < n
        invariant
            n == w * h,
            n <= c0.len(),
            coeff.len() == c0.len(),
            i <= n,
            forall|t: int| 0 <= t < c0.len() ==> coeff@[t] == (if t < i { 0i32 } else { c0[t] }),
        decreases n - i,
    {
        coeff.set(i, 0);
        i += 1;
    }
    assert(coeff@ =~= zero_prefix(c0, w * h));
    let scan = lfnst_scan_coords(sb, w, h);
    let mut k: usize = 0;
    while k < coeff_num
        invariant
            len0 == c0.len(),
            coeff.len() == c0.len(),
            lfnst_args_ok(c0.len() as int, w as int, h as int, mode as int, lfnst_idx as int),
            sb == lfnst_sb(w as int, h as int),
            coeff_num == lfnst_num(sb as int),
            scan.len() == coeff_num,
            forall|t: int| 0 <= t < scan.len() ==> (#[trigger] scan@[t].0 as int, scan@[t].1 as int) == lfnst_scan_pos(t),
            forall|t: int| 0 <= t < scan.len() ==> (#[trigger] scan@[t]).0 < 8 && scan@[t].1 < 8,
            sb <= 4 ==> forall|t: int| 0 <= t < scan.len() ==> (#[trigger] scan@[t]).0 < 4 && scan@[t].1 < 4,
            out.len() == 48,
            k <= coeff_num,
            coeff@ == scatter(zero_prefix(c0, w * h), w as int, |t: int| lfnst_scan_pos(t), out@, k as int),
        decreases coeff_num - k,
    {
        let (x, y) = scan[k];
        proof {
            crate::residual::ctx::lemma_cell_bound(x as int, y as int, w as int, h as int);
        }
        coeff.set(y * w + x, out[k]);
        k += 1;
    }
}

/// Apply the inverse LFNST in place to a dequantized block, the mirror of
/// [`apply_fwd_lfnst`]: read the 16 lowest-frequency scan entries, apply
/// the inverse kernel with the dynamic range `max_log2`, and write the
/// primary coefficients back into the (transposed) L-shape; the rest of the
/// block is kept.
pub fn apply_inv_lfnst(
    coeff: &mut Vec<i32>,
    kern: &LfnstKernels,
    w: usize,
    h: usize,
    mode: usize,
    lfnst_idx: usize,
    max_log2: i32,
)
    requires
        kern.wf(),
        lfnst_args_ok(old(coeff).len() as int, w as int, h as int, mode as int, lfnst_idx as int),
        0 <= max_log2 <= 62,
    ensures
        final(coeff)@ == scatter(
            old(coeff)@,
            w as int,
            |k: int| lshape_pos(spec_lfnst_transpose((mode as i32) as int), lfnst_sb(w as int, h as int), k),
            inv_block_out(old(coeff)@, *kern, w as int, h as int, mode as int, lfnst_idx as int, max_log2 as int),
            lfnst_num(lfnst_sb(w as int, h as int)),
        ),
{
    let sb: usize = if w >= 8 && h >= 8 { 8 } else { 4 };
    let set = lfnst_set(kern, mode);
    let transpose = lfnst_transpose(mode);
    let zero_out: usize = if (w == 4 && h == 4) || (w == 8 && h == 8) { 8 } else { 16 };
    let coeff_num: usize = if sb == 4 { 16 } else { 48 };
    let ghost c0 = coeff@;
    let len0 = coeff.len();
    let scan = lfnst_scan_coords(sb, w, h);
    proof {
        lemma_diag_seq(4, 4);
    }
    let mut inv: Vec<i32> = Vec::new();
    let mut k: usize = 0;
    while k < 16
        invariant
            coeff@ == c0,
            len0 == c0.len(),
            lfnst_args_ok(c0.len() as int, w as int, h as int, mode as int, lfnst_idx as int),
            scan.len() >= 16,
            forall|t: int| 0 <= t < scan.len() ==> (#[trigger] scan@[t].0 as int, scan@[t].1 as int) == lfnst_scan_pos(t),
            forall|t: int| 0 <= t < 16 ==> (#[trigger] scan@[t]).0 < 4 && scan@[t].1 < 4,
            k <= 16,
            inv.len() == k,
            forall|t: int| 0 <= t < k ==> inv@[t] == scan_read(c0, w as int)[t],
        decreases 16 - k,
    {
        let (x, y) = scan[k];
        proof {
            lemma_diag_seq(4, 4);
            crate::residual::ctx::lemma_cell_bound(x as int, y as int, w as int, h as int);
        }
        inv.push(coeff[y * w + x]);
        k += 1;
    }
    assert(inv@ =~= scan_read(c0, w as int));
    let out = inv_lfnst_nxn(inv.as_slice(), kern, set, lfnst_idx - 1, sb, zero_out, max_log2);
    assert(out@ =~= inv_block_out(c0, *kern, w as int, h as int, mode as int, lfnst_idx as int, max_log2 as int));
    let mut k: usize = 0;
    while k < coeff_num
        invariant
            len0 == c0.len(),
            coeff.len() == c0.len(),
            lfnst_args_ok(c0.len() as int, w as int, h as int, mode as int, lfnst_idx as int),
            sb == lfnst_sb(w as int, h as int),
            coeff_num == lfnst_num(sb as int),
            transpose == spec_lfnst_transpose((mode as i32) as int),
            out.len() == 48,
            k <= coeff_num,
            coeff@ == scatter(c0, w as int, |t: int| lshape_pos(transpose, sb as int, t), out@, k as int),
        decreases coeff_num - k,
    {
        let (x, y) = lshape_pos_exec(transpose, sb, k);
        proof {
            crate::residual::ctx::lemma_cell_bound(x as int, y as int, w as int, h as int);
        }
        coeff.set(y * w + x, out[k]);
        k += 1;
    }
}

/// An entry that `scatter` never writes keeps its value, when every write
/// lands inside `c`.
proof fn lemma_scatter_keeps(c: Seq<i32>, w: int, pos: spec_fn(int) -> (int, int), vals: Seq<i32>, n: int, p: int)
    requires
        0 <= p < c.len(),
        forall|k: int| 0 <= k < n ==> 0 <= #[trigger] raster(pos(k), w) < c.len(),
        forall|k: int| 0 <= k < n ==> #[trigger] raster(pos(k), w) != p,
    ensures
        scatter(c, w, pos, vals, n).len() == c.len(),
        scatter(c, w, pos, vals, n)[p] == c[p],
    decreases n,
{
    if n > 0 {
        lemma_scatter_keeps(c, w, pos, vals, n - 1, p);
        assert(raster(pos(n - 1), w) != p);
        assert(0 <= raster(pos(n - 1), w) < c.len());
    }
}

/// After the forward LFNST only the LFNST scan positions of the block can
/// be non-zero: every other coefficient of the `w × h` block is 0.
pub proof fn lemma_fwd_lfnst_zero_outside(c: Seq<i32>, w: int, h: int, vals: Seq<i32>, p: int)
    requires
        4 <= w,
        4 <= h,
        w * h <= c.len(),
        0 <= p < w * h,
        forall|k: int| 0 <= k < lfnst_num(lfnst_sb(w, h)) ==> #[trigger] raster(lfnst_scan_pos(k), w) != p,
    ensures
        scatter(zero_prefix(c, w * h), w, |k: int| lfnst_scan_pos(k), vals, lfnst_num(lfnst_sb(w, h)))[p] == 0,
{
    lemma_diag_seq(4, 4);
    let pos = |k: int| lfnst_scan_pos(k);
    let n = lfnst_num(lfnst_sb(w, h));
    assert forall|k: int| 0 <= k < n implies 0 <= #[trigger] raster(pos(k), w) < zero_prefix(c, w * h).len() by {
        let q = lfnst_scan_pos(k);
        assert(0 <= q.0 < w && 0 <= q.1 < h);
        crate::residual::ctx::lemma_cell_bound(q.0, q.1, w, h);
    }
    assert forall|k: int| 0 <= k < n implies #[trigger] raster(pos(k), w) != p by {
        assert(raster(lfnst_scan_pos(k), w) != p);
    }
    lemma_scatter_keeps(zero_prefix(c, w * h), w, pos, vals, n, p);
}

/// Distinct entries of the LFNST scan lie at distinct raster positions of a
/// block at least 8 wide.
proof fn lemma_scan_pos_distinct(i: int, j: int, w: int)
    requires
        0 <= i < j < 48,
        8 <= w,
    ensures
        raster(lfnst_scan_pos(i), w) != raster(lfnst_scan_pos(j), w),
{
    lemma_diag_seq(4, 4);
    let p = lfnst_scan_pos(i);
    let q = lfnst_scan_pos(j);
    if i / 16 == j / 16 {
        let a = i - 16 * (i / 16);
        let b = j - 16 * (j / 16);
        assert(0 <= a < b < 16);
        assert(crate::residual::scan::scan_key(diag_seq(4, 4)[a]) < crate::residual::scan::scan_key(diag_seq(4, 4)[b]));
    }
    assert(p != q);
    assert(0 <= p.0 < 8 && 0 <= q.0 < 8 && 0 <= p.1 < 8 && 0 <= q.1 < 8);
    if p.1 == q.1 {
    } else if p.1 < q.1 {
        assert(p.1 * w + p.0 < q.1 * w + q.0) by (nonlinear_arith)
            requires
                p.1 < q.1,
                0 <= p.0 < w,
                0 <= q.0,
        ;
    } else {
        assert(q.1 * w + q.0 < p.1 * w + p.0) by (nonlinear_arith)
            requires
                q.1 < p.1,
                0 <= q.0 < w,
                0 <= p.0,
        ;
    }
}

/// After `scatter`, an entry written exactly once holds its value.
proof fn lemma_scatter_hits(c: Seq<i32>, w: int, pos: spec_fn(int) -> (int, int), vals: Seq<i32>, n: int, k: int)
    requires
        0 <= k < n,
        forall|t: int| 0 <= t < n ==> 0 <= #[trigger] raster(pos(t), w) < c.len(),
        forall|t: int| 0 <= t < n && t != k ==> #[trigger] raster(pos(t), w) != raster(pos(k), w),
    ensures
        scatter(c, w, pos, vals, n)[raster(pos(k), w)] == vals[k],
    decreases n,
{
    let pk = raster(pos(k), w);
    if k == n - 1 {
        assert forall|t: int| 0 <= t < n - 1 implies #[trigger] raster(pos(t), w) != pk by {
            assert(t != k);
        }
        lemma_scatter_keeps(c, w, pos, vals, n - 1, pk);
    } else {
        lemma_scatter_hits(c, w, pos, vals, n - 1, k);
        lemma_scatter_len(c, w, pos, vals, n - 1);
        assert(raster(pos(n - 1), w) != pk);
    }
}

/// `scatter` keeps the length when every write lands inside `c`.
proof fn lemma_scatter_len(c: Seq<i32>, w: int, pos: spec_fn(int) -> (int, int), vals: Seq<i32>, n: int)
    requires
        forall|t: int| 0 <= t < n ==> 0 <= #[trigger] raster(pos(t), w) < c.len(),
    ensures
        scatter(c, w, pos, vals, n).len() == c.len(),
    decreases n,
{
    if n > 0 {
        lemma_scatter_len(c, w, pos, vals, n - 1);
        assert(0 <= raster(pos(n - 1), w) < c.len());
    }
}

/// The forward LFNST leaves output `k` at entry `k` of the LFNST scan.
pub proof fn lemma_fwd_lfnst_outputs(c: Seq<i32>, w: int, h: int, vals: Seq<i32>, k: int)
    requires
        4 <= w,
        4 <= h,
        w * h <= c.len(),
        0 <= k < lfnst_num(lfnst_sb(w, h)),
    ensures
        scatter(zero_prefix(c, w * h), w, |t: int| lfnst_scan_pos(t), vals, lfnst_num(lfnst_sb(w, h)))[raster(
            lfnst_scan_pos(k),
            w,
        )] == vals[k],
{
    lemma_diag_seq(4, 4);
    let pos = |t: int| lfnst_scan_pos(t);
    let n = lfnst_num(lfnst_sb(w, h));
    let z = zero_prefix(c, w * h);
    assert forall|t: int| 0 <= t < n implies 0 <= #[trigger] raster(pos(t), w) < z.len() by {
        let q = lfnst_scan_pos(t);
        crate::residual::ctx::lemma_cell_bound(q.0, q.1, w, h);
    }
    assert forall|t: int| 0 <= t < n && t != k implies #[trigger] raster(pos(t), w) != raster(pos(k), w) by {
        if n == 16 {
            let a = lfnst_scan_pos(t);
            let b = lfnst_scan_pos(k);
            assert(crate::residual::scan::scan_key(diag_seq(4, 4)[t]) != crate::residual::scan::scan_key(
                diag_seq(4, 4)[k],
            ));
            assert(a != b);
            crate::residual::scan::lemma_cell_pos_inj(
                (a.0 as usize, a.1 as usize),
                (b.0 as usize, b.1 as usize),
                w,
            );
        } else if t < k {
            lemma_scan_pos_distinct(t, k, w);
        } else {
            lemma_scan_pos_distinct(k, t, w);
        }
    }
    lemma_scatter_hits(z, w, pos, vals, n, k);
}

} // verus!
