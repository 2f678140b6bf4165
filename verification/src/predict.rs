//! Intra prediction sample generation (H.266 §8.4.5): reference-sample
//! derivation with substitution, the `[1 2 1]/4` reference smoothing, and the
//! planar, DC and angular predictors with position-dependent prediction
//! combination (PDPC).
use vstd::prelude::*;
use vstd::arithmetic::power2::pow2;
use crate::arith::{asr32, clamp_i32, floor_shr, lemma_floor_shr_bounds, spec_clamp};
use crate::intra::{DC_IDX, PLANAR_IDX, VDIA_IDX};

verus! {

/// Vertical angular mode.
pub const VER_MODE: i32 = 50;

/// Horizontal angular mode.
pub const HOR_MODE: i32 = 18;

/// Diagonal mode separating the horizontal from the vertical modes.
pub const DIA_MODE: i32 = 34;

/// Tangent of the prediction angle in 1/32-sample units, indexed by the
/// absolute angular mode offset (`intraPredAngle`).
pub const ANG_TABLE: [i32; 32] = [
    0, 1, 2, 3, 4, 6, 8, 10, 12, 14, 16, 18, 20, 23, 26, 29,
    32, 35, 39, 45, 51, 57, 64, 73, 86, 102, 128, 171, 256, 341, 512, 1024,
];

/// Inverse angle `(512·32) / angle`, indexed by absolute angular mode offset,
/// used to project the side reference onto the main array.
pub const INV_ANG_TABLE: [i32; 32] = [
    0, 16384, 8192, 5461, 4096, 2731, 2048, 1638, 1365, 1170, 1024, 910, 819, 712, 630, 565,
    512, 468, 420, 364, 321, 287, 256, 224, 191, 161, 128, 96, 64, 48, 32, 16,
];

/// 4-tap cubic interpolation filter, indexed by the 1/32 fractional position,
/// then the tap.
pub const CUBIC_FILTER: [[i32; 4]; 32] = [
    [0, 64, 0, 0], [-1, 63, 2, 0], [-2, 62, 4, 0], [-2, 60, 7, -1], [-2, 58, 10, -2],
    [-3, 57, 12, -2], [-4, 56, 14, -2], [-4, 55, 15, -2], [-4, 54, 16, -2], [-5, 53, 18, -2],
    [-6, 52, 20, -2], [-6, 49, 24, -3], [-6, 46, 28, -4], [-5, 44, 29, -4], [-4, 42, 30, -4],
    [-4, 39, 33, -4], [-4, 36, 36, -4], [-4, 33, 39, -4], [-4, 30, 42, -4], [-4, 29, 44, -5],
    [-4, 28, 46, -6], [-3, 24, 49, -6], [-2, 20, 52, -6], [-2, 18, 53, -5], [-2, 16, 54, -4],
    [-2, 15, 55, -4], [-2, 14, 56, -4], [-2, 12, 57, -3], [-2, 10, 58, -2], [-1, 7, 60, -2],
    [0, 4, 62, -2], [0, 2, 63, -1],
];

/// Per-size threshold selecting reference vs interpolation filtering, indexed
/// by `(log2W + log2H) >> 1`.
pub const INTRA_FILTER: [i32; 8] = [24, 24, 24, 14, 2, 0, 0, 0];

/// Wide-angle mode offsets, indexed by the difference of the side logarithms.
pub const MODE_SHIFT: [i32; 6] = [0, 6, 10, 12, 14, 15];

// ---------------------------------------------------------------------------
// Block sizes
// ---------------------------------------------------------------------------
/// Number of trailing zero bits of a positive value.
pub open spec fn spec_tz(x: nat) -> nat
    decreases x,
{
    if x == 0 || x % 2 == 1 {
        0
    } else {
        1 + spec_tz(x / 2)
    }
}

/// Trailing zero bits of a positive size.
pub fn trailing_zeros(x: usize) -> (r: u32)
    requires
        x > 0,
    ensures
        r == spec_tz(x as nat),
        r < 64,
{
    let mut t = x;
    let mut r: u32 = 0;
    proof {
        vstd::arithmetic::power2::lemma2_to64();
        vstd::arithmetic::power2::lemma2_to64_rest();
    }
    while t % 2 == 0
        invariant
            t > 0,
            t <= x,
            r + spec_tz(t as nat) == spec_tz(x as nat),
            t as nat * pow2(r as nat) == x as nat,
            r < 64,
        decreases t,
    {
        proof {
            vstd::arithmetic::power2::lemma_pow2_unfold((r + 1) as nat);
            vstd::arithmetic::power2::lemma2_to64_rest();
            assert((t / 2) as nat * pow2((r + 1) as nat) == x as nat) by (nonlinear_arith)
                requires
                    t % 2 == 0,
                    t as nat * pow2(r as nat) == x as nat,
                    pow2((r + 1) as nat) == 2 * pow2(r as nat),
            ;
            if r + 1 >= 64 {
                if r + 1 > 64 {
                    vstd::arithmetic::power2::lemma_pow2_strictly_increases(64, (r + 1) as nat);
                }
                assert((t / 2) as nat * pow2((r + 1) as nat) >= pow2((r + 1) as nat)) by (nonlinear_arith)
                    requires
                        t / 2 >= 1,
                ;
            }
        }
        t = t / 2;
        r += 1;
    }
    r
}

/// A block side the predictor handles: a power of two up to 64.
pub open spec fn block_dim_ok(n: int) -> bool {
    n == 1 || n == 2 || n == 4 || n == 8 || n == 16 || n == 32 || n == 64
}

/// `log2` of a block side.
pub open spec fn log2_dim(n: int) -> int {
    if n == 1 {
        0
    } else if n == 2 {
        1
    } else if n == 4 {
        2
    } else if n == 8 {
        3
    } else if n == 16 {
        4
    } else if n == 32 {
        5
    } else {
        6
    }
}

/// The trailing-zero count of a block side is its logarithm.
pub proof fn lemma_tz_dim(n: int)
    requires
        block_dim_ok(n),
    ensures
        spec_tz(n as nat) == log2_dim(n),
        pow2(log2_dim(n) as nat) == n,
{
    reveal_with_fuel(spec_tz, 8);
    vstd::arithmetic::power2::lemma2_to64();
}

// ---------------------------------------------------------------------------
// Reference samples
// ---------------------------------------------------------------------------
/// Reference samples for one block: `top[0] == left[0]` is the top-left
/// corner; `top[1..]` runs rightward along the row above, `left[1..]` downward
/// along the column to the left.
pub struct RefSamples {
    pub top: Vec<i32>,
    pub left: Vec<i32>,
}

/// The `i`-th entry of an optional-sample slice (`None` past its end).
pub open spec fn opt_at(s: Seq<Option<i32>>, i: int) -> Option<i32> {
    if 0 <= i < s.len() {
        s[i]
    } else {
        None
    }
}

/// The unified substitution scan: the left column bottom to top, the corner,
/// then the top row left to right.
pub open spec fn ref_scan(
    w: int,
    h: int,
    corner: Option<i32>,
    above: Seq<Option<i32>>,
    left: Seq<Option<i32>>,
) -> Seq<Option<i32>> {
    Seq::new(
        (2 * h + 1 + 2 * w) as nat,
        |k: int|
            if k < 2 * h {
                opt_at(left, 2 * h - 1 - k)
            } else if k == 2 * h {
                corner
            } else {
                opt_at(above, k - 2 * h - 1)
            },
    )
}

/// The last available sample at or before position `i`.
pub open spec fn last_avail(s: Seq<Option<i32>>, i: int) -> Option<i32>
    decreases i + 1,
{
    if i < 0 {
        None
    } else if s[i] is Some {
        s[i]
    } else {
        last_avail(s, i - 1)
    }
}

/// Reference substitution: every unavailable sample takes the last available
/// one before it in scan order; those before the first available sample take
/// the first one; with nothing available every sample is `2^(bd-1)`.
pub open spec fn substituted(s: Seq<Option<i32>>, bd: u8, i: int) -> i32 {
    match last_avail(s, i) {
        Some(v) => v,
        None => match last_avail(s, s.len() - 1) {
            None => pow2((bd - 1) as nat) as i32,
            Some(_) => first_avail(s, 0),
        },
    }
}

/// The first available sample from position `i` on (0 when there is none).
pub open spec fn first_avail(s: Seq<Option<i32>>, i: int) -> i32
    decreases s.len() - i,
{
    if i >= s.len() || i < 0 {
        0
    } else if s[i] is Some {
        s[i]->0
    } else {
        first_avail(s, i + 1)
    }
}

proof fn lemma_first_avail(s: Seq<Option<i32>>, i: int, j: int)
    requires
        0 <= i <= j < s.len(),
        s[j] is Some,
        forall|k: int| i <= k < j ==> s[k] is None,
    ensures
        first_avail(s, i) == s[j]->0,
    decreases j - i,
{
    if i < j {
        lemma_first_avail(s, i + 1, j);
    }
}

proof fn lemma_last_avail_none(s: Seq<Option<i32>>, i: int)
    requires
        i < s.len(),
        forall|k: int| 0 <= k <= i ==> s[k] is None,
    ensures
        last_avail(s, i) is None,
    decreases i + 1,
{
    if i >= 0 {
        lemma_last_avail_none(s, i - 1);
    }
}

proof fn lemma_last_avail_some(s: Seq<Option<i32>>, i: int, j: int)
    requires
        0 <= j <= i < s.len(),
        s[j] is Some,
    ensures
        last_avail(s, i) is Some,
    decreases i - j,
{
    if i > j && s[i] is None {
        lemma_last_avail_some(s, i - 1, j);
    }
}

/// The substituted scan sequence.
fn substitute(seq: &Vec<Option<i32>>, bit_depth: u8) -> (r: Vec<i32>)
    requires
        1 <= bit_depth <= 16,
    ensures
        r.len() == seq.len(),
        forall|i: int| 0 <= i < seq.len() ==> r[i] == substituted(seq@, bit_depth, i),
{
    let n = seq.len();
    let mut first: usize = 0;
    while first < n && seq[first].is_none()
        invariant
            first <= n,
            n == seq.len(),
            forall|k: int| 0 <= k < first ==> seq@[k] is None,
        decreases n - first,
    {
        first += 1;
    }
    let mut out: Vec<i32> = Vec::new();
    if first == n {
        proof {
            vstd::arithmetic::power2::lemma2_to64();
            vstd::arithmetic::power2::lemma_pow2_strictly_increases((bit_depth - 1) as nat, 16);
            vstd::bits::lemma_u32_shl_is_mul(1, (bit_depth - 1) as u32);
            lemma_last_avail_none(seq@, n - 1);
        }
        let mid = (1u32 << ((bit_depth - 1) as u32)) as i32;
        let mut i: usize = 0;
        while i < n
            invariant
                i <= n,
                n == seq.len(),
                out.len() == i,
                mid == pow2((bit_depth - 1) as nat) as i32,
                forall|k: int| 0 <= k < n ==> seq@[k] is None,
                forall|k: int| 0 <= k < i ==> out[k] == substituted(seq@, bit_depth, k),
            decreases n - i,
        {
            proof {
                lemma_last_avail_none(seq@, i as int);
                lemma_last_avail_none(seq@, n - 1);
            }
            out.push(mid);
            i += 1;
        }
        return out;
    }
    let fv = match seq[first] {
        Some(v) => v,
        None => 0,
    };
    proof {
        lemma_first_avail(seq@, 0, first as int);
        lemma_last_avail_some(seq@, n - 1, first as int);
    }
    let mut last = fv;
    let mut i: usize = 0;
    while i < n
        invariant
            first < n,
            n == seq.len(),
            i <= n,
            out.len() == i,
            seq@[first as int] == Some(fv),
            forall|k: int| 0 <= k < first ==> seq@[k] is None,
            first_avail(seq@, 0) == fv,
            last_avail(seq@, n - 1) is Some,
            i > first ==> last_avail(seq@, i - 1) == Some(last),
            forall|k: int| 0 <= k < i ==> out[k] == substituted(seq@, bit_depth, k),
        decreases n - i,
    {
        if i < first {
            proof {
                lemma_last_avail_none(seq@, i as int);
            }
            out.push(fv);
        } else {
            match seq[i] {
                Some(v) => {
                    last = v;
                },
                None => {},
            }
            proof {
                if i == first {
                    assert(last == fv);
                }
            }
            out.push(last);
        }
        i += 1;
    }
    out
}

impl RefSamples {
    /// Build references from optional neighbour samples with H.266 reference
    /// substitution (see [`substituted`]). `corner` is the top-left sample;
    /// `above` / `left_px` provide up to `2w` / `2h` samples (rightward /
    /// downward); `None` marks an unavailable sample.
    pub fn build(
        w: usize,
        h: usize,
        corner: Option<i32>,
        above: &[Option<i32>],
        left_px: &[Option<i32>],
        bit_depth: u8,
    ) -> (r: RefSamples)
        requires
            w <= 64,
            h <= 64,
            1 <= bit_depth <= 16,
        ensures
            r.top.len() == 2 * w + 1,
            r.left.len() == 2 * h + 1,
            ({
                let s = ref_scan(w as int, h as int, corner, above@, left_px@);
                &&& r.top[0] == substituted(s, bit_depth, 2 * h)
                &&& r.left[0] == substituted(s, bit_depth, 2 * h)
                &&& forall|i: int| 0 <= i < 2 * h ==> #[trigger] r.left[i + 1] == substituted(s, bit_depth, 2 * h - 1 - i)
                &&& forall|i: int| 0 <= i < 2 * w ==> #[trigger] r.top[i + 1] == substituted(s, bit_depth, 2 * h + 1 + i)
            }),
    {
        let n_top = 2 * w;
        let n_left = 2 * h;
        let ghost s = ref_scan(w as int, h as int, corner, above@, left_px@);
        let mut seq: Vec<Option<i32>> = Vec::new();
        let mut i: usize = n_left;
        while i > 0
            invariant
                i <= n_left,
                n_left == 2 * h,
                s == ref_scan(w as int, h as int, corner, above@, left_px@),
                seq.len() == n_left - i,
                forall|k: int| 0 <= k < seq.len() ==> seq@[k] == s[k],
            decreases i,
        {
            i -= 1;
            let v = if i < left_px.len() {
                left_px[i]
            } else {
                None
            };
            seq.push(v);
        }
        seq.push(corner);
        let mut i: usize = 0;
        while i < n_top
            invariant
                i <= n_top,
                n_top == 2 * w,
                n_left == 2 * h,
                s == ref_scan(w as int, h as int, corner, above@, left_px@),
                seq.len() == n_left + 1 + i,
                forall|k: int| 0 <= k < seq.len() ==> seq@[k] == s[k],
            decreases n_top - i,
        {
            let v = if i < above.len() {
                above[i]
            } else {
                None
            };
            seq.push(v);
            i += 1;
        }
        assert(seq@ =~= s);
        let sub = substitute(&seq, bit_depth);
        let corner_val = sub[n_left];
        let mut left: Vec<i32> = Vec::new();
        left.push(corner_val);
        let mut i: usize = 0;
        while i < n_left
            invariant
                i <= n_left,
                n_left == 2 * h,
                sub.len() == s.len(),
                s.len() == 2 * h + 1 + 2 * w,
                forall|k: int| 0 <= k < sub.len() ==> sub[k] == substituted(s, bit_depth, k),
                left.len() == i + 1,
                left[0] == corner_val,
                forall|k: int| 0 <= k < i ==> #[trigger] left[k + 1] == substituted(s, bit_depth, 2 * h - 1 - k),
            decreases n_left - i,
        {
            left.push(sub[n_left - 1 - i]);
            i += 1;
        }
        let mut top: Vec<i32> = Vec::new();
        top.push(corner_val);
        let mut i: usize = 0;
        while i < n_top
            invariant
                i <= n_top,
                n_top == 2 * w,
                n_left == 2 * h,
                sub.len() == s.len(),
                s.len() == 2 * h + 1 + 2 * w,
                forall|k: int| 0 <= k < sub.len() ==> sub[k] == substituted(s, bit_depth, k),
                top.len() == i + 1,
                top[0] == corner_val,
                forall|k: int| 0 <= k < i ==> #[trigger] top[k + 1] == substituted(s, bit_depth, 2 * h + 1 + k),
            decreases n_top - i,
        {
            top.push(sub[n_left + 1 + i]);
            i += 1;
        }
        RefSamples { top, left }
    }
}


// ---------------------------------------------------------------------------
// Reference smoothing and parameters
// ---------------------------------------------------------------------------
/// Largest sample value the predictors accept (16-bit video).
pub const PRED_SAMPLE_MAX: i32 = 0xffff;

/// Well-formed references for a `w × h` block with samples in `[0, 2^16)`.
pub open spec fn refs_ok(r: &RefSamples, w: int, h: int) -> bool {
    &&& r.top.len() == 2 * w + 1
    &&& r.left.len() == 2 * h + 1
    &&& forall|i: int| 0 <= i < r.top.len() ==> 0 <= #[trigger] r.top[i] <= PRED_SAMPLE_MAX
    &&& forall|i: int| 0 <= i < r.left.len() ==> 0 <= #[trigger] r.left[i] <= PRED_SAMPLE_MAX
}

/// The `[1 2 1]/4` smoothing of three samples.
pub open spec fn filt121(a: int, b: int, c: int) -> int {
    floor_shr(a + 2 * b + c + 2, 2)
}

proof fn lemma_filt121_range(a: int, b: int, c: int)
    requires
        0 <= a <= PRED_SAMPLE_MAX,
        0 <= b <= PRED_SAMPLE_MAX,
        0 <= c <= PRED_SAMPLE_MAX,
    ensures
        0 <= filt121(a, b, c) <= PRED_SAMPLE_MAX,
{
    vstd::arithmetic::power2::lemma2_to64();
}

/// One side of the smoothed references: a shared smoothed corner, smoothed
/// interior samples and an unchanged far end.
pub open spec fn filtered_side(s: Seq<i32>, corner: int, i: int) -> int {
    if i == 0 {
        corner
    } else if i == s.len() - 1 {
        s[i] as int
    } else {
        filt121(s[i - 1] as int, s[i] as int, s[i + 1] as int)
    }
}

fn filter_side(s: &Vec<i32>, corner: i32) -> (r: Vec<i32>)
    requires
        s.len() >= 2,
        s.len() <= 129,
        0 <= corner <= PRED_SAMPLE_MAX,
        forall|i: int| 0 <= i < s.len() ==> 0 <= #[trigger] s[i] <= PRED_SAMPLE_MAX,
    ensures
        r.len() == s.len(),
        forall|i: int| 0 <= i < s.len() ==> r[i] as int == filtered_side(s@, corner as int, i),
        forall|i: int| 0 <= i < r.len() ==> 0 <= #[trigger] r[i] <= PRED_SAMPLE_MAX,
{
    let n = s.len();
    let mut out: Vec<i32> = Vec::new();
    out.push(corner);
    let mut i: usize = 1;
    while i < n - 1
        invariant
            1 <= i <= n - 1,
            n == s.len(),
            2 <= n <= 129,
            0 <= corner <= PRED_SAMPLE_MAX,
            forall|k: int| 0 <= k < s.len() ==> 0 <= #[trigger] s[k] <= PRED_SAMPLE_MAX,
            out.len() == i,
            forall|k: int| 0 <= k < i ==> out[k] as int == filtered_side(s@, corner as int, k),
            forall|k: int| 0 <= k < out.len() ==> 0 <= #[trigger] out[k] <= PRED_SAMPLE_MAX,
        decreases n - 1 - i,
    {
        let v = asr32(s[i - 1] + 2 * s[i] + s[i + 1] + 2, 2);
        proof {
            lemma_filt121_range(s[i - 1] as int, s[i as int] as int, s[i + 1] as int);
        }
        out.push(v);
        i += 1;
    }
    out.push(s[n - 1]);
    out
}

/// Apply the `[1 2 1]/4` reference-sample smoothing filter (H.266
/// `xFilterReferenceSamples`).
pub fn filter_references(refs: &RefSamples, w: usize, h: usize) -> (r: RefSamples)
    requires
        1 <= w <= 64,
        1 <= h <= 64,
        refs_ok(refs, w as int, h as int),
    ensures
        refs_ok(&r, w as int, h as int),
        ({
            let c = filt121(refs.top[1] as int, refs.top[0] as int, refs.left[1] as int);
            &&& forall|i: int| 0 <= i < r.top.len() ==> r.top[i] as int == filtered_side(refs.top@, c, i)
            &&& forall|i: int| 0 <= i < r.left.len() ==> r.left[i] as int == filtered_side(refs.left@, c, i)
        }),
{
    let corner = asr32(2 * refs.top[0] + refs.top[1] + refs.left[1] + 2, 2);
    proof {
        lemma_filt121_range(refs.top[1] as int, refs.top[0] as int, refs.left[1] as int);
    }
    let top = filter_side(&refs.top, corner);
    let left = filter_side(&refs.left, corner);
    RefSamples { top, left }
}

/// Wide-angle remapping of an angular mode for a non-square block: modes
/// pointing past the long side become wide angles (`+65`, or `-tall_offset`
/// for tall blocks).
pub open spec fn spec_wide_angle(w: int, h: int, mode: int, tall_offset: int) -> int {
    if 2 <= mode <= 66 {
        let d = spec_tz(w as nat) - spec_tz(h as nat);
        let delta = if d < 0 { -d } else { d };
        if w > h && mode < 2 + MODE_SHIFT[delta] {
            mode + 65
        } else if h > w && mode > 66 - MODE_SHIFT[delta] {
            mode - tall_offset
        } else {
            mode
        }
    } else {
        mode
    }
}

/// The block's aspect ratio is within the wide-angle table.
pub open spec fn aspect_ok(w: int, h: int) -> bool {
    &&& w > 0
    &&& h > 0
    &&& -6 < spec_tz(w as nat) - spec_tz(h as nat) < 6
}

fn wide_angle_impl(w: usize, h: usize, mode: i32, tall_offset: i32) -> (r: i32)
    requires
        aspect_ok(w as int, h as int),
        tall_offset == 65 || tall_offset == 67,
    ensures
        r == spec_wide_angle(w as int, h as int, mode as int, tall_offset as int),
{
    if mode > DC_IDX as i32 && mode <= VDIA_IDX as i32 {
        let log2w = trailing_zeros(w) as i32;
        let log2h = trailing_zeros(h) as i32;
        let delta = if log2w >= log2h {
            (log2w - log2h) as usize
        } else {
            (log2h - log2w) as usize
        };
        if w > h && mode < 2 + MODE_SHIFT[delta] {
            return mode + (VDIA_IDX as i32 - 1);
        } else if h > w && mode > VDIA_IDX as i32 - MODE_SHIFT[delta] {
            return mode - tall_offset;
        }
    }
    mode
}

/// VVC wide-angle intra mode remapping for prediction (`getWideAngle`).
/// Square blocks and planar/DC are returned unchanged.
pub fn wide_angle(w: usize, h: usize, mode: i32) -> (r: i32)
    requires
        aspect_ok(w as int, h as int),
    ensures
        r == spec_wide_angle(w as int, h as int, mode as int, 65),
{
    wide_angle_impl(w, h, mode, 65)
}

/// Wide-angle remap for LFNST set selection: as [`wide_angle`], except that
/// tall blocks subtract 67 instead of 65.
pub fn lfnst_wide_angle(w: usize, h: usize, mode: i32) -> (r: i32)
    requires
        aspect_ok(w as int, h as int),
    ensures
        r == spec_wide_angle(w as int, h as int, mode as int, 67),
{
    wide_angle_impl(w, h, mode, 67)
}

/// Derived per-block prediction parameters (`initPredIntraParams`).
#[derive(Clone, Copy)]
pub struct IntraParams {
    pub apply_pdpc: bool,
    pub ref_filter: bool,
    pub interp: bool,
    pub angular_scale: i32,
}

/// The angular offset of an (effective) angular mode from the vertical or
/// horizontal axis, signed as in `intraPredAngle`.
pub open spec fn ang_mode_of(mode: int) -> int {
    if mode >= DIA_MODE { mode - VER_MODE } else { -(mode - HOR_MODE) }
}

/// Magnitude of an integer.
pub open spec fn iabs(v: int) -> int {
    if v < 0 { -v } else { v }
}

/// An effective angular mode whose offset is inside the angle tables.
pub open spec fn eff_mode_ok(mode: int) -> bool {
    -13 <= mode <= 81
}

/// The prediction parameters of a block (H.266 `initPredIntraParams`).
pub open spec fn spec_intra_params(orig_mode: int, eff_mode: int, w: int, h: int, is_luma: bool) -> IntraParams {
    let lw = log2_dim(w);
    let lh = log2_dim(h);
    let pdpc0 = w >= 4 && h >= 4;
    if orig_mode == PLANAR_IDX {
        IntraParams { apply_pdpc: pdpc0, ref_filter: is_luma && w * h > 32, interp: false, angular_scale: 0 }
    } else if orig_mode == DC_IDX {
        IntraParams { apply_pdpc: pdpc0, ref_filter: false, interp: false, angular_scale: 0 }
    } else {
        let is_ver = eff_mode >= DIA_MODE;
        let ang = ang_mode_of(eff_mode);
        let abs_ang = ANG_TABLE[iabs(ang)];
        let inv = INV_ANG_TABLE[iabs(ang)];
        let side: int = if is_ver { h } else { w };
        let sc0 = crate::cabac::engine::log2_floor(side) - (crate::cabac::engine::log2_floor(3 * inv - 2) - 8);
        let scale: int = if ang > 0 { if sc0 < 2 { sc0 } else { 2 } } else { 0 };
        let pdpc1 = if ang < 0 { false } else if ang > 0 { pdpc0 && scale >= 0 } else { pdpc0 };
        let diff = if iabs(eff_mode - HOR_MODE) < iabs(eff_mode - VER_MODE) {
            iabs(eff_mode - HOR_MODE)
        } else {
            iabs(eff_mode - VER_MODE)
        };
        let filt = is_luma && diff > INTRA_FILTER[(lw + lh) / 2];
        let is_ref = abs_ang % 32 == 0;
        IntraParams {
            apply_pdpc: pdpc1,
            ref_filter: filt && is_ref,
            interp: filt && !is_ref,
            angular_scale: scale as i32,
        }
    }
}

/// Derive the prediction parameters of a block.
pub fn intra_params(orig_mode: i32, eff_mode: i32, w: usize, h: usize, is_luma: bool) -> (p: IntraParams)
    requires
        block_dim_ok(w as int),
        block_dim_ok(h as int),
        orig_mode != PLANAR_IDX && orig_mode != DC_IDX ==> eff_mode_ok(eff_mode as int),
    ensures
        p == spec_intra_params(orig_mode as int, eff_mode as int, w as int, h as int, is_luma),
        p.angular_scale <= 2,
        p.apply_pdpc && orig_mode != PLANAR_IDX && orig_mode != DC_IDX ==> 0 <= p.angular_scale,
{
    proof {
        lemma_tz_dim(w as int);
        lemma_tz_dim(h as int);
    }
    let log2w = trailing_zeros(w) as i32;
    let log2h = trailing_zeros(h) as i32;
    let mut p = IntraParams { apply_pdpc: w >= 4 && h >= 4, ref_filter: false, interp: false, angular_scale: 0 };
    if orig_mode == PLANAR_IDX as i32 {
        p.ref_filter = is_luma && w * h > 32;
    } else if orig_mode == DC_IDX as i32 {
    } else {
        let is_mode_ver = eff_mode >= DIA_MODE;
        let ang_mode = if is_mode_ver {
            eff_mode - VER_MODE
        } else {
            -(eff_mode - HOR_MODE)
        };
        let a = if ang_mode < 0 {
            (-ang_mode) as usize
        } else {
            ang_mode as usize
        };
        let abs_ang = ANG_TABLE[a];
        let abs_inv_angle = INV_ANG_TABLE[a];
        if ang_mode < 0 {
            p.apply_pdpc = false;
        } else if ang_mode > 0 {
            let side_size: u32 = if is_mode_ver {
                h as u32
            } else {
                w as u32
            };
            assert(INV_ANG_TABLE@ =~= seq![
                0i32, 16384, 8192, 5461, 4096, 2731, 2048, 1638, 1365, 1170, 1024, 910, 819, 712, 630, 565,
                512, 468, 420, 364, 321, 287, 256, 224, 191, 161, 128, 96, 64, 48, 32, 16,
            ]);
            let l1 = crate::intra::floor_log2(side_size) as i32;
            let l2 = crate::intra::floor_log2((3 * abs_inv_angle - 2) as u32) as i32;
            let sc0 = l1 - (l2 - 8);
            let scale = if sc0 < 2 {
                sc0
            } else {
                2
            };
            p.angular_scale = scale;
            p.apply_pdpc = p.apply_pdpc && scale >= 0;
        }
        if is_luma {
            let d1 = if eff_mode >= HOR_MODE {
                eff_mode - HOR_MODE
            } else {
                HOR_MODE - eff_mode
            };
            let d2 = if eff_mode >= VER_MODE {
                eff_mode - VER_MODE
            } else {
                VER_MODE - eff_mode
            };
            let diff = if d1 < d2 {
                d1
            } else {
                d2
            };
            let log2_size = ((log2w + log2h) / 2) as usize;
            if diff > INTRA_FILTER[log2_size] {
                let is_ref = abs_ang % 32 == 0;
                p.ref_filter = is_ref;
                p.interp = !is_ref;
            }
        }
    }
    p
}


// ---------------------------------------------------------------------------
// Planar, DC and their PDPC
// ---------------------------------------------------------------------------
/// Planar prediction at `(x, y)`: the average of a horizontal blend (left
/// sample to top-right corner) and a vertical blend (top sample to
/// bottom-left corner).
pub open spec fn planar_sample(top: Seq<i32>, left: Seq<i32>, w: int, h: int, x: int, y: int) -> int {
    let tr = top[1 + w] as int;
    let bl = left[1 + h] as int;
    let lv = left[1 + y] as int;
    let tv = top[1 + x] as int;
    let hor = lv * w + (x + 1) * (tr - lv);
    let ver = tv * h + (y + 1) * (bl - tv);
    floor_shr(hor * h + ver * w + w * h, (1 + log2_dim(w) + log2_dim(h)) as nat)
}

fn planar_at(r: &RefSamples, w: usize, h: usize, x: usize, y: usize) -> (v: i32)
    requires
        block_dim_ok(w as int),
        block_dim_ok(h as int),
        refs_ok(r, w as int, h as int),
        x < w,
        y < h,
    ensures
        v as int == planar_sample(r.top@, r.left@, w as int, h as int, x as int, y as int),
        0 <= v <= PRED_SAMPLE_MAX,
{
    proof {
        lemma_tz_dim(w as int);
        lemma_tz_dim(h as int);
    }
    let wi = w as i32;
    let hi = h as i32;
    let tr = r.top[1 + w];
    let bl = r.left[1 + h];
    let l = r.left[1 + y];
    let t = r.top[1 + x];
    let xi = x as i32;
    let yi = y as i32;
    proof {
        lemma_planar_bounds(l as int, t as int, tr as int, bl as int, wi as int, hi as int, xi as int, yi as int);
    }
    let hor = l * wi + (xi + 1) * (tr - l);
    let ver = t * hi + (yi + 1) * (bl - t);
    let shift = 1 + trailing_zeros(w) + trailing_zeros(h);
    let v = asr32(hor * hi + ver * wi + wi * hi, shift);
    proof {
        lemma_planar_range(l as int, t as int, tr as int, bl as int, wi as int, hi as int, xi as int, yi as int);
        vstd::arithmetic::power2::lemma_pow2_adds(log2_dim(w as int) as nat, log2_dim(h as int) as nat);
        vstd::arithmetic::power2::lemma_pow2_unfold((1 + log2_dim(w as int) + log2_dim(h as int)) as nat);
    }
    v
}

proof fn lemma_planar_bounds(l: int, t: int, tr: int, bl: int, w: int, h: int, x: int, y: int)
    requires
        0 <= l <= PRED_SAMPLE_MAX,
        0 <= t <= PRED_SAMPLE_MAX,
        0 <= tr <= PRED_SAMPLE_MAX,
        0 <= bl <= PRED_SAMPLE_MAX,
        1 <= w <= 64,
        1 <= h <= 64,
        0 <= x < w,
        0 <= y < h,
    ensures
        0 <= l * w + (x + 1) * (tr - l) <= PRED_SAMPLE_MAX * w,
        0 <= t * h + (y + 1) * (bl - t) <= PRED_SAMPLE_MAX * h,
        0 <= (l * w + (x + 1) * (tr - l)) * h <= PRED_SAMPLE_MAX * w * h,
        0 <= (t * h + (y + 1) * (bl - t)) * w <= PRED_SAMPLE_MAX * w * h,
        w * h <= 4096,
        PRED_SAMPLE_MAX * w * h <= 0x1000_0000,
        0 <= l * w <= PRED_SAMPLE_MAX * 64,
        0 <= t * h <= PRED_SAMPLE_MAX * 64,
        -PRED_SAMPLE_MAX * 64 <= (x + 1) * (tr - l) <= PRED_SAMPLE_MAX * 64,
        -PRED_SAMPLE_MAX * 64 <= (y + 1) * (bl - t) <= PRED_SAMPLE_MAX * 64,
{
    assert(0 <= l * w <= PRED_SAMPLE_MAX * 64) by (nonlinear_arith)
        requires
            0 <= l <= PRED_SAMPLE_MAX,
            1 <= w <= 64,
    ;
    assert(0 <= t * h <= PRED_SAMPLE_MAX * 64) by (nonlinear_arith)
        requires
            0 <= t <= PRED_SAMPLE_MAX,
            1 <= h <= 64,
    ;
    assert(-PRED_SAMPLE_MAX * 64 <= (x + 1) * (tr - l) <= PRED_SAMPLE_MAX * 64) by (nonlinear_arith)
        requires
            0 <= l <= PRED_SAMPLE_MAX,
            0 <= tr <= PRED_SAMPLE_MAX,
            0 <= x < 64,
    ;
    assert(-PRED_SAMPLE_MAX * 64 <= (y + 1) * (bl - t) <= PRED_SAMPLE_MAX * 64) by (nonlinear_arith)
        requires
            0 <= t <= PRED_SAMPLE_MAX,
            0 <= bl <= PRED_SAMPLE_MAX,
            0 <= y < 64,
    ;
    assert(0 <= l * w + (x + 1) * (tr - l) <= PRED_SAMPLE_MAX * w) by (nonlinear_arith)
        requires
            0 <= l <= PRED_SAMPLE_MAX,
            0 <= tr <= PRED_SAMPLE_MAX,
            1 <= w,
            0 <= x < w,
    {
        assert(l * w + (x + 1) * (tr - l) == l * (w - x - 1) + (x + 1) * tr);
    }
    assert(0 <= t * h + (y + 1) * (bl - t) <= PRED_SAMPLE_MAX * h) by (nonlinear_arith)
        requires
            0 <= t <= PRED_SAMPLE_MAX,
            0 <= bl <= PRED_SAMPLE_MAX,
            1 <= h,
            0 <= y < h,
    {
        assert(t * h + (y + 1) * (bl - t) == t * (h - y - 1) + (y + 1) * bl);
    }
    assert(w * h <= 4096) by (nonlinear_arith)
        requires
            1 <= w <= 64,
            1 <= h <= 64,
    ;
    assert(PRED_SAMPLE_MAX * w * h <= 0x1000_0000) by (nonlinear_arith)
        requires
            w * h <= 4096,
    ;
    let a = l * w + (x + 1) * (tr - l);
    let b = t * h + (y + 1) * (bl - t);
    assert(0 <= a * h <= PRED_SAMPLE_MAX * w * h) by (nonlinear_arith)
        requires
            0 <= a <= PRED_SAMPLE_MAX * w,
            1 <= h,
    ;
    assert(0 <= b * w <= PRED_SAMPLE_MAX * w * h) by (nonlinear_arith)
        requires
            0 <= b <= PRED_SAMPLE_MAX * h,
            1 <= w,
    ;
}

proof fn lemma_planar_range(l: int, t: int, tr: int, bl: int, w: int, h: int, x: int, y: int)
    requires
        0 <= l <= PRED_SAMPLE_MAX,
        0 <= t <= PRED_SAMPLE_MAX,
        0 <= tr <= PRED_SAMPLE_MAX,
        0 <= bl <= PRED_SAMPLE_MAX,
        block_dim_ok(w),
        block_dim_ok(h),
        0 <= x < w,
        0 <= y < h,
    ensures
        0 <= floor_shr(
            (l * w + (x + 1) * (tr - l)) * h + (t * h + (y + 1) * (bl - t)) * w + w * h,
            (1 + log2_dim(w) + log2_dim(h)) as nat,
        ) <= PRED_SAMPLE_MAX,
{
    lemma_tz_dim(w);
    lemma_tz_dim(h);
    lemma_planar_bounds(l, t, tr, bl, w, h, x, y);
    let n = (l * w + (x + 1) * (tr - l)) * h + (t * h + (y + 1) * (bl - t)) * w + w * h;
    let k = (1 + log2_dim(w) + log2_dim(h)) as nat;
    vstd::arithmetic::power2::lemma_pow2_adds(log2_dim(w) as nat, log2_dim(h) as nat);
    vstd::arithmetic::power2::lemma_pow2_unfold(k);
    let d = pow2(k) as int;
    let lw = log2_dim(w) as nat;
    let lh = log2_dim(h) as nat;
    assert(pow2(lw + lh) == pow2(lw) * pow2(lh));
    assert(k == lw + lh + 1);
    assert(pow2(k) == 2 * pow2(lw + lh));
    assert(d == 2 * (w * h));
    assert(0 <= n < (PRED_SAMPLE_MAX + 1) * d) by (nonlinear_arith)
        requires
            n <= 2 * (PRED_SAMPLE_MAX * w * h) + w * h,
            n >= 0,
            d == 2 * (w * h),
            w * h >= 1,
    ;
    lemma_div_below(n, d, PRED_SAMPLE_MAX + 1);
}

/// `0 <= n < m·d` bounds the quotient `n / d` to `[0, m)`.
pub proof fn lemma_div_below(n: int, d: int, m: int)
    requires
        d > 0,
        0 <= n < m * d,
    ensures
        0 <= n / d < m,
{
    vstd::arithmetic::div_mod::lemma_fundamental_div_mod(n, d);
    vstd::arithmetic::div_mod::lemma_mod_bound(n, d);
    let q = n / d;
    let r = n % d;
    assert(0 <= q < m) by (nonlinear_arith)
        requires
            n == d * q + r,
            0 <= r < d,
            0 <= n < m * d,
            d > 0,
    ;
}


/// Sum of `s[1..=n]`.
pub open spec fn ref_sum(s: Seq<i32>, n: int) -> int
    decreases n,
{
    if n <= 0 {
        0
    } else {
        ref_sum(s, n - 1) + s[n] as int
    }
}

/// DC divisor: twice the side of a square block, the longer side otherwise.
pub open spec fn dc_denom(w: int, h: int) -> int {
    if w == h { 2 * w } else if w > h { w } else { h }
}

/// DC prediction: the rounded mean of the top references (when the block is
/// not taller than wide) and the left references (when not wider than tall).
pub open spec fn dc_sample(top: Seq<i32>, left: Seq<i32>, w: int, h: int) -> int {
    let d = dc_denom(w, h);
    let sum = (if w >= h { ref_sum(top, w) } else { 0 }) + (if w <= h { ref_sum(left, h) } else { 0 });
    floor_shr(sum + d / 2, spec_tz(d as nat))
}

fn sum_refs(s: &Vec<i32>, n: usize) -> (r: i32)
    requires
        n < s.len(),
        n <= 128,
        forall|i: int| 0 <= i < s.len() ==> 0 <= #[trigger] s[i] <= PRED_SAMPLE_MAX,
    ensures
        r == ref_sum(s@, n as int),
        0 <= r <= PRED_SAMPLE_MAX * n,
{
    let mut sum: i32 = 0;
    let mut i: usize = 0;
    while i < n
        invariant
            i <= n,
            n < s.len(),
            n <= 128,
            forall|k: int| 0 <= k < s.len() ==> 0 <= #[trigger] s[k] <= PRED_SAMPLE_MAX,
            sum == ref_sum(s@, i as int),
            0 <= sum <= PRED_SAMPLE_MAX * i,
        decreases n - i,
    {
        i += 1;
        sum = sum + s[i];
    }
    sum
}

/// The DC value of a block.
fn dc_at(r: &RefSamples, w: usize, h: usize) -> (v: i32)
    requires
        block_dim_ok(w as int),
        block_dim_ok(h as int),
        refs_ok(r, w as int, h as int),
    ensures
        v as int == dc_sample(r.top@, r.left@, w as int, h as int),
        0 <= v <= PRED_SAMPLE_MAX,
{
    let denom = if w == h {
        w * 2
    } else if w > h {
        w
    } else {
        h
    };
    let div_shift = trailing_zeros(denom);
    let div_offset = (denom / 2) as i32;
    let mut sum: i32 = 0;
    if w >= h {
        sum = sum + sum_refs(&r.top, w);
    }
    if w <= h {
        sum = sum + sum_refs(&r.left, h);
    }
    proof {
        let d = denom as int;
        assert(block_dim_ok(d) || d == 128);
        reveal_with_fuel(spec_tz, 9);
        vstd::arithmetic::power2::lemma2_to64();
        assert(pow2(spec_tz(d as nat)) == d);
        assert(0 <= sum <= PRED_SAMPLE_MAX * d);
        lemma_div_below(sum + d / 2, d, PRED_SAMPLE_MAX + 1);
    }
    asr32(sum + div_offset, div_shift)
}

/// PDPC weight of distance `p` from the edge: `32 >> min(31, (2p) >> scale)`.
pub open spec fn pdpc_weight(p: int, scale: nat) -> int {
    let e = floor_shr(2 * p, scale);
    floor_shr(32, (if e < 31 { e } else { 31 }) as nat)
}

/// PDPC for planar and DC: blend the prediction `v` at `(x, y)` towards the
/// left and top references with weights decaying from the edges.
pub open spec fn pdpc_planar_dc(v: int, top: Seq<i32>, left: Seq<i32>, w: int, h: int, x: int, y: int) -> int {
    let scale = floor_shr(log2_dim(w) + log2_dim(h) - 2, 2);
    let wl = pdpc_weight(x, scale as nat);
    let wt = pdpc_weight(y, scale as nat);
    v + floor_shr(wl * (left[y + 1] - v) + wt * (top[x + 1] - v) + 32, 6)
}

fn pdpc_weight_at(p: usize, scale: u32) -> (r: i32)
    requires
        p < 64,
        scale < 32,
    ensures
        r == pdpc_weight(p as int, scale as nat),
        0 <= r <= 32,
{
    let e0 = ((2 * p) as u32) >> scale;
    proof {
        vstd::bits::lemma_u32_shr_is_div((2 * p) as u32, scale);
        vstd::arithmetic::power2::lemma_pow2_pos(scale as nat);
        vstd::arithmetic::div_mod::lemma_div_is_ordered_by_denominator((2 * p) as int, 1, pow2(scale as nat) as int);
    }
    let e = if e0 < 31 {
        e0
    } else {
        31
    };
    proof {
        vstd::bits::lemma_u32_shr_is_div(32, e);
        vstd::arithmetic::power2::lemma_pow2_pos(e as nat);
        vstd::arithmetic::div_mod::lemma_div_is_ordered_by_denominator(32, 1, pow2(e as nat) as int);
    }
    (32u32 >> e) as i32
}

/// A blend `v + ((a·(p - v) + b·(q - v) + 32) >> 6)` with weights `a, b` in
/// `[0, 32]` stays within the range of `v`, `p` and `q`.
pub proof fn lemma_blend_range(v: int, p: int, q: int, a: int, b: int, lo: int, hi: int)
    requires
        0 <= a <= 32,
        0 <= b <= 32,
        lo <= v <= hi,
        lo <= p <= hi,
        lo <= q <= hi,
    ensures
        lo <= v + floor_shr(a * (p - v) + b * (q - v) + 32, 6) <= hi,
{
    vstd::arithmetic::power2::lemma2_to64();
    let n = a * (p - v) + b * (q - v) + 32;
    let t = n + 64 * v;
    assert(64 * lo <= t <= 64 * hi + 32) by (nonlinear_arith)
        requires
            t == a * (p - v) + b * (q - v) + 32 + 64 * v,
            0 <= a <= 32,
            0 <= b <= 32,
            lo <= v <= hi,
            lo <= p <= hi,
            lo <= q <= hi,
    ;
    vstd::arithmetic::div_mod::lemma_fundamental_div_mod(n, 64);
    vstd::arithmetic::div_mod::lemma_mod_bound(n, 64);
    let qn = n / 64;
    assert(lo <= v + qn <= hi) by (nonlinear_arith)
        requires
            n == 64 * qn + n % 64,
            0 <= n % 64 < 64,
            64 * lo <= n + 64 * v <= 64 * hi + 32,
    ;
}

fn pdpc_planar_dc_at(v: i32, r: &RefSamples, w: usize, h: usize, x: usize, y: usize) -> (out: i32)
    requires
        block_dim_ok(w as int),
        block_dim_ok(h as int),
        w >= 4,
        h >= 4,
        refs_ok(r, w as int, h as int),
        x < w,
        y < h,
        0 <= v <= PRED_SAMPLE_MAX,
    ensures
        out as int == pdpc_planar_dc(v as int, r.top@, r.left@, w as int, h as int, x as int, y as int),
        0 <= out <= PRED_SAMPLE_MAX,
{
    proof {
        lemma_tz_dim(w as int);
        lemma_tz_dim(h as int);
        vstd::arithmetic::power2::lemma2_to64();
    }
    let scale = (trailing_zeros(w) + trailing_zeros(h) - 2) / 4;
    let wl = pdpc_weight_at(x, scale);
    let wt = pdpc_weight_at(y, scale);
    let left = r.left[y + 1];
    let top = r.top[x + 1];
    proof {
        lemma_blend_range(v as int, left as int, top as int, wl as int, wt as int, 0, PRED_SAMPLE_MAX as int);
    }
    assert(-0x40_0000 <= wl * (left - v) <= 0x40_0000) by (nonlinear_arith)
        requires
            0 <= wl <= 32,
            0 <= left <= PRED_SAMPLE_MAX,
            0 <= v <= PRED_SAMPLE_MAX,
    ;
    assert(-0x40_0000 <= wt * (top - v) <= 0x40_0000) by (nonlinear_arith)
        requires
            0 <= wt <= 32,
            0 <= top <= PRED_SAMPLE_MAX,
            0 <= v <= PRED_SAMPLE_MAX,
    ;
    v + asr32(wl * (left - v) + wt * (top - v) + 32, 6)
}


// ---------------------------------------------------------------------------
// Angular prediction
// ---------------------------------------------------------------------------
/// Length of the extended main-reference buffer.
pub const MAIN_BUF: usize = 132;

/// `intraPredAngle` of an effective angular mode.
pub open spec fn pred_angle(mode: int) -> int {
    let a = ang_mode_of(mode);
    if a < 0 { -(ANG_TABLE[-a] as int) } else { ANG_TABLE[a] as int }
}

/// Entry `b` of the extended main reference buffer. For negative angles the
/// main reference starts at offset `ph`, preceded by side samples projected
/// with the inverse angle; otherwise the main reference is extended to
/// `2·pw + 3` samples by repeating its last one. The rest of the buffer is 0.
pub open spec fn main_entry(ms: Seq<i32>, ss: Seq<i32>, pw: int, ph: int, angle: int, inv: int, b: int) -> int {
    if angle < 0 {
        if ph <= b <= ph + pw + 1 {
            ms[b - ph] as int
        } else if 0 <= b < ph {
            let idx = floor_shr((ph - b) * inv + 256, 9);
            ss[if idx < ph { idx } else { ph }] as int
        } else {
            0
        }
    } else {
        if 0 <= b < ms.len() {
            ms[b] as int
        } else if ms.len() <= b < 2 * pw + 3 {
            ms[ms.len() - 1] as int
        } else {
            0
        }
    }
}

/// `refMain[j]`: the main reference relative to the corner.
pub open spec fn ang_ref(ms: Seq<i32>, ss: Seq<i32>, pw: int, ph: int, angle: int, inv: int, j: int) -> int {
    let base = if angle < 0 { ph } else { 0 };
    main_entry(ms, ss, pw, ph, angle, inv, base + j)
}

/// Tap `k` of the 4-tap smoothing (Gaussian) interpolation filter.
pub open spec fn smooth_tap(df: int, k: int) -> int {
    if k == 0 {
        16 - df / 2
    } else if k == 1 {
        32 - df / 2
    } else if k == 2 {
        16 + df / 2
    } else {
        df / 2
    }
}

/// Tap `k` of the interpolation filter at fractional position `df`.
pub open spec fn ang_tap(df: int, k: int, cubic: bool) -> int {
    if cubic { CUBIC_FILTER[df][k] as int } else { smooth_tap(df, k) }
}

/// The angular prediction at `(x, y)` of the `pw × ph` (possibly transposed)
/// block before PDPC: an integer-slope copy, a 4-tap interpolation (luma,
/// clipped) or a 2-tap linear interpolation (chroma) of the main reference.
pub open spec fn ang_base(
    ms: Seq<i32>,
    ss: Seq<i32>,
    pw: int,
    ph: int,
    angle: int,
    inv: int,
    is_luma: bool,
    cubic: bool,
    max_val: int,
    x: int,
    y: int,
) -> int {
    if angle == 0 {
        ang_ref(ms, ss, pw, ph, angle, inv, 1 + x)
    } else {
        let dp = angle * (y + 1);
        let di = floor_shr(dp, 5);
        let df = dp - 32 * di;
        if iabs(angle) % 32 != 0 {
            if is_luma {
                let acc = ang_tap(df, 0, cubic) * ang_ref(ms, ss, pw, ph, angle, inv, di + x) + ang_tap(
                    df,
                    1,
                    cubic,
                ) * ang_ref(ms, ss, pw, ph, angle, inv, di + x + 1) + ang_tap(df, 2, cubic) * ang_ref(
                    ms,
                    ss,
                    pw,
                    ph,
                    angle,
                    inv,
                    di + x + 2,
                ) + ang_tap(df, 3, cubic) * ang_ref(ms, ss, pw, ph, angle, inv, di + x + 3);
                spec_clamp(floor_shr(acc + 32, 6), 0, max_val)
            } else {
                let p0 = ang_ref(ms, ss, pw, ph, angle, inv, di + 1 + x);
                let p1 = ang_ref(ms, ss, pw, ph, angle, inv, di + 2 + x);
                p0 + floor_shr(df * (p1 - p0) + 16, 5)
            }
        } else {
            ang_ref(ms, ss, pw, ph, angle, inv, di + 1 + x)
        }
    }
}

/// The angular prediction at `(x, y)` including PDPC: for the pure axes a
/// clipped gradient correction near the side edge, for positive angles a blend
/// towards the projected side reference.
pub open spec fn ang_sample(
    ms: Seq<i32>,
    ss: Seq<i32>,
    pw: int,
    ph: int,
    angle: int,
    inv: int,
    is_luma: bool,
    p: IntraParams,
    max_val: int,
    x: int,
    y: int,
) -> int {
    let v = ang_base(ms, ss, pw, ph, angle, inv, is_luma, !p.interp, max_val, x, y);
    if !p.apply_pdpc {
        v
    } else if angle == 0 {
        let scale = floor_shr(log2_dim(pw) + log2_dim(ph) - 2, 2);
        let lim: int = if 3 * pow2(scale as nat) < pw { (3 * pow2(scale as nat)) as int } else { pw };
        if x < lim {
            let wl = floor_shr(32, floor_shr(2 * x, scale as nat) as nat);
            spec_clamp(v + floor_shr(wl * (ss[1 + y] - ang_ref(ms, ss, pw, ph, angle, inv, 0)) + 32, 6), 0, max_val)
        } else {
            v
        }
    } else {
        let scale = p.angular_scale as int;
        let lim: int = if 3 * pow2(scale as nat) < pw { (3 * pow2(scale as nat)) as int } else { pw };
        if x < lim {
            let wl = floor_shr(32, floor_shr(2 * x, scale as nat) as nat);
            let i0 = y + floor_shr(256 + (x + 1) * inv, 9) + 1;
            let idx = if i0 < ss.len() - 1 { i0 } else { ss.len() - 1 };
            v + floor_shr(wl * (ss[idx] - v) + 32, 6)
        } else {
            v
        }
    }
}

/// Every row's reference window lies inside the main-reference buffer.
pub open spec fn ang_window_ok(angle: int, pw: int, ph: int) -> bool {
    let base = if angle < 0 { ph } else { 0 };
    forall|y: int|
        0 <= y < ph ==> 0 <= base + #[trigger] floor_shr(angle * (y + 1), 5) && base + floor_shr(
            angle * (y + 1),
            5,
        ) + pw + 3 <= MAIN_BUF
}


/// All samples of `s` are in `[0, 2^16)`.
pub open spec fn samples_ok(s: Seq<i32>) -> bool {
    forall|i: int| 0 <= i < s.len() ==> 0 <= #[trigger] s[i] <= PRED_SAMPLE_MAX
}

/// Build the extended main reference buffer (see [`main_entry`]).
fn build_main(ms: &Vec<i32>, ss: &Vec<i32>, pw: usize, ph: usize, angle: i32, inv: i32) -> (main: [i32; 132])
    requires
        1 <= pw <= 64,
        1 <= ph <= 64,
        ms.len() == 2 * pw + 1,
        ss.len() == 2 * ph + 1,
        samples_ok(ms@),
        samples_ok(ss@),
        0 <= inv <= 16384,
    ensures
        forall|j: int| 0 <= j < 132 ==> main[j] as int == main_entry(ms@, ss@, pw as int, ph as int, angle as int, inv as int, j),
        forall|j: int| 0 <= j < 132 ==> 0 <= #[trigger] main[j] <= PRED_SAMPLE_MAX,
{
    let mut main = [0i32; 132];
    if angle < 0 {
        let mut k: usize = 0;
        while k < pw + 2
            invariant
                1 <= pw <= 64,
                1 <= ph <= 64,
                ms.len() == 2 * pw + 1,
                samples_ok(ms@),
                angle < 0,
                k <= pw + 2,
                forall|j: int| 0 <= j < 132 ==> main[j] as int == if ph <= j < ph + k {
                    main_entry(ms@, ss@, pw as int, ph as int, angle as int, inv as int, j)
                } else {
                    0
                },
                forall|j: int| 0 <= j < 132 ==> 0 <= #[trigger] main[j] <= PRED_SAMPLE_MAX,
            decreases pw + 2 - k,
        {
            main[ph + k] = ms[k];
            k += 1;
        }
        let mut b: usize = 0;
        while b < ph
            invariant
                1 <= pw <= 64,
                1 <= ph <= 64,
                ss.len() == 2 * ph + 1,
                samples_ok(ss@),
                0 <= inv <= 16384,
                angle < 0,
                b <= ph,
                forall|j: int| 0 <= j < 132 ==> main[j] as int == if j < b || ph <= j < ph + pw + 2 {
                    main_entry(ms@, ss@, pw as int, ph as int, angle as int, inv as int, j)
                } else {
                    0
                },
                forall|j: int| 0 <= j < 132 ==> 0 <= #[trigger] main[j] <= PRED_SAMPLE_MAX,
            decreases ph - b,
        {
            assert(0 <= (ph - b) * inv <= 64 * 16384) by (nonlinear_arith)
                requires
                    0 <= inv <= 16384,
                    0 < ph - b <= 64,
            ;
            let idx0 = asr32(((ph - b) as i32) * inv + 256, 9);
            proof {
                lemma_floor_shr_bounds(((ph - b) * inv + 256) as int, 9);
            }
            let idx: usize = if idx0 < ph as i32 {
                idx0 as usize
            } else {
                ph
            };
            main[b] = ss[idx];
            b += 1;
        }
    } else {
        let avail = ms.len();
        let mut k: usize = 0;
        while k < avail
            invariant
                ms.len() == avail,
                avail == 2 * pw + 1,
                1 <= pw <= 64,
                samples_ok(ms@),
                angle >= 0,
                k <= avail,
                forall|j: int| 0 <= j < 132 ==> main[j] as int == if j < k {
                    main_entry(ms@, ss@, pw as int, ph as int, angle as int, inv as int, j)
                } else {
                    0
                },
                forall|j: int| 0 <= j < 132 ==> 0 <= #[trigger] main[j] <= PRED_SAMPLE_MAX,
            decreases avail - k,
        {
            main[k] = ms[k];
            k += 1;
        }
        let last = ms[avail - 1];
        while k < 2 * pw + 3
            invariant
                ms.len() == avail,
                avail == 2 * pw + 1,
                1 <= pw <= 64,
                samples_ok(ms@),
                last == ms[avail - 1],
                angle >= 0,
                avail <= k <= 2 * pw + 3,
                forall|j: int| 0 <= j < 132 ==> main[j] as int == if j < k {
                    main_entry(ms@, ss@, pw as int, ph as int, angle as int, inv as int, j)
                } else {
                    0
                },
                forall|j: int| 0 <= j < 132 ==> 0 <= #[trigger] main[j] <= PRED_SAMPLE_MAX,
            decreases 2 * pw + 3 - k,
        {
            main[k] = last;
            k += 1;
        }
    }
    main
}

/// Width of a PDPC region: `min(3 << scale, pw)`.
fn pdpc_limit(scale: u32, pw: usize) -> (r: usize)
    requires
        scale <= 2,
    ensures
        r as int == if 3 * pow2(scale as nat) < pw { (3 * pow2(scale as nat)) as int } else { pw as int },
{
    proof {
        vstd::arithmetic::power2::lemma2_to64();
    }
    let t: usize = if scale == 0 {
        3
    } else if scale == 1 {
        6
    } else {
        12
    };
    if t < pw {
        t
    } else {
        pw
    }
}

/// `32 >> ((2x) >> scale)` for a position inside the PDPC region.
fn pdpc_wl(x: usize, scale: u32) -> (r: i32)
    requires
        scale <= 2,
        x < 3 * pow2(scale as nat),
    ensures
        r == floor_shr(32, floor_shr(2 * x, scale as nat) as nat),
        0 <= r <= 32,
{
    proof {
        vstd::arithmetic::power2::lemma2_to64();
        vstd::bits::lemma_u32_shr_is_div((2 * x) as u32, scale);
    }
    let e = ((2 * x) as u32) >> scale;
    assert(e <= 5) by {
        lemma_div_below(2 * x as int, pow2(scale as nat) as int, 6);
    }
    proof {
        vstd::bits::lemma_u32_shr_is_div(32, e);
        vstd::arithmetic::power2::lemma_pow2_pos(e as nat);
        vstd::arithmetic::div_mod::lemma_div_is_ordered_by_denominator(32, 1, pow2(e as nat) as int);
    }
    (32u32 >> e) as i32
}

/// Filter taps at fractional position `df` for the luma 4-tap path.
fn ang_taps(df: i32, cubic: bool) -> (t: [i32; 4])
    requires
        0 <= df < 32,
    ensures
        forall|k: int| 0 <= k < 4 ==> t[k] as int == ang_tap(df as int, k, cubic),
        forall|k: int| 0 <= k < 4 ==> -8 <= #[trigger] t[k] <= 64,
{
    if cubic {
        assert(CUBIC_FILTER@.len() == 32);
        let f = CUBIC_FILTER[df as usize];
        assert(forall|i: int, k: int| 0 <= i < 32 && 0 <= k < 4 ==> -8 <= #[trigger] CUBIC_FILTER[i][k] <= 64) by {
            assert(CUBIC_FILTER@ =~= seq![
                [0i32, 64i32, 0i32, 0i32], [-1i32, 63i32, 2i32, 0i32], [-2i32, 62i32, 4i32, 0i32], [-2i32, 60i32, 7i32, -1i32], [-2i32, 58i32, 10i32, -2i32],
                [-3i32, 57i32, 12i32, -2i32], [-4i32, 56i32, 14i32, -2i32], [-4i32, 55i32, 15i32, -2i32], [-4i32, 54i32, 16i32, -2i32], [-5i32, 53i32, 18i32, -2i32],
                [-6i32, 52i32, 20i32, -2i32], [-6i32, 49i32, 24i32, -3i32], [-6i32, 46i32, 28i32, -4i32], [-5i32, 44i32, 29i32, -4i32], [-4i32, 42i32, 30i32, -4i32],
                [-4i32, 39i32, 33i32, -4i32], [-4i32, 36i32, 36i32, -4i32], [-4i32, 33i32, 39i32, -4i32], [-4i32, 30i32, 42i32, -4i32], [-4i32, 29i32, 44i32, -5i32],
                [-4i32, 28i32, 46i32, -6i32], [-3i32, 24i32, 49i32, -6i32], [-2i32, 20i32, 52i32, -6i32], [-2i32, 18i32, 53i32, -5i32], [-2i32, 16i32, 54i32, -4i32],
                [-2i32, 15i32, 55i32, -4i32], [-2i32, 14i32, 56i32, -4i32], [-2i32, 12i32, 57i32, -3i32], [-2i32, 10i32, 58i32, -2i32], [-1i32, 7i32, 60i32, -2i32],
                [0i32, 4i32, 62i32, -2i32], [0i32, 2i32, 63i32, -1i32],
            ]);
        }
        f
    } else {
        let h = df / 2;
        [16 - h, 32 - h, 16 + h, h]
    }
}

proof fn lemma_tap_prod(f: int, m: int)
    requires
        -8 <= f <= 64,
        0 <= m <= PRED_SAMPLE_MAX,
    ensures
        -8 * PRED_SAMPLE_MAX <= f * m <= 64 * PRED_SAMPLE_MAX,
{
    assert(-8 * PRED_SAMPLE_MAX <= f * m <= 64 * PRED_SAMPLE_MAX) by (nonlinear_arith)
        requires
            -8 <= f <= 64,
            0 <= m <= PRED_SAMPLE_MAX,
    ;
}

/// Linear interpolation `p0 + ((df·(p1 - p0) + 16) >> 5)` with `0 <= df < 32`
/// stays between the two samples' bounds.
pub proof fn lemma_lerp_range(p0: int, p1: int, df: int)
    requires
        0 <= df < 32,
        0 <= p0 <= PRED_SAMPLE_MAX,
        0 <= p1 <= PRED_SAMPLE_MAX,
    ensures
        0 <= p0 + floor_shr(df * (p1 - p0) + 16, 5) <= PRED_SAMPLE_MAX,
{
    vstd::arithmetic::power2::lemma2_to64();
    let n = df * (p1 - p0) + 16;
    assert(0 <= n + 32 * p0 <= 32 * PRED_SAMPLE_MAX + 16) by (nonlinear_arith)
        requires
            n == df * (p1 - p0) + 16,
            0 <= df < 32,
            0 <= p0 <= PRED_SAMPLE_MAX,
            0 <= p1 <= PRED_SAMPLE_MAX,
    ;
    vstd::arithmetic::div_mod::lemma_fundamental_div_mod(n, 32);
    vstd::arithmetic::div_mod::lemma_mod_bound(n, 32);
    let q = n / 32;
    assert(0 <= p0 + q <= PRED_SAMPLE_MAX) by (nonlinear_arith)
        requires
            n == 32 * q + n % 32,
            0 <= n % 32 < 32,
            0 <= n + 32 * p0 <= 32 * PRED_SAMPLE_MAX + 16,
    ;
}

/// The angular sample `(x, y)` before PDPC (see [`ang_base`]).
#[verifier::rlimit(40)]
fn ang_base_at(
    main: &[i32; 132],
    ms: &Vec<i32>,
    ss: &Vec<i32>,
    pw: usize,
    ph: usize,
    angle: i32,
    inv: i32,
    is_luma: bool,
    cubic: bool,
    max_val: i32,
    x: usize,
    y: usize,
) -> (v: i32)
    requires
        block_dim_ok(pw as int),
        block_dim_ok(ph as int),
        ms.len() == 2 * pw + 1,
        ss.len() == 2 * ph + 1,
        samples_ok(ss@),
        0 <= inv <= 16384,
        -1024 <= angle <= 1024,
        forall|j: int| 0 <= j < 132 ==> main[j] as int == main_entry(ms@, ss@, pw as int, ph as int, angle as int, inv as int, j),
        forall|j: int| 0 <= j < 132 ==> 0 <= #[trigger] main[j] <= PRED_SAMPLE_MAX,
        angle != 0 ==> ang_window_ok(angle as int, pw as int, ph as int),
        0 <= max_val <= PRED_SAMPLE_MAX,
        x < pw,
        y < ph,
    ensures
        v as int == ang_base(ms@, ss@, pw as int, ph as int, angle as int, inv as int, is_luma, cubic, max_val as int, x as int, y as int),
        0 <= v <= PRED_SAMPLE_MAX,
{
    proof {
        lemma_tz_dim(pw as int);
        lemma_tz_dim(ph as int);
        vstd::arithmetic::power2::lemma2_to64();
    }
    let base: i32 = if angle < 0 {
        ph as i32
    } else {
        0
    };
    let xi = x as i32;
    if angle == 0 {
        main[(base + 1 + xi) as usize]
    } else {
        assert(-0x10_0000 <= angle * (y as i32 + 1) <= 0x10_0000) by (nonlinear_arith)
            requires
                -1024 <= angle <= 1024,
                0 <= y < 64,
        ;
        let dp = angle * (y as i32 + 1);
        let di = asr32(dp, 5);
        let df = dp - 32 * di;
        assert(0 <= base + di && base + di + pw + 3 <= 132) by {
            assert(floor_shr(angle * (y + 1), 5) == di);
        }
        let abs_ang = if angle < 0 {
            -angle
        } else {
            angle
        };
        if abs_ang % 32 != 0 {
            if is_luma {
                let f = ang_taps(df, cubic);
                let start = (base + di) as usize;
                let m0 = main[start + x];
                let m1 = main[start + x + 1];
                let m2 = main[start + x + 2];
                let m3 = main[start + x + 3];
                proof {
                    lemma_tap_prod(f[0] as int, m0 as int);
                    lemma_tap_prod(f[1] as int, m1 as int);
                    lemma_tap_prod(f[2] as int, m2 as int);
                    lemma_tap_prod(f[3] as int, m3 as int);
                }
                let acc = f[0] * m0 + f[1] * m1 + f[2] * m2 + f[3] * m3;
                clamp_i32(asr32(acc + 32, 6), 0, max_val)
            } else {
                let start = (base + di + 1) as usize;
                let p0 = main[start + x];
                let p1 = main[start + x + 1];
                assert(-0x20_0000 <= df * (p1 - p0) <= 0x20_0000) by (nonlinear_arith)
                    requires
                        0 <= df < 32,
                        0 <= p0 <= PRED_SAMPLE_MAX,
                        0 <= p1 <= PRED_SAMPLE_MAX,
                ;
                let d = asr32(df * (p1 - p0) + 16, 5);
                proof {
                    lemma_lerp_range(p0 as int, p1 as int, df as int);
                }
                p0 + d
            }
        } else {
            main[(base + di + 1) as usize + x]
        }
    }
}

/// One angular sample `(x, y)` of the `pw × ph` buffer (see [`ang_sample`]).
fn ang_sample_at(
    main: &[i32; 132],
    ms: &Vec<i32>,
    ss: &Vec<i32>,
    pw: usize,
    ph: usize,
    angle: i32,
    inv: i32,
    is_luma: bool,
    p: IntraParams,
    max_val: i32,
    x: usize,
    y: usize,
) -> (v: i32)
    requires
        block_dim_ok(pw as int),
        block_dim_ok(ph as int),
        ms.len() == 2 * pw + 1,
        ss.len() == 2 * ph + 1,
        samples_ok(ss@),
        0 <= inv <= 16384,
        -1024 <= angle <= 1024,
        forall|j: int| 0 <= j < 132 ==> main[j] as int == main_entry(ms@, ss@, pw as int, ph as int, angle as int, inv as int, j),
        forall|j: int| 0 <= j < 132 ==> 0 <= #[trigger] main[j] <= PRED_SAMPLE_MAX,
        angle != 0 ==> ang_window_ok(angle as int, pw as int, ph as int),
        p.apply_pdpc ==> pw >= 4 && ph >= 4,
        p.apply_pdpc && angle != 0 ==> 0 <= p.angular_scale <= 2,
        0 <= max_val <= PRED_SAMPLE_MAX,
        x < pw,
        y < ph,
    ensures
        v as int == ang_sample(ms@, ss@, pw as int, ph as int, angle as int, inv as int, is_luma, p, max_val as int, x as int, y as int),
        0 <= v <= PRED_SAMPLE_MAX,
{
    proof {
        lemma_tz_dim(pw as int);
        lemma_tz_dim(ph as int);
        vstd::arithmetic::power2::lemma2_to64();
    }
    let base: i32 = if angle < 0 {
        ph as i32
    } else {
        0
    };
    let xi = x as i32;
    let v = ang_base_at(main, ms, ss, pw, ph, angle, inv, is_luma, !p.interp, max_val, x, y);
    if !p.apply_pdpc {
        v
    } else if angle == 0 {
        let scale = (trailing_zeros(pw) + trailing_zeros(ph) - 2) / 4;
        let lim = pdpc_limit(scale, pw);
        if x < lim {
            let wl = pdpc_wl(x, scale);
            let left = ss[1 + y];
            let tl = main[base as usize];
            assert(-0x40_0000 <= wl * (left - tl) <= 0x40_0000) by (nonlinear_arith)
                requires
                    0 <= wl <= 32,
                    0 <= left <= PRED_SAMPLE_MAX,
                    0 <= tl <= PRED_SAMPLE_MAX,
            ;
            let d = asr32(wl * (left - tl) + 32, 6);
            proof {
                lemma_floor_shr_bounds((wl * (left - tl) + 32) as int, 6);
            }
            clamp_i32(v + d, 0, max_val)
        } else {
            v
        }
    } else {
        let scale = p.angular_scale as u32;
        let lim = pdpc_limit(scale, pw);
        if x < lim {
            let wl = pdpc_wl(x, scale);
            assert(0 <= (xi + 1) * inv <= 65 * 16384) by (nonlinear_arith)
                requires
                    0 <= xi < 64,
                    0 <= inv <= 16384,
            ;
            let inv_sum = 256 + (xi + 1) * inv;
            let sh = asr32(inv_sum, 9);
            proof {
                lemma_floor_shr_bounds(inv_sum as int, 9);
            }
            let i0 = y + sh as usize + 1;
            let idx = if i0 < ss.len() - 1 {
                i0
            } else {
                ss.len() - 1
            };
            let left = ss[idx];
            assert(-0x40_0000 <= wl * (left - v) <= 0x40_0000) by (nonlinear_arith)
                requires
                    0 <= wl <= 32,
                    0 <= left <= PRED_SAMPLE_MAX,
                    0 <= v <= PRED_SAMPLE_MAX,
            ;
            let d = asr32(wl * (left - v) + 32, 6);
            proof {
                lemma_blend_range(v as int, left as int, left as int, wl as int, 0, 0, PRED_SAMPLE_MAX as int);
                assert(wl * (left - v) + 0 * (left - v) + 32 == wl * (left - v) + 32);
            }
            v + d
        } else {
            v
        }
    }
}


// ---------------------------------------------------------------------------
// Block prediction
// ---------------------------------------------------------------------------
/// The smoothed version of one reference side, as a sequence.
pub open spec fn filt_seq(s: Seq<i32>, corner: int) -> Seq<i32> {
    Seq::new(s.len(), |i: int| filtered_side(s, corner, i) as i32)
}

/// The shared smoothed corner of a reference pair.
pub open spec fn filt_corner(top: Seq<i32>, left: Seq<i32>) -> int {
    filt121(top[1] as int, top[0] as int, left[1] as int)
}

/// Inverse angle of an effective angular mode.
pub open spec fn inv_angle(mode: int) -> int {
    INV_ANG_TABLE[iabs(ang_mode_of(mode))] as int
}

/// The block geometry the predictor handles: power-of-two sides up to 64, an
/// aspect ratio within the wide-angle table and, for angular modes, an
/// effective mode inside the angle tables whose reference window fits the
/// main-reference buffer.
pub open spec fn pred_geometry_ok(mode: int, w: int, h: int) -> bool {
    &&& block_dim_ok(w)
    &&& block_dim_ok(h)
    &&& aspect_ok(w, h)
    &&& mode >= 2 ==> {
        let eff = spec_wide_angle(w, h, mode, 65);
        let is_ver = eff >= DIA_MODE;
        &&& eff_mode_ok(eff)
        &&& ang_window_ok(pred_angle(eff), if is_ver { w } else { h }, if is_ver { h } else { w })
    }
}

/// The predicted sample at column `c`, row `rr` of a `w × h` block for intra
/// mode `mode` from references `top` / `left`, smoothing the references first
/// when the block parameters ask for it.
pub open spec fn pred_value(
    mode: int,
    w: int,
    h: int,
    top: Seq<i32>,
    left: Seq<i32>,
    bd: int,
    is_luma: bool,
    c: int,
    rr: int,
) -> int {
    let eff = spec_wide_angle(w, h, mode, 65);
    let p = spec_intra_params(mode, eff, w, h, is_luma);
    let fc = filt_corner(top, left);
    let t = if p.ref_filter { filt_seq(top, fc) } else { top };
    let l = if p.ref_filter { filt_seq(left, fc) } else { left };
    if mode == PLANAR_IDX {
        let v = planar_sample(t, l, w, h, c, rr);
        if p.apply_pdpc { pdpc_planar_dc(v, t, l, w, h, c, rr) } else { v }
    } else if mode == DC_IDX {
        let v = dc_sample(t, l, w, h);
        if p.apply_pdpc { pdpc_planar_dc(v, t, l, w, h, c, rr) } else { v }
    } else {
        let is_ver = eff >= DIA_MODE;
        let pw = if is_ver { w } else { h };
        let ph = if is_ver { h } else { w };
        let ms = if is_ver { t } else { l };
        let ss = if is_ver { l } else { t };
        let mv = pow2(bd as nat) - 1;
        if is_ver {
            ang_sample(ms, ss, pw, ph, pred_angle(eff), inv_angle(eff), is_luma, p, mv, c, rr)
        } else {
            ang_sample(ms, ss, pw, ph, pred_angle(eff), inv_angle(eff), is_luma, p, mv, rr, c)
        }
    }
}

proof fn lemma_dims_product(w: int, h: int)
    requires
        block_dim_ok(w),
        block_dim_ok(h),
    ensures
        w * h == h * w,
        1 <= w * h <= 4096,
{
    assert(w * h == h * w) by (nonlinear_arith);
    assert(1 <= w * h <= 4096) by (nonlinear_arith)
        requires
            1 <= w <= 64,
            1 <= h <= 64,
    ;
}

proof fn lemma_angle_tables(a: int)
    requires
        0 <= a < 32,
    ensures
        0 <= ANG_TABLE[a] <= 1024,
        0 <= INV_ANG_TABLE[a] <= 16384,
{
    assert(ANG_TABLE@ =~= seq![
        0i32, 1, 2, 3, 4, 6, 8, 10, 12, 14, 16, 18, 20, 23, 26, 29,
        32, 35, 39, 45, 51, 57, 64, 73, 86, 102, 128, 171, 256, 341, 512, 1024,
    ]);
    assert(INV_ANG_TABLE@ =~= seq![
        0i32, 16384, 8192, 5461, 4096, 2731, 2048, 1638, 1365, 1170, 1024, 910, 819, 712, 630, 565,
        512, 468, 420, 364, 321, 287, 256, 224, 191, 161, 128, 96, 64, 48, 32, 16,
    ]);
}

/// Predict into `out` (length `w·h`, raster order) for intra `mode`, with
/// reference smoothing and PDPC as the block parameters select. `scratch`
/// holds the transposed block of horizontal modes. `filtered` may carry the
/// smoothed references, computed once by the caller; `None` smooths on demand.
pub fn predict_into(
    out: &mut [i32],
    scratch: &mut Vec<i32>,
    filtered: Option<&RefSamples>,
    mode: u8,
    w: usize,
    h: usize,
    refs: &RefSamples,
    bit_depth: u8,
    is_luma: bool,
)
    requires
        old(out).len() == w * h,
        pred_geometry_ok(mode as int, w as int, h as int),
        refs_ok(refs, w as int, h as int),
        1 <= bit_depth <= 16,
        filtered matches Some(f) ==> {
            &&& refs_ok(f, w as int, h as int)
            &&& f.top@ == filt_seq(refs.top@, filt_corner(refs.top@, refs.left@))
            &&& f.left@ == filt_seq(refs.left@, filt_corner(refs.top@, refs.left@))
        },
    ensures
        final(out).len() == w * h,
        forall|k: int|
            0 <= k < w * h ==> final(out)[k] as int == pred_value(
                mode as int,
                w as int,
                h as int,
                refs.top@,
                refs.left@,
                bit_depth as int,
                is_luma,
                k % (w as int),
                k / (w as int),
            ),
        forall|k: int| 0 <= k < w * h ==> 0 <= #[trigger] final(out)[k] <= PRED_SAMPLE_MAX,
{
    proof {
        lemma_tz_dim(w as int);
        lemma_tz_dim(h as int);
        vstd::arithmetic::power2::lemma2_to64();
    }
    proof {
        lemma_dims_product(w as int, h as int);
    }
    let eff_mode = wide_angle(w, h, mode as i32);
    let p = intra_params(mode as i32, eff_mode, w, h, is_luma);
    let local: Option<RefSamples> = if p.ref_filter && filtered.is_none() {
        Some(filter_references(refs, w, h))
    } else {
        None
    };
    let r: &RefSamples = if !p.ref_filter {
        refs
    } else {
        match filtered {
            Some(f) => f,
            None => match &local {
                Some(f) => f,
                None => refs,
            },
        }
    };
    let ghost fc = filt_corner(refs.top@, refs.left@);
    let ghost t = if p.ref_filter { filt_seq(refs.top@, fc) } else { refs.top@ };
    let ghost l = if p.ref_filter { filt_seq(refs.left@, fc) } else { refs.left@ };
    assert(r.top@ =~= t);
    assert(r.left@ =~= l);
    assert(refs_ok(r, w as int, h as int));
    let n = w * h;
    if mode == PLANAR_IDX || mode == DC_IDX {
        let dc = if mode == DC_IDX {
            dc_at(r, w, h)
        } else {
            0
        };
        let mut k: usize = 0;
        while k < n
            invariant
                n == w * h,
                w * h == h * w,
                out.len() == n,
                k <= n,
                block_dim_ok(w as int),
                block_dim_ok(h as int),
                refs_ok(r, w as int, h as int),
                r.top@ == t,
                r.left@ == l,
                mode == PLANAR_IDX || mode == DC_IDX,
                p == spec_intra_params(mode as int, eff_mode as int, w as int, h as int, is_luma),
                eff_mode == spec_wide_angle(w as int, h as int, mode as int, 65),
                mode == DC_IDX ==> dc as int == dc_sample(t, l, w as int, h as int),
                0 <= dc <= PRED_SAMPLE_MAX,
                t == (if p.ref_filter { filt_seq(refs.top@, fc) } else { refs.top@ }),
                l == (if p.ref_filter { filt_seq(refs.left@, fc) } else { refs.left@ }),
                fc == filt_corner(refs.top@, refs.left@),
                forall|j: int|
                    0 <= j < k ==> out[j] as int == pred_value(
                        mode as int,
                        w as int,
                        h as int,
                        refs.top@,
                        refs.left@,
                        bit_depth as int,
                        is_luma,
                        j % (w as int),
                        j / (w as int),
                    ),
                forall|j: int| 0 <= j < k ==> 0 <= #[trigger] out[j] <= PRED_SAMPLE_MAX,
            decreases n - k,
        {
            let x = k % w;
            let y = k / w;
            proof {
                vstd::arithmetic::div_mod::lemma_div_pos_is_pos(k as int, w as int);
                assert(y < h) by {
                    lemma_div_below(k as int, w as int, h as int);
                }
            }
            let v = if mode == PLANAR_IDX {
                planar_at(r, w, h, x, y)
            } else {
                dc
            };
            let o = if p.apply_pdpc {
                pdpc_planar_dc_at(v, r, w, h, x, y)
            } else {
                v
            };
            out[k] = o;
            k += 1;
        }
    } else {
        let is_mode_ver = eff_mode >= DIA_MODE;
        let ang_mode = if is_mode_ver {
            eff_mode - VER_MODE
        } else {
            -(eff_mode - HOR_MODE)
        };
        let a: usize = if ang_mode < 0 {
            (-ang_mode) as usize
        } else {
            ang_mode as usize
        };
        proof {
            lemma_angle_tables(a as int);
        }
        let angle = if ang_mode < 0 {
            -ANG_TABLE[a]
        } else {
            ANG_TABLE[a]
        };
        let inv = INV_ANG_TABLE[a];
        let (pw, ph) = if is_mode_ver {
            (w, h)
        } else {
            (h, w)
        };
        let ms = if is_mode_ver {
            &r.top
        } else {
            &r.left
        };
        let ss = if is_mode_ver {
            &r.left
        } else {
            &r.top
        };
        proof {
            if bit_depth < 16 {
                vstd::arithmetic::power2::lemma_pow2_strictly_increases(bit_depth as nat, 16);
            }
            vstd::bits::lemma_u32_shl_is_mul(1, bit_depth as u32);
        }
        let max_val = ((1u32 << (bit_depth as u32)) - 1) as i32;
        let main = build_main(ms, ss, pw, ph, angle, inv);
        if is_mode_ver {
            let mut k: usize = 0;
            while k < n
                invariant
                    n == w * h,
                    w * h == h * w,
                    out.len() == n,
                    k <= n,
                    is_mode_ver,
                    pw == w,
                    ph == h,
                    block_dim_ok(w as int),
                    block_dim_ok(h as int),
                    ms.len() == 2 * pw + 1,
                    ss.len() == 2 * ph + 1,
                    samples_ok(ss@),
                    0 <= inv <= 16384,
                    -1024 <= angle <= 1024,
                    forall|j: int| 0 <= j < 132 ==> main[j] as int == main_entry(ms@, ss@, pw as int, ph as int, angle as int, inv as int, j),
                    forall|j: int| 0 <= j < 132 ==> 0 <= #[trigger] main[j] <= PRED_SAMPLE_MAX,
                    angle != 0 ==> ang_window_ok(angle as int, pw as int, ph as int),
                    p.apply_pdpc ==> pw >= 4 && ph >= 4,
                    p.apply_pdpc && angle != 0 ==> 0 <= p.angular_scale <= 2,
                    0 <= max_val <= PRED_SAMPLE_MAX,
                    forall|j: int|
                        0 <= j < k ==> out[j] as int == ang_sample(ms@, ss@, pw as int, ph as int, angle as int, inv as int, is_luma, p, max_val as int, j % (w as int), j / (w as int)),
                    forall|j: int| 0 <= j < k ==> 0 <= #[trigger] out[j] <= PRED_SAMPLE_MAX,
                decreases n - k,
            {
                let x = k % w;
                let y = k / w;
                proof {
                    lemma_div_below(k as int, w as int, h as int);
                }
                out[k] = ang_sample_at(&main, ms, ss, pw, ph, angle, inv, is_luma, p, max_val, x, y);
                k += 1;
            }
        } else {
            scratch.clear();
            let m = pw * ph;
            let mut k: usize = 0;
            while k < m
                invariant
                    m == pw * ph,
                    pw * ph == ph * pw,
                    scratch.len() == k,
                    k <= m,
                    pw == h,
                    ph == w,
                    block_dim_ok(w as int),
                    block_dim_ok(h as int),
                    ms.len() == 2 * pw + 1,
                    ss.len() == 2 * ph + 1,
                    samples_ok(ss@),
                    0 <= inv <= 16384,
                    -1024 <= angle <= 1024,
                    forall|j: int| 0 <= j < 132 ==> main[j] as int == main_entry(ms@, ss@, pw as int, ph as int, angle as int, inv as int, j),
                    forall|j: int| 0 <= j < 132 ==> 0 <= #[trigger] main[j] <= PRED_SAMPLE_MAX,
                    angle != 0 ==> ang_window_ok(angle as int, pw as int, ph as int),
                    p.apply_pdpc ==> pw >= 4 && ph >= 4,
                    p.apply_pdpc && angle != 0 ==> 0 <= p.angular_scale <= 2,
                    0 <= max_val <= PRED_SAMPLE_MAX,
                    forall|j: int|
                        0 <= j < k ==> scratch[j] as int == ang_sample(ms@, ss@, pw as int, ph as int, angle as int, inv as int, is_luma, p, max_val as int, j % (pw as int), j / (pw as int)),
                    forall|j: int| 0 <= j < k ==> 0 <= #[trigger] scratch[j] <= PRED_SAMPLE_MAX,
                decreases m - k,
            {
                let x = k % pw;
                let y = k / pw;
                proof {
                    lemma_div_below(k as int, pw as int, ph as int);
                }
                let v = ang_sample_at(&main, ms, ss, pw, ph, angle, inv, is_luma, p, max_val, x, y);
                scratch.push(v);
                k += 1;
            }
            let mut k: usize = 0;
            while k < n
                invariant
                    n == w * h,
                    w * h == h * w,
                    m == pw * ph,
                    out.len() == n,
                    scratch.len() == m,
                    k <= n,
                    pw == h,
                    ph == w,
                    block_dim_ok(w as int),
                    block_dim_ok(h as int),
                    forall|j: int|
                        0 <= j < m ==> scratch[j] as int == ang_sample(ms@, ss@, pw as int, ph as int, angle as int, inv as int, is_luma, p, max_val as int, j % (pw as int), j / (pw as int)),
                    forall|j: int| 0 <= j < m ==> 0 <= #[trigger] scratch[j] <= PRED_SAMPLE_MAX,
                    forall|j: int|
                        0 <= j < k ==> out[j] as int == ang_sample(ms@, ss@, pw as int, ph as int, angle as int, inv as int, is_luma, p, max_val as int, j / (w as int), j % (w as int)),
                    forall|j: int| 0 <= j < k ==> 0 <= #[trigger] out[j] <= PRED_SAMPLE_MAX,
                decreases n - k,
            {
                let cx = k % w;
                let ry = k / w;
                proof {
                    lemma_div_below(k as int, w as int, h as int);
                    assert(cx * pw + ry < pw * ph) by (nonlinear_arith)
                        requires
                            cx < ph,
                            ry < pw,
                    ;
                    vstd::arithmetic::div_mod::lemma_fundamental_div_mod_converse(
                        (cx * pw + ry) as int,
                        pw as int,
                        cx as int,
                        ry as int,
                    );
                }
                out[k] = scratch[cx * pw + ry];
                k += 1;
            }
        }
        proof {
            assert(forall|j: int| 0 <= j < n ==> out[j] as int == pred_value(
                mode as int,
                w as int,
                h as int,
                refs.top@,
                refs.left@,
                bit_depth as int,
                is_luma,
                j % (w as int),
                j / (w as int),
            ));
        }
    }
}

/// Predict a `w × h` block (raster order) for intra `mode`.
pub fn predict(mode: u8, w: usize, h: usize, refs: &RefSamples, bit_depth: u8, is_luma: bool) -> (r: Vec<i32>)
    requires
        pred_geometry_ok(mode as int, w as int, h as int),
        refs_ok(refs, w as int, h as int),
        1 <= bit_depth <= 16,
    ensures
        r.len() == w * h,
        forall|k: int|
            0 <= k < w * h ==> r[k] as int == pred_value(
                mode as int,
                w as int,
                h as int,
                refs.top@,
                refs.left@,
                bit_depth as int,
                is_luma,
                k % (w as int),
                k / (w as int),
            ),
        forall|k: int| 0 <= k < w * h ==> 0 <= #[trigger] r[k] <= PRED_SAMPLE_MAX,
{
    proof {
        lemma_tz_dim(w as int);
        lemma_tz_dim(h as int);
    }
    proof {
        lemma_dims_product(w as int, h as int);
    }
    let mut out = vec![0i32; w * h];
    let mut scratch: Vec<i32> = Vec::new();
    predict_into(out.as_mut_slice(), &mut scratch, None, mode, w, h, refs, bit_depth, is_luma);
    out
}

// ---------------------------------------------------------------------------
// Pixel range
// ---------------------------------------------------------------------------
/// Every sample of `s` lies in `[0, m]`.
pub open spec fn samples_in(s: Seq<i32>, m: int) -> bool {
    forall|i: int| 0 <= i < s.len() ==> 0 <= #[trigger] s[i] <= m
}

/// `[1 2 1]` smoothing stays within `[0, m]`.
proof fn lemma_filt121_in(a: int, b: int, c: int, m: int)
    requires
        0 <= a <= m,
        0 <= b <= m,
        0 <= c <= m,
    ensures
        0 <= filt121(a, b, c) <= m,
{
    vstd::arithmetic::power2::lemma2_to64();
    lemma_div_below(a + 2 * b + c + 2, 4, m + 1);
}

/// Smoothed references stay within `[0, m]`.
proof fn lemma_filt_seq_in(s: Seq<i32>, corner: int, m: int)
    requires
        samples_in(s, m),
        0 <= corner <= m < 0x8000_0000,
        s.len() >= 2,
    ensures
        filt_seq(s, corner).len() == s.len(),
        samples_in(filt_seq(s, corner), m),
{
    assert forall|i: int| 0 <= i < s.len() implies 0 <= #[trigger] filt_seq(s, corner)[i] <= m by {
        if 0 < i < s.len() - 1 {
            lemma_filt121_in(s[i - 1] as int, s[i] as int, s[i + 1] as int, m);
        }
    }
}

/// Planar prediction stays within the range of its references.
proof fn lemma_planar_in(top: Seq<i32>, left: Seq<i32>, w: int, h: int, x: int, y: int, m: int)
    requires
        block_dim_ok(w),
        block_dim_ok(h),
        top.len() == 2 * w + 1,
        left.len() == 2 * h + 1,
        samples_in(top, m),
        samples_in(left, m),
        0 <= x < w,
        0 <= y < h,
    ensures
        0 <= planar_sample(top, left, w, h, x, y) <= m,
{
    lemma_tz_dim(w);
    lemma_tz_dim(h);
    let tr = top[1 + w] as int;
    let bl = left[1 + h] as int;
    let l = left[1 + y] as int;
    let t = top[1 + x] as int;
    let hor = l * w + (x + 1) * (tr - l);
    let ver = t * h + (y + 1) * (bl - t);
    assert(0 <= hor <= m * w) by (nonlinear_arith)
        requires
            hor == l * w + (x + 1) * (tr - l),
            0 <= l <= m,
            0 <= tr <= m,
            0 <= x < w,
    {
        assert(hor == l * (w - x - 1) + (x + 1) * tr);
    }
    assert(0 <= ver <= m * h) by (nonlinear_arith)
        requires
            ver == t * h + (y + 1) * (bl - t),
            0 <= t <= m,
            0 <= bl <= m,
            0 <= y < h,
    {
        assert(ver == t * (h - y - 1) + (y + 1) * bl);
    }
    assert(0 <= hor * h <= m * w * h) by (nonlinear_arith)
        requires
            0 <= hor <= m * w,
            1 <= h,
    ;
    assert(0 <= ver * w <= m * w * h) by (nonlinear_arith)
        requires
            0 <= ver <= m * h,
            1 <= w,
    ;
    let lw = log2_dim(w) as nat;
    let lh = log2_dim(h) as nat;
    let k = (1 + log2_dim(w) + log2_dim(h)) as nat;
    vstd::arithmetic::power2::lemma_pow2_adds(lw, lh);
    vstd::arithmetic::power2::lemma_pow2_unfold(k);
    assert(k == lw + lh + 1);
    let d = pow2(k) as int;
    assert(d == 2 * (w * h));
    let n = hor * h + ver * w + w * h;
    assert(0 <= n < (m + 1) * d) by (nonlinear_arith)
        requires
            n == hor * h + ver * w + w * h,
            0 <= hor * h <= m * w * h,
            0 <= ver * w <= m * w * h,
            d == 2 * (w * h),
            w * h >= 1,
    ;
    lemma_div_below(n, d, m + 1);
}

/// A sum of `n` references in `[0, m]` is at most `m·n`.
proof fn lemma_ref_sum_in(s: Seq<i32>, n: int, m: int)
    requires
        0 <= n < s.len(),
        samples_in(s, m),
    ensures
        0 <= ref_sum(s, n) <= m * n,
    decreases n,
{
    if n > 0 {
        lemma_ref_sum_in(s, n - 1, m);
        assert(m * (n - 1) + m == m * n) by (nonlinear_arith);
    }
}

/// DC prediction stays within the range of its references.
proof fn lemma_dc_in(top: Seq<i32>, left: Seq<i32>, w: int, h: int, m: int)
    requires
        block_dim_ok(w),
        block_dim_ok(h),
        top.len() == 2 * w + 1,
        left.len() == 2 * h + 1,
        samples_in(top, m),
        samples_in(left, m),
    ensures
        0 <= dc_sample(top, left, w, h) <= m,
{
    let d = dc_denom(w, h);
    assert(block_dim_ok(d) || d == 128);
    reveal_with_fuel(spec_tz, 9);
    vstd::arithmetic::power2::lemma2_to64();
    assert(pow2(spec_tz(d as nat)) == d);
    lemma_ref_sum_in(top, w, m);
    lemma_ref_sum_in(left, h, m);
    let sum = (if w >= h { ref_sum(top, w) } else { 0 }) + (if w <= h { ref_sum(left, h) } else { 0 });
    assert(0 <= sum <= m * d);
    lemma_div_below(sum + d / 2, d, m + 1);
}

/// `32 >> e` for any `e ≥ 0` lies in `[0, 32]`.
proof fn lemma_weight_in(e: nat)
    ensures
        0 <= floor_shr(32, e) <= 32,
{
    vstd::arithmetic::power2::lemma_pow2_pos(e);
    vstd::arithmetic::div_mod::lemma_div_is_ordered_by_denominator(32, 1, pow2(e) as int);
}

/// A non-negative value shifted right stays non-negative.
proof fn lemma_shr_nonneg(x: int, s: nat)
    requires
        0 <= x,
    ensures
        0 <= floor_shr(x, s),
{
    vstd::arithmetic::power2::lemma_pow2_pos(s);
}

/// PDPC of planar and DC stays within the range of its inputs.
proof fn lemma_pdpc_planar_dc_in(v: int, top: Seq<i32>, left: Seq<i32>, w: int, h: int, x: int, y: int, m: int)
    requires
        0 <= v <= m,
        top.len() == 2 * w + 1,
        left.len() == 2 * h + 1,
        samples_in(top, m),
        samples_in(left, m),
        0 <= x < w,
        0 <= y < h,
    ensures
        0 <= pdpc_planar_dc(v, top, left, w, h, x, y) <= m,
{
    let scale = floor_shr(log2_dim(w) + log2_dim(h) - 2, 2);
    lemma_shr_nonneg(2 * x, scale as nat);
    lemma_shr_nonneg(2 * y, scale as nat);
    let ex = floor_shr(2 * x, scale as nat);
    let ey = floor_shr(2 * y, scale as nat);
    lemma_weight_in((if ex < 31 { ex } else { 31 }) as nat);
    lemma_weight_in((if ey < 31 { ey } else { 31 }) as nat);
    lemma_blend_range(
        v,
        left[y + 1] as int,
        top[x + 1] as int,
        pdpc_weight(x, scale as nat),
        pdpc_weight(y, scale as nat),
        0,
        m,
    );
}

/// Entries of the main reference lie in the range of the references.
proof fn lemma_ang_ref_in(ms: Seq<i32>, ss: Seq<i32>, pw: int, ph: int, angle: int, inv: int, j: int, m: int)
    requires
        1 <= pw,
        1 <= ph,
        ms.len() == 2 * pw + 1,
        ss.len() == 2 * ph + 1,
        samples_in(ms, m),
        samples_in(ss, m),
        0 <= inv,
        0 <= m,
    ensures
        0 <= ang_ref(ms, ss, pw, ph, angle, inv, j) <= m,
{
    let base = if angle < 0 { ph } else { 0 };
    let b = base + j;
    if angle < 0 && 0 <= b < ph {
        assert(0 <= (ph - b) * inv) by (nonlinear_arith)
            requires
                b < ph,
                0 <= inv,
        ;
        lemma_shr_nonneg((ph - b) * inv + 256, 9);
    }
}

/// Linear interpolation between two samples of `[0, m]` stays in `[0, m]`.
proof fn lemma_lerp_in(p0: int, p1: int, df: int, m: int)
    requires
        0 <= df < 32,
        0 <= p0 <= m,
        0 <= p1 <= m,
    ensures
        0 <= p0 + floor_shr(df * (p1 - p0) + 16, 5) <= m,
{
    vstd::arithmetic::power2::lemma2_to64();
    let n = df * (p1 - p0) + 16;
    assert(0 <= n + 32 * p0 <= 32 * m + 16) by (nonlinear_arith)
        requires
            n == df * (p1 - p0) + 16,
            0 <= df < 32,
            0 <= p0 <= m,
            0 <= p1 <= m,
    ;
    vstd::arithmetic::div_mod::lemma_fundamental_div_mod(n, 32);
    vstd::arithmetic::div_mod::lemma_mod_bound(n, 32);
    let q = n / 32;
    assert(0 <= p0 + q <= m) by (nonlinear_arith)
        requires
            n == 32 * q + n % 32,
            0 <= n % 32 < 32,
            0 <= n + 32 * p0 <= 32 * m + 16,
    ;
}

/// The angular sample before PDPC stays within the range of the references.
proof fn lemma_ang_base_in(
    ms: Seq<i32>,
    ss: Seq<i32>,
    pw: int,
    ph: int,
    angle: int,
    inv: int,
    is_luma: bool,
    cubic: bool,
    m: int,
    x: int,
    y: int,
)
    requires
        1 <= pw,
        1 <= ph,
        ms.len() == 2 * pw + 1,
        ss.len() == 2 * ph + 1,
        samples_in(ms, m),
        samples_in(ss, m),
        0 <= inv,
        0 <= m,
    ensures
        0 <= ang_base(ms, ss, pw, ph, angle, inv, is_luma, cubic, m, x, y) <= m,
{
    vstd::arithmetic::power2::lemma2_to64();
    if angle == 0 {
        lemma_ang_ref_in(ms, ss, pw, ph, angle, inv, 1 + x, m);
    } else {
        let dp = angle * (y + 1);
        let di = floor_shr(dp, 5);
        let df = dp - 32 * di;
        vstd::arithmetic::div_mod::lemma_fundamental_div_mod(dp, 32);
        vstd::arithmetic::div_mod::lemma_mod_bound(dp, 32);
        assert(0 <= df < 32);
        lemma_ang_ref_in(ms, ss, pw, ph, angle, inv, di + 1 + x, m);
        lemma_ang_ref_in(ms, ss, pw, ph, angle, inv, di + 2 + x, m);
        if iabs(angle) % 32 != 0 && !is_luma {
            lemma_lerp_in(
                ang_ref(ms, ss, pw, ph, angle, inv, di + 1 + x),
                ang_ref(ms, ss, pw, ph, angle, inv, di + 2 + x),
                df,
                m,
            );
        }
    }
}

/// The angular sample stays within the range of the references.
proof fn lemma_ang_sample_in(
    ms: Seq<i32>,
    ss: Seq<i32>,
    pw: int,
    ph: int,
    angle: int,
    inv: int,
    is_luma: bool,
    p: IntraParams,
    m: int,
    x: int,
    y: int,
)
    requires
        1 <= pw,
        1 <= ph,
        ms.len() == 2 * pw + 1,
        ss.len() == 2 * ph + 1,
        samples_in(ms, m),
        samples_in(ss, m),
        0 <= inv,
        0 <= m,
        0 <= x,
        0 <= y,
    ensures
        0 <= ang_sample(ms, ss, pw, ph, angle, inv, is_luma, p, m, x, y) <= m,
{
    lemma_ang_base_in(ms, ss, pw, ph, angle, inv, is_luma, !p.interp, m, x, y);
    let v = ang_base(ms, ss, pw, ph, angle, inv, is_luma, !p.interp, m, x, y);
    if p.apply_pdpc && angle != 0 {
        let scale = p.angular_scale as int;
        lemma_shr_nonneg(2 * x, scale as nat);
        let e = floor_shr(2 * x, scale as nat);
        lemma_weight_in(e as nat);
        let wl = floor_shr(32, e as nat);
        assert(0 <= (x + 1) * inv) by (nonlinear_arith)
            requires
                0 <= x,
                0 <= inv,
        ;
        lemma_shr_nonneg(256 + (x + 1) * inv, 9);
        let i0 = y + floor_shr(256 + (x + 1) * inv, 9) + 1;
        let idx = if i0 < ss.len() - 1 { i0 } else { ss.len() - 1 };
        assert(0 <= idx < ss.len());
        let q = ss[idx] as int;
        lemma_blend_range(v, q, v, wl, 0, 0, m);
        assert(wl * (q - v) + 0 * (v - v) + 32 == wl * (q - v) + 32);
    }
}

/// The predicted samples of references within `[0, 2^bd − 1]` lie within
/// `[0, 2^bd − 1]`: every prediction mode keeps the pixel range.
pub proof fn lemma_pred_in_pixel_range(
    mode: int,
    w: int,
    h: int,
    top: Seq<i32>,
    left: Seq<i32>,
    bd: int,
    is_luma: bool,
    c: int,
    r: int,
)
    requires
        0 <= mode,
        pred_geometry_ok(mode, w, h),
        top.len() == 2 * w + 1,
        left.len() == 2 * h + 1,
        1 <= bd <= 16,
        samples_in(top, pow2(bd as nat) - 1),
        samples_in(left, pow2(bd as nat) - 1),
        0 <= c < w,
        0 <= r < h,
    ensures
        0 <= pred_value(mode, w, h, top, left, bd, is_luma, c, r) <= pow2(bd as nat) - 1,
{
    let m = pow2(bd as nat) - 1;
    vstd::arithmetic::power2::lemma2_to64();
    vstd::arithmetic::power2::lemma_pow2_pos(bd as nat);
    vstd::arithmetic::power2::lemma_pow2_strictly_increases(bd as nat, 17);
    let eff = spec_wide_angle(w, h, mode, 65);
    let p = spec_intra_params(mode, eff, w, h, is_luma);
    let fc = filt_corner(top, left);
    lemma_filt121_in(top[1] as int, top[0] as int, left[1] as int, m);
    lemma_filt_seq_in(top, fc, m);
    lemma_filt_seq_in(left, fc, m);
    let t = if p.ref_filter { filt_seq(top, fc) } else { top };
    let l = if p.ref_filter { filt_seq(left, fc) } else { left };
    assert(t.len() == 2 * w + 1 && samples_in(t, m));
    assert(l.len() == 2 * h + 1 && samples_in(l, m));
    if mode == PLANAR_IDX {
        lemma_planar_in(t, l, w, h, c, r, m);
        if p.apply_pdpc {
            lemma_pdpc_planar_dc_in(planar_sample(t, l, w, h, c, r), t, l, w, h, c, r, m);
        }
    } else if mode == DC_IDX {
        lemma_dc_in(t, l, w, h, m);
        if p.apply_pdpc {
            lemma_pdpc_planar_dc_in(dc_sample(t, l, w, h), t, l, w, h, c, r, m);
        }
    } else {
        let is_ver = eff >= DIA_MODE;
        let a = iabs(ang_mode_of(eff));
        assert(eff_mode_ok(eff));
        assert(0 <= a < 32);
        lemma_angle_tables(a);
        if is_ver {
            lemma_ang_sample_in(t, l, w, h, pred_angle(eff), inv_angle(eff), is_luma, p, m, c, r);
        } else {
            lemma_ang_sample_in(l, t, h, w, pred_angle(eff), inv_angle(eff), is_luma, p, m, r, c);
        }
    }
}

/// The intra interpolation filters (H.266 Table 25, `fC`): every phase's
/// four taps sum to 64, and phase `32 − f` is phase `f` mirrored.
pub proof fn lemma_cubic_filter_phases()
    ensures
        forall|f: int| 0 <= f < 32 ==> #[trigger] CUBIC_FILTER[f][0] + CUBIC_FILTER[f][1] + CUBIC_FILTER[f][2] + CUBIC_FILTER[f][3] == 64,
        forall|f: int, j: int| 1 <= f < 32 && 0 <= j < 4 ==> #[trigger] CUBIC_FILTER[32 - f][j] == CUBIC_FILTER[f][3 - j],
{
    assert forall|f: int| 0 <= f < 32 implies #[trigger] CUBIC_FILTER[f][0] + CUBIC_FILTER[f][1] + CUBIC_FILTER[f][2] + CUBIC_FILTER[f][3] == 64 by {
        if f == 0 {} else if f == 1 {} else if f == 2 {} else if f == 3 {} else if f == 4 {} else if f == 5 {}
        else if f == 6 {} else if f == 7 {} else if f == 8 {} else if f == 9 {} else if f == 10 {} else if f == 11 {}
        else if f == 12 {} else if f == 13 {} else if f == 14 {} else if f == 15 {} else if f == 16 {} else if f == 17 {}
        else if f == 18 {} else if f == 19 {} else if f == 20 {} else if f == 21 {} else if f == 22 {} else if f == 23 {}
        else if f == 24 {} else if f == 25 {} else if f == 26 {} else if f == 27 {} else if f == 28 {} else if f == 29 {}
        else if f == 30 {} else if f == 31 {}
    }
    assert forall|f: int, j: int| 1 <= f < 32 && 0 <= j < 4 implies #[trigger] CUBIC_FILTER[32 - f][j] == CUBIC_FILTER[f][3 - j] by {
        if f == 0 {} else if f == 1 {} else if f == 2 {} else if f == 3 {} else if f == 4 {} else if f == 5 {}
        else if f == 6 {} else if f == 7 {} else if f == 8 {} else if f == 9 {} else if f == 10 {} else if f == 11 {}
        else if f == 12 {} else if f == 13 {} else if f == 14 {} else if f == 15 {} else if f == 16 {} else if f == 17 {}
        else if f == 18 {} else if f == 19 {} else if f == 20 {} else if f == 21 {} else if f == 22 {} else if f == 23 {}
        else if f == 24 {} else if f == 25 {} else if f == 26 {} else if f == 27 {} else if f == 28 {} else if f == 29 {}
        else if f == 30 {} else if f == 31 {}
    }
}

/// The inverse angles are `512 · 32 / angle` rounded to the nearest
/// integer, for every non-zero angle.
pub proof fn lemma_inv_angles()
    ensures
        forall|i: int| 1 <= i < 32 ==> 2 * #[trigger] (INV_ANG_TABLE[i] * ANG_TABLE[i] - 16384) <= ANG_TABLE[i]
            && -(ANG_TABLE[i] as int) <= 2 * (INV_ANG_TABLE[i] * ANG_TABLE[i] - 16384),
{
    assert forall|i: int| 1 <= i < 32 implies 2 * #[trigger] (INV_ANG_TABLE[i] * ANG_TABLE[i] - 16384) <= ANG_TABLE[i]
        && -(ANG_TABLE[i] as int) <= 2 * (INV_ANG_TABLE[i] * ANG_TABLE[i] - 16384) by {
        if i == 0 {} else if i == 1 {} else if i == 2 {} else if i == 3 {} else if i == 4 {} else if i == 5 {}
        else if i == 6 {} else if i == 7 {} else if i == 8 {} else if i == 9 {} else if i == 10 {} else if i == 11 {}
        else if i == 12 {} else if i == 13 {} else if i == 14 {} else if i == 15 {} else if i == 16 {} else if i == 17 {}
        else if i == 18 {} else if i == 19 {} else if i == 20 {} else if i == 21 {} else if i == 22 {} else if i == 23 {}
        else if i == 24 {} else if i == 25 {} else if i == 26 {} else if i == 27 {} else if i == 28 {} else if i == 29 {}
        else if i == 30 {} else if i == 31 {}
    }
}

/// The smoothing interpolation filter's four taps sum to 64 at every
/// fractional position.
pub proof fn lemma_smooth_taps(df: int)
    requires
        0 <= df < 32,
    ensures
        smooth_tap(df, 0) + smooth_tap(df, 1) + smooth_tap(df, 2) + smooth_tap(df, 3) == 64,
        smooth_tap(0, 0) == 16 && smooth_tap(0, 1) == 32 && smooth_tap(0, 2) == 16 && smooth_tap(0, 3) == 0,
{
}

proof fn lemma_ref_sum_const(s: Seq<i32>, n: int, v: int)
    requires
        0 <= n < s.len(),
        forall|i: int| 1 <= i <= n ==> s[i] as int == v,
    ensures
        ref_sum(s, n) == n * v,
    decreases n,
{
    if n > 0 {
        lemma_ref_sum_const(s, n - 1, v);
        assert(s[n] as int == v);
        assert((n - 1) * v + v == n * v) by (nonlinear_arith);
    } else {
        assert(0 * v == 0);
    }
}

/// Planar prediction reproduces a flat neighbourhood: with every reference
/// sample equal to `v`, every predicted sample is `v`.
pub proof fn lemma_planar_flat(top: Seq<i32>, left: Seq<i32>, w: int, h: int, x: int, y: int, v: int)
    requires
        block_dim_ok(w),
        block_dim_ok(h),
        0 <= x < w,
        0 <= y < h,
        top.len() > 1 + w,
        left.len() > 1 + h,
        forall|i: int| 0 <= i < top.len() ==> top[i] as int == v,
        forall|i: int| 0 <= i < left.len() ==> left[i] as int == v,
    ensures
        planar_sample(top, left, w, h, x, y) == v,
{
    lemma_tz_dim(w);
    lemma_tz_dim(h);
    let lw: nat = log2_dim(w) as nat;
    let lh: nat = log2_dim(h) as nat;
    vstd::arithmetic::power2::lemma_pow2_adds(lw, lh);
    vstd::arithmetic::power2::lemma_pow2_unfold(1 + lw + lh);
    assert(1 + lw + lh - 1 == lw + lh);
    let wh: int = w * h;
    assert(pow2(1 + lw + lh) == 2 * wh);
    assert(top[1 + w] as int == v && left[1 + h] as int == v && left[1 + y] as int == v && top[1 + x] as int == v);
    assert((x + 1) * (v - v) == 0 && (y + 1) * (v - v) == 0);
    let num: int = (v * w) * h + (v * h) * w + w * h;
    assert(num == (2 * wh) * v + wh) by (nonlinear_arith)
        requires
            wh == w * h,
            num == (v * w) * h + (v * h) * w + w * h,
    ;
    assert(wh > 0) by (nonlinear_arith)
        requires
            wh == w * h,
            w > 0,
            h > 0,
    ;
    vstd::arithmetic::div_mod::lemma_fundamental_div_mod_converse(num, 2 * wh, v, wh);
    assert((1 + log2_dim(w) + log2_dim(h)) as nat == 1 + lw + lh);
    assert(planar_sample(top, left, w, h, x, y) == floor_shr(num, 1 + lw + lh));
}

/// DC prediction reproduces a flat neighbourhood: with every reference
/// sample equal to `v`, the predicted value is `v`.
pub proof fn lemma_dc_flat(top: Seq<i32>, left: Seq<i32>, w: int, h: int, v: int)
    requires
        block_dim_ok(w),
        block_dim_ok(h),
        top.len() > w,
        left.len() > h,
        forall|i: int| 1 <= i <= w ==> top[i] as int == v,
        forall|i: int| 1 <= i <= h ==> left[i] as int == v,
    ensures
        dc_sample(top, left, w, h) == v,
{
    lemma_tz_dim(w);
    lemma_tz_dim(h);
    lemma_ref_sum_const(top, w, v);
    lemma_ref_sum_const(left, h, v);
    let d: int = dc_denom(w, h);
    if w == h {
        assert(spec_tz((2 * w) as nat) == 1 + spec_tz(w as nat)) by {
            assert(((2 * w) as nat) % 2 == 0);
            assert(((2 * w) as nat) / 2 == w as nat);
        }
        vstd::arithmetic::power2::lemma_pow2_unfold(1 + spec_tz(w as nat));
        assert(w * v + h * v == d * v) by (nonlinear_arith)
            requires
                w == h,
                d == 2 * w,
        ;
    }
    assert(pow2(spec_tz(d as nat)) == d);
    vstd::arithmetic::div_mod::lemma_fundamental_div_mod_converse(d * v + d / 2, d, v, d / 2);
}

} // verus!
