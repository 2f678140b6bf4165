//! Reading binary (`P6`) and ASCII (`P3`) PPM images into 8-bit RGB.
//!
//! The header is four whitespace-separated tokens (magic, width, height,
//! maxval); `#` starts a comment that runs to the end of the line. Samples
//! are rescaled from `0..=maxval` to `0..=255`; 16-bit files (maxval above
//! 255) and every other magic are refused.
use vstd::prelude::*;

verus! {

/// A decoded 8-bit RGB image, three bytes per pixel in raster order.
pub struct PpmImage {
    pub rgb: Vec<u8>,
    pub width: u32,
    pub height: u32,
}

/// The input is not a PPM image this reader accepts.
#[derive(Clone, Copy, Debug, PartialEq, Eq)]
pub struct PpmError;

/// ASCII whitespace as `u8::is_ascii_whitespace` has it: space, tab, line
/// feed, form feed, carriage return.
pub open spec fn is_ws(b: u8) -> bool {
    b == 32 || b == 9 || b == 10 || b == 12 || b == 13
}

/// The position reached from `p` after skipping whitespace and comments
/// (`in_comment`: inside a comment, which ends after its line feed).
pub open spec fn skip_from(d: Seq<u8>, p: int, in_comment: bool) -> int
    decreases d.len() - p,
{
    if p >= d.len() {
        p
    } else if in_comment {
        skip_from(d, p + 1, d[p] != 10)
    } else if d[p] == 35 {
        skip_from(d, p + 1, true)
    } else if is_ws(d[p]) {
        skip_from(d, p + 1, false)
    } else {
        p
    }
}

/// The end of the token starting at `p`: the first whitespace, `#` or the
/// end of the input.
pub open spec fn token_end(d: Seq<u8>, p: int) -> int
    decreases d.len() - p,
{
    if p >= d.len() || is_ws(d[p]) || d[p] == 35 {
        p
    } else {
        token_end(d, p + 1)
    }
}

/// Every byte of `d[s..e]` is a decimal digit.
pub open spec fn all_digits(d: Seq<u8>, s: int, e: int) -> bool {
    forall|i: int| s <= i < e ==> 48 <= #[trigger] d[i] <= 57
}

/// The decimal value of the digits `d[s..e]`.
pub open spec fn digits_val(d: Seq<u8>, s: int, e: int) -> int
    decreases e - s,
{
    if e <= s {
        0
    } else {
        digits_val(d, s, e - 1) * 10 + (d[e - 1] - 48)
    }
}

/// The token `d[s..e]` read as a `u32` the way `str::parse` reads one: an
/// optional `+`, then at least one digit, and a value that fits.
pub open spec fn parse_uint(d: Seq<u8>, s: int, e: int) -> Option<u32> {
    let s2 = if e - s >= 2 && d[s] == 43 {
        s + 1
    } else {
        s
    };
    if s2 < e && all_digits(d, s2, e) && digits_val(d, s2, e) <= u32::MAX {
        Some(digits_val(d, s2, e) as u32)
    } else {
        None
    }
}

/// The next header integer after `p` and the position after its token.
pub open spec fn uint_at(d: Seq<u8>, p: int) -> Option<(u32, int)> {
    let s = skip_from(d, p, false);
    let e = token_end(d, s);
    match parse_uint(d, s, e) {
        Some(v) => Some((v, e)),
        None => None,
    }
}

/// The first `k` integers of an ASCII body starting at `p`, and the position
/// after the last.
pub open spec fn ascii_vals(d: Seq<u8>, p: int, k: nat) -> Option<(Seq<u32>, int)>
    decreases k,
{
    if k == 0 {
        Some((Seq::empty(), p))
    } else {
        match ascii_vals(d, p, (k - 1) as nat) {
            Some((vs, q)) => match uint_at(d, q) {
                Some((v, q2)) => Some((vs.push(v), q2)),
                None => None,
            },
            None => None,
        }
    }
}

/// A sample of `0..=maxval` rescaled to `0..=255`, rounding to nearest;
/// values above `maxval` count as `maxval`.
pub open spec fn scale_spec(v: int, maxval: int) -> int {
    if maxval == 255 {
        if v < 255 {
            v
        } else {
            255
        }
    } else {
        let c = if v < maxval {
            v
        } else {
            maxval
        };
        (c * 255 + maxval / 2) / maxval
    }
}

/// The pixel data after the header, whose maxval token ends at `e3`: for
/// `P6` one whitespace byte then `3·w·h` bytes, for `P3` `3·w·h` integers.
pub open spec fn ppm_body(d: Seq<u8>, ascii: bool, e3: int, w: u32, h: u32, mv: u32) -> Option<(Seq<u8>, u32, u32)> {
    let n = w * h * 3;
    if w == 0 || h == 0 || mv == 0 || mv > 255 || n > d.len() {
        None
    } else if !ascii {
        if e3 < d.len() && is_ws(d[e3]) && e3 + 1 + n <= d.len() {
            Some((Seq::new(n as nat, |i: int| scale_spec(d[e3 + 1 + i] as int, mv as int) as u8), w, h))
        } else {
            None
        }
    } else {
        match ascii_vals(d, e3, n as nat) {
            Some((vs, q)) => Some((Seq::new(n as nat, |i: int| scale_spec(vs[i] as int, mv as int) as u8), w, h)),
            None => None,
        }
    }
}

/// The image a PPM file holds: RGB bytes, width and height, or `None` when
/// the file is not an 8-bit `P6`/`P3` PPM with non-zero dimensions and
/// enough samples.
pub open spec fn spec_ppm(d: Seq<u8>) -> Option<(Seq<u8>, u32, u32)> {
    let s = skip_from(d, 0, false);
    let e = token_end(d, s);
    if !(e >= s && e - s == 2 && d[s] == 80 && (d[s + 1] == 54 || d[s + 1] == 51)) {
        None
    } else {
        match uint_at(d, e) {
            Some((w, e1)) => match uint_at(d, e1) {
                Some((h, e2)) => match uint_at(d, e2) {
                    Some((mv, e3)) => ppm_body(d, d[s + 1] == 51, e3, w, h, mv),
                    None => None,
                },
                None => None,
            },
            None => None,
        }
    }
}

fn is_ws_byte(b: u8) -> (r: bool)
    ensures
        r == is_ws(b),
{
    b == 32 || b == 9 || b == 10 || b == 12 || b == 13
}

fn skip_blank(d: &[u8], p: usize) -> (r: usize)
    requires
        p <= d.len(),
    ensures
        r == skip_from(d@, p as int, false),
        p <= r <= d.len(),
{
    let mut pos = p;
    let mut inc = false;
    while pos < d.len() && (inc || d[pos] == 35 || is_ws_byte(d[pos]))
        invariant
            p <= pos <= d.len(),
            skip_from(d@, pos as int, inc) == skip_from(d@, p as int, false),
        decreases d.len() - pos,
    {
        let b = d[pos];
        if inc {
            inc = b != 10;
        } else if b == 35 {
            inc = true;
        }
        pos += 1;
    }
    pos
}

fn scan_token(d: &[u8], s: usize) -> (r: usize)
    requires
        s <= d.len(),
    ensures
        r == token_end(d@, s as int),
        s <= r <= d.len(),
{
    let mut q = s;
    while q < d.len() && !is_ws_byte(d[q]) && d[q] != 35
        invariant
            s <= q <= d.len(),
            token_end(d@, q as int) == token_end(d@, s as int),
        decreases d.len() - q,
    {
        q += 1;
    }
    q
}

proof fn lemma_digits_nonneg(d: Seq<u8>, s: int, e: int)
    requires
        all_digits(d, s, e),
    ensures
        digits_val(d, s, e) >= 0,
    decreases e - s,
{
    if e > s {
        lemma_digits_nonneg(d, s, e - 1);
    }
}

proof fn lemma_digits_mono(d: Seq<u8>, s: int, i: int, e: int)
    requires
        s <= i <= e,
        all_digits(d, s, e),
    ensures
        digits_val(d, s, i) <= digits_val(d, s, e),
    decreases e - i,
{
    if i < e {
        lemma_digits_mono(d, s, i, e - 1);
        lemma_digits_nonneg(d, s, e - 1);
    }
}

fn read_token_uint(d: &[u8], s: usize, e: usize) -> (r: Option<u32>)
    requires
        s <= e <= d.len(),
    ensures
        r == parse_uint(d@, s as int, e as int),
{
    let mut i = s;
    if e - s >= 2 && d[s] == 43 {
        i = s + 1;
    }
    if i >= e {
        return None;
    }
    let s2 = i;
    let mut v: u64 = 0;
    while i < e
        invariant
            s2 <= i <= e <= d.len(),
            s2 == (if e - s >= 2 && d@[s as int] == 43 { s + 1 } else { s as int }),
            all_digits(d@, s2 as int, i as int),
            v == digits_val(d@, s2 as int, i as int),
            v <= u32::MAX,
        decreases e - i,
    {
        let c = d[i];
        if c < 48 || c > 57 {
            return None;
        }
        v = v * 10 + (c - 48) as u64;
        if v > 0xFFFF_FFFF {
            proof {
                if all_digits(d@, s2 as int, e as int) {
                    lemma_digits_mono(d@, s2 as int, (i + 1) as int, e as int);
                }
            }
            return None;
        }
        i += 1;
    }
    Some(v as u32)
}

fn read_uint(d: &[u8], p: usize) -> (r: Option<(u32, usize)>)
    requires
        p <= d.len(),
    ensures
        match r {
            Some((v, q)) => uint_at(d@, p as int) == Some((v, q as int)) && q <= d.len(),
            None => uint_at(d@, p as int) is None,
        },
{
    let s = skip_blank(d, p);
    let e = scan_token(d, s);
    match read_token_uint(d, s, e) {
        Some(v) => Some((v, e)),
        None => None,
    }
}

/// A sample of `0..=maxval` rescaled to `0..=255` (values above `maxval`
/// count as `maxval`).
pub fn scale_to_u8(v: u32, maxval: u32) -> (r: u8)
    requires
        maxval > 0,
        maxval * 255 + maxval / 2 <= u32::MAX,
    ensures
        r == scale_spec(v as int, maxval as int),
{
    if maxval == 255 {
        if v < 255 {
            v as u8
        } else {
            255
        }
    } else {
        let c = if v < maxval {
            v
        } else {
            maxval
        };
        let num = c * 255 + maxval / 2;
        proof {
            assert(c * 255 <= maxval * 255) by (nonlinear_arith)
                requires
                    c <= maxval,
            ;
            assert((num as int) / (maxval as int) < 256) by (nonlinear_arith)
                requires
                    num < 256 * maxval,
                    maxval > 0,
                    num >= 0,
            ;
        }
        (num / maxval) as u8
    }
}

proof fn lemma_ascii_vals_none(d: Seq<u8>, p: int, k: nat, n: nat)
    requires
        k <= n,
        ascii_vals(d, p, k) is None,
    ensures
        ascii_vals(d, p, n) is None,
    decreases n,
{
    if n > k {
        lemma_ascii_vals_none(d, p, k, (n - 1) as nat);
    }
}

/// Read a PPM file: a `P6` (binary) or `P3` (ASCII) image with maxval at
/// most 255, rescaled to 8 bits. Anything else is refused.
pub fn read_ppm(data: &[u8]) -> (r: Result<PpmImage, PpmError>)
    ensures
        r is Ok <==> spec_ppm(data@) is Some,
        r matches Ok(img) ==> spec_ppm(data@) == Some((img.rgb@, img.width, img.height)),
{
    let d = data;
    let s = skip_blank(d, 0);
    let e = scan_token(d, s);
    if !(e >= s && e - s == 2 && d[s] == 80 && (d[s + 1] == 54 || d[s + 1] == 51)) {
        return Err(PpmError);
    }
    let ascii = d[s + 1] == 51;
    let (w, e1) = match read_uint(d, e) {
        Some(t) => t,
        None => return Err(PpmError),
    };
    let (h, e2) = match read_uint(d, e1) {
        Some(t) => t,
        None => return Err(PpmError),
    };
    let (mv, e3) = match read_uint(d, e2) {
        Some(t) => t,
        None => return Err(PpmError),
    };
    if w == 0 || h == 0 || mv == 0 || mv > 255 {
        return Err(PpmError);
    }
    proof {
        assert((w as u64) * (h as u64) <= u64::MAX) by (nonlinear_arith)
            requires
                w <= u32::MAX,
                h <= u32::MAX,
        ;
    }
    let wh = w as u64 * h as u64;
    if wh > (d.len() / 3) as u64 {
        return Err(PpmError);
    }
    let n = (wh * 3) as usize;
    assert(spec_ppm(d@) == ppm_body(d@, ascii, e3 as int, w, h, mv));
    let mut rgb: Vec<u8> = Vec::new();
    if !ascii {
        if !(e3 < d.len() && is_ws_byte(d[e3]) && n <= d.len() - e3 - 1) {
            return Err(PpmError);
        }
        let base = e3 + 1;
        let mut i: usize = 0;
        while i < n
            invariant
                i <= n,
                base + n <= d.len(),
                0 < mv <= 255,
                rgb.len() == i,
                forall|k: int| 0 <= k < i ==> rgb@[k] == scale_spec(d@[base + k] as int, mv as int) as u8,
            decreases n - i,
        {
            let x = scale_to_u8(d[base + i] as u32, mv);
            rgb.push(x);
            i += 1;
        }
        assert(rgb@ =~= Seq::new(n as nat, |k: int| scale_spec(d@[e3 + 1 + k] as int, mv as int) as u8));
    } else {
        let mut pos = e3;
        let mut i: usize = 0;
        let ghost mut vs: Seq<u32> = Seq::empty();
        while i < n
            invariant
                i <= n,
                pos <= d.len(),
                0 < mv <= 255,
                rgb.len() == i,
                vs.len() == i,
                ascii_vals(d@, e3 as int, i as nat) == Some((vs, pos as int)),
                n == w * h * 3,
                n <= d.len(),
                ascii,
                w > 0 && h > 0,
                d@ == data@,
                spec_ppm(d@) == ppm_body(d@, ascii, e3 as int, w, h, mv),
                forall|k: int| 0 <= k < i ==> rgb@[k] == scale_spec(vs[k] as int, mv as int) as u8,
            decreases n - i,
        {
            match read_uint(d, pos) {
                Some((v, q)) => {
                    let x = scale_to_u8(v, mv);
                    rgb.push(x);
                    proof {
                        vs = vs.push(v);
                    }
                    pos = q;
                },
                None => {
                    proof {
                        assert(((i + 1) as nat - 1) as nat == i as nat);
                        assert(ascii_vals(d@, e3 as int, (i + 1) as nat) is None);
                        lemma_ascii_vals_none(d@, e3 as int, (i + 1) as nat, n as nat);
                    }
                    return Err(PpmError);
                },
            }
            i += 1;
        }
        assert(rgb@ =~= Seq::new(n as nat, |k: int| scale_spec(vs[k] as int, mv as int) as u8));
    }
    Ok(PpmImage { rgb, width: w, height: h })
}

} // verus!
