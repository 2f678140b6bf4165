//! Planar YUV input: (possibly strided) luma and chroma planes with an
//! optional alpha plane, and their packing into the tight `Y‖Cb‖Cr` layout.
use vstd::prelude::*;
use crate::error::EncodeError;
use crate::fmt::{spec_sub_h, spec_sub_w, ChromaFormat};

verus! {

/// A planar image borrowed from the caller.
#[derive(Clone, Copy, Debug)]
pub struct Yuv<'a, T> {
    /// Luma plane, `y_stride` samples per row, at least `height` rows.
    pub y: &'a [T],
    /// Samples per luma row (at least `width`).
    pub y_stride: u32,
    /// Cb plane at chroma resolution (`uv_stride` samples per row).
    pub u: &'a [T],
    /// Cr plane at chroma resolution (`uv_stride` samples per row).
    pub v: &'a [T],
    /// Samples per chroma row (at least `⌈width/sub_w⌉`); 0 for monochrome.
    pub uv_stride: u32,
    /// Optional alpha plane at full `width × height` resolution.
    pub alpha: Option<&'a [T]>,
    /// Samples per alpha row (at least `width`); unused without alpha.
    pub alpha_stride: u32,
    /// Display width in luma samples.
    pub width: u32,
    /// Display height in luma samples.
    pub height: u32,
    /// Chroma subsampling format.
    pub chroma: ChromaFormat,
}

/// `⌈a / b⌉`.
pub open spec fn ceil_div(a: int, b: int) -> int {
    (a + b - 1) / b
}

/// Chroma plane dimensions of a `width × height` image, `(0, 0)` for
/// monochrome.
pub open spec fn spec_chroma_dims(width: int, height: int, chroma: ChromaFormat) -> (int, int) {
    if chroma is Monochrome {
        (0, 0)
    } else {
        (ceil_div(width, spec_sub_w(chroma) as int), ceil_div(height, spec_sub_h(chroma) as int))
    }
}

/// A plane of `len` samples holds `rows` rows of `cols` samples `stride`
/// apart (trivially when there is nothing to hold).
pub open spec fn plane_fits(len: int, stride: int, cols: int, rows: int) -> bool {
    rows == 0 || cols == 0 || (stride >= cols && len >= (rows - 1) * stride + cols)
}

/// Every row start (and its `cols` samples) lies inside the plane.
pub open spec fn plane_readable(len: int, stride: int, cols: int, rows: int) -> bool {
    rows == 0 || (rows - 1) * stride + cols <= len
}

/// The `rows × cols` samples of a strided plane, row after row.
pub open spec fn tight<T>(p: Seq<T>, stride: int, cols: int, rows: int) -> Seq<T>
    decreases rows,
{
    if rows <= 0 {
        Seq::empty()
    } else {
        tight(p, stride, cols, rows - 1) + p.subrange((rows - 1) * stride, (rows - 1) * stride + cols)
    }
}

impl<'a, T> Yuv<'a, T> {
    /// Chroma dimensions of this image.
    pub open spec fn spec_dims(&self) -> (int, int) {
        spec_chroma_dims(self.width as int, self.height as int, self.chroma)
    }

    /// The colour planes hold what their strides and dimensions ask for.
    pub open spec fn color_fits(&self) -> bool {
        &&& plane_fits(self.y@.len() as int, self.y_stride as int, self.width as int, self.height as int)
        &&& (!(self.chroma is Monochrome) ==> {
            let (cw, ch) = self.spec_dims();
            &&& plane_fits(self.u@.len() as int, self.uv_stride as int, cw, ch)
            &&& plane_fits(self.v@.len() as int, self.uv_stride as int, cw, ch)
        })
    }

    /// A zero-width image reads no sample past its planes' ends.
    pub open spec fn zero_width_ok(&self) -> bool {
        self.width == 0 ==> {
            &&& plane_readable(self.y@.len() as int, self.y_stride as int, 0, self.height as int)
            &&& (!(self.chroma is Monochrome) ==> {
                let (cw, ch) = self.spec_dims();
                &&& plane_readable(self.u@.len() as int, self.uv_stride as int, cw, ch)
                &&& plane_readable(self.v@.len() as int, self.uv_stride as int, cw, ch)
            })
        }
    }

    /// The tight `Y‖Cb‖Cr` samples (just `Y` for monochrome).
    pub open spec fn packed_color(&self) -> Seq<T> {
        let (cw, ch) = self.spec_dims();
        tight(self.y@, self.y_stride as int, self.width as int, self.height as int) + if self.chroma is Monochrome {
            Seq::empty()
        } else {
            tight(self.u@, self.uv_stride as int, cw, ch) + tight(self.v@, self.uv_stride as int, cw, ch)
        }
    }

    /// Build from three tightly packed planes (luma stride `width`, chroma
    /// stride `⌈width/sub_w⌉`, 0 for monochrome), without alpha.
    pub fn new(y: &'a [T], u: &'a [T], v: &'a [T], width: u32, height: u32, chroma: ChromaFormat) -> (r: Self)
        ensures
            r.y@ == y@,
            r.u@ == u@,
            r.v@ == v@,
            r.y_stride == width,
            r.uv_stride == (if chroma is Monochrome {
                0
            } else {
                ceil_div(width as int, spec_sub_w(chroma) as int)
            }),
            r.alpha is None,
            r.alpha_stride == 0,
            r.width == width,
            r.height == height,
            r.chroma == chroma,
    {
        let uv_stride: u32 = if chroma.is_monochrome() {
            0
        } else {
            div_ceil(width as usize, chroma.sub_w()) as u32
        };
        Yuv {
            y,
            y_stride: width,
            u,
            v,
            uv_stride,
            alpha: None,
            alpha_stride: 0,
            width,
            height,
            chroma,
        }
    }

    /// A monochrome (4:0:0) image from its luma plane.
    pub fn mono(y: &'a [T], width: u32, height: u32) -> (r: Self)
        ensures
            r.y@ == y@,
            r.u@.len() == 0,
            r.v@.len() == 0,
            r.y_stride == width,
            r.uv_stride == 0,
            r.alpha is None,
            r.alpha_stride == 0,
            r.width == width,
            r.height == height,
            r.chroma is Monochrome,
    {
        Self::new(y, &[], &[], width, height, ChromaFormat::Monochrome)
    }

    /// Override the luma and chroma strides (samples per row).
    pub fn with_strides(self, y_stride: u32, uv_stride: u32) -> (r: Self)
        ensures
            r == (Yuv { y_stride, uv_stride, ..self }),
    {
        Yuv { y_stride, uv_stride, ..self }
    }

    /// Attach a tightly packed (stride `width`) alpha plane.
    pub fn with_alpha(self, alpha: &'a [T]) -> (r: Self)
        ensures
            r == (Yuv { alpha: Some(alpha), alpha_stride: self.width, ..self }),
    {
        let w = self.width;
        Yuv { alpha: Some(alpha), alpha_stride: w, ..self }
    }

    /// Attach an alpha plane with an explicit stride (samples per row).
    pub fn with_alpha_strided(self, alpha: &'a [T], stride: u32) -> (r: Self)
        ensures
            r == (Yuv { alpha: Some(alpha), alpha_stride: stride, ..self }),
    {
        Yuv { alpha: Some(alpha), alpha_stride: stride, ..self }
    }

    /// Chroma plane dimensions `(⌈width/sub_w⌉, ⌈height/sub_h⌉)`, or `(0, 0)`
    /// for monochrome.
    pub fn chroma_dims(&self) -> (r: (usize, usize))
        ensures
            (r.0 as int, r.1 as int) == self.spec_dims(),
    {
        if self.chroma.is_monochrome() {
            (0, 0)
        } else {
            (div_ceil(self.width as usize, self.chroma.sub_w()), div_ceil(self.height as usize, self.chroma.sub_h()))
        }
    }
}

/// `⌈a / b⌉` without overflow.
fn div_ceil(a: usize, b: usize) -> (r: usize)
    requires
        b > 0,
    ensures
        r == ceil_div(a as int, b as int),
        r <= a,
{
    let q = a / b;
    let m = a % b;
    proof {
        vstd::arithmetic::div_mod::lemma_fundamental_div_mod(a as int, b as int);
        assert((q + 1) * b == q * b + b) by (nonlinear_arith);
        assert(b * q == q * b) by (nonlinear_arith);
        assert(q <= q * b) by (nonlinear_arith)
            requires
                b >= 1,
                q >= 0,
        ;
    }
    if m != 0 {
        proof {
            vstd::arithmetic::div_mod::lemma_fundamental_div_mod_converse(a + b - 1, b as int, q + 1, m - 1);
        }
        q + 1
    } else {
        proof {
            vstd::arithmetic::div_mod::lemma_fundamental_div_mod_converse(a + b - 1, b as int, q as int, b - 1);
        }
        q
    }
}

/// The message of the error for a plane that does not fit its stride and
/// dimensions.
pub const PLANE_TOO_SMALL: &'static str = "a YUV/alpha plane is too small for its stride and dimensions";

/// A plane must be wide enough for its stride and long enough for its rows.
fn check_plane<T>(p: &[T], stride: usize, cols: usize, rows: usize) -> (r: Result<(), EncodeError>)
    ensures
        r is Ok <==> plane_fits(p@.len() as int, stride as int, cols as int, rows as int),
        r matches Err(e) ==> e == EncodeError::Unsupported(PLANE_TOO_SMALL),
{
    if rows == 0 || cols == 0 {
        return Ok(());
    }
    let plen = p.len();
    match (rows - 1).checked_mul(stride) {
        None => Err(EncodeError::Unsupported(PLANE_TOO_SMALL)),
        Some(m) => match m.checked_add(cols) {
            None => Err(EncodeError::Unsupported(PLANE_TOO_SMALL)),
            Some(n) => {
                if stride < cols || plen < n {
                    Err(EncodeError::Unsupported(PLANE_TOO_SMALL))
                } else {
                    Ok(())
                }
            },
        },
    }
}

/// One more row of a strided plane extends its tight samples by that row.
proof fn lemma_tight_step<T>(p: Seq<T>, stride: int, cols: int, r: int)
    requires
        0 <= r,
    ensures
        tight(p, stride, cols, r + 1) == tight(p, stride, cols, r) + p.subrange(r * stride, r * stride + cols),
{
}

/// Append the `rows × cols` samples of a strided plane to `out`.
fn tighten<T: Copy>(out: &mut Vec<T>, p: &[T], stride: usize, cols: usize, rows: usize)
    requires
        plane_readable(p@.len() as int, stride as int, cols as int, rows as int),
    ensures
        final(out)@ == old(out)@ + tight(p@, stride as int, cols as int, rows as int),
{
    let plen = p.len();
    let mut r: usize = 0;
    while r < rows
        invariant
            r <= rows,
            plen == p@.len(),
            plane_readable(p@.len() as int, stride as int, cols as int, rows as int),
            out@ == old(out)@ + tight(p@, stride as int, cols as int, r as int),
        decreases rows - r,
    {
        proof {
            assert(r * stride <= (rows - 1) * stride) by (nonlinear_arith)
                requires
                    r <= rows - 1,
            ;
        }
        let start = r * stride;
        let ghost pre = out@;
        let mut c: usize = 0;
        while c < cols
            invariant
                c <= cols,
                plen == p@.len(),
                start + cols <= p@.len(),
                out@ == pre + p@.subrange(start as int, start + c),
            decreases cols - c,
        {
            out.push(p[start + c]);
            proof {
                assert(p@.subrange(start as int, start + c + 1) =~= p@.subrange(start as int, start + c).push(
                    p@[start + c],
                ));
                assert(out@ =~= pre + p@.subrange(start as int, start + c + 1));
            }
            c += 1;
        }
        proof {
            lemma_tight_step(p@, stride as int, cols as int, r as int);
            assert(out@ =~= old(out)@ + tight(p@, stride as int, cols as int, r + 1));
        }
        r += 1;
    }
}

/// The tight samples of a strided plane hold sample `(i, j)` (row `i`,
/// column `j`) of the plane at `i·cols + j`, and nothing else.
pub proof fn lemma_tight_layout<T>(p: Seq<T>, stride: int, cols: int, rows: int)
    requires
        0 <= stride,
        0 <= cols,
        0 <= rows,
        plane_readable(p.len() as int, stride, cols, rows),
    ensures
        tight(p, stride, cols, rows).len() == rows * cols,
        forall|i: int, j: int|
            0 <= i < rows && 0 <= j < cols ==> #[trigger] tight(p, stride, cols, rows)[i * cols + j] == p[i * stride + j],
    decreases rows,
{
    if rows > 0 {
        assert((rows - 2) * stride <= (rows - 1) * stride) by (nonlinear_arith)
            requires
                0 <= stride,
        ;
        lemma_tight_layout(p, stride, cols, rows - 1);
        assert((rows - 1) * cols + cols == rows * cols) by (nonlinear_arith);
        let t = tight(p, stride, cols, rows - 1);
        let s = p.subrange((rows - 1) * stride, (rows - 1) * stride + cols);
        assert forall|i: int, j: int| 0 <= i < rows && 0 <= j < cols implies #[trigger] tight(
            p,
            stride,
            cols,
            rows,
        )[i * cols + j] == p[i * stride + j] by {
            if i < rows - 1 {
                assert(i * cols + j < (rows - 1) * cols) by (nonlinear_arith)
                    requires
                        0 <= i < rows - 1,
                        0 <= j < cols,
                ;
                assert(0 <= i * cols + j) by (nonlinear_arith)
                    requires
                        0 <= i,
                        0 <= j,
                        0 <= cols,
                ;
                assert(tight(p, stride, cols, rows)[i * cols + j] == t[i * cols + j]);
            } else {
                assert(i * cols + j - (rows - 1) * cols == j);
                assert(tight(p, stride, cols, rows)[i * cols + j] == s[j]);
            }
        }
    }
}

impl<'a, T: Copy> Yuv<'a, T> {
    /// Pack the colour planes into one tight `Y‖Cb‖Cr` buffer at display
    /// resolution (just `Y` for monochrome); an error when a plane is too
    /// small for its stride and dimensions.
    pub fn pack_color(&self) -> (r: Result<Vec<T>, EncodeError>)
        requires
            self.zero_width_ok(),
        ensures
            r is Ok <==> self.color_fits(),
            r matches Ok(v) ==> v@ == self.packed_color(),
            r matches Err(e) ==> e == EncodeError::Unsupported(PLANE_TOO_SMALL),
    {
        let w = self.width as usize;
        let h = self.height as usize;
        let (dcw, dch) = self.chroma_dims();
        let ys = self.y_stride as usize;
        match check_plane(self.y, ys, w, h) {
            Err(e) => {
                return Err(e);
            },
            Ok(()) => {},
        }
        let mut out: Vec<T> = Vec::new();
        tighten(&mut out, self.y, ys, w, h);
        if !self.chroma.is_monochrome() {
            let cs = self.uv_stride as usize;
            match check_plane(self.u, cs, dcw, dch) {
                Err(e) => {
                    return Err(e);
                },
                Ok(()) => {},
            }
            match check_plane(self.v, cs, dcw, dch) {
                Err(e) => {
                    return Err(e);
                },
                Ok(()) => {},
            }
            tighten(&mut out, self.u, cs, dcw, dch);
            tighten(&mut out, self.v, cs, dcw, dch);
            proof {
                let ty = tight(self.y@, ys as int, w as int, h as int);
                let tu = tight(self.u@, cs as int, dcw as int, dch as int);
                let tv = tight(self.v@, cs as int, dcw as int, dch as int);
                assert(ty + tu + tv =~= ty + (tu + tv));
            }
        } else {
            proof {
                let ty = tight(self.y@, ys as int, w as int, h as int);
                assert(ty + Seq::<T>::empty() =~= ty);
            }
        }
        Ok(out)
    }

    /// Pack the alpha plane (full resolution, `alpha_stride` apart) into a
    /// tight buffer; an error when it is too small.
    pub fn pack_alpha(&self, alpha: &[T]) -> (r: Result<Vec<T>, EncodeError>)
        requires
            self.width == 0 ==> plane_readable(alpha@.len() as int, self.alpha_stride as int, 0, self.height as int),
        ensures
            r is Ok <==> plane_fits(alpha@.len() as int, self.alpha_stride as int, self.width as int, self.height as int),
            r matches Ok(v) ==> v@ == tight(alpha@, self.alpha_stride as int, self.width as int, self.height as int),
            r matches Err(e) ==> e == EncodeError::Unsupported(PLANE_TOO_SMALL),
    {
        let w = self.width as usize;
        let h = self.height as usize;
        let st = self.alpha_stride as usize;
        match check_plane(alpha, st, w, h) {
            Err(e) => {
                return Err(e);
            },
            Ok(()) => {},
        }
        let mut out: Vec<T> = Vec::new();
        tighten(&mut out, alpha, st, w, h);
        proof {
            assert(Seq::<T>::empty() + tight(alpha@, st as int, w as int, h as int) =~= tight(
                alpha@,
                st as int,
                w as int,
                h as int,
            ));
        }
        Ok(out)
    }
}

} // verus!
