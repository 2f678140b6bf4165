//! Sample formats: bit depth and chroma subsampling.
use vstd::prelude::*;

verus! {

/// Sample bit depth.
#[derive(Clone, Copy, Debug, PartialEq, Eq, Structural)]
pub enum BitDepth {
    Eight,
    Ten,
    Twelve,
}

/// Number of bits of a bit depth.
pub open spec fn spec_bits(d: BitDepth) -> u8 {
    match d {
        BitDepth::Eight => 8,
        BitDepth::Ten => 10,
        BitDepth::Twelve => 12,
    }
}

impl BitDepth {
    /// Bits per sample.
    pub fn bits(self) -> (r: u8)
        ensures
            r == spec_bits(self),
    {
        match self {
            BitDepth::Eight => 8,
            BitDepth::Ten => 10,
            BitDepth::Twelve => 12,
        }
    }

    /// Largest sample value, `2^bits - 1`.
    pub fn max_val(self) -> (r: u16)
        ensures
            r as int == vstd::arithmetic::power2::pow2(spec_bits(self) as nat) - 1,
    {
        proof {
            vstd::arithmetic::power2::lemma2_to64();
        }
        match self {
            BitDepth::Eight => 255,
            BitDepth::Ten => 1023,
            BitDepth::Twelve => 4095,
        }
    }
}

/// Chroma subsampling format.
#[derive(Clone, Copy, Debug, PartialEq, Eq, Structural)]
pub enum ChromaFormat {
    /// 4:0:0, luma only.
    Monochrome,
    /// 4:2:0, chroma halved in both directions.
    Yuv420,
    /// 4:2:2, chroma halved horizontally.
    Yuv422,
    /// 4:4:4, no subsampling.
    Yuv444,
}

/// Horizontal chroma subsampling factor.
pub open spec fn spec_sub_w(c: ChromaFormat) -> usize {
    match c {
        ChromaFormat::Yuv420 | ChromaFormat::Yuv422 => 2,
        _ => 1,
    }
}

/// Vertical chroma subsampling factor.
pub open spec fn spec_sub_h(c: ChromaFormat) -> usize {
    match c {
        ChromaFormat::Yuv420 => 2,
        _ => 1,
    }
}

impl ChromaFormat {
    /// True for 4:0:0.
    pub fn is_monochrome(self) -> (r: bool)
        ensures
            r == (self == ChromaFormat::Monochrome),
    {
        match self {
            ChromaFormat::Monochrome => true,
            _ => false,
        }
    }

    /// Horizontal subsampling factor (1 or 2).
    pub fn sub_w(self) -> (r: usize)
        ensures
            r == spec_sub_w(self),
    {
        match self {
            ChromaFormat::Yuv420 | ChromaFormat::Yuv422 => 2,
            _ => 1,
        }
    }

    /// Vertical subsampling factor (1 or 2).
    pub fn sub_h(self) -> (r: usize)
        ensures
            r == spec_sub_h(self),
    {
        match self {
            ChromaFormat::Yuv420 => 2,
            _ => 1,
        }
    }
}

} // verus!
