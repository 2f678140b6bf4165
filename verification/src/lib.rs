//! A small VVC/H.266 intra still-image encoder core: bitstream writing, CABAC,
//! intra prediction, transforms, quantization and residual coding.
use vstd::prelude::*;

pub mod arith;
pub mod bitstream;
pub mod cabac;
pub mod cclm;
pub mod color;
pub mod deblock;
pub mod depquant;
pub mod error;
pub mod fmt;
pub mod intra;
pub mod lfnst;
pub mod metadata;
pub mod ppm;
pub mod predict;
pub mod residual;
pub mod transform;
pub mod tu;
pub mod yuv;

verus! {
} // verus!
