//! The VVC separable integer transforms (DCT-II, and the DST-VII / DCT-VIII
//! pairs of multiple transform selection), scalar and dependent
//! (de)quantization, transform-skip (de)quantization and the Hadamard SATD.
//!
//! A transform is two passes of integer matrix products with rounding shifts
//! (H.266 §8.7.4): the forward shifts are `log2(w) + bitDepth - 9` then
//! `log2(h) + 6`, the inverse shifts `7` (with a 16-bit clip) then
//! `20 - bitDepth`. Only the top-left `kept(w) × kept(h)` coefficients survive
//! (high-frequency zero-out).
pub mod basis;
pub mod forward;
pub mod inverse;
pub mod quant;
pub mod satd;
pub mod tables;

pub use basis::MAX_TB;
pub use forward::{
    fwd_mts_pass1_into, fwd_mts_pass2_into, fwd_transform, fwd_transform_into, fwd_transform_mts_into,
    fwd_transform_wh, fwd_transform_wh_into,
};
pub use inverse::{
    inv_transform, inv_transform_into, inv_transform_mts_into, inv_transform_mts_wh, inv_transform_wh,
    inv_transform_wh_into, mts_to_types,
};
pub use quant::{
    dequantize, dequantize_dq_wh, dequantize_dq_wh_into, dequantize_into, dequantize_ts, dequantize_ts_wh,
    dequantize_wh, dequantize_wh_into, quantize, quantize_ts, quantize_ts_wh, quantize_wh, DEQUANT_SCALE,
};
pub use satd::satd;
