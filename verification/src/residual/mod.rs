//! Residual coding of transform coefficient levels: the diagonal coefficient
//! scans, the context selection of the significance / greater-than / parity
//! flags, the Golomb-Rice remainder binarization, and the block coder and
//! decoder built on the CABAC engine.
pub mod scan;
pub mod ctx;
pub mod rem;
pub mod code;
pub mod decode;
pub mod query;
pub mod ts;

pub use code::encode_residual;
pub use ctx::{last_group_idx, Component};
pub use decode::decode_residual;
pub use query::{last_sig_scan_pos, lfnst_present, mts_signallable};
pub use rem::{dec_bits, decode_rem_abs_ep, encode_rem_abs_ep};
pub use scan::{diag_scan, scan_coords};
pub use ts::{
    dec_derive_mod_coeff, decode_residual_ts, derive_mod_coeff, encode_residual_ts, gt1_ctx_offset_ts, rice_param_ts,
    sig_ctx_offset_ts, sign_ctx_offset_ts, ts_dequant_lossless, LOSSLESS_QP,
};
