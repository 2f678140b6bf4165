//! Encoder error type.
use vstd::prelude::*;
use crate::fmt::{BitDepth, spec_bits};

verus! {

/// Errors returned by the encoder.
#[derive(Clone, Debug, PartialEq, Eq)]
pub enum EncodeError {
    /// Image width or height was 0 or exceeded the supported maximum.
    InvalidDimensions { width: u32, height: u32 },
    /// `quality` was outside the valid 1..=100 range.
    InvalidQuality(u8),
    /// The supplied pixel buffer length did not match `width * height * channels`.
    BufferSize { expected: usize, found: usize },
    /// A sample exceeded the maximum value permitted by the configured bit depth.
    SampleOutOfRange { value: u16, depth: BitDepth },
    /// A requested feature is recognised but not yet implemented in this build.
    Unsupported(&'static str),
    /// A bitstream could not be decoded (malformed or unsupported structure).
    Decode(&'static str),
}

/// The decimal digit character of `d` (`0 <= d < 10`).
pub open spec fn digit_char(d: nat) -> char {
    (48 + d) as char
}

/// The decimal text of `n`, as `Display` writes an unsigned integer: its
/// digits, most significant first, with no leading zeros.
pub open spec fn dec_text(n: nat) -> Seq<char>
    decreases n,
{
    if n < 10 {
        seq![digit_char(n)]
    } else {
        dec_text(n / 10).push(digit_char(n % 10))
    }
}

/// `format!` of the dimensions message: the text with both integers in
/// decimal.
#[verifier::external_body]
fn dims_text(width: u32, height: u32) -> (r: String)
    ensures
        r@ == "invalid image dimensions: "@ + dec_text(width as nat) + "x"@ + dec_text(height as nat),
{
    format!("invalid image dimensions: {width}x{height}")
}

/// `format!` of the quality message, the quality in decimal.
#[verifier::external_body]
fn quality_text(q: u8) -> (r: String)
    ensures
        r@ == "quality "@ + dec_text(q as nat) + " out of range (expected 1..=100)"@,
{
    format!("quality {q} out of range (expected 1..=100)")
}

/// `format!` of the buffer-size message, both sizes in decimal.
#[verifier::external_body]
fn buffer_text(expected: usize, found: usize) -> (r: String)
    ensures
        r@ == "pixel buffer size mismatch: expected "@ + dec_text(expected as nat) + " bytes, found "@ + dec_text(
            found as nat,
        ),
{
    format!("pixel buffer size mismatch: expected {expected} bytes, found {found}")
}

/// `format!` of the sample-range message, the three integers in decimal.
#[verifier::external_body]
fn sample_text(value: u16, max: u16, bits: u8) -> (r: String)
    ensures
        r@ == "sample "@ + dec_text(value as nat) + " exceeds maximum "@ + dec_text(max as nat) + " for "@ + dec_text(
            bits as nat,
        ) + "-bit depth"@,
{
    format!("sample {value} exceeds maximum {max} for {bits}-bit depth")
}

/// `format!` of `prefix`, `": "` and `what`: the three texts one after the
/// other.
#[verifier::external_body]
fn prefixed_text(prefix: &str, what: &str) -> (r: String)
    ensures
        r@ == prefix@ + ": "@ + what@,
{
    format!("{prefix}: {what}")
}

/// The human-readable description of an error.
pub open spec fn error_text(e: EncodeError) -> Seq<char> {
    match e {
        EncodeError::InvalidDimensions { width, height } => "invalid image dimensions: "@ + dec_text(width as nat)
            + "x"@ + dec_text(height as nat),
        EncodeError::InvalidQuality(q) => "quality "@ + dec_text(q as nat) + " out of range (expected 1..=100)"@,
        EncodeError::BufferSize { expected, found } => "pixel buffer size mismatch: expected "@ + dec_text(
            expected as nat,
        ) + " bytes, found "@ + dec_text(found as nat),
        EncodeError::SampleOutOfRange { value, depth } => "sample "@ + dec_text(value as nat) + " exceeds maximum "@
            + dec_text((vstd::arithmetic::power2::pow2(spec_bits(depth) as nat) - 1) as nat) + " for "@ + dec_text(
            spec_bits(depth) as nat,
        ) + "-bit depth"@,
        EncodeError::Unsupported(what) => "unsupported"@ + ": "@ + what@,
        EncodeError::Decode(what) => "decode error"@ + ": "@ + what@,
    }
}

impl EncodeError {
    /// Human-readable description of the error.
    pub fn message(&self) -> (r: String)
        ensures
            r@ == error_text(*self),
    {
        match self {
            EncodeError::InvalidDimensions { width, height } => dims_text(*width, *height),
            EncodeError::InvalidQuality(q) => quality_text(*q),
            EncodeError::BufferSize { expected, found } => buffer_text(*expected, *found),
            EncodeError::SampleOutOfRange { value, depth } => sample_text(
                *value,
                depth.max_val(),
                depth.bits(),
            ),
            EncodeError::Unsupported(what) => prefixed_text("unsupported", what),
            EncodeError::Decode(what) => prefixed_text("decode error", what),
        }
    }
}

} // verus!
