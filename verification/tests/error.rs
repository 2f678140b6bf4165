use garnetash::error::EncodeError;
use garnetash::fmt::BitDepth;

#[test]
fn error_messages_exact_text() {
    let e = EncodeError::InvalidDimensions { width: 0, height: 1080 };
    assert_eq!(e.message(), "invalid image dimensions: 0x1080");
    assert_eq!(EncodeError::InvalidQuality(0).message(), "quality 0 out of range (expected 1..=100)");
    let e = EncodeError::BufferSize { expected: 12, found: 7 };
    assert_eq!(e.message(), "pixel buffer size mismatch: expected 12 bytes, found 7");
    let e = EncodeError::SampleOutOfRange { value: 1024, depth: BitDepth::Ten };
    assert_eq!(e.message(), "sample 1024 exceeds maximum 1023 for 10-bit depth");
    assert_eq!(EncodeError::Unsupported("alpha").message(), "unsupported: alpha");
    assert_eq!(EncodeError::Decode("bad nal").message(), "decode error: bad nal");
}
