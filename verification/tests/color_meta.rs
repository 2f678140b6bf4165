use garnetash::color::{Cicp, ColorMetadata, MatrixCoefficients, Primaries, TransferFunction};
use garnetash::error::EncodeError;
use garnetash::metadata::{ContentLightLevel, ImageMetadata, Orientation};

#[test]
fn nclx_payload_matches_vui() {
    let p = Cicp::garnetash_default().nclx_payload();
    assert_eq!(&p[0..4], b"nclx");
    assert_eq!(u16::from_be_bytes([p[4], p[5]]), 1);
    assert_eq!(u16::from_be_bytes([p[6], p[7]]), 13);
    assert_eq!(u16::from_be_bytes([p[8], p[9]]), 6);
    assert_eq!(p[10], 0x80);
}

#[test]
fn secondary_colr_only_when_both() {
    assert!(!ColorMetadata::cicp(Cicp::srgb()).has_secondary_colr());
    assert!(!ColorMetadata::icc(vec![0; 4]).has_secondary_colr());
    assert!(ColorMetadata::cicp_and_icc(Cicp::srgb(), vec![0; 4]).has_secondary_colr());
}

#[test]
fn matrix_coefficients_extended_round_trip() {
    for (v, m) in [
        (15u16, MatrixCoefficients::IPtC2),
        (16, MatrixCoefficients::YCgCoRe),
        (17, MatrixCoefficients::YCgCoRo),
    ] {
        assert_eq!(MatrixCoefficients::from_u16(v), m);
        assert_eq!(m.value(), v);
    }
    assert_eq!(
        MatrixCoefficients::from_u16(3),
        MatrixCoefficients::Unspecified
    );
    assert_eq!(
        MatrixCoefficients::from_u16(99),
        MatrixCoefficients::Unspecified
    );
}

#[test]
fn nclx_parse_round_trips_and_rejects() {
    for c in [
        Cicp::garnetash_default(),
        Cicp::srgb(),
        Cicp::bt709(),
        Cicp::bt2020_pq(),
        Cicp::unspecified(),
        Cicp {
            full_range: false,
            ..Cicp::bt709()
        },
    ] {
        assert_eq!(Cicp::from_nclx_payload(&c.nclx_payload()), Some(c));
    }
    assert_eq!(Cicp::from_nclx_payload(b"nclx\0\x01"), None);
    assert_eq!(Cicp::from_nclx_payload(b"prof\0\x01\0\x01\0\x01\x80"), None);
    assert_eq!(Cicp::default(), Cicp::garnetash_default());
    assert_eq!(Primaries::from_u16(22), Primaries::Ebu3213);
    assert_eq!(TransferFunction::from_u16(18), TransferFunction::Hlg);
    assert_eq!(TransferFunction::Smpte2084.value(), 16);
}

#[test]
fn color_metadata_builders() {
    let m = ColorMetadata::icc(vec![1, 2]).with_cicp(Cicp::bt709());
    assert_eq!(m.cicp, Some(Cicp::bt709()));
    assert_eq!(m.icc, Some(vec![1, 2]));
    assert_eq!(m.effective_cicp(), Cicp::bt709());
    let n = ColorMetadata::cicp(Cicp::srgb()).with_icc(vec![3]);
    assert!(n.has_secondary_colr());
    let e = ColorMetadata::icc(vec![]);
    assert_eq!(e.effective_cicp(), Cicp::garnetash_default());
}

#[test]
fn exif_mapping() {
    assert_eq!(Orientation::from_exif(1), Orientation::Normal);
    assert_eq!(Orientation::from_exif(6), Orientation::Rotate90);
    assert_eq!(Orientation::from_exif(99), Orientation::Normal);
}

#[test]
fn rotate90_has_irot_no_imir() {
    assert_eq!(Orientation::Rotate90.irot_steps(), 3);
    assert_eq!(Orientation::Rotate90.imir_axis(), None);
    assert!(!Orientation::Rotate90.is_identity());
    assert!(Orientation::Normal.is_identity());
}

#[test]
fn clli_payload_layout() {
    let c = ContentLightLevel::new(1000, 400);
    assert_eq!(c.clli_payload(), [0x03, 0xE8, 0x01, 0x90]);
}

#[test]
fn orientation_irot_imir_round_trip() {
    for v in 1u16..=8 {
        let o = Orientation::from_exif(v);
        assert_eq!(Orientation::from_irot_imir(o.irot_steps(), o.imir_axis()), o);
    }
    assert_eq!(Orientation::from_irot_imir(6, None), Orientation::Rotate180);
    assert_eq!(Orientation::from_irot_imir(2, Some(true)), Orientation::Normal);
}

#[test]
fn image_metadata_builders() {
    let m = ImageMetadata::new();
    assert!(m.is_empty());
    assert_eq!(m, ImageMetadata::default());
    let m = m.with_orientation(Orientation::FlipV);
    assert!(!m.is_empty());
    let m = ImageMetadata::new().with_exif(vec![1, 2, 3]);
    assert!(!m.is_empty());
    let m = ImageMetadata::new().with_content_light_level(ContentLightLevel::new(1, 2));
    assert!(!m.is_empty());
    assert_eq!(m.content_light_level.unwrap().max_pic_average_light_level, 2);
}

#[test]
fn display_is_human_readable() {
    let e = EncodeError::InvalidDimensions {
        width: 0,
        height: 10,
    };
    assert!(e.message().contains("0x10"));
    let e = EncodeError::InvalidQuality(200);
    assert!(e.message().contains("200"));
}

#[test]
fn color_metadata_default_is_empty() {
    let m = garnetash::color::ColorMetadata::default();
    assert!(m.cicp.is_none());
    assert!(m.icc.is_none());
}
