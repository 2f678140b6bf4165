use garnetash::ppm::{read_ppm, scale_to_u8};

#[test]
fn parses_minimal_p6() {
    let mut v = b"P6\n2 1\n255\n".to_vec();
    v.extend_from_slice(&[255, 0, 0, 0, 255, 0]);
    let img = read_ppm(&v).unwrap();
    assert_eq!((img.width, img.height), (2, 1));
    assert_eq!(img.rgb, vec![255, 0, 0, 0, 255, 0]);
}

#[test]
fn handles_comments_and_odd_whitespace() {
    let mut v = b"P6 # magic\n# a comment\n  2\t1  # dims\n255\n".to_vec();
    v.extend_from_slice(&[1, 2, 3, 4, 5, 6]);
    let img = read_ppm(&v).unwrap();
    assert_eq!((img.width, img.height), (2, 1));
    assert_eq!(img.rgb, vec![1, 2, 3, 4, 5, 6]);
}

#[test]
fn parses_ascii_p3() {
    let v = b"P3\n2 1\n255\n255 0 0  0 128 64\n".to_vec();
    let img = read_ppm(&v).unwrap();
    assert_eq!(img.rgb, vec![255, 0, 0, 0, 128, 64]);
}

#[test]
fn rescales_low_maxval() {
    let mut v = b"P6\n1 1\n15\n".to_vec();
    v.extend_from_slice(&[15, 0, 8]);
    let img = read_ppm(&v).unwrap();
    assert_eq!(img.rgb[0], 255);
    assert_eq!(img.rgb[1], 0);
    assert_eq!(img.rgb[2], 136);
}

#[test]
fn rejects_truncated_and_16bit() {
    let v = b"P6\n4 4\n255\nshort".to_vec();
    assert!(read_ppm(&v).is_err());
    let v16 = b"P6\n1 1\n65535\n".to_vec();
    assert!(read_ppm(&v16).is_err());
}

#[test]
fn rejects_bad_magic() {
    assert!(read_ppm(b"P5\n1 1\n255\n\0").is_err());
}

#[test]
fn scale_exact_values() {
    assert_eq!(scale_to_u8(300, 255), 255);
    assert_eq!(scale_to_u8(7, 255), 7);
    assert_eq!(scale_to_u8(1, 3), 85);
    assert_eq!(scale_to_u8(9, 3), 255);
    assert_eq!(scale_to_u8(512, 1023), 128);
}

#[test]
fn rejects_zero_size_and_bad_numbers() {
    assert!(read_ppm(b"P6\n0 1\n255\n").is_err());
    assert!(read_ppm(b"P3\n1 1\n255\n1 2 x\n").is_err());
    assert!(read_ppm(b"P3\n1 1\n255\n1 2\n").is_err());
    let img = read_ppm(b"P3 +1 1 255 1 2 3").unwrap();
    assert_eq!(img.rgb, vec![1, 2, 3]);
}
