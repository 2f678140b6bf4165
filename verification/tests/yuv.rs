use garnetash::error::EncodeError;
use garnetash::fmt::ChromaFormat;
use garnetash::yuv::Yuv;

#[test]
fn new_sets_tight_strides() {
    let y = vec![0u8; 5 * 3];
    let u = vec![0u8; 3 * 2];
    let v = vec![0u8; 3 * 2];
    let img = Yuv::new(&y, &u, &v, 5, 3, ChromaFormat::Yuv420);
    assert_eq!(img.y_stride, 5);
    assert_eq!(img.uv_stride, 3);
    assert!(img.alpha.is_none());
    assert_eq!(img.alpha_stride, 0);
    assert_eq!(img.chroma_dims(), (3, 2));
    let img = Yuv::new(&y, &u, &v, 5, 3, ChromaFormat::Yuv422);
    assert_eq!(img.uv_stride, 3);
    assert_eq!(img.chroma_dims(), (3, 3));
    let img = Yuv::new(&y, &u, &v, 5, 3, ChromaFormat::Yuv444);
    assert_eq!(img.uv_stride, 5);
    assert_eq!(img.chroma_dims(), (5, 3));
    let img = Yuv::mono(&y, 5, 3);
    assert_eq!(img.uv_stride, 0);
    assert_eq!(img.chroma_dims(), (0, 0));
    assert!(img.u.is_empty() && img.v.is_empty());
}

#[test]
fn builders_override_fields() {
    let y = vec![1u16; 64];
    let a = vec![2u16; 64];
    let img = Yuv::mono(&y, 4, 4).with_strides(8, 0);
    assert_eq!(img.y_stride, 8);
    let img = img.with_alpha(&a);
    assert_eq!(img.alpha_stride, 4);
    assert_eq!(img.alpha.unwrap().len(), 64);
    let img = img.with_alpha_strided(&a, 16);
    assert_eq!(img.alpha_stride, 16);
    assert_eq!(img.width, 4);
}

#[test]
fn strided_planes_pack_to_tight_layout() {
    // 3x2 luma in a stride of 5; 4:2:0 chroma 2x1 in a stride of 4.
    let y: Vec<u8> = vec![1, 2, 3, 90, 91, 4, 5, 6, 92, 93];
    let u: Vec<u8> = vec![10, 11, 94, 95];
    let v: Vec<u8> = vec![20, 21, 96, 97];
    let img = Yuv::new(&y, &u, &v, 3, 2, ChromaFormat::Yuv420).with_strides(5, 4);
    let packed = img.pack_color().unwrap();
    assert_eq!(packed, vec![1, 2, 3, 4, 5, 6, 10, 11, 20, 21]);
    let tight_y: Vec<u8> = vec![1, 2, 3, 4, 5, 6];
    let tight = Yuv::new(&tight_y, &u[..2], &v[..2], 3, 2, ChromaFormat::Yuv420);
    assert_eq!(tight.pack_color().unwrap(), packed);
}

#[test]
fn mono_packs_luma_only() {
    let y: Vec<u16> = (0..12).collect();
    let img = Yuv::mono(&y, 4, 3);
    assert_eq!(img.pack_color().unwrap(), y);
}

#[test]
fn short_planes_are_rejected() {
    let y = vec![0u8; 11];
    let u = vec![0u8; 4];
    let v = vec![0u8; 3];
    let img = Yuv::new(&y, &u, &v, 4, 3, ChromaFormat::Yuv420);
    assert!(matches!(img.pack_color(), Err(EncodeError::Unsupported(_))));
    let y = vec![0u8; 12];
    let img = Yuv::new(&y, &u, &v, 4, 3, ChromaFormat::Yuv420);
    assert!(matches!(img.pack_color(), Err(EncodeError::Unsupported(_))));
    let v = vec![0u8; 4];
    let img = Yuv::new(&y, &u, &v, 4, 3, ChromaFormat::Yuv420);
    assert!(img.pack_color().is_ok());
    // A stride below the width is refused even when the plane is long.
    let img = Yuv::mono(&y, 4, 3).with_strides(3, 0);
    assert!(matches!(img.pack_color(), Err(EncodeError::Unsupported(_))));
}

#[test]
fn alpha_packs_with_its_stride() {
    let y = vec![0u8; 4];
    let a: Vec<u8> = vec![7, 8, 0, 9, 10, 0];
    let img = Yuv::mono(&y, 2, 2).with_alpha_strided(&a, 3);
    assert_eq!(img.pack_alpha(&a).unwrap(), vec![7, 8, 9, 10]);
    let img = Yuv::mono(&y, 2, 2).with_alpha(&a[..3]);
    assert!(matches!(img.pack_alpha(&a[..3]), Err(EncodeError::Unsupported(_))));
}

#[test]
fn short_plane_error_names_the_plane_check() {
    let y = vec![0u8; 11];
    let u = vec![0u8; 4];
    let v = vec![0u8; 4];
    let img = Yuv::new(&y, &u, &v, 4, 3, ChromaFormat::Yuv420);
    assert_eq!(
        img.pack_color(),
        Err(EncodeError::Unsupported("a YUV/alpha plane is too small for its stride and dimensions"))
    );
}
