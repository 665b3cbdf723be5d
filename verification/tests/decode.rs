use unison2d::decode::{decode_image, texture_from_rgba8};
use unison2d::texture::{TextureFilter, TextureFormat, TextureWrap};

const PNG_2X1: [u8; 72] = [
    0x89, 0x50, 0x4e, 0x47, 0x0d, 0x0a, 0x1a, 0x0a, 0x00, 0x00, 0x00, 0x0d, 0x49, 0x48, 0x44, 0x52,
    0x00, 0x00, 0x00, 0x02, 0x00, 0x00, 0x00, 0x01, 0x08, 0x06, 0x00, 0x00, 0x00, 0xf4, 0x22, 0x7f,
    0x8a, 0x00, 0x00, 0x00, 0x0f, 0x49, 0x44, 0x41, 0x54, 0x78, 0x9c, 0x63, 0xf8, 0xcf, 0xc0, 0xf0,
    0x1f, 0x08, 0x1b, 0x00, 0x10, 0x79, 0x03, 0x7e, 0x7d, 0x63, 0xce, 0xd7, 0x00, 0x00, 0x00, 0x00,
    0x49, 0x45, 0x4e, 0x44, 0xae, 0x42, 0x60, 0x82,
];

#[test]
fn decodes_png_to_rgba_texture() {
    let d = decode_image(&PNG_2X1).expect("valid png");
    assert_eq!(d.width, 2);
    assert_eq!(d.height, 1);
    assert_eq!(d.data, vec![255, 0, 0, 255, 0, 255, 0, 128]);
    assert_eq!(d.format, TextureFormat::Rgba8);
    assert_eq!(d.min_filter, TextureFilter::LinearMipmap);
    assert_eq!(d.mag_filter, TextureFilter::LinearMipmap);
    assert_eq!(d.wrap_u, TextureWrap::ClampToEdge);
}

#[test]
fn garbage_is_a_decode_error() {
    let e = decode_image(&[1, 2, 3, 4, 5]).unwrap_err();
    assert!(e.starts_with("Image decode error: "));
    assert!(e.len() > "Image decode error: ".len());
    assert!(decode_image(&[]).is_err());
}

#[test]
fn decoded_parts_become_a_descriptor() {
    let d = texture_from_rgba8(Ok((1, 2, vec![9; 8]))).unwrap();
    assert_eq!((d.width, d.height), (1, 2));
    assert_eq!(d.data, vec![9; 8]);
    assert_eq!(d.min_filter, TextureFilter::LinearMipmap);
    let e = texture_from_rgba8(Err("bad header".to_string())).unwrap_err();
    assert_eq!(e, "Image decode error: bad header");
}
