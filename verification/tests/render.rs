use unison2d::font::FontId;
use unison2d::renderer::{BlendMode, RenderTargetId};
use unison2d::sprite::SpriteSheet;
use unison2d::texture::{TextureDescriptor, TextureFilter, TextureFormat, TextureId, TextureWrap};

#[test]
fn texture_ids() {
    assert!(!TextureId::none().is_valid());
    assert_eq!(TextureId::none(), TextureId(u32::MAX));
    assert!(TextureId(0).is_valid());
    assert!(TextureId(u32::MAX - 1).is_valid());
}

#[test]
fn bytes_per_pixel_per_format() {
    assert_eq!(TextureFormat::R8.bytes_per_pixel(), 1);
    assert_eq!(TextureFormat::Rg8.bytes_per_pixel(), 2);
    assert_eq!(TextureFormat::Rgb8.bytes_per_pixel(), 3);
    assert_eq!(TextureFormat::Rgba8.bytes_per_pixel(), 4);
    assert_eq!(TextureFormat::default(), TextureFormat::Rgba8);
    assert_eq!(TextureFilter::default(), TextureFilter::Linear);
    assert_eq!(TextureWrap::default(), TextureWrap::Repeat);
}

#[test]
fn descriptor_defaults_and_builders() {
    let d = TextureDescriptor::new(4, 2, TextureFormat::Rg8, vec![1, 2, 3]);
    assert_eq!(d.width, 4);
    assert_eq!(d.height, 2);
    assert_eq!(d.data, vec![1, 2, 3]);
    assert_eq!(d.min_filter, TextureFilter::Linear);
    assert_eq!(d.wrap_u, TextureWrap::ClampToEdge);
    let d = d.with_filter(TextureFilter::Nearest).with_wrap(TextureWrap::MirroredRepeat);
    assert_eq!(d.min_filter, TextureFilter::Nearest);
    assert_eq!(d.mag_filter, TextureFilter::Nearest);
    assert_eq!(d.wrap_u, TextureWrap::MirroredRepeat);
    assert_eq!(d.wrap_v, TextureWrap::MirroredRepeat);
    assert_eq!(d.format, TextureFormat::Rg8);
    assert_eq!(d.data, vec![1, 2, 3]);
}

#[test]
fn power_of_two_dimensions() {
    assert!(TextureDescriptor::new(256, 128, TextureFormat::Rgba8, vec![]).is_power_of_two());
    assert!(TextureDescriptor::new(1, 1, TextureFormat::Rgba8, vec![]).is_power_of_two());
    assert!(TextureDescriptor::new(1 << 31, 2, TextureFormat::Rgba8, vec![]).is_power_of_two());
    assert!(!TextureDescriptor::new(100, 64, TextureFormat::Rgba8, vec![]).is_power_of_two());
    assert!(!TextureDescriptor::new(64, 0, TextureFormat::Rgba8, vec![]).is_power_of_two());
    assert!(!TextureDescriptor::new(u32::MAX, 64, TextureFormat::Rgba8, vec![]).is_power_of_two());
}

#[test]
fn font_ids() {
    assert!(!FontId::none().is_valid());
    assert!(FontId(7).is_valid());
    assert_eq!(FontId::from_raw(FontId(42).raw()), FontId(42));
    assert_eq!(FontId::from_raw(9).raw(), 9);
}

#[test]
fn sprite_sheet_grid() {
    let s = SpriteSheet::new(TextureId(3), 256, 128, 32, 32);
    assert_eq!(s.columns, 8);
    assert_eq!(s.rows, 4);
    assert_eq!(s.frame_count, 32);
    assert_eq!(s.texture, TextureId(3));
    let t = SpriteSheet::new(TextureId(1), 100, 50, 30, 20);
    assert_eq!((t.columns, t.rows, t.frame_count), (3, 2, 6));
}

#[test]
fn render_targets_and_blend_modes() {
    assert_eq!(RenderTargetId::screen(), RenderTargetId(0));
    assert_ne!(BlendMode::Alpha, BlendMode::Additive);
    assert_eq!(BlendMode::Multiply, BlendMode::Multiply);
}
