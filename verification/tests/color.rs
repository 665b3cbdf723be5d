use unison2d::color::hex_to_rgba8;

#[test]
fn rgb_hex_is_opaque() {
    assert_eq!(hex_to_rgba8(0xFF8000), (255, 128, 0, 255));
    assert_eq!(hex_to_rgba8(0x000000), (0, 0, 0, 255));
    assert_eq!(hex_to_rgba8(0xFFFFFF), (255, 255, 255, 255));
}

#[test]
fn rgba_hex_carries_alpha() {
    assert_eq!(hex_to_rgba8(0x11223344), (0x11, 0x22, 0x33, 0x44));
    assert_eq!(hex_to_rgba8(0x01000000), (1, 0, 0, 0));
    assert_eq!(hex_to_rgba8(0xFFFFFFFF), (255, 255, 255, 255));
}
