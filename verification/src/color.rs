//! Channel bytes of packed hex colors.

use vstd::prelude::*;

verus! {

/// The `(r, g, b, a)` bytes that a hex color denotes: `0xRRGGBBAA` when it
/// exceeds `0xFFFFFF`, else `0xRRGGBB` with alpha 255.
pub open spec fn hex_channels(hex: u32) -> (u8, u8, u8, u8) {
    if hex > 0xFFFFFF {
        (
            ((hex >> 24u32) & 0xFF) as u8,
            ((hex >> 16u32) & 0xFF) as u8,
            ((hex >> 8u32) & 0xFF) as u8,
            (hex & 0xFF) as u8,
        )
    } else {
        (((hex >> 16u32) & 0xFF) as u8, ((hex >> 8u32) & 0xFF) as u8, (hex & 0xFF) as u8, 255u8)
    }
}

/// The channel bytes of a hex color (`0xRRGGBB`, or `0xRRGGBBAA` when above
/// `0xFFFFFF`), the integer part of `Color::from_hex`.
pub fn hex_to_rgba8(hex: u32) -> (c: (u8, u8, u8, u8))
    ensures
        c == hex_channels(hex),
{
    if hex > 0xFFFFFF {
        (
            ((hex >> 24u32) & 0xFF) as u8,
            ((hex >> 16u32) & 0xFF) as u8,
            ((hex >> 8u32) & 0xFF) as u8,
            (hex & 0xFF) as u8,
        )
    } else {
        (((hex >> 16u32) & 0xFF) as u8, ((hex >> 8u32) & 0xFF) as u8, (hex & 0xFF) as u8, 255u8)
    }
}

/// Packing channels back gives the hex value: `0xRRGGBB` for an opaque
/// color below `0x1000000`, the full word otherwise.
pub proof fn lemma_hex_channels_round_trip(hex: u32)
    ensures
        hex > 0xFFFFFF ==> {
            let (r, g, b, a) = hex_channels(hex);
            (r as u32) << 24u32 | (g as u32) << 16u32 | (b as u32) << 8u32 | (a as u32) == hex
        },
        hex <= 0xFFFFFF ==> {
            let (r, g, b, a) = hex_channels(hex);
            (r as u32) << 16u32 | (g as u32) << 8u32 | (b as u32) == hex && a == 255
        },
{
    assert(((((hex >> 24u32) & 0xFF) as u8) as u32) << 24u32 | ((((hex >> 16u32) & 0xFF) as u8) as u32)
        << 16u32 | ((((hex >> 8u32) & 0xFF) as u8) as u32) << 8u32 | (((hex & 0xFF) as u8) as u32)
        == hex) by (bit_vector);
    assert(hex <= 0xFFFFFF ==> ((((hex >> 16u32) & 0xFF) as u8) as u32) << 16u32 | ((((hex >> 8u32)
        & 0xFF) as u8) as u32) << 8u32 | (((hex & 0xFF) as u8) as u32) == hex) by (bit_vector);
}

} // verus!
