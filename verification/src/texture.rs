//! Texture handles, pixel formats, sampling modes and texture descriptors.

use vstd::prelude::*;

verus! {

/// Opaque handle to a texture resource; `u32::MAX` is the null handle.
#[derive(Clone, Copy, Debug, PartialEq, Eq, Structural, Hash)]
pub struct TextureId(pub u32);

impl TextureId {
    /// The null (invalid) texture id.
    pub fn none() -> (t: Self)
        ensures
            t.0 == u32::MAX,
    {
        TextureId(u32::MAX)
    }

    /// Whether this is not the null texture id.
    pub fn is_valid(self) -> (b: bool)
        ensures
            b == (self.0 != u32::MAX),
    {
        self.0 != u32::MAX
    }
}

/// Texture pixel format.
#[derive(Clone, Copy, Debug, PartialEq, Eq, Structural)]
pub enum TextureFormat {
    /// 8-bit grayscale.
    R8,
    /// 8-bit red and green.
    Rg8,
    /// 24-bit RGB.
    Rgb8,
    /// 32-bit RGBA.
    Rgba8,
}

impl Default for TextureFormat {
    /// 32-bit RGBA.
    fn default() -> (f: Self)
        ensures
            f == TextureFormat::Rgba8,
    {
        TextureFormat::Rgba8
    }
}

/// Bytes that one pixel of format `f` takes.
pub open spec fn format_bytes(f: TextureFormat) -> nat {
    match f {
        TextureFormat::R8 => 1,
        TextureFormat::Rg8 => 2,
        TextureFormat::Rgb8 => 3,
        TextureFormat::Rgba8 => 4,
    }
}

impl TextureFormat {
    /// Bytes per pixel for this format.
    pub fn bytes_per_pixel(self) -> (n: usize)
        ensures
            n == format_bytes(self),
    {
        match self {
            TextureFormat::R8 => 1,
            TextureFormat::Rg8 => 2,
            TextureFormat::Rgb8 => 3,
            TextureFormat::Rgba8 => 4,
        }
    }
}

/// Texture filtering mode.
#[derive(Clone, Copy, Debug, PartialEq, Eq, Structural)]
pub enum TextureFilter {
    /// Nearest-neighbor (pixelated).
    Nearest,
    /// Bilinear (smooth).
    Linear,
    /// Trilinear with mipmaps.
    LinearMipmap,
}

impl Default for TextureFilter {
    /// Bilinear.
    fn default() -> (f: Self)
        ensures
            f == TextureFilter::Linear,
    {
        TextureFilter::Linear
    }
}

/// Texture wrapping mode.
#[derive(Clone, Copy, Debug, PartialEq, Eq, Structural)]
pub enum TextureWrap {
    /// Repeat the texture.
    Repeat,
    /// Clamp to edge pixels.
    ClampToEdge,
    /// Mirror and repeat.
    MirroredRepeat,
}

impl Default for TextureWrap {
    /// Repeat.
    fn default() -> (w: Self)
        ensures
            w == TextureWrap::Repeat,
    {
        TextureWrap::Repeat
    }
}

/// Descriptor for creating a texture.
#[derive(Clone, Debug)]
pub struct TextureDescriptor {
    /// Width in pixels.
    pub width: u32,
    /// Height in pixels.
    pub height: u32,
    /// Pixel format.
    pub format: TextureFormat,
    /// Pixel data (row-major, top to bottom).
    pub data: Vec<u8>,
    /// Minification filter.
    pub min_filter: TextureFilter,
    /// Magnification filter.
    pub mag_filter: TextureFilter,
    /// Horizontal wrap mode.
    pub wrap_u: TextureWrap,
    /// Vertical wrap mode.
    pub wrap_v: TextureWrap,
}

/// Whether `x` is `2^k` for some `k`.
pub open spec fn is_pow2(x: u32) -> bool {
    exists|k: u32| k < 32 && x == (1u32 << k)
}

/// Whether `x` is a power of two, as `u32::is_power_of_two` answers.
pub fn u32_is_power_of_two(x: u32) -> (b: bool)
    ensures
        b == is_pow2(x),
{
    let mut k: u32 = 0;
    while k < 32
        invariant
            k <= 32,
            forall|j: u32| j < k ==> x != (1u32 << j),
        decreases 32 - k,
    {
        if x == (1u32 << k) {
            return true;
        }
        k = k + 1;
    }
    false
}

impl TextureDescriptor {
    /// A descriptor with bilinear filtering and clamp-to-edge wrapping.
    pub fn new(width: u32, height: u32, format: TextureFormat, data: Vec<u8>) -> (d: Self)
        ensures
            d.width == width,
            d.height == height,
            d.format == format,
            d.data@ == data@,
            d.min_filter == TextureFilter::Linear,
            d.mag_filter == TextureFilter::Linear,
            d.wrap_u == TextureWrap::ClampToEdge,
            d.wrap_v == TextureWrap::ClampToEdge,
    {
        TextureDescriptor {
            width,
            height,
            format,
            data,
            min_filter: TextureFilter::Linear,
            mag_filter: TextureFilter::Linear,
            wrap_u: TextureWrap::ClampToEdge,
            wrap_v: TextureWrap::ClampToEdge,
        }
    }

    /// The same descriptor with both filters set to `filter`.
    pub fn with_filter(self, filter: TextureFilter) -> (d: Self)
        ensures
            d.min_filter == filter,
            d.mag_filter == filter,
            d.width == self.width,
            d.height == self.height,
            d.format == self.format,
            d.data@ == self.data@,
            d.wrap_u == self.wrap_u,
            d.wrap_v == self.wrap_v,
    {
        let mut d = self;
        d.min_filter = filter;
        d.mag_filter = filter;
        d
    }

    /// The same descriptor with both wrap modes set to `wrap`.
    pub fn with_wrap(self, wrap: TextureWrap) -> (d: Self)
        ensures
            d.wrap_u == wrap,
            d.wrap_v == wrap,
            d.width == self.width,
            d.height == self.height,
            d.format == self.format,
            d.data@ == self.data@,
            d.min_filter == self.min_filter,
            d.mag_filter == self.mag_filter,
    {
        let mut d = self;
        d.wrap_u = wrap;
        d.wrap_v = wrap;
        d
    }

    /// Whether both dimensions are powers of two.
    pub fn is_power_of_two(&self) -> (b: bool)
        ensures
            b == (is_pow2(self.width) && is_pow2(self.height)),
    {
        u32_is_power_of_two(self.width) && u32_is_power_of_two(self.height)
    }
}

} // verus!
