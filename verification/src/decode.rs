//! Decoding image files (PNG, JPEG, GIF, BMP, WebP) into texture descriptors.

use vstd::prelude::*;
use crate::texture::{TextureDescriptor, TextureFilter, TextureFormat, TextureWrap};

verus! {

broadcast use vstd::string::group_string_axioms;

/// Calls `image::load_from_memory` on `data` (the format is detected from
/// the contents) and converts the image with `DynamicImage::to_rgba8`,
/// giving its width, height and pixel bytes, or the error's `Display` text.
/// Claimed: a decoded buffer holds at least four bytes per pixel, the
/// invariant that every `ImageBuffer` of the crate keeps. Not claimed: which
/// bytes decode, since the crate also consults process-wide decoding and
/// format-detection hooks that any code may register at any time; and the
/// crate may panic (a poisoned hook lock, or a conversion buffer whose size
/// overflows `usize`), which no precondition here can rule out.
#[verifier::external_body]
fn load_rgba8(data: &[u8]) -> (r: Result<(u32, u32, Vec<u8>), String>)
    ensures
        match r {
            Ok((w, h, px)) => px@.len() >= 4 * w * h,
            Err(_) => true,
        },
{
    match ::image::load_from_memory(data) {
        Ok(img) => {
            let rgba = img.to_rgba8();
            let (width, height) = rgba.dimensions();
            Ok((width, height, rgba.into_raw()))
        },
        Err(e) => Err(e.to_string()),
    }
}

/// The texture descriptor for a decoded RGBA image, or the decoding error
/// prefixed with `"Image decode error: "`. Textures from images use
/// trilinear mipmapped filtering.
pub fn texture_from_rgba8(decoded: Result<(u32, u32, Vec<u8>), String>) -> (r: Result<
    TextureDescriptor,
    String,
>)
    ensures
        r is Ok <==> decoded is Ok,
        match (decoded, r) {
            (Ok((w, h, px)), Ok(d)) => {
                &&& d.width == w
                &&& d.height == h
                &&& d.data@ == px@
                &&& d.format == TextureFormat::Rgba8
                &&& d.min_filter == TextureFilter::LinearMipmap
                &&& d.mag_filter == TextureFilter::LinearMipmap
                &&& d.wrap_u == TextureWrap::ClampToEdge
                &&& d.wrap_v == TextureWrap::ClampToEdge
            },
            (Err(msg), Err(out)) => out@ == "Image decode error: "@ + msg@,
            _ => false,
        },
{
    match decoded {
        Ok((width, height, pixels)) => Ok(
            TextureDescriptor::new(width, height, TextureFormat::Rgba8, pixels).with_filter(
                TextureFilter::LinearMipmap,
            ),
        ),
        Err(msg) => {
            let mut out = "Image decode error: ".to_string();
            out.append(msg.as_str());
            Err(out)
        },
    }
}

/// Decodes image bytes (PNG, JPEG, GIF, BMP or WebP, detected from the
/// contents) into an RGBA texture descriptor with trilinear mipmapped
/// filtering; on failure, the decoder's error prefixed with
/// `"Image decode error: "`. Which outcome comes is the decoder's: what
/// holds of each is stated.
pub fn decode_image(data: &[u8]) -> (r: Result<TextureDescriptor, String>)
    ensures
        match r {
            Ok(d) => {
                &&& d.data@.len() >= 4 * d.width * d.height
                &&& d.format == TextureFormat::Rgba8
                &&& d.min_filter == TextureFilter::LinearMipmap
                &&& d.mag_filter == TextureFilter::LinearMipmap
                &&& d.wrap_u == TextureWrap::ClampToEdge
                &&& d.wrap_v == TextureWrap::ClampToEdge
            },
            Err(msg) => "Image decode error: "@.is_prefix_of(msg@),
        },
{
    let decoded = load_rgba8(data);
    let r = texture_from_rgba8(decoded);
    proof {
        reveal_strlit("Image decode error: ");
        if r is Err {
            let p = "Image decode error: "@;
            assert(r->Err_0@.subrange(0, p.len() as int) =~= p);
        }
    }
    r
}

} // verus!
