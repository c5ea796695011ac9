//! Pixels and pictures of the `image` crate, as far as the renderer uses them.

use vstd::prelude::*;

verus! {

/// `image::Rgba`, a pixel of four channels. Nothing is known of a value but
/// what `channels` names.
#[verifier::external_type_specification]
#[verifier::external_body]
#[verifier::reject_recursive_types(T)]
pub struct ExRgba<T>(image::Rgba<T>);

/// `image::DynamicImage`, a picture. Nothing is known of a value but what
/// `pixels`, `dimensions` and `is_rgb8` name.
#[verifier::external_type_specification]
#[verifier::external_body]
pub struct ExDynamicImage(image::DynamicImage);

/// The four channels of a pixel: red, green, blue, alpha.
pub uninterp spec fn channels(pixel: image::Rgba<u8>) -> Seq<u8>;

/// The pixels of a picture as `get_pixel` returns them, by column and row.
pub uninterp spec fn pixels(picture: image::DynamicImage) -> Map<(u32, u32), Seq<u8>>;

/// Width and height of a picture.
pub uninterp spec fn dimensions(picture: image::DynamicImage) -> (u32, u32);

/// Whether a picture keeps three bytes for each pixel: red, green and blue.
pub uninterp spec fn is_rgb8(picture: image::DynamicImage) -> bool;

/// A pixel as a picture without an alpha channel gives it back: fully opaque.
pub open spec fn opaque(color: Seq<u8>) -> Seq<u8> {
    seq![color[0], color[1], color[2], 255u8]
}

/// The pixels of a new picture: every pixel within the bounds is black.
pub open spec fn blank(width: u32, height: u32) -> Map<(u32, u32), Seq<u8>> {
    Map::new(|at: (u32, u32)| at.0 < width && at.1 < height, |at: (u32, u32)| seq![0u8, 0u8, 0u8, 255u8])
}

/// The constructor `image::Rgba`. Trusted: the pixel holds the four channels
/// in the order given.
#[verifier::external_body]
pub(crate) fn rgba(red: u8, green: u8, blue: u8, alpha: u8) -> (pixel: image::Rgba<u8>)
    ensures
        channels(pixel) == seq![red, green, blue, alpha],
{
    image::Rgba([red, green, blue, alpha])
}

/// `image::DynamicImage::new_rgb8`. Trusted: the picture has the given width
/// and height, three bytes for a pixel, and all of them zero. The call panics
/// where the buffer would be larger than a vector can be, which `requires`
/// leaves out.
#[verifier::external_body]
pub(crate) fn new_rgb8(width: u32, height: u32) -> (picture: image::DynamicImage)
    requires
        3 * width * height <= isize::MAX,
    ensures
        is_rgb8(picture),
        dimensions(picture) == (width, height),
        pixels(picture) == blank(width, height),
{
    image::DynamicImage::new_rgb8(width, height)
}

/// `image::GenericImage::put_pixel` on an `image::DynamicImage`. Trusted: in
/// a picture of three bytes for a pixel, the pixel at `(x, y)` becomes the red,
/// green and blue of `pixel`, which reads back fully opaque, and nothing else
/// changes. The call panics outside the bounds, which `requires` leaves out.
#[verifier::external_body]
pub(crate) fn put_pixel(picture: &mut image::DynamicImage, x: u32, y: u32, pixel: image::Rgba<u8>)
    requires
        is_rgb8(*old(picture)),
        x < dimensions(*old(picture)).0,
        y < dimensions(*old(picture)).1,
    ensures
        is_rgb8(*final(picture)),
        dimensions(*final(picture)) == dimensions(*old(picture)),
        pixels(*final(picture)) == pixels(*old(picture)).insert((x, y), opaque(channels(pixel))),
{
    image::GenericImage::put_pixel(picture, x, y, pixel)
}

} // verus!
