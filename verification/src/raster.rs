//! The source image that colours are sampled from.

use vstd::prelude::*;

verus! {

/// A decoded image of the `image` crate, carried through as an opaque value.
#[verifier::external_type_specification]
#[verifier::external_body]
pub struct ExDynamicImage(image::DynamicImage);

/// Width and height of an image, in pixels.
pub uninterp spec fn image_size(image: image::DynamicImage) -> (u32, u32);

/// Red, green, blue and alpha of the pixel in column `x` and row `y`.
pub uninterp spec fn image_pixel(image: image::DynamicImage, x: u32, y: u32) -> (u8, u8, u8, u8);

/// Calls `GenericImageView::dimensions` on a `DynamicImage`.
///
/// Trusted, not proved: the pair that comes back is the image's width and
/// height, which this library knows only by the name `image_size`.
#[verifier::external_body]
pub(crate) fn size_of(image: &image::DynamicImage) -> (size: (u32, u32))
    ensures
        size == image_size(*image),
{
    image::GenericImageView::dimensions(image)
}

/// Calls `GenericImageView::get_pixel` on a `DynamicImage`, which converts
/// the pixel to eight-bit RGBA, and hands out its four channels.
///
/// Trusted, not proved: the channels are those of the pixel at `(x, y)`,
/// which this library knows only by the name `image_pixel`. The call panics
/// outside the image, which the precondition excludes.
#[verifier::external_body]
pub(crate) fn pixel_of(image: &image::DynamicImage, x: u32, y: u32) -> (pixel: (u8, u8, u8, u8))
    requires
        x < image_size(*image).0,
        y < image_size(*image).1,
    ensures
        pixel == image_pixel(*image, x, y),
{
    let found: image::Rgba<u8> = image::GenericImageView::get_pixel(image, x, y);
    (found.0[0], found.0[1], found.0[2], found.0[3])
}

} // verus!
