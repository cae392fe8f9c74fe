//! Colouring: each circle takes the colour of the image pixel that its
//! centre falls on.

use vstd::prelude::*;
use vstd::string::*;
use crate::circle::{Circle, Disc};
use crate::decimal::nat_text;
use crate::text::push_nat;
use crate::raster::{image_pixel, image_size, pixel_of, size_of};

verus! {

/// The fill colour for a pixel: its four channels in decimal, separated by
/// commas, as the arguments of `rgba`.
pub open spec fn rgba_text(pixel: (u8, u8, u8, u8)) -> Seq<char> {
    "rgba("@ + nat_text(pixel.0 as nat) + ","@ + nat_text(pixel.1 as nat) + ","@ + nat_text(
        pixel.2 as nat,
    ) + ","@ + nat_text(pixel.3 as nat) + ")"@
}

/// The pixel that a point of the canvas falls on: its coordinates scaled by
/// the image's size over the canvas width, rounded down.
pub open spec fn sample_at(size: (u32, u32), width: int, x: int, y: int) -> (int, int) {
    (size.0 * x / width, size.1 * y / width)
}

/// The circle with the colour of the pixel under its centre.
pub open spec fn tint(disc: Disc, width: int, image: image::DynamicImage) -> Disc {
    let at = sample_at(image_size(image), width, disc.x, disc.y);
    Disc {
        x: disc.x,
        y: disc.y,
        radius: disc.radius,
        colour: rgba_text(image_pixel(image, at.0 as u32, at.1 as u32)),
    }
}

/// The circles, each with the colour of the pixel under its centre.
pub open spec fn tinted(discs: Seq<Disc>, width: int, image: image::DynamicImage) -> Seq<Disc> {
    Seq::new(discs.len(), |i: int| tint(discs[i], width, image))
}

/// Every centre lies on the canvas, short of its right and lower edge, so
/// that it falls on a pixel of any image that has pixels.
pub open spec fn centres_on_canvas(circles: Seq<Circle>, width: int) -> bool {
    forall|i: int|
        0 <= i < circles.len() ==> 0 <= (#[trigger] circles[i]).centre_x < width && 0
            <= circles[i].centre_y < width
}

/// The fill colour for a pixel.
pub fn rgba_string(pixel: (u8, u8, u8, u8)) -> (colour: String)
    ensures
        colour@ == rgba_text(pixel),
{
    let mut colour: String = String::from_str("rgba(");
    push_nat(&mut colour, pixel.0 as u64);
    colour.append(",");
    push_nat(&mut colour, pixel.1 as u64);
    colour.append(",");
    push_nat(&mut colour, pixel.2 as u64);
    colour.append(",");
    push_nat(&mut colour, pixel.3 as u64);
    colour.append(")");
    assert(colour@ =~= rgba_text(pixel));
    colour
}

/// `size` pixels scaled by `at` over `width`, rounded down.
fn scaled(size: u32, at: i64, width: i64) -> (pixel: u32)
    requires
        0 <= at < width,
        0 < size,
    ensures
        pixel == size * at / (width as int),
        pixel < size,
{
    let wide: i128 = size as i128;
    let here: i128 = at as i128;
    let full: i128 = width as i128;
    assert(0 <= wide * here < wide * full && wide * full <= 0x1_0000_0000 * full) by (nonlinear_arith)
        requires
            0 <= here < full,
            0 < wide < 0x1_0000_0000,
    ;
    assert(0 <= (wide * here) / (full as int) < wide) by (nonlinear_arith)
        requires
            0 <= wide * here < wide * full,
            0 < full,
    ;
    ((wide * here) / full) as u32
}

/// The colour of the pixel under a circle's centre.
pub fn get_colour(circle: &Circle, width: i64, image: &image::DynamicImage) -> (colour: String)
    requires
        0 <= circle.centre_x < width,
        0 <= circle.centre_y < width,
        0 < image_size(*image).0,
        0 < image_size(*image).1,
    ensures
        colour@ == tint(circle@, width as int, *image).colour,
{
    let size: (u32, u32) = size_of(image);
    let x: u32 = scaled(size.0, circle.centre_x, width);
    let y: u32 = scaled(size.1, circle.centre_y, width);
    rgba_string(pixel_of(image, x, y))
}

/// Gives every circle the colour of the pixel under its centre.
///
/// Without an image nothing changes, and neither does it with an image that
/// has no pixels.
pub fn colourize(circles: &mut Vec<Circle>, width: i64, image: Option<&image::DynamicImage>)
    requires
        image is Some ==> centres_on_canvas(old(circles)@, width as int),
    ensures
        image is None ==> final(circles)@ == old(circles)@,
        image matches Some(source) ==> (if 0 < image_size(*source).0 && 0 < image_size(*source).1 {
            final(circles).deep_view() == tinted(old(circles).deep_view(), width as int, *source)
        } else {
            final(circles)@ == old(circles)@
        }),
{
    let source: &image::DynamicImage = match image {
        Some(source) => source,
        None => {
            return ;
        },
    };
    let size: (u32, u32) = size_of(source);
    if size.0 == 0 || size.1 == 0 {
        return ;
    }
    let count: usize = circles.len();
    let mut i: usize = 0;
    while i < count
        invariant
            i <= count,
            count == circles.len(),
            count == old(circles).len(),
            0 < image_size(*source).0,
            0 < image_size(*source).1,
            centres_on_canvas(old(circles)@, width as int),
            forall|k: int|
                0 <= k < i ==> (#[trigger] circles[k])@ == tint(old(circles)[k]@, width as int, *source),
            forall|k: int| i <= k < count ==> #[trigger] circles[k] == old(circles)[k],
        decreases count - i,
    {
        let colour: String = get_colour(&circles[i], width, source);
        let painted: Circle = Circle {
            centre_x: circles[i].centre_x,
            centre_y: circles[i].centre_y,
            radius: circles[i].radius,
            colour,
        };
        circles.set(i, painted);
        i = i + 1;
    }
    assert(circles.deep_view() =~= tinted(old(circles).deep_view(), width as int, *source));
}

} // verus!
