//! The 8-bit RGB pixel buffer of the `image` crate, as the library uses it.

use vstd::prelude::*;

verus! {

/// An RGB image buffer of the `image` crate (`RgbImage`, 8 bits per sample).
/// What it holds is known to proofs only through the names below.
#[verifier::external_body]
pub struct RgbBuffer(pub ::image::RgbImage);

/// The samples an RGB image buffer holds, three per pixel, row by row.
pub uninterp spec fn rgb_image_samples(img: RgbBuffer) -> Seq<u8>;

/// The width, in pixels, that an RGB image buffer was made with.
pub uninterp spec fn rgb_image_width(img: RgbBuffer) -> u32;

/// The height, in pixels, that an RGB image buffer was made with.
pub uninterp spec fn rgb_image_height(img: RgbBuffer) -> u32;

/// `ImageBuffer::new`: a buffer of the given size whose samples are all zero.
/// Its source panics when `3 * width` or then `3 * width * height` overflows
/// `usize`, and allocating more than `isize::MAX` bytes panics too, so those
/// inputs are left out.
#[verifier::external_body]
pub(crate) fn rgb_image_new(width: u32, height: u32) -> (img: RgbBuffer)
    requires
        3 * width <= usize::MAX,
        3 * width * height <= isize::MAX,
    ensures
        rgb_image_width(img) == width,
        rgb_image_height(img) == height,
        rgb_image_samples(img) == Seq::new((3 * width * height) as nat, |i: int| 0u8),
{
    RgbBuffer(::image::RgbImage::new(width, height))
}

/// `ImageBuffer::put_pixel` with an `Rgb([r, g, b])` pixel: the three samples
/// of pixel `(x, y)`, at `3 * (y * width + x)`, become `r`, `g`, `b`; nothing
/// else changes. Its source panics outside the image, so that is left out.
#[verifier::external_body]
pub(crate) fn rgb_image_put_pixel(
    img: &mut RgbBuffer,
    x: u32,
    y: u32,
    r: u8,
    g: u8,
    b: u8,
)
    requires
        x < rgb_image_width(*old(img)),
        y < rgb_image_height(*old(img)),
    ensures
        rgb_image_width(*final(img)) == rgb_image_width(*old(img)),
        rgb_image_height(*final(img)) == rgb_image_height(*old(img)),
        rgb_image_samples(*final(img)) == ({
            let i = (y * rgb_image_width(*old(img)) + x) * 3;
            rgb_image_samples(*old(img)).update(i, r).update(i + 1, g).update(i + 2, b)
        }),
{
    img.0.put_pixel(x, y, ::image::Rgb([r, g, b]));
}

} // verus!
