//! The `image` crate's pixel buffer, and what is taken on trust about it.
//!
//! Nothing here is proved: each function below makes one call into the
//! `image` crate, and its contract says what that call does.

use vstd::prelude::*;

verus! {

/// An `image::RgbImage` (`image::ImageBuffer<Rgb<u8>, Vec<u8>>`), reachable
/// only through the functions of this module. Nothing of it is visible to the
/// verifier; what it holds is described by [`buffer_size`] and
/// [`buffer_pixels`].
#[verifier::external_body]
pub struct PixelBuffer {
    inner: ::image::RgbImage,
}

/// The width and the height of a buffer, in this order.
pub uninterp spec fn buffer_size(buffer: PixelBuffer) -> (u32, u32);

/// The pixels of a buffer as red, green and blue, keyed by column and row; the
/// row 0 is the top one.
pub uninterp spec fn buffer_pixels(buffer: PixelBuffer) -> Map<(int, int), (u8, u8, u8)>;

/// The coordinates inside a `width` by `height` image.
pub open spec fn in_bounds(width: u32, height: u32) -> Set<(int, int)> {
    Set::new(|p: (int, int)| 0 <= p.0 < width && 0 <= p.1 < height)
}

/// Where the first channel of the pixel in column `x` of row `y` stands among
/// the bytes of an image `width` pixels wide.
pub open spec fn byte_offset(width: u32, x: int, y: int) -> int {
    3 * (y * width + x)
}

/// `ImageBuffer::new`: a buffer of the given size whose samples are all zero.
/// It counts the samples as three times the width, then times the height, and
/// panics when either product does not fit a `usize`, whatever the other
/// side is, or when the samples are more than a `Vec` can hold; such sizes
/// are left out.
#[verifier::external_body]
pub(crate) fn buffer_new(width: u32, height: u32) -> (buffer: PixelBuffer)
    requires
        3 * width <= usize::MAX,
        3 * (width * height) <= isize::MAX,
    ensures
        buffer_size(buffer) == (width, height),
        buffer_pixels(buffer) == Map::new(
            |p: (int, int)| in_bounds(width, height).contains(p),
            |p: (int, int)| (0u8, 0u8, 0u8),
        ),
{
    PixelBuffer { inner: ::image::ImageBuffer::new(width, height) }
}

/// `ImageBuffer::width`: the width the buffer was made with.
#[verifier::external_body]
pub(crate) fn buffer_width(buffer: &PixelBuffer) -> (width: u32)
    ensures
        width == buffer_size(*buffer).0,
{
    buffer.inner.width()
}

/// `ImageBuffer::height`: the height the buffer was made with.
#[verifier::external_body]
pub(crate) fn buffer_height(buffer: &PixelBuffer) -> (height: u32)
    ensures
        height == buffer_size(*buffer).1,
{
    buffer.inner.height()
}

/// `ImageBuffer::put_pixel`: replaces the pixel in column `x` of row `y` and
/// leaves the rest as it was. It panics outside the buffer.
#[verifier::external_body]
pub(crate) fn buffer_put_pixel(buffer: &mut PixelBuffer, x: u32, y: u32, rgb: (u8, u8, u8))
    requires
        x < buffer_size(*old(buffer)).0,
        y < buffer_size(*old(buffer)).1,
    ensures
        buffer_size(*final(buffer)) == buffer_size(*old(buffer)),
        buffer_pixels(*final(buffer)) == buffer_pixels(*old(buffer)).insert(
            (x as int, y as int),
            rgb,
        ),
{
    buffer.inner.put_pixel(x, y, ::image::Rgb([rgb.0, rgb.1, rgb.2]))
}

/// `ImageBuffer::get_pixel`: the pixel in column `x` of row `y`. It panics
/// outside the buffer.
#[verifier::external_body]
pub(crate) fn buffer_get_pixel(buffer: &PixelBuffer, x: u32, y: u32) -> (rgb: (u8, u8, u8))
    requires
        x < buffer_size(*buffer).0,
        y < buffer_size(*buffer).1,
    ensures
        rgb == buffer_pixels(*buffer)[(x as int, y as int)],
{
    let pixel = buffer.inner.get_pixel(x, y);
    (pixel.0[0], pixel.0[1], pixel.0[2])
}

/// `ImageBuffer::as_raw`, copied: the samples row by row from the top, three
/// bytes to a pixel. A `PixelBuffer` is only ever made by `buffer_new`, so it
/// holds no byte beyond those of its pixels.
#[verifier::external_body]
pub(crate) fn buffer_bytes(buffer: &PixelBuffer) -> (bytes: Vec<u8>)
    ensures
        bytes@.len() == 3 * (buffer_size(*buffer).0 * buffer_size(*buffer).1),
        forall|x: int, y: int|
            0 <= x < buffer_size(*buffer).0 && 0 <= y < buffer_size(*buffer).1 ==> {
                let at = byte_offset(buffer_size(*buffer).0, x, y);
                (bytes@[at], bytes@[at + 1], bytes@[at + 2]) == #[trigger] buffer_pixels(
                    *buffer,
                )[(x, y)]
            },
{
    buffer.inner.as_raw().clone()
}

} // verus!
