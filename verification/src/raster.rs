//! The pixel buffer that every stage reads: one byte of intensity and one byte of
//! alpha per pixel. The buffer itself is kept by the `image` crate; this module
//! names what it holds and states what each accessor of the buffer does.

use image::{ImageBuffer, LumaA};
use vstd::prelude::*;

verus! {

/// A raster of 8-bit intensity and 8-bit alpha.
///
/// The field is an `image::GrayAlphaImage`; proofs see none of it and know
/// the raster only through [`image_width`], [`image_height`] and [`image_pixels`].
#[verifier::external_body]
pub struct GrayAlphaImage {
    inner: ImageBuffer<LumaA<u8>, Vec<u8>>,
}

/// Number of columns of the raster, as `ImageBuffer::width` reports it.
pub uninterp spec fn image_width(img: GrayAlphaImage) -> nat;

/// Number of rows of the raster, as `ImageBuffer::height` reports it.
pub uninterp spec fn image_height(img: GrayAlphaImage) -> nat;

/// What the raster holds: (column, row) to (intensity, alpha). Only the entries
/// with `column < width` and `row < height` mean anything.
pub uninterp spec fn image_pixels(img: GrayAlphaImage) -> Map<(int, int), (u8, u8)>;

/// Position of a channel of pixel `(x, y)` in a row-major buffer of two-byte pixels.
pub open spec fn raw_index(width: int, x: int, y: int, channel: int) -> int {
    2 * (y * width + x) + channel
}

/// Whether a buffer of `len` bytes can hold `width * height` two-byte pixels.
pub open spec fn raw_fits(width: int, height: int, len: int) -> bool {
    2 * width * height <= len
}

/// Whether `ImageBuffer::from_raw` accepts a buffer of `len` bytes for an image
/// of `width` by `height` two-byte pixels: the bytes of one row can be counted
/// in a `usize`, and the buffer holds all the bytes of the image.
pub open spec fn raw_accepted(width: int, height: int, len: int) -> bool {
    2 * width <= usize::MAX && raw_fits(width, height, len)
}

/// `ImageBuffer::from_raw` on a `Vec<u8>` of interleaved intensity and alpha.
///
/// Claimed of it: it forms `2 * width`, then that times `height`, each as a
/// `usize`, refuses where either product does not fit, and else accepts the
/// buffer exactly when it holds that many bytes (a longer buffer is accepted,
/// its tail ignored). No buffer is longer than a `usize` counts, so only the
/// first product can fail where the bytes are there. The image then has the
/// given dimensions and reads pixel `(x, y)` from the two bytes at
/// `2 * (y * width + x)`.
#[verifier::external_body]
fn buffer_from_raw(width: u32, height: u32, buf: Vec<u8>) -> (r: Option<GrayAlphaImage>)
    ensures
        r is Some <==> raw_accepted(width as int, height as int, buf@.len() as int),
        r is Some ==> image_width(r->0) == width && image_height(r->0) == height,
        r is Some ==> forall|x: int, y: int|
            0 <= x < width && 0 <= y < height ==> #[trigger] image_pixels(r->0)[(x, y)] == (
                buf@[raw_index(width as int, x, y, 0)],
                buf@[raw_index(width as int, x, y, 1)],
            ),
{
    match ImageBuffer::from_raw(width, height, buf) {
        Some(inner) => Some(GrayAlphaImage { inner }),
        None => None,
    }
}

/// `ImageBuffer::width`.
#[verifier::external_body]
fn buffer_width(img: &GrayAlphaImage) -> (w: u32)
    ensures
        w == image_width(*img),
{
    img.inner.width()
}

/// `ImageBuffer::height`.
#[verifier::external_body]
fn buffer_height(img: &GrayAlphaImage) -> (h: u32)
    ensures
        h == image_height(*img),
{
    img.inner.height()
}

/// `ImageBuffer::get_pixel`, which panics outside the image: inside it, the two
/// channels of the pixel at `(x, y)`.
#[verifier::external_body]
fn buffer_get(img: &GrayAlphaImage, x: u32, y: u32) -> (p: [u8; 2])
    requires
        x < image_width(*img),
        y < image_height(*img),
    ensures
        p@[0] == image_pixels(*img)[(x as int, y as int)].0,
        p@[1] == image_pixels(*img)[(x as int, y as int)].1,
{
    img.inner.get_pixel(x, y).0
}

/// `ImageBuffer::put_pixel`, which panics outside the image: inside it, the pixel
/// at `(x, y)` is replaced and nothing else changes.
#[verifier::external_body]
fn buffer_put(img: &mut GrayAlphaImage, x: u32, y: u32, pixel: [u8; 2])
    requires
        x < image_width(*old(img)),
        y < image_height(*old(img)),
    ensures
        image_width(*final(img)) == image_width(*old(img)),
        image_height(*final(img)) == image_height(*old(img)),
        image_pixels(*final(img)) == image_pixels(*old(img)).insert(
            (x as int, y as int),
            (pixel@[0], pixel@[1]),
        ),
{
    img.inner.put_pixel(x, y, LumaA(pixel))
}

impl GrayAlphaImage {
    /// Whether `(x, y)` addresses a pixel of the image.
    pub open spec fn in_bounds(&self, x: int, y: int) -> bool {
        0 <= x < image_width(*self) && 0 <= y < image_height(*self)
    }

    /// Intensity of the pixel at `(x, y)`.
    pub open spec fn tone(&self, x: int, y: int) -> u8 {
        image_pixels(*self)[(x, y)].0
    }

    /// Alpha of the pixel at `(x, y)`.
    pub open spec fn alpha(&self, x: int, y: int) -> u8 {
        image_pixels(*self)[(x, y)].1
    }

    /// A pixel inside the image whose alpha is not zero.
    pub open spec fn opaque(&self, x: int, y: int) -> bool {
        self.in_bounds(x, y) && self.alpha(x, y) != 0
    }

    /// Whether both dimensions can be written as 16-bit coordinates.
    pub open spec fn small(&self) -> bool {
        image_width(*self) <= u16::MAX && image_height(*self) <= u16::MAX
    }

    /// Builds an image from interleaved intensity and alpha bytes in row-major
    /// order. `None` when the buffer is too short for the dimensions, and when
    /// the bytes of one row are more than a `usize` counts, which a width of
    /// 2^31 or more is where `usize` has 32 bits.
    pub fn from_raw(width: u32, height: u32, buf: Vec<u8>) -> (r: Option<GrayAlphaImage>)
        ensures
            r is Some <==> raw_accepted(width as int, height as int, buf@.len() as int),
            r is Some ==> raw_fits(width as int, height as int, buf@.len() as int),
            raw_fits(width as int, height as int, buf@.len() as int) && 2 * width <= usize::MAX
                ==> r is Some,
            r is Some ==> image_width(r->0) == width && image_height(r->0) == height,
            r is Some ==> forall|x: int, y: int|
                0 <= x < width && 0 <= y < height ==> #[trigger] r->0.tone(x, y)
                    == buf@[raw_index(width as int, x, y, 0)] && r->0.alpha(x, y)
                    == buf@[raw_index(width as int, x, y, 1)],
    {
        let r = buffer_from_raw(width, height, buf);
        proof {
            if r is Some {
                assert forall|x: int, y: int| 0 <= x < width && 0 <= y < height implies #[trigger] r->0.tone(
                    x,
                    y,
                ) == buf@[raw_index(width as int, x, y, 0)] && r->0.alpha(x, y)
                    == buf@[raw_index(width as int, x, y, 1)] by {
                    assert(image_pixels(r->0)[(x, y)] == (
                        buf@[raw_index(width as int, x, y, 0)],
                        buf@[raw_index(width as int, x, y, 1)],
                    ));
                }
            }
        }
        r
    }

    /// Number of columns.
    pub fn width(&self) -> (w: u32)
        ensures
            w == image_width(*self),
    {
        buffer_width(self)
    }

    /// Number of rows.
    pub fn height(&self) -> (h: u32)
        ensures
            h == image_height(*self),
    {
        buffer_height(self)
    }

    /// Both dimensions, columns first.
    pub fn dimensions(&self) -> (d: (u32, u32))
        ensures
            d.0 == image_width(*self),
            d.1 == image_height(*self),
    {
        (buffer_width(self), buffer_height(self))
    }

    /// Intensity and alpha of the pixel at `(x, y)`.
    pub fn get_pixel(&self, x: u32, y: u32) -> (p: [u8; 2])
        requires
            self.in_bounds(x as int, y as int),
        ensures
            p@[0] == self.tone(x as int, y as int),
            p@[1] == self.alpha(x as int, y as int),
    {
        buffer_get(self, x, y)
    }

    /// Replaces the pixel at `(x, y)`; every other pixel and both dimensions stay.
    pub fn put_pixel(&mut self, x: u32, y: u32, pixel: [u8; 2])
        requires
            old(self).in_bounds(x as int, y as int),
        ensures
            image_width(*final(self)) == image_width(*old(self)),
            image_height(*final(self)) == image_height(*old(self)),
            final(self).tone(x as int, y as int) == pixel@[0],
            final(self).alpha(x as int, y as int) == pixel@[1],
            forall|a: int, b: int|
                (a, b) != (x as int, y as int) ==> #[trigger] final(self).tone(a, b) == old(
                    self,
                ).tone(a, b) && final(self).alpha(a, b) == old(self).alpha(a, b),
    {
        buffer_put(self, x, y, pixel)
    }
}

} // verus!
