//! Raster images of eight-bit red, green and blue, kept in the `image`
//! crate's buffer. Nothing here is proved: each function states what the
//! buffer's own method does.

use vstd::prelude::*;

verus! {

/// An `image::RgbImage`.
#[verifier::external_body]
pub struct Raster {
    inner: image::RgbImage,
}

/// The width and the height of an image, in pixels.
pub uninterp spec fn raster_dimensions(r: Raster) -> (u32, u32);

/// The pixels of an image as red, green and blue, row after row from the top
/// and from left to right within a row.
pub uninterp spec fn raster_pixels(r: Raster) -> Seq<(u8, u8, u8)>;

impl Raster {
    /// The width in pixels.
    pub open spec fn columns(self) -> int {
        raster_dimensions(self).0 as int
    }

    /// The height in pixels.
    pub open spec fn rows(self) -> int {
        raster_dimensions(self).1 as int
    }

    /// The pixel in column `x` of row `y`, rows counted from the top.
    pub open spec fn pixel(self, x: int, y: int) -> (u8, u8, u8) {
        raster_pixels(self)[y * self.columns() + x]
    }

    /// `ImageBuffer::new`: an image of the given size with every channel at
    /// zero. The call panics where the number of bytes, three for each
    /// pixel, cannot be counted or is more than a vector holds.
    #[verifier::external_body]
    pub(crate) fn blank(width: u32, height: u32) -> (r: Raster)
        requires
            3 * width <= usize::MAX,
            3 * width * height <= isize::MAX,
        ensures
            raster_dimensions(r) == (width, height),
            raster_pixels(r).len() == width * height,
            forall|i: int| 0 <= i < width * height ==> raster_pixels(r)[i] == (0u8, 0u8, 0u8),
    {
        Raster { inner: image::ImageBuffer::new(width, height) }
    }

    /// `ImageBuffer::from_raw`: an image over the given bytes, three per
    /// pixel, or `None` where the bytes are too few for the stated size or
    /// their number cannot be counted.
    #[verifier::external_body]
    pub(crate) fn from_raw(width: u32, height: u32, data: Vec<u8>) -> (r: Option<Raster>)
        ensures
            r.is_some() <==> (3 * width <= usize::MAX && 3 * width * height <= data.len()),
            r matches Some(img) ==> {
                &&& raster_dimensions(img) == (width, height)
                &&& raster_pixels(img).len() == width * height
                &&& forall|i: int|
                    0 <= i < width * height ==> raster_pixels(img)[i] == (
                        data[3 * i],
                        data[3 * i + 1],
                        data[3 * i + 2],
                    )
            },
    {
        match image::ImageBuffer::from_raw(width, height, data) {
            Some(inner) => Some(Raster { inner }),
            None => None,
        }
    }

    /// `ImageBuffer::width`.
    #[verifier::external_body]
    pub(crate) fn width(&self) -> (w: u32)
        ensures
            w == raster_dimensions(*self).0,
    {
        self.inner.width()
    }

    /// `ImageBuffer::height`.
    #[verifier::external_body]
    pub(crate) fn height(&self) -> (h: u32)
        ensures
            h == raster_dimensions(*self).1,
    {
        self.inner.height()
    }

    /// `ImageBuffer::get_pixel`: the pixel in column `x` of row `y`. The call
    /// panics outside the image.
    #[verifier::external_body]
    pub(crate) fn get_pixel(&self, x: u32, y: u32) -> (p: (u8, u8, u8))
        requires
            x < self.columns(),
            y < self.rows(),
        ensures
            p == self.pixel(x as int, y as int),
    {
        let rgb = self.inner.get_pixel(x, y);
        (rgb.0[0], rgb.0[1], rgb.0[2])
    }

    /// `ImageBuffer::put_pixel`: replaces the pixel in column `x` of row `y`
    /// and leaves every other pixel and the size as they were. The call
    /// panics outside the image, and nowhere else.
    #[verifier::external_body]
    pub(crate) fn put_pixel(&mut self, x: u32, y: u32, p: (u8, u8, u8))
        requires
            x < old(self).columns(),
            y < old(self).rows(),
        ensures
            raster_dimensions(*final(self)) == raster_dimensions(*old(self)),
            raster_pixels(*final(self)) == raster_pixels(*old(self)).update(
                y * old(self).columns() + x,
                p,
            ),
        no_unwind
    {
        self.inner.put_pixel(x, y, image::Rgb([p.0, p.1, p.2]))
    }

    /// `ImageBuffer::into_raw`: the bytes under the image, three per pixel in
    /// pixel order; bytes past the last pixel may follow.
    #[verifier::external_body]
    pub(crate) fn into_raw(self) -> (data: Vec<u8>)
        ensures
            data.len() >= 3 * self.columns() * self.rows(),
            forall|i: int|
                0 <= i < self.columns() * self.rows() ==> raster_pixels(self)[i] == (
                    data[3 * i],
                    data[3 * i + 1],
                    data[3 * i + 2],
                ),
    {
        self.inner.into_raw()
    }
}

} // verus!
