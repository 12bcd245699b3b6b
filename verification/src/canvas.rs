//! The picture that a render fills: eight-bit pixels with the origin at the
//! lower left.

use vstd::prelude::*;
use crate::fixed::{is_root, lemma_sqrt_is_root, Fixed, SCALE};
use crate::raster::{raster_dimensions, raster_pixels, Raster};
use crate::vec3::Color;

verus! {

/// Raw count of the largest channel value that is written: 0.999.
pub const BRIGHTEST_RAW: i64 = 999_000_000;

/// A picture of a fixed size.
pub struct Canvas {
    img: Raster,
}

pub open spec fn spec_to_byte(channel: Fixed) -> u8 {
    let scaled = Fixed::from_int(256).mul(channel.sqrt().clamp(Fixed::zero(), Fixed { raw: BRIGHTEST_RAW }));
    ((scaled.raw as int) / (SCALE as int)) as u8
}

/// The eight-bit value of one channel: the square root of the channel, for
/// a gamma of two, limited to the range from 0 to 0.999, times 256 and
/// rounded down.
#[verifier::when_used_as_spec(spec_to_byte)]
pub fn to_byte(channel: Fixed) -> (b: u8)
    ensures
        b == spec_to_byte(channel),
{
    let limited = channel.sqrt().clamp(Fixed::zero(), Fixed { raw: BRIGHTEST_RAW });
    let scaled = Fixed::from_int(256).mul(limited);
    proof {
        lemma_scaled_channel(limited);
    }
    (scaled.raw / SCALE) as u8
}

/// A channel between 0 and 0.999, times 256, is less than 256.
proof fn lemma_scaled_channel(limited: Fixed)
    requires
        0 <= limited.raw <= BRIGHTEST_RAW,
    ensures
        0 <= Fixed::from_int(256).mul(limited).raw < 256 * SCALE,
        0 <= (Fixed::from_int(256).mul(limited).raw as int) / (SCALE as int) < 256,
{
    reveal(Fixed::spec_mul);
    let p = (256 * SCALE) * limited.raw;
    assert(0 <= p <= 256 * SCALE * 999_000_000) by (nonlinear_arith)
        requires
            0 <= limited.raw <= 999_000_000,
            p == (256 * SCALE) * limited.raw,
            SCALE == 1_000_000_000,
    ;
    assert(p / (SCALE as int) == 256 * limited.raw) by (nonlinear_arith)
        requires
            p == (256 * SCALE) * limited.raw,
            SCALE == 1_000_000_000,
    ;
    let q = 256 * limited.raw;
    assert(q / (SCALE as int) < 256) by (nonlinear_arith)
        requires
            0 <= q <= 256 * 999_000_000,
            SCALE == 1_000_000_000,
    ;
    assert(0 <= q / (SCALE as int)) by (nonlinear_arith)
        requires
            0 <= q,
            SCALE == 1_000_000_000,
    ;
}

impl Canvas {
    /// The width of the picture in pixels.
    pub closed spec fn columns(self) -> int {
        self.img.columns()
    }

    /// The height of the picture in pixels.
    pub closed spec fn rows(self) -> int {
        self.img.rows()
    }

    /// The pixel in column `x` of row `y`, rows counted from the bottom.
    pub closed spec fn pixel(self, x: int, y: int) -> (u8, u8, u8) {
        self.img.pixel(x, self.rows() - 1 - y)
    }

    /// The picture holds a pixel for every place within its size.
    #[verifier::type_invariant]
    spec fn inv(self) -> bool {
        raster_pixels(self.img).len() == self.img.columns() * self.img.rows()
    }

    /// Whether a picture of the given size can be held in memory: three
    /// bytes for each pixel, in one vector.
    pub open spec fn fits(width: u32, height: u32) -> bool {
        3 * width <= usize::MAX && 3 * width * height <= isize::MAX
    }

    /// A black picture of the given size.
    pub fn new(width: u32, height: u32) -> (canvas: Canvas)
        requires
            Canvas::fits(width, height),
        ensures
            canvas.columns() == width,
            canvas.rows() == height,
            forall|x: int, y: int|
                0 <= x < width && 0 <= y < height ==> #[trigger] canvas.pixel(x, y) == (0u8, 0u8, 0u8),
    {
        let canvas = Canvas { img: Raster::blank(width, height) };
        proof {
            assert forall|x: int, y: int| 0 <= x < width && 0 <= y < height implies #[trigger] canvas.pixel(x, y)
                == (0u8, 0u8, 0u8) by {
                lemma_cell(x, height - 1 - y, width as int, height as int);
            }
        }
        canvas
    }

    /// The width of the picture in pixels.
    pub fn width(&self) -> (w: u32)
        ensures
            w == self.columns(),
    {
        self.img.width()
    }

    /// The height of the picture in pixels.
    pub fn height(&self) -> (h: u32)
        ensures
            h == self.rows(),
    {
        self.img.height()
    }

    pub open spec fn spec_to_rgb(c: &Color) -> (u8, u8, u8) {
        (to_byte(c.0.x), to_byte(c.0.y), to_byte(c.0.z))
    }

    /// The eight-bit pixel for a colour.
    #[verifier::when_used_as_spec(spec_to_rgb)]
    pub fn to_rgb(c: &Color) -> (p: (u8, u8, u8))
        ensures
            p == Canvas::spec_to_rgb(c),
    {
        (to_byte(c.r()), to_byte(c.g()), to_byte(c.b()))
    }

    /// Sets the pixel in column `x` of row `y`, rows counted from the
    /// bottom, to the colour `c`; every other pixel stays as it was.
    pub fn draw(&mut self, x: u32, y: u32, c: &Color)
        requires
            x < old(self).columns(),
            y < old(self).rows(),
        ensures
            final(self).columns() == old(self).columns(),
            final(self).rows() == old(self).rows(),
            final(self).pixel(x as int, y as int) == Canvas::to_rgb(c),
            forall|i: int, j: int|
                0 <= i < old(self).columns() && 0 <= j < old(self).rows() && (i != x || j != y)
                    ==> #[trigger] final(self).pixel(i, j) == old(self).pixel(i, j),
    {
        proof {
            use_type_invariant(&*self);
        }
        let height = self.img.height();
        let ghost width = self.img.columns();
        let ghost before = self.img;
        let row = height - 1 - y;
        proof {
            lemma_cell(x as int, row as int, width, height as int);
        }
        self.img.put_pixel(x, row, Canvas::to_rgb(c));
        proof {
            assert forall|i: int, j: int|
                0 <= i < width && 0 <= j < height && (i != x || j != y) implies #[trigger] self.pixel(i, j)
                == old(self).pixel(i, j) by {
                lemma_cell(i, height - 1 - j, width, height as int);
                lemma_cells_differ(i, height - 1 - j, x as int, row as int, width);
            }
        }
    }

    /// Reads the pixel in column `x` of row `y`, rows counted from the bottom.
    pub fn get(&self, x: u32, y: u32) -> (p: Option<(u8, u8, u8)>)
        ensures
            p.is_some() <==> x < self.columns() && y < self.rows(),
            p matches Some(rgb) ==> rgb == self.pixel(x as int, y as int),
    {
        if x < self.img.width() && y < self.img.height() {
            Some(self.img.get_pixel(x, self.img.height() - 1 - y))
        } else {
            None
        }
    }

    /// The bytes of the picture, three for each pixel, row after row from
    /// the top of the picture: what an encoder of images takes.
    pub fn into_raw(self) -> (data: Vec<u8>)
        ensures
            data.len() >= 3 * self.columns() * self.rows(),
            forall|x: int, y: int|
                0 <= x < self.columns() && 0 <= y < self.rows() ==> #[trigger] self.pixel(x, y) == (
                    data[3 * ((self.rows() - 1 - y) * self.columns() + x)],
                    data[3 * ((self.rows() - 1 - y) * self.columns() + x) + 1],
                    data[3 * ((self.rows() - 1 - y) * self.columns() + x) + 2],
                ),
    {
        proof {
            use_type_invariant(&self);
        }
        let ghost width = self.img.columns();
        let ghost height = self.img.rows();
        let data = self.img.into_raw();
        proof {
            assert forall|x: int, y: int| 0 <= x < width && 0 <= y < height implies #[trigger] self.pixel(x, y)
                == (
                data[3 * ((height - 1 - y) * width + x)],
                data[3 * ((height - 1 - y) * width + x) + 1],
                data[3 * ((height - 1 - y) * width + x) + 2],
            ) by {
                lemma_cell(x, height - 1 - y, width, height);
            }
        }
        data
    }
}

/// A cell of a grid has its place within the row-by-row order of all cells.
proof fn lemma_cell(x: int, y: int, width: int, height: int)
    requires
        0 <= x < width,
        0 <= y < height,
    ensures
        0 <= y * width + x < width * height,
{
    assert(y * width + x < width * height) by (nonlinear_arith)
        requires
            0 <= x < width,
            0 <= y < height,
    ;
    assert(0 <= y * width) by (nonlinear_arith)
        requires
            0 <= y,
            0 < width,
    ;
}

/// Different cells of a grid have different places in the row-by-row order.
proof fn lemma_cells_differ(x1: int, y1: int, x2: int, y2: int, width: int)
    requires
        0 <= x1 < width,
        0 <= x2 < width,
        x1 != x2 || y1 != y2,
    ensures
        y1 * width + x1 != y2 * width + x2,
{
    if y1 != y2 {
        assert(y1 * width + x1 != y2 * width + x2) by (nonlinear_arith)
            requires
                0 <= x1 < width,
                0 <= x2 < width,
                y1 != y2,
        ;
    }
}

} // verus!
