//! Surface textures: a plain colour, a raster image, or a checkerboard of
//! two further textures.

use vstd::prelude::*;
use std::sync::Arc;
use crate::fixed::{Fixed, SCALE};
use crate::raster::{raster_dimensions, raster_pixels, Raster};
use crate::vec3::{Color, Point};

verus! {

/// A raster image with at least one pixel, shared by the surfaces that show it.
pub struct ImageTexture {
    raster: Arc<Raster>,
}

/// What colours a surface.
pub enum Texture {
    /// The same colour everywhere.
    Color(Color),
    /// A raster image, looked up by the surface coordinates.
    Image(ImageTexture),
    /// Two textures that alternate in space like the fields of a checkerboard.
    Checkers(Arc<Texture>, Arc<Texture>),
}

/// The column or row that a surface coordinate `c`, already between zero
/// and one, selects among `count` of them: `c * count` rounded down, and the
/// last one where that would lie beyond it.
pub open spec fn texel_index(c: Fixed, count: int) -> int {
    let scaled = (c.raw * count) / (SCALE as int);
    if scaled > count - 1 {
        count - 1
    } else {
        scaled
    }
}

/// The colour of one pixel: each channel divided by 255.
pub open spec fn spec_channel_color(p: (u8, u8, u8)) -> Color {
    Color::new(
        Fixed::from_int(p.0 as i32).div(Fixed::from_int(255)),
        Fixed::from_int(p.1 as i32).div(Fixed::from_int(255)),
        Fixed::from_int(p.2 as i32).div(Fixed::from_int(255)),
    )
}

/// Turns eight-bit channels into a colour between black and white.
#[verifier::when_used_as_spec(spec_channel_color)]
pub fn channel_color(p: (u8, u8, u8)) -> (c: Color)
    ensures
        c == spec_channel_color(p),
{
    Color::new(
        Fixed::from_int(p.0 as i32).div(Fixed::from_int(255)),
        Fixed::from_int(p.1 as i32).div(Fixed::from_int(255)),
        Fixed::from_int(p.2 as i32).div(Fixed::from_int(255)),
    )
}

/// Whether the point `p` falls on a field of the first of two chequered
/// textures: the product of the sines of ten times its coordinates is negative.
pub open spec fn spec_on_first_field(p: Point) -> bool {
    let w = p.0.scale(Fixed::from_int(10));
    w.x.sin().mul(w.y.sin()).mul(w.z.sin()).raw < 0
}

/// Decides which of the two textures of a checkerboard colours the point `p`.
#[verifier::when_used_as_spec(spec_on_first_field)]
pub fn on_first_field(p: Point) -> (r: bool)
    ensures
        r == spec_on_first_field(p),
{
    let w = p.0.scale(Fixed::from_int(10));
    w.x().sin().mul(w.y().sin()).mul(w.z().sin()).raw < 0
}

impl ImageTexture {
    #[verifier::type_invariant]
    spec fn inv(self) -> bool {
        raster_dimensions(*self.raster).0 > 0 && raster_dimensions(*self.raster).1 > 0
    }

    /// The image behind this texture.
    pub closed spec fn raster(self) -> Raster {
        *self.raster
    }

    /// An image texture over the given bytes, three per pixel, row after row
    /// from the top. `None` where a side is zero or the bytes are too few.
    pub fn from_raw(width: u32, height: u32, data: Vec<u8>) -> (r: Option<ImageTexture>)
        ensures
            r.is_some() <==> width > 0 && height > 0 && 3 * width * height <= data.len(),
            r matches Some(t) ==> {
                &&& t.raster().columns() == width
                &&& t.raster().rows() == height
                &&& forall|x: int, y: int|
                    0 <= x < width && 0 <= y < height ==> #[trigger] t.raster().pixel(x, y) == (
                        data[3 * (y * width + x)],
                        data[3 * (y * width + x) + 1],
                        data[3 * (y * width + x) + 2],
                    )
            },
    {
        if width == 0 || height == 0 {
            return None;
        }
        let ghost bytes = data@;
        proof {
            assert(3 * width <= 3 * width * height) by (nonlinear_arith)
                requires
                    width > 0,
                    height > 0,
            ;
        }
        match Raster::from_raw(width, height, data) {
            Some(raster) => {
                let t = ImageTexture { raster: Arc::new(raster) };
                proof {
                    assert forall|x: int, y: int| 0 <= x < width && 0 <= y < height implies #[trigger] t.raster().pixel(
                        x,
                        y,
                    ) == (
                        bytes[3 * (y * width + x)],
                        bytes[3 * (y * width + x) + 1],
                        bytes[3 * (y * width + x) + 2],
                    ) by {
                        lemma_cell_in_range(x, y, width as int, height as int);
                    }
                }
                Some(t)
            },
            None => None,
        }
    }

    /// The colour that the surface coordinates `(u, v)` select: `u` runs
    /// from the left edge to the right, `v` from the bottom row to the top.
    pub open spec fn color_at(self, u: Fixed, v: Fixed) -> Color {
        let cu = u.clamp(Fixed::zero(), Fixed::one());
        let cv = Fixed::one().sub(v.clamp(Fixed::zero(), Fixed::one()));
        channel_color(
            self.raster().pixel(
                texel_index(cu, self.raster().columns()),
                texel_index(cv, self.raster().rows()),
            ),
        )
    }

    /// Looks the colour up in the image, at the pixel nearest below `(u, 1 - v)`.
    pub fn lookup(&self, u: Fixed, v: Fixed) -> (c: Color)
        ensures
            c == self.color_at(u, v),
    {
        proof {
            use_type_invariant(self);
        }
        let cu = u.clamp(Fixed::zero(), Fixed::one());
        let cv = Fixed::one().sub(v.clamp(Fixed::zero(), Fixed::one()));
        let i = pick_texel(cu, self.raster.width());
        let j = pick_texel(cv, self.raster.height());
        channel_color(self.raster.get_pixel(i, j))
    }
}

/// A cell of a grid has its place within the row-by-row order of all cells.
proof fn lemma_cell_in_range(x: int, y: int, width: int, height: int)
    requires
        0 <= x < width,
        0 <= y < height,
    ensures
        0 <= y * width + x < width * height,
{
    assert(y * width + x < width * height) by (nonlinear_arith)
        requires
            0 <= x < width,
            0 <= y < height,
    ;
    assert(0 <= y * width) by (nonlinear_arith)
        requires
            0 <= y,
            0 < width,
    ;
}

/// Picks the column or row for a coordinate between zero and one.
fn pick_texel(c: Fixed, count: u32) -> (i: u32)
    requires
        count > 0,
        0 <= c.raw <= SCALE,
    ensures
        i == texel_index(c, count as int),
        i < count,
{
    proof {
        assert(c.raw * count <= 1_000_000_000 * 0xffff_ffff) by (nonlinear_arith)
            requires
                0 <= c.raw <= 1_000_000_000,
                0 < count <= 0xffff_ffff,
        ;
        assert(0 <= c.raw * count) by (nonlinear_arith)
            requires
                0 <= c.raw,
                0 < count,
        ;
        assert((c.raw * count) / 1_000_000_000 <= count) by (nonlinear_arith)
            requires
                0 <= c.raw <= 1_000_000_000,
                0 < count,
        ;
    }
    let wide: u128 = (c.raw as u128) * (count as u128);
    let scaled: u128 = wide / 1_000_000_000u128;
    if scaled > (count - 1) as u128 {
        count - 1
    } else {
        scaled as u32
    }
}

impl Texture {
    /// The colour of the texture at the surface coordinates `(u, v)` and the point `p`.
    pub open spec fn color_at(self, u: Fixed, v: Fixed, p: Point) -> Color
        decreases self,
    {
        match self {
            Texture::Color(c) => c,
            Texture::Image(img) => img.color_at(u, v),
            Texture::Checkers(first, second) => if on_first_field(p) {
                first.color_at(u, v, p)
            } else {
                second.color_at(u, v, p)
            },
        }
    }

    /// The colour of the texture at the surface coordinates `(u, v)` and the point `p`.
    pub fn value(&self, u: Fixed, v: Fixed, p: Point) -> (c: Color)
        ensures
            c == self.color_at(u, v, p),
        decreases self,
    {
        match self {
            Texture::Color(c) => *c,
            Texture::Image(img) => img.lookup(u, v),
            Texture::Checkers(first, second) => if on_first_field(p) {
                first.value(u, v, p)
            } else {
                second.value(u, v, p)
            },
        }
    }
}

} // verus!
