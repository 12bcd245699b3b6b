//! Three-component vectors, points and colours over fixed-point scalars.

use vstd::prelude::*;
use crate::fixed::{Fixed, SCALE};
use crate::random::{draw_between, draw_unit, is_unit_draw};
use crate::trig::TAU_RAW;

verus! {

/// A direction or displacement in space.
#[derive(Clone, Copy, Debug, PartialEq, Eq, Structural)]
pub struct Vec3 {
    pub x: Fixed,
    pub y: Fixed,
    pub z: Fixed,
}

/// A position in space.
#[derive(Clone, Copy, Debug, PartialEq, Eq, Structural)]
pub struct Point(pub Vec3);

/// A colour: red, green and blue, each nominally between zero and one.
#[derive(Clone, Copy, Debug, PartialEq, Eq, Structural)]
pub struct Color(pub Vec3);

/// Largest raw magnitude that still counts as zero for `Vec3::near_zero`.
pub const NEAR_ZERO_RAW: i64 = 10;

impl Vec3 {
    pub open spec fn spec_new(x: Fixed, y: Fixed, z: Fixed) -> Vec3 {
        Vec3 { x, y, z }
    }

    /// The vector with the given components.
    #[verifier::when_used_as_spec(spec_new)]
    pub fn new(x: Fixed, y: Fixed, z: Fixed) -> (r: Vec3)
        ensures
            r == Vec3::spec_new(x, y, z),
    {
        Vec3 { x, y, z }
    }

    /// The direction on the unit sphere that two draws between zero and one
    /// select: the first gives the angle around the third axis as a fraction
    /// of a turn, the second the height along it.
    pub open spec fn spec_unit_from(turn: Fixed, height: Fixed) -> Vec3 {
        let theta = Fixed { raw: TAU_RAW }.mul(turn);
        let phi = Fixed::one().sub(Fixed::from_int(2).mul(height)).acos();
        Vec3 {
            x: phi.sin().mul(theta.cos()),
            y: phi.sin().mul(theta.sin()),
            z: phi.cos(),
        }
    }

    /// Maps two draws between zero and one to a direction of length one,
    /// up to rounding.
    #[verifier::when_used_as_spec(spec_unit_from)]
    pub fn unit_from(turn: Fixed, height: Fixed) -> (r: Vec3)
        ensures
            r == Vec3::spec_unit_from(turn, height),
            r.is_within_unit_cube(),
    {
        let theta = Fixed { raw: TAU_RAW }.mul(turn);
        let phi = Fixed::one().sub(Fixed::from_int(2).mul(height)).acos();
        let (sin_phi, cos_phi) = phi.sin_cos();
        let (sin_theta, cos_theta) = theta.sin_cos();
        proof {
            reveal(Fixed::spec_mul);
            lemma_product_within_unit(sin_phi.raw as int, cos_theta.raw as int);
            lemma_product_within_unit(sin_phi.raw as int, sin_theta.raw as int);
        }
        Vec3 { x: sin_phi.mul(cos_theta), y: sin_phi.mul(sin_theta), z: cos_phi }
    }

    /// Whether no component is beyond minus one or one.
    pub open spec fn is_within_unit_cube(self) -> bool {
        &&& -SCALE <= self.x.raw <= SCALE
        &&& -SCALE <= self.y.raw <= SCALE
        &&& -SCALE <= self.z.raw <= SCALE
    }

    /// A direction drawn at random from the unit sphere.
    pub fn random_unit() -> (r: Vec3)
        ensures
            exists|turn: Fixed, height: Fixed|
                is_unit_draw(turn) && is_unit_draw(height) && r == #[trigger] Vec3::unit_from(turn, height),
            r.is_within_unit_cube(),
    {
        let turn = draw_unit();
        let height = draw_unit();
        Vec3::unit_from(turn, height)
    }

    /// The component along `axis`: the first for 0, the second for 1, and
    /// the third for 2.
    pub open spec fn along(self, axis: u32) -> Fixed
        recommends
            axis < 3,
    {
        if axis == 0 {
            self.x
        } else if axis == 1 {
            self.y
        } else {
            self.z
        }
    }

    /// The first component.
    pub fn x(self) -> (r: Fixed)
        ensures
            r == self.x,
    {
        self.x
    }

    /// The second component.
    pub fn y(self) -> (r: Fixed)
        ensures
            r == self.y,
    {
        self.y
    }

    /// The third component.
    pub fn z(self) -> (r: Fixed)
        ensures
            r == self.z,
    {
        self.z
    }

    pub open spec fn spec_add(self, rhs: Vec3) -> Vec3 {
        Vec3 { x: self.x.add(rhs.x), y: self.y.add(rhs.y), z: self.z.add(rhs.z) }
    }

    /// Component-wise sum.
    #[verifier::when_used_as_spec(spec_add)]
    pub fn add(self, rhs: Vec3) -> (r: Vec3)
        ensures
            r == self.spec_add(rhs),
    {
        Vec3 { x: self.x.add(rhs.x), y: self.y.add(rhs.y), z: self.z.add(rhs.z) }
    }

    pub open spec fn spec_sub(self, rhs: Vec3) -> Vec3 {
        Vec3 { x: self.x.sub(rhs.x), y: self.y.sub(rhs.y), z: self.z.sub(rhs.z) }
    }

    /// Component-wise difference.
    #[verifier::when_used_as_spec(spec_sub)]
    pub fn sub(self, rhs: Vec3) -> (r: Vec3)
        ensures
            r == self.spec_sub(rhs),
    {
        Vec3 { x: self.x.sub(rhs.x), y: self.y.sub(rhs.y), z: self.z.sub(rhs.z) }
    }

    pub open spec fn spec_mul(self, rhs: Vec3) -> Vec3 {
        Vec3 { x: self.x.mul(rhs.x), y: self.y.mul(rhs.y), z: self.z.mul(rhs.z) }
    }

    /// Component-wise product.
    #[verifier::when_used_as_spec(spec_mul)]
    pub fn mul(self, rhs: Vec3) -> (r: Vec3)
        ensures
            r == self.spec_mul(rhs),
    {
        Vec3 { x: self.x.mul(rhs.x), y: self.y.mul(rhs.y), z: self.z.mul(rhs.z) }
    }

    pub open spec fn spec_scale(self, k: Fixed) -> Vec3 {
        Vec3 { x: self.x.mul(k), y: self.y.mul(k), z: self.z.mul(k) }
    }

    /// Every component multiplied by `k`.
    #[verifier::when_used_as_spec(spec_scale)]
    pub fn scale(self, k: Fixed) -> (r: Vec3)
        ensures
            r == self.spec_scale(k),
    {
        Vec3 { x: self.x.mul(k), y: self.y.mul(k), z: self.z.mul(k) }
    }

    pub open spec fn spec_div(self, k: Fixed) -> Vec3 {
        Vec3 { x: self.x.div(k), y: self.y.div(k), z: self.z.div(k) }
    }

    /// Every component divided by `k`.
    #[verifier::when_used_as_spec(spec_div)]
    pub fn div(self, k: Fixed) -> (r: Vec3)
        ensures
            r == self.spec_div(k),
    {
        Vec3 { x: self.x.div(k), y: self.y.div(k), z: self.z.div(k) }
    }

    pub open spec fn spec_neg(self) -> Vec3 {
        Vec3 { x: self.x.neg(), y: self.y.neg(), z: self.z.neg() }
    }

    /// The opposite vector.
    #[verifier::when_used_as_spec(spec_neg)]
    pub fn neg(self) -> (r: Vec3)
        ensures
            r == self.spec_neg(),
    {
        Vec3 { x: self.x.neg(), y: self.y.neg(), z: self.z.neg() }
    }

    pub open spec fn spec_abs(self) -> Vec3 {
        Vec3 { x: self.x.abs(), y: self.y.abs(), z: self.z.abs() }
    }

    /// Component-wise absolute value.
    #[verifier::when_used_as_spec(spec_abs)]
    pub fn abs(self) -> (r: Vec3)
        ensures
            r == self.spec_abs(),
    {
        Vec3 { x: self.x.abs(), y: self.y.abs(), z: self.z.abs() }
    }

    pub open spec fn spec_min(self, other: Vec3) -> Vec3 {
        Vec3 { x: self.x.min(other.x), y: self.y.min(other.y), z: self.z.min(other.z) }
    }

    /// Component-wise minimum.
    #[verifier::when_used_as_spec(spec_min)]
    pub fn min(self, other: Vec3) -> (r: Vec3)
        ensures
            r == self.spec_min(other),
    {
        Vec3 { x: self.x.min(other.x), y: self.y.min(other.y), z: self.z.min(other.z) }
    }

    pub open spec fn spec_max(self, other: Vec3) -> Vec3 {
        Vec3 { x: self.x.max(other.x), y: self.y.max(other.y), z: self.z.max(other.z) }
    }

    /// Component-wise maximum.
    #[verifier::when_used_as_spec(spec_max)]
    pub fn max(self, other: Vec3) -> (r: Vec3)
        ensures
            r == self.spec_max(other),
    {
        Vec3 { x: self.x.max(other.x), y: self.y.max(other.y), z: self.z.max(other.z) }
    }

    pub open spec fn spec_min_element(self) -> Fixed {
        self.x.min(self.y).min(self.z)
    }

    /// The smallest of the three components.
    #[verifier::when_used_as_spec(spec_min_element)]
    pub fn min_element(self) -> (r: Fixed)
        ensures
            r == self.spec_min_element(),
            r.raw <= self.x.raw && r.raw <= self.y.raw && r.raw <= self.z.raw,
            r == self.x || r == self.y || r == self.z,
    {
        self.x.min(self.y).min(self.z)
    }

    pub open spec fn spec_max_element(self) -> Fixed {
        self.x.max(self.y).max(self.z)
    }

    /// The largest of the three components.
    #[verifier::when_used_as_spec(spec_max_element)]
    pub fn max_element(self) -> (r: Fixed)
        ensures
            r == self.spec_max_element(),
            r.raw >= self.x.raw && r.raw >= self.y.raw && r.raw >= self.z.raw,
            r == self.x || r == self.y || r == self.z,
    {
        self.x.max(self.y).max(self.z)
    }

    pub open spec fn spec_dot(self, rhs: Vec3) -> Fixed {
        self.x.mul(rhs.x).add(self.y.mul(rhs.y)).add(self.z.mul(rhs.z))
    }

    /// Inner product: the three products are rounded one by one and summed from the left.
    #[verifier::when_used_as_spec(spec_dot)]
    pub fn dot(self, rhs: Vec3) -> (r: Fixed)
        ensures
            r == self.spec_dot(rhs),
    {
        self.x.mul(rhs.x).add(self.y.mul(rhs.y)).add(self.z.mul(rhs.z))
    }

    pub open spec fn spec_dot_as_vec3(self, rhs: Vec3) -> Vec3 {
        Vec3 { x: self.dot(rhs), y: self.dot(rhs), z: self.dot(rhs) }
    }

    /// The inner product, repeated in all three components.
    #[verifier::when_used_as_spec(spec_dot_as_vec3)]
    pub fn dot_as_vec3(self, rhs: Vec3) -> (r: Vec3)
        ensures
            r == self.spec_dot_as_vec3(rhs),
    {
        let d = self.dot(rhs);
        Vec3 { x: d, y: d, z: d }
    }

    pub open spec fn spec_cross(self, rhs: Vec3) -> Vec3 {
        Vec3 {
            x: self.y.mul(rhs.z).sub(self.z.mul(rhs.y)),
            y: self.z.mul(rhs.x).sub(self.x.mul(rhs.z)),
            z: self.x.mul(rhs.y).sub(self.y.mul(rhs.x)),
        }
    }

    /// Vector product.
    #[verifier::when_used_as_spec(spec_cross)]
    pub fn cross(self, rhs: Vec3) -> (r: Vec3)
        ensures
            r == self.spec_cross(rhs),
    {
        Vec3 {
            x: self.y.mul(rhs.z).sub(self.z.mul(rhs.y)),
            y: self.z.mul(rhs.x).sub(self.x.mul(rhs.z)),
            z: self.x.mul(rhs.y).sub(self.y.mul(rhs.x)),
        }
    }

    pub open spec fn spec_norm_squared(self) -> Fixed {
        self.dot(self)
    }

    /// Squared length.
    #[verifier::when_used_as_spec(spec_norm_squared)]
    pub fn norm_squared(self) -> (r: Fixed)
        ensures
            r == self.spec_norm_squared(),
    {
        self.dot(self)
    }

    pub open spec fn spec_norm(self) -> Fixed {
        self.norm_squared().sqrt()
    }

    /// Length.
    #[verifier::when_used_as_spec(spec_norm)]
    pub fn norm(self) -> (r: Fixed)
        ensures
            r == self.spec_norm(),
            r.raw >= 0,
    {
        self.norm_squared().sqrt()
    }

    pub open spec fn spec_normalize(self) -> Vec3 {
        self.div(self.norm())
    }

    /// The vector divided by its own length. A vector of length zero stays
    /// where division by zero puts it: saturated, or zero where it was zero.
    #[verifier::when_used_as_spec(spec_normalize)]
    pub fn normalize(self) -> (r: Vec3)
        ensures
            r == self.spec_normalize(),
    {
        self.div(self.norm())
    }

    pub open spec fn spec_near_zero(self) -> bool {
        self.abs().max_element().raw <= NEAR_ZERO_RAW
    }

    /// Whether every component is within a hundred-millionth of zero.
    #[verifier::when_used_as_spec(spec_near_zero)]
    pub fn near_zero(self) -> (r: bool)
        ensures
            r == self.spec_near_zero(),
            r <==> -NEAR_ZERO_RAW <= self.x.raw <= NEAR_ZERO_RAW
                && -NEAR_ZERO_RAW <= self.y.raw <= NEAR_ZERO_RAW
                && -NEAR_ZERO_RAW <= self.z.raw <= NEAR_ZERO_RAW,
    {
        self.abs().max_element().raw <= NEAR_ZERO_RAW
    }

    pub open spec fn spec_recip(self, k: Fixed) -> Vec3 {
        Vec3 { x: k.div(self.x), y: k.div(self.y), z: k.div(self.z) }
    }

    /// The scalar `k` divided by every component in turn.
    #[verifier::when_used_as_spec(spec_recip)]
    pub fn recip(self, k: Fixed) -> (r: Vec3)
        ensures
            r == self.spec_recip(k),
    {
        Vec3 { x: k.div(self.x), y: k.div(self.y), z: k.div(self.z) }
    }
}

/// The rounded product of two scalars between minus one and one lies between them too.
proof fn lemma_product_within_unit(a: int, b: int)
    requires
        -SCALE <= a <= SCALE,
        -SCALE <= b <= SCALE,
    ensures
        -SCALE <= crate::fixed::quotient(a * b, SCALE as int) <= SCALE,
{
    let m = crate::fixed::magnitude(a * b);
    assert(m <= SCALE * SCALE) by (nonlinear_arith)
        requires
            -SCALE <= a <= SCALE,
            -SCALE <= b <= SCALE,
            m == crate::fixed::magnitude(a * b),
    ;
    assert(0 <= m / (SCALE as int) <= SCALE) by (nonlinear_arith)
        requires
            0 <= m <= SCALE * SCALE,
            SCALE == 1_000_000_000,
    ;
}

/// A squared length is never negative.
pub proof fn lemma_norm_squared_nonnegative(v: Vec3)
    ensures
        v.norm_squared().raw >= 0,
{
    crate::fixed::lemma_square_nonnegative(v.x);
    crate::fixed::lemma_square_nonnegative(v.y);
    crate::fixed::lemma_square_nonnegative(v.z);
}

impl Point {
    pub open spec fn spec_new(x: Fixed, y: Fixed, z: Fixed) -> Point {
        Point(Vec3 { x, y, z })
    }

    /// The point with the given coordinates.
    #[verifier::when_used_as_spec(spec_new)]
    pub fn new(x: Fixed, y: Fixed, z: Fixed) -> (r: Point)
        ensures
            r == Point::spec_new(x, y, z),
    {
        Point(Vec3 { x, y, z })
    }

    pub open spec fn spec_add(self, rhs: Vec3) -> Point {
        Point(self.0.add(rhs))
    }

    /// The point displaced by `rhs`.
    #[verifier::when_used_as_spec(spec_add)]
    pub fn add(self, rhs: Vec3) -> (r: Point)
        ensures
            r == self.spec_add(rhs),
    {
        Point(self.0.add(rhs))
    }

    pub open spec fn spec_sub(self, rhs: Vec3) -> Point {
        Point(self.0.sub(rhs))
    }

    /// The point displaced against `rhs`.
    #[verifier::when_used_as_spec(spec_sub)]
    pub fn sub(self, rhs: Vec3) -> (r: Point)
        ensures
            r == self.spec_sub(rhs),
    {
        Point(self.0.sub(rhs))
    }

    pub open spec fn spec_diff(self, rhs: Point) -> Vec3 {
        self.0.sub(rhs.0)
    }

    /// The displacement that leads from `rhs` to this point.
    #[verifier::when_used_as_spec(spec_diff)]
    pub fn diff(self, rhs: Point) -> (r: Vec3)
        ensures
            r == self.spec_diff(rhs),
    {
        self.0.sub(rhs.0)
    }

    pub open spec fn spec_add_point(self, rhs: Point) -> Point {
        Point(self.0.add(rhs.0))
    }

    /// Coordinate-wise sum of two points.
    #[verifier::when_used_as_spec(spec_add_point)]
    pub fn add_point(self, rhs: Point) -> (r: Point)
        ensures
            r == self.spec_add_point(rhs),
    {
        Point(self.0.add(rhs.0))
    }

    pub open spec fn spec_scale(self, k: Fixed) -> Point {
        Point(self.0.scale(k))
    }

    /// Every coordinate multiplied by `k`.
    #[verifier::when_used_as_spec(spec_scale)]
    pub fn scale(self, k: Fixed) -> (r: Point)
        ensures
            r == self.spec_scale(k),
    {
        Point(self.0.scale(k))
    }
}

impl Color {
    pub open spec fn spec_new(r: Fixed, g: Fixed, b: Fixed) -> Color {
        Color(Vec3 { x: r, y: g, z: b })
    }

    /// The colour with the given channels.
    #[verifier::when_used_as_spec(spec_new)]
    pub fn new(r: Fixed, g: Fixed, b: Fixed) -> (c: Color)
        ensures
            c == Color::spec_new(r, g, b),
    {
        Color(Vec3 { x: r, y: g, z: b })
    }

    pub open spec fn spec_black() -> Color {
        Color::new(Fixed::zero(), Fixed::zero(), Fixed::zero())
    }

    /// Black: no light at all.
    #[verifier::when_used_as_spec(spec_black)]
    pub fn black() -> (c: Color)
        ensures
            c == Color::spec_black(),
    {
        Color::new(Fixed::zero(), Fixed::zero(), Fixed::zero())
    }

    pub open spec fn spec_white() -> Color {
        Color::new(Fixed::one(), Fixed::one(), Fixed::one())
    }

    /// White: every channel at one.
    #[verifier::when_used_as_spec(spec_white)]
    pub fn white() -> (c: Color)
        ensures
            c == Color::spec_white(),
    {
        Color::new(Fixed::one(), Fixed::one(), Fixed::one())
    }

    /// A colour with each channel drawn from zero up to one.
    pub fn random() -> (c: Color)
        ensures
            is_unit_draw(c.0.x) && is_unit_draw(c.0.y) && is_unit_draw(c.0.z),
    {
        let r = draw_unit();
        let g = draw_unit();
        let b = draw_unit();
        Color::new(r, g, b)
    }

    /// A colour with each channel drawn from `lo` up to `hi`; every channel
    /// is `lo` where nothing lies between the two.
    pub fn random_range(lo: Fixed, hi: Fixed) -> (c: Color)
        ensures
            lo.raw < hi.raw ==> lo.raw <= c.0.x.raw < hi.raw && lo.raw <= c.0.y.raw < hi.raw && lo.raw
                <= c.0.z.raw < hi.raw,
            lo.raw >= hi.raw ==> c == Color::new(lo, lo, lo),
    {
        let r = draw_between(lo, hi);
        let g = draw_between(lo, hi);
        let b = draw_between(lo, hi);
        Color::new(r, g, b)
    }

    /// The red channel.
    pub fn r(self) -> (v: Fixed)
        ensures
            v == self.0.x,
    {
        self.0.x
    }

    /// The green channel.
    pub fn g(self) -> (v: Fixed)
        ensures
            v == self.0.y,
    {
        self.0.y
    }

    /// The blue channel.
    pub fn b(self) -> (v: Fixed)
        ensures
            v == self.0.z,
    {
        self.0.z
    }

    pub open spec fn spec_scale(self, k: Fixed) -> Color {
        Color(self.0.scale(k))
    }

    /// Every channel multiplied by `k`.
    #[verifier::when_used_as_spec(spec_scale)]
    pub fn scale(self, k: Fixed) -> (c: Color)
        ensures
            c == self.spec_scale(k),
    {
        Color(self.0.scale(k))
    }

    pub open spec fn spec_mul(self, rhs: Color) -> Color {
        Color(self.0.mul(rhs.0))
    }

    /// Channel-wise product: light filtered by a surface colour.
    #[verifier::when_used_as_spec(spec_mul)]
    pub fn mul(self, rhs: Color) -> (c: Color)
        ensures
            c == self.spec_mul(rhs),
    {
        Color(self.0.mul(rhs.0))
    }

    pub open spec fn spec_add(self, rhs: Color) -> Color {
        Color(self.0.add(rhs.0))
    }

    /// Channel-wise sum.
    #[verifier::when_used_as_spec(spec_add)]
    pub fn add(self, rhs: Color) -> (c: Color)
        ensures
            c == self.spec_add(rhs),
    {
        Color(self.0.add(rhs.0))
    }

    /// Adds `rhs` to this colour in place.
    pub fn add_assign(&mut self, rhs: Color)
        ensures
            *final(self) == old(self).spec_add(rhs),
    {
        self.0 = self.0.add(rhs.0);
    }

    pub open spec fn spec_div(self, k: Fixed) -> Color {
        Color(self.0.div(k))
    }

    /// Every channel divided by `k`.
    #[verifier::when_used_as_spec(spec_div)]
    pub fn div(self, k: Fixed) -> (c: Color)
        ensures
            c == self.spec_div(k),
    {
        Color(self.0.div(k))
    }

    /// Divides every channel by `k` in place.
    pub fn div_assign(&mut self, k: Fixed)
        ensures
            *final(self) == old(self).spec_div(k),
    {
        self.0 = self.0.div(k);
    }
}

} // verus!
