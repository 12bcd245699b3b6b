//! Rays aimed at the centre of a sphere along an axis: where they hit, and
//! what the record of the hit holds.

use vstd::prelude::*;
use crate::fixed::{
    is_root,
    lemma_root_unique,
    lemma_sqrt_is_root,
    lemma_unit_factors,
    magnitude,
    quotient,
    Fixed,
    SCALE,
};
use crate::object::{in_range, HitResult, Sphere};
use crate::ray::Ray;
use crate::vec3::{Point, Vec3};

verus! {

/// Largest raw coordinate and distance for which the law below is stated:
/// ten thousand.
pub const REACH_RAW: i64 = 10_000_000_000_000;

/// Whether `d` is one of the six directions of length one along an axis.
pub open spec fn is_axis_direction(d: Vec3) -> bool {
    ||| (d.x.raw == SCALE || d.x.raw == -SCALE) && d.y.raw == 0 && d.z.raw == 0
    ||| d.x.raw == 0 && (d.y.raw == SCALE || d.y.raw == -SCALE) && d.z.raw == 0
    ||| d.x.raw == 0 && d.y.raw == 0 && (d.z.raw == SCALE || d.z.raw == -SCALE)
}

/// Whether every coordinate of `p` is within `REACH_RAW` of zero.
pub open spec fn is_within_reach(p: Point) -> bool {
    &&& -REACH_RAW <= p.0.x.raw <= REACH_RAW
    &&& -REACH_RAW <= p.0.y.raw <= REACH_RAW
    &&& -REACH_RAW <= p.0.z.raw <= REACH_RAW
}

/// The radius as a hit sees it: the root of the rounded square of the radius.
pub open spec fn seen_radius(radius: Fixed) -> Fixed {
    radius.mul(radius).sqrt()
}

/// The ray that runs toward `center` along `direction` and starts at `distance` from it.
pub open spec fn aimed_ray(center: Point, direction: Vec3, distance: Fixed, time: Fixed) -> Ray {
    Ray { origin: center.sub(direction.scale(distance)), direction, time }
}

/// The rounded square of a scalar within reach is the square divided by
/// `SCALE` and rounded down, and is itself far from the ends of the range.
proof fn lemma_square_within_reach(x: Fixed)
    requires
        -REACH_RAW <= x.raw <= REACH_RAW,
    ensures
        x.mul(x).raw == (x.raw * x.raw) / (SCALE as int),
        0 <= x.mul(x).raw <= 100_000_000_000_000_000,
        x.neg().mul(x.neg()) == x.mul(x),
{
    reveal(Fixed::spec_mul);
    let r = x.raw as int;
    assert(0 <= r * r <= 10_000_000_000_000 * 10_000_000_000_000) by (nonlinear_arith)
        requires
            -10_000_000_000_000 <= r <= 10_000_000_000_000,
    ;
    assert((-r) * (-r) == r * r) by (nonlinear_arith);
    let q = (r * r) / (SCALE as int);
    assert(0 <= q <= 100_000_000_000_000_000) by (nonlinear_arith)
        requires
            0 <= r * r <= 10_000_000_000_000 * 10_000_000_000_000,
            q == (r * r) / 1_000_000_000,
    ;
}

/// For a radius from a half up to the reach, the radius as a hit sees it is
/// the radius or one step less, and its share of the radius is one or at
/// most two steps less.
pub proof fn lemma_seen_radius(radius: Fixed)
    requires
        SCALE / 2 <= radius.raw <= REACH_RAW,
    ensures
        radius.raw - 1 <= seen_radius(radius).raw <= radius.raw,
        SCALE - 2 <= seen_radius(radius).div(radius).raw <= SCALE,
{
    reveal(Fixed::spec_div);
    let r = radius.raw as int;
    let s = SCALE as int;
    lemma_square_within_reach(radius);
    let rr = radius.mul(radius);
    let q = rr.raw as int;
    vstd::arithmetic::div_mod::lemma_fundamental_div_mod(r * r, s);
    vstd::arithmetic::div_mod::lemma_mod_pos_bound(r * r, s);
    let n = q * s;
    assert(n == s * q) by (nonlinear_arith)
        requires
            n == q * s,
    ;
    assert(r * r - s < n <= r * r);
    lemma_sqrt_is_root(rr);
    let seen = seen_radius(radius).raw as int;
    assert(is_root(n, seen));
    assert(seen <= r) by (nonlinear_arith)
        requires
            0 <= seen,
            0 <= r,
            seen * seen <= n,
            n <= r * r,
    ;
    assert(seen >= r - 1) by (nonlinear_arith)
        requires
            0 <= seen,
            r >= 1,
            n < (seen + 1) * (seen + 1),
            n > r * r - s,
            2 * r >= s,
    ;
    let m = seen * s;
    assert(0 <= m <= r * s) by (nonlinear_arith)
        requires
            0 <= seen <= r,
            s > 0,
            m == seen * s,
    ;
    assert(m >= r * s - s) by (nonlinear_arith)
        requires
            seen >= r - 1,
            s > 0,
            m == seen * s,
    ;
    let share = m / r;
    vstd::arithmetic::div_mod::lemma_fundamental_div_mod(m, r);
    vstd::arithmetic::div_mod::lemma_mod_pos_bound(m, r);
    assert(s - 2 <= share <= s) by (nonlinear_arith)
        requires
            m == r * share + m % r,
            0 <= m % r < r,
            r * s - s <= m <= r * s,
            2 * r >= s,
            r > 0,
            s > 0,
    ;
}

/// A ray aimed at the centre of a sphere along an axis, from outside, hits
/// the sphere where the distance less the radius says, up to one step, and
/// from the front; the normal of the hit points back along the ray and has
/// length one, up to two steps. This is stated for radii from a half up and
/// for centres and distances within ten thousand, where nothing saturates.
#[verifier::rlimit(30)]
pub proof fn lemma_hit_along_axis(
    sphere: Sphere,
    direction: Vec3,
    distance: Fixed,
    t_min: Fixed,
    t_max: Fixed,
    time: Fixed,
)
    requires
        is_axis_direction(direction),
        is_within_reach(sphere.center),
        SCALE / 2 <= sphere.radius.raw < distance.raw <= REACH_RAW,
        in_range(distance.sub(seen_radius(sphere.radius)), t_min, t_max),
    ensures
        ({
            let ray = aimed_ray(sphere.center, direction, distance, time);
            let seen = seen_radius(sphere.radius);
            let t = distance.sub(seen);
            let hit = sphere.record(t, &ray);
            &&& sphere.distance(t_min, t_max, &ray) == Some(t)
            &&& distance.raw - sphere.radius.raw <= t.raw <= distance.raw - sphere.radius.raw + 1
            &&& hit.front_face
            &&& hit.normal == direction.neg().scale(seen.div(sphere.radius))
            &&& SCALE - 2 <= seen.div(sphere.radius).raw <= SCALE
        }),
{
    let center = sphere.center;
    let radius = sphere.radius;
    let ray = aimed_ray(center, direction, distance, time);
    let seen = seen_radius(radius);
    let t = distance.sub(seen);
    let share = seen.div(radius);
    lemma_seen_radius(radius);
    lemma_square_within_reach(radius);
    lemma_square_within_reach(distance);
    lemma_unit_factors(distance);
    lemma_unit_factors(distance.neg());
    lemma_unit_factors(Fixed::one());
    lemma_unit_factors(Fixed::one().neg());
    lemma_unit_factors(Fixed::zero());
    lemma_unit_factors(t);
    lemma_unit_factors(seen);
    lemma_unit_factors(seen.neg());
    lemma_unit_factors(share);
    lemma_unit_factors(share.neg());
    let one = Fixed::one();
    let minus = Fixed::one().neg();
    let zero = Fixed::zero();
    assert(minus.raw == -SCALE);
    assert(direction.x == one || direction.x == minus || direction.x == zero);
    assert(direction.y == one || direction.y == minus || direction.y == zero);
    assert(direction.z == one || direction.z == minus || direction.z == zero);
    // The quadratic of the ray and the sphere.
    let oc = ray.origin.diff(center);
    assert(oc == direction.scale(distance).neg());
    assert(ray.direction.norm_squared() == one);
    let half_b = oc.dot(direction);
    assert(half_b == distance.neg());
    assert(oc.norm_squared() == distance.mul(distance));
    let c = oc.norm_squared().sub(radius.mul(radius));
    assert(distance.mul(distance).raw >= radius.mul(radius).raw) by {
        assert(radius.raw * radius.raw <= distance.raw * distance.raw) by (nonlinear_arith)
            requires
                0 <= radius.raw <= distance.raw,
        ;
        vstd::arithmetic::div_mod::lemma_div_is_ordered(
            radius.raw * radius.raw,
            distance.raw * distance.raw,
            SCALE as int,
        );
    }
    lemma_unit_factors(c);
    let discriminant = half_b.mul(half_b).sub(one.mul(c));
    assert(discriminant == radius.mul(radius));
    assert(discriminant.sqrt() == seen);
    lemma_unit_factors(half_b.neg().sub(seen));
    lemma_unit_factors(half_b.neg().add(seen));
    assert(half_b.neg().sub(seen).div(one) == t);
    assert(sphere.distance(t_min, t_max, &ray) == Some(t));
    // The record of the hit.
    let p = ray.at(t);
    assert(p.diff(center) == direction.scale(seen).neg());
    let outward = p.diff(center).div(radius);
    assert(outward == direction.neg().scale(share)) by {
        reveal(Fixed::spec_div);
        assert(magnitude(seen.neg().raw * SCALE) == magnitude(seen.raw * SCALE)) by (nonlinear_arith)
            requires
                seen.neg().raw == -seen.raw,
        ;
        assert((seen.neg().raw * SCALE < 0) == (seen.raw > 0) && (seen.raw * SCALE < 0) == (seen.raw < 0)
            && quotient(0 * SCALE, radius.raw as int) == 0) by (nonlinear_arith)
            requires
                seen.neg().raw == -seen.raw,
                radius.raw > 0,
                SCALE > 0,
        ;
        assert(seen.neg().div(radius) == share.neg());
        assert(zero.div(radius) == zero);
    }
    assert(direction.dot(outward) == share.neg());
    assert(HitResult::faces(&ray, &outward));
}

} // verus!
