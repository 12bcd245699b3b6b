//! Axis-aligned bounding boxes: the exact ray test, the merge of two boxes and
//! the order of boxes along an axis.

use vstd::prelude::*;
use std::cmp::Ordering;
use crate::fixed::{lemma_real_product, Fixed};
use crate::ray::Ray;
use crate::vec3::{Point, Vec3};

verus! {

/// A box with sides parallel to the axes, given by two opposite corners.
#[derive(Clone, Copy, Debug, PartialEq, Eq, Structural)]
pub struct BoundingBox {
    pub minimum: Point,
    pub maximum: Point,
}

/// A rational bound on a ray parameter: the real number `num / den`.
struct Bound {
    num: i128,
    den: i128,
}

impl Bound {
    /// The numerator is a difference of two 64-bit values and the denominator
    /// a positive magnitude of one, so that cross products fit in 128 bits.
    spec fn wf(self) -> bool {
        &&& -0xffff_ffff_ffff_ffff <= self.num <= 0xffff_ffff_ffff_ffff
        &&& 0 < self.den <= 0x8000_0000_0000_0000
    }

    spec fn value(self) -> real {
        self.num as real / self.den as real
    }

    /// Whether `self` is strictly below `other`, by cross-multiplication.
    fn below(&self, other: &Bound) -> (r: bool)
        requires
            self.wf(),
            other.wf(),
        ensures
            r == (self.value() < other.value()),
    {
        let a: i128 = self.num;
        let b: i128 = self.den;
        let c: i128 = other.num;
        let d: i128 = other.den;
        proof {
            lemma_cross_fits(a as int, d as int);
            lemma_cross_fits(c as int, b as int);
            lemma_real_product(a as int, d as int);
            lemma_real_product(c as int, b as int);
            lemma_fraction_order(a as real, b as real, c as real, d as real);
        }
        a * d < c * b
    }
}

/// A product of a numerator and a denominator of two bounds fits in 128 bits.
proof fn lemma_cross_fits(n: int, d: int)
    requires
        -0xffff_ffff_ffff_ffff <= n <= 0xffff_ffff_ffff_ffff,
        0 < d <= 0x8000_0000_0000_0000,
    ensures
        -0x7fff_ffff_ffff_ffff_8000_0000_0000_0000 <= n * d <= 0x7fff_ffff_ffff_ffff_8000_0000_0000_0000,
{
    assert(n * d <= 0xffff_ffff_ffff_ffff * 0x8000_0000_0000_0000) by (nonlinear_arith)
        requires
            n <= 0xffff_ffff_ffff_ffff,
            0 < d <= 0x8000_0000_0000_0000,
    ;
    assert(n * d >= -0xffff_ffff_ffff_ffff * 0x8000_0000_0000_0000) by (nonlinear_arith)
        requires
            n >= -0xffff_ffff_ffff_ffff,
            0 < d <= 0x8000_0000_0000_0000,
    ;
    assert(0xffff_ffff_ffff_ffff * 0x8000_0000_0000_0000 == 0x7fff_ffff_ffff_ffff_8000_0000_0000_0000)
        by (nonlinear_arith);
}

/// Fractions with positive denominators are ordered as their cross products.
proof fn lemma_fraction_order(a: real, b: real, c: real, d: real)
    requires
        b > 0real,
        d > 0real,
    ensures
        a / b < c / d <==> a * d < c * b,
{
    assert(a / b < c / d <==> a * d < c * b) by (nonlinear_arith)
        requires
            b > 0real,
            d > 0real,
    ;
}

/// Whether the real `t` lies strictly between `lo` and `hi`.
pub open spec fn strictly_between(lo: real, t: real, hi: real) -> bool {
    lo < t && t < hi
}

/// Whether, at the real parameter `t`, a ray with raw origin `o` and raw
/// direction `d` along one axis lies strictly between the raw planes `lo` and `hi`.
spec fn in_slab(lo: int, hi: int, o: int, d: int, t: real) -> bool {
    ((lo - o) as real) < t * (d as real) && t * (d as real) < ((hi - o) as real)
}

/// Dividing a strict bound on `t * d` by a positive `d` gives the bound on `t`.
proof fn lemma_slab_bounds(a: real, b: real, d: real, t: real)
    requires
        d > 0real,
    ensures
        a < t * d <==> a / d < t,
        t * d < b <==> t < b / d,
{
    assert(a < t * d <==> a / d < t) by (nonlinear_arith)
        requires
            d > 0real,
    ;
    assert(t * d < b <==> t < b / d) by (nonlinear_arith)
        requires
            d > 0real,
    ;
}

/// A product with the negated factor is the negated product.
proof fn lemma_negated_product(t: real, d: real)
    ensures
        t * (-d) == -(t * d),
{
    assert(t * (-d) == -(t * d)) by (nonlinear_arith);
}

/// Narrows the open interval between `lo` and `hi` by one axis of a box.
/// Gives the narrowed interval, or `None` when nothing is left of it.
fn narrow(lo: Bound, hi: Bound, low: i64, high: i64, o: i64, d: i64) -> (r: Option<(Bound, Bound)>)
    requires
        lo.wf(),
        hi.wf(),
    ensures
        match r {
            Some((lo2, hi2)) => {
                &&& lo2.wf()
                &&& hi2.wf()
                &&& lo2.value() < hi2.value()
                &&& forall|t: real| #[trigger]
                    strictly_between(lo2.value(), t, hi2.value()) <==> strictly_between(
                        lo.value(),
                        t,
                        hi.value(),
                    ) && in_slab(low as int, high as int, o as int, d as int, t)
            },
            None => forall|t: real|
                !(#[trigger] strictly_between(lo.value(), t, hi.value()) && in_slab(
                    low as int,
                    high as int,
                    o as int,
                    d as int,
                    t,
                )),
        },
{
    if d == 0 {
        if !(low < o && o < high) {
            assert forall|t: real| !(#[trigger] strictly_between(lo.value(), t, hi.value())
                && in_slab(low as int, high as int, o as int, d as int, t)) by {
                assert(t * (0 as real) == 0real) by (nonlinear_arith);
            }
            return None;
        }
        if !lo.below(&hi) {
            return None;
        }
        assert forall|t: real| #[trigger]
            strictly_between(lo.value(), t, hi.value()) <==> strictly_between(
                lo.value(),
                t,
                hi.value(),
            ) && in_slab(low as int, high as int, o as int, d as int, t) by {
            assert(t * (0 as real) == 0real) by (nonlinear_arith);
        }
        return Some((lo, hi));
    }
    let a: i128 = low as i128 - o as i128;
    let b: i128 = high as i128 - o as i128;
    let (enter, leave) = if d > 0 {
        (Bound { num: a, den: d as i128 }, Bound { num: b, den: d as i128 })
    } else {
        (Bound { num: -b, den: -(d as i128) }, Bound { num: -a, den: -(d as i128) })
    };
    assert forall|t: real|
        in_slab(low as int, high as int, o as int, d as int, t) <==> #[trigger] strictly_between(
            enter.value(),
            t,
            leave.value(),
        ) by {
        if d > 0 {
            lemma_slab_bounds(a as real, b as real, d as real, t);
        } else {
            lemma_negated_product(t, d as real);
            lemma_slab_bounds((-b) as real, (-a) as real, (-d) as real, t);
        }
    }
    let lo2 = if lo.below(&enter) {
        enter
    } else {
        lo
    };
    let hi2 = if leave.below(&hi) {
        leave
    } else {
        hi
    };
    if lo2.below(&hi2) {
        assert forall|t: real| #[trigger]
            strictly_between(lo2.value(), t, hi2.value()) <==> strictly_between(
                lo.value(),
                t,
                hi.value(),
            ) && in_slab(low as int, high as int, o as int, d as int, t) by {
            assert(in_slab(low as int, high as int, o as int, d as int, t) <==> strictly_between(
                enter.value(),
                t,
                leave.value(),
            ));
        }
        Some((lo2, hi2))
    } else {
        assert forall|t: real| !(#[trigger] strictly_between(lo.value(), t, hi.value())
            && in_slab(low as int, high as int, o as int, d as int, t)) by {
            assert(in_slab(low as int, high as int, o as int, d as int, t) <==> strictly_between(
                enter.value(),
                t,
                leave.value(),
            ));
        }
        None
    }
}

/// In raw units: a coordinate of the ray lies strictly between two planes
/// exactly when the scaled travel lies strictly between the scaled distances.
proof fn lemma_slab_scaled(lo: Fixed, hi: Fixed, o: Fixed, d: Fixed, t: real)
    ensures
        (lo@ < o@ + t * d@ && o@ + t * d@ < hi@) <==> in_slab(
            lo.raw as int,
            hi.raw as int,
            o.raw as int,
            d.raw as int,
            t,
        ),
{
    let l = lo.raw as real;
    let h = hi.raw as real;
    let p = o.raw as real;
    let q = d.raw as real;
    assert((lo.raw - o.raw) as real == l - p);
    assert((hi.raw - o.raw) as real == h - p);
    assert((l / 1_000_000_000real < p / 1_000_000_000real + t * (q / 1_000_000_000real)) <==> (l - p < t
        * q)) by (nonlinear_arith);
    assert((p / 1_000_000_000real + t * (q / 1_000_000_000real) < h / 1_000_000_000real) <==> (t * q < h
        - p)) by (nonlinear_arith);
}

impl BoundingBox {
    pub open spec fn spec_new(minimum: Point, maximum: Point) -> BoundingBox {
        BoundingBox { minimum, maximum }
    }

    /// The box between the two corners.
    #[verifier::when_used_as_spec(spec_new)]
    pub fn new(minimum: Point, maximum: Point) -> (b: BoundingBox)
        ensures
            b == BoundingBox::spec_new(minimum, maximum),
    {
        BoundingBox { minimum, maximum }
    }

    /// Whether the minimum corner is at or below the maximum corner on every axis.
    pub open spec fn is_ordered(self) -> bool {
        &&& self.minimum.0.x.raw <= self.maximum.0.x.raw
        &&& self.minimum.0.y.raw <= self.maximum.0.y.raw
        &&& self.minimum.0.z.raw <= self.maximum.0.z.raw
    }

    /// Whether the ray, at the real parameter `t`, is strictly inside the box on all three axes.
    pub open spec fn encloses(self, ray: Ray, t: real) -> bool {
        &&& self.minimum.0.x@ < ray.x_at(t) && ray.x_at(t) < self.maximum.0.x@
        &&& self.minimum.0.y@ < ray.y_at(t) && ray.y_at(t) < self.maximum.0.y@
        &&& self.minimum.0.z@ < ray.z_at(t) && ray.z_at(t) < self.maximum.0.z@
    }

    /// Whether the ray is strictly inside the box at some real parameter
    /// strictly between `t_min` and `t_max`.
    pub open spec fn hits(self, t_min: Fixed, t_max: Fixed, ray: Ray) -> bool {
        exists|t: real| strictly_between(t_min@, t, t_max@) && #[trigger] self.encloses(ray, t)
    }

    /// Whether the ray passes through the inside of the box while its
    /// parameter is strictly between `t_min` and `t_max`. The test is exact:
    /// no quotient is rounded, and a direction of zero along an axis asks
    /// that the origin lie strictly between the two planes of that axis.
    pub fn hit(&self, t_min: Fixed, t_max: Fixed, ray: &Ray) -> (r: bool)
        ensures
            r == self.hits(t_min, t_max, *ray),
    {
        let lo = Bound { num: t_min.raw as i128, den: 1_000_000_000 };
        let hi = Bound { num: t_max.raw as i128, den: 1_000_000_000 };
        assert(lo.value() == t_min@);
        assert(hi.value() == t_max@);
        proof {
            assert forall|t: real|
                (#[trigger] self.encloses(*ray, t)) <==> in_slab(
                    self.minimum.0.x.raw as int,
                    self.maximum.0.x.raw as int,
                    ray.origin.0.x.raw as int,
                    ray.direction.x.raw as int,
                    t,
                ) && in_slab(
                    self.minimum.0.y.raw as int,
                    self.maximum.0.y.raw as int,
                    ray.origin.0.y.raw as int,
                    ray.direction.y.raw as int,
                    t,
                ) && in_slab(
                    self.minimum.0.z.raw as int,
                    self.maximum.0.z.raw as int,
                    ray.origin.0.z.raw as int,
                    ray.direction.z.raw as int,
                    t,
                ) by {
                lemma_slab_scaled(self.minimum.0.x, self.maximum.0.x, ray.origin.0.x, ray.direction.x, t);
                lemma_slab_scaled(self.minimum.0.y, self.maximum.0.y, ray.origin.0.y, ray.direction.y, t);
                lemma_slab_scaled(self.minimum.0.z, self.maximum.0.z, ray.origin.0.z, ray.direction.z, t);
            }
        }
        let (lo1, hi1) = match narrow(
            lo,
            hi,
            self.minimum.0.x.raw,
            self.maximum.0.x.raw,
            ray.origin.0.x.raw,
            ray.direction.x.raw,
        ) {
            Some(pair) => pair,
            None => {
                assert forall|t: real| !(strictly_between(t_min@, t, t_max@) && #[trigger] self.encloses(*ray, t)) by {
                    assert(!(strictly_between(lo.value(), t, hi.value()) && in_slab(
                        self.minimum.0.x.raw as int,
                        self.maximum.0.x.raw as int,
                        ray.origin.0.x.raw as int,
                        ray.direction.x.raw as int,
                        t,
                    )));
                }
                return false;
            },
        };
        let (lo2, hi2) = match narrow(
            lo1,
            hi1,
            self.minimum.0.y.raw,
            self.maximum.0.y.raw,
            ray.origin.0.y.raw,
            ray.direction.y.raw,
        ) {
            Some(pair) => pair,
            None => {
                assert forall|t: real| !(strictly_between(t_min@, t, t_max@) && #[trigger] self.encloses(*ray, t)) by {
                    assert(strictly_between(lo1.value(), t, hi1.value()) <==> strictly_between(
                        lo.value(),
                        t,
                        hi.value(),
                    ) && in_slab(
                        self.minimum.0.x.raw as int,
                        self.maximum.0.x.raw as int,
                        ray.origin.0.x.raw as int,
                        ray.direction.x.raw as int,
                        t,
                    ));
                    assert(!(strictly_between(lo1.value(), t, hi1.value()) && in_slab(
                        self.minimum.0.y.raw as int,
                        self.maximum.0.y.raw as int,
                        ray.origin.0.y.raw as int,
                        ray.direction.y.raw as int,
                        t,
                    )));
                }
                return false;
            },
        };
        let (lo3, hi3) = match narrow(
            lo2,
            hi2,
            self.minimum.0.z.raw,
            self.maximum.0.z.raw,
            ray.origin.0.z.raw,
            ray.direction.z.raw,
        ) {
            Some(pair) => pair,
            None => {
                assert forall|t: real| !(strictly_between(t_min@, t, t_max@) && #[trigger] self.encloses(*ray, t)) by {
                    assert(strictly_between(lo1.value(), t, hi1.value()) <==> strictly_between(
                        lo.value(),
                        t,
                        hi.value(),
                    ) && in_slab(
                        self.minimum.0.x.raw as int,
                        self.maximum.0.x.raw as int,
                        ray.origin.0.x.raw as int,
                        ray.direction.x.raw as int,
                        t,
                    ));
                    assert(strictly_between(lo2.value(), t, hi2.value()) <==> strictly_between(
                        lo1.value(),
                        t,
                        hi1.value(),
                    ) && in_slab(
                        self.minimum.0.y.raw as int,
                        self.maximum.0.y.raw as int,
                        ray.origin.0.y.raw as int,
                        ray.direction.y.raw as int,
                        t,
                    ));
                    assert(!(strictly_between(lo2.value(), t, hi2.value()) && in_slab(
                        self.minimum.0.z.raw as int,
                        self.maximum.0.z.raw as int,
                        ray.origin.0.z.raw as int,
                        ray.direction.z.raw as int,
                        t,
                    )));
                }
                return false;
            },
        };
        proof {
            let t = (lo3.value() + hi3.value()) / 2real;
            assert(strictly_between(lo3.value(), t, hi3.value()));
            assert(strictly_between(lo2.value(), t, hi2.value()));
            assert(strictly_between(lo1.value(), t, hi1.value()));
            assert(strictly_between(lo.value(), t, hi.value()));
            assert(self.encloses(*ray, t));
        }
        true
    }

    #[verifier::opaque]
    pub open spec fn spec_surrounding_box(bb1: &BoundingBox, bb2: &BoundingBox) -> BoundingBox {
        BoundingBox {
            minimum: Point(bb1.minimum.0.min(bb2.minimum.0)),
            maximum: Point(bb1.maximum.0.max(bb2.maximum.0)),
        }
    }

    /// The smallest box that holds both boxes.
    #[verifier::when_used_as_spec(spec_surrounding_box)]
    pub fn surrounding_box(bb1: &BoundingBox, bb2: &BoundingBox) -> (b: BoundingBox)
        ensures
            b == BoundingBox::spec_surrounding_box(bb1, bb2),
            b.contains_box(*bb1),
            b.contains_box(*bb2),
            bb1.is_ordered() || bb2.is_ordered() ==> b.is_ordered(),
    {
        proof {
            reveal(BoundingBox::spec_surrounding_box);
        }
        let small = bb1.minimum.0.min(bb2.minimum.0);
        let big = bb1.maximum.0.max(bb2.maximum.0);
        BoundingBox { minimum: Point(small), maximum: Point(big) }
    }

    /// Whether `inner` lies within this box: no corner of it sticks out on any axis.
    pub open spec fn contains_box(self, inner: BoundingBox) -> bool {
        &&& self.minimum.0.x.raw <= inner.minimum.0.x.raw
        &&& self.minimum.0.y.raw <= inner.minimum.0.y.raw
        &&& self.minimum.0.z.raw <= inner.minimum.0.z.raw
        &&& inner.maximum.0.x.raw <= self.maximum.0.x.raw
        &&& inner.maximum.0.y.raw <= self.maximum.0.y.raw
        &&& inner.maximum.0.z.raw <= self.maximum.0.z.raw
    }

    /// The minimum corner's coordinate along `axis`.
    pub open spec fn low_along(self, axis: u32) -> Fixed {
        self.minimum.0.along(axis)
    }

    /// Orders two boxes by their minimum corners along `axis`: 0, 1 or 2.
    pub fn less_than_by_dim(&self, rhs: &BoundingBox, axis: u32) -> (r: Ordering)
        requires
            axis < 3,
        ensures
            r == Ordering::Less <==> self.low_along(axis).raw < rhs.low_along(axis).raw,
            r == Ordering::Equal <==> self.low_along(axis).raw == rhs.low_along(axis).raw,
            r == Ordering::Greater <==> self.low_along(axis).raw > rhs.low_along(axis).raw,
    {
        let sub = self.minimum.0.sub(rhs.minimum.0);
        let sign = match axis {
            0 => sub.x(),
            1 => sub.y(),
            _ => sub.z(),
        };
        if sign.raw < 0 {
            Ordering::Less
        } else if sign.raw == 0 {
            Ordering::Equal
        } else {
            Ordering::Greater
        }
    }
}

/// The same vector with its axes renamed in a circle: the second axis
/// becomes the first, the third the second, and the first the third.
pub open spec fn rotate_axes(v: Vec3) -> Vec3 {
    Vec3 { x: v.y, y: v.z, z: v.x }
}

/// The same vector with its first two axes exchanged.
pub open spec fn swap_axes(v: Vec3) -> Vec3 {
    Vec3 { x: v.y, y: v.x, z: v.z }
}

/// The ray test does not depend on the order of the axes: renaming the
/// axes of the box and of the ray in a circle, or exchanging two of them,
/// leaves the answer as it was. Every order of the axes comes about by
/// such steps.
pub proof fn lemma_hits_any_axis_order(b: BoundingBox, t_min: Fixed, t_max: Fixed, ray: Ray)
    ensures
        b.hits(t_min, t_max, ray) == (BoundingBox {
            minimum: Point(rotate_axes(b.minimum.0)),
            maximum: Point(rotate_axes(b.maximum.0)),
        }).hits(
            t_min,
            t_max,
            Ray { origin: Point(rotate_axes(ray.origin.0)), direction: rotate_axes(ray.direction), time: ray.time },
        ),
        b.hits(t_min, t_max, ray) == (BoundingBox {
            minimum: Point(swap_axes(b.minimum.0)),
            maximum: Point(swap_axes(b.maximum.0)),
        }).hits(
            t_min,
            t_max,
            Ray { origin: Point(swap_axes(ray.origin.0)), direction: swap_axes(ray.direction), time: ray.time },
        ),
{
    let rotated = BoundingBox {
        minimum: Point(rotate_axes(b.minimum.0)),
        maximum: Point(rotate_axes(b.maximum.0)),
    };
    let rotated_ray = Ray {
        origin: Point(rotate_axes(ray.origin.0)),
        direction: rotate_axes(ray.direction),
        time: ray.time,
    };
    let swapped = BoundingBox { minimum: Point(swap_axes(b.minimum.0)), maximum: Point(swap_axes(b.maximum.0)) };
    let swapped_ray = Ray {
        origin: Point(swap_axes(ray.origin.0)),
        direction: swap_axes(ray.direction),
        time: ray.time,
    };
    assert forall|t: real| #[trigger] b.encloses(ray, t) == rotated.encloses(rotated_ray, t) by {}
    assert forall|t: real| #[trigger] b.encloses(ray, t) == swapped.encloses(swapped_ray, t) by {}
    if b.hits(t_min, t_max, ray) {
        let t = choose|t: real| strictly_between(t_min@, t, t_max@) && #[trigger] b.encloses(ray, t);
        assert(rotated.encloses(rotated_ray, t));
        assert(swapped.encloses(swapped_ray, t));
    }
    if rotated.hits(t_min, t_max, rotated_ray) {
        let t = choose|t: real| strictly_between(t_min@, t, t_max@) && #[trigger] rotated.encloses(rotated_ray, t);
        assert(b.encloses(ray, t));
    }
    if swapped.hits(t_min, t_max, swapped_ray) {
        let t = choose|t: real| strictly_between(t_min@, t, t_max@) && #[trigger] swapped.encloses(swapped_ray, t);
        assert(b.encloses(ray, t));
    }
}

/// Merging a box with itself changes nothing.
pub proof fn lemma_surrounding_box_idempotent(a: BoundingBox)
    ensures
        BoundingBox::surrounding_box(&a, &a) == a,
{
    reveal(BoundingBox::spec_surrounding_box);
}

/// The merge of two boxes does not depend on their order.
pub proof fn lemma_surrounding_box_commutative(a: BoundingBox, b: BoundingBox)
    ensures
        BoundingBox::surrounding_box(&a, &b) == BoundingBox::surrounding_box(&b, &a),
{
    reveal(BoundingBox::spec_surrounding_box);
}

/// Merging three boxes gives the same box however the merges are grouped.
pub proof fn lemma_surrounding_box_associative(a: BoundingBox, b: BoundingBox, c: BoundingBox)
    ensures
        BoundingBox::surrounding_box(&BoundingBox::surrounding_box(&a, &b), &c)
            == BoundingBox::surrounding_box(&a, &BoundingBox::surrounding_box(&b, &c)),
{
    reveal(BoundingBox::spec_surrounding_box);
}

/// The merge of two boxes contains both.
pub proof fn lemma_surrounding_box_contains(a: BoundingBox, b: BoundingBox)
    ensures
        BoundingBox::surrounding_box(&a, &b).contains_box(a),
        BoundingBox::surrounding_box(&a, &b).contains_box(b),
{
    reveal(BoundingBox::spec_surrounding_box);
}

/// A ray that passes through a box within an interval passes through every
/// box that contains it, within every interval that starts no later and ends no earlier.
pub proof fn lemma_hits_monotone(
    outer: BoundingBox,
    inner: BoundingBox,
    t_min: Fixed,
    t_max: Fixed,
    wider_min: Fixed,
    wider_max: Fixed,
    ray: Ray,
)
    requires
        outer.contains_box(inner),
        wider_min.raw <= t_min.raw,
        t_max.raw <= wider_max.raw,
        inner.hits(t_min, t_max, ray),
    ensures
        outer.hits(wider_min, wider_max, ray),
{
    let t = choose|t: real| strictly_between(t_min@, t, t_max@) && #[trigger] inner.encloses(ray, t);
    assert(strictly_between(wider_min@, t, wider_max@));
    assert(outer.encloses(ray, t));
}

} // verus!
