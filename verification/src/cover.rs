//! When the box of a thing answers for the thing's hits: one exact test
//! that decides it, and rays and spheres for which it always holds.

use vstd::prelude::*;
use crate::aabb::{lemma_hits_monotone, lemma_surrounding_box_idempotent, strictly_between, BoundingBox};
use crate::bvh::{box_covers, boxes_cover, is_nearest_among, lemma_reach_restricts, BVHNode};
use crate::hierarchy::{is_hierarchy_of, lemma_built_search_finds_nearest};
use crate::aimed::{is_axis_direction, is_within_reach, REACH_RAW};
use crate::fixed::{
    is_root,
    lemma_div_between,
    lemma_mul_between,
    lemma_sqrt_is_root,
    lemma_unit_factors,
    lies_between,
    Fixed,
    SCALE,
};
use crate::object::{ball_box, restricted, spec_ball_hit, spec_ball_roots, MovingSphere, Object, Sphere};
use crate::ray::Ray;
use crate::vec3::{Point, Vec3};

verus! {

/// The scalar one step above `t`.
pub open spec fn next_step(t: Fixed) -> Fixed
    recommends
        t.raw < i64::MAX,
{
    Fixed { raw: (t.raw + 1) as i64 }
}

/// Whether the box of `thing` passes the one test that decides whether it
/// answers for the thing's hits up to `t_max`: where the ray reaches the
/// thing before `t_max`, it passes through the box within the range from
/// `t_min` to one step past the hit.
pub open spec fn box_answers(
    thing: Object,
    time0: Fixed,
    time1: Fixed,
    t_min: Fixed,
    t_max: Fixed,
    ray: &Ray,
) -> bool {
    match thing.reach(t_min, t_max, ray) {
        Some(t) => t.raw < t_max.raw ==> thing.bounds(time0, time1).hits(t_min, next_step(t), *ray),
        None => true,
    }
}

/// The box of a single thing answers for the thing's hits exactly when it
/// passes the one test.
pub proof fn lemma_one_test_decides(
    thing: Object,
    time0: Fixed,
    time1: Fixed,
    t_min: Fixed,
    t_max: Fixed,
    ray: Ray,
)
    requires
        thing.is_leaf(),
    ensures
        box_covers(thing, time0, time1, t_min, t_max, &ray) == box_answers(thing, time0, time1, t_min, t_max, &ray),
{
    let found = thing.reach(t_min, t_max, &ray);
    let bounds = thing.bounds(time0, time1);
    if box_answers(thing, time0, time1, t_min, t_max, &ray) {
        assert forall|bound: Fixed|
            bound.raw <= t_max.raw && ((#[trigger] thing.reach(t_min, bound, &ray)) matches Some(t) && t.raw
                < bound.raw) implies bounds.hits(t_min, bound, ray) by {
            lemma_reach_restricts(thing, t_min, t_max, bound, ray);
            let t = found.unwrap();
            assert(thing.reach(t_min, bound, &ray) == Some(t));
            lemma_hits_monotone(bounds, bounds, t_min, next_step(t), t_min, bound, ray);
        }
    }
    if box_covers(thing, time0, time1, t_min, t_max, &ray) {
        match found {
            Some(t) => {
                if t.raw < t_max.raw {
                    let bound = next_step(t);
                    lemma_reach_restricts(thing, t_min, t_max, bound, ray);
                    assert(thing.reach(t_min, bound, &ray) == Some(t));
                    assert(bounds.hits(t_min, bound, ray));
                }
            },
            None => {},
        }
    }
}

/// The boxes of two runs of things answer for their hits exactly when
/// those of each run do.
pub proof fn lemma_cover_joined(
    first: Seq<Object>,
    second: Seq<Object>,
    time0: Fixed,
    time1: Fixed,
    t_min: Fixed,
    t_max: Fixed,
    ray: &Ray,
)
    ensures
        boxes_cover(first + second, time0, time1, t_min, t_max, ray) == (boxes_cover(
            first,
            time0,
            time1,
            t_min,
            t_max,
            ray,
        ) && boxes_cover(second, time0, time1, t_min, t_max, ray)),
{
    let things = first + second;
    if boxes_cover(things, time0, time1, t_min, t_max, ray) {
        assert forall|i: int| 0 <= i < first.len() implies box_covers(
            #[trigger] first[i],
            time0,
            time1,
            t_min,
            t_max,
            ray,
        ) by {
            assert(first[i] == things[i]);
        }
        assert forall|i: int| 0 <= i < second.len() implies box_covers(
            #[trigger] second[i],
            time0,
            time1,
            t_min,
            t_max,
            ray,
        ) by {
            assert(second[i] == things[i + first.len()]);
        }
    }
    if boxes_cover(first, time0, time1, t_min, t_max, ray) && boxes_cover(second, time0, time1, t_min, t_max, ray) {
        assert forall|i: int| 0 <= i < things.len() implies box_covers(
            #[trigger] things[i],
            time0,
            time1,
            t_min,
            t_max,
            ray,
        ) by {
            if i < first.len() {
                assert(things[i] == first[i]);
            } else {
                assert(things[i] == second[i - first.len()]);
            }
        }
    }
}

/// The leaves under a child of a node; none where there is no child.
pub open spec fn leaves_under(child: Option<Box<Object>>) -> Seq<Object> {
    match child {
        None => Seq::<Object>::empty(),
        Some(tree) => tree.leaves(),
    }
}

/// Tells whether the box of a single thing answers for the thing's hits up
/// to `t_max`, by the one test that decides it.
pub fn leaf_box_answers(thing: &Object, time0: Fixed, time1: Fixed, t_min: Fixed, t_max: Fixed, ray: &Ray) -> (r:
    bool)
    requires
        thing.is_leaf(),
    ensures
        r == box_covers(*thing, time0, time1, t_min, t_max, ray),
{
    proof {
        lemma_one_test_decides(*thing, time0, time1, t_min, t_max, *ray);
    }
    match thing.closest(t_min, t_max, ray) {
        None => true,
        Some((t, owner)) => {
            if t.raw < t_max.raw {
                let bounds = thing.bounding_box(time0, time1).unwrap();
                bounds.hit(t_min, Fixed::from_raw(t.raw + 1), ray)
            } else {
                true
            }
        },
    }
}

/// Tells whether the box of every leaf of the tree answers for the leaf's
/// hits up to `t_max`. Where it does and the tree is well formed, the
/// search of the tree finds the nearest hit among its leaves.
pub fn boxes_answer(tree: &Object, time0: Fixed, time1: Fixed, t_min: Fixed, t_max: Fixed, ray: &Ray) -> (r: bool)
    ensures
        r == boxes_cover(tree.leaves(), time0, time1, t_min, t_max, ray),
    decreases tree,
{
    match tree {
        Object::BVHNodeType(node) => node_boxes_answer(node, time0, time1, t_min, t_max, ray),
        _ => {
            proof {
                assert(tree.leaves() == seq![*tree]);
                assert(tree.leaves()[0] == *tree);
            }
            leaf_box_answers(tree, time0, time1, t_min, t_max, ray)
        },
    }
}

/// Tells whether the box of every leaf under the node answers for the
/// leaf's hits up to `t_max`.
pub fn node_boxes_answer(node: &BVHNode, time0: Fixed, time1: Fixed, t_min: Fixed, t_max: Fixed, ray: &Ray) -> (r:
    bool)
    ensures
        r == boxes_cover(node.leaves(), time0, time1, t_min, t_max, ray),
    decreases node,
{
    proof {
        assert(node.leaves() == leaves_under(node.left) + leaves_under(node.right));
        lemma_cover_joined(leaves_under(node.left), leaves_under(node.right), time0, time1, t_min, t_max, ray);
        assert(boxes_cover(Seq::<Object>::empty(), time0, time1, t_min, t_max, ray));
    }
    let left = match &node.left {
        None => true,
        Some(left_node) => boxes_answer(left_node, time0, time1, t_min, t_max, ray),
    };
    let right = match &node.right {
        None => true,
        Some(right_node) => boxes_answer(right_node, time0, time1, t_min, t_max, ray),
    };
    left && right
}

/// A thing that the ray does not reach within the range has nothing to
/// answer for.
pub proof fn lemma_unreached_is_covered(
    thing: Object,
    time0: Fixed,
    time1: Fixed,
    t_min: Fixed,
    t_max: Fixed,
    ray: Ray,
)
    requires
        thing.is_leaf(),
        thing.reach(t_min, t_max, &ray).is_none(),
    ensures
        box_covers(thing, time0, time1, t_min, t_max, &ray),
{
    lemma_one_test_decides(thing, time0, time1, t_min, t_max, ray);
}

/// Minus one, zero or one: the sense in which a component of a direction
/// along an axis runs.
pub open spec fn sense(d: Fixed) -> int {
    if d.raw > 0 {
        1
    } else if d.raw < 0 {
        -1
    } else {
        0
    }
}

/// The raw parameter at which a ray along an axis passes nearest to `center`.
pub open spec fn nearest_pass(center: Point, ray: Ray) -> int {
    (center.0.x.raw - ray.origin.0.x.raw) * sense(ray.direction.x) + (center.0.y.raw - ray.origin.0.y.raw) * sense(
        ray.direction.y,
    ) + (center.0.z.raw - ray.origin.0.z.raw) * sense(ray.direction.z)
}

/// Whether the line of a ray along an axis passes through the inside of the
/// box around the ball: across the ray, the origin lies less than the
/// radius from the centre.
pub open spec fn passes_inside(center: Point, radius: Fixed, ray: Ray) -> bool {
    &&& ray.direction.x.raw != 0 || -radius.raw < ray.origin.0.x.raw - center.0.x.raw < radius.raw
    &&& ray.direction.y.raw != 0 || -radius.raw < ray.origin.0.y.raw - center.0.y.raw < radius.raw
    &&& ray.direction.z.raw != 0 || -radius.raw < ray.origin.0.z.raw - center.0.z.raw < radius.raw
}

/// Whether a ray along an axis and a ball lie as the lemmas below ask:
/// centre and origin within ten thousand of zero, a radius above zero and
/// not above ten thousand, the line of the ray through the inside of the
/// ball's box, and the start of the range before the ray enters that box.
pub open spec fn is_plain_pass(center: Point, radius: Fixed, t_min: Fixed, ray: Ray) -> bool {
    &&& is_axis_direction(ray.direction)
    &&& is_within_reach(center)
    &&& is_within_reach(ray.origin)
    &&& 0 < radius.raw <= REACH_RAW
    &&& passes_inside(center, radius, ray)
    &&& t_min.raw < nearest_pass(center, ray) - radius.raw
}

/// The rounded square of a scalar within twice the reach.
proof fn lemma_square_bounded(x: Fixed)
    requires
        -2 * REACH_RAW <= x.raw <= 2 * REACH_RAW,
    ensures
        x.mul(x).raw == (x.raw * x.raw) / (SCALE as int),
        0 <= x.mul(x).raw <= 400_000_000_000_000_000,
        x.neg().mul(x.neg()) == x.mul(x),
{
    reveal(Fixed::spec_mul);
    let r = x.raw as int;
    assert(0 <= r * r <= 20_000_000_000_000 * 20_000_000_000_000) by (nonlinear_arith)
        requires
            -20_000_000_000_000 <= r <= 20_000_000_000_000,
    ;
    assert((-r) * (-r) == r * r) by (nonlinear_arith);
    let q = (r * r) / (SCALE as int);
    assert(0 <= q <= 400_000_000_000_000_000) by (nonlinear_arith)
        requires
            0 <= r * r <= 20_000_000_000_000 * 20_000_000_000_000,
            q == (r * r) / 1_000_000_000,
    ;
}

/// The root of a scalar that is not above the rounded square of a radius is
/// not above the radius.
proof fn lemma_root_below_radius(x: Fixed, radius: Fixed)
    requires
        0 <= x.raw <= radius.mul(radius).raw,
        0 <= radius.raw <= REACH_RAW,
    ensures
        0 <= x.sqrt().raw <= radius.raw,
{
    reveal(Fixed::spec_mul);
    lemma_sqrt_is_root(x);
    let r = radius.raw as int;
    let s = SCALE as int;
    let q = x.sqrt().raw as int;
    let n = x.raw * s;
    assert(0 <= r * r <= 10_000_000_000_000 * 10_000_000_000_000) by (nonlinear_arith)
        requires
            0 <= r <= 10_000_000_000_000,
    ;
    let rr = (r * r) / s;
    vstd::arithmetic::div_mod::lemma_fundamental_div_mod(r * r, s);
    vstd::arithmetic::div_mod::lemma_mod_pos_bound(r * r, s);
    assert(rr * s <= r * r) by (nonlinear_arith)
        requires
            r * r == s * rr + (r * r) % s,
            0 <= (r * r) % s,
    ;
    assert(0 <= rr <= 100_000_000_000_000_000) by (nonlinear_arith)
        requires
            0 <= r * r <= 10_000_000_000_000 * 10_000_000_000_000,
            rr == (r * r) / 1_000_000_000,
    ;
    assert(radius.mul(radius).raw == rr);
    assert(n <= rr * s) by (nonlinear_arith)
        requires
            x.raw <= rr,
            n == x.raw * s,
            s > 0,
    ;
    assert(is_root(n, q));
    assert(q <= r) by (nonlinear_arith)
        requires
            0 <= q,
            0 <= r,
            q * q <= n,
            n <= r * r,
    ;
}

/// The product of a scalar within twice the reach with a component of a
/// direction along an axis is the scalar, its opposite, or zero.
proof fn lemma_sense_product(x: Fixed, d: Fixed)
    requires
        -2 * REACH_RAW <= x.raw <= 2 * REACH_RAW,
        d.raw == SCALE || d.raw == -SCALE || d.raw == 0,
    ensures
        x.mul(d).raw == x.raw * sense(d),
        -2 * REACH_RAW <= x.mul(d).raw <= 2 * REACH_RAW,
{
    lemma_unit_factors(x);
    if d.raw == SCALE {
        assert(d == Fixed::one());
        assert(x.raw * 1 == x.raw);
    } else if d.raw == -SCALE {
        assert(d == Fixed::one().neg());
        assert(x.raw * (-1) == -x.raw) by (nonlinear_arith);
    } else {
        assert(d == Fixed::zero());
        assert(x.raw * 0 == 0) by (nonlinear_arith);
    }
}

/// The two roots of a ball on a ray along an axis lie as far before and
/// after the nearest pass as one another, and no farther than the radius.
proof fn lemma_axis_roots(center: Point, radius: Fixed, ray: Ray)
    requires
        is_axis_direction(ray.direction),
        is_within_reach(center),
        is_within_reach(ray.origin),
        0 < radius.raw <= REACH_RAW,
    ensures
        spec_ball_roots(center, radius, &ray) matches Some(roots) ==> {
            &&& nearest_pass(center, ray) - radius.raw <= roots.0.raw
            &&& roots.0.raw <= roots.1.raw
            &&& roots.1.raw <= nearest_pass(center, ray) + radius.raw
        },
{
    let one = Fixed::one();
    let minus = Fixed::one().neg();
    let zero = Fixed::zero();
    let d = ray.direction;
    let oc = ray.origin.diff(center);
    let m = nearest_pass(center, ray);
    assert(minus.raw == -SCALE);
    assert(d.x == one || d.x == minus || d.x == zero);
    assert(d.y == one || d.y == minus || d.y == zero);
    assert(d.z == one || d.z == minus || d.z == zero);
    assert(oc.x.raw == ray.origin.0.x.raw - center.0.x.raw);
    assert(oc.y.raw == ray.origin.0.y.raw - center.0.y.raw);
    assert(oc.z.raw == ray.origin.0.z.raw - center.0.z.raw);
    lemma_unit_factors(one);
    lemma_unit_factors(minus);
    lemma_unit_factors(zero);
    lemma_unit_factors(oc.x);
    lemma_unit_factors(oc.y);
    lemma_unit_factors(oc.z);
    lemma_square_bounded(oc.x);
    lemma_square_bounded(oc.y);
    lemma_square_bounded(oc.z);
    let a = d.norm_squared();
    assert(a == one);
    let half_b = oc.dot(d);
    lemma_sense_product(oc.x, d.x);
    lemma_sense_product(oc.y, d.y);
    lemma_sense_product(oc.z, d.z);
    assert((center.0.x.raw - ray.origin.0.x.raw) * sense(d.x) == -(oc.x.raw * sense(d.x))) by (nonlinear_arith)
        requires
            oc.x.raw == ray.origin.0.x.raw - center.0.x.raw,
    ;
    assert((center.0.y.raw - ray.origin.0.y.raw) * sense(d.y) == -(oc.y.raw * sense(d.y))) by (nonlinear_arith)
        requires
            oc.y.raw == ray.origin.0.y.raw - center.0.y.raw,
    ;
    assert((center.0.z.raw - ray.origin.0.z.raw) * sense(d.z) == -(oc.z.raw * sense(d.z))) by (nonlinear_arith)
        requires
            oc.z.raw == ray.origin.0.z.raw - center.0.z.raw,
    ;
    assert(half_b.raw == -m);
    lemma_square_bounded(half_b);
    lemma_square_bounded(half_b.neg());
    let along = half_b.mul(half_b);
    assert(along == oc.x.mul(oc.x) || along == oc.y.mul(oc.y) || along == oc.z.mul(oc.z));
    let across = oc.norm_squared().raw - along.raw;
    assert(across >= 0);
    lemma_square_bounded(radius);
    let c = oc.norm_squared().sub(radius.mul(radius));
    lemma_unit_factors(c);
    let discriminant = along.sub(a.mul(c));
    assert(discriminant.raw == radius.mul(radius).raw - across);
    if discriminant.raw >= 0 {
        lemma_root_below_radius(discriminant, radius);
        let sqrtd = discriminant.sqrt();
        lemma_unit_factors(half_b.neg().sub(sqrtd));
        lemma_unit_factors(half_b.neg().add(sqrtd));
        assert(half_b.neg().sub(sqrtd).raw == m - sqrtd.raw);
        assert(half_b.neg().add(sqrtd).raw == m + sqrtd.raw);
    }
}

/// Half a step past the raw parameter `entry`, as a real parameter.
pub open spec fn just_past(entry: int) -> real {
    ((2 * entry + 1) as real) / 2_000_000_000real
}

/// Along one axis, a ray along an axis lies strictly between the two faces
/// of the box of a ball half a step after it has come within the radius of
/// its nearest pass.
proof fn lemma_inside_faces(lo: Fixed, hi: Fixed, o: Fixed, d: Fixed, c: int, r: int, m: int)
    requires
        lo.raw == c - r,
        hi.raw == c + r,
        r >= 1,
        d.raw == SCALE || d.raw == -SCALE || d.raw == 0,
        d.raw == SCALE ==> m == c - o.raw,
        d.raw == -SCALE ==> m == o.raw - c,
        d.raw == 0 ==> -r < o.raw - c < r,
    ensures
        lo@ < o@ + just_past(m - r) * d@,
        o@ + just_past(m - r) * d@ < hi@,
{
    let s = just_past(m - r);
    let or = o.raw as real;
    let cr = c as real;
    let rr = r as real;
    let mr = m as real;
    assert(lo@ == (cr - rr) / 1_000_000_000real);
    assert(hi@ == (cr + rr) / 1_000_000_000real);
    assert(o@ == or / 1_000_000_000real);
    assert(s == (2real * (mr - rr) + 1real) / 2_000_000_000real);
    if d.raw == SCALE {
        assert(d@ == 1real);
        assert(s * d@ == s) by (nonlinear_arith)
            requires
                d@ == 1real,
        ;
        assert(mr == cr - or);
    } else if d.raw == -SCALE {
        assert(d@ == -1real);
        assert(s * d@ == -s) by (nonlinear_arith)
            requires
                d@ == -1real,
        ;
        assert(mr == or - cr);
    } else {
        assert(d@ == 0real);
        assert(s * d@ == 0real) by (nonlinear_arith)
            requires
                d@ == 0real,
        ;
    }
}

/// On a ray along an axis whose line passes through the inside of the box
/// of a ball, and whose range starts before the ray enters that box, the
/// ray passes through the box within the range from `t_min` to one step past
/// the hit, wherever it hits the ball.
pub proof fn lemma_ball_on_axis_is_covered(center: Point, radius: Fixed, t_min: Fixed, t_max: Fixed, ray: Ray)
    requires
        is_plain_pass(center, radius, t_min, ray),
    ensures
        spec_ball_hit(center, radius, t_min, t_max, &ray) matches Some(t) ==> ball_box(center, radius).hits(
            t_min,
            next_step(t),
            ray,
        ),
{
    lemma_axis_roots(center, radius, ray);
    match spec_ball_hit(center, radius, t_min, t_max, &ray) {
        Some(t) => {
            let m = nearest_pass(center, ray);
            let r = radius.raw as int;
            let d = ray.direction;
            let bounds = ball_box(center, radius);
            assert(m - r <= t.raw <= m + r);
            assert(-3 * REACH_RAW <= m <= 3 * REACH_RAW) by {
                lemma_pass_bounded(center, ray);
            }
            let s = just_past(m - r);
            assert(t_min@ < s && s < next_step(t)@);
            assert(strictly_between(t_min@, s, next_step(t)@));
            lemma_pass_on_axis(center, ray);
            lemma_inside_faces(
                bounds.minimum.0.x,
                bounds.maximum.0.x,
                ray.origin.0.x,
                d.x,
                center.0.x.raw as int,
                r,
                m,
            );
            lemma_inside_faces(
                bounds.minimum.0.y,
                bounds.maximum.0.y,
                ray.origin.0.y,
                d.y,
                center.0.y.raw as int,
                r,
                m,
            );
            lemma_inside_faces(
                bounds.minimum.0.z,
                bounds.maximum.0.z,
                ray.origin.0.z,
                d.z,
                center.0.z.raw as int,
                r,
                m,
            );
            assert(bounds.encloses(ray, s));
        },
        None => {},
    }
}

/// The nearest pass of a ray along an axis is counted along that axis alone.
proof fn lemma_pass_on_axis(center: Point, ray: Ray)
    requires
        is_axis_direction(ray.direction),
    ensures
        ray.direction.x.raw == SCALE ==> nearest_pass(center, ray) == center.0.x.raw - ray.origin.0.x.raw,
        ray.direction.x.raw == -SCALE ==> nearest_pass(center, ray) == ray.origin.0.x.raw - center.0.x.raw,
        ray.direction.y.raw == SCALE ==> nearest_pass(center, ray) == center.0.y.raw - ray.origin.0.y.raw,
        ray.direction.y.raw == -SCALE ==> nearest_pass(center, ray) == ray.origin.0.y.raw - center.0.y.raw,
        ray.direction.z.raw == SCALE ==> nearest_pass(center, ray) == center.0.z.raw - ray.origin.0.z.raw,
        ray.direction.z.raw == -SCALE ==> nearest_pass(center, ray) == ray.origin.0.z.raw - center.0.z.raw,
{
    let dx = center.0.x.raw - ray.origin.0.x.raw;
    let dy = center.0.y.raw - ray.origin.0.y.raw;
    let dz = center.0.z.raw - ray.origin.0.z.raw;
    assert(dx * 0 == 0 && dy * 0 == 0 && dz * 0 == 0) by (nonlinear_arith);
    assert(dx * 1 == dx && dy * 1 == dy && dz * 1 == dz) by (nonlinear_arith);
    assert(dx * (-1) == -dx && dy * (-1) == -dy && dz * (-1) == -dz) by (nonlinear_arith);
}

/// The nearest pass of a ray along an axis lies within thrice the reach.
proof fn lemma_pass_bounded(center: Point, ray: Ray)
    requires
        is_axis_direction(ray.direction),
        is_within_reach(center),
        is_within_reach(ray.origin),
    ensures
        -3 * REACH_RAW <= nearest_pass(center, ray) <= 3 * REACH_RAW,
{
    lemma_pass_on_axis(center, ray);
}

/// The box of a sphere answers for the sphere's hits on every ray along an
/// axis whose line passes through the inside of the box and whose range
/// starts before the ray enters the box.
pub proof fn lemma_sphere_is_covered(
    sphere: Sphere,
    time0: Fixed,
    time1: Fixed,
    t_min: Fixed,
    t_max: Fixed,
    ray: Ray,
)
    requires
        is_plain_pass(sphere.center, sphere.radius, t_min, ray),
    ensures
        box_covers(Object::SphereType(sphere), time0, time1, t_min, t_max, &ray),
{
    let thing = Object::SphereType(sphere);
    lemma_ball_on_axis_is_covered(sphere.center, sphere.radius, t_min, t_max, ray);
    lemma_one_test_decides(thing, time0, time1, t_min, t_max, ray);
}

/// A sphere that counts as moving between two equal centres stays at that centre.
pub proof fn lemma_equal_centres_rest(moving: MovingSphere, time: Fixed)
    requires
        moving.center0 == moving.center1,
    ensures
        moving.center(time) == moving.center0,
{
    let still = moving.center1.diff(moving.center0);
    assert(still == Vec3 { x: Fixed::zero(), y: Fixed::zero(), z: Fixed::zero() });
    let share = time.sub(moving.time0).div(moving.time1.sub(moving.time0));
    lemma_unit_factors(share);
}

/// The box of a sphere that counts as moving between two equal centres
/// answers for the sphere's hits on every ray along an axis whose line
/// passes through the inside of the box and whose range starts before the
/// ray enters the box.
pub proof fn lemma_resting_sphere_is_covered(
    moving: MovingSphere,
    time0: Fixed,
    time1: Fixed,
    t_min: Fixed,
    t_max: Fixed,
    ray: Ray,
)
    requires
        moving.center0 == moving.center1,
        is_plain_pass(moving.center0, moving.radius, t_min, ray),
    ensures
        box_covers(Object::MovingSphereType(moving), time0, time1, t_min, t_max, &ray),
{
    let thing = Object::MovingSphereType(moving);
    lemma_equal_centres_rest(moving, ray.time);
    lemma_equal_centres_rest(moving, time0);
    lemma_equal_centres_rest(moving, time1);
    lemma_surrounding_box_idempotent(ball_box(moving.center0, moving.radius));
    assert(thing.bounds(time0, time1) == ball_box(moving.center0, moving.radius));
    lemma_ball_on_axis_is_covered(moving.center0, moving.radius, t_min, t_max, ray);
    lemma_one_test_decides(thing, time0, time1, t_min, t_max, ray);
}

/// At a time between two others, every coordinate of the centre of a moving
/// sphere lies between its coordinates at those two times.
pub proof fn lemma_centre_between(moving: MovingSphere, time0: Fixed, time: Fixed, time1: Fixed)
    requires
        time0.raw <= time.raw <= time1.raw,
    ensures
        lies_between(moving.center(time).0.x, moving.center(time0).0.x, moving.center(time1).0.x),
        lies_between(moving.center(time).0.y, moving.center(time0).0.y, moving.center(time1).0.y),
        lies_between(moving.center(time).0.z, moving.center(time0).0.z, moving.center(time1).0.z),
{
    let span = moving.time1.sub(moving.time0);
    let way = moving.center1.diff(moving.center0);
    let at = time.sub(moving.time0);
    let from = time0.sub(moving.time0);
    let to = time1.sub(moving.time0);
    assert(lies_between(at, from, to));
    lemma_div_between(at, from, to, span);
    let share = at.div(span);
    let share0 = from.div(span);
    let share1 = to.div(span);
    lemma_mul_between(way.x, share, share0, share1);
    lemma_mul_between(way.y, share, share0, share1);
    lemma_mul_between(way.z, share, share0, share1);
}

/// The box of a moving sphere from one time to another contains the box of
/// the ball at every time between the two.
pub proof fn lemma_moving_box_contains(moving: MovingSphere, time0: Fixed, time: Fixed, time1: Fixed)
    requires
        time0.raw <= time.raw <= time1.raw,
    ensures
        moving.bounds(time0, time1).contains_box(ball_box(moving.center(time), moving.radius)),
{
    let here = moving.center(time).0;
    let first = moving.center(time0).0;
    let second = moving.center(time1).0;
    let r = moving.radius;
    lemma_centre_between(moving, time0, time, time1);
    lemma_faces_between(here.x, first.x, second.x, r);
    lemma_faces_between(here.y, first.y, second.y, r);
    lemma_faces_between(here.z, first.z, second.z, r);
    let inner = ball_box(moving.center(time), r);
    let outer = moving.bounds(time0, time1);
    assert(inner.minimum.0 == Vec3 { x: here.x.sub(r), y: here.y.sub(r), z: here.z.sub(r) });
    assert(inner.maximum.0 == Vec3 { x: here.x.add(r), y: here.y.add(r), z: here.z.add(r) });
    assert(outer.minimum.0 == Vec3 {
        x: first.x.sub(r).min(second.x.sub(r)),
        y: first.y.sub(r).min(second.y.sub(r)),
        z: first.z.sub(r).min(second.z.sub(r)),
    }) by {
        reveal(BoundingBox::spec_surrounding_box);
    }
    assert(outer.maximum.0 == Vec3 {
        x: first.x.add(r).max(second.x.add(r)),
        y: first.y.add(r).max(second.y.add(r)),
        z: first.z.add(r).max(second.z.add(r)),
    }) by {
        reveal(BoundingBox::spec_surrounding_box);
    }
}

/// Where a coordinate lies between two others, the faces of the box of a
/// ball at that coordinate lie within the faces of the boxes at the two.
proof fn lemma_faces_between(x: Fixed, a: Fixed, b: Fixed, r: Fixed)
    requires
        lies_between(x, a, b),
    ensures
        a.sub(r).min(b.sub(r)).raw <= x.sub(r).raw,
        x.add(r).raw <= a.add(r).max(b.add(r)).raw,
{
}

/// The box of a moving sphere answers for the sphere's hits on every ray
/// along an axis that is cast at a time within the span of the box, whose
/// line passes through the inside of the box of the ball at that time, and
/// whose range starts before the ray enters that box.
pub proof fn lemma_moving_sphere_is_covered(
    moving: MovingSphere,
    time0: Fixed,
    time1: Fixed,
    t_min: Fixed,
    t_max: Fixed,
    ray: Ray,
)
    requires
        time0.raw <= ray.time.raw <= time1.raw,
        is_plain_pass(moving.center(ray.time), moving.radius, t_min, ray),
    ensures
        box_covers(Object::MovingSphereType(moving), time0, time1, t_min, t_max, &ray),
{
    let thing = Object::MovingSphereType(moving);
    let centre = moving.center(ray.time);
    lemma_ball_on_axis_is_covered(centre, moving.radius, t_min, t_max, ray);
    lemma_moving_box_contains(moving, time0, ray.time, time1);
    match thing.reach(t_min, t_max, &ray) {
        Some(t) => {
            lemma_hits_monotone(
                thing.bounds(time0, time1),
                ball_box(centre, moving.radius),
                t_min,
                next_step(t),
                t_min,
                next_step(t),
                ray,
            );
        },
        None => {},
    }
    lemma_one_test_decides(thing, time0, time1, t_min, t_max, ray);
}

/// Whether a ray along an axis meets `thing` plainly: the thing is a
/// sphere, at rest or moving, and either the ray does not reach it within
/// the range, or its line passes through the inside of the box of the ball
/// and the range starts before the ray enters that box. For a sphere that
/// moves between two different centres the ball is taken at the time of the
/// ray, which then lies within the span from `time0` to `time1`.
pub open spec fn is_plainly_met(
    thing: Object,
    time0: Fixed,
    time1: Fixed,
    t_min: Fixed,
    t_max: Fixed,
    ray: Ray,
) -> bool {
    match thing {
        Object::SphereType(sphere) => thing.reach(t_min, t_max, &ray).is_none() || is_plain_pass(
            sphere.center,
            sphere.radius,
            t_min,
            ray,
        ),
        Object::MovingSphereType(moving) => {
            ||| thing.reach(t_min, t_max, &ray).is_none()
            ||| moving.center0 == moving.center1 && is_plain_pass(moving.center0, moving.radius, t_min, ray)
            ||| time0.raw <= ray.time.raw <= time1.raw && is_plain_pass(
                moving.center(ray.time),
                moving.radius,
                t_min,
                ray,
            )
        },
        Object::BVHNodeType(node) => false,
    }
}

/// The box of a sphere that a ray along an axis meets plainly answers for
/// the sphere's hits.
pub proof fn lemma_plainly_met_is_covered(
    thing: Object,
    time0: Fixed,
    time1: Fixed,
    t_min: Fixed,
    t_max: Fixed,
    ray: Ray,
)
    requires
        is_plainly_met(thing, time0, time1, t_min, t_max, ray),
    ensures
        box_covers(thing, time0, time1, t_min, t_max, &ray),
{
    if thing.reach(t_min, t_max, &ray).is_none() {
        lemma_unreached_is_covered(thing, time0, time1, t_min, t_max, ray);
    } else {
        match thing {
            Object::SphereType(sphere) => lemma_sphere_is_covered(sphere, time0, time1, t_min, t_max, ray),
            Object::MovingSphereType(moving) => {
                if moving.center0 == moving.center1 && is_plain_pass(moving.center0, moving.radius, t_min, ray) {
                    lemma_resting_sphere_is_covered(moving, time0, time1, t_min, t_max, ray);
                } else {
                    lemma_moving_sphere_is_covered(moving, time0, time1, t_min, t_max, ray);
                }
            },
            Object::BVHNodeType(node) => {},
        }
    }
}

/// On a ray that meets every one of some spheres plainly, the search of a
/// hierarchy built over them finds the nearest hit among them, whatever
/// axes the hierarchy was built with: the sphere found is one of them and
/// is reached at the stated parameter, none is reached earlier, and nothing
/// is found only where none is reached before the very end of the range.
pub proof fn lemma_search_on_plain_rays(
    node: BVHNode,
    things: Seq<Object>,
    time0: Fixed,
    time1: Fixed,
    t_min: Fixed,
    t_max: Fixed,
    ray: Ray,
)
    requires
        is_hierarchy_of(node, things, time0, time1),
        forall|i: int|
            0 <= i < things.len() ==> is_plainly_met(#[trigger] things[i], time0, time1, t_min, t_max, ray),
    ensures
        is_nearest_among(things, t_min, t_max, &ray, node.nearest(t_min, t_max, &ray)),
{
    assert forall|i: int| 0 <= i < things.len() implies (#[trigger] things[i]).is_leaf() by {
        assert(is_plainly_met(things[i], time0, time1, t_min, t_max, ray));
    }
    assert forall|i: int| 0 <= i < things.len() implies box_covers(
        #[trigger] things[i],
        time0,
        time1,
        t_min,
        t_max,
        &ray,
    ) by {
        lemma_plainly_met_is_covered(things[i], time0, time1, t_min, t_max, ray);
    }
    lemma_built_search_finds_nearest(node, things, time0, time1, t_min, t_max, ray);
}

} // verus!
