//! The things a ray can hit: spheres at rest, spheres in motion, and nodes
//! of a bounding-volume hierarchy over them.

use vstd::prelude::*;
use crate::aabb::BoundingBox;
use crate::bvh::BVHNode;
use crate::fixed::Fixed;
use crate::material::Material;
use crate::ray::Ray;
use crate::trig::{PI_RAW, TAU_RAW};
use crate::vec3::{Point, Vec3};

verus! {

/// The full record of a hit: where, how far along the ray, the normal
/// turned against the ray, and what the surface is made of.
pub struct HitResult<'a> {
    pub p: Point,
    pub normal: Vec3,
    pub t: Fixed,
    pub front_face: bool,
    pub material: &'a Material,
    /// Surface coordinates of the hit.
    pub u: Fixed,
    pub v: Fixed,
}

impl<'a> HitResult<'a> {
    /// Whether the ray `r` meets a surface with the given outward normal from outside.
    pub open spec fn faces(r: &Ray, outward_normal: &Vec3) -> bool {
        r.direction.dot(*outward_normal).raw < 0
    }

    /// The record of a hit at `p`, at parameter `t` of the ray `r`. The
    /// normal of the record is the outward normal where the ray comes from
    /// outside, and its opposite where the ray comes from inside.
    pub fn new(
        p: Point,
        r: &Ray,
        t: Fixed,
        outward_normal: &Vec3,
        material: &'a Material,
        u: Fixed,
        v: Fixed,
    ) -> (h: HitResult<'a>)
        ensures
            h.p == p,
            h.t == t,
            h.u == u,
            h.v == v,
            *h.material == *material,
            h.front_face == HitResult::faces(r, outward_normal),
            h.normal == if h.front_face {
                *outward_normal
            } else {
                outward_normal.neg()
            },
    {
        let front_face = r.direction.dot(*outward_normal).raw < 0;
        let normal = if front_face {
            *outward_normal
        } else {
            outward_normal.neg()
        };
        HitResult { p, t, normal, front_face, material, u, v }
    }
}


/// Whether `t` lies in the closed range from `t_min` to `t_max`.
pub open spec fn spec_in_range(t: Fixed, t_min: Fixed, t_max: Fixed) -> bool {
    t_min.raw <= t.raw && t.raw <= t_max.raw
}

/// Whether `t` lies in the closed range from `t_min` to `t_max`.
#[verifier::when_used_as_spec(spec_in_range)]
pub fn in_range(t: Fixed, t_min: Fixed, t_max: Fixed) -> (r: bool)
    ensures
        r == spec_in_range(t, t_min, t_max),
{
    t_min.raw <= t.raw && t.raw <= t_max.raw
}

/// The two roots of the quadratic that a ray and a ball of the given centre
/// and radius define, the nearer first; `None` where the discriminant is negative.
pub open spec fn spec_ball_roots(center: Point, radius: Fixed, ray: &Ray) -> Option<(Fixed, Fixed)> {
    let oc = ray.origin.diff(center);
    let a = ray.direction.norm_squared();
    let half_b = oc.dot(ray.direction);
    let c = oc.norm_squared().sub(radius.mul(radius));
    let discriminant = half_b.mul(half_b).sub(a.mul(c));
    if discriminant.raw < 0 {
        None
    } else {
        let sqrtd = discriminant.sqrt();
        Some((half_b.neg().sub(sqrtd).div(a), half_b.neg().add(sqrtd).div(a)))
    }
}

/// Solves `|origin + t direction - center|^2 = radius^2` for `t`.
#[verifier::when_used_as_spec(spec_ball_roots)]
pub fn ball_roots(center: Point, radius: Fixed, ray: &Ray) -> (r: Option<(Fixed, Fixed)>)
    ensures
        r == spec_ball_roots(center, radius, ray),
        r matches Some(roots) ==> roots.0.raw <= roots.1.raw,
{
    let oc = ray.origin.diff(center);
    let a = ray.direction.norm_squared();
    let half_b = oc.dot(ray.direction);
    let c = oc.norm_squared().sub(radius.mul(radius));
    let discriminant = half_b.mul(half_b).sub(a.mul(c));
    if discriminant.raw < 0 {
        return None;
    }
    let sqrtd = discriminant.sqrt();
    proof {
        lemma_roots_ordered(center, radius, *ray);
    }
    Some((half_b.neg().sub(sqrtd).div(a), half_b.neg().add(sqrtd).div(a)))
}

/// The parameter at which a ray hits a ball within the range from `t_min` to
/// `t_max`: the nearer root where it lies in the range, else the farther one
/// where that does; and nothing where the chosen root is negative.
pub open spec fn spec_ball_hit(center: Point, radius: Fixed, t_min: Fixed, t_max: Fixed, ray: &Ray) -> Option<
    Fixed,
> {
    match ball_roots(center, radius, ray) {
        None => None,
        Some((near, far)) => {
            if in_range(near, t_min, t_max) {
                if near.raw < 0 {
                    None
                } else {
                    Some(near)
                }
            } else if in_range(far, t_min, t_max) {
                if far.raw < 0 {
                    None
                } else {
                    Some(far)
                }
            } else {
                None
            }
        },
    }
}

/// Finds where a ray hits a ball of the given centre and radius.
#[verifier::when_used_as_spec(spec_ball_hit)]
pub fn ball_hit(center: Point, radius: Fixed, t_min: Fixed, t_max: Fixed, ray: &Ray) -> (r: Option<Fixed>)
    ensures
        r == spec_ball_hit(center, radius, t_min, t_max, ray),
        r matches Some(t) ==> in_range(t, t_min, t_max) && t.raw >= 0,
{
    match ball_roots(center, radius, ray) {
        None => None,
        Some((near, far)) => {
            let mut root = near;
            if !in_range(root, t_min, t_max) {
                root = far;
                if !in_range(root, t_min, t_max) {
                    return None;
                }
            }
            if root.raw < 0 {
                None
            } else {
                Some(root)
            }
        },
    }
}

/// What is left of a hit when the upper end of the range comes down to
/// `tighter`: the same hit where it still lies in the range, and nothing otherwise.
pub open spec fn restricted(found: Option<Fixed>, tighter: Fixed) -> Option<Fixed> {
    match found {
        Some(t) => if t.raw <= tighter.raw {
            Some(t)
        } else {
            None
        },
        None => None,
    }
}

/// The nearer root of a ball is not beyond the farther one.
pub proof fn lemma_roots_ordered(center: Point, radius: Fixed, ray: Ray)
    ensures
        spec_ball_roots(center, radius, &ray) matches Some(roots) ==> roots.0.raw <= roots.1.raw,
{
    let oc = ray.origin.diff(center);
    let a = ray.direction.norm_squared();
    let half_b = oc.dot(ray.direction);
    let c = oc.norm_squared().sub(radius.mul(radius));
    let discriminant = half_b.mul(half_b).sub(a.mul(c));
    if discriminant.raw >= 0 {
        let sqrtd = discriminant.sqrt();
        crate::vec3::lemma_norm_squared_nonnegative(ray.direction);
        crate::fixed::lemma_sqrt_is_root(discriminant);
        crate::fixed::lemma_div_monotone(half_b.neg().sub(sqrtd), half_b.neg().add(sqrtd), a);
    }
}

/// Bringing the upper end of the range down restricts the hit on a ball and
/// changes nothing else about it.
pub proof fn lemma_ball_hit_restricts(
    center: Point,
    radius: Fixed,
    t_min: Fixed,
    t_max: Fixed,
    tighter: Fixed,
    ray: Ray,
)
    requires
        tighter.raw <= t_max.raw,
    ensures
        spec_ball_hit(center, radius, t_min, tighter, &ray) == restricted(
            spec_ball_hit(center, radius, t_min, t_max, &ray),
            tighter,
        ),
{
    lemma_roots_ordered(center, radius, ray);
}

/// The surface coordinates of the point of the unit sphere with outward
/// normal `normal`: the angle around the second axis as a fraction of a
/// turn, and the angle up from the lowest point as a fraction of half a turn.
pub open spec fn spec_surface_coordinates(normal: Vec3) -> (Fixed, Fixed) {
    let theta = normal.y.neg().acos();
    let phi = normal.z.neg().atan2(normal.x).add(Fixed::pi());
    (phi.div(Fixed { raw: TAU_RAW }), theta.div(Fixed::pi()))
}

/// Maps a unit outward normal to surface coordinates `(u, v)`, both between
/// zero and one.
#[verifier::when_used_as_spec(spec_surface_coordinates)]
pub fn surface_coordinates(normal: Vec3) -> (uv: (Fixed, Fixed))
    ensures
        uv == spec_surface_coordinates(normal),
        0 <= uv.0.raw <= crate::fixed::SCALE,
        0 <= uv.1.raw <= crate::fixed::SCALE,
{
    let theta = normal.y().neg().acos();
    let phi = normal.z().neg().atan2(normal.x()).add(Fixed::pi());
    proof {
        lemma_share_of_whole(phi, Fixed { raw: TAU_RAW });
        lemma_share_of_whole(theta, Fixed::pi());
    }
    (phi.div(Fixed { raw: TAU_RAW }), theta.div(Fixed::pi()))
}

/// A part divided by the whole lies between zero and one, also where the
/// part exceeds the whole by the smallest step.
proof fn lemma_share_of_whole(part: Fixed, whole: Fixed)
    requires
        0 <= part.raw <= whole.raw + 1,
        whole.raw > crate::fixed::SCALE,
    ensures
        0 <= part.div(whole).raw <= crate::fixed::SCALE,
{
    reveal(Fixed::spec_div);
    let s = crate::fixed::SCALE as int;
    let n = part.raw * s;
    let d = whole.raw as int;
    assert(0 <= n <= d * s + s) by (nonlinear_arith)
        requires
            0 <= part.raw <= d + 1,
            n == part.raw * s,
            s > 0,
    ;
    let q = n / d;
    vstd::arithmetic::div_mod::lemma_fundamental_div_mod(n, d);
    vstd::arithmetic::div_mod::lemma_mod_pos_bound(n, d);
    assert(0 <= q <= s) by (nonlinear_arith)
        requires
            0 <= n <= d * s + s,
            n == d * q + n % d,
            0 <= n % d < d,
            d > s,
            s > 0,
    ;
}

/// The record of the hit of `ray` at parameter `t` on a ball of the given
/// centre, radius and material.
pub open spec fn ball_record<'a>(
    center: Point,
    radius: Fixed,
    material: &'a Material,
    t: Fixed,
    ray: &Ray,
) -> HitResult<'a> {
    let p = ray.at(t);
    let outward = p.diff(center).div(radius);
    let front_face = HitResult::faces(ray, &outward);
    let uv = surface_coordinates(outward);
    HitResult {
        p,
        normal: if front_face {
            outward
        } else {
            outward.neg()
        },
        t,
        front_face,
        material,
        u: uv.0,
        v: uv.1,
    }
}

/// Builds the record of a hit on a ball: the point, the normal through it
/// from the centre, and the surface coordinates of that normal.
pub fn ball_payload<'a>(center: Point, radius: Fixed, material: &'a Material, t: Fixed, ray: &Ray) -> (h:
    HitResult<'a>)
    ensures
        h == ball_record(center, radius, material, t, ray),
{
    let point = ray.at(t);
    let normal = point.diff(center).div(radius);
    let (u, v) = surface_coordinates(normal);
    HitResult::new(point, ray, t, &normal, material, u, v)
}

/// The box around a ball: the centre moved by the radius along every axis, both ways.
pub open spec fn spec_ball_box(center: Point, radius: Fixed) -> BoundingBox {
    let v = Vec3::new(radius, radius, radius);
    BoundingBox::new(center.sub(v), center.add(v))
}

/// The tight axis-aligned box around a ball.
#[verifier::when_used_as_spec(spec_ball_box)]
pub fn ball_box(center: Point, radius: Fixed) -> (b: BoundingBox)
    ensures
        b == spec_ball_box(center, radius),
        radius.raw >= 0 ==> b.is_ordered(),
{
    let v = Vec3::new(radius, radius, radius);
    BoundingBox::new(center.sub(v), center.add(v))
}

/// A sphere at rest.
pub struct Sphere {
    pub center: Point,
    pub radius: Fixed,
    pub material: Material,
}

impl Sphere {
    /// The sphere with the given centre, radius and material.
    pub fn new(center: Point, radius: Fixed, material: Material) -> (s: Sphere)
        ensures
            s.center == center,
            s.radius == radius,
            s.material == material,
    {
        Sphere { center, radius, material }
    }

    /// The parameter at which the ray hits the sphere within the range.
    pub open spec fn distance(self, t_min: Fixed, t_max: Fixed, ray: &Ray) -> Option<Fixed> {
        ball_hit(self.center, self.radius, t_min, t_max, ray)
    }

    /// The record of the hit at parameter `t`.
    pub open spec fn record<'a>(&'a self, t: Fixed, ray: &Ray) -> HitResult<'a> {
        ball_record(self.center, self.radius, &self.material, t, ray)
    }

    /// Where the ray hits the sphere within the range from `t_min` to `t_max`, if it does.
    pub fn hits_sphere(&self, t_min: Fixed, t_max: Fixed, ray: &Ray) -> (r: Option<Fixed>)
        ensures
            r == self.distance(t_min, t_max, ray),
            r matches Some(t) ==> in_range(t, t_min, t_max) && t.raw >= 0,
    {
        ball_hit(self.center, self.radius, t_min, t_max, ray)
    }

    /// The full record of the hit at parameter `t` of the ray.
    pub fn hit_payload<'a>(&'a self, t: Fixed, ray: &Ray) -> (h: HitResult<'a>)
        ensures
            h == self.record(t, ray),
    {
        ball_payload(self.center, self.radius, &self.material, t, ray)
    }

    /// The nearest hit of the ray on the sphere within the range, with its full record.
    pub fn hit<'a>(&'a self, t_min: Fixed, t_max: Fixed, ray: &Ray) -> (r: Option<HitResult<'a>>)
        ensures
            match self.distance(t_min, t_max, ray) {
                Some(t) => r == Some(self.record(t, ray)),
                None => r.is_none(),
            },
    {
        match self.hits_sphere(t_min, t_max, ray) {
            None => None,
            Some(t) => Some(self.hit_payload(t, ray)),
        }
    }

    /// The box around the sphere; it is the same at all times.
    pub open spec fn bounds(self) -> BoundingBox {
        ball_box(self.center, self.radius)
    }

    /// The box that holds the sphere from `time0` to `time1`.
    pub fn bounding_box(&self, time0: Fixed, time1: Fixed) -> (b: Option<BoundingBox>)
        ensures
            b == Some(self.bounds()),
    {
        Some(ball_box(self.center, self.radius))
    }
}

/// A sphere whose centre moves in a straight line, from `center0` at `time0`
/// to `center1` at `time1`.
pub struct MovingSphere {
    pub center0: Point,
    pub center1: Point,
    pub time0: Fixed,
    pub time1: Fixed,
    pub radius: Fixed,
    pub material: Material,
}

impl MovingSphere {
    /// The sphere that moves between the two centres over the given span of time.
    pub fn new(center0: Point, center1: Point, time0: Fixed, time1: Fixed, radius: Fixed, material: Material) -> (s:
        MovingSphere)
        ensures
            s.center0 == center0,
            s.center1 == center1,
            s.time0 == time0,
            s.time1 == time1,
            s.radius == radius,
            s.material == material,
    {
        MovingSphere { center0, center1, time0, time1, radius, material }
    }

    pub open spec fn spec_center(&self, time: Fixed) -> Point {
        self.center0.add(
            self.center1.diff(self.center0).scale(time.sub(self.time0).div(self.time1.sub(self.time0))),
        )
    }

    /// The centre at `time`: the point between the two centres, or beyond
    /// them, that divides the way as `time` divides the span of time.
    #[verifier::when_used_as_spec(spec_center)]
    pub fn center(&self, time: Fixed) -> (c: Point)
        ensures
            c == self.spec_center(time),
    {
        self.center0.add(
            self.center1.diff(self.center0).scale(time.sub(self.time0).div(self.time1.sub(self.time0))),
        )
    }

    /// The parameter at which the ray hits the sphere, where the sphere is at the ray's time.
    pub open spec fn distance(self, t_min: Fixed, t_max: Fixed, ray: &Ray) -> Option<Fixed> {
        ball_hit(self.center(ray.time), self.radius, t_min, t_max, ray)
    }

    /// The record of the hit at parameter `t`.
    pub open spec fn record<'a>(&'a self, t: Fixed, ray: &Ray) -> HitResult<'a> {
        ball_record(self.center(ray.time), self.radius, &self.material, t, ray)
    }

    /// Where the ray hits the sphere within the range from `t_min` to `t_max`, if it does.
    pub fn hit_distance(&self, t_min: Fixed, t_max: Fixed, ray: &Ray) -> (r: Option<Fixed>)
        ensures
            r == self.distance(t_min, t_max, ray),
            r matches Some(t) ==> in_range(t, t_min, t_max) && t.raw >= 0,
    {
        ball_hit(self.center(ray.time), self.radius, t_min, t_max, ray)
    }

    /// The full record of the hit at parameter `t` of the ray.
    pub fn hit_payload<'a>(&'a self, t: Fixed, ray: &Ray) -> (h: HitResult<'a>)
        ensures
            h == self.record(t, ray),
    {
        ball_payload(self.center(ray.time), self.radius, &self.material, t, ray)
    }

    /// The nearest hit of the ray on the sphere within the range, with its full record.
    pub fn hit<'a>(&'a self, t_min: Fixed, t_max: Fixed, ray: &Ray) -> (r: Option<HitResult<'a>>)
        ensures
            match self.distance(t_min, t_max, ray) {
                Some(t) => r == Some(self.record(t, ray)),
                None => r.is_none(),
            },
    {
        match self.hit_distance(t_min, t_max, ray) {
            None => None,
            Some(t) => Some(self.hit_payload(t, ray)),
        }
    }

    /// The merge of the boxes around the sphere at `time0` and at `time1`.
    pub open spec fn bounds(self, time0: Fixed, time1: Fixed) -> BoundingBox {
        BoundingBox::surrounding_box(
            &ball_box(self.center(time0), self.radius),
            &ball_box(self.center(time1), self.radius),
        )
    }

    /// The box that holds the sphere at `time0` and at `time1`.
    pub fn bounding_box(&self, time0: Fixed, time1: Fixed) -> (b: Option<BoundingBox>)
        ensures
            b == Some(self.bounds(time0, time1)),
    {
        let bb0 = ball_box(self.center(time0), self.radius);
        let bb1 = ball_box(self.center(time1), self.radius);
        Some(BoundingBox::surrounding_box(&bb0, &bb1))
    }
}


/// Anything a ray can hit.
pub enum Object {
    SphereType(Sphere),
    MovingSphereType(MovingSphere),
    BVHNodeType(BVHNode),
}

impl Object {
    /// Whether this is a single thing rather than a node over several.
    pub open spec fn is_leaf(self) -> bool {
        !(self is BVHNodeType)
    }

    /// The nearest hit of the ray within the range: the parameter, and the
    /// single thing that is hit there. For a node this is the result of the
    /// pruned search through its subtree.
    pub open spec fn nearest(self, t_min: Fixed, t_max: Fixed, ray: &Ray) -> Option<(Fixed, Object)>
        decreases self,
    {
        match self {
            Object::SphereType(sphere) => match sphere.distance(t_min, t_max, ray) {
                Some(t) => Some((t, self)),
                None => None,
            },
            Object::MovingSphereType(moving_sphere) => match moving_sphere.distance(t_min, t_max, ray) {
                Some(t) => Some((t, self)),
                None => None,
            },
            Object::BVHNodeType(bvhnode) => bvhnode.nearest(t_min, t_max, ray),
        }
    }

    /// The parameter of the nearest hit of the ray within the range.
    pub open spec fn reach(self, t_min: Fixed, t_max: Fixed, ray: &Ray) -> Option<Fixed> {
        match self.nearest(t_min, t_max, ray) {
            Some((t, owner)) => Some(t),
            None => None,
        }
    }

    /// The record of the hit at parameter `t` on a single thing.
    pub open spec fn record<'a>(&'a self, t: Fixed, ray: &Ray) -> HitResult<'a>
        recommends
            self.is_leaf(),
    {
        match self {
            Object::SphereType(sphere) => sphere.record(t, ray),
            Object::MovingSphereType(moving_sphere) => moving_sphere.record(t, ray),
            Object::BVHNodeType(bvhnode) => arbitrary(),
        }
    }

    /// The box that holds this thing from `time0` to `time1`; for a node,
    /// the box it was built with.
    pub open spec fn bounds(self, time0: Fixed, time1: Fixed) -> BoundingBox {
        match self {
            Object::SphereType(sphere) => sphere.bounds(),
            Object::MovingSphereType(moving_sphere) => moving_sphere.bounds(time0, time1),
            Object::BVHNodeType(bvhnode) => bvhnode.bounding_box,
        }
    }

    /// The single things under this one, from left to right; a single thing
    /// is its own only leaf.
    pub open spec fn leaves(self) -> Seq<Object>
        decreases self,
    {
        match self {
            Object::BVHNodeType(bvhnode) => bvhnode.leaves(),
            _ => seq![self],
        }
    }

    /// Whether every node under this thing has a box that contains the boxes
    /// of its children for the span from `time0` to `time1`.
    pub open spec fn wf(self, time0: Fixed, time1: Fixed) -> bool
        decreases self,
    {
        match self {
            Object::BVHNodeType(bvhnode) => bvhnode.wf(time0, time1),
            _ => true,
        }
    }

    /// The nearest hit of the ray within the range from `t_min` to `t_max`:
    /// the parameter and the single thing hit, before any record is built.
    pub fn closest<'a>(&'a self, t_min: Fixed, t_max: Fixed, ray: &Ray) -> (r: Option<(Fixed, &'a Object)>)
        ensures
            match r {
                Some((t, owner)) => self.nearest(t_min, t_max, ray) == Some((t, *owner)),
                None => self.nearest(t_min, t_max, ray).is_none(),
            },
        decreases self,
    {
        match self {
            Object::SphereType(sphere) => match sphere.hits_sphere(t_min, t_max, ray) {
                Some(t) => Some((t, self)),
                None => None,
            },
            Object::MovingSphereType(moving_sphere) => match moving_sphere.hit_distance(t_min, t_max, ray) {
                Some(t) => Some((t, self)),
                None => None,
            },
            Object::BVHNodeType(bvhnode) => bvhnode.closest(t_min, t_max, ray),
        }
    }

    /// The full record of the hit at parameter `t` on a single thing. A node
    /// has no surface of its own and is never asked for one.
    pub fn hit_payload<'a>(&'a self, t: Fixed, ray: &Ray) -> (h: HitResult<'a>)
        requires
            self.is_leaf(),
        ensures
            h == self.record(t, ray),
    {
        match self {
            Object::SphereType(sphere) => sphere.hit_payload(t, ray),
            Object::MovingSphereType(moving_sphere) => moving_sphere.hit_payload(t, ray),
            Object::BVHNodeType(bvhnode) => {
                proof {
                    assert(false);
                }
                unreached()
            },
        }
    }

    /// The nearest hit of the ray within the range, with its full record,
    /// which is built for that one hit only.
    pub fn hit<'a>(&'a self, t_min: Fixed, t_max: Fixed, ray: &Ray) -> (r: Option<HitResult<'a>>)
        ensures
            match self.nearest(t_min, t_max, ray) {
                Some((t, owner)) => r.is_some() && r.unwrap() == owner.record(t, ray),
                None => r.is_none(),
            },
    {
        match self.closest(t_min, t_max, ray) {
            None => None,
            Some((t, owner)) => {
                proof {
                    crate::bvh::lemma_nearest_is_leaf(*self, t_min, t_max, *ray);
                }
                Some(owner.hit_payload(t, ray))
            },
        }
    }

    /// The box that holds this thing from `time0` to `time1`.
    pub fn bounding_box(&self, time0: Fixed, time1: Fixed) -> (b: Option<BoundingBox>)
        ensures
            b == Some(self.bounds(time0, time1)),
    {
        match self {
            Object::SphereType(sphere) => sphere.bounding_box(time0, time1),
            Object::MovingSphereType(moving_sphere) => moving_sphere.bounding_box(time0, time1),
            Object::BVHNodeType(bvhnode) => bvhnode.bounding_box(time0, time1),
        }
    }
}

/// The things of a scene, in the order in which they were added.
pub struct ObjectList {
    pub objects: Vec<Object>,
}

impl ObjectList {
    /// A list without things.
    pub fn new() -> (list: ObjectList)
        ensures
            list.objects@ == Seq::<Object>::empty(),
    {
        ObjectList { objects: Vec::new() }
    }

    /// Adds a thing at the end of the list.
    pub fn add(&mut self, obj: Object)
        ensures
            final(self).objects@ == old(self).objects@.push(obj),
    {
        self.objects.push(obj);
    }

    /// Whether `found` is the nearest hit among the first `count` things of
    /// the list: the hit of one of them, with none of them reached earlier;
    /// or nothing, where the ray reaches none of them.
    pub open spec fn is_nearest_of_first(
        self,
        count: int,
        t_min: Fixed,
        t_max: Fixed,
        ray: &Ray,
        found: Option<(Fixed, Object)>,
    ) -> bool {
        match found {
            None => forall|i: int|
                0 <= i < count ==> (#[trigger] self.objects@[i]).reach(t_min, t_max, ray).is_none(),
            Some((t, owner)) => {
                &&& exists|i: int|
                    0 <= i < count && (#[trigger] self.objects@[i]).nearest(t_min, t_max, ray) == Some((t, owner))
                &&& forall|i: int|
                    0 <= i < count ==> ((#[trigger] self.objects@[i]).reach(t_min, t_max, ray) matches Some(other)
                        ==> t.raw <= other.raw)
            },
        }
    }

    /// The nearer of two hits, and the second of two that are equally near.
    pub open spec fn nearer(first: Option<(Fixed, Object)>, second: Option<(Fixed, Object)>) -> Option<
        (Fixed, Object),
    > {
        match (first, second) {
            (Some((t, owner)), Some((other_t, other_owner))) => if other_t.raw <= t.raw {
                second
            } else {
                first
            },
            (None, _) => second,
            (_, None) => first,
        }
    }

    /// What testing the first `count` things of the list in turn finds.
    pub open spec fn scanned(self, count: int, t_min: Fixed, t_max: Fixed, ray: &Ray) -> Option<(Fixed, Object)>
        decreases count,
    {
        if count <= 0 {
            None
        } else {
            ObjectList::nearer(
                self.scanned(count - 1, t_min, t_max, ray),
                self.objects@[count - 1].nearest(t_min, t_max, ray),
            )
        }
    }

    /// What testing the first `count` things in turn finds is the nearest
    /// hit among them.
    pub proof fn lemma_scanned_is_nearest(self, count: int, t_min: Fixed, t_max: Fixed, ray: &Ray)
        requires
            0 <= count <= self.objects@.len(),
        ensures
            self.is_nearest_of_first(count, t_min, t_max, ray, self.scanned(count, t_min, t_max, ray)),
        decreases count,
    {
        if count > 0 {
            self.lemma_scanned_is_nearest(count - 1, t_min, t_max, ray);
            self.lemma_scan_step(
                count - 1,
                t_min,
                t_max,
                ray,
                self.scanned(count - 1, t_min, t_max, ray),
                self.objects@[count - 1].nearest(t_min, t_max, ray),
            );
        }
    }

    /// Testing one more thing keeps the nearest hit among those tested.
    proof fn lemma_scan_step(
        self,
        count: int,
        t_min: Fixed,
        t_max: Fixed,
        ray: &Ray,
        before: Option<(Fixed, Object)>,
        here: Option<(Fixed, Object)>,
    )
        requires
            0 <= count < self.objects@.len(),
            self.is_nearest_of_first(count, t_min, t_max, ray, before),
            here == self.objects@[count].nearest(t_min, t_max, ray),
        ensures
            self.is_nearest_of_first(count + 1, t_min, t_max, ray, ObjectList::nearer(before, here)),
    {
        let after = ObjectList::nearer(before, here);
        let thing = self.objects@[count];
        match after {
            None => {},
            Some((t, owner)) => {
                if after == here {
                    assert(thing.nearest(t_min, t_max, ray) == Some((t, owner)));
                } else {
                    let i = choose|i: int|
                        0 <= i < count && (#[trigger] self.objects@[i]).nearest(t_min, t_max, ray) == Some(
                            (t, owner),
                        );
                    assert(self.objects@[i].nearest(t_min, t_max, ray) == Some((t, owner)));
                }
                assert forall|i: int| 0 <= i < count + 1 implies ((#[trigger] self.objects@[i]).reach(
                    t_min,
                    t_max,
                    ray,
                ) matches Some(other) ==> t.raw <= other.raw) by {
                    if i == count {
                        assert(self.objects@[i] == thing);
                    }
                }
            },
        }
    }

    /// The nearest hit of the ray within the range, found by testing every
    /// thing of the list in turn. Of several things that are hit at the same
    /// nearest parameter, the last in the list is given.
    pub fn closest<'a>(&'a self, t_min: Fixed, t_max: Fixed, ray: &Ray) -> (r: Option<(Fixed, &'a Object)>)
        ensures
            self.scanned(self.objects@.len() as int, t_min, t_max, ray) == (match r {
                Some((t, owner)) => Some((t, *owner)),
                None => None,
            }),
            self.is_nearest_of_first(
                self.objects@.len() as int,
                t_min,
                t_max,
                ray,
                self.scanned(self.objects@.len() as int, t_min, t_max, ray),
            ),
    {
        let mut best: Option<(Fixed, &'a Object)> = None;
        let mut k: usize = 0;
        while k < self.objects.len()
            invariant
                k <= self.objects@.len(),
                self.scanned(k as int, t_min, t_max, ray) == (match best {
                    Some((t, owner)) => Some((t, *owner)),
                    None => None,
                }),
                self.is_nearest_of_first(k as int, t_min, t_max, ray, self.scanned(k as int, t_min, t_max, ray)),
            decreases self.objects@.len() - k,
        {
            let found = self.objects[k].closest(t_min, t_max, ray);
            match found {
                None => {},
                Some((t, owner)) => {
                    let nearer = match best {
                        None => true,
                        Some((t_best, _)) => t.raw <= t_best.raw,
                    };
                    if nearer {
                        best = Some((t, owner));
                    }
                },
            }
            proof {
                self.lemma_scanned_is_nearest(k + 1, t_min, t_max, ray);
            }
            k += 1;
        }
        best
    }
}

} // verus!
