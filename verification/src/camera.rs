//! The camera: where rays come from.

use vstd::prelude::*;
use crate::fixed::Fixed;
use crate::random::{draw_between, draw_unit, is_unit_draw};
use crate::ray::Ray;
use crate::trig::TAU_RAW;
use crate::vec3::{Point, Vec3};

verus! {

/// A camera with a thin lens and a shutter that stays open from `time0` to `time1`.
#[derive(Clone, Copy, Debug, PartialEq, Eq, Structural)]
pub struct Camera {
    pub origin: Point,
    pub lower_left_corner: Point,
    pub horizontal: Vec3,
    pub vertical: Vec3,
    /// `u`, `v` and `w` are the camera's own axes: `w` points from what is
    /// looked at toward the camera, `u` and `v` span the plane of the lens.
    pub u: Vec3,
    pub v: Vec3,
    pub w: Vec3,
    pub lens_radius: Fixed,
    pub time0: Fixed,
    pub time1: Fixed,
}

pub open spec fn spec_circle_point(turn: Fixed) -> (Fixed, Fixed) {
    let theta = turn.mul(Fixed::from_int(2)).mul(Fixed::pi());
    (theta.cos(), theta.sin())
}

/// The point of the unit circle at the given fraction of a turn.
#[verifier::when_used_as_spec(spec_circle_point)]
pub fn circle_point(turn: Fixed) -> (p: (Fixed, Fixed))
    ensures
        p == spec_circle_point(turn),
{
    let theta = turn.mul(Fixed::from_int(2)).mul(Fixed::pi());
    let (sin, cos) = theta.sin_cos();
    (cos, sin)
}

/// A point drawn at random from the unit circle.
pub fn random_vector_in_s1() -> (p: (Fixed, Fixed))
    ensures
        exists|turn: Fixed| is_unit_draw(turn) && p == #[trigger] circle_point(turn),
{
    circle_point(draw_unit())
}

impl Camera {
    pub open spec fn spec_new(
        lookfrom: Point,
        lookat: Point,
        vup: Vec3,
        vfov: Fixed,
        aspect_ratio: Fixed,
        aperture: Fixed,
        focus_distance: Fixed,
        time0: Fixed,
        time1: Fixed,
    ) -> Camera {
        let theta = vfov.mul(Fixed::pi()).div(Fixed::from_int(180));
        let h = theta.div(Fixed::from_int(2)).tan();
        let viewport_height = Fixed::from_int(2).mul(h);
        let viewport_width = aspect_ratio.mul(viewport_height);
        let w = lookfrom.diff(lookat).normalize();
        let u = vup.cross(w);
        let v = w.cross(u);
        let horizontal = u.scale(focus_distance.mul(viewport_width));
        let vertical = v.scale(focus_distance.mul(viewport_height));
        let towards_camera = w.scale(focus_distance);
        Camera {
            origin: lookfrom,
            lower_left_corner: lookfrom.sub(towards_camera).sub(horizontal.div(Fixed::from_int(2))).sub(
                vertical.div(Fixed::from_int(2)),
            ),
            horizontal,
            vertical,
            u,
            v,
            w,
            lens_radius: aperture.div(Fixed::from_int(2)),
            time0,
            time1,
        }
    }

    /// The camera at `lookfrom` that looks at `lookat` with `vup` pointing
    /// up in the picture. `vfov` is the vertical field of view in degrees;
    /// the plane in focus lies `focus_distance` away.
    #[verifier::when_used_as_spec(spec_new)]
    pub fn new(
        lookfrom: Point,
        lookat: Point,
        vup: Vec3,
        vfov: Fixed,
        aspect_ratio: Fixed,
        aperture: Fixed,
        focus_distance: Fixed,
        time0: Fixed,
        time1: Fixed,
    ) -> (camera: Camera)
        ensures
            camera == Camera::spec_new(
                lookfrom,
                lookat,
                vup,
                vfov,
                aspect_ratio,
                aperture,
                focus_distance,
                time0,
                time1,
            ),
    {
        let theta = vfov.mul(Fixed::pi()).div(Fixed::from_int(180));
        let h = theta.div(Fixed::from_int(2)).tan();

        let viewport_height = Fixed::from_int(2).mul(h);
        let viewport_width = aspect_ratio.mul(viewport_height);

        let w = lookfrom.diff(lookat).normalize();
        let u = vup.cross(w);
        let v = w.cross(u);

        let origin = lookfrom;
        let horizontal = u.scale(focus_distance.mul(viewport_width));
        let vertical = v.scale(focus_distance.mul(viewport_height));
        let towards_camera = w.scale(focus_distance);

        Camera {
            origin,
            lower_left_corner: origin.sub(towards_camera).sub(horizontal.div(Fixed::from_int(2))).sub(
                vertical.div(Fixed::from_int(2)),
            ),
            horizontal,
            vertical,
            u,
            v,
            w,
            lens_radius: aperture.div(Fixed::from_int(2)),
            time0,
            time1,
        }
    }

    pub open spec fn spec_ray_through(&self, s: Fixed, t: Fixed, turn: Fixed, time: Fixed) -> Ray {
        let on_lens = circle_point(turn);
        let offset = self.u.scale(on_lens.0).add(self.v.scale(on_lens.1)).scale(self.lens_radius);
        Ray {
            origin: self.origin.add(offset),
            direction: self.lower_left_corner.add(self.horizontal.scale(s)).add(self.vertical.scale(t)).diff(
                self.origin,
            ).sub(offset),
            time,
        }
    }

    /// The ray through the point `(s, t)` of the picture, both between zero
    /// and one, that leaves the rim of the lens at the fraction `turn` of a
    /// turn, at the instant `time`.
    #[verifier::when_used_as_spec(spec_ray_through)]
    pub fn ray_through(&self, s: Fixed, t: Fixed, turn: Fixed, time: Fixed) -> (r: Ray)
        ensures
            r == self.spec_ray_through(s, t, turn, time),
    {
        let (vx, vy) = circle_point(turn);
        let offset = self.u.scale(vx).add(self.v.scale(vy)).scale(self.lens_radius);
        Ray {
            origin: self.origin.add(offset),
            direction: self.lower_left_corner.add(self.horizontal.scale(s)).add(self.vertical.scale(t)).diff(
                self.origin,
            ).sub(offset),
            time,
        }
    }

    /// Whether `time` can be the instant of a ray of this camera: within the
    /// time the shutter is open, or the instant it opens where it does not stay open.
    pub open spec fn is_shutter_time(&self, time: Fixed) -> bool {
        if self.time0.raw < self.time1.raw {
            self.time0.raw <= time.raw < self.time1.raw
        } else {
            time == self.time0
        }
    }

    /// A ray through the point `(s, t)` of the picture, from a point drawn
    /// on the rim of the lens, at an instant drawn while the shutter is open.
    pub fn get_ray(&self, s: Fixed, t: Fixed) -> (r: Ray)
        ensures
            exists|turn: Fixed, time: Fixed|
                is_unit_draw(turn) && self.is_shutter_time(time) && r == #[trigger] self.ray_through(
                    s,
                    t,
                    turn,
                    time,
                ),
    {
        let turn = draw_unit();
        let time = draw_between(self.time0, self.time1);
        self.ray_through(s, t, turn, time)
    }
}

} // verus!
