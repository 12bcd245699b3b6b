//! Rays: a starting point, a direction and the instant at which the ray travels.

use vstd::prelude::*;
use crate::fixed::Fixed;
use crate::vec3::{Point, Vec3};

verus! {

/// A half-line through space, stamped with the time at which it was cast.
#[derive(Clone, Copy, Debug, PartialEq, Eq, Structural)]
pub struct Ray {
    pub origin: Point,
    pub direction: Vec3,
    pub time: Fixed,
}

impl Ray {
    pub open spec fn spec_new(origin: Point, direction: Vec3, time: Fixed) -> Ray {
        Ray { origin, direction, time }
    }

    /// The ray that leaves `origin` along `direction` at `time`.
    #[verifier::when_used_as_spec(spec_new)]
    pub fn new(origin: Point, direction: Vec3, time: Fixed) -> (r: Ray)
        ensures
            r == Ray::spec_new(origin, direction, time),
    {
        Ray { origin, direction, time }
    }

    pub open spec fn spec_at(&self, t: Fixed) -> Point {
        Point(self.origin.0.add(self.direction.scale(t)))
    }

    /// The point reached after travelling `t` times the direction.
    #[verifier::when_used_as_spec(spec_at)]
    pub fn at(&self, t: Fixed) -> (p: Point)
        ensures
            p == self.spec_at(t),
    {
        Point(self.origin.0.add(self.direction.scale(t)))
    }

    /// The exact first coordinate of the ray at the real parameter `t`.
    pub open spec fn x_at(self, t: real) -> real {
        self.origin.0.x@ + t * self.direction.x@
    }

    /// The exact second coordinate of the ray at the real parameter `t`.
    pub open spec fn y_at(self, t: real) -> real {
        self.origin.0.y@ + t * self.direction.y@
    }

    /// The exact third coordinate of the ray at the real parameter `t`.
    pub open spec fn z_at(self, t: real) -> real {
        self.origin.0.z@ + t * self.direction.z@
    }
}

} // verus!
