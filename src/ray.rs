//! Rays: an origin and a direction.
use crate::vec3::{vadd, vscale, Vec3};
use vstd::prelude::*;

verus! {

#[derive(Clone, Copy, Debug, PartialEq, Eq, Structural)]
pub struct Ray {
    pub origin: Vec3,
    /// Not required to have unit length.
    pub direction: Vec3,
}

/// The point `origin + t * direction`.
pub open spec fn ray_at(ray: Ray, t: int) -> Vec3 {
    vadd(ray.origin, vscale(ray.direction, t))
}

impl Ray {
    pub open spec fn wf(self) -> bool {
        self.origin.wf() && self.direction.wf()
    }

    /// The point at parameter `t` along the ray.
    pub fn at(&self, t: i64) -> (r: Vec3)
        requires
            self.wf(),
        ensures
            r == ray_at(*self, t as int),
            r.wf(),
    {
        self.origin.add(self.direction.scale(t))
    }
}

} // verus!
