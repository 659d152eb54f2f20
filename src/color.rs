//! A sum of linear color samples and its conversion to bytes.
use crate::fixed::tdiv;
use crate::render::{rgb_spec, to_rgb8};
use crate::vec3::{vadd, vscale, Vec3};
use vstd::prelude::*;

verus! {

/// A linear color, typically the sum of a pixel's samples.
#[derive(Clone, Copy, Debug, PartialEq, Eq, Structural)]
pub struct Color(pub Vec3);

impl Color {
    pub fn add_assign(&mut self, rhs: Color)
        requires
            old(self).0.wf(),
            rhs.0.wf(),
        ensures
            final(self).0 == vadd(old(self).0, rhs.0),
            final(self).0.wf(),
    {
        self.0.add_assign(rhs.0);
    }

    /// The color scaled by the fixed-point factor `k`.
    pub fn mul(self, k: i64) -> (r: Color)
        requires
            self.0.wf(),
        ensures
            r.0 == vscale(self.0, k as int),
    {
        Color(self.0.scale(k))
    }

    /// The bytes of the average of `samples` samples whose sum this is.
    pub fn to_rgb8(self, samples: i64) -> (r: (u8, u8, u8))
        requires
            samples > 0,
        ensures
            r == rgb_spec(
                Vec3(
                    tdiv(self.0.0 as int, samples as int) as i64,
                    tdiv(self.0.1 as int, samples as int) as i64,
                    tdiv(self.0.2 as int, samples as int) as i64,
                ),
            ),
    {
        let c = self.0;
        to_rgb8(Vec3(c.0 / samples, c.1 / samples, c.2 / samples))
    }
}

} // verus!
