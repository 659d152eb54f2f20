//! The camera: maps image-plane coordinates to rays, with an optional lens
//! aperture for depth of field.
use crate::fixed::{fixed_mul, fx_mul, in_range, lemma_fx_mul_bound, tdiv, LIMIT, ONE};
use crate::ray::Ray;
use crate::vec3::{sq_raw, vadd, vcross, vdiv, vnormalize, vscale, vsub, Vec3};
use rand_xoshiro::Xoshiro256Plus;
use vstd::prelude::*;

verus! {

pub struct Camera {
    pub origin: Vec3,
    /// The full width of the focus-plane viewport, along `u`.
    pub horizontal: Vec3,
    /// The full height of the focus-plane viewport, along `v`.
    pub vertical: Vec3,
    /// The lower left corner of the focus-plane viewport.
    pub lower_left: Vec3,
    /// The camera's horizontal unit axis.
    pub u: Vec3,
    /// The camera's vertical unit axis.
    pub v: Vec3,
    pub lens_radius: i64,
}

/// The unit vector pointing from the target back to the eye.
pub open spec fn camera_w(look_from: Vec3, look_at: Vec3) -> Vec3 {
    vnormalize(vsub(look_from, look_at))
}

/// The camera's horizontal axis, perpendicular to the up hint and to `w`.
pub open spec fn camera_u(look_from: Vec3, look_at: Vec3, vup: Vec3) -> Vec3 {
    vnormalize(vcross(vup, camera_w(look_from, look_at)))
}

/// The camera that `Camera::new` builds.
pub open spec fn camera_spec(
    look_from: Vec3,
    look_at: Vec3,
    vup: Vec3,
    half_height: int,
    aspect_ratio: int,
    aperture: int,
    focus_dist: int,
) -> Camera {
    let viewport_height = 2 * half_height;
    let viewport_width = fx_mul(aspect_ratio, viewport_height);
    let w = camera_w(look_from, look_at);
    let u = camera_u(look_from, look_at, vup);
    let v = vcross(w, u);
    let horizontal = vscale(u, fx_mul(focus_dist, viewport_width));
    let vertical = vscale(v, fx_mul(focus_dist, viewport_height));
    let lower_left = vsub(
        vsub(vsub(look_from, vdiv(horizontal, 2 * ONE)), vdiv(vertical, 2 * ONE)),
        vscale(w, focus_dist),
    );
    Camera {
        origin: look_from,
        horizontal,
        vertical,
        lower_left,
        u,
        v,
        lens_radius: tdiv(aperture, 2) as i64,
    }
}

/// How far the lens point `disk` (a point of the unit disk) moves the ray's
/// origin.
pub open spec fn lens_offset(cam: Camera, disk: Vec3) -> Vec3 {
    let rd = vscale(disk, cam.lens_radius as int);
    vadd(vscale(cam.u, rd.0 as int), vscale(cam.v, rd.1 as int))
}

/// The ray through the image-plane point `(s, t)` from the lens point `disk`.
pub open spec fn camera_ray(cam: Camera, s: int, t: int, disk: Vec3) -> Ray {
    let offset = lens_offset(cam, disk);
    Ray {
        origin: vadd(cam.origin, offset),
        direction: vsub(
            vsub(vadd(vadd(cam.lower_left, vscale(cam.horizontal, s)), vscale(cam.vertical, t)), cam.origin),
            offset,
        ),
    }
}

/// The point of the focus plane that image coordinates `(s, t)` name.
pub open spec fn focus_point(cam: Camera, s: int, t: int) -> Vec3 {
    vadd(vadd(cam.lower_left, vscale(cam.horizontal, s)), vscale(cam.vertical, t))
}

/// Every component of `v` is at most `b` in magnitude.
pub open spec fn bounded(v: Vec3, b: int) -> bool {
    -b <= v.0 <= b && -b <= v.1 <= b && -b <= v.2 <= b
}

/// Depth of field moves only the ray's start: the ray from the lens point
/// `disk` is the pinhole ray (lens point zero) with its origin shifted by the
/// lens offset and its direction shortened by it, so every lens point aims
/// through the same point of the focus plane. This holds wherever no
/// coordinate involved comes near the representable range.
pub proof fn lemma_lens_rays_share_focus_point(cam: Camera, s: int, t: int, disk: Vec3)
    requires
        bounded(cam.origin, LIMIT / 4),
        bounded(lens_offset(cam, disk), LIMIT / 4),
        bounded(focus_point(cam, s, t), LIMIT / 4),
    ensures
        ({
            let r = camera_ray(cam, s, t, disk);
            let r0 = camera_ray(cam, s, t, Vec3(0, 0, 0));
            let off = lens_offset(cam, disk);
            &&& r0.origin == cam.origin
            &&& r.origin == vadd(r0.origin, off)
            &&& r.direction == vsub(r0.direction, off)
            &&& vadd(r.origin, r.direction) == focus_point(cam, s, t)
            &&& vadd(r0.origin, r0.direction) == focus_point(cam, s, t)
        }),
{
    let zero = Vec3(0, 0, 0);
    assert(vscale(zero, cam.lens_radius as int) == zero);
    assert(vscale(cam.u, 0) == zero);
    assert(vscale(cam.v, 0) == zero);
    assert(lens_offset(cam, zero) == zero);
}

/// A point of the open unit disk of the `z = 0` plane.
pub open spec fn in_unit_disk(p: Vec3) -> bool {
    p.wf() && p.2 == 0 && sq_raw(p) < ONE * ONE
}

impl Camera {
    pub open spec fn wf(self) -> bool {
        &&& self.origin.wf()
        &&& self.horizontal.wf()
        &&& self.vertical.wf()
        &&& self.lower_left.wf()
        &&& self.u.wf()
        &&& self.v.wf()
    }

    /// A camera at `look_from` facing `look_at`, with `vup` as the up hint.
    /// `half_height` is the tangent of half the vertical field of view; the
    /// viewport is scaled to lie at `focus_dist`, and the lens has diameter
    /// `aperture`. The eye must differ from the target, and the up hint must
    /// not be parallel to the line of sight.
    pub fn new(
        look_from: Vec3,
        look_at: Vec3,
        vup: Vec3,
        half_height: i64,
        aspect_ratio: i64,
        aperture: i64,
        focus_dist: i64,
    ) -> (r: Camera)
        requires
            look_from.wf(),
            look_at.wf(),
            vup.wf(),
            in_range(half_height as int),
            in_range(aspect_ratio as int),
            in_range(focus_dist as int),
            !vsub(look_from, look_at).is_zero(),
            !vcross(vup, camera_w(look_from, look_at)).is_zero(),
        ensures
            r == camera_spec(
                look_from,
                look_at,
                vup,
                half_height as int,
                aspect_ratio as int,
                aperture as int,
                focus_dist as int,
            ),
            r.wf(),
    {
        let viewport_height = 2 * half_height;
        proof {
            lemma_fx_mul_bound(aspect_ratio as int, viewport_height as int, LIMIT as int, 2 * LIMIT);
        }
        let viewport_width = fixed_mul(aspect_ratio, viewport_height);
        let w = look_from.sub(look_at).normalize();
        let u = vup.cross(w).normalize();
        let v = w.cross(u);
        proof {
            lemma_fx_mul_bound(focus_dist as int, viewport_width as int, LIMIT as int, (2 * LIMIT * LIMIT) / (ONE as int));
            lemma_fx_mul_bound(focus_dist as int, viewport_height as int, LIMIT as int, 2 * LIMIT);
        }
        let horizontal = u.scale(fixed_mul(focus_dist, viewport_width));
        let vertical = v.scale(fixed_mul(focus_dist, viewport_height));
        let lower_left = look_from.sub(horizontal.div(2 * ONE)).sub(vertical.div(2 * ONE)).sub(
            w.scale(focus_dist),
        );
        Camera { origin: look_from, horizontal, vertical, lower_left, u, v, lens_radius: aperture / 2 }
    }

    /// The ray through the image-plane point `(s, t)`, both in `[0, 1]` for
    /// the viewport, leaving the lens at the point `disk` of the unit disk.
    pub fn get_ray_with(&self, s: i64, t: i64, disk: Vec3) -> (r: Ray)
        requires
            self.wf(),
            disk.wf(),
        ensures
            r == camera_ray(*self, s as int, t as int, disk),
            r.wf(),
    {
        let rd = disk.scale(self.lens_radius);
        let offset = self.u.scale(rd.0).add(self.v.scale(rd.1));
        Ray {
            origin: self.origin.add(offset),
            direction: self.lower_left.add(self.horizontal.scale(s)).add(self.vertical.scale(t)).sub(
                self.origin,
            ).sub(offset),
        }
    }

    /// The ray through the image-plane point `(s, t)`, leaving the lens at a
    /// point drawn from `rng`.
    pub fn get_ray(&self, s: i64, t: i64, rng: &mut Xoshiro256Plus) -> (r: Ray)
        requires
            self.wf(),
        ensures
            exists|disk: Vec3| in_unit_disk(disk) && r == camera_ray(*self, s as int, t as int, disk),
            r.wf(),
    {
        let disk = Vec3::random_in_unit_disk(rng);
        let r = self.get_ray_with(s, t, disk);
        assert(in_unit_disk(disk));
        r
    }
}

} // verus!
