//! Spheres, the one kind of surface, and their intersection with rays.
use crate::fixed::{
    in_range, isqrt, lemma_sqrt_floor, lemma_tdiv_close, lemma_tdiv_monotone, sqrt_floor, tdiv, trunc_div,
    LIMIT, ONE,
};
use crate::material::Material;
use crate::ray::{ray_at, Ray};
use crate::vec3::{dot_raw, dot_wide, lemma_mul_bound, sq_raw, vdiv, vdot, vneg, vsub, Vec3};
use vstd::prelude::*;

verus! {

/// Where a ray meets a surface.
#[derive(Clone, Copy, Debug, PartialEq, Eq, Structural)]
pub struct Hit {
    pub point: Vec3,
    /// Always faces against the incoming ray.
    pub normal: Vec3,
    /// Whether the ray struck the outside of the surface, so that the normal
    /// is the geometric outward one rather than its opposite.
    pub front_face: bool,
    pub material: Material,
    /// The ray parameter of the intersection.
    pub t: i64,
}

/// A surface in the scene.
#[derive(Clone, Copy, Debug, PartialEq, Eq, Structural)]
pub enum Object {
    /// A sphere; a negative radius turns its normals inward, which makes a
    /// hollow shell.
    Sphere { center: Vec3, radius: i64, material: Material },
}

/// The quadratic `a t^2 + 2 half_b t + c = 0` for a ray meeting a sphere,
/// with all three coefficients in units of `ONE * ONE`.
pub open spec fn quad_a(ray: Ray) -> int {
    sq_raw(ray.direction)
}

pub open spec fn quad_half_b(center: Vec3, ray: Ray) -> int {
    dot_raw(vsub(ray.origin, center), ray.direction)
}

pub open spec fn quad_c(center: Vec3, radius: int, ray: Ray) -> int {
    sq_raw(vsub(ray.origin, center)) - radius * radius
}

/// The discriminant of the quadratic, in units of `ONE^4`.
pub open spec fn discriminant(center: Vec3, radius: int, ray: Ray) -> int {
    let hb = quad_half_b(center, ray);
    hb * hb - quad_a(ray) * quad_c(center, radius, ray)
}

/// The smaller root, as a fixed-point ray parameter.
pub open spec fn near_root(center: Vec3, radius: int, ray: Ray) -> int {
    tdiv(
        (-quad_half_b(center, ray) - sqrt_floor(discriminant(center, radius, ray))) * ONE,
        quad_a(ray),
    )
}

/// The larger root, as a fixed-point ray parameter.
pub open spec fn far_root(center: Vec3, radius: int, ray: Ray) -> int {
    tdiv(
        (-quad_half_b(center, ray) + sqrt_floor(discriminant(center, radius, ray))) * ONE,
        quad_a(ray),
    )
}

/// The parameter at which the ray meets the sphere within `[t_min, t_max]`:
/// the smaller root if it lies there, else the larger one. A ray without
/// direction and a sphere without radius never meet.
pub open spec fn sphere_root(center: Vec3, radius: int, ray: Ray, t_min: int, t_max: int) -> Option<int> {
    if quad_a(ray) == 0 || radius == 0 || discriminant(center, radius, ray) < 0 {
        None
    } else if t_min <= near_root(center, radius, ray) <= t_max {
        Some(near_root(center, radius, ray))
    } else if t_min <= far_root(center, radius, ray) <= t_max {
        Some(far_root(center, radius, ray))
    } else {
        None
    }
}

/// The geometric outward normal at `point`: `(point - center) / radius`.
pub open spec fn outward_normal(center: Vec3, radius: int, point: Vec3) -> Vec3 {
    vdiv(vsub(point, center), radius)
}

/// The hit record of a sphere struck at parameter `t`.
pub open spec fn sphere_hit_at(center: Vec3, radius: int, material: Material, ray: Ray, t: int) -> Hit {
    let point = ray_at(ray, t);
    let outward = outward_normal(center, radius, point);
    let front_face = vdot(ray.direction, outward) < 0;
    Hit {
        point,
        normal: if front_face {
            outward
        } else {
            vneg(outward)
        },
        front_face,
        material,
        t: t as i64,
    }
}

impl Object {
    pub open spec fn wf(self) -> bool {
        match self {
            Object::Sphere { center, radius, material } => center.wf() && in_range(radius as int)
                && material.wf(),
        }
    }

    /// The first intersection with `ray` in `[t_min, t_max]`, if any.
    pub open spec fn hit_spec(self, ray: Ray, t_min: int, t_max: int) -> Option<Hit> {
        match self {
            Object::Sphere { center, radius, material } => match sphere_root(
                center,
                radius as int,
                ray,
                t_min,
                t_max,
            ) {
                Some(t) => Some(sphere_hit_at(center, radius as int, material, ray, t)),
                None => None,
            },
        }
    }

    /// Intersects `ray` with the surface, accepting only parameters in
    /// `[t_min, t_max]`.
    pub fn hit(&self, ray: &Ray, t_min: i64, t_max: i64) -> (r: Option<Hit>)
        requires
            self.wf(),
            ray.wf(),
        ensures
            r == self.hit_spec(*ray, t_min as int, t_max as int),
            r matches Some(h) ==> {
                &&& t_min <= h.t <= t_max
                &&& h.point.wf()
                &&& h.normal.wf()
                &&& h.material.wf()
                &&& vdot(ray.direction, h.normal) <= 0
            },
    {
        match *self {
            Object::Sphere { center, radius, material } => {
                let oc = ray.origin.sub(center);
                let a = dot_wide(ray.direction, ray.direction);
                let half_b = dot_wide(oc, ray.direction);
                proof {
                    lemma_mul_bound(radius as int, radius as int, LIMIT as int, LIMIT as int);
                }
                let c = dot_wide(oc, oc) - radius as i128 * radius as i128;
                proof {
                    lemma_sq_raw_nonneg(ray.direction);
                    lemma_sq_raw_nonneg(oc);
                    assert(radius * radius >= 0) by (nonlinear_arith);
                }
                if a == 0 || radius == 0 {
                    return None;
                }
                proof {
                    lemma_mul_bound(half_b as int, half_b as int, 3 * LIMIT * LIMIT, 3 * LIMIT * LIMIT);
                    lemma_mul_bound(a as int, c as int, 3 * LIMIT * LIMIT, 3 * LIMIT * LIMIT);
                }
                let disc = half_b * half_b - a * c;
                if disc < 0 {
                    return None;
                }
                let sqrtd = isqrt(disc as u128) as i128;
                let near = trunc_div((-half_b - sqrtd) * ONE as i128, a);
                let root = if t_min as i128 <= near && near <= t_max as i128 {
                    near
                } else {
                    let far = trunc_div((-half_b + sqrtd) * ONE as i128, a);
                    if t_min as i128 <= far && far <= t_max as i128 {
                        far
                    } else {
                        return None;
                    }
                };
                let t = root as i64;
                let point = ray.at(t);
                let outward = point.sub(center).div(radius);
                let front_face = ray.direction.dot(outward) < 0;
                let normal = if front_face {
                    outward
                } else {
                    outward.neg()
                };
                proof {
                    if !front_face {
                        lemma_dot_neg(ray.direction, outward);
                    }
                }
                Some(Hit { point, normal, front_face, material, t })
            },
        }
    }
}

/// The smaller root never exceeds the larger.
pub proof fn lemma_roots_ordered(center: Vec3, radius: int, ray: Ray)
    requires
        quad_a(ray) != 0,
        discriminant(center, radius, ray) >= 0,
    ensures
        near_root(center, radius, ray) <= far_root(center, radius, ray),
{
    let hb = quad_half_b(center, ray);
    let sd = sqrt_floor(discriminant(center, radius, ray));
    lemma_sq_raw_nonneg(ray.direction);
    lemma_sqrt_floor(discriminant(center, radius, ray));
    assert((-hb - sd) * ONE <= (-hb + sd) * ONE);
    lemma_tdiv_monotone((-hb - sd) * ONE, (-hb + sd) * ONE, quad_a(ray));
}

/// Narrowing the window, but not past the accepted root, keeps that root.
pub proof fn lemma_root_narrow_keeps(center: Vec3, radius: int, ray: Ray, t_min: int, t_lim: int, t_max: int)
    requires
        sphere_root(center, radius, ray, t_min, t_max) matches Some(t) && t <= t_lim <= t_max,
    ensures
        sphere_root(center, radius, ray, t_min, t_lim) == sphere_root(center, radius, ray, t_min, t_max),
{
}

/// Widening the window keeps an accepted root.
pub proof fn lemma_root_widen_keeps(center: Vec3, radius: int, ray: Ray, t_min: int, t_lim: int, t_max: int)
    requires
        sphere_root(center, radius, ray, t_min, t_lim) is Some,
        t_lim <= t_max,
    ensures
        sphere_root(center, radius, ray, t_min, t_max) == sphere_root(center, radius, ray, t_min, t_lim),
{
    lemma_roots_ordered(center, radius, ray);
}

/// An accepted hit lies in the window it was asked for.
pub proof fn lemma_hit_in_window(obj: Object, ray: Ray, t_min: int, t_max: int)
    requires
        i64::MIN <= t_min,
        t_max <= i64::MAX,
    ensures
        obj.hit_spec(ray, t_min, t_max) matches Some(h) ==> t_min <= h.t <= t_max,
{
}

/// Asking a surface for a narrower window, but not past the hit it reports,
/// gives the same hit.
pub proof fn lemma_hit_narrow_keeps(obj: Object, ray: Ray, t_min: int, t_lim: int, t_max: int)
    requires
        i64::MIN <= t_min,
        t_max <= i64::MAX,
        obj.hit_spec(ray, t_min, t_max) matches Some(h) && h.t <= t_lim <= t_max,
    ensures
        obj.hit_spec(ray, t_min, t_lim) == obj.hit_spec(ray, t_min, t_max),
{
    match obj {
        Object::Sphere { center, radius, material } => {
            lemma_root_narrow_keeps(center, radius as int, ray, t_min, t_lim, t_max);
        },
    }
}

/// Asking a surface for a wider window keeps a hit it reports.
pub proof fn lemma_hit_widen_keeps(obj: Object, ray: Ray, t_min: int, t_lim: int, t_max: int)
    requires
        obj.hit_spec(ray, t_min, t_lim) is Some,
        t_lim <= t_max,
    ensures
        obj.hit_spec(ray, t_min, t_max) == obj.hit_spec(ray, t_min, t_lim),
{
    match obj {
        Object::Sphere { center, radius, material } => {
            lemma_root_widen_keeps(center, radius as int, ray, t_min, t_lim, t_max);
        },
    }
}

/// The ray parameter of the point nearest the sphere's center:
/// `dot(center - origin, direction) / |direction|^2`.
pub open spec fn center_projection(center: Vec3, ray: Ray) -> int {
    tdiv(-quad_half_b(center, ray) * ONE, quad_a(ray))
}

/// The two roots are symmetric about the projection of the center onto the
/// ray: their average lies within 1.5 steps of it (the rounding of three
/// truncated quotients).
pub proof fn lemma_roots_symmetric(center: Vec3, radius: int, ray: Ray)
    requires
        quad_a(ray) > 0,
        discriminant(center, radius, ray) >= 0,
    ensures
        -3 <= near_root(center, radius, ray) + far_root(center, radius, ray) - 2 * center_projection(center, ray)
            <= 3,
{
    let a = quad_a(ray);
    let hb = quad_half_b(center, ray);
    let sd = sqrt_floor(discriminant(center, radius, ray));
    let x1 = (-hb - sd) * ONE;
    let x2 = (-hb + sd) * ONE;
    let x0 = -hb * ONE;
    lemma_tdiv_close(x1, a);
    lemma_tdiv_close(x2, a);
    lemma_tdiv_close(x0, a);
    let d = near_root(center, radius, ray) + far_root(center, radius, ray) - 2 * center_projection(center, ray);
    assert(x1 + x2 == 2 * x0);
    assert(-4 * a < a * d < 4 * a) by (nonlinear_arith)
        requires
            x1 - a < a * near_root(center, radius, ray) < x1 + a,
            x2 - a < a * far_root(center, radius, ray) < x2 + a,
            x0 - a < a * center_projection(center, ray) < x0 + a,
            x1 + x2 == 2 * x0,
            d == near_root(center, radius, ray) + far_root(center, radius, ray) - 2 * center_projection(center, ray),
    ;
    assert(-3 <= d <= 3) by (nonlinear_arith)
        requires
            -4 * a < a * d < 4 * a,
            a > 0,
    ;
}

proof fn lemma_scaled_component(o: int, d: int, k: int, m: int)
    requires
        k * o == -m * d,
    ensures
        k * (o * d) == -(m * (d * d)),
        k * k * (o * o) == m * m * (d * d),
{
    assert(k * (o * d) == (k * o) * d) by (nonlinear_arith);
    assert((-m * d) * d == -(m * (d * d))) by (nonlinear_arith);
    assert(k * k * (o * o) == (k * o) * (k * o)) by (nonlinear_arith);
    assert((-m * d) * (-m * d) == m * m * (d * d)) by (nonlinear_arith);
}

/// A ray aimed at the center of a sphere from outside meets it twice: the
/// discriminant is `a r^2 > 0`, both roots are non-negative, and the hit
/// windows report the near root first and the far root once the window
/// starts past the near one. "Aimed at the center" means that `k` times
/// `origin - center` is `-m` times the direction, for positive `k` and `m`.
pub proof fn lemma_aimed_at_center(center: Vec3, radius: int, ray: Ray, k: int, m: int)
    requires
        k > 0,
        m > 0,
        k * vsub(ray.origin, center).0 == -m * ray.direction.0,
        k * vsub(ray.origin, center).1 == -m * ray.direction.1,
        k * vsub(ray.origin, center).2 == -m * ray.direction.2,
        quad_a(ray) > 0,
        radius != 0,
        quad_c(center, radius, ray) > 0,
    ensures
        discriminant(center, radius, ray) == quad_a(ray) * (radius * radius),
        discriminant(center, radius, ray) > 0,
        0 <= near_root(center, radius, ray) <= far_root(center, radius, ray),
        forall|t_max: int|
            near_root(center, radius, ray) <= t_max ==> #[trigger] sphere_root(center, radius, ray, 0, t_max)
                == Some(near_root(center, radius, ray)),
        forall|t_min: int, t_max: int|
            near_root(center, radius, ray) < t_min <= far_root(center, radius, ray) <= t_max
                ==> #[trigger] sphere_root(center, radius, ray, t_min, t_max) == Some(far_root(center, radius, ray)),
{
    let o = vsub(ray.origin, center);
    let d = ray.direction;
    let a = quad_a(ray);
    let hb = quad_half_b(center, ray);
    let so = sq_raw(o);
    lemma_scaled_component(o.0 as int, d.0 as int, k, m);
    lemma_scaled_component(o.1 as int, d.1 as int, k, m);
    lemma_scaled_component(o.2 as int, d.2 as int, k, m);
    let (x0, x1, x2) = (o.0 * d.0, o.1 * d.1, o.2 * d.2);
    let (y0, y1, y2) = (d.0 * d.0, d.1 * d.1, d.2 * d.2);
    let (z0, z1, z2) = (o.0 * o.0, o.1 * o.1, o.2 * o.2);
    assert(k * (x0 + x1 + x2) == k * x0 + k * x1 + k * x2) by (nonlinear_arith);
    assert(m * (y0 + y1 + y2) == m * y0 + m * y1 + m * y2) by (nonlinear_arith);
    assert(k * hb == -(m * a));
    assert(-(m * a) == -m * a) by (nonlinear_arith);
    assert(k * k * (z0 + z1 + z2) == k * k * z0 + k * k * z1 + k * k * z2) by (nonlinear_arith);
    assert(m * m * (y0 + y1 + y2) == m * m * y0 + m * m * y1 + m * m * y2) by (nonlinear_arith);
    assert(k * k * so == m * m * a);
    assert(hb * hb == a * so) by (nonlinear_arith)
        requires
            k * hb == -m * a,
            k * k * so == m * m * a,
            k > 0,
    ;
    assert(hb < 0) by (nonlinear_arith)
        requires
            k * hb == -m * a,
            k > 0,
            m > 0,
            a > 0,
    ;
    let disc = discriminant(center, radius, ray);
    assert(disc == a * (radius * radius)) by (nonlinear_arith)
        requires
            disc == hb * hb - a * quad_c(center, radius, ray),
            quad_c(center, radius, ray) == so - radius * radius,
            hb * hb == a * so,
    ;
    assert(disc > 0) by (nonlinear_arith)
        requires
            disc == a * (radius * radius),
            a > 0,
            radius != 0,
    ;
    assert(disc < hb * hb) by (nonlinear_arith)
        requires
            disc == hb * hb - a * quad_c(center, radius, ray),
            a > 0,
            quad_c(center, radius, ray) > 0,
    ;
    lemma_sqrt_floor(disc);
    let sd = sqrt_floor(disc);
    assert(sd < -hb) by (nonlinear_arith)
        requires
            sd * sd <= disc,
            disc < hb * hb,
            sd >= 0,
            hb < 0,
    ;
    lemma_tdiv_monotone(0, (-hb - sd) * ONE, a);
    lemma_roots_ordered(center, radius, ray);
}

/// The normal of an accepted hit always faces against the ray, and
/// `front_face` records exactly whether the geometric outward normal already
/// did.
pub proof fn lemma_hit_normal_orientation(obj: Object, ray: Ray, t_min: int, t_max: int)
    ensures
        obj.hit_spec(ray, t_min, t_max) matches Some(h) ==> {
            &&& vdot(ray.direction, h.normal) <= 0
            &&& match obj {
                Object::Sphere { center, radius, material } => h.front_face == (vdot(
                    ray.direction,
                    outward_normal(center, radius as int, h.point),
                ) < 0),
            }
        },
{
    if let Some(h) = obj.hit_spec(ray, t_min, t_max) {
        match obj {
            Object::Sphere { center, radius, material } => {
                let outward = outward_normal(center, radius as int, h.point);
                if !h.front_face {
                    lemma_dot_neg(ray.direction, outward);
                }
            },
        }
    }
}

pub proof fn lemma_sq_raw_nonneg(v: Vec3)
    ensures
        sq_raw(v) >= 0,
{
    assert(v.0 * v.0 + v.1 * v.1 + v.2 * v.2 >= 0) by (nonlinear_arith);
}

/// Reversing one side of a dot product negates it.
pub proof fn lemma_dot_neg(d: Vec3, o: Vec3)
    requires
        o.wf(),
    ensures
        vdot(d, vneg(o)) == -vdot(d, o),
{
    assert(dot_raw(d, vneg(o)) == -dot_raw(d, o)) by (nonlinear_arith)
        requires
            vneg(o).0 == -o.0,
            vneg(o).1 == -o.1,
            vneg(o).2 == -o.2,
    ;
}

} // verus!
