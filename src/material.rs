//! Surface materials and how they scatter light.
use crate::fixed::{
    clamp, clamp_spec, fixed_div, fixed_mul, fx_div, fx_mul, isqrt, lemma_fx_mul_attenuates, lemma_fx_mul_bound,
    lemma_sqrt_floor, lemma_tdiv_bound, lemma_tdiv_monotone, sqrt_floor, LIMIT, ONE,
};
use crate::object::Hit;
use crate::ray::Ray;
use crate::sampling::gen_range;
use crate::vec3::{near_zero, sq_raw, vadd, vdot, vneg, vnormalize, vreflect, vrefract, vscale, Vec3};
use rand_xoshiro::Xoshiro256Plus;
use vstd::prelude::*;

verus! {

/// The closed set of surface materials.
#[derive(Clone, Copy, Debug, PartialEq, Eq, Structural)]
pub enum Material {
    /// A diffuse surface with the given albedo.
    Lambertian(Vec3),
    /// A reflective surface with the given albedo and fuzz.
    Metal(Vec3, i64),
    /// A transparent surface with the given refractive index.
    Dielectric(i64),
}

/// Every channel of `a` lies in `[0, 1]`.
pub open spec fn is_albedo(a: Vec3) -> bool {
    0 <= a.0 <= ONE && 0 <= a.1 <= ONE && 0 <= a.2 <= ONE
}

/// The color that lets all light through.
pub open spec fn white() -> Vec3 {
    Vec3(ONE, ONE, ONE)
}

/// A point of the open unit ball, as the samplers draw it.
pub open spec fn in_unit_ball(p: Vec3) -> bool {
    p.wf() && sq_raw(p) < ONE * ONE
}

/// Schlick's reflectance at normal incidence: `((1 - n) / (1 + n))^2`.
pub open spec fn schlick_r0(ref_idx: int) -> int {
    let q = fx_div(ONE - ref_idx, ONE + ref_idx);
    fx_mul(q, q)
}

/// `x^5`, each product rounded as the fixed-point product is.
pub open spec fn pow5(x: int) -> int {
    fx_mul(fx_mul(fx_mul(fx_mul(x, x), x), x), x)
}

/// Schlick's approximation of the Fresnel reflectance:
/// `r0 + (1 - r0) (1 - cos)^5`.
pub open spec fn reflectance_spec(cos: int, ref_idx: int) -> int {
    let r0 = schlick_r0(ref_idx);
    r0 + fx_mul(ONE - r0, pow5(ONE - cos))
}

/// The ratio of refractive indices across the surface: `1 / ir` entering,
/// `ir` leaving.
pub open spec fn refraction_ratio(ir: int, front_face: bool) -> int {
    if front_face {
        fx_div(ONE as int, ir)
    } else {
        ir
    }
}

/// The cosine of the angle of incidence, kept in `[-1, 1]`.
pub open spec fn incidence_cos(unit_direction: Vec3, normal: Vec3) -> int {
    clamp_spec(vdot(vneg(unit_direction), normal), -ONE as int, ONE as int)
}

/// The sine matching a cosine in `[-1, 1]`.
pub open spec fn sine_of(cos: int) -> int {
    sqrt_floor(ONE * ONE - cos * cos)
}

/// Whether Snell's law has no solution, so that the ray must reflect.
pub open spec fn cannot_refract_spec(cos: int, ratio: int) -> bool {
    fx_mul(ratio, sine_of(cos)) > ONE
}

/// What a material does with `ray` at `hit`, given a point `ball` of the unit
/// ball and a number `uniform` of `[0, 1)`: the attenuation and the
/// scattered ray, or nothing when the light is absorbed.
pub open spec fn scatter_spec(m: Material, ray: Ray, hit: Hit, ball: Vec3, uniform: int) -> Option<(Vec3, Ray)> {
    match m {
        Material::Lambertian(albedo) => {
            let offset = if ball.is_zero() {
                ball
            } else {
                vnormalize(ball)
            };
            let direction = vadd(hit.normal, offset);
            Some(
                (
                    albedo,
                    Ray {
                        origin: hit.point,
                        direction: if near_zero(direction) {
                            hit.normal
                        } else {
                            direction
                        },
                    },
                ),
            )
        },
        Material::Metal(albedo, fuzz) => {
            let reflected = vadd(
                vreflect(vnormalize(ray.direction), hit.normal),
                vscale(ball, fuzz as int),
            );
            if vdot(reflected, hit.normal) > 0 {
                Some((albedo, Ray { origin: hit.point, direction: reflected }))
            } else {
                None
            }
        },
        Material::Dielectric(ir) => {
            let ratio = refraction_ratio(ir as int, hit.front_face);
            let unit = vnormalize(ray.direction);
            let cos = incidence_cos(unit, hit.normal);
            let direction = if cannot_refract_spec(cos, ratio) || reflectance_spec(cos, ratio)
                > uniform {
                vreflect(unit, hit.normal)
            } else {
                vrefract(unit, hit.normal, ratio)
            };
            Some((white(), Ray { origin: hit.point, direction }))
        },
    }
}

/// At normal incidence (`cos = 1`) refraction is always possible, and
/// Schlick's reflectance is exactly `r0`.
pub proof fn lemma_head_on_incidence(ratio: int)
    ensures
        !cannot_refract_spec(ONE as int, ratio),
        reflectance_spec(ONE as int, ratio) == schlick_r0(ratio),
{
    lemma_sqrt_floor(0);
    let r = sqrt_floor(0);
    assert(r == 0) by (nonlinear_arith)
        requires
            r * r <= 0,
            r >= 0,
    ;
    assert(sine_of(ONE as int) == 0);
    assert(pow5(0) == 0);
}

/// Light entering a denser medium (`ir >= 1` on the far side) can always
/// refract, at any angle: there is no total internal reflection.
pub proof fn lemma_entering_never_reflects_totally(cos: int, ir: int)
    requires
        -ONE <= cos <= ONE,
        ir >= ONE,
    ensures
        0 <= refraction_ratio(ir, true) <= ONE,
        !cannot_refract_spec(cos, refraction_ratio(ir, true)),
{
    let ratio = refraction_ratio(ir, true);
    lemma_tdiv_bound(ONE * ONE, ir, ONE * ONE);
    lemma_tdiv_monotone(ONE * ONE, ONE * ir, ir);
    assert((ONE * ir) / ir == ONE as int) by (nonlinear_arith)
        requires
            ir > 0,
    ;
    assert(0 <= ONE * ONE - cos * cos <= ONE * ONE) by (nonlinear_arith)
        requires
            -ONE <= cos <= ONE,
    ;
    lemma_sqrt_floor(ONE * ONE - cos * cos);
    let sin = sine_of(cos);
    assert(sin <= ONE) by (nonlinear_arith)
        requires
            sin * sin <= ONE * ONE - cos * cos,
            sin >= 0,
    ;
    lemma_fx_mul_attenuates(sin, sin, ratio);
    assert(fx_mul(ratio, sin) == fx_mul(sin, ratio));
}

/// Within 255 steps of normal incidence, `(1 - cos)^5` rounds to zero, so
/// Schlick's reflectance is exactly `r0`.
pub proof fn lemma_near_normal_incidence(cos: int, ratio: int)
    requires
        ONE - 256 < cos <= ONE,
    ensures
        reflectance_spec(cos, ratio) == schlick_r0(ratio),
{
    let x = ONE - cos;
    assert(0 <= x * x < ONE) by (nonlinear_arith)
        requires
            0 <= x < 256,
    ;
    lemma_tdiv_bound(x * x, ONE as int, ONE - 1);
    assert(fx_mul(x, x) == 0);
    assert(pow5(x) == 0);
}

/// Glass struck from outside close to head-on refracts unless the draw
/// `uniform` falls below `r0`.
pub proof fn lemma_glass_entering_refracts(ir: int, ray: Ray, hit: Hit, ball: Vec3, uniform: int)
    requires
        ONE <= ir <= LIMIT,
        hit.front_face,
        ONE - 256 < incidence_cos(vnormalize(ray.direction), hit.normal),
        uniform >= schlick_r0(refraction_ratio(ir, true)),
    ensures
        scatter_spec(Material::Dielectric(ir as i64), ray, hit, ball, uniform) == Some(
            (
                white(),
                Ray {
                    origin: hit.point,
                    direction: vrefract(vnormalize(ray.direction), hit.normal, refraction_ratio(ir, true)),
                },
            ),
        ),
{
    let cos = incidence_cos(vnormalize(ray.direction), hit.normal);
    lemma_entering_never_reflects_totally(cos, ir);
    lemma_near_normal_incidence(cos, refraction_ratio(ir, true));
}

/// Schlick's approximation of the reflectance at an angle with cosine `cos`
/// for the index ratio `ref_idx`.
pub fn reflectance(cos: i64, ref_idx: i64) -> (r: i64)
    requires
        -ONE <= cos <= ONE,
        0 <= ref_idx <= ONE * ONE,
    ensures
        r == reflectance_spec(cos as int, ref_idx as int),
{
    proof {
        lemma_tdiv_bound((ONE - ref_idx) * ONE, ONE + ref_idx, (ONE + ref_idx) * ONE);
        assert(((ONE + ref_idx) * ONE) / (ONE + ref_idx) == ONE) by (nonlinear_arith)
            requires
                ONE + ref_idx > 0,
        ;
    }
    let q = fixed_div(ONE - ref_idx, ONE + ref_idx);
    proof {
        lemma_fx_mul_bound(q as int, q as int, ONE as int, ONE as int);
        assert(0 <= q * q <= ONE * ONE) by (nonlinear_arith)
            requires
                -ONE <= q <= ONE,
        ;
        lemma_tdiv_bound(q * q, ONE as int, ONE * ONE);
    }
    let r0 = fixed_mul(q, q);
    let x = ONE - cos;
    proof {
        lemma_fx_mul_bound(x as int, x as int, 2 * ONE, 2 * ONE);
    }
    let x2 = fixed_mul(x, x);
    proof {
        lemma_fx_mul_bound(x2 as int, x as int, 4 * ONE, 2 * ONE);
    }
    let x3 = fixed_mul(x2, x);
    proof {
        lemma_fx_mul_bound(x3 as int, x as int, 8 * ONE, 2 * ONE);
    }
    let x4 = fixed_mul(x3, x);
    proof {
        lemma_fx_mul_bound(x4 as int, x as int, 16 * ONE, 2 * ONE);
    }
    let x5 = fixed_mul(x4, x);
    proof {
        lemma_fx_mul_bound((ONE - r0) as int, x5 as int, ONE as int, 32 * ONE);
    }
    r0 + fixed_mul(ONE - r0, x5)
}

impl Material {
    /// Albedos lie in `[0, 1]`, fuzz in `[0, 1]`, and a refractive index in
    /// `(0, LIMIT]`.
    pub open spec fn wf(self) -> bool {
        match self {
            Material::Lambertian(albedo) => is_albedo(albedo),
            Material::Metal(albedo, fuzz) => is_albedo(albedo) && 0 <= fuzz <= ONE,
            Material::Dielectric(ir) => 0 < ir <= LIMIT,
        }
    }

    /// Scatters `ray` at `hit`, given a point `ball` of the unit ball and a
    /// number `uniform` of `[0, 1)` as the random draws.
    pub fn scatter_with(&self, ray: &Ray, hit: &Hit, ball: Vec3, uniform: i64) -> (r: Option<(Vec3, Ray)>)
        requires
            self.wf(),
            ray.wf(),
            !ray.direction.is_zero(),
            hit.point.wf(),
            hit.normal.wf(),
            in_unit_ball(ball),
        ensures
            r == scatter_spec(*self, *ray, *hit, ball, uniform as int),
            r matches Some((attenuation, scattered)) ==> is_albedo(attenuation) && scattered.wf(),
    {
        match *self {
            Material::Lambertian(albedo) => {
                let offset = if ball.is_near_zero() {
                    ball
                } else {
                    ball.normalize()
                };
                let direction = hit.normal.add(offset);
                Some(
                    (
                        albedo,
                        Ray {
                            origin: hit.point,
                            direction: if direction.is_near_zero() {
                                hit.normal
                            } else {
                                direction
                            },
                        },
                    ),
                )
            },
            Material::Metal(albedo, fuzz) => {
                let reflected = ray.direction.normalize().reflect(hit.normal).add(ball.scale(fuzz));
                if reflected.dot(hit.normal) > 0 {
                    Some((albedo, Ray { origin: hit.point, direction: reflected }))
                } else {
                    None
                }
            },
            Material::Dielectric(ir) => {
                proof {
                    lemma_tdiv_bound(ONE * ONE, ir as int, ONE * ONE);
                }
                let ratio = if hit.front_face {
                    fixed_div(ONE, ir)
                } else {
                    ir
                };
                let unit = ray.direction.normalize();
                let cos_theta = clamp(unit.neg().dot(hit.normal), -ONE, ONE);
                proof {
                    assert(0 <= ONE * ONE - cos_theta * cos_theta <= ONE * ONE) by (nonlinear_arith)
                        requires
                            -ONE <= cos_theta <= ONE,
                    ;
                    lemma_sqrt_floor(ONE * ONE - cos_theta * cos_theta);
                }
                assert(0 <= cos_theta * cos_theta <= ONE * ONE) by (nonlinear_arith)
                    requires
                        -ONE <= cos_theta <= ONE,
                ;
                let s2: i64 = ONE * ONE - cos_theta * cos_theta;
                let root = isqrt(s2 as u128);
                assert(root <= ONE) by (nonlinear_arith)
                    requires
                        root * root <= s2,
                        s2 <= ONE * ONE,
                        root >= 0,
                ;
                let sin_theta = root as i64;
                proof {
                    lemma_fx_mul_bound(ratio as int, sin_theta as int, ONE * ONE, ONE as int);
                }
                let cannot_refract = fixed_mul(ratio, sin_theta) > ONE;
                let direction = if cannot_refract || reflectance(cos_theta, ratio) > uniform {
                    unit.reflect(hit.normal)
                } else {
                    unit.refract(hit.normal, ratio)
                };
                Some((Vec3(ONE, ONE, ONE), Ray { origin: hit.point, direction }))
            },
        }
    }

    /// Scatters `ray` at `hit`, drawing what it needs from `rng`: a point of
    /// the unit ball for the diffuse and metal surfaces, a number of `[0, 1)`
    /// for the choice between reflection and refraction.
    pub fn scatter(&self, ray: &Ray, hit: &Hit, rng: &mut Xoshiro256Plus) -> (r: Option<(Vec3, Ray)>)
        requires
            self.wf(),
            ray.wf(),
            !ray.direction.is_zero(),
            hit.point.wf(),
            hit.normal.wf(),
        ensures
            exists|ball: Vec3, uniform: int|
                in_unit_ball(ball) && 0 <= uniform < ONE && r == scatter_spec(*self, *ray, *hit, ball, uniform),
            r matches Some((attenuation, scattered)) ==> is_albedo(attenuation) && scattered.wf(),
    {
        let (ball, uniform) = match *self {
            Material::Dielectric(_) => (Vec3(0, 0, 0), gen_range(rng, 0, ONE)),
            _ => (Vec3::random_in_unit_sphere(rng), 0),
        };
        self.scatter_with(ray, hit, ball, uniform)
    }
}

} // verus!
