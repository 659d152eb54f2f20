//! A scene: an ordered sequence of surfaces, and the nearest hit along a ray.
use crate::object::{lemma_hit_in_window, lemma_hit_narrow_keeps, lemma_hit_widen_keeps, Hit, Object};
use crate::fixed::{fixed_mul, fx_mul, lemma_fx_mul_attenuates, lemma_tdiv_bound, ONE};
use crate::material::Material;
use crate::ray::Ray;
use crate::sampling::gen_range;
use crate::vec3::{vlength, vsub, Vec3};
use rand_xoshiro::Xoshiro256Plus;
use vstd::prelude::*;

verus! {

/// Every surface of the scene is well formed.
pub open spec fn scene_wf(objs: Seq<Object>) -> bool {
    forall|i: int| 0 <= i < objs.len() ==> #[trigger] objs[i].wf()
}

/// The hit that a scan of `objs` in order reports: each surface is asked only
/// for hits strictly closer than the closest found so far.
pub open spec fn scene_hit(objs: Seq<Object>, ray: Ray, t_min: int, t_max: int) -> Option<Hit>
    decreases objs.len(),
{
    if objs.len() == 0 {
        None
    } else {
        let prev = scene_hit(objs.drop_last(), ray, t_min, t_max);
        let limit = match prev {
            Some(h) => h.t - 1,
            None => t_max,
        };
        match objs.last().hit_spec(ray, t_min, limit) {
            Some(h) => Some(h),
            None => prev,
        }
    }
}

/// The scan reports the closest hit: whenever some surface is hit in the
/// window, the scan reports a hit, no farther than that surface's, and what
/// it reports is the hit of one of the surfaces.
pub proof fn lemma_scene_hit_is_closest(objs: Seq<Object>, ray: Ray, t_min: int, t_max: int)
    requires
        i64::MIN <= t_min,
        t_max <= i64::MAX,
    ensures
        forall|i: int|
            0 <= i < objs.len() && (#[trigger] objs[i].hit_spec(ray, t_min, t_max)) is Some
                ==> scene_hit(objs, ray, t_min, t_max) is Some
                && scene_hit(objs, ray, t_min, t_max)->Some_0.t <= objs[i].hit_spec(ray, t_min, t_max)->Some_0.t,
        scene_hit(objs, ray, t_min, t_max) matches Some(h) ==> exists|i: int|
            0 <= i < objs.len() && #[trigger] objs[i].hit_spec(ray, t_min, t_max) == Some(h),
    decreases objs.len(),
{
    if objs.len() > 0 {
        let rest = objs.drop_last();
        let last = objs.last();
        let n = objs.len() - 1;
        lemma_scene_hit_is_closest(rest, ray, t_min, t_max);
        assert(forall|i: int| 0 <= i < n ==> rest[i] == objs[i]);
        let prev = scene_hit(rest, ray, t_min, t_max);
        lemma_hit_in_window(last, ray, t_min, t_max);
        match prev {
            None => {},
            Some(hp) => {
                let j = choose|j: int| 0 <= j < rest.len() && #[trigger] rest[j].hit_spec(ray, t_min, t_max) == Some(hp);
                lemma_hit_in_window(rest[j], ray, t_min, t_max);
                let limit = hp.t - 1;
                match last.hit_spec(ray, t_min, limit) {
                    Some(h) => {
                        lemma_hit_widen_keeps(last, ray, t_min, limit, t_max);
                        lemma_hit_in_window(last, ray, t_min, limit);
                        assert(objs[n] == last);
                    },
                    None => {
                        if let Some(hn) = last.hit_spec(ray, t_min, t_max) {
                            if hn.t <= limit {
                                lemma_hit_narrow_keeps(last, ray, t_min, limit, t_max);
                            }
                        }
                        assert(objs[j] == rest[j]);
                    },
                }
            },
        }
        assert(objs[n] == last);
    }
}

/// The closest hit does not depend on the order of the surfaces: two scenes
/// made of the same surfaces report hits at the same parameter.
pub proof fn lemma_closest_hit_order_independent(s1: Seq<Object>, s2: Seq<Object>, ray: Ray, t_min: int, t_max: int)
    requires
        i64::MIN <= t_min,
        t_max <= i64::MAX,
        forall|i: int| 0 <= i < s1.len() ==> s2.contains(#[trigger] s1[i]),
        forall|i: int| 0 <= i < s2.len() ==> s1.contains(#[trigger] s2[i]),
    ensures
        scene_hit(s1, ray, t_min, t_max) is Some <==> scene_hit(s2, ray, t_min, t_max) is Some,
        scene_hit(s1, ray, t_min, t_max) is Some ==> scene_hit(s1, ray, t_min, t_max)->Some_0.t
            == scene_hit(s2, ray, t_min, t_max)->Some_0.t,
{
    lemma_scene_hit_is_closest(s1, ray, t_min, t_max);
    lemma_scene_hit_is_closest(s2, ray, t_min, t_max);
    if let Some(h1) = scene_hit(s1, ray, t_min, t_max) {
        let i = choose|i: int| 0 <= i < s1.len() && #[trigger] s1[i].hit_spec(ray, t_min, t_max) == Some(h1);
        assert(s2.contains(s1[i]));
        let j = choose|j: int| 0 <= j < s2.len() && s2[j] == s1[i];
        assert(s2[j].hit_spec(ray, t_min, t_max) == Some(h1));
        let h2 = scene_hit(s2, ray, t_min, t_max)->Some_0;
        let k = choose|k: int| 0 <= k < s2.len() && #[trigger] s2[k].hit_spec(ray, t_min, t_max) == Some(h2);
        assert(s1.contains(s2[k]));
        let l = choose|l: int| 0 <= l < s1.len() && s1[l] == s2[k];
        assert(s1[l].hit_spec(ray, t_min, t_max) == Some(h2));
    }
    if let Some(h2) = scene_hit(s2, ray, t_min, t_max) {
        let k = choose|k: int| 0 <= k < s2.len() && #[trigger] s2[k].hit_spec(ray, t_min, t_max) == Some(h2);
        assert(s1.contains(s2[k]));
        let l = choose|l: int| 0 <= l < s1.len() && s1[l] == s2[k];
        assert(s1[l].hit_spec(ray, t_min, t_max) == Some(h2));
    }
}

/// The closest hit of `ray` with any surface of `scene` in `[t_min, t_max]`.
pub fn hit_scene(scene: &[Object], ray: &Ray, t_min: i64, t_max: i64) -> (r: Option<Hit>)
    requires
        scene_wf(scene@),
        ray.wf(),
    ensures
        r == scene_hit(scene@, *ray, t_min as int, t_max as int),
        r matches Some(h) ==> {
            &&& h.point.wf()
            &&& h.normal.wf()
            &&& h.material.wf()
        },
{
    let mut closest: i128 = t_max as i128;
    let mut hit: Option<Hit> = None;
    let mut i: usize = 0;
    while i < scene.len()
        invariant
            i <= scene@.len(),
            scene_wf(scene@),
            ray.wf(),
            hit == scene_hit(scene@.subrange(0, i as int), *ray, t_min as int, t_max as int),
            closest == match hit {
                Some(h) => h.t - 1,
                None => t_max as int,
            },
            closest <= t_max,
            hit matches Some(h) ==> {
                &&& h.point.wf()
                &&& h.normal.wf()
                &&& h.material.wf()
            },
        decreases scene.len() - i,
    {
        let ghost prefix = scene@.subrange(0, i as int);
        assert(scene@.subrange(0, i + 1).drop_last() =~= prefix);
        assert(scene@.subrange(0, i + 1).last() == scene@[i as int]);
        assert(scene@[i as int].wf());
        if closest >= t_min as i128 {
            if let Some(h) = scene[i].hit(ray, t_min, closest as i64) {
                closest = h.t as i128 - 1;
                hit = Some(h);
            }
        } else {
            assert(scene@[i as int].hit_spec(*ray, t_min as int, closest as int) is None);
        }
        i = i + 1;
    }
    assert(scene@.subrange(0, scene@.len() as int) =~= scene@);
    hit
}

/// The radius, and height above the ground, of the small spheres of
/// `random_scene` (the real `0.2`).
pub const SMALL_RADIUS: i64 = 13107;

/// How far `random_scene` scatters a small sphere within its grid cell, and
/// how far from the metal ball it keeps them (the real `0.9`).
pub const NINE_TENTHS: i64 = 58982;

/// Below this draw a small sphere is diffuse (the real `0.8`).
pub const DIFFUSE_SHARE: i64 = 52429;

/// Below this draw, and not diffuse, a small sphere is metal (the real
/// `0.95`); above it, glass.
pub const METAL_SHARE: i64 = 62259;

/// The refractive index of glass (the real `1.5`).
pub const GLASS_INDEX: i64 = 98304;

/// The ground: a huge diffuse gray sphere.
pub open spec fn ground() -> Object {
    Object::Sphere {
        center: Vec3(0, -65536000i64, 0),
        radius: 65536000,
        material: Material::Lambertian(Vec3(32768, 32768, 32768)),
    }
}

/// A material `random_scene` may give a small sphere: diffuse with albedo
/// in `[0, 1)`, metal with albedo in `[0.5, 1)` and fuzz in `[0, 0.5)`, or
/// glass.
pub open spec fn is_small_material(m: Material) -> bool {
    match m {
        Material::Lambertian(a) => 0 <= a.0 < ONE && 0 <= a.1 < ONE && 0 <= a.2 < ONE,
        Material::Metal(a, fuzz) => ONE / 2 <= a.0 < ONE && ONE / 2 <= a.1 < ONE && ONE / 2 <= a.2 < ONE && 0
            <= fuzz < ONE / 2,
        Material::Dielectric(ir) => ir == GLASS_INDEX,
    }
}

/// A small sphere resting on the ground, more than `NINE_TENTHS` away from
/// the point below the metal ball's center at its height.
pub open spec fn is_small_sphere(o: Object) -> bool {
    match o {
        Object::Sphere { center, radius, material } => {
            &&& radius == SMALL_RADIUS
            &&& center.1 == SMALL_RADIUS
            &&& vlength(vsub(center, Vec3(262144i64, SMALL_RADIUS, 0))) > NINE_TENTHS
            &&& is_small_material(material)
            &&& o.wf()
        },
    }
}

/// The three large spheres: glass, diffuse brown and polished metal.
pub open spec fn large_spheres() -> Seq<Object> {
    seq![
        Object::Sphere { center: Vec3(0, ONE, 0), radius: ONE, material: Material::Dielectric(GLASS_INDEX) },
        Object::Sphere {
            center: Vec3(-262144i64, ONE, 0),
            radius: ONE,
            material: Material::Lambertian(Vec3(26214, 13107, 6554)),
        },
        Object::Sphere {
            center: Vec3(262144, ONE, 0),
            radius: ONE,
            material: Material::Metal(Vec3(45875, 39322, 32768), 0),
        },
    ]
}

/// The fixed-point product of two numbers of `[0, 1)` lies in `[0, 1)`.
proof fn lemma_product_below_one(x: int, y: int)
    requires
        0 <= x < ONE,
        0 <= y < ONE,
    ensures
        0 <= fx_mul(x, y) < ONE,
{
    lemma_fx_mul_attenuates(x, x, y);
    assert(x * y < ONE * ONE) by (nonlinear_arith)
        requires
            0 <= x < ONE,
            0 <= y < ONE,
    ;
    lemma_tdiv_bound(x * y, ONE as int, ONE * ONE - 1);
}

/// The demonstration scene: the ground, up to one small sphere of a random
/// material in each cell of a 22 by 22 grid (none too close to the metal
/// ball), and three large spheres.
pub fn random_scene(rng: &mut Xoshiro256Plus) -> (r: Vec<Object>)
    ensures
        scene_wf(r@),
        4 <= r@.len() <= 488,
        r@[0] == ground(),
        r@.subrange(r@.len() - 3, r@.len() as int) == large_spheres(),
        forall|i: int| 1 <= i < r@.len() - 3 ==> is_small_sphere(#[trigger] r@[i]),
{
    let mut objects: Vec<Object> = Vec::new();
    objects.push(
        Object::Sphere {
            center: Vec3(0, -65536000, 0),
            radius: 65536000,
            material: Material::Lambertian(Vec3(32768, 32768, 32768)),
        },
    );
    let mut a: i64 = -11;
    while a < 11
        invariant
            -11 <= a <= 11,
            1 <= objects@.len() <= 1 + (a + 11) * 22,
            objects@[0] == ground(),
            scene_wf(objects@),
            forall|i: int| 1 <= i < objects@.len() ==> is_small_sphere(#[trigger] objects@[i]),
        decreases 11 - a,
    {
        let mut b: i64 = -11;
        while b < 11
            invariant
                -11 <= a < 11,
                -11 <= b <= 11,
                1 <= objects@.len() <= 1 + (a + 11) * 22 + (b + 11),
                objects@[0] == ground(),
                scene_wf(objects@),
                forall|i: int| 1 <= i < objects@.len() ==> is_small_sphere(#[trigger] objects@[i]),
            decreases 11 - b,
        {
            let choose_mat = gen_range(rng, 0, ONE);
            proof {
                lemma_fx_mul_attenuates(NINE_TENTHS as int, NINE_TENTHS as int, ONE as int);
            }
            let jx = gen_range(rng, 0, ONE);
            let jz = gen_range(rng, 0, ONE);
            proof {
                lemma_fx_mul_attenuates(NINE_TENTHS as int, NINE_TENTHS as int, jx as int);
                lemma_fx_mul_attenuates(NINE_TENTHS as int, NINE_TENTHS as int, jz as int);
                assert(fx_mul(NINE_TENTHS as int, jx as int) == fx_mul(jx as int, NINE_TENTHS as int));
                assert(fx_mul(NINE_TENTHS as int, jz as int) == fx_mul(jz as int, NINE_TENTHS as int));
            }
            let center = Vec3(
                a * ONE + fixed_mul(jx, NINE_TENTHS),
                SMALL_RADIUS,
                b * ONE + fixed_mul(jz, NINE_TENTHS),
            );
            if center.sub(Vec3(4 * ONE, SMALL_RADIUS, 0)).length() > NINE_TENTHS {
                let material = if choose_mat < DIFFUSE_SHARE {
                    let x = Vec3::random(rng);
                    let y = Vec3::random(rng);
                    proof {
                        lemma_product_below_one(x.0 as int, y.0 as int);
                        lemma_product_below_one(x.1 as int, y.1 as int);
                        lemma_product_below_one(x.2 as int, y.2 as int);
                    }
                    Material::Lambertian(x.mul(y))
                } else if choose_mat < METAL_SHARE {
                    let albedo = Vec3::random_in_range(ONE / 2, ONE, rng);
                    let fuzz = gen_range(rng, 0, ONE / 2);
                    Material::Metal(albedo, fuzz)
                } else {
                    Material::Dielectric(GLASS_INDEX)
                };
                let ghost before = objects@;
                objects.push(Object::Sphere { center, radius: SMALL_RADIUS, material });
                assert(forall|i: int| 0 <= i < before.len() ==> objects@[i] == before[i]);
            }
            b = b + 1;
        }
        a = a + 1;
    }
    let ghost middle = objects@;
    objects.push(Object::Sphere { center: Vec3(0, ONE, 0), radius: ONE, material: Material::Dielectric(GLASS_INDEX) });
    objects.push(
        Object::Sphere {
            center: Vec3(-262144, ONE, 0),
            radius: ONE,
            material: Material::Lambertian(Vec3(26214, 13107, 6554)),
        },
    );
    objects.push(
        Object::Sphere {
            center: Vec3(262144, ONE, 0),
            radius: ONE,
            material: Material::Metal(Vec3(45875, 39322, 32768), 0),
        },
    );
    assert(objects@ =~= middle + large_spheres());
    assert(objects@.subrange(objects@.len() - 3, objects@.len() as int) =~= large_spheres());
    objects
}

} // verus!
