use pathtracer::camera::Camera;
use pathtracer::color::Color;
use pathtracer::fixed::{LIMIT, ONE};
use pathtracer::material::{reflectance, Material};
use pathtracer::object::{Hit, Object};
use pathtracer::ray::Ray;
use pathtracer::render::{
    channel_byte, pixel_color, ray_color, render, sky, to_rgb8, RenderSettings, GAMMA_CLAMP_MAX, HIT_T_MIN,
};
use pathtracer::scene::{hit_scene, random_scene, GLASS_INDEX};
use pathtracer::vec3::Vec3;
use rand::SeedableRng;
use rand_xoshiro::Xoshiro256Plus;

fn fx(x: f64) -> i64 {
    (x * ONE as f64).round() as i64
}

fn to_f64(x: i64) -> f64 {
    x as f64 / ONE as f64
}

fn head_on_hit(material: Material, front_face: bool) -> Hit {
    Hit { point: Vec3(0, 0, fx(-0.5)), normal: Vec3(0, 0, ONE), front_face, material, t: fx(0.5) }
}

fn forward() -> Ray {
    Ray { origin: Vec3(0, 0, 0), direction: Vec3(0, 0, -ONE) }
}

#[test]
fn named_policy_constants() {
    assert_eq!(HIT_T_MIN, 66);
    assert_eq!(GAMMA_CLAMP_MAX, 65470);
    assert_eq!(GLASS_INDEX, fx(1.5));
}

#[test]
fn lambertian_falls_back_to_the_normal() {
    let m = Material::Lambertian(Vec3(fx(0.5), fx(0.25), 0));
    let hit = head_on_hit(m, true);
    let (att, out) = m.scatter_with(&forward(), &hit, Vec3(0, 0, 0), 0).unwrap();
    assert_eq!(att, Vec3(fx(0.5), fx(0.25), 0));
    assert_eq!(out.origin, hit.point);
    assert_eq!(out.direction, hit.normal);
    let (_, out) = m.scatter_with(&forward(), &hit, Vec3(0, 0, -fx(0.5)), 0).unwrap();
    assert_eq!(out.direction, hit.normal);
    let (_, out) = m.scatter_with(&forward(), &hit, Vec3(fx(0.5), 0, 0), 0).unwrap();
    assert_eq!(out.direction, Vec3(ONE, 0, ONE));
}

#[test]
fn metal_reflects_or_absorbs() {
    let m = Material::Metal(Vec3(fx(0.7), fx(0.6), fx(0.5)), 0);
    let hit = head_on_hit(m, true);
    let (att, out) = m.scatter_with(&forward(), &hit, Vec3(0, 0, 0), 0).unwrap();
    assert_eq!(att, Vec3(fx(0.7), fx(0.6), fx(0.5)));
    assert_eq!(out.direction, Vec3(0, 0, ONE));
    let rough = Material::Metal(Vec3(ONE, ONE, ONE), ONE);
    let grazing = Ray { origin: Vec3(0, 0, 0), direction: Vec3(ONE, 0, -fx(0.1)) };
    let hit = head_on_hit(rough, true);
    assert!(rough.scatter_with(&grazing, &hit, Vec3(0, 0, -fx(0.5)), 0).is_none());
    assert!(rough.scatter_with(&grazing, &hit, Vec3(0, 0, fx(0.5)), 0).is_some());
}

#[test]
fn schlick_at_normal_incidence_is_r0() {
    let ratio = fx(1.0 / 1.5);
    let q = fx((1.0 - 1.0 / 1.5) / (1.0 + 1.0 / 1.5));
    let r0 = reflectance(ONE, ratio);
    assert!((r0 - q * q / ONE).abs() <= 2);
    assert!((to_f64(r0) - 0.04).abs() < 1e-3);
    // A grazing angle reflects almost everything.
    assert!(reflectance(0, ratio) > fx(0.99));
}

#[test]
fn glass_hit_head_on_refracts() {
    let glass = Material::Dielectric(GLASS_INDEX);
    let hit = head_on_hit(glass, true);
    let ratio = (ONE as i128 * ONE as i128 / GLASS_INDEX as i128) as i64;
    let r0 = reflectance(ONE, ratio);
    let (att, out) = glass.scatter_with(&forward(), &hit, Vec3(0, 0, 0), r0).unwrap();
    assert_eq!(att, Vec3(ONE, ONE, ONE));
    assert_eq!(out.direction, Vec3(0, 0, -ONE));
    // Below r0 the same ray reflects.
    let (_, out) = glass.scatter_with(&forward(), &hit, Vec3(0, 0, 0), 0).unwrap();
    assert_eq!(out.direction, Vec3(0, 0, ONE));
}

#[test]
fn glass_reflects_totally_at_a_grazing_exit() {
    let glass = Material::Dielectric(GLASS_INDEX);
    let hit = Hit { point: Vec3(0, 0, 0), normal: Vec3(0, ONE, 0), front_face: false, material: glass, t: ONE };
    let ray = Ray { origin: Vec3(0, ONE, 0), direction: Vec3(fx(2.0), -ONE, 0) };
    for u in [0, ONE / 2, ONE - 1] {
        let (_, out) = glass.scatter_with(&ray, &hit, Vec3(0, 0, 0), u).unwrap();
        assert!(out.direction.1 > 0);
    }
}

#[test]
fn scatter_draws_from_the_generator() {
    let mut rng = Xoshiro256Plus::seed_from_u64(3);
    let m = Material::Lambertian(Vec3(fx(0.5), fx(0.5), fx(0.5)));
    let hit = head_on_hit(m, true);
    for _ in 0..50 {
        let (att, out) = m.scatter(&forward(), &hit, &mut rng).unwrap();
        assert_eq!(att, Vec3(fx(0.5), fx(0.5), fx(0.5)));
        assert!(out.direction.dot(hit.normal) >= 0);
    }
}

fn pinhole(aperture: i64) -> Camera {
    Camera::new(
        Vec3(0, 0, 0),
        Vec3(0, 0, -ONE),
        Vec3(0, ONE, 0),
        ONE,
        fx(2.0),
        aperture,
        ONE,
    )
}

#[test]
fn camera_basis_and_center_ray() {
    let cam = pinhole(0);
    assert_eq!(cam.u, Vec3(ONE, 0, 0));
    assert_eq!(cam.v, Vec3(0, ONE, 0));
    assert_eq!(cam.origin, Vec3(0, 0, 0));
    assert_eq!(cam.lens_radius, 0);
    let r = cam.get_ray_with(ONE / 2, ONE / 2, Vec3(0, 0, 0));
    assert_eq!(r.origin, Vec3(0, 0, 0));
    assert_eq!(r.direction, Vec3(0, 0, -ONE));
    let corner = cam.get_ray_with(0, 0, Vec3(0, 0, 0));
    assert_eq!(corner.direction, Vec3(fx(-2.0), -ONE, -ONE));
}

#[test]
fn depth_of_field_origins_lie_on_the_lens() {
    let cam = pinhole(fx(0.5));
    let radius = cam.lens_radius;
    assert_eq!(radius, fx(0.25));
    let mut rng = Xoshiro256Plus::seed_from_u64(11);
    let (mut sx, mut sy) = (0f64, 0f64);
    let n = 4000;
    let mut spread = false;
    for _ in 0..n {
        let r = cam.get_ray(ONE / 2, ONE / 2, &mut rng);
        let (ox, oy, oz) = (to_f64(r.origin.0), to_f64(r.origin.1), to_f64(r.origin.2));
        assert!((ox * ox + oy * oy).sqrt() <= to_f64(radius) + 1e-4);
        assert_eq!(oz, 0.0);
        spread |= ox.abs() > 0.1;
        // The ray still passes through the same point of the focus plane.
        let target = r.origin.add(r.direction);
        assert!((to_f64(target.0)).abs() < 1e-3 && (to_f64(target.1)).abs() < 1e-3);
        sx += ox;
        sy += oy;
    }
    assert!(spread);
    assert!((sx / n as f64).abs() < 0.02 && (sy / n as f64).abs() < 0.02);
}

#[test]
fn rays_that_miss_see_the_exact_gradient() {
    let scene = [Object::Sphere {
        center: Vec3(0, 0, -ONE),
        radius: fx(0.5),
        material: Material::Lambertian(Vec3(fx(0.5), fx(0.5), fx(0.5))),
    }];
    let cam = pinhole(0);
    let mut rng = Xoshiro256Plus::seed_from_u64(1);
    for (s, t) in [(0, 0), (ONE, ONE), (ONE / 10, ONE / 2), (ONE / 2, ONE)] {
        let ray = cam.get_ray(s, t, &mut rng);
        let c = ray_color(&ray, &scene, 50, &mut rng);
        let d = ray.direction;
        let len = (to_f64(d.0).powi(2) + to_f64(d.1).powi(2) + to_f64(d.2).powi(2)).sqrt();
        let t = 0.5 * (to_f64(d.1) / len + 1.0);
        let expected = [(1.0 - t) + t * 0.5, (1.0 - t) + t * 0.7, 1.0];
        for (got, want) in [c.0, c.1, c.2].into_iter().zip(expected) {
            assert!((to_f64(got) - want).abs() < 1e-3, "{} vs {}", to_f64(got), want);
        }
        assert_eq!(c, sky(d));
    }
}

#[test]
fn center_pixel_sees_the_front_of_the_sphere() {
    let scene = [Object::Sphere {
        center: Vec3(0, 0, -ONE),
        radius: fx(0.5),
        material: Material::Lambertian(Vec3(fx(0.5), fx(0.5), fx(0.5))),
    }];
    let cam = pinhole(0);
    let ray = cam.get_ray_with(ONE / 2, ONE / 2, Vec3(0, 0, 0));
    let hit = hit_scene(&scene, &ray, HIT_T_MIN, i64::MAX).unwrap();
    assert!(hit.front_face);
    assert_eq!(hit.normal, Vec3(0, 0, ONE));
    let shade = hit.normal.add(Vec3(ONE, ONE, ONE)).scale(ONE / 2);
    assert_eq!(shade, Vec3(fx(0.5), fx(0.5), ONE));
}

#[test]
fn radiance_never_exceeds_one_and_depth_zero_is_black() {
    let mut rng = Xoshiro256Plus::seed_from_u64(5);
    let scene = random_scene(&mut rng);
    let cam = Camera::new(
        Vec3(fx(13.0), fx(2.0), fx(3.0)),
        Vec3(0, 0, 0),
        Vec3(0, ONE, 0),
        fx(0.176327),
        fx(16.0 / 9.0),
        fx(0.1),
        fx(10.0),
    );
    for i in 0..40 {
        let ray = cam.get_ray(i * ONE / 40, ONE / 3, &mut rng);
        assert_eq!(ray_color(&ray, &scene, 0, &mut rng), Vec3(0, 0, 0));
        let c = ray_color(&ray, &scene, 10, &mut rng);
        for ch in [c.0, c.1, c.2] {
            assert!((0..=ONE).contains(&ch));
        }
    }
}

#[test]
fn a_mirror_bounce_only_dims() {
    let mirror = Material::Metal(Vec3(fx(0.8), fx(0.6), fx(0.4)), 0);
    let scene = [Object::Sphere { center: Vec3(0, 0, fx(-2.0)), radius: ONE, material: mirror }];
    let mut rng = Xoshiro256Plus::seed_from_u64(9);
    let ray = Ray { origin: Vec3(0, 0, 0), direction: Vec3(fx(0.2), fx(0.3), -ONE) };
    let bounced = ray_color(&ray, &scene, 5, &mut rng);
    let hit = hit_scene(&scene, &ray, HIT_T_MIN, i64::MAX).unwrap();
    let (_, out) = mirror.scatter_with(&ray, &hit, Vec3(0, 0, 0), 0).unwrap();
    let direct = ray_color(&out, &scene, 4, &mut rng);
    assert!(bounced.0 <= direct.0 && bounced.1 <= direct.1 && bounced.2 <= direct.2);
    assert!(bounced.0 > 0);
    assert_eq!(ray_color(&ray, &scene, 1, &mut rng), Vec3(0, 0, 0));
}

#[test]
fn gamma_bytes() {
    assert_eq!(channel_byte(0), 0);
    assert_eq!(channel_byte(ONE), 255);
    assert_eq!(channel_byte(ONE / 4), 128);
    assert_eq!(channel_byte(-ONE), 0);
    assert_eq!(channel_byte(LIMIT), 255);
    assert_eq!(channel_byte(i64::MAX), 255);
    assert_eq!(to_rgb8(Vec3(ONE, ONE / 4, 0)), (255, 128, 0));
    let mut sum = Color(Vec3(ONE, 0, 0));
    sum.add_assign(Color(Vec3(ONE, ONE / 2, 0)));
    assert_eq!(sum.to_rgb8(2), (255, 128, 0));
    assert_eq!(sum.mul(ONE / 2), Color(Vec3(ONE, ONE / 4, 0)));
}

#[test]
fn pixels_and_images() {
    let mut rng = Xoshiro256Plus::seed_from_u64(0);
    let scene = [Object::Sphere {
        center: Vec3(0, 0, -ONE),
        radius: fx(0.5),
        material: Material::Lambertian(Vec3(fx(0.5), fx(0.5), fx(0.5))),
    }];
    let cam = pinhole(0);
    let settings = RenderSettings { image_width: 8, image_height: 4, samples_per_pixel: 4, max_depth: 8 };
    let c = pixel_color(0, 3, &settings, &cam, &scene, &mut rng);
    for ch in [c.0, c.1, c.2] {
        assert!((0..=ONE).contains(&ch));
    }
    let image = render(&settings, &cam, &scene, &mut rng);
    assert_eq!(image.len(), 32);
    // The top-left corner sees open sky: bluish, brighter in blue than red.
    let (r, _, b) = image[0];
    assert!(b >= r && b > 200);
}

#[test]
fn demonstration_scene_layout() {
    let mut rng = Xoshiro256Plus::seed_from_u64(0);
    let scene = random_scene(&mut rng);
    assert!(scene.len() >= 4 && scene.len() <= 488);
    let Object::Sphere { radius, .. } = scene[0];
    assert_eq!(radius, fx(1000.0));
    let Object::Sphere { material, .. } = scene[scene.len() - 3];
    assert_eq!(material, Material::Dielectric(GLASS_INDEX));
    assert!(scene.len() > 300);
    for o in &scene[1..scene.len() - 3] {
        let Object::Sphere { center, radius, material } = *o;
        assert_eq!(radius, fx(0.2));
        assert_eq!(center.1, fx(0.2));
        assert!(center.sub(Vec3(fx(4.0), fx(0.2), 0)).length() > fx(0.9));
        match material {
            Material::Lambertian(a) => assert!([a.0, a.1, a.2].iter().all(|c| (0..ONE).contains(c))),
            Material::Metal(a, f) => {
                assert!([a.0, a.1, a.2].iter().all(|c| (ONE / 2..ONE).contains(c)));
                assert!((0..ONE / 2).contains(&f));
            },
            Material::Dielectric(ir) => assert_eq!(ir, GLASS_INDEX),
        }
    }
}

#[test]
fn glass_struck_nearly_head_on_refracts() {
    let glass = Material::Dielectric(GLASS_INDEX);
    let ray = Ray { origin: Vec3(0, 0, 0), direction: Vec3(fx(0.01), 0, -ONE) };
    let hit = head_on_hit(glass, true);
    let ratio = (ONE as i128 * ONE as i128 / GLASS_INDEX as i128) as i64;
    let r0 = reflectance(ONE, ratio);
    assert_eq!(reflectance(ONE - 255, ratio), r0);
    let (_, out) = glass.scatter_with(&ray, &hit, Vec3(0, 0, 0), r0).unwrap();
    assert!(out.direction.2 < -fx(0.99));
    assert!(out.direction.0 > 0 && out.direction.0 < fx(0.01));
}

#[test]
fn lens_rays_meet_on_the_focus_plane() {
    let cam = pinhole(fx(1.0));
    let pin = cam.get_ray_with(fx(0.3), fx(0.7), Vec3(0, 0, 0));
    for disk in [Vec3(fx(0.5), fx(-0.5), 0), Vec3(fx(-0.9), fx(0.1), 0)] {
        let r = cam.get_ray_with(fx(0.3), fx(0.7), disk);
        assert_eq!(r.origin.add(r.direction), pin.origin.add(pin.direction));
        let off = r.origin.sub(pin.origin);
        assert_eq!(r.direction, pin.direction.sub(off));
    }
}
