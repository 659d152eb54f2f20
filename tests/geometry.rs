use pathtracer::fixed::ONE;
use pathtracer::material::Material;
use pathtracer::object::Object;
use pathtracer::ray::Ray;
use pathtracer::scene::hit_scene;
use pathtracer::vec3::Vec3;

fn fx(x: f64) -> i64 {
    (x * ONE as f64).round() as i64
}

fn matte() -> Material {
    Material::Lambertian(Vec3(fx(0.5), fx(0.5), fx(0.5)))
}

fn sphere(z: f64, radius: f64) -> Object {
    Object::Sphere { center: Vec3(0, 0, fx(z)), radius: fx(radius), material: matte() }
}

fn forward() -> Ray {
    Ray { origin: Vec3(0, 0, 0), direction: Vec3(0, 0, -ONE) }
}

#[test]
fn ray_at_moves_along_the_direction() {
    let r = Ray { origin: Vec3(ONE, 0, 0), direction: Vec3(0, fx(2.0), 0) };
    assert_eq!(r.at(fx(1.5)), Vec3(ONE, fx(3.0), 0));
    assert_eq!(r.at(0), r.origin);
    assert_eq!(r.at(-ONE), Vec3(ONE, fx(-2.0), 0));
}

#[test]
fn head_on_hit_from_outside() {
    let h = sphere(-1.0, 0.5).hit(&forward(), 0, i64::MAX).unwrap();
    assert_eq!(h.t, fx(0.5));
    assert_eq!(h.point, Vec3(0, 0, fx(-0.5)));
    assert_eq!(h.normal, Vec3(0, 0, ONE));
    assert!(h.front_face);
    assert_eq!(h.material, matte());
}

#[test]
fn hit_from_inside_flips_the_normal() {
    let r = Ray { origin: Vec3(0, 0, fx(-1.0)), direction: Vec3(0, 0, -ONE) };
    let h = sphere(-1.0, 0.5).hit(&r, 0, i64::MAX).unwrap();
    assert_eq!(h.t, fx(0.5));
    assert!(!h.front_face);
    assert_eq!(h.normal, Vec3(0, 0, ONE));
}

#[test]
fn negative_radius_inverts_the_outward_normal() {
    let h = sphere(-1.0, -0.5).hit(&forward(), 0, i64::MAX).unwrap();
    assert!(!h.front_face);
    assert_eq!(h.normal, Vec3(0, 0, ONE));
}

#[test]
fn misses_and_degenerate_inputs() {
    let up = Ray { origin: Vec3(0, 0, 0), direction: Vec3(0, ONE, 0) };
    assert!(sphere(-1.0, 0.5).hit(&up, 0, i64::MAX).is_none());
    let still = Ray { origin: Vec3(0, 0, 0), direction: Vec3(0, 0, 0) };
    assert!(sphere(-1.0, 0.5).hit(&still, 0, i64::MAX).is_none());
    assert!(sphere(-1.0, 0.0).hit(&forward(), 0, i64::MAX).is_none());
    assert!(sphere(-1.0, 0.5).hit(&forward(), 0, fx(0.4)).is_none());
    assert!(sphere(-1.0, 0.5).hit(&forward(), fx(1.6), i64::MAX).is_none());
}

#[test]
fn roots_are_symmetric_about_the_center_projection() {
    let s = sphere(-3.0, 1.0);
    let near = s.hit(&forward(), 0, i64::MAX).unwrap().t;
    let far = s.hit(&forward(), near + 1, i64::MAX).unwrap().t;
    assert_eq!(near, fx(2.0));
    assert_eq!(far, fx(4.0));
    assert!((near + far - 2 * fx(3.0)).abs() <= 3);
    let slanted = Ray { origin: Vec3(fx(0.2), 0, 0), direction: Vec3(0, 0, -fx(2.0)) };
    let near = s.hit(&slanted, 0, i64::MAX).unwrap().t;
    let far = s.hit(&slanted, near + 1, i64::MAX).unwrap().t;
    assert!((near + far - 2 * fx(1.5)).abs() <= 3);
}

#[test]
fn hit_normals_oppose_the_ray() {
    let s = Object::Sphere { center: Vec3(fx(0.3), fx(-0.2), fx(-2.0)), radius: fx(1.0), material: matte() };
    let dirs = [
        Vec3(0, 0, -ONE),
        Vec3(fx(0.3), fx(0.1), -ONE),
        Vec3(fx(-0.4), fx(-0.3), fx(-2.0)),
        Vec3(fx(0.5), 0, -ONE),
    ];
    for d in dirs {
        let r = Ray { origin: Vec3(0, 0, 0), direction: d };
        for t_min in [0, fx(2.0)] {
            if let Some(h) = s.hit(&r, t_min, i64::MAX) {
                assert!(d.dot(h.normal) <= 0);
            }
        }
    }
}

#[test]
fn closest_hit_regardless_of_order() {
    let near = sphere(-2.0, 0.5);
    let far = sphere(-2.5, 0.5);
    let a = hit_scene(&[near, far], &forward(), 0, i64::MAX).unwrap();
    let b = hit_scene(&[far, near], &forward(), 0, i64::MAX).unwrap();
    assert_eq!(a.t, fx(1.5));
    assert_eq!(a, b);
}

#[test]
fn scene_hit_respects_the_window() {
    let near = sphere(-2.0, 0.5);
    let far = sphere(-5.0, 0.5);
    assert!(hit_scene(&[], &forward(), 0, i64::MAX).is_none());
    let h = hit_scene(&[near, far], &forward(), fx(3.0), i64::MAX).unwrap();
    assert_eq!(h.t, fx(4.5));
    assert!(hit_scene(&[near, far], &forward(), 0, fx(1.0)).is_none());
}
