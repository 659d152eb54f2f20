use pathtracer::fixed::{isqrt, saturate, trunc_div, LIMIT, ONE};
use pathtracer::vec3::{Vec3, NORMALIZE_TOLERANCE, REFLECT_TOLERANCE};
use rand::SeedableRng;
use rand_xoshiro::Xoshiro256Plus;

fn fx(x: f64) -> i64 {
    (x * ONE as f64).round() as i64
}

#[test]
fn arithmetic_is_componentwise() {
    let a = Vec3(fx(1.0), fx(-2.0), fx(3.5));
    let b = Vec3(fx(0.5), fx(4.0), fx(-1.0));
    assert_eq!(a.add(b), Vec3(fx(1.5), fx(2.0), fx(2.5)));
    assert_eq!(a.sub(b), Vec3(fx(0.5), fx(-6.0), fx(4.5)));
    assert_eq!(a.neg(), Vec3(fx(-1.0), fx(2.0), fx(-3.5)));
    assert_eq!(a.mul(b), Vec3(fx(0.5), fx(-8.0), fx(-3.5)));
    assert_eq!(a.scale(fx(2.0)), Vec3(fx(2.0), fx(-4.0), fx(7.0)));
    assert_eq!(a.div(fx(2.0)), Vec3(fx(0.5), fx(-1.0), fx(1.75)));
    let mut c = a;
    c.add_assign(b);
    assert_eq!(c, a.add(b));
}

#[test]
fn components_saturate_at_the_limit() {
    let big = Vec3(LIMIT, -LIMIT, 0);
    assert_eq!(big.add(big), Vec3(LIMIT, -LIMIT, 0));
    assert_eq!(big.scale(fx(3.0)), Vec3(LIMIT, -LIMIT, 0));
    assert_eq!(saturate(i128::MAX), LIMIT);
    assert_eq!(saturate(-5), -5);
}

#[test]
fn division_truncates_toward_zero() {
    assert_eq!(trunc_div(7, 2), 3);
    assert_eq!(trunc_div(-7, 2), -3);
    assert_eq!(trunc_div(7, -2), -3);
    assert_eq!(trunc_div(-7, -2), 3);
}

#[test]
fn integer_square_root() {
    assert_eq!(isqrt(0), 0);
    assert_eq!(isqrt(1), 1);
    assert_eq!(isqrt(24), 4);
    assert_eq!(isqrt(25), 5);
    assert_eq!(isqrt(u128::MAX), u64::MAX as u128);
}

#[test]
fn dot_cross_and_lengths() {
    let x = Vec3(ONE, 0, 0);
    let y = Vec3(0, ONE, 0);
    assert_eq!(x.cross(y), Vec3(0, 0, ONE));
    assert_eq!(y.cross(x), Vec3(0, 0, -ONE));
    assert_eq!(x.dot(y), 0);
    let v = Vec3(fx(3.0), fx(4.0), 0);
    assert_eq!(v.dot(v), fx(25.0));
    assert_eq!(v.squared_length(), fx(25.0));
    assert_eq!(v.length(), fx(5.0));
}

#[test]
fn normalize_gives_unit_length() {
    let v = Vec3(fx(3.0), fx(4.0), 0);
    let n = v.normalize();
    assert!((n.0 - fx(0.6)).abs() <= 1);
    assert!((n.1 - fx(0.8)).abs() <= 1);
    assert_eq!(n.2, 0);
    for v in [
        Vec3(1, 1, 0),
        Vec3(1, 0, 0),
        Vec3(-7, 3, 12345),
        Vec3(LIMIT, LIMIT, -LIMIT),
        Vec3(fx(0.001), fx(-2.0), fx(100.0)),
    ] {
        let len = v.normalize().length();
        assert!(len <= ONE && len >= ONE - NORMALIZE_TOLERANCE, "length {}", len);
    }
}

#[test]
fn near_zero_means_zero_at_this_precision() {
    assert!(Vec3(0, 0, 0).is_near_zero());
    assert!(!Vec3(0, 1, 0).is_near_zero());
    assert!(!Vec3(0, 0, -1).is_near_zero());
}

#[test]
fn reflection_reverses_the_normal_component() {
    let v = Vec3(fx(1.0), fx(-1.0), 0).normalize();
    let n = Vec3(0, ONE, 0);
    let r = v.reflect(n);
    assert_eq!(r, Vec3(v.0, -v.1, 0));
    for (v, n) in [
        (Vec3(fx(0.3), fx(-0.5), fx(0.8)), Vec3(fx(0.1), fx(0.9), fx(-0.2))),
        (Vec3(fx(-1.0), fx(2.0), fx(-3.0)), Vec3(fx(4.0), fx(1.0), fx(1.0))),
    ] {
        let (v, n) = (v.normalize(), n.normalize());
        let sum = v.reflect(n).dot(n) + v.dot(n);
        assert!(sum.abs() <= REFLECT_TOLERANCE, "sum {}", sum);
    }
}

#[test]
fn refraction_at_normal_incidence_goes_straight() {
    let uv = Vec3(0, 0, -ONE);
    let n = Vec3(0, 0, ONE);
    let r = uv.refract(n, fx(1.0 / 1.5));
    assert_eq!(r, Vec3(0, 0, -ONE));
}

#[test]
fn refraction_bends_toward_the_normal_entering_glass() {
    let uv = Vec3(fx(1.0), fx(-1.0), 0).normalize();
    let n = Vec3(0, ONE, 0);
    let r = uv.refract(n, fx(1.0 / 1.5));
    // sin of the refracted angle is sin(45 degrees) / 1.5.
    let expected = (0.5f64.sqrt()) / 1.5;
    assert!(((r.0 as f64 / ONE as f64) - expected).abs() < 1e-3);
    assert!(r.1 < 0);
}

#[test]
fn random_draws_stay_in_their_ranges() {
    let mut rng = Xoshiro256Plus::seed_from_u64(7);
    let mut seen = std::collections::HashSet::new();
    for _ in 0..200 {
        let v = Vec3::random(&mut rng);
        for c in [v.0, v.1, v.2] {
            assert!((0..ONE).contains(&c));
        }
        seen.insert(v.0);
        let w = Vec3::random_in_range(-ONE, fx(0.5), &mut rng);
        for c in [w.0, w.1, w.2] {
            assert!((-ONE..fx(0.5)).contains(&c));
        }
        let b = Vec3::random_in_unit_sphere(&mut rng);
        assert!((b.0 as i128).pow(2) + (b.1 as i128).pow(2) + (b.2 as i128).pow(2) < (ONE as i128).pow(2));
        let d = Vec3::random_in_unit_disk(&mut rng);
        assert_eq!(d.2, 0);
        assert!((d.0 as i128).pow(2) + (d.1 as i128).pow(2) < (ONE as i128).pow(2));
    }
    assert!(seen.len() > 100);
}

#[test]
fn sampler_acceptance_tests() {
    assert_eq!(Vec3::ball_candidate(Vec3(fx(0.5), fx(0.5), fx(0.5))), Some(Vec3(fx(0.5), fx(0.5), fx(0.5))));
    assert_eq!(Vec3::ball_candidate(Vec3(fx(0.6), fx(0.6), fx(0.6))), None);
    assert_eq!(Vec3::ball_candidate(Vec3(ONE, 0, 0)), None);
    assert_eq!(Vec3::ball_candidate(Vec3(ONE - 1, 0, 0)), Some(Vec3(ONE - 1, 0, 0)));
    assert_eq!(Vec3::disk_candidate(fx(0.7), fx(0.7)), Some(Vec3(fx(0.7), fx(0.7), 0)));
    assert_eq!(Vec3::disk_candidate(fx(0.8), fx(0.8)), None);
    assert_eq!(Vec3::disk_candidate(-ONE, 0), None);
    assert_eq!(Vec3::disk_candidate(0, 0), Some(Vec3(0, 0, 0)));
}

#[test]
fn samplers_spread_over_the_ball_and_disk() {
    let mut rng = Xoshiro256Plus::seed_from_u64(21);
    let (mut ball_signs, mut disk_signs) = ([0usize; 2], [0usize; 2]);
    for _ in 0..400 {
        let b = Vec3::random_in_unit_sphere(&mut rng);
        ball_signs[(b.0 >= 0) as usize] += 1;
        let d = Vec3::random_in_unit_disk(&mut rng);
        disk_signs[(d.1 >= 0) as usize] += 1;
    }
    assert!(ball_signs[0] > 100 && ball_signs[1] > 100);
    assert!(disk_signs[0] > 100 && disk_signs[1] > 100);
}
