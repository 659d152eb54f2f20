//! The integrator, which follows a ray through its bounces, and the pixel
//! sampler, which averages many such rays into a color.
use crate::camera::{camera_ray, in_unit_disk, Camera};
use crate::fixed::{clamp, clamp_spec, fx_mul, isqrt, lemma_fx_mul_attenuates, sqrt_floor, tdiv, LIMIT, ONE};
use crate::sampling::gen_range;
use crate::material::{in_unit_ball, is_albedo, scatter_spec, white, Material};
use crate::object::{Hit, Object};
use crate::ray::Ray;
use crate::scene::{hit_scene, lemma_scene_hit_is_closest, scene_hit, scene_wf};
use crate::vec3::{lemma_normalize_components, vadd, vmul, vnormalize, vscale, Vec3};
use rand_xoshiro::Xoshiro256Plus;
use vstd::prelude::*;

verus! {

/// The smallest ray parameter at which a hit counts (the real `0.001`), so
/// that a scattered ray does not hit the surface it leaves.
pub const HIT_T_MIN: i64 = 66;

/// The sky color at the zenith (the real `(0.5, 0.7, 1.0)`).
pub const SKY_R: i64 = 32768;
pub const SKY_G: i64 = 45875;
pub const SKY_B: i64 = 65536;

pub open spec fn black() -> Vec3 {
    Vec3(0, 0, 0)
}

pub open spec fn sky_blue() -> Vec3 {
    Vec3(SKY_R, SKY_G, SKY_B)
}

/// Where a direction points between the nadir (`0`) and the zenith (`1`).
pub open spec fn sky_t(direction: Vec3) -> int {
    tdiv(vnormalize(direction).1 + ONE, 2)
}

/// The background seen along `direction`: white blended toward sky blue as
/// the direction rises.
pub open spec fn sky_color(direction: Vec3) -> Vec3 {
    let t = sky_t(direction);
    vadd(vscale(white(), ONE - t), vscale(sky_blue(), t))
}

/// The random draws one bounce consumes: a point of the unit ball and a
/// number of `[0, 1)`.
pub open spec fn valid_draw(d: (Vec3, int)) -> bool {
    in_unit_ball(d.0) && 0 <= d.1 < ONE
}

pub open spec fn valid_draws(ds: Seq<(Vec3, int)>) -> bool {
    forall|i: int| 0 <= i < ds.len() ==> #[trigger] valid_draw(ds[i])
}

/// The light arriving along `ray`, dimmed by `throughput`, with at most
/// `depth` more bounces and the draws `draws` for them. A ray without a
/// direction carries no light.
pub open spec fn trace(scene: Seq<Object>, ray: Ray, throughput: Vec3, depth: int, draws: Seq<(Vec3, int)>) -> Vec3
    decreases depth,
{
    if depth < 1 || ray.direction.is_zero() {
        black()
    } else {
        match scene_hit(scene, ray, HIT_T_MIN as int, i64::MAX as int) {
            None => vmul(throughput, sky_color(ray.direction)),
            Some(hit) => match scatter_spec(hit.material, ray, hit, draws[0].0, draws[0].1) {
                None => black(),
                Some((attenuation, scattered)) => trace(
                    scene,
                    scattered,
                    vmul(throughput, attenuation),
                    depth - 1,
                    draws.drop_first(),
                ),
            },
        }
    }
}

/// The background color along a direction, which must not be zero.
pub fn sky(direction: Vec3) -> (r: Vec3)
    requires
        direction.wf(),
        !direction.is_zero(),
    ensures
        r == sky_color(direction),
        r.wf(),
{
    let unit = direction.normalize();
    proof {
        lemma_normalize_components(direction);
    }
    let t = (unit.1 + ONE) / 2;
    Vec3(ONE, ONE, ONE).scale(ONE - t).add(Vec3(SKY_R, SKY_G, SKY_B).scale(t))
}

/// Every channel of `a` is at most the same channel of `b`.
pub open spec fn color_le(a: Vec3, b: Vec3) -> bool {
    a.0 <= b.0 && a.1 <= b.1 && a.2 <= b.2
}

/// The background is a color with channels in `[0, 1]`.
pub proof fn lemma_sky_in_unit(direction: Vec3)
    requires
        direction.wf(),
        !direction.is_zero(),
    ensures
        is_albedo(sky_color(direction)),
{
    lemma_normalize_components(direction);
    let t = sky_t(direction);
    assert(0 <= t <= ONE);
    assert(fx_mul(ONE as int, ONE - t) == ONE - t);
    lemma_fx_mul_attenuates(t, t, SKY_R as int);
    lemma_fx_mul_attenuates(t, t, SKY_G as int);
    lemma_fx_mul_attenuates(t, t, SKY_B as int);
    assert(fx_mul(SKY_R as int, t) == fx_mul(t, SKY_R as int));
    assert(fx_mul(SKY_G as int, t) == fx_mul(t, SKY_G as int));
    assert(fx_mul(SKY_B as int, t) == fx_mul(t, SKY_B as int));
}

/// The closest hit in a well-formed scene carries a well-formed material.
pub proof fn lemma_hit_material_wf(scene: Seq<Object>, ray: Ray)
    requires
        scene_wf(scene),
    ensures
        scene_hit(scene, ray, HIT_T_MIN as int, i64::MAX as int) matches Some(h) ==> h.material.wf()
            && h.point.wf() && h.normal.wf(),
{
    lemma_scene_hit_is_closest(scene, ray, HIT_T_MIN as int, i64::MAX as int);
    if let Some(h) = scene_hit(scene, ray, HIT_T_MIN as int, i64::MAX as int) {
        let i = choose|i: int|
            0 <= i < scene.len() && #[trigger] scene[i].hit_spec(ray, HIT_T_MIN as int, i64::MAX as int) == Some(h);
        assert(scene[i].wf());
    }
}

/// A scattered ray is well formed.
pub proof fn lemma_scatter_wf(m: Material, ray: Ray, hit: Hit, ball: Vec3, uniform: int)
    requires
        hit.point.wf(),
        hit.normal.wf(),
    ensures
        scatter_spec(m, ray, hit, ball, uniform) matches Some((a, out)) ==> out.wf(),
{
}

/// Light is never amplified: with albedos in `[0, 1]`, the light traced
/// along any ray has channels in `[0, 1]` and never exceeds the throughput
/// it started with.
pub proof fn lemma_trace_bounded(scene: Seq<Object>, ray: Ray, throughput: Vec3, depth: int, draws: Seq<(Vec3, int)>)
    requires
        scene_wf(scene),
        ray.wf(),
        is_albedo(throughput),
    ensures
        is_albedo(trace(scene, ray, throughput, depth, draws)),
        color_le(trace(scene, ray, throughput, depth, draws), throughput),
    decreases depth,
{
    if depth >= 1 && !ray.direction.is_zero() {
        lemma_hit_material_wf(scene, ray);
        if let Some(hit) = scene_hit(scene, ray, HIT_T_MIN as int, i64::MAX as int) {
            lemma_scatter_wf(hit.material, ray, hit, draws[0].0, draws[0].1);
        }
        match scene_hit(scene, ray, HIT_T_MIN as int, i64::MAX as int) {
            None => {
                lemma_sky_in_unit(ray.direction);
                let c = sky_color(ray.direction);
                lemma_fx_mul_attenuates(throughput.0 as int, throughput.0 as int, c.0 as int);
                lemma_fx_mul_attenuates(throughput.1 as int, throughput.1 as int, c.1 as int);
                lemma_fx_mul_attenuates(throughput.2 as int, throughput.2 as int, c.2 as int);
            },
            Some(hit) => {
                match scatter_spec(hit.material, ray, hit, draws[0].0, draws[0].1) {
                    None => {},
                    Some((attenuation, scattered)) => {
                        let a = attenuation;
                        lemma_fx_mul_attenuates(throughput.0 as int, throughput.0 as int, a.0 as int);
                        lemma_fx_mul_attenuates(throughput.1 as int, throughput.1 as int, a.1 as int);
                        lemma_fx_mul_attenuates(throughput.2 as int, throughput.2 as int, a.2 as int);
                        lemma_trace_bounded(scene, scattered, vmul(throughput, a), depth - 1, draws.drop_first());
                    },
                }
            },
        }
    }
}

/// More throughput never yields less light.
pub proof fn lemma_trace_throughput_monotone(
    scene: Seq<Object>,
    ray: Ray,
    t1: Vec3,
    t2: Vec3,
    depth: int,
    draws: Seq<(Vec3, int)>,
)
    requires
        scene_wf(scene),
        ray.wf(),
        is_albedo(t1),
        is_albedo(t2),
        color_le(t1, t2),
    ensures
        color_le(trace(scene, ray, t1, depth, draws), trace(scene, ray, t2, depth, draws)),
    decreases depth,
{
    if depth >= 1 && !ray.direction.is_zero() {
        lemma_hit_material_wf(scene, ray);
        if let Some(hit) = scene_hit(scene, ray, HIT_T_MIN as int, i64::MAX as int) {
            lemma_scatter_wf(hit.material, ray, hit, draws[0].0, draws[0].1);
        }
        match scene_hit(scene, ray, HIT_T_MIN as int, i64::MAX as int) {
            None => {
                lemma_sky_in_unit(ray.direction);
                let c = sky_color(ray.direction);
                lemma_fx_mul_attenuates(t1.0 as int, t2.0 as int, c.0 as int);
                lemma_fx_mul_attenuates(t1.1 as int, t2.1 as int, c.1 as int);
                lemma_fx_mul_attenuates(t1.2 as int, t2.2 as int, c.2 as int);
            },
            Some(hit) => {
                match scatter_spec(hit.material, ray, hit, draws[0].0, draws[0].1) {
                    None => {},
                    Some((a, scattered)) => {
                        lemma_fx_mul_attenuates(t1.0 as int, t2.0 as int, a.0 as int);
                        lemma_fx_mul_attenuates(t1.1 as int, t2.1 as int, a.1 as int);
                        lemma_fx_mul_attenuates(t1.2 as int, t2.2 as int, a.2 as int);
                        lemma_fx_mul_attenuates(t2.0 as int, t2.0 as int, a.0 as int);
                        lemma_fx_mul_attenuates(t2.1 as int, t2.1 as int, a.1 as int);
                        lemma_fx_mul_attenuates(t2.2 as int, t2.2 as int, a.2 as int);
                        lemma_trace_throughput_monotone(
                            scene,
                            scattered,
                            vmul(t1, a),
                            vmul(t2, a),
                            depth - 1,
                            draws.drop_first(),
                        );
                    },
                }
            },
        }
    }
}

/// Each bounce can only attenuate: the light returned along a ray that
/// scatters is at most the light its scattered ray, with one bounce fewer,
/// would return.
pub proof fn lemma_bounce_attenuates(scene: Seq<Object>, ray: Ray, throughput: Vec3, depth: int, draws: Seq<(Vec3, int)>)
    requires
        scene_wf(scene),
        ray.wf(),
        is_albedo(throughput),
        depth >= 1,
        !ray.direction.is_zero(),
        scene_hit(scene, ray, HIT_T_MIN as int, i64::MAX as int) matches Some(hit)
            && scatter_spec(hit.material, ray, hit, draws[0].0, draws[0].1) is Some,
    ensures
        ({
            let hit = scene_hit(scene, ray, HIT_T_MIN as int, i64::MAX as int)->Some_0;
            let scattered = scatter_spec(hit.material, ray, hit, draws[0].0, draws[0].1)->Some_0.1;
            color_le(
                trace(scene, ray, throughput, depth, draws),
                trace(scene, scattered, throughput, depth - 1, draws.drop_first()),
            )
        }),
{
    lemma_hit_material_wf(scene, ray);
    let hit = scene_hit(scene, ray, HIT_T_MIN as int, i64::MAX as int)->Some_0;
    lemma_scatter_wf(hit.material, ray, hit, draws[0].0, draws[0].1);
    let hit = scene_hit(scene, ray, HIT_T_MIN as int, i64::MAX as int)->Some_0;
    let (a, scattered) = scatter_spec(hit.material, ray, hit, draws[0].0, draws[0].1)->Some_0;
    lemma_fx_mul_attenuates(throughput.0 as int, throughput.0 as int, a.0 as int);
    lemma_fx_mul_attenuates(throughput.1 as int, throughput.1 as int, a.1 as int);
    lemma_fx_mul_attenuates(throughput.2 as int, throughput.2 as int, a.2 as int);
    lemma_trace_throughput_monotone(scene, scattered, vmul(throughput, a), throughput, depth - 1, draws.drop_first());
}

/// Tracing from `ray0` with the draws `drawn` already consumed has reached
/// `cur`, with `throughput` left and `remaining` bounces to go.
#[verifier::opaque]
spec fn trace_resumes(
    scene: Seq<Object>,
    ray0: Ray,
    depth0: int,
    drawn: Seq<(Vec3, int)>,
    cur: Ray,
    throughput: Vec3,
    remaining: int,
) -> bool {
    forall|f: Seq<(Vec3, int)>|
        trace(scene, ray0, white(), depth0, #[trigger] (drawn + f)) == trace(scene, cur, throughput, remaining, f)
}

proof fn lemma_trace_start(scene: Seq<Object>, ray: Ray, depth: int)
    ensures
        trace_resumes(scene, ray, depth, seq![], ray, white(), depth),
{
    reveal(trace_resumes);
    assert forall|f: Seq<(Vec3, int)>|
        trace(scene, ray, white(), depth, #[trigger] (Seq::<(Vec3, int)>::empty() + f)) == trace(scene, ray, white(), depth, f) by {
        assert(Seq::<(Vec3, int)>::empty() + f =~= f);
    }
}

/// Where tracing stops, the draws so far give its result.
proof fn lemma_trace_stop(
    scene: Seq<Object>,
    ray0: Ray,
    depth0: int,
    drawn: Seq<(Vec3, int)>,
    cur: Ray,
    throughput: Vec3,
    remaining: int,
)
    requires
        trace_resumes(scene, ray0, depth0, drawn, cur, throughput, remaining),
    ensures
        trace(scene, ray0, white(), depth0, drawn) == trace(scene, cur, throughput, remaining, seq![]),
{
    reveal(trace_resumes);
    assert(drawn + seq![] =~= drawn);
    assert(trace(scene, ray0, white(), depth0, drawn + seq![]) == trace(scene, cur, throughput, remaining, seq![]));
}

/// One bounce, with the draw `x`.
proof fn lemma_trace_step(
    scene: Seq<Object>,
    ray0: Ray,
    depth0: int,
    drawn: Seq<(Vec3, int)>,
    cur: Ray,
    throughput: Vec3,
    remaining: int,
    x: (Vec3, int),
)
    requires
        trace_resumes(scene, ray0, depth0, drawn, cur, throughput, remaining),
        remaining >= 1,
        !cur.direction.is_zero(),
        scene_hit(scene, cur, HIT_T_MIN as int, i64::MAX as int) is Some,
    ensures
        ({
            let hit = scene_hit(scene, cur, HIT_T_MIN as int, i64::MAX as int)->Some_0;
            match scatter_spec(hit.material, cur, hit, x.0, x.1) {
                None => trace(scene, ray0, white(), depth0, drawn.push(x)) == black(),
                Some((attenuation, out)) => trace_resumes(
                    scene,
                    ray0,
                    depth0,
                    drawn.push(x),
                    out,
                    vmul(throughput, attenuation),
                    remaining - 1,
                ),
            }
        }),
{
    reveal(trace_resumes);
    let hit = scene_hit(scene, cur, HIT_T_MIN as int, i64::MAX as int)->Some_0;
    let next = drawn.push(x);
    match scatter_spec(hit.material, cur, hit, x.0, x.1) {
        None => {
            assert(next =~= drawn + seq![x]);
            assert(seq![x][0] == x);
            assert(trace(scene, ray0, white(), depth0, drawn + seq![x]) == trace(scene, cur, throughput, remaining, seq![x]));
        },
        Some((attenuation, out)) => {
            assert forall|f: Seq<(Vec3, int)>|
                trace(scene, ray0, white(), depth0, #[trigger] (next + f)) == trace(
                    scene,
                    out,
                    vmul(throughput, attenuation),
                    remaining - 1,
                    f,
                ) by {
                assert(next + f =~= drawn + (seq![x] + f));
                assert((seq![x] + f)[0] == x);
                assert((seq![x] + f).drop_first() =~= f);
                assert(trace(scene, ray0, white(), depth0, drawn + (seq![x] + f)) == trace(scene, cur, throughput, remaining, seq![x] + f));
            }
        },
    }
}

/// The light arriving along `ray` through at most `depth` bounces in
/// `scene`, drawing the bounces' randomness from `rng`.
pub fn ray_color(ray: &Ray, scene: &[Object], depth: i32, rng: &mut Xoshiro256Plus) -> (r: Vec3)
    requires
        ray.wf(),
        scene_wf(scene@),
    ensures
        exists|draws: Seq<(Vec3, int)>|
            valid_draws(draws) && r == trace(scene@, *ray, white(), depth as int, draws),
        is_albedo(r),
{
    let mut cur = *ray;
    let mut throughput = Vec3(ONE, ONE, ONE);
    let mut remaining = depth;
    let ghost mut drawn: Seq<(Vec3, int)> = seq![];
    proof {
        lemma_trace_start(scene@, *ray, depth as int);
    }
    loop
        invariant
            cur.wf(),
            ray.wf(),
            throughput.wf(),
            scene_wf(scene@),
            valid_draws(drawn),
            trace_resumes(scene@, *ray, depth as int, drawn, cur, throughput, remaining as int),
        decreases remaining,
    {
        if remaining < 1 || cur.direction.is_near_zero() {
            proof {
                lemma_trace_stop(scene@, *ray, depth as int, drawn, cur, throughput, remaining as int);
                lemma_trace_bounded(scene@, *ray, white(), depth as int, drawn);
            }
            return Vec3(0, 0, 0);
        }
        match hit_scene(scene, &cur, HIT_T_MIN, i64::MAX) {
            None => {
                let r = throughput.mul(sky(cur.direction));
                proof {
                    lemma_trace_stop(scene@, *ray, depth as int, drawn, cur, throughput, remaining as int);
                    lemma_trace_bounded(scene@, *ray, white(), depth as int, drawn);
                }
                return r;
            },
            Some(hit) => {
                let scattered = hit.material.scatter(&cur, &hit, rng);
                let ghost x: (Vec3, int);
                proof {
                    let (ball, u) = choose|ball: Vec3, uniform: int|
                        in_unit_ball(ball) && 0 <= uniform < ONE && scattered == scatter_spec(
                            hit.material,
                            cur,
                            hit,
                            ball,
                            uniform,
                        );
                    x = (ball, u);
                    assert(valid_draw(x));
                    lemma_trace_step(scene@, *ray, depth as int, drawn, cur, throughput, remaining as int, x);
                    let next = drawn.push(x);
                    assert(valid_draws(next)) by {
                        assert(forall|i: int| 0 <= i < drawn.len() ==> next[i] == drawn[i]);
                    }
                }
                match scattered {
                    None => {
                        proof {
                            lemma_trace_bounded(scene@, *ray, white(), depth as int, drawn.push(x));
                        }
                        return Vec3(0, 0, 0);
                    },
                    Some((attenuation, out)) => {
                        proof {
                            drawn = drawn.push(x);
                        }
                        throughput = throughput.mul(attenuation);
                        cur = out;
                        remaining = remaining - 1;
                    },
                }
            },
        }
    }
}

/// The largest image side the sampler accepts.
pub const MAX_IMAGE_SIDE: usize = 65536;

/// The most samples per pixel the sampler accepts.
pub const MAX_SAMPLES_PER_PIXEL: usize = 1048576;

/// The largest gamma-corrected channel value before scaling to a byte (the
/// real `0.999`), so that a full channel maps to 255 rather than 256.
pub const GAMMA_CLAMP_MAX: i64 = 65470;

/// What the pixel sampler is asked to produce.
pub struct RenderSettings {
    pub image_width: usize,
    pub image_height: usize,
    pub samples_per_pixel: usize,
    pub max_depth: i32,
}

impl RenderSettings {
    pub open spec fn wf(self) -> bool {
        &&& 2 <= self.image_width <= MAX_IMAGE_SIDE
        &&& 2 <= self.image_height <= MAX_IMAGE_SIDE
        &&& 1 <= self.samples_per_pixel <= MAX_SAMPLES_PER_PIXEL
    }
}

/// The image-plane coordinate in `[0, 1]` of pixel `p`, jittered by `jitter`
/// of `[0, 1)`, along a side of `side` pixels.
pub open spec fn image_coord(p: int, jitter: int, side: int) -> int {
    (p * ONE + jitter) / (side - 1)
}

/// The color of one sample of pixel `(x, y)`, given its draws.
pub open spec fn sample_color(
    settings: RenderSettings,
    cam: Camera,
    scene: Seq<Object>,
    x: int,
    y: int,
    ju: int,
    jv: int,
    disk: Vec3,
    draws: Seq<(Vec3, int)>,
) -> Vec3 {
    trace(
        scene,
        camera_ray(
            cam,
            image_coord(x, ju, settings.image_width as int),
            image_coord(y, jv, settings.image_height as int),
            disk,
        ),
        white(),
        settings.max_depth as int,
        draws,
    )
}

/// `c` is the color of some sample of pixel `(x, y)`.
pub open spec fn is_sample(settings: RenderSettings, cam: Camera, scene: Seq<Object>, x: int, y: int, c: Vec3) -> bool {
    exists|ju: int, jv: int, disk: Vec3, draws: Seq<(Vec3, int)>|
        0 <= ju < ONE && 0 <= jv < ONE && in_unit_disk(disk) && valid_draws(draws) && c
            == #[trigger] sample_color(settings, cam, scene, x, y, ju, jv, disk, draws)
}

pub open spec fn channel(c: Vec3, ch: int) -> int {
    if ch == 0 {
        c.0 as int
    } else if ch == 1 {
        c.1 as int
    } else {
        c.2 as int
    }
}

/// The sum of channel `ch` over `cs`.
pub open spec fn channel_sum(cs: Seq<Vec3>, ch: int) -> int
    decreases cs.len(),
{
    if cs.len() == 0 {
        0
    } else {
        channel_sum(cs.drop_last(), ch) + channel(cs.last(), ch)
    }
}

/// The channel-wise average of `cs`, rounded down.
pub open spec fn average(cs: Seq<Vec3>) -> Vec3 {
    Vec3(
        (channel_sum(cs, 0) / cs.len() as int) as i64,
        (channel_sum(cs, 1) / cs.len() as int) as i64,
        (channel_sum(cs, 2) / cs.len() as int) as i64,
    )
}

/// `c` is the average of `samples_per_pixel` samples of pixel `(x, y)`.
pub open spec fn is_pixel_color(settings: RenderSettings, cam: Camera, scene: Seq<Object>, x: int, y: int, c: Vec3) -> bool {
    exists|cs: Seq<Vec3>|
        cs.len() == settings.samples_per_pixel && (forall|i: int|
            0 <= i < cs.len() ==> is_sample(settings, cam, scene, x, y, #[trigger] cs[i])) && c == average(cs)
}

/// The byte for a linear channel: gamma 2 (a square root), clamped to
/// `[0, 0.999]`, scaled to `[0, 256)`. Negative channels count as zero.
pub open spec fn gamma_byte(c: int) -> int {
    (256 * clamp_spec(sqrt_floor(clamp_spec(c, 0, LIMIT as int) * ONE), 0, GAMMA_CLAMP_MAX as int)) / (ONE as int)
}

pub open spec fn rgb_spec(c: Vec3) -> (u8, u8, u8) {
    (gamma_byte(c.0 as int) as u8, gamma_byte(c.1 as int) as u8, gamma_byte(c.2 as int) as u8)
}

/// A byte in `[0, 255]` for one linear channel.
pub fn channel_byte(c: i64) -> (r: u8)
    ensures
        r == gamma_byte(c as int),
{
    let linear = clamp(c, 0, LIMIT);
    let g = isqrt((linear * ONE) as u128);
    assert(g <= 0x80_0000) by (nonlinear_arith)
        requires
            g * g <= linear * ONE,
            0 <= linear <= LIMIT,
            g >= 0,
    ;
    let corrected = clamp(g as i64, 0, GAMMA_CLAMP_MAX);
    ((256 * corrected) / ONE) as u8
}

/// The 8-bit RGB triple for a linear color.
pub fn to_rgb8(color: Vec3) -> (r: (u8, u8, u8))
    ensures
        r == rgb_spec(color),
{
    (channel_byte(color.0), channel_byte(color.1), channel_byte(color.2))
}

proof fn lemma_channel_sum_push(cs: Seq<Vec3>, c: Vec3, ch: int)
    ensures
        channel_sum(cs.push(c), ch) == channel_sum(cs, ch) + channel(c, ch),
{
    assert(cs.push(c).drop_last() =~= cs);
}

/// The average of sums of `n` values in `[0, 1]` lies in `[0, 1]`.
proof fn lemma_average_bound(s: int, n: int)
    requires
        n > 0,
        0 <= s <= n * ONE,
    ensures
        0 <= s / n <= ONE,
{
    assert(0 <= s / n <= ONE) by (nonlinear_arith)
        requires
            n > 0,
            0 <= s <= n * ONE,
    ;
}

/// The color of pixel `(x, y)`: the average of `samples_per_pixel` jittered
/// samples, each traced through at most `max_depth` bounces.
pub fn pixel_color(
    x: usize,
    y: usize,
    settings: &RenderSettings,
    camera: &Camera,
    scene: &[Object],
    rng: &mut Xoshiro256Plus,
) -> (r: Vec3)
    requires
        settings.wf(),
        x < settings.image_width,
        y < settings.image_height,
        camera.wf(),
        scene_wf(scene@),
    ensures
        is_pixel_color(*settings, *camera, scene@, x as int, y as int, r),
        is_albedo(r),
{
    let n = settings.samples_per_pixel;
    let mut sum0: i64 = 0;
    let mut sum1: i64 = 0;
    let mut sum2: i64 = 0;
    let ghost mut cs: Seq<Vec3> = seq![];
    let mut k: usize = 0;
    while k < n
        invariant
            k <= n,
            n == settings.samples_per_pixel,
            settings.wf(),
            x < settings.image_width,
            y < settings.image_height,
            camera.wf(),
            scene_wf(scene@),
            cs.len() == k,
            forall|i: int| 0 <= i < k ==> is_sample(*settings, *camera, scene@, x as int, y as int, #[trigger] cs[i]),
            sum0 == channel_sum(cs, 0),
            sum1 == channel_sum(cs, 1),
            sum2 == channel_sum(cs, 2),
            0 <= sum0 <= k * ONE,
            0 <= sum1 <= k * ONE,
            0 <= sum2 <= k * ONE,
        decreases n - k,
    {
        let ju = gen_range(rng, 0, ONE);
        let jv = gen_range(rng, 0, ONE);
        let u = (x as i64 * ONE + ju) / (settings.image_width - 1) as i64;
        let v = (y as i64 * ONE + jv) / (settings.image_height - 1) as i64;
        let ray = camera.get_ray(u, v, rng);
        let c = ray_color(&ray, scene, settings.max_depth, rng);
        proof {
            let disk = choose|disk: Vec3| in_unit_disk(disk) && ray == camera_ray(*camera, u as int, v as int, disk);
            let draws = choose|draws: Seq<(Vec3, int)>|
                valid_draws(draws) && c == trace(scene@, ray, white(), settings.max_depth as int, draws);
            assert(u == image_coord(x as int, ju as int, settings.image_width as int));
            assert(v == image_coord(y as int, jv as int, settings.image_height as int));
            assert(c == sample_color(*settings, *camera, scene@, x as int, y as int, ju as int, jv as int, disk, draws));
            lemma_channel_sum_push(cs, c, 0);
            lemma_channel_sum_push(cs, c, 1);
            lemma_channel_sum_push(cs, c, 2);
            let next = cs.push(c);
            assert forall|i: int| 0 <= i < k + 1 implies is_sample(*settings, *camera, scene@, x as int, y as int, #[trigger] next[i]) by {
                if i < k {
                    assert(next[i] == cs[i]);
                }
            }
            cs = next;
        }
        sum0 = sum0 + c.0;
        sum1 = sum1 + c.1;
        sum2 = sum2 + c.2;
        k = k + 1;
    }
    proof {
        lemma_average_bound(sum0 as int, n as int);
        lemma_average_bound(sum1 as int, n as int);
        lemma_average_bound(sum2 as int, n as int);
    }
    let r = Vec3(sum0 / n as i64, sum1 / n as i64, sum2 / n as i64);
    assert(r == average(cs));
    r
}

/// Entry `row * width + col` of `out` is the byte triple of a color that
/// pixel `(col, height - 1 - row)` may have: rows run from the top of the
/// image down, columns left to right.
pub open spec fn pixel_ok(
    settings: RenderSettings,
    cam: Camera,
    scene: Seq<Object>,
    out: Seq<(u8, u8, u8)>,
    row: int,
    col: int,
) -> bool {
    exists|c: Vec3|
        is_pixel_color(settings, cam, scene, col, settings.image_height - 1 - row, c) && out[row
            * settings.image_width + col] == rgb_spec(c)
}

/// The whole image as 8-bit RGB triples, top row first, each row left to
/// right.
pub fn render(settings: &RenderSettings, camera: &Camera, scene: &[Object], rng: &mut Xoshiro256Plus) -> (r: Vec<
    (u8, u8, u8),
>)
    requires
        settings.wf(),
        camera.wf(),
        scene_wf(scene@),
    ensures
        r@.len() == settings.image_width * settings.image_height,
        forall|row: int, col: int|
            0 <= row < settings.image_height && 0 <= col < settings.image_width ==> #[trigger] pixel_ok(
                *settings,
                *camera,
                scene@,
                r@,
                row,
                col,
            ),
{
    let w = settings.image_width;
    let h = settings.image_height;
    let mut out: Vec<(u8, u8, u8)> = Vec::new();
    let mut row: usize = 0;
    while row < h
        invariant
            settings.wf(),
            camera.wf(),
            scene_wf(scene@),
            w == settings.image_width,
            h == settings.image_height,
            row <= h,
            out@.len() == row * w,
            forall|r0: int, c0: int|
                0 <= r0 < row && 0 <= c0 < w ==> #[trigger] pixel_ok(*settings, *camera, scene@, out@, r0, c0),
        decreases h - row,
    {
        let y = h - 1 - row;
        let mut col: usize = 0;
        while col < w
            invariant
                settings.wf(),
                camera.wf(),
                scene_wf(scene@),
                w == settings.image_width,
                h == settings.image_height,
                row < h,
                y == h - 1 - row,
                col <= w,
                out@.len() == row * w + col,
                forall|r0: int, c0: int|
                    (0 <= r0 < row && 0 <= c0 < w) || (r0 == row && 0 <= c0 < col) ==> #[trigger] pixel_ok(
                        *settings,
                        *camera,
                        scene@,
                        out@,
                        r0,
                        c0,
                    ),
            decreases w - col,
        {
            let c = pixel_color(col, y, settings, camera, scene, rng);
            let ghost before = out@;
            out.push(to_rgb8(c));
            proof {
                assert forall|r0: int, c0: int|
                    (0 <= r0 < row && 0 <= c0 < w) || (r0 == row && 0 <= c0 < col + 1) implies #[trigger] pixel_ok(
                        *settings,
                        *camera,
                        scene@,
                        out@,
                        r0,
                        c0,
                    ) by {
                    if r0 == row && c0 == col {
                        assert(out@[r0 * w + c0] == rgb_spec(c));
                    } else {
                        assert(r0 * w + c0 < row * w + col) by (nonlinear_arith)
                            requires
                                (0 <= r0 < row && 0 <= c0 < w) || (r0 == row && 0 <= c0 < col),
                        ;
                        assert(pixel_ok(*settings, *camera, scene@, before, r0, c0));
                        let pc = choose|pc: Vec3|
                            is_pixel_color(*settings, *camera, scene@, c0, settings.image_height - 1 - r0, pc)
                                && before[r0 * settings.image_width + c0] == rgb_spec(pc);
                        assert(out@[r0 * w + c0] == before[r0 * w + c0]);
                    }
                }
            }
            col = col + 1;
        }
        assert((row + 1) * w == row * w + w) by (nonlinear_arith);
        row = row + 1;
    }
    assert(out@.len() == w * h) by (nonlinear_arith)
        requires
            out@.len() == row * w,
            row == h,
    ;
    out
}

} // verus!
