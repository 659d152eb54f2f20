//! Three-component fixed-point vectors, used both as points and directions
//! and as linear RGB colors.
use crate::fixed::{
    fx_div, fx_mul, in_range, isqrt, sat, saturate, sqrt_floor, tdiv, trunc_div, LIMIT, ONE,
};
use crate::sampling::gen_range;
use rand_xoshiro::Xoshiro256Plus;
use crate::fixed::{
    abs_int, is_isqrt, lemma_sqrt_floor, lemma_tdiv_bound, lemma_tdiv_close, lemma_trunc_sandwich,
};
use vstd::prelude::*;

verus! {

/// A vector of three fixed-point reals (see [`ONE`]).
#[derive(Clone, Copy, Debug, PartialEq, Eq, Structural)]
pub struct Vec3(pub i64, pub i64, pub i64);

/// `normalize` measures the length of its input this many times more finely
/// than one fixed-point step.
pub const NORMALIZE_SCALE: i64 = 1073741824;

/// Components smaller than this in magnitude count as zero in `is_near_zero`:
/// one fixed-point step, the finest the representation resolves.
pub const NEAR_ZERO: i64 = 1;

/// How many draws the rejection samplers make before giving up.
pub const MAX_REJECTION_TRIES: u32 = 64;

/// The vector whose components are `x`, `y`, `z`, each saturated.
pub open spec fn sat_vec(x: int, y: int, z: int) -> Vec3 {
    Vec3(sat(x) as i64, sat(y) as i64, sat(z) as i64)
}

/// The exact dot product, in units of `ONE * ONE`.
pub open spec fn dot_raw(a: Vec3, b: Vec3) -> int {
    a.0 * b.0 + a.1 * b.1 + a.2 * b.2
}

/// The exact squared length, in units of `ONE * ONE`.
pub open spec fn sq_raw(a: Vec3) -> int {
    dot_raw(a, a)
}

pub open spec fn vadd(a: Vec3, b: Vec3) -> Vec3 {
    sat_vec(a.0 + b.0, a.1 + b.1, a.2 + b.2)
}

pub open spec fn vsub(a: Vec3, b: Vec3) -> Vec3 {
    sat_vec(a.0 - b.0, a.1 - b.1, a.2 - b.2)
}

pub open spec fn vneg(a: Vec3) -> Vec3 {
    sat_vec(-a.0, -a.1, -a.2)
}

/// The component-wise (Hadamard) product.
pub open spec fn vmul(a: Vec3, b: Vec3) -> Vec3 {
    sat_vec(fx_mul(a.0 as int, b.0 as int), fx_mul(a.1 as int, b.1 as int), fx_mul(a.2 as int, b.2 as int))
}

/// Each component multiplied by the scalar `k`.
pub open spec fn vscale(a: Vec3, k: int) -> Vec3 {
    sat_vec(fx_mul(a.0 as int, k), fx_mul(a.1 as int, k), fx_mul(a.2 as int, k))
}

/// Each component divided by the scalar `k`.
pub open spec fn vdiv(a: Vec3, k: int) -> Vec3 {
    sat_vec(fx_div(a.0 as int, k), fx_div(a.1 as int, k), fx_div(a.2 as int, k))
}

pub open spec fn vdot(a: Vec3, b: Vec3) -> int {
    tdiv(dot_raw(a, b), ONE as int)
}

pub open spec fn vsq_len(a: Vec3) -> int {
    sq_raw(a) / (ONE as int)
}

pub open spec fn vlength(a: Vec3) -> int {
    sqrt_floor(sq_raw(a))
}

pub open spec fn vcross(a: Vec3, b: Vec3) -> Vec3 {
    sat_vec(
        tdiv(a.1 * b.2 - a.2 * b.1, ONE as int),
        tdiv(a.2 * b.0 - a.0 * b.2, ONE as int),
        tdiv(a.0 * b.1 - a.1 * b.0, ONE as int),
    )
}

/// The length of `a` in units of `1 / (ONE * NORMALIZE_SCALE)`.
pub open spec fn fine_length(a: Vec3) -> int {
    sqrt_floor(sq_raw(a) * NORMALIZE_SCALE * NORMALIZE_SCALE)
}

/// `a` divided by its length.
pub open spec fn vnormalize(a: Vec3) -> Vec3 {
    let l = fine_length(a);
    sat_vec(
        tdiv(a.0 * ONE * NORMALIZE_SCALE, l),
        tdiv(a.1 * ONE * NORMALIZE_SCALE, l),
        tdiv(a.2 * ONE * NORMALIZE_SCALE, l),
    )
}

/// `v` mirrored about the plane with normal `n`: `v - 2 dot(v, n) n`.
pub open spec fn vreflect(v: Vec3, n: Vec3) -> Vec3 {
    vsub(v, vscale(n, 2 * vdot(v, n)))
}

/// The cosine of the angle between the incoming `uv` and the normal `n`,
/// capped at one.
pub open spec fn refract_cos(uv: Vec3, n: Vec3) -> int {
    let c = vdot(vneg(uv), n);
    if c < ONE {
        c
    } else {
        ONE as int
    }
}

/// The part of the refracted ray perpendicular to `n`.
pub open spec fn refract_perp(uv: Vec3, n: Vec3, ratio: int) -> Vec3 {
    vscale(vadd(uv, vscale(n, refract_cos(uv, n))), ratio)
}

/// The length of the part of the refracted ray parallel to `n`.
pub open spec fn refract_parallel_len(uv: Vec3, n: Vec3, ratio: int) -> int {
    let d = ONE * ONE - sq_raw(refract_perp(uv, n, ratio));
    sqrt_floor(if d < 0 {
        -d
    } else {
        d
    })
}

/// Snell's law: `uv` bent through a surface with normal `n`, where `ratio`
/// is the ratio of the refractive indices on the two sides.
pub open spec fn vrefract(uv: Vec3, n: Vec3, ratio: int) -> Vec3 {
    vadd(refract_perp(uv, n, ratio), vscale(n, -refract_parallel_len(uv, n, ratio)))
}

/// Every component is smaller than `NEAR_ZERO` in magnitude.
pub open spec fn near_zero(a: Vec3) -> bool {
    -NEAR_ZERO < a.0 < NEAR_ZERO && -NEAR_ZERO < a.1 < NEAR_ZERO && -NEAR_ZERO < a.2 < NEAR_ZERO
}

/// Bounds a product by the product of the bounds.
pub proof fn lemma_mul_bound(x: int, y: int, bx: int, by: int)
    requires
        -bx <= x <= bx,
        -by <= y <= by,
    ensures
        -(bx * by) <= x * y <= bx * by,
{
    assert(-(bx * by) <= x * y <= bx * by) by (nonlinear_arith)
        requires
            -bx <= x <= bx,
            -by <= y <= by,
    ;
}

/// Every vector of `ds` lies in the cube `[-1, 1)^3`.
pub open spec fn all_in_cube(ds: Seq<Vec3>) -> bool {
    forall|i: int|
        0 <= i < ds.len() ==> -ONE <= (#[trigger] ds[i]).0 < ONE && -ONE <= ds[i].1 < ONE && -ONE <= ds[i].2 < ONE
}

/// Every vector of `ds` lies in the square `[-1, 1)^2` of the `z = 0` plane.
pub open spec fn all_in_square(ds: Seq<Vec3>) -> bool {
    forall|i: int| 0 <= i < ds.len() ==> -ONE <= (#[trigger] ds[i]).0 < ONE && -ONE <= ds[i].1 < ONE && ds[i].2 == 0
}

/// Every vector of `ds` lies outside the open unit ball.
pub open spec fn all_rejected(ds: Seq<Vec3>) -> bool {
    forall|i: int| 0 <= i < ds.len() ==> sq_raw(#[trigger] ds[i]) >= ONE * ONE
}

/// What rejection sampling makes of the draws `ds`: the first one strictly
/// inside the unit ball, or the center when there is none.
pub open spec fn ball_pick(ds: Seq<Vec3>) -> Vec3
    decreases ds.len(),
{
    if ds.len() == 0 {
        Vec3(0, 0, 0)
    } else if sq_raw(ds[0]) < ONE * ONE {
        ds[0]
    } else {
        ball_pick(ds.drop_first())
    }
}

/// Rejected draws in front change nothing.
proof fn lemma_pick_after_rejected(rejected: Seq<Vec3>, rest: Seq<Vec3>)
    requires
        all_rejected(rejected),
    ensures
        ball_pick(rejected + rest) == ball_pick(rest),
    decreases rejected.len(),
{
    if rejected.len() > 0 {
        assert((rejected + rest)[0] == rejected[0]);
        assert((rejected + rest).drop_first() =~= rejected.drop_first() + rest);
        lemma_pick_after_rejected(rejected.drop_first(), rest);
    } else {
        assert(rejected + rest =~= rest);
    }
}

proof fn lemma_cube_push(ds: Seq<Vec3>, v: Vec3)
    requires
        all_in_cube(ds),
        -ONE <= v.0 < ONE && -ONE <= v.1 < ONE && -ONE <= v.2 < ONE,
    ensures
        all_in_cube(ds.push(v)),
{
    assert(forall|i: int| 0 <= i < ds.len() ==> ds.push(v)[i] == ds[i]);
}

proof fn lemma_square_push(ds: Seq<Vec3>, v: Vec3)
    requires
        all_in_square(ds),
        -ONE <= v.0 < ONE && -ONE <= v.1 < ONE && v.2 == 0,
    ensures
        all_in_square(ds.push(v)),
{
    assert(forall|i: int| 0 <= i < ds.len() ==> ds.push(v)[i] == ds[i]);
}

/// How far, in fixed-point steps, the length of a normalized vector may fall
/// short of one.
pub const NORMALIZE_TOLERANCE: i64 = 4;

/// The squares bracketing a truncated quotient.
proof fn lemma_trunc_squares(x: int, l: int)
    requires
        l > 0,
    ensures
        tdiv(x, l) * tdiv(x, l) * (l * l) <= x * x,
        x * x < (abs_int(tdiv(x, l)) + 1) * (abs_int(tdiv(x, l)) + 1) * (l * l),
{
    lemma_trunc_sandwich(x, l);
    let n = tdiv(x, l);
    let m = abs_int(n);
    let ax = abs_int(x);
    assert(n * n == m * m) by (nonlinear_arith)
        requires
            m == if n < 0 { -n } else { n },
    ;
    assert(x * x == ax * ax) by (nonlinear_arith)
        requires
            ax == if x < 0 { -x } else { x },
    ;
    assert(m * m * (l * l) <= ax * ax < (m + 1) * (m + 1) * (l * l)) by (nonlinear_arith)
        requires
            m * l <= ax < (m + 1) * l,
            m >= 0,
            l > 0,
    ;
}

/// A component whose square is at most `s`, scaled to the precision of
/// `sqrt(s m^2)`, stays within it.
proof fn lemma_component_bound(c: int, s: int, m: int, l: int)
    requires
        c * c <= s,
        s * m * m < (l + 1) * (l + 1),
        l >= 0,
        m > 0,
    ensures
        -(ONE * l) <= c * ONE * m <= ONE * l,
{
    let ac = abs_int(c);
    assert(ac * m <= l) by (nonlinear_arith)
        requires
            c * c <= s,
            s * m * m < (l + 1) * (l + 1),
            l >= 0,
            m > 0,
            ac == if c < 0 { -c } else { c },
    ;
    assert(-(ONE * l) <= c * ONE * m <= ONE * l) by (nonlinear_arith)
        requires
            ac * m <= l,
            ac == if c < 0 { -c } else { c },
            m > 0,
    ;
}

/// Normalizing a nonzero vector saturates nothing: each component is the
/// truncated quotient, and lies in `[-1, 1]`.
pub proof fn lemma_normalize_components(a: Vec3)
    requires
        a.wf(),
        !a.is_zero(),
    ensures
        fine_length(a) >= NORMALIZE_SCALE,
        is_isqrt(sq_raw(a) * NORMALIZE_SCALE * NORMALIZE_SCALE, fine_length(a)),
        vnormalize(a).0 == tdiv(a.0 * ONE * NORMALIZE_SCALE, fine_length(a)),
        vnormalize(a).1 == tdiv(a.1 * ONE * NORMALIZE_SCALE, fine_length(a)),
        vnormalize(a).2 == tdiv(a.2 * ONE * NORMALIZE_SCALE, fine_length(a)),
        -ONE <= vnormalize(a).0 <= ONE,
        -ONE <= vnormalize(a).1 <= ONE,
        -ONE <= vnormalize(a).2 <= ONE,
{
    let s = sq_raw(a);
    let m = NORMALIZE_SCALE as int;
    assert(s >= 1 && s >= a.0 * a.0 && s >= a.1 * a.1 && s >= a.2 * a.2) by (nonlinear_arith)
        requires
            s == a.0 * a.0 + a.1 * a.1 + a.2 * a.2,
            !(a.0 == 0 && a.1 == 0 && a.2 == 0),
    ;
    let f = s * m * m;
    lemma_sqrt_floor(f);
    let l = fine_length(a);
    assert(l >= m) by (nonlinear_arith)
        requires
            f == s * m * m,
            s >= 1,
            m > 0,
            f < (l + 1) * (l + 1),
            l >= 0,
    ;
    lemma_component_bound(a.0 as int, s, m, l);
    lemma_component_bound(a.1 as int, s, m, l);
    lemma_component_bound(a.2 as int, s, m, l);
    assert((ONE * l) / l == ONE) by (nonlinear_arith)
        requires
            l > 0,
    ;
    lemma_tdiv_bound(a.0 * ONE * m, l, ONE * l);
    lemma_tdiv_bound(a.1 * ONE * m, l, ONE * l);
    lemma_tdiv_bound(a.2 * ONE * m, l, ONE * l);
}

/// Normalization gives unit length: the length of `normalize(a)` lies within
/// `NORMALIZE_TOLERANCE` steps below one, and never above it.
pub proof fn lemma_normalize_unit_length(a: Vec3)
    requires
        a.wf(),
        !a.is_zero(),
    ensures
        ONE - NORMALIZE_TOLERANCE <= vlength(vnormalize(a)) <= ONE,
{
    lemma_normalize_components(a);
    let n = vnormalize(a);
    let (n0, n1, n2) = (n.0 as int, n.1 as int, n.2 as int);
    let l = fine_length(a);
    let m = NORMALIZE_SCALE as int;
    let k = ONE * m;
    let s = sq_raw(a);
    let f = s * m * m;
    lemma_trunc_squares(a.0 * k, l);
    lemma_trunc_squares(a.1 * k, l);
    lemma_trunc_squares(a.2 * k, l);
    assert(a.0 * ONE * m == a.0 * k && a.1 * ONE * m == a.1 * k && a.2 * ONE * m == a.2 * k);
    let big_n = sq_raw(n);
    let ll = l * l;
    // The sum of the squared components, times l^2, is at most (ONE^2) f.
    let xs = (a.0 * k) * (a.0 * k) + (a.1 * k) * (a.1 * k) + (a.2 * k) * (a.2 * k);
    let kk = k * k;
    assert((a.0 * k) * (a.0 * k) == (a.0 * a.0) * kk) by (nonlinear_arith)
        requires
            kk == k * k,
    ;
    assert((a.1 * k) * (a.1 * k) == (a.1 * a.1) * kk) by (nonlinear_arith)
        requires
            kk == k * k,
    ;
    assert((a.2 * k) * (a.2 * k) == (a.2 * a.2) * kk) by (nonlinear_arith)
        requires
            kk == k * k,
    ;
    assert(xs == s * kk) by (nonlinear_arith)
        requires
            xs == (a.0 * a.0) * kk + (a.1 * a.1) * kk + (a.2 * a.2) * kk,
            s == a.0 * a.0 + a.1 * a.1 + a.2 * a.2,
    ;
    assert(s * kk == ONE * ONE * f) by (nonlinear_arith)
        requires
            kk == k * k,
            k == ONE * m,
            f == s * m * m,
    ;
    assert(big_n * ll <= xs) by (nonlinear_arith)
        requires
            big_n == n0 * n0 + n1 * n1 + n2 * n2,
            n0 * n0 * ll <= (a.0 * k) * (a.0 * k),
            n1 * n1 * ll <= (a.1 * k) * (a.1 * k),
            n2 * n2 * ll <= (a.2 * k) * (a.2 * k),
            xs == (a.0 * k) * (a.0 * k) + (a.1 * k) * (a.1 * k) + (a.2 * k) * (a.2 * k),
    ;
    assert(big_n >= 0) by (nonlinear_arith)
        requires
            big_n == n0 * n0 + n1 * n1 + n2 * n2,
    ;
    assert(big_n < (ONE + 1) * (ONE + 1)) by (nonlinear_arith)
        requires
            big_n * ll <= xs,
            xs == ONE * ONE * f,
            f < (l + 1) * (l + 1),
            ll == l * l,
            l >= m,
            m > ONE,
            big_n >= 0,
    ;
    // The sum of the squared components rounded up in magnitude exceeds ONE^2.
    let (up0, up1, up2) = (abs_int(n0) + 1, abs_int(n1) + 1, abs_int(n2) + 1);
    assert(xs < (up0 * up0 + up1 * up1 + up2 * up2) * ll) by (nonlinear_arith)
        requires
            (a.0 * k) * (a.0 * k) < up0 * up0 * ll,
            (a.1 * k) * (a.1 * k) < up1 * up1 * ll,
            (a.2 * k) * (a.2 * k) < up2 * up2 * ll,
            xs == (a.0 * k) * (a.0 * k) + (a.1 * k) * (a.1 * k) + (a.2 * k) * (a.2 * k),
    ;
    assert(ONE * ONE < up0 * up0 + up1 * up1 + up2 * up2) by (nonlinear_arith)
        requires
            xs < (up0 * up0 + up1 * up1 + up2 * up2) * ll,
            xs == ONE * ONE * f,
            ll == l * l,
            l * l <= f,
            l > 0,
    ;
    assert((ONE - 4) * (ONE - 4) <= big_n) by (nonlinear_arith)
        requires
            ONE * ONE < up0 * up0 + up1 * up1 + up2 * up2,
            big_n == n0 * n0 + n1 * n1 + n2 * n2,
            up0 == abs_int(n0) + 1,
            up1 == abs_int(n1) + 1,
            up2 == abs_int(n2) + 1,
            abs_int(n0) == if n0 < 0 { -n0 } else { n0 },
            abs_int(n1) == if n1 < 0 { -n1 } else { n1 },
            abs_int(n2) == if n2 < 0 { -n2 } else { n2 },
            -ONE <= n0 <= ONE,
            -ONE <= n1 <= ONE,
            -ONE <= n2 <= ONE,
    ;
    lemma_sqrt_floor(big_n);
    let r = vlength(n);
    assert(ONE - 4 <= r <= ONE) by (nonlinear_arith)
        requires
            r * r <= big_n < (r + 1) * (r + 1),
            r >= 0,
            (ONE - 4) * (ONE - 4) <= big_n,
            big_n < (ONE + 1) * (ONE + 1),
    ;
}

/// How far, in fixed-point steps, `dot(reflect(v, n), n)` may stray from
/// `-dot(v, n)` for unit vectors.
pub const REFLECT_TOLERANCE: i64 = 64;

/// A vector of unit length, to the precision `normalize` achieves.
pub open spec fn is_unit(v: Vec3) -> bool {
    v.wf() && ONE - NORMALIZE_TOLERANCE <= vlength(v) <= ONE
}

/// A unit vector's squared length and components are close to one.
proof fn lemma_unit_bounds(v: Vec3)
    requires
        is_unit(v),
    ensures
        (ONE - 4) * (ONE - 4) <= sq_raw(v) <= ONE * ONE + 2 * ONE,
        -(ONE + 1) <= v.0 <= ONE + 1,
        -(ONE + 1) <= v.1 <= ONE + 1,
        -(ONE + 1) <= v.2 <= ONE + 1,
{
    let sq = sq_raw(v);
    assert(sq >= 0) by (nonlinear_arith)
        requires
            sq == v.0 * v.0 + v.1 * v.1 + v.2 * v.2,
    ;
    lemma_sqrt_floor(sq);
    let l = vlength(v);
    assert((ONE - 4) * (ONE - 4) <= sq < (ONE + 1) * (ONE + 1)) by (nonlinear_arith)
        requires
            l * l <= sq < (l + 1) * (l + 1),
            ONE - 4 <= l <= ONE,
    ;
    assert(-(ONE + 1) <= v.0 <= ONE + 1 && -(ONE + 1) <= v.1 <= ONE + 1 && -(ONE + 1) <= v.2 <= ONE + 1)
        by (nonlinear_arith)
        requires
            sq == v.0 * v.0 + v.1 * v.1 + v.2 * v.2,
            sq < (ONE + 1) * (ONE + 1),
    ;
}

/// Reflection reverses the component along the normal: for unit `v` and
/// unit `n`, `dot(reflect(v, n), n)` is `-dot(v, n)` within
/// `REFLECT_TOLERANCE` steps.
pub proof fn lemma_reflect_reverses_normal_component(v: Vec3, n: Vec3)
    requires
        is_unit(v),
        is_unit(n),
    ensures
        -REFLECT_TOLERANCE <= vdot(vreflect(v, n), n) + vdot(v, n) <= REFLECT_TOLERANCE,
{
    lemma_unit_bounds(v);
    lemma_unit_bounds(n);
    let b = ONE + 1;
    let big_n = sq_raw(n);
    let s = dot_raw(v, n);
    lemma_mul_bound(v.0 as int, n.0 as int, b, b);
    lemma_mul_bound(v.1 as int, n.1 as int, b, b);
    lemma_mul_bound(v.2 as int, n.2 as int, b, b);
    let d = vdot(v, n);
    lemma_tdiv_close(s, ONE as int);
    assert(-(3 * ONE + 7) <= d <= 3 * ONE + 7);
    let k = 2 * d;
    let w = vscale(n, k);
    let (n0, n1, n2) = (n.0 as int, n.1 as int, n.2 as int);
    let (prod0, prod1, prod2) = (n0 * k, n1 * k, n2 * k);
    lemma_mul_bound(n0, k, b, 6 * ONE + 14);
    lemma_mul_bound(n1, k, b, 6 * ONE + 14);
    lemma_mul_bound(n2, k, b, 6 * ONE + 14);
    let (q0, q1, q2) = (fx_mul(n0, k), fx_mul(n1, k), fx_mul(n2, k));
    lemma_tdiv_close(prod0, ONE as int);
    lemma_tdiv_close(prod1, ONE as int);
    lemma_tdiv_close(prod2, ONE as int);
    assert(w.0 == q0 && w.1 == q1 && w.2 == q2);
    let r = vreflect(v, n);
    assert(r.0 == v.0 - q0 && r.1 == v.1 - q1 && r.2 == v.2 - q2);
    let z = dot_raw(r, n);
    let qn = q0 * n0 + q1 * n1 + q2 * n2;
    assert(z == s - qn) by (nonlinear_arith)
        requires
            z == r.0 * n0 + r.1 * n1 + r.2 * n2,
            s == v.0 * n0 + v.1 * n1 + v.2 * n2,
            r.0 == v.0 - q0,
            r.1 == v.1 - q1,
            r.2 == v.2 - q2,
            qn == q0 * n0 + q1 * n1 + q2 * n2,
    ;
    // ONE * q_i = p_i - e_i with |e_i| < ONE.
    let (e0, e1, e2) = (prod0 - ONE * q0, prod1 - ONE * q1, prod2 - ONE * q2);
    lemma_mul_bound(e0, n0, ONE as int, b);
    lemma_mul_bound(e1, n1, ONE as int, b);
    lemma_mul_bound(e2, n2, ONE as int, b);
    let e = e0 * n0 + e1 * n1 + e2 * n2;
    assert(ONE * (q0 * n0) == k * (n0 * n0) - e0 * n0) by (nonlinear_arith)
        requires
            e0 == n0 * k - ONE * q0,
    ;
    assert(ONE * (q1 * n1) == k * (n1 * n1) - e1 * n1) by (nonlinear_arith)
        requires
            e1 == n1 * k - ONE * q1,
    ;
    assert(ONE * (q2 * n2) == k * (n2 * n2) - e2 * n2) by (nonlinear_arith)
        requires
            e2 == n2 * k - ONE * q2,
    ;
    assert(k * big_n == k * (n0 * n0) + k * (n1 * n1) + k * (n2 * n2)) by (nonlinear_arith)
        requires
            big_n == n0 * n0 + n1 * n1 + n2 * n2,
    ;
    assert(ONE * qn == k * big_n - e);
    let dev = d * (big_n - ONE * ONE);
    lemma_mul_bound(d, big_n - ONE * ONE, 3 * ONE + 7, 8 * ONE);
    assert(k * big_n == 2 * dev + 2 * (ONE * ONE) * d) by (nonlinear_arith)
        requires
            k == 2 * d,
            dev == d * (big_n - ONE * ONE),
    ;
    let res = vdot(r, n);
    lemma_tdiv_close(z, ONE as int);
    assert(-(3 * ONE * b) <= e <= 3 * ONE * b);
    assert(-((3 * ONE + 7) * (8 * ONE)) <= dev <= (3 * ONE + 7) * (8 * ONE));
    assert(ONE * z == ONE * s - 2 * dev - 2 * (ONE * ONE) * d + e);
    assert(-64 <= res + d <= 64) by (nonlinear_arith)
        requires
            z - 65536 < 65536 * res < z + 65536,
            s - 65536 < 65536 * d < s + 65536,
            65536 * z == 65536 * s - 2 * dev - 2 * (65536 * 65536) * d + e,
            -(3 * 65536 * 65537) <= e <= 3 * 65536 * 65537,
            -((3 * 65536 + 7) * (8 * 65536)) <= dev <= (3 * 65536 + 7) * (8 * 65536),
    ;
}

/// The exact dot product of two well-formed vectors, in units of `ONE * ONE`.
pub(crate) fn dot_wide(a: Vec3, b: Vec3) -> (r: i128)
    requires
        a.wf(),
        b.wf(),
    ensures
        r == dot_raw(a, b),
        -3 * LIMIT * LIMIT <= r <= 3 * LIMIT * LIMIT,
{
    proof {
        lemma_mul_bound(a.0 as int, b.0 as int, LIMIT as int, LIMIT as int);
        lemma_mul_bound(a.1 as int, b.1 as int, LIMIT as int, LIMIT as int);
        lemma_mul_bound(a.2 as int, b.2 as int, LIMIT as int, LIMIT as int);
    }
    a.0 as i128 * b.0 as i128 + a.1 as i128 * b.1 as i128 + a.2 as i128 * b.2 as i128
}

/// The fixed-point product of a component and a scalar, saturated.
fn mul_component(c: i64, k: i64) -> (r: i64)
    requires
        in_range(c as int),
    ensures
        r == sat(fx_mul(c as int, k as int)),
{
    proof {
        lemma_mul_bound(c as int, k as int, LIMIT as int, 0x8000_0000_0000_0000int);
    }
    saturate(trunc_div(c as i128 * k as i128, ONE as i128))
}

/// The fixed-point quotient of a component by a scalar, saturated.
fn div_component(c: i64, k: i64) -> (r: i64)
    requires
        in_range(c as int),
        k != 0,
    ensures
        r == sat(fx_div(c as int, k as int)),
{
    proof {
        lemma_mul_bound(c as int, ONE as int, LIMIT as int, ONE as int);
    }
    saturate(trunc_div(c as i128 * ONE as i128, k as i128))
}

impl Vec3 {
    /// Every component lies within `[-LIMIT, LIMIT]`.
    pub open spec fn wf(self) -> bool {
        in_range(self.0 as int) && in_range(self.1 as int) && in_range(self.2 as int)
    }

    pub open spec fn is_zero(self) -> bool {
        self.0 == 0 && self.1 == 0 && self.2 == 0
    }

    pub fn add(self, rhs: Vec3) -> (r: Vec3)
        requires
            self.wf(),
            rhs.wf(),
        ensures
            r == vadd(self, rhs),
            r.wf(),
    {
        Vec3(
            saturate(self.0 as i128 + rhs.0 as i128),
            saturate(self.1 as i128 + rhs.1 as i128),
            saturate(self.2 as i128 + rhs.2 as i128),
        )
    }

    pub fn add_assign(&mut self, rhs: Vec3)
        requires
            old(self).wf(),
            rhs.wf(),
        ensures
            *final(self) == vadd(*old(self), rhs),
            final(self).wf(),
    {
        *self = self.add(rhs);
    }

    pub fn sub(self, rhs: Vec3) -> (r: Vec3)
        requires
            self.wf(),
            rhs.wf(),
        ensures
            r == vsub(self, rhs),
            r.wf(),
    {
        Vec3(
            saturate(self.0 as i128 - rhs.0 as i128),
            saturate(self.1 as i128 - rhs.1 as i128),
            saturate(self.2 as i128 - rhs.2 as i128),
        )
    }

    pub fn neg(self) -> (r: Vec3)
        requires
            self.wf(),
        ensures
            r == vneg(self),
            r == Vec3(-self.0 as i64, -self.1 as i64, -self.2 as i64),
            r.wf(),
    {
        Vec3(-self.0, -self.1, -self.2)
    }

    /// The component-wise (Hadamard) product, as used to attenuate a color.
    pub fn mul(self, rhs: Vec3) -> (r: Vec3)
        requires
            self.wf(),
            rhs.wf(),
        ensures
            r == vmul(self, rhs),
            r.wf(),
    {
        Vec3(
            mul_component(self.0, rhs.0),
            mul_component(self.1, rhs.1),
            mul_component(self.2, rhs.2),
        )
    }

    /// The vector scaled by the fixed-point scalar `k`.
    pub fn scale(self, k: i64) -> (r: Vec3)
        requires
            self.wf(),
        ensures
            r == vscale(self, k as int),
            r.wf(),
    {
        Vec3(mul_component(self.0, k), mul_component(self.1, k), mul_component(self.2, k))
    }

    /// The vector divided by the fixed-point scalar `k`.
    pub fn div(self, k: i64) -> (r: Vec3)
        requires
            self.wf(),
            k != 0,
        ensures
            r == vdiv(self, k as int),
            r.wf(),
    {
        Vec3(div_component(self.0, k), div_component(self.1, k), div_component(self.2, k))
    }

    pub fn dot(self, other: Vec3) -> (r: i64)
        requires
            self.wf(),
            other.wf(),
        ensures
            r == vdot(self, other),
            -0x3000_0000_0000 <= r <= 0x3000_0000_0000,
    {
        trunc_div(dot_wide(self, other), ONE as i128) as i64
    }

    pub fn squared_length(self) -> (r: i64)
        requires
            self.wf(),
        ensures
            r == vsq_len(self),
            r >= 0,
    {
        let s = dot_wide(self, self);
        assert(s >= 0) by (nonlinear_arith)
            requires
                s == self.0 * self.0 + self.1 * self.1 + self.2 * self.2,
        ;
        (s / ONE as i128) as i64
    }

    pub fn length(self) -> (r: i64)
        requires
            self.wf(),
        ensures
            r == vlength(self),
            r >= 0,
    {
        let s = dot_wide(self, self);
        assert(s >= 0) by (nonlinear_arith)
            requires
                s == self.0 * self.0 + self.1 * self.1 + self.2 * self.2,
        ;
        let r = isqrt(s as u128);
        assert(r <= 2 * LIMIT) by (nonlinear_arith)
            requires
                r * r <= s,
                s <= 3 * LIMIT * LIMIT,
                r >= 0,
        ;
        r as i64
    }

    pub fn cross(self, other: Vec3) -> (r: Vec3)
        requires
            self.wf(),
            other.wf(),
        ensures
            r == vcross(self, other),
            r.wf(),
    {
        let (a0, a1, a2) = (self.0 as i128, self.1 as i128, self.2 as i128);
        let (b0, b1, b2) = (other.0 as i128, other.1 as i128, other.2 as i128);
        proof {
            lemma_mul_bound(a1 as int, b2 as int, LIMIT as int, LIMIT as int);
            lemma_mul_bound(a2 as int, b1 as int, LIMIT as int, LIMIT as int);
            lemma_mul_bound(a2 as int, b0 as int, LIMIT as int, LIMIT as int);
            lemma_mul_bound(a0 as int, b2 as int, LIMIT as int, LIMIT as int);
            lemma_mul_bound(a0 as int, b1 as int, LIMIT as int, LIMIT as int);
            lemma_mul_bound(a1 as int, b0 as int, LIMIT as int, LIMIT as int);
        }
        Vec3(
            saturate(trunc_div(a1 * b2 - a2 * b1, ONE as i128)),
            saturate(trunc_div(a2 * b0 - a0 * b2, ONE as i128)),
            saturate(trunc_div(a0 * b1 - a1 * b0, ONE as i128)),
        )
    }

    /// The unit vector in the direction of `self`, which must not be zero.
    pub fn normalize(self) -> (r: Vec3)
        requires
            self.wf(),
            !self.is_zero(),
        ensures
            r == vnormalize(self),
            r.wf(),
    {
        let s = dot_wide(self, self);
        assert(s >= 1) by (nonlinear_arith)
            requires
                s == self.0 * self.0 + self.1 * self.1 + self.2 * self.2,
                !(self.0 == 0 && self.1 == 0 && self.2 == 0),
        ;
        let fine = s as u128 * (NORMALIZE_SCALE as u128 * NORMALIZE_SCALE as u128);
        let l = isqrt(fine);
        assert(l >= 1) by (nonlinear_arith)
            requires
                fine >= 1,
                fine < (l + 1) * (l + 1),
                l >= 0,
        ;
        let l = l as i128;
        let k = ONE as i128 * NORMALIZE_SCALE as i128;
        Vec3(
            saturate(trunc_div(self.0 as i128 * k, l)),
            saturate(trunc_div(self.1 as i128 * k, l)),
            saturate(trunc_div(self.2 as i128 * k, l)),
        )
    }

    /// All components are zero to the representation's precision.
    pub fn is_near_zero(self) -> (r: bool)
        ensures
            r == near_zero(self),
            r == self.is_zero(),
    {
        -NEAR_ZERO < self.0 && self.0 < NEAR_ZERO && -NEAR_ZERO < self.1 && self.1 < NEAR_ZERO
            && -NEAR_ZERO < self.2 && self.2 < NEAR_ZERO
    }

    /// `self` mirrored about the plane with normal `n`.
    pub fn reflect(self, n: Vec3) -> (r: Vec3)
        requires
            self.wf(),
            n.wf(),
        ensures
            r == vreflect(self, n),
            r.wf(),
    {
        let d = self.dot(n);
        self.sub(n.scale(2 * d))
    }

    /// `self` bent through a surface with normal `n` by Snell's law, where
    /// `etai_over_etat` is the ratio of the refractive indices.
    pub fn refract(self, n: Vec3, etai_over_etat: i64) -> (r: Vec3)
        requires
            self.wf(),
            n.wf(),
        ensures
            r == vrefract(self, n, etai_over_etat as int),
            r.wf(),
    {
        let c = self.neg().dot(n);
        let cos_theta = if c < ONE {
            c
        } else {
            ONE
        };
        let perp = self.add(n.scale(cos_theta)).scale(etai_over_etat);
        let d = ONE as i128 * ONE as i128 - dot_wide(perp, perp);
        let m = if d < 0 {
            -d
        } else {
            d
        };
        let root = isqrt(m as u128);
        assert(root <= 2 * LIMIT) by (nonlinear_arith)
            requires
                root * root <= m,
                m <= 3 * LIMIT * LIMIT + ONE * ONE,
                root >= 0,
        ;
        perp.add(n.scale(-(root as i64)))
    }

    /// Three independent draws from `[0, 1)`.
    pub fn random(rng: &mut Xoshiro256Plus) -> (r: Vec3)
        ensures
            0 <= r.0 < ONE,
            0 <= r.1 < ONE,
            0 <= r.2 < ONE,
            r.wf(),
    {
        Vec3(gen_range(rng, 0, ONE), gen_range(rng, 0, ONE), gen_range(rng, 0, ONE))
    }

    /// Three independent draws from `[from, to)`.
    pub fn random_in_range(from: i64, to: i64, rng: &mut Xoshiro256Plus) -> (r: Vec3)
        requires
            from < to,
            in_range(from as int),
            in_range(to as int),
        ensures
            from <= r.0 < to,
            from <= r.1 < to,
            from <= r.2 < to,
            r.wf(),
    {
        Vec3(gen_range(rng, from, to), gen_range(rng, from, to), gen_range(rng, from, to))
    }

    /// The acceptance test of the unit-ball sampler: a drawn vector is kept
    /// when it lies strictly inside the unit ball.
    pub fn ball_candidate(v: Vec3) -> (r: Option<Vec3>)
        requires
            v.wf(),
        ensures
            r == (if sq_raw(v) < ONE * ONE {
                Some(v)
            } else {
                None
            }),
    {
        if dot_wide(v, v) < ONE as i128 * ONE as i128 {
            Some(v)
        } else {
            None
        }
    }

    /// The acceptance test of the unit-disk sampler: a drawn pair is kept
    /// when it lies strictly inside the unit disk.
    pub fn disk_candidate(x: i64, y: i64) -> (r: Option<Vec3>)
        requires
            -ONE <= x < ONE,
            -ONE <= y < ONE,
        ensures
            r == (if x * x + y * y < ONE * ONE {
                Some(Vec3(x, y, 0))
            } else {
                None
            }),
    {
        let p = Vec3(x, y, 0);
        assert(sq_raw(p) == x * x + y * y);
        if dot_wide(p, p) < ONE as i128 * ONE as i128 {
            Some(p)
        } else {
            None
        }
    }

    /// A point strictly inside the unit ball, by rejection sampling from the
    /// cube `[-1, 1)^3`: the first drawn vector that `ball_candidate` keeps.
    /// After `MAX_REJECTION_TRIES` rejected draws (which happens with
    /// probability below `2^-67`) the center is returned.
    pub fn random_in_unit_sphere(rng: &mut Xoshiro256Plus) -> (r: Vec3)
        ensures
            r.wf(),
            sq_raw(r) < ONE * ONE,
            exists|draws: Seq<Vec3>|
                draws.len() <= MAX_REJECTION_TRIES && all_in_cube(draws) && r == #[trigger] ball_pick(draws),
    {
        let mut tries: u32 = 0;
        let ghost mut drawn: Seq<Vec3> = seq![];
        while tries < MAX_REJECTION_TRIES
            invariant
                tries <= MAX_REJECTION_TRIES,
                drawn.len() == tries,
                all_in_cube(drawn),
                all_rejected(drawn),
            decreases MAX_REJECTION_TRIES - tries,
        {
            let v = Vec3::random_in_range(-ONE, ONE, rng);
            proof {
                lemma_pick_after_rejected(drawn, seq![v]);
                lemma_cube_push(drawn, v);
            }
            match Vec3::ball_candidate(v) {
                Some(p) => {
                    assert(ball_pick(drawn.push(v)) == p) by {
                        assert(drawn + seq![v] =~= drawn.push(v));
                        assert(seq![v].drop_first() =~= Seq::<Vec3>::empty());
                    }
                    return p;
                },
                None => {
                    proof {
                        assert(all_rejected(drawn.push(v)));
                        drawn = drawn.push(v);
                    }
                },
            }
            tries = tries + 1;
        }
        proof {
            lemma_pick_after_rejected(drawn, seq![]);
            assert(drawn + Seq::<Vec3>::empty() =~= drawn);
        }
        Vec3(0, 0, 0)
    }

    /// A point strictly inside the unit disk of the `z = 0` plane, by
    /// rejection sampling from the square `[-1, 1)^2`: the first drawn pair
    /// that `disk_candidate` keeps. After `MAX_REJECTION_TRIES` rejected
    /// draws the center is returned.
    pub fn random_in_unit_disk(rng: &mut Xoshiro256Plus) -> (r: Vec3)
        ensures
            r.wf(),
            r.2 == 0,
            sq_raw(r) < ONE * ONE,
            exists|draws: Seq<Vec3>|
                draws.len() <= MAX_REJECTION_TRIES && all_in_square(draws) && r == #[trigger] ball_pick(draws),
    {
        let mut tries: u32 = 0;
        let ghost mut drawn: Seq<Vec3> = seq![];
        while tries < MAX_REJECTION_TRIES
            invariant
                tries <= MAX_REJECTION_TRIES,
                drawn.len() == tries,
                all_in_square(drawn),
                all_rejected(drawn),
            decreases MAX_REJECTION_TRIES - tries,
        {
            let x = gen_range(rng, -ONE, ONE);
            let y = gen_range(rng, -ONE, ONE);
            let ghost v = Vec3(x, y, 0);
            proof {
                lemma_pick_after_rejected(drawn, seq![v]);
                lemma_square_push(drawn, v);
                assert(sq_raw(v) == x * x + y * y);
            }
            match Vec3::disk_candidate(x, y) {
                Some(p) => {
                    assert(ball_pick(drawn.push(v)) == p) by {
                        assert(drawn + seq![v] =~= drawn.push(v));
                        assert(seq![v].drop_first() =~= Seq::<Vec3>::empty());
                    }
                    return p;
                },
                None => {
                    proof {
                        assert(all_rejected(drawn.push(v)));
                        drawn = drawn.push(v);
                    }
                },
            }
            tries = tries + 1;
        }
        proof {
            lemma_pick_after_rejected(drawn, seq![]);
            assert(drawn + Seq::<Vec3>::empty() =~= drawn);
        }
        Vec3(0, 0, 0)
    }
}

} // verus!
