//! Fixed-point scalars: an `i64` value `x` stands for the real `x / ONE`.
use vstd::arithmetic::div_mod::{
    lemma_div_is_ordered, lemma_div_pos_is_pos, lemma_fundamental_div_mod, lemma_mod_pos_bound,
};
use vstd::prelude::*;

verus! {

/// The fixed-point representation of `1.0`.
pub const ONE: i64 = 65536;

/// The largest magnitude a vector component may hold (the real `16384.0`).
pub const LIMIT: i64 = 1073741824;

/// Rounds `x` into the range of a vector component.
pub open spec fn sat(x: int) -> int {
    if x < -LIMIT {
        -LIMIT as int
    } else if x > LIMIT {
        LIMIT as int
    } else {
        x
    }
}

/// Whether `x` fits in a vector component.
pub open spec fn in_range(x: int) -> bool {
    -LIMIT <= x <= LIMIT
}

/// Division rounding toward zero, as Rust's `/` on integers does.
pub open spec fn tdiv(a: int, b: int) -> int {
    if a >= 0 && b > 0 {
        a / b
    } else if a < 0 && b > 0 {
        -((-a) / b)
    } else if a >= 0 {
        -(a / (-b))
    } else {
        (-a) / (-b)
    }
}

/// The fixed-point product of `a` and `b`, rounded toward zero.
pub open spec fn fx_mul(a: int, b: int) -> int {
    tdiv(a * b, ONE as int)
}

/// The fixed-point quotient of `a` by `b`, rounded toward zero.
pub open spec fn fx_div(a: int, b: int) -> int {
    tdiv(a * ONE, b)
}

/// The integer square root: the largest `r` with `r * r <= n`.
pub open spec fn is_isqrt(n: int, r: int) -> bool {
    0 <= r && r * r <= n < (r + 1) * (r + 1)
}

/// The integer square root of a non-negative `n`.
pub open spec fn sqrt_floor(n: int) -> int {
    choose|r: int| is_isqrt(n, r)
}

/// There is at most one integer square root.
pub proof fn lemma_isqrt_unique(n: int, a: int, b: int)
    requires
        is_isqrt(n, a),
        is_isqrt(n, b),
    ensures
        a == b,
{
    if a < b {
        assert((a + 1) * (a + 1) <= b * b) by (nonlinear_arith)
            requires
                0 <= a,
                a + 1 <= b,
        ;
    } else if b < a {
        assert((b + 1) * (b + 1) <= a * a) by (nonlinear_arith)
            requires
                0 <= b,
                b + 1 <= a,
        ;
    }
}

/// Every non-negative integer has an integer square root.
pub proof fn lemma_sqrt_floor(n: int)
    requires
        n >= 0,
    ensures
        is_isqrt(n, sqrt_floor(n)),
    decreases n,
{
    if n == 0 {
        assert(is_isqrt(n, 0));
    } else {
        lemma_sqrt_floor(n - 1);
        let p = sqrt_floor(n - 1);
        if (p + 1) * (p + 1) <= n {
            assert(n < (p + 2) * (p + 2)) by (nonlinear_arith)
                requires
                    n - 1 < (p + 1) * (p + 1),
                    (p + 1) * (p + 1) <= n,
                    p >= 0,
            ;
            assert(is_isqrt(n, p + 1));
        } else {
            assert(is_isqrt(n, p));
        }
    }
}

/// Truncating division shrinks a bound on the dividend by the divisor.
pub proof fn lemma_tdiv_bound(x: int, d: int, m: int)
    requires
        d > 0,
        -m <= x <= m,
    ensures
        -(m / d) <= tdiv(x, d) <= m / d,
        x >= 0 ==> tdiv(x, d) >= 0,
{
    if x >= 0 {
        lemma_div_is_ordered(x, m, d);
        lemma_div_pos_is_pos(x, d);
    } else {
        lemma_div_is_ordered(-x, m, d);
        lemma_div_pos_is_pos(-x, d);
    }
}

/// Truncating division by a positive divisor preserves order.
pub proof fn lemma_tdiv_monotone(x: int, y: int, d: int)
    requires
        x <= y,
        d > 0,
    ensures
        tdiv(x, d) <= tdiv(y, d),
{
    if x >= 0 {
        lemma_div_is_ordered(x, y, d);
    } else if y >= 0 {
        lemma_div_pos_is_pos(-x, d);
        lemma_div_pos_is_pos(y, d);
    } else {
        lemma_div_is_ordered(-y, -x, d);
    }
}

/// The magnitude of `x`.
pub open spec fn abs_int(x: int) -> int {
    if x < 0 {
        -x
    } else {
        x
    }
}

/// Truncating division by `l` leaves a magnitude between `|n| l` and
/// `(|n| + 1) l`.
pub proof fn lemma_trunc_sandwich(x: int, l: int)
    requires
        l > 0,
    ensures
        abs_int(tdiv(x, l)) * l <= abs_int(x) < (abs_int(tdiv(x, l)) + 1) * l,
{
    let ax = abs_int(x);
    lemma_fundamental_div_mod(ax, l);
    lemma_mod_pos_bound(ax, l);
    lemma_div_pos_is_pos(ax, l);
    let q = ax / l;
    assert(q * l <= ax < (q + 1) * l) by (nonlinear_arith)
        requires
            ax == l * q + ax % l,
            0 <= ax % l < l,
    ;
    assert(abs_int(tdiv(x, l)) == q);
}

/// `a` times a truncated quotient by `a` is within `a` of the dividend.
pub proof fn lemma_tdiv_close(x: int, a: int)
    requires
        a > 0,
    ensures
        x - a < a * tdiv(x, a) < x + a,
{
    lemma_trunc_sandwich(x, a);
    let q = tdiv(x, a);
    if x >= 0 {
        lemma_tdiv_bound(x, a, x);
    } else {
        lemma_tdiv_bound(x, a, -x);
    }
    assert(x - a < a * q < x + a) by (nonlinear_arith)
        requires
            abs_int(q) * a <= abs_int(x) < (abs_int(q) + 1) * a,
            x >= 0 ==> q >= 0,
            x < 0 ==> q <= 0,
            abs_int(q) == if q < 0 { -q } else { q },
            abs_int(x) == if x < 0 { -x } else { x },
            a > 0,
    ;
}

/// Bounds on the factors bound a fixed-point product.
pub proof fn lemma_fx_mul_bound(a: int, b: int, ba: int, bb: int)
    requires
        -ba <= a <= ba,
        -bb <= b <= bb,
    ensures
        -((ba * bb) / (ONE as int)) <= fx_mul(a, b) <= (ba * bb) / (ONE as int),
        a >= 0 && b >= 0 ==> fx_mul(a, b) >= 0,
{
    assert(-(ba * bb) <= a * b <= ba * bb) by (nonlinear_arith)
        requires
            -ba <= a <= ba,
            -bb <= b <= bb,
    ;
    if a >= 0 && b >= 0 {
        assert(a * b >= 0) by (nonlinear_arith)
            requires
                a >= 0,
                b >= 0,
        ;
    }
    lemma_tdiv_bound(a * b, ONE as int, ba * bb);
}

/// Scaling by a factor in `[0, 1]` never grows a non-negative value, and
/// scaling preserves order.
pub proof fn lemma_fx_mul_attenuates(a1: int, a2: int, b: int)
    requires
        0 <= a1 <= a2,
        0 <= b <= ONE,
    ensures
        0 <= fx_mul(a1, b) <= fx_mul(a2, b) <= a2,
{
    assert(0 <= a1 * b <= a2 * b <= a2 * ONE) by (nonlinear_arith)
        requires
            0 <= a1 <= a2,
            0 <= b <= ONE,
    ;
    lemma_tdiv_monotone(a1 * b, a2 * b, ONE as int);
    lemma_tdiv_monotone(a2 * b, a2 * ONE, ONE as int);
    lemma_tdiv_bound(a1 * b, ONE as int, a1 * b);
    assert((a2 * ONE) / (ONE as int) == a2);
}

/// The fixed-point product of two scalars.
pub fn fixed_mul(a: i64, b: i64) -> (r: i64)
    requires
        i64::MIN <= fx_mul(a as int, b as int) <= i64::MAX,
    ensures
        r == fx_mul(a as int, b as int),
{
    assert(-0x4000_0000_0000_0000_0000_0000_0000_0000 <= a * b <= 0x4000_0000_0000_0000_0000_0000_0000_0000)
        by (nonlinear_arith)
        requires
            i64::MIN <= a <= i64::MAX,
            i64::MIN <= b <= i64::MAX,
    ;
    trunc_div(a as i128 * b as i128, ONE as i128) as i64
}

/// The fixed-point quotient of two scalars.
pub fn fixed_div(a: i64, b: i64) -> (r: i64)
    requires
        b != 0,
        i64::MIN <= fx_div(a as int, b as int) <= i64::MAX,
    ensures
        r == fx_div(a as int, b as int),
{
    trunc_div(a as i128 * ONE as i128, b as i128) as i64
}

/// Clamps `x` into `[lo, hi]`.
pub open spec fn clamp_spec(x: int, lo: int, hi: int) -> int {
    if x < lo {
        lo
    } else if x > hi {
        hi
    } else {
        x
    }
}

/// Rounds `x` into the range of a vector component.
pub fn saturate(x: i128) -> (r: i64)
    ensures
        r == sat(x as int),
{
    if x < -(LIMIT as i128) {
        -LIMIT
    } else if x > LIMIT as i128 {
        LIMIT
    } else {
        x as i64
    }
}

/// Division rounding toward zero.
pub fn trunc_div(a: i128, b: i128) -> (q: i128)
    requires
        b != 0,
        a != i128::MIN,
        b != i128::MIN,
    ensures
        q == tdiv(a as int, b as int),
{
    if b > 0 {
        a / b
    } else {
        (-a) / (-b)
    }
}

/// The integer square root of `n`.
pub fn isqrt(n: u128) -> (r: u128)
    ensures
        is_isqrt(n as int, r as int),
        r == sqrt_floor(n as int),
        r < 0x1_0000_0000_0000_0000,
{
    let mut lo: u128 = 0;
    let mut hi: u128 = 0x1_0000_0000_0000_0000;
    assert(n < hi * hi) by (nonlinear_arith)
        requires
            hi == 0x1_0000_0000_0000_0000u128,
            n <= u128::MAX,
    ;
    while hi - lo > 1
        invariant
            lo < hi <= 0x1_0000_0000_0000_0000u128,
            lo * lo <= n,
            n < hi * hi,
        decreases hi - lo,
    {
        let mid: u128 = lo + (hi - lo) / 2;
        assert(mid * mid < 0x1_0000_0000_0000_0000_0000_0000_0000_0000) by (nonlinear_arith)
            requires
                mid < 0x1_0000_0000_0000_0000u128,
        ;
        if mid * mid <= n {
            lo = mid;
        } else {
            hi = mid;
        }
    }
    assert(hi == lo + 1);
    proof {
        let s = sqrt_floor(n as int);
        assert(is_isqrt(n as int, lo as int));
        assert(is_isqrt(n as int, s));
        lemma_isqrt_unique(n as int, lo as int, s);
    }
    lo
}

/// Relies on `num::clamp`: the input when it lies in `[lo, hi]`, else the
/// nearer bound.
#[verifier::external_body]
pub(crate) fn clamp(x: i64, lo: i64, hi: i64) -> (r: i64)
    requires
        lo <= hi,
    ensures
        r == clamp_spec(x as int, lo as int, hi as int),
{
    num::clamp(x, lo, hi)
}

} // verus!
