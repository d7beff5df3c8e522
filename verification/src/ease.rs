//! Easing: pure maps from a normalized progress value to an eased progress
//! value, selected by a tag.  Progress and results are fixed-point integers
//! in millionths (`UNIT` is one).  Input is clamped to `[0, UNIT]`, results
//! to `[-UNIT, 2 * UNIT]`; trigonometric and exponential shapes use exact
//! rational approximations (a quotient of quadratics for the half-wave sine,
//! a quadratic fit for the binary exponential), so every tag is a total,
//! deterministic integer function.

use vstd::prelude::*;
use crate::UNIT;

verus! {

/// One in fixed point, as a spec integer.
pub open spec fn unit() -> int {
    UNIT as int
}

/// Clamp a progress value into `[0, UNIT]`.
pub open spec fn clamp_unit(p: int) -> int {
    if p < 0 {
        0
    } else if p > unit() {
        unit()
    } else {
        p
    }
}

/// Clamp an eased value into `[-UNIT, 2 * UNIT]`.
pub open spec fn clamp_eased(v: int) -> int {
    if v < -unit() {
        -unit()
    } else if v > 2 * unit() {
        2 * unit()
    } else {
        v
    }
}

/// Half-wave sine: `sin(pi * x / UNIT)` in millionths for `x` in
/// `[0, UNIT]`, by the classical rational approximation
/// `16 t (1 - t) / (5 - 4 t (1 - t))`.
pub open spec fn sin_pi(x: int) -> int {
    let a = x * (unit() - x);
    (16 * a * unit()) / (5 * unit() * unit() - 4 * a)
}

/// Full sine over any nonnegative argument in millionths of pi.
pub open spec fn sin_wave(x: int) -> int {
    let m = x % (2 * unit());
    if m < unit() {
        sin_pi(m)
    } else {
        -sin_pi(m - unit())
    }
}

/// Two to the `k`.
pub open spec fn pow2(k: nat) -> int
    decreases k,
{
    if k == 0 {
        1
    } else {
        2 * pow2((k - 1) as nat)
    }
}

/// `2^(f / UNIT)` in millionths for `f` in `[0, UNIT]`, by a quadratic fit
/// that is exact at both ends.
pub open spec fn exp2_frac(f: int) -> int {
    unit() + (652 * f) / 1000 + (348 * f * f) / (1000 * unit())
}

/// `2^(-t / UNIT)` in millionths for `t >= 0`.
pub open spec fn exp2_neg(t: int) -> int {
    let k = t / unit();
    let f = t % unit();
    exp2_frac(unit() - f) / (2 * pow2(k as nat))
}

/// Floor of the square root.
pub open spec fn isqrt(x: int) -> int
    decreases x,
{
    if x <= 0 {
        0
    } else {
        let r = isqrt(x - 1);
        if (r + 1) * (r + 1) <= x {
            r + 1
        } else {
            r
        }
    }
}

/// `(a * b) / d` with the division truncated toward zero, for `b >= 0` and
/// `d > 0`.
pub open spec fn scaled(a: int, b: int, d: int) -> int {
    if a >= 0 {
        (a * b) / d
    } else {
        -(((-a) * b) / d)
    }
}

/// Easing shapes.
#[derive(Clone, Copy, PartialEq, Eq, Structural, Debug)]
pub enum EaseFunction {
    EaseQuadraticIn,
    EaseQuadraticOut,
    EaseQuadraticInOut,
    EaseCubicIn,
    EaseCubicOut,
    EaseCubicInOut,
    EaseQuarticIn,
    EaseQuarticOut,
    EaseQuarticInOut,
    EaseQuinticIn,
    EaseQuinticOut,
    EaseQuinticInOut,
    EaseSineIn,
    EaseSineOut,
    EaseSineInOut,
    EaseCircularIn,
    EaseCircularOut,
    EaseCircularInOut,
    EaseExponentialIn,
    EaseExponentialOut,
    EaseExponentialInOut,
    EaseElasticIn,
    EaseElasticOut,
    EaseElasticInOut,
    EaseBackIn,
    EaseBackOut,
    EaseBackInOut,
    EaseBounceIn,
    EaseBounceOut,
    EaseBounceInOut,
}

/// The eased value before the outer clamp, on an already-clamped progress
/// `q` in `[0, UNIT]`.
pub open spec fn ease_raw(f: EaseFunction, q: int) -> int {
    let u = unit();
    let g = u - q;
    match f {
        EaseFunction::EaseQuadraticIn => (q * q) / u,
        EaseFunction::EaseQuadraticOut => (q * (2 * u - q)) / u,
        EaseFunction::EaseQuadraticInOut => if q < u / 2 {
            (2 * q * q) / u
        } else {
            (4 * q * u - 2 * q * q - u * u) / u
        },
        EaseFunction::EaseCubicIn => (q * q * q) / (u * u),
        EaseFunction::EaseCubicOut => (u * u * u - g * g * g) / (u * u),
        EaseFunction::EaseCubicInOut => if q < u / 2 {
            (4 * q * q * q) / (u * u)
        } else {
            (u * u * u - 4 * g * g * g) / (u * u)
        },
        EaseFunction::EaseQuarticIn => (q * q * q * q) / (u * u * u),
        EaseFunction::EaseQuarticOut => (u * u * u * u - g * g * g * g) / (u * u * u),
        EaseFunction::EaseQuarticInOut => if q < u / 2 {
            (8 * q * q * q * q) / (u * u * u)
        } else {
            (u * u * u * u - 8 * g * g * g * g) / (u * u * u)
        },
        EaseFunction::EaseQuinticIn => (q * q * q * q * q) / (u * u * u * u),
        EaseFunction::EaseQuinticOut => (u * u * u * u * u - g * g * g * g * g) / (u * u * u * u),
        EaseFunction::EaseQuinticInOut => if q < u / 2 {
            (16 * q * q * q * q * q) / (u * u * u * u)
        } else {
            (u * u * u * u * u - 16 * g * g * g * g * g) / (u * u * u * u)
        },
        EaseFunction::EaseSineIn => u - sin_pi(g / 2),
        EaseFunction::EaseSineOut => sin_pi(q / 2),
        EaseFunction::EaseSineInOut => (sin_pi(q / 2) * sin_pi(q / 2)) / u,
        EaseFunction::EaseCircularIn => u - isqrt(u * u - q * q),
        EaseFunction::EaseCircularOut => isqrt((2 * u - q) * q),
        EaseFunction::EaseCircularInOut => if q < u / 2 {
            (u - isqrt(u * u - 4 * q * q)) / 2
        } else {
            (isqrt((3 * u - 2 * q) * (2 * q - u)) + u) / 2
        },
        EaseFunction::EaseExponentialIn => if q == 0 {
            0
        } else {
            exp2_neg(10 * g)
        },
        EaseFunction::EaseExponentialOut => if q == u {
            u
        } else {
            u - exp2_neg(10 * q)
        },
        EaseFunction::EaseExponentialInOut => if q == 0 {
            0
        } else if q == u {
            u
        } else if q < u / 2 {
            exp2_neg(10 * u - 20 * q) / 2
        } else {
            u - exp2_neg(20 * q - 10 * u) / 2
        },
        EaseFunction::EaseElasticIn => scaled(sin_wave((13 * q) / 2), exp2_neg(10 * g), u),
        EaseFunction::EaseElasticOut => u - scaled(
            sin_wave((13 * (q + u)) / 2),
            exp2_neg(10 * q),
            u,
        ),
        EaseFunction::EaseElasticInOut => if q < u / 2 {
            scaled(sin_wave(13 * q), exp2_neg(10 * u - 20 * q), 2 * u)
        } else {
            u + scaled(-sin_wave(13 * q), exp2_neg(20 * q - 10 * u), 2 * u)
        },
        EaseFunction::EaseBackIn => (q * q * q) / (u * u) - (q * sin_pi(q)) / u,
        EaseFunction::EaseBackOut => u - ((g * g * g) / (u * u) - (g * sin_pi(g)) / u),
        EaseFunction::EaseBackInOut => if q < u / 2 {
            scaled((2 * q) * (2 * q) * (2 * q) / (u * u) - ((2 * q) * sin_pi(2 * q)) / u, 1, 2)
        } else {
            u - scaled((2 * g) * (2 * g) * (2 * g) / (u * u) - ((2 * g) * sin_pi(2 * g)) / u, 1, 2)
        },
        EaseFunction::EaseBounceIn => u - bounce_out_raw(g),
        EaseFunction::EaseBounceOut => bounce_out_raw(q),
        EaseFunction::EaseBounceInOut => if q < u / 2 {
            (u - bounce_out_raw(u - 2 * q)) / 2
        } else {
            bounce_out_raw(2 * q - u) / 2 + u / 2
        },
    }
}

/// The piecewise-quadratic bounce, exact in rational arithmetic, on
/// `q` in `[0, UNIT]`.
pub open spec fn bounce_out_raw(q: int) -> int {
    let u = unit();
    if 11 * q < 4 * u {
        (121 * q * q) / (16 * u)
    } else if 11 * q < 8 * u {
        (363 * q * q - 396 * q * u + 136 * u * u) / (40 * u)
    } else if 10 * q < 9 * u {
        (21780 * q * q - 35442 * q * u + 16061 * u * u) / (1805 * u)
    } else {
        (270 * q * q - 513 * q * u + 268 * u * u) / (25 * u)
    }
}

/// The eased value of progress `p` under shape `f`: input clamped to
/// `[0, UNIT]`, output clamped to `[-UNIT, 2 * UNIT]`.
pub open spec fn ease_value(f: EaseFunction, p: int) -> int {
    clamp_eased(ease_raw(f, clamp_unit(p)))
}

/// Product of bounded nonnegative factors is bounded.
pub(crate) proof fn lemma_mul_le(a: int, b: int, ca: int, cb: int)
    requires
        0 <= a <= ca,
        0 <= b <= cb,
    ensures
        0 <= a * b <= ca * cb,
{
    assert(0 <= a * b <= ca * cb) by (nonlinear_arith)
        requires
            0 <= a <= ca,
            0 <= b <= cb,
    ;
}

/// A quotient bounded through its numerator: `a <= d * c` gives `a / d <= c`.
pub(crate) proof fn lemma_div_le_c(a: int, d: int, c: int)
    requires
        0 <= a,
        0 < d,
        a <= d * c,
    ensures
        0 <= a / d <= c,
{
    vstd::arithmetic::div_mod::lemma_div_pos_is_pos(a, d);
    vstd::arithmetic::div_mod::lemma_div_is_ordered(a, d * c, d);
    vstd::arithmetic::div_mod::lemma_div_multiples_vanish(c, d);
}

/// Division of nonnegative fixed-point quantities.
pub(crate) fn divq(a: i128, d: i128) -> (r: i128)
    requires
        0 <= a,
        0 < d,
    ensures
        r as int == a as int / d as int,
        0 <= r <= a,
{
    proof {
        vstd::arithmetic::div_mod::lemma_div_pos_is_pos(a as int, d as int);
        vstd::arithmetic::div_mod::lemma_div_nonincreasing(a as int, d as int);
    }
    ((a as u128) / (d as u128)) as i128
}

/// `(a * b) / d` truncated toward zero, matching `scaled`.
fn scaled_val(a: i128, b: i128, d: i128) -> (r: i128)
    requires
        -4_000_000 <= a <= 4_000_000,
        0 <= b <= 4_000_000,
        0 < d,
    ensures
        r as int == scaled(a as int, b as int, d as int),
        -16_000_000_000_000 <= r <= 16_000_000_000_000,
{
    if a >= 0 {
        proof {
            lemma_mul_le(a as int, b as int, 4_000_000, 4_000_000);
        }
        divq(a * b, d)
    } else {
        proof {
            lemma_mul_le(-a as int, b as int, 4_000_000, 4_000_000);
        }
        -divq((-a) * b, d)
    }
}

/// Clamp the raw progress into `[0, UNIT]`, widening for the arithmetic.
fn clamp_unit_val(p: i64) -> (q: i128)
    ensures
        q as int == clamp_unit(p as int),
        0 <= q <= UNIT as int,
{
    if p < 0 {
        0
    } else if p > UNIT {
        UNIT as i128
    } else {
        p as i128
    }
}

/// Clamp an eased value into `[-UNIT, 2 * UNIT]` and narrow it back.
fn clamp_eased_val(v: i128) -> (r: i64)
    ensures
        r as int == clamp_eased(v as int),
        -(UNIT as int) <= r as int <= 2 * UNIT as int,
{
    if v < -(UNIT as i128) {
        -UNIT
    } else if v > 2 * (UNIT as i128) {
        2 * UNIT
    } else {
        v as i64
    }
}

/// The half-wave sine, executably.
fn sin_pi_val(x: i128) -> (r: i128)
    requires
        0 <= x <= UNIT as int,
    ensures
        r as int == sin_pi(x as int),
        0 <= r <= UNIT as int,
{
    let u: i128 = UNIT as i128;
    proof {
        lemma_mul_le(x as int, (u - x) as int, 1_000_000, 1_000_000);
    }
    let a = x * (u - x);
    proof {
        assert(x as int * (u - x) as int * 4 <= 1_000_000_000_000) by (nonlinear_arith)
            requires
                0 <= x as int <= 1_000_000,
                u as int == 1_000_000,
        ;
        lemma_mul_le(16 * a as int, u as int, 16_000_000_000_000, 1_000_000);
        lemma_div_le_c(
            16 * a as int * u as int,
            5 * u as int * u as int - 4 * a as int,
            1_000_000,
        );
    }
    let num = 16 * a * u;
    let den = 5 * u * u - 4 * a;
    divq(num, den)
}

/// The full sine wave, executably, for arguments in `[0, 13 * UNIT]`.
fn sin_wave_val(x: i128) -> (r: i128)
    requires
        0 <= x <= 13 * UNIT as int,
    ensures
        r as int == sin_wave(x as int),
        -(UNIT as int) <= r <= UNIT as int,
{
    let u: i128 = UNIT as i128;
    let m = x % (2 * u);
    proof {
        vstd::arithmetic::div_mod::lemma_mod_division_less_than_divisor(x as int, 2 * u as int);
        vstd::arithmetic::div_mod::lemma_mod_bound(x as int, 2 * u as int);
    }
    if m < u {
        sin_pi_val(m)
    } else {
        let s = sin_pi_val(m - u);
        -s
    }
}

/// Two to the `k`, executably, for small `k`.
fn pow2_val(k: i128) -> (r: i128)
    requires
        0 <= k <= 20,
    ensures
        r as int == pow2(k as nat),
        1 <= r <= 1_048_576,
{
    proof {
        lemma_pow2_bound(k as nat);
    }
    let mut r: i128 = 1;
    let mut i: i128 = 0;
    while i < k
        invariant
            0 <= i <= k <= 20,
            r as int == pow2(i as nat),
            1 <= r <= 1_048_576,
        decreases k - i,
    {
        proof {
            lemma_pow2_bound((i + 1) as nat);
        }
        r = 2 * r;
        i = i + 1;
    }
    r
}

/// Powers of two are positive.
proof fn lemma_pow2_pos(k: nat)
    ensures
        1 <= pow2(k),
    decreases k,
{
    if k > 0 {
        lemma_pow2_pos((k - 1) as nat);
    }
}

/// Powers of two grow with the exponent.
proof fn lemma_pow2_mono(j: nat, k: nat)
    requires
        j <= k,
    ensures
        pow2(j) <= pow2(k),
    decreases k,
{
    lemma_pow2_pos(j);
    if j < k {
        lemma_pow2_mono(j, (k - 1) as nat);
        lemma_pow2_pos((k - 1) as nat);
    }
}

/// Powers of two up to the twentieth stay within a million-odd.
proof fn lemma_pow2_bound(k: nat)
    requires
        k <= 20,
    ensures
        1 <= pow2(k) <= 1_048_576,
{
    lemma_pow2_pos(k);
    lemma_pow2_mono(k, 20);
    reveal_with_fuel(pow2, 21);
    assert(pow2(20) == 1_048_576);
}

/// The quadratic fit of the binary exponential, executably.
fn exp2_frac_val(f: i128) -> (r: i128)
    requires
        0 <= f <= UNIT as int,
    ensures
        r as int == exp2_frac(f as int),
        UNIT as int <= r <= 2 * UNIT as int,
{
    let u: i128 = UNIT as i128;
    proof {
        lemma_mul_le(348 * f as int, f as int, 348_000_000, 1_000_000);
        lemma_div_le_c(652 * f as int, 1000, 652_000);
        lemma_div_le_c(348 * f as int * f as int, 1000 * u as int, 348_000);
    }
    u + divq(652 * f, 1000) + divq(348 * f * f, 1000 * u)
}

/// `2^(-t / UNIT)` in millionths, executably.
fn exp2_neg_val(t: i128) -> (r: i128)
    requires
        0 <= t <= 20 * UNIT as int,
    ensures
        r as int == exp2_neg(t as int),
        0 <= r <= UNIT as int,
{
    let u: i128 = UNIT as i128;
    let k = divq(t, u);
    proof {
        vstd::arithmetic::div_mod::lemma_fundamental_div_mod(t as int, u as int);
        vstd::arithmetic::div_mod::lemma_mod_division_less_than_divisor(t as int, u as int);
        vstd::arithmetic::div_mod::lemma_mod_bound(t as int, u as int);
        lemma_div_le_c(t as int, u as int, 20);
    }
    let f = t - k * u;
    proof {
        assert(f as int == t as int % u as int);
    }
    let ef = exp2_frac_val(u - f);
    let den = 2 * pow2_val(k);
    proof {
        lemma_div_le_c(ef as int, den as int, 1_000_000);
    }
    divq(ef, den)
}

/// The floor square root brackets its argument between consecutive squares.
proof fn lemma_isqrt_props(x: int)
    requires
        x >= 0,
    ensures
        isqrt(x) >= 0,
        isqrt(x) * isqrt(x) <= x,
        x < (isqrt(x) + 1) * (isqrt(x) + 1),
    decreases x,
{
    if x > 0 {
        lemma_isqrt_props(x - 1);
        let r = isqrt(x - 1);
        if (r + 1) * (r + 1) <= x {
            assert((r + 1 + 1) * (r + 1 + 1) > (r + 1) * (r + 1)) by (nonlinear_arith)
                requires
                    r >= 0,
            ;
        }
    }
}

/// Any value bracketed between consecutive squares is the floor square root.
proof fn lemma_isqrt_unique(x: int, r: int)
    requires
        x >= 0,
        r >= 0,
        r * r <= x,
        x < (r + 1) * (r + 1),
    ensures
        r == isqrt(x),
{
    lemma_isqrt_props(x);
    let s = isqrt(x);
    if r < s {
        assert((r + 1) * (r + 1) <= s * s) by (nonlinear_arith)
            requires
                0 <= r,
                r + 1 <= s,
        ;
    }
    if s < r {
        assert((s + 1) * (s + 1) <= r * r) by (nonlinear_arith)
            requires
                0 <= s,
                s + 1 <= r,
        ;
    }
}

/// The floor square root, executably, by bisection.
fn isqrt_val(x: i128) -> (r: i128)
    requires
        0 <= x <= 9_000_000_000_000,
    ensures
        r as int == isqrt(x as int),
        0 <= r <= 3_000_000,
{
    let mut lo: i128 = 0;
    let mut hi: i128 = 3_000_000;
    proof {
        assert(x < 3_000_001 * 3_000_001);
    }
    while lo < hi
        invariant
            0 <= lo <= hi <= 3_000_000,
            lo * lo <= x,
            x < (hi + 1) * (hi + 1),
        decreases hi - lo,
    {
        let mid = lo + (hi - lo + 1) / 2;
        proof {
            lemma_mul_le(mid as int, mid as int, 3_000_000, 3_000_000);
        }
        if mid * mid <= x {
            lo = mid;
        } else {
            hi = mid - 1;
        }
    }
    proof {
        lemma_isqrt_unique(x as int, lo as int);
    }
    lo
}

/// The piecewise-quadratic bounce, executably.
fn bounce_out_val(q: i128) -> (r: i128)
    requires
        0 <= q <= UNIT as int,
    ensures
        r as int == bounce_out_raw(q as int),
        0 <= r <= UNIT as int,
{
    let u: i128 = UNIT as i128;
    let ghost qi = q as int;
    let ghost ui = u as int;
    proof {
        lemma_mul_le(qi, qi, 1_000_000, 1_000_000);
    }
    if 11 * q < 4 * u {
        proof {
            assert(121 * qi * qi <= 16 * ui * ui) by (nonlinear_arith)
                requires
                    0 <= qi,
                    11 * qi < 4 * ui,
                    ui == 1_000_000,
            ;
            lemma_div_le_c(121 * qi * qi, 16 * ui, 1_000_000);
        }
        divq(121 * q * q, 16 * u)
    } else if 11 * q < 8 * u {
        proof {
            assert(0 <= 363 * qi * qi - 396 * qi * ui + 136 * ui * ui <= 40 * ui * ui)
                by (nonlinear_arith)
                requires
                    4 * ui <= 11 * qi,
                    11 * qi < 8 * ui,
                    ui == 1_000_000,
            ;
            lemma_div_le_c(363 * qi * qi - 396 * qi * ui + 136 * ui * ui, 40 * ui, 1_000_000);
        }
        divq(363 * q * q - 396 * q * u + 136 * u * u, 40 * u)
    } else if 10 * q < 9 * u {
        proof {
            assert(0 <= 21780 * qi * qi - 35442 * qi * ui + 16061 * ui * ui <= 1805 * ui * ui)
                by (nonlinear_arith)
                requires
                    8 * ui <= 11 * qi,
                    10 * qi < 9 * ui,
                    qi <= 1_000_000,
                    ui == 1_000_000,
            ;
            lemma_div_le_c(21780 * qi * qi - 35442 * qi * ui + 16061 * ui * ui, 1805 * ui, 1_000_000);
        }
        divq(21780 * q * q - 35442 * q * u + 16061 * u * u, 1805 * u)
    } else {
        proof {
            assert(0 <= 270 * qi * qi - 513 * qi * ui + 268 * ui * ui <= 25 * ui * ui)
                by (nonlinear_arith)
                requires
                    9 * ui <= 10 * qi,
                    qi <= 1_000_000,
                    ui == 1_000_000,
            ;
            lemma_div_le_c(270 * qi * qi - 513 * qi * ui + 268 * ui * ui, 25 * ui, 1_000_000);
        }
        divq(270 * q * q - 513 * q * u + 268 * u * u, 25 * u)
    }
}

/// A square root of a value below the square stays below the root.
proof fn lemma_isqrt_le(x: int, c: int)
    requires
        0 <= x,
        0 <= c,
        x <= c * c,
    ensures
        isqrt(x) <= c,
{
    lemma_isqrt_props(x);
    let s = isqrt(x);
    if s > c {
        assert((c + 1) * (c + 1) <= s * s) by (nonlinear_arith)
            requires
                0 <= c,
                c + 1 <= s,
        ;
        assert(c * c < (c + 1) * (c + 1)) by (nonlinear_arith)
            requires
                0 <= c,
        ;
    }
}

/// Apply a quadratic ease.
pub fn quadratic_in(p: i64) -> (r: i64)
    ensures
        r as int == ease_value(EaseFunction::EaseQuadraticIn, p as int),
{
    let u: i128 = UNIT as i128;
    let q = clamp_unit_val(p);
    proof {
        lemma_mul_le(q as int, q as int, 1_000_000, 1_000_000);
    }
    clamp_eased_val(divq(q * q, u))
}

/// Apply a quadratic ease, decelerating.
pub fn quadratic_out(p: i64) -> (r: i64)
    ensures
        r as int == ease_value(EaseFunction::EaseQuadraticOut, p as int),
{
    let u: i128 = UNIT as i128;
    let q = clamp_unit_val(p);
    proof {
        lemma_mul_le(q as int, (2 * u - q) as int, 1_000_000, 2_000_000);
    }
    clamp_eased_val(divq(q * (2 * u - q), u))
}

/// Apply a quadratic ease in and out.
pub fn quadratic_in_out(p: i64) -> (r: i64)
    ensures
        r as int == ease_value(EaseFunction::EaseQuadraticInOut, p as int),
{
    let u: i128 = UNIT as i128;
    let q = clamp_unit_val(p);
    proof {
        lemma_mul_le(q as int, q as int, 1_000_000, 1_000_000);
    }
    if q < u / 2 {
        proof {
            lemma_mul_le(2 * q as int, q as int, 2_000_000, 1_000_000);
        }
        clamp_eased_val(divq(2 * q * q, u))
    } else {
        proof {
            assert(0 <= 4 * q as int * u as int - 2 * q as int * q as int - u as int * u as int)
                by (nonlinear_arith)
                requires
                    u as int == 1_000_000,
                    500_000 <= q as int <= 1_000_000,
            ;
            lemma_mul_le(4 * q as int, u as int, 4_000_000, 1_000_000);
        }
        clamp_eased_val(divq(4 * q * u - 2 * q * q - u * u, u))
    }
}

/// Apply a cubic ease.
pub fn cubic_in(p: i64) -> (r: i64)
    ensures
        r as int == ease_value(EaseFunction::EaseCubicIn, p as int),
{
    let u: i128 = UNIT as i128;
    let q = clamp_unit_val(p);
    proof {
        lemma_mul_le(q as int, q as int, 1_000_000, 1_000_000);
        lemma_mul_le(q as int * q as int, q as int, 1_000_000_000_000, 1_000_000);
    }
    clamp_eased_val(divq(q * q * q, u * u))
}

/// Apply a cubic ease, decelerating.
pub fn cubic_out(p: i64) -> (r: i64)
    ensures
        r as int == ease_value(EaseFunction::EaseCubicOut, p as int),
{
    let u: i128 = UNIT as i128;
    let q = clamp_unit_val(p);
    let g = u - q;
    proof {
        lemma_mul_le(g as int, g as int, 1_000_000, 1_000_000);
        lemma_mul_le(g as int * g as int, g as int, 1_000_000_000_000, 1_000_000);
    }
    clamp_eased_val(divq(u * u * u - g * g * g, u * u))
}

/// Apply a cubic ease in and out.
pub fn cubic_in_out(p: i64) -> (r: i64)
    ensures
        r as int == ease_value(EaseFunction::EaseCubicInOut, p as int),
{
    let u: i128 = UNIT as i128;
    let q = clamp_unit_val(p);
    let g = u - q;
    if q < u / 2 {
        proof {
            lemma_mul_le(4 * q as int, q as int, 4_000_000, 1_000_000);
            lemma_mul_le(4 * q as int * q as int, q as int, 4_000_000_000_000, 1_000_000);
        }
        clamp_eased_val(divq(4 * q * q * q, u * u))
    } else {
        proof {
            lemma_mul_le(4 * g as int, g as int, 2_000_000, 500_000);
            lemma_mul_le(4 * g as int * g as int, g as int, 1_000_000_000_000, 500_000);
        }
        clamp_eased_val(divq(u * u * u - 4 * g * g * g, u * u))
    }
}

/// Apply a quartic ease.
pub fn quartic_in(p: i64) -> (r: i64)
    ensures
        r as int == ease_value(EaseFunction::EaseQuarticIn, p as int),
{
    let u: i128 = UNIT as i128;
    let q = clamp_unit_val(p);
    proof {
        lemma_mul_le(q as int, q as int, 1_000_000, 1_000_000);
        lemma_mul_le(q as int * q as int, q as int, 1_000_000_000_000, 1_000_000);
        lemma_mul_le(q as int * q as int * q as int, q as int, 1_000_000_000_000_000_000, 1_000_000);
    }
    clamp_eased_val(divq(q * q * q * q, u * u * u))
}

/// Apply a quartic ease, decelerating.
pub fn quartic_out(p: i64) -> (r: i64)
    ensures
        r as int == ease_value(EaseFunction::EaseQuarticOut, p as int),
{
    let u: i128 = UNIT as i128;
    let q = clamp_unit_val(p);
    let g = u - q;
    proof {
        lemma_mul_le(g as int, g as int, 1_000_000, 1_000_000);
        lemma_mul_le(g as int * g as int, g as int, 1_000_000_000_000, 1_000_000);
        lemma_mul_le(g as int * g as int * g as int, g as int, 1_000_000_000_000_000_000, 1_000_000);
    }
    clamp_eased_val(divq(u * u * u * u - g * g * g * g, u * u * u))
}

/// Apply a quartic ease in and out.
pub fn quartic_in_out(p: i64) -> (r: i64)
    ensures
        r as int == ease_value(EaseFunction::EaseQuarticInOut, p as int),
{
    let u: i128 = UNIT as i128;
    let q = clamp_unit_val(p);
    let g = u - q;
    if q < u / 2 {
        proof {
            lemma_mul_le(8 * q as int, q as int, 8_000_000, 1_000_000);
            lemma_mul_le(8 * q as int * q as int, q as int, 8_000_000_000_000, 1_000_000);
            lemma_mul_le(8 * q as int * q as int * q as int, q as int, 8_000_000_000_000_000_000, 1_000_000);
        }
        clamp_eased_val(divq(8 * q * q * q * q, u * u * u))
    } else {
        proof {
            lemma_mul_le(8 * g as int, g as int, 4_000_000, 500_000);
            lemma_mul_le(8 * g as int * g as int, g as int, 2_000_000_000_000, 500_000);
            lemma_mul_le(8 * g as int * g as int * g as int, g as int, 1_000_000_000_000_000_000, 500_000);
        }
        clamp_eased_val(divq(u * u * u * u - 8 * g * g * g * g, u * u * u))
    }
}

/// Apply a quintic ease.
pub fn quintic_in(p: i64) -> (r: i64)
    ensures
        r as int == ease_value(EaseFunction::EaseQuinticIn, p as int),
{
    let u: i128 = UNIT as i128;
    let q = clamp_unit_val(p);
    proof {
        lemma_mul_le(q as int, q as int, 1_000_000, 1_000_000);
        lemma_mul_le(q as int * q as int, q as int, 1_000_000_000_000, 1_000_000);
        lemma_mul_le(q as int * q as int * q as int, q as int, 1_000_000_000_000_000_000, 1_000_000);
        lemma_mul_le(
            q as int * q as int * q as int * q as int,
            q as int,
            1_000_000_000_000_000_000_000_000,
            1_000_000,
        );
    }
    clamp_eased_val(divq(q * q * q * q * q, u * u * u * u))
}

/// Apply a quintic ease, decelerating.
pub fn quintic_out(p: i64) -> (r: i64)
    ensures
        r as int == ease_value(EaseFunction::EaseQuinticOut, p as int),
{
    let u: i128 = UNIT as i128;
    let q = clamp_unit_val(p);
    let g = u - q;
    proof {
        lemma_mul_le(g as int, g as int, 1_000_000, 1_000_000);
        lemma_mul_le(g as int * g as int, g as int, 1_000_000_000_000, 1_000_000);
        lemma_mul_le(g as int * g as int * g as int, g as int, 1_000_000_000_000_000_000, 1_000_000);
        lemma_mul_le(
            g as int * g as int * g as int * g as int,
            g as int,
            1_000_000_000_000_000_000_000_000,
            1_000_000,
        );
    }
    clamp_eased_val(divq(u * u * u * u * u - g * g * g * g * g, u * u * u * u))
}

/// Apply a quintic ease in and out.
pub fn quintic_in_out(p: i64) -> (r: i64)
    ensures
        r as int == ease_value(EaseFunction::EaseQuinticInOut, p as int),
{
    let u: i128 = UNIT as i128;
    let q = clamp_unit_val(p);
    let g = u - q;
    if q < u / 2 {
        proof {
            lemma_mul_le(16 * q as int, q as int, 16_000_000, 1_000_000);
            lemma_mul_le(16 * q as int * q as int, q as int, 16_000_000_000_000, 1_000_000);
            lemma_mul_le(16 * q as int * q as int * q as int, q as int, 16_000_000_000_000_000_000, 1_000_000);
            lemma_mul_le(
                16 * q as int * q as int * q as int * q as int,
                q as int,
                16_000_000_000_000_000_000_000_000,
                1_000_000,
            );
        }
        clamp_eased_val(divq(16 * q * q * q * q * q, u * u * u * u))
    } else {
        proof {
            lemma_mul_le(16 * g as int, g as int, 8_000_000, 500_000);
            lemma_mul_le(16 * g as int * g as int, g as int, 4_000_000_000_000, 500_000);
            lemma_mul_le(16 * g as int * g as int * g as int, g as int, 2_000_000_000_000_000_000, 500_000);
            lemma_mul_le(
                16 * g as int * g as int * g as int * g as int,
                g as int,
                1_000_000_000_000_000_000_000_000,
                500_000,
            );
        }
        clamp_eased_val(divq(u * u * u * u * u - 16 * g * g * g * g * g, u * u * u * u))
    }
}

/// Apply a sinusoidal ease.
pub fn sine_in(p: i64) -> (r: i64)
    ensures
        r as int == ease_value(EaseFunction::EaseSineIn, p as int),
{
    let u: i128 = UNIT as i128;
    let q = clamp_unit_val(p);
    let g = u - q;
    let s = sin_pi_val(divq(g, 2));
    clamp_eased_val(u - s)
}

/// Apply a sinusoidal ease, decelerating.
pub fn sine_out(p: i64) -> (r: i64)
    ensures
        r as int == ease_value(EaseFunction::EaseSineOut, p as int),
{
    let q = clamp_unit_val(p);
    let s = sin_pi_val(divq(q, 2));
    clamp_eased_val(s)
}

/// Apply a sinusoidal ease in and out.
pub fn sine_in_out(p: i64) -> (r: i64)
    ensures
        r as int == ease_value(EaseFunction::EaseSineInOut, p as int),
{
    let u: i128 = UNIT as i128;
    let q = clamp_unit_val(p);
    let s = sin_pi_val(divq(q, 2));
    proof {
        lemma_mul_le(s as int, s as int, 1_000_000, 1_000_000);
    }
    clamp_eased_val(divq(s * s, u))
}

/// Apply a circular ease.
pub fn circular_in(p: i64) -> (r: i64)
    ensures
        r as int == ease_value(EaseFunction::EaseCircularIn, p as int),
{
    let u: i128 = UNIT as i128;
    let q = clamp_unit_val(p);
    proof {
        lemma_mul_le(q as int, q as int, 1_000_000, 1_000_000);
    }
    let s = isqrt_val(u * u - q * q);
    proof {
        lemma_isqrt_le((u * u - q * q) as int, 1_000_000);
    }
    clamp_eased_val(u - s)
}

/// Apply a circular ease, decelerating.
pub fn circular_out(p: i64) -> (r: i64)
    ensures
        r as int == ease_value(EaseFunction::EaseCircularOut, p as int),
{
    let u: i128 = UNIT as i128;
    let q = clamp_unit_val(p);
    proof {
        lemma_mul_le((2 * u - q) as int, q as int, 2_000_000, 1_000_000);
    }
    clamp_eased_val(isqrt_val((2 * u - q) * q))
}

/// Apply a circular ease in and out.
pub fn circular_in_out(p: i64) -> (r: i64)
    ensures
        r as int == ease_value(EaseFunction::EaseCircularInOut, p as int),
{
    let u: i128 = UNIT as i128;
    let q = clamp_unit_val(p);
    if q < u / 2 {
        proof {
            lemma_mul_le(4 * q as int, q as int, 2_000_000, 500_000);
            assert(4 * q as int * q as int <= u as int * u as int) by (nonlinear_arith)
                requires
                    0 <= (q as int) < 500_000,
                    u as int == 1_000_000,
            ;
        }
        let s = isqrt_val(u * u - 4 * q * q);
        proof {
            lemma_isqrt_le((u * u - 4 * q * q) as int, 1_000_000);
        }
        clamp_eased_val(divq(u - s, 2))
    } else {
        proof {
            lemma_mul_le((3 * u - 2 * q) as int, (2 * q - u) as int, 2_000_000, 1_000_000);
        }
        let s = isqrt_val((3 * u - 2 * q) * (2 * q - u));
        clamp_eased_val(divq(s + u, 2))
    }
}

/// Apply an exponential ease.
pub fn exponential_in(p: i64) -> (r: i64)
    ensures
        r as int == ease_value(EaseFunction::EaseExponentialIn, p as int),
{
    let u: i128 = UNIT as i128;
    let q = clamp_unit_val(p);
    if q == 0 {
        clamp_eased_val(0)
    } else {
        clamp_eased_val(exp2_neg_val(10 * (u - q)))
    }
}

/// Apply an exponential ease, decelerating.
pub fn exponential_out(p: i64) -> (r: i64)
    ensures
        r as int == ease_value(EaseFunction::EaseExponentialOut, p as int),
{
    let u: i128 = UNIT as i128;
    let q = clamp_unit_val(p);
    if q == u {
        clamp_eased_val(u)
    } else {
        clamp_eased_val(u - exp2_neg_val(10 * q))
    }
}

/// Apply an exponential ease in and out.
pub fn exponential_in_out(p: i64) -> (r: i64)
    ensures
        r as int == ease_value(EaseFunction::EaseExponentialInOut, p as int),
{
    let u: i128 = UNIT as i128;
    let q = clamp_unit_val(p);
    if q == 0 {
        clamp_eased_val(0)
    } else if q == u {
        clamp_eased_val(u)
    } else if q < u / 2 {
        clamp_eased_val(divq(exp2_neg_val(10 * u - 20 * q), 2))
    } else {
        clamp_eased_val(u - divq(exp2_neg_val(20 * q - 10 * u), 2))
    }
}

/// Apply an elastic ease.
pub fn elastic_in(p: i64) -> (r: i64)
    ensures
        r as int == ease_value(EaseFunction::EaseElasticIn, p as int),
{
    let u: i128 = UNIT as i128;
    let q = clamp_unit_val(p);
    let s = sin_wave_val(divq(13 * q, 2));
    let e = exp2_neg_val(10 * (u - q));
    clamp_eased_val(scaled_val(s, e, u))
}

/// Apply an elastic ease, decelerating.
pub fn elastic_out(p: i64) -> (r: i64)
    ensures
        r as int == ease_value(EaseFunction::EaseElasticOut, p as int),
{
    let u: i128 = UNIT as i128;
    let q = clamp_unit_val(p);
    let s = sin_wave_val(divq(13 * (q + u), 2));
    let e = exp2_neg_val(10 * q);
    clamp_eased_val(u - scaled_val(s, e, u))
}

/// Apply an elastic ease in and out.
pub fn elastic_in_out(p: i64) -> (r: i64)
    ensures
        r as int == ease_value(EaseFunction::EaseElasticInOut, p as int),
{
    let u: i128 = UNIT as i128;
    let q = clamp_unit_val(p);
    let s = sin_wave_val(13 * q);
    if q < u / 2 {
        let e = exp2_neg_val(10 * u - 20 * q);
        clamp_eased_val(scaled_val(s, e, 2 * u))
    } else {
        let e = exp2_neg_val(20 * q - 10 * u);
        clamp_eased_val(u + scaled_val(-s, e, 2 * u))
    }
}

/// Apply a back ease (overshooting backwards first).
pub fn back_in(p: i64) -> (r: i64)
    ensures
        r as int == ease_value(EaseFunction::EaseBackIn, p as int),
{
    let u: i128 = UNIT as i128;
    let q = clamp_unit_val(p);
    let s = sin_pi_val(q);
    proof {
        lemma_mul_le(q as int, q as int, 1_000_000, 1_000_000);
        lemma_mul_le(q as int * q as int, q as int, 1_000_000_000_000, 1_000_000);
        lemma_mul_le(q as int, s as int, 1_000_000, 1_000_000);
    }
    clamp_eased_val(divq(q * q * q, u * u) - divq(q * s, u))
}

/// Apply a back ease, decelerating.
pub fn back_out(p: i64) -> (r: i64)
    ensures
        r as int == ease_value(EaseFunction::EaseBackOut, p as int),
{
    let u: i128 = UNIT as i128;
    let q = clamp_unit_val(p);
    let g = u - q;
    let s = sin_pi_val(g);
    proof {
        lemma_mul_le(g as int, g as int, 1_000_000, 1_000_000);
        lemma_mul_le(g as int * g as int, g as int, 1_000_000_000_000, 1_000_000);
        lemma_mul_le(g as int, s as int, 1_000_000, 1_000_000);
    }
    clamp_eased_val(u - (divq(g * g * g, u * u) - divq(g * s, u)))
}

/// Apply a back ease in and out.
pub fn back_in_out(p: i64) -> (r: i64)
    ensures
        r as int == ease_value(EaseFunction::EaseBackInOut, p as int),
{
    let u: i128 = UNIT as i128;
    let q = clamp_unit_val(p);
    let g = u - q;
    if q < u / 2 {
        let f = 2 * q;
        let s = sin_pi_val(f);
        proof {
            lemma_mul_le(f as int, f as int, 1_000_000, 1_000_000);
            lemma_mul_le(f as int * f as int, f as int, 1_000_000_000_000, 1_000_000);
            lemma_mul_le(f as int, s as int, 1_000_000, 1_000_000);
            lemma_div_le_c(f as int * f as int * f as int, u as int * u as int, 1_000_000);
            lemma_div_le_c(f as int * s as int, u as int, 1_000_000);
        }
        let inner = divq(f * f * f, u * u) - divq(f * s, u);
        clamp_eased_val(scaled_val(inner, 1, 2))
    } else {
        let f = 2 * g;
        let s = sin_pi_val(f);
        proof {
            lemma_mul_le(f as int, f as int, 1_000_000, 1_000_000);
            lemma_mul_le(f as int * f as int, f as int, 1_000_000_000_000, 1_000_000);
            lemma_mul_le(f as int, s as int, 1_000_000, 1_000_000);
            lemma_div_le_c(f as int * f as int * f as int, u as int * u as int, 1_000_000);
            lemma_div_le_c(f as int * s as int, u as int, 1_000_000);
        }
        let inner = divq(f * f * f, u * u) - divq(f * s, u);
        clamp_eased_val(u - scaled_val(inner, 1, 2))
    }
}

/// Apply a bounce ease.
pub fn bounce_in(p: i64) -> (r: i64)
    ensures
        r as int == ease_value(EaseFunction::EaseBounceIn, p as int),
{
    let u: i128 = UNIT as i128;
    let q = clamp_unit_val(p);
    clamp_eased_val(u - bounce_out_val(u - q))
}

/// Apply a bounce ease, decelerating.
pub fn bounce_out(p: i64) -> (r: i64)
    ensures
        r as int == ease_value(EaseFunction::EaseBounceOut, p as int),
{
    let q = clamp_unit_val(p);
    clamp_eased_val(bounce_out_val(q))
}

/// Apply a bounce ease in and out.
pub fn bounce_in_out(p: i64) -> (r: i64)
    ensures
        r as int == ease_value(EaseFunction::EaseBounceInOut, p as int),
{
    let u: i128 = UNIT as i128;
    let q = clamp_unit_val(p);
    if q < u / 2 {
        let b = bounce_out_val(u - 2 * q);
        clamp_eased_val(divq(u - b, 2))
    } else {
        let b = bounce_out_val(2 * q - u);
        clamp_eased_val(divq(b, 2) + divq(u, 2))
    }
}

impl EaseFunction {
    /// Calculate the eased value for a progress `p`, normalized to the
    /// fixed-point unit.
    pub fn calc(self, p: i64) -> (r: i64)
        ensures
            r as int == ease_value(self, p as int),
    {
        match self {
            EaseFunction::EaseQuadraticIn => quadratic_in(p),
            EaseFunction::EaseQuadraticOut => quadratic_out(p),
            EaseFunction::EaseQuadraticInOut => quadratic_in_out(p),
            EaseFunction::EaseCubicIn => cubic_in(p),
            EaseFunction::EaseCubicOut => cubic_out(p),
            EaseFunction::EaseCubicInOut => cubic_in_out(p),
            EaseFunction::EaseQuarticIn => quartic_in(p),
            EaseFunction::EaseQuarticOut => quartic_out(p),
            EaseFunction::EaseQuarticInOut => quartic_in_out(p),
            EaseFunction::EaseQuinticIn => quintic_in(p),
            EaseFunction::EaseQuinticOut => quintic_out(p),
            EaseFunction::EaseQuinticInOut => quintic_in_out(p),
            EaseFunction::EaseSineIn => sine_in(p),
            EaseFunction::EaseSineOut => sine_out(p),
            EaseFunction::EaseSineInOut => sine_in_out(p),
            EaseFunction::EaseCircularIn => circular_in(p),
            EaseFunction::EaseCircularOut => circular_out(p),
            EaseFunction::EaseCircularInOut => circular_in_out(p),
            EaseFunction::EaseExponentialIn => exponential_in(p),
            EaseFunction::EaseExponentialOut => exponential_out(p),
            EaseFunction::EaseExponentialInOut => exponential_in_out(p),
            EaseFunction::EaseElasticIn => elastic_in(p),
            EaseFunction::EaseElasticOut => elastic_out(p),
            EaseFunction::EaseElasticInOut => elastic_in_out(p),
            EaseFunction::EaseBackIn => back_in(p),
            EaseFunction::EaseBackOut => back_out(p),
            EaseFunction::EaseBackInOut => back_in_out(p),
            EaseFunction::EaseBounceIn => bounce_in(p),
            EaseFunction::EaseBounceOut => bounce_out(p),
            EaseFunction::EaseBounceInOut => bounce_in_out(p),
        }
    }
}

} // verus!
