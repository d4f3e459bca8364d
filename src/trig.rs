//! Sine and cosine of an angle in micro-degrees, as fixed-point integers.
//!
//! The magnitude of the angle is reduced to a first-octant reference angle,
//! which is turned into radians scaled by `SCALE` (`10^18`); there the sine is
//! an alternating Taylor series, each term derived from the one before with
//! truncating division, and the cosine is the integer square root of
//! `SCALE^2 - sin^2`. The sine of a negative angle is the negated sine of its
//! magnitude, so the sine is odd and the cosine even.

use vstd::prelude::*;
use vstd::arithmetic::div_mod::*;
use vstd::arithmetic::mul::*;
use crate::fixed::{
    SCALE, floor_sqrt, is_floor_sqrt, isqrt, lemma_floor_sqrt_exists, lemma_floor_sqrt_is,
};

verus! {

/// Pi scaled by `SCALE`, rounded to the nearest unit.
pub const PI_FINE: u128 = 3_141_592_653_589_793_238;

/// Micro-degrees in half a turn.
pub const HALF_TURN: u64 = 180_000_000;

/// Micro-degrees in a full turn.
pub const FULL_TURN: u64 = 360_000_000;

/// Micro-degrees in a quarter turn.
pub const QUARTER_TURN: u64 = 90_000_000;

/// Micro-degrees in an eighth of a turn.
pub const EIGHTH_TURN: u64 = 45_000_000;

/// The series keep the terms whose power of the angle is below this.
pub const POWER_LIMIT: u64 = 19;

/// `micro_degrees` in radians scaled by `SCALE`, rounded toward zero.
pub open spec fn radians_of(micro_degrees: int) -> int {
    crate::fixed::div_toward_zero(micro_degrees * PI_FINE, HALF_TURN as int)
}

/// The Taylor term of power `p + 2` from that of power `p`, for the angle `x`
/// (both scaled by `SCALE`): `t * x^2 / ((p + 1) * (p + 2))`.
pub open spec fn next_term(x: int, t: int, p: int) -> int {
    t * x / (SCALE as int) * x / (SCALE as int) / ((p + 1) * (p + 2))
}

/// The alternating sum `t - t' + t'' - ...` of the terms from power `p` on,
/// below `POWER_LIMIT`.
pub open spec fn series(x: int, t: int, p: int) -> int
    decreases POWER_LIMIT + 1 - p,
{
    if p >= POWER_LIMIT {
        0
    } else {
        t - series(x, next_term(x, t, p), p + 2)
    }
}

/// Sine of a reference angle in `[0, 45]` degrees, scaled by `SCALE`.
pub open spec fn reference_sin(u: int) -> int {
    series(radians_of(u), radians_of(u), 1)
}

/// Cosine of a reference angle in `[0, 45]` degrees, scaled by `SCALE`.
pub open spec fn reference_cos(u: int) -> int {
    floor_sqrt((SCALE * SCALE - reference_sin(u) * reference_sin(u)) as nat) as int
}

/// Sine and cosine of an angle in `[0, 90)` degrees: above 45 degrees they
/// come from the complementary angle.
pub open spec fn quadrant_sin_cos(u: int) -> (int, int) {
    if u <= EIGHTH_TURN {
        (reference_sin(u), reference_cos(u))
    } else {
        (reference_cos(QUARTER_TURN - u), reference_sin(QUARTER_TURN - u))
    }
}

/// Sine and cosine of a non-negative angle in micro-degrees.
pub open spec fn turn_sin_cos(m: int) -> (int, int) {
    let t = m % (FULL_TURN as int);
    let q = t / (QUARTER_TURN as int);
    let (s, c) = quadrant_sin_cos(t % (QUARTER_TURN as int));
    if q == 0 {
        (s, c)
    } else if q == 1 {
        (c, -s)
    } else if q == 2 {
        (-s, -c)
    } else {
        (-c, s)
    }
}

/// Sine and cosine of any angle in micro-degrees, scaled by `SCALE`.
pub open spec fn sin_cos_of(a: int) -> (int, int) {
    if a >= 0 {
        turn_sin_cos(a)
    } else {
        (-turn_sin_cos(-a).0, turn_sin_cos(-a).1)
    }
}

/// Sine of an angle in micro-degrees, scaled by `SCALE`.
pub open spec fn fixed_sin(a: int) -> int {
    sin_cos_of(a).0
}

/// Cosine of an angle in micro-degrees, scaled by `SCALE`.
pub open spec fn fixed_cos(a: int) -> int {
    sin_cos_of(a).1
}

proof fn lemma_scale_down(t: int, x: int)
    requires
        0 <= t,
        0 <= x <= SCALE,
    ensures
        0 <= t * x / (SCALE as int) <= t,
{
    let s = SCALE as int;
    lemma_mul_inequality(x, s, t);
    lemma_mul_nonnegative(x, t);
    lemma_mul_is_commutative(t, x);
    lemma_mul_is_commutative(t, s);
    lemma_div_is_ordered(t * x, t * s, s);
    lemma_div_is_ordered(0, t * x, s);
    lemma_div_multiples_vanish(t, s);
}

/// Each term of the series is no larger than the one before.
proof fn lemma_next_term_bounds(x: int, t: int, p: int)
    requires
        0 <= t,
        0 <= x <= SCALE,
        0 <= p,
    ensures
        0 <= next_term(x, t, p) <= t,
{
    let s = SCALE as int;
    lemma_scale_down(t, x);
    lemma_scale_down(t * x / s, x);
    let u = t * x / s * x / s;
    let d = (p + 1) * (p + 2);
    lemma_mul_strictly_positive(p + 1, p + 2);
    lemma_div_is_ordered_by_denominator(u, 1, d);
    lemma_div_is_ordered(0, u, d);
}

/// The alternating sum of non-increasing terms lies between zero and its
/// first term.
proof fn lemma_series_bounds(x: int, t: int, p: int)
    requires
        0 <= t,
        0 <= x <= SCALE,
        0 <= p,
    ensures
        0 <= series(x, t, p) <= t,
    decreases POWER_LIMIT + 1 - p,
{
    if p < POWER_LIMIT {
        lemma_next_term_bounds(x, t, p);
        lemma_series_bounds(x, next_term(x, t, p), p + 2);
    }
}

/// A series whose first term is zero sums to zero.
proof fn lemma_series_of_zero(x: int, p: int)
    requires
        0 <= x <= SCALE,
        0 <= p,
    ensures
        series(x, 0, p) == 0,
    decreases POWER_LIMIT + 1 - p,
{
    if p < POWER_LIMIT {
        lemma_next_term_bounds(x, 0, p);
        lemma_series_of_zero(x, p + 2);
    }
}

/// Evaluates `series(x, t, p)`.
fn eval_series(x: u128, t: u128, p: u64) -> (r: u128)
    requires
        x <= SCALE,
        t <= SCALE,
    ensures
        r == series(x as int, t as int, p as int),
    decreases POWER_LIMIT + 1 - p,
{
    if p >= POWER_LIMIT {
        0
    } else {
        proof {
            lemma_next_term_bounds(x as int, t as int, p as int);
            lemma_scale_down(t as int, x as int);
            lemma_mul_upper_bound(t as int, SCALE as int, x as int, SCALE as int);
            lemma_mul_upper_bound(
                t as int * x as int / SCALE as int,
                SCALE as int,
                x as int,
                SCALE as int,
            );
            lemma_series_bounds(x as int, next_term(x as int, t as int, p as int), p + 2);
        }
        assert(1 <= (p + 1) * (p + 2) <= 20 * 21) by (nonlinear_arith)
            requires
                p < 19,
        ;
        let d: u128 = ((p + 1) * (p + 2)) as u128;
        let k: u128 = SCALE as u128;
        let next: u128 = t * x / k * x / k / d;
        let rest: u128 = eval_series(x, next, p + 2);
        t - rest
    }
}

/// Converts an angle in micro-degrees to radians scaled by `SCALE`
/// (`10^18`), rounding toward zero.
pub fn degrees_to_radians(micro_degrees: i64) -> (r: i128)
    ensures
        r == radians_of(micro_degrees as int),
{
    assert(-0x8000_0000_0000_0000 * 3_141_592_653_589_793_238 <= micro_degrees as int * PI_FINE
        <= 0x8000_0000_0000_0000 * 3_141_592_653_589_793_238) by (nonlinear_arith)
        requires
            -0x8000_0000_0000_0000 <= micro_degrees as int <= 0x8000_0000_0000_0000,
    ;
    let product: i128 = micro_degrees as i128 * PI_FINE as i128;
    if product >= 0 {
        product / HALF_TURN as i128
    } else {
        -((-product) / HALF_TURN as i128)
    }
}

/// A reference angle of at most 45 degrees is at most one radian.
proof fn lemma_reference_radians(u: int)
    requires
        0 <= u <= EIGHTH_TURN,
    ensures
        0 <= radians_of(u) <= SCALE,
{
    lemma_mul_inequality(u, EIGHTH_TURN as int, PI_FINE as int);
    lemma_mul_nonnegative(u, PI_FINE as int);
    lemma_div_is_ordered(u * PI_FINE, EIGHTH_TURN * PI_FINE, HALF_TURN as int);
    lemma_div_is_ordered(0, u * PI_FINE, HALF_TURN as int);
}

/// Sine and cosine of a reference angle lie in `[0, S]`, and the sum of
/// their squares is within `2 * S` below `S^2`.
proof fn lemma_reference_bounds(u: int)
    requires
        0 <= u <= EIGHTH_TURN,
    ensures
        0 <= reference_sin(u) <= SCALE,
        0 <= reference_cos(u) <= SCALE,
        SCALE * SCALE - 2 * SCALE <= reference_sin(u) * reference_sin(u) + reference_cos(u)
            * reference_cos(u) <= SCALE * SCALE,
{
    let k = SCALE as int;
    let x = radians_of(u);
    lemma_reference_radians(u);
    lemma_series_bounds(x, x, 1);
    let sn = reference_sin(u);
    assert(0 <= sn * sn <= k * k) by (nonlinear_arith)
        requires
            0 <= sn <= k,
    ;
    let n = (k * k - sn * sn) as nat;
    lemma_floor_sqrt_exists(n);
    let c = reference_cos(u);
    assert(is_floor_sqrt(n as int, c));
    assert(c <= k) by (nonlinear_arith)
        requires
            c * c <= n,
            n <= k * k,
            0 <= c,
            0 < k,
    ;
    assert(k * k - 2 * k <= sn * sn + c * c) by (nonlinear_arith)
        requires
            n < (c + 1) * (c + 1),
            n == k * k - sn * sn,
            c <= k,
    ;
}

/// Sine and cosine of a non-negative angle lie in `[-S, S]`, and the sum of
/// their squares is within `2 * S` below `S^2`.
proof fn lemma_turn_bounds(m: int)
    ensures
        -(SCALE as int) <= turn_sin_cos(m).0 <= SCALE,
        -(SCALE as int) <= turn_sin_cos(m).1 <= SCALE,
        SCALE * SCALE - 2 * SCALE <= turn_sin_cos(m).0 * turn_sin_cos(m).0 + turn_sin_cos(m).1
            * turn_sin_cos(m).1 <= SCALE * SCALE,
{
    let t = m % (FULL_TURN as int);
    let u = t % (QUARTER_TURN as int);
    lemma_mod_bound(m, FULL_TURN as int);
    lemma_mod_bound(t, QUARTER_TURN as int);
    let (s, c) = quadrant_sin_cos(u);
    if u <= EIGHTH_TURN {
        lemma_reference_bounds(u);
    } else {
        lemma_reference_bounds(QUARTER_TURN - u);
    }
    assert((-s) * (-s) == s * s) by (nonlinear_arith);
    assert((-c) * (-c) == c * c) by (nonlinear_arith);
}

/// Sine and cosine of every angle lie in `[-S, S]`.
pub proof fn lemma_sin_cos_bounds(a: int)
    ensures
        -(SCALE as int) <= fixed_sin(a) <= SCALE,
        -(SCALE as int) <= fixed_cos(a) <= SCALE,
{
    lemma_turn_bounds(a);
    lemma_turn_bounds(-a);
}

/// `sin^2 + cos^2` is `S^2` to within `2 * S`, a relative `2 * 10^-18`.
pub proof fn lemma_pythagorean(a: int)
    ensures
        SCALE * SCALE - 2 * SCALE <= fixed_sin(a) * fixed_sin(a) + fixed_cos(a) * fixed_cos(a)
            <= SCALE * SCALE,
{
    lemma_turn_bounds(a);
    lemma_turn_bounds(-a);
    let s = turn_sin_cos(-a).0;
    assert((-s) * (-s) == s * s) by (nonlinear_arith);
}

/// The sine and cosine of a zero reference angle are exactly `0` and `S`.
proof fn lemma_reference_zero()
    ensures
        reference_sin(0) == 0,
        reference_cos(0) == SCALE,
{
    let k = SCALE as int;
    lemma_series_of_zero(0, 1);
    assert(is_floor_sqrt(k * k, k)) by (nonlinear_arith)
        requires
            k == 1_000_000_000_000_000_000,
    ;
    lemma_floor_sqrt_is((k * k) as nat, k as nat);
}

/// The sine and cosine of whole quarter turns are exact: `(0, S)` at 0
/// degrees, `(S, 0)` at 90, `(0, -S)` at 180 and `(-S, 0)` at 270.
pub proof fn lemma_quarter_turns()
    ensures
        sin_cos_of(0) == (0int, SCALE as int),
        sin_cos_of(QUARTER_TURN as int) == (SCALE as int, 0int),
        sin_cos_of(2 * QUARTER_TURN) == (0int, -(SCALE as int)),
        sin_cos_of(3 * QUARTER_TURN) == (-(SCALE as int), 0int),
{
    lemma_reference_zero();
}

/// The sine is odd and the cosine even.
pub proof fn lemma_sin_odd_cos_even(a: int)
    ensures
        fixed_sin(-a) == -fixed_sin(a),
        fixed_cos(-a) == fixed_cos(a),
{
    if a == 0 {
        lemma_reference_zero();
    }
}

/// Sine and cosine of a reference angle in `[0, 45]` degrees.
fn reference_sin_cos(u: u64) -> (r: (u64, u64))
    requires
        u <= EIGHTH_TURN,
    ensures
        r.0 == reference_sin(u as int),
        r.1 == reference_cos(u as int),
        r.0 <= SCALE,
        r.1 <= SCALE,
{
    let x: i128 = degrees_to_radians(u as i64);
    proof {
        lemma_reference_radians(u as int);
        lemma_reference_bounds(u as int);
    }
    let x: u128 = x as u128;
    let s: u128 = eval_series(x, x, 1);
    let k: u128 = SCALE as u128;
    let c: u64 = isqrt(k * k - s * s);
    (s as u64, c)
}

/// Sine and cosine of an angle in micro-degrees, scaled by `SCALE`.
pub fn sin_cos(micro_degrees: i64) -> (r: (i64, i64))
    ensures
        r.0 == fixed_sin(micro_degrees as int),
        r.1 == fixed_cos(micro_degrees as int),
        -(SCALE as int) <= r.0 <= SCALE,
        -(SCALE as int) <= r.1 <= SCALE,
{
    let a: i128 = micro_degrees as i128;
    let magnitude: u128 = if a >= 0 {
        a as u128
    } else {
        (-a) as u128
    };
    let t: u64 = (magnitude % FULL_TURN as u128) as u64;
    let q: u64 = t / QUARTER_TURN;
    let u: u64 = t % QUARTER_TURN;
    let (s, c) = if u <= EIGHTH_TURN {
        reference_sin_cos(u)
    } else {
        let (s, c) = reference_sin_cos(QUARTER_TURN - u);
        (c, s)
    };
    let s: i64 = s as i64;
    let c: i64 = c as i64;
    let (s, c) = if q == 0 {
        (s, c)
    } else if q == 1 {
        (c, -s)
    } else if q == 2 {
        (-s, -c)
    } else {
        (-c, s)
    };
    if micro_degrees >= 0 {
        (s, c)
    } else {
        (-s, c)
    }
}

} // verus!
