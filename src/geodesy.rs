//! The geodetic-to-Cartesian transform and the slant range.

use vstd::prelude::*;
use vstd::arithmetic::div_mod::*;
use vstd::arithmetic::mul::*;
use crate::ecef::ECEF;
use crate::fixed::{
    SCALE, div_round, floor_sqrt, is_floor_sqrt, isqrt, lemma_floor_sqrt_is,
    lemma_floor_sqrt_monotone,
};
use crate::trig::{fixed_cos, fixed_sin, lemma_sin_cos_bounds, lemma_sin_odd_cos_even, sin_cos};
use crate::wgs84::WGS84;

verus! {

/// Semi-major (equatorial) axis of the ellipsoid, in metres.
pub const SEMI_MAJOR_AXIS_METRES: u64 = 6_378_137;

/// Semi-minor (polar) axis of the ellipsoid, in metres.
pub const SEMI_MINOR_AXIS_METRES: u64 = 6_356_752;

/// Semi-major (equatorial) axis of the ellipsoid, in nanometres.
pub const SEMI_MAJOR_AXIS: u64 = 6_378_137_000_000_000;

/// Semi-minor (polar) axis of the ellipsoid, in nanometres.
pub const SEMI_MINOR_AXIS: u64 = 6_356_752_000_000_000;

/// Largest magnitude of an elevation, in nanometres (2^60): it keeps every
/// coordinate of the transform within `COORDINATE_LIMIT`.
pub const MAX_ELEVATION: i64 = 1_152_921_504_606_846_976;

/// Largest magnitude of a Cartesian coordinate, in nanometres (2^61): it keeps
/// the squared distance between two points within 128 bits.
pub const COORDINATE_LIMIT: i64 = 2_305_843_009_213_693_952;

/// `sin^2`, scaled by `S = SCALE`, for the sine `s` scaled by `S`.
pub open spec fn sin_squared(s: int) -> int {
    div_round(s * s, SCALE as int)
}

/// `sqrt(a^2 * S - (a^2 - b^2) * sin^2)` with the axes in metres, rounded
/// down: `a * sqrt(1 - e^2 * sin^2)` in nanometres, with `e^2 = 1 - b^2 / a^2`.
pub open spec fn curvature_root(s: int) -> nat {
    let a = SEMI_MAJOR_AXIS_METRES as int;
    let b = SEMI_MINOR_AXIS_METRES as int;
    floor_sqrt((a * a * SCALE - (a * a - b * b) * sin_squared(s)) as nat)
}

/// The prime-vertical radius of curvature `N = a / sqrt(1 - e^2 * sin^2)`, in
/// nanometres, for the sine `s` scaled by `S`.
pub open spec fn prime_vertical(s: int) -> int {
    let a = SEMI_MAJOR_AXIS as int;
    div_round(a * a, curvature_root(s) as int)
}

/// `(1 - e^2) * N = b^2 / (a * sqrt(1 - e^2 * sin^2))`, in nanometres, for the
/// sine `s` scaled by `S`.
pub open spec fn polar_term(s: int) -> int {
    let b = SEMI_MINOR_AXIS as int;
    div_round(b * b, curvature_root(s) as int)
}

/// `x = (N + h) * cos(lat) * cos(lon)`, rounded after each product.
pub open spec fn ecef_x(w: WGS84) -> int {
    let n = prime_vertical(fixed_sin(w.latitude as int));
    let k = SCALE as int;
    div_round(div_round((n + w.elevation) * fixed_cos(w.latitude as int), k) * fixed_cos(w.longitude as int), k)
}

/// `y = (N + h) * cos(lat) * sin(lon)`, rounded after each product.
pub open spec fn ecef_y(w: WGS84) -> int {
    let n = prime_vertical(fixed_sin(w.latitude as int));
    let k = SCALE as int;
    div_round(div_round((n + w.elevation) * fixed_cos(w.latitude as int), k) * fixed_sin(w.longitude as int), k)
}

/// `z = ((1 - e^2) * N + h) * sin(lat)`, rounded.
pub open spec fn ecef_z(w: WGS84) -> int {
    let s = fixed_sin(w.latitude as int);
    div_round((polar_term(s) + w.elevation) * s, SCALE as int)
}

/// The Cartesian position of a geodetic one.
pub open spec fn geodetic_to_ecef(w: WGS84) -> ECEF {
    ECEF { x: ecef_x(w) as i64, y: ecef_y(w) as i64, z: ecef_z(w) as i64 }
}

/// The elevation is small enough for the transform's coordinates to fit.
pub open spec fn elevation_in_range(w: WGS84) -> bool {
    -MAX_ELEVATION <= w.elevation <= MAX_ELEVATION
}

/// Every coordinate of the point is within `COORDINATE_LIMIT`.
pub open spec fn coordinates_in_range(p: ECEF) -> bool {
    -COORDINATE_LIMIT <= p.x <= COORDINATE_LIMIT
        && -COORDINATE_LIMIT <= p.y <= COORDINATE_LIMIT
        && -COORDINATE_LIMIT <= p.z <= COORDINATE_LIMIT
}

/// The square of the Euclidean distance from `p` to `q`.
pub open spec fn squared_distance(p: ECEF, q: ECEF) -> int {
    (q.x - p.x) * (q.x - p.x) + (q.y - p.y) * (q.y - p.y) + (q.z - p.z) * (q.z - p.z)
}

/// The slant range from a geodetic observer to a Cartesian point, in whole
/// nanometres (rounded down).
pub open spec fn slant_range_of(observer: WGS84, target: ECEF) -> nat {
    floor_sqrt(squared_distance(geodetic_to_ecef(observer), target) as nat)
}

/// `sin^2` lies in `[0, S]`.
proof fn lemma_sin_squared_bounds(s: int)
    requires
        -(SCALE as int) <= s <= SCALE,
    ensures
        0 <= sin_squared(s) <= SCALE,
{
    let k = SCALE as int;
    assert(0 <= s * s <= k * k) by (nonlinear_arith)
        requires
            -k <= s <= k,
    ;
    lemma_div_is_ordered(s * s + k / 2, k * k + k / 2, k);
    lemma_div_pos_is_pos(s * s + k / 2, k);
    lemma_fundamental_div_mod_converse_div(k * k + k / 2, k, k, k / 2);
}

/// For a sine within `[-S, S]`, the curvature root lies between `b` and `a`
/// (in nanometres).
proof fn lemma_curvature_root_bounds(s: int)
    requires
        -(SCALE as int) <= s <= SCALE,
    ensures
        SEMI_MINOR_AXIS <= curvature_root(s) <= SEMI_MAJOR_AXIS,
{
    let a = SEMI_MAJOR_AXIS_METRES as int;
    let b = SEMI_MINOR_AXIS_METRES as int;
    let k = SCALE as int;
    let c = a * a - b * b;
    let q = sin_squared(s);
    lemma_sin_squared_bounds(s);
    assert(0 <= c * q <= c * k) by (nonlinear_arith)
        requires
            0 <= q <= k,
            0 <= c,
    ;
    let radicand = a * a * k - c * q;
    let low = SEMI_MINOR_AXIS as int;
    let high = SEMI_MAJOR_AXIS as int;
    assert(low * low <= radicand <= high * high);
    lemma_floor_sqrt_is((low * low) as nat, low as nat);
    lemma_floor_sqrt_is((high * high) as nat, high as nat);
    lemma_floor_sqrt_monotone((low * low) as nat, radicand as nat);
    lemma_floor_sqrt_monotone(radicand as nat, (high * high) as nat);
}

/// `N` and `(1 - e^2) * N` are positive and below `7 * 10^15` nanometres.
proof fn lemma_radii_bounds(s: int)
    requires
        -(SCALE as int) <= s <= SCALE,
    ensures
        0 <= prime_vertical(s) <= 7_000_000_000_000_000,
        0 <= polar_term(s) <= 7_000_000_000_000_000,
{
    let a = SEMI_MAJOR_AXIS as int;
    let b = SEMI_MINOR_AXIS as int;
    let root = curvature_root(s) as int;
    lemma_curvature_root_bounds(s);
    lemma_div_is_ordered_by_denominator(a * a + root / 2, b, root);
    lemma_div_is_ordered_by_denominator(b * b + root / 2, b, root);
    lemma_div_is_ordered(a * a + root / 2, a * a + a / 2, b);
    lemma_div_is_ordered(b * b + root / 2, b * b + a / 2, b);
    lemma_div_pos_is_pos(a * a + root / 2, root);
    lemma_div_pos_is_pos(b * b + root / 2, root);
}

/// A product `m * c` with `|c| <= d`, divided by `d` and rounded, is no
/// larger in magnitude than `m`.
proof fn lemma_rounded_product_bound(m: int, c: int, d: int, limit: int)
    requires
        1 < d,
        -d <= c <= d,
        -limit <= m <= limit,
    ensures
        -limit <= div_round(m * c, d) <= limit,
        -(limit * d) <= m * c <= limit * d,
{
    assert(-(limit * d) <= m * c <= limit * d) by (nonlinear_arith)
        requires
            0 < d,
            -d <= c <= d,
            -limit <= m <= limit,
    ;
    lemma_fundamental_div_mod_converse_div(limit * d + d / 2, d, limit, d / 2);
    if m * c >= 0 {
        lemma_div_is_ordered(m * c + d / 2, limit * d + d / 2, d);
        lemma_div_pos_is_pos(m * c + d / 2, d);
    } else {
        lemma_div_is_ordered(-(m * c) + d / 2, limit * d + d / 2, d);
        lemma_div_pos_is_pos(-(m * c) + d / 2, d);
    }
}

/// `m * c / d`, rounded to nearest, for a factor `c` with `|c| <= d`.
fn rounded_product(m: i128, c: i128, d: i128) -> (r: i128)
    requires
        1 < d <= SCALE,
        -d <= c <= d,
        -COORDINATE_LIMIT <= m <= COORDINATE_LIMIT,
    ensures
        r == div_round(m * c, d as int),
        -COORDINATE_LIMIT <= r <= COORDINATE_LIMIT,
{
    proof {
        lemma_rounded_product_bound(m as int, c as int, d as int, COORDINATE_LIMIT as int);
        assert(COORDINATE_LIMIT * d <= COORDINATE_LIMIT * SCALE) by (nonlinear_arith)
            requires
                0 < d <= SCALE,
        ;
    }
    let p: i128 = m * c;
    if p >= 0 {
        (p + d / 2) / d
    } else {
        -((-p + d / 2) / d)
    }
}

/// Converts a geodetic position to Earth-centred, Earth-fixed coordinates
/// (in nanometres).
pub fn convert_wgs84_ecef(wgs84: WGS84) -> (r: ECEF)
    requires
        elevation_in_range(wgs84),
    ensures
        r == geodetic_to_ecef(wgs84),
        r.x == ecef_x(wgs84),
        r.y == ecef_y(wgs84),
        r.z == ecef_z(wgs84),
        coordinates_in_range(r),
{
    let (sin_lat, cos_lat) = sin_cos(wgs84.latitude);
    let (sin_lon, cos_lon) = sin_cos(wgs84.longitude);
    let am: u128 = SEMI_MAJOR_AXIS_METRES as u128;
    let bm: u128 = SEMI_MINOR_AXIS_METRES as u128;
    let a: u128 = SEMI_MAJOR_AXIS as u128;
    let b: u128 = SEMI_MINOR_AXIS as u128;
    let k: u128 = SCALE as u128;
    let sl: i128 = sin_lat as i128;
    proof {
        assert(0 <= sl * sl <= k * k) by (nonlinear_arith)
            requires
                -(k as int) <= sl <= k,
        ;
        lemma_sin_squared_bounds(sin_lat as int);
        assert((am * am - bm * bm) * sin_squared(sl as int) <= (am * am - bm * bm) * k)
            by (nonlinear_arith)
            requires
                0 <= sin_squared(sl as int) <= k,
                bm <= am,
        ;
        lemma_curvature_root_bounds(sin_lat as int);
        lemma_radii_bounds(sin_lat as int);
    }
    let sin_sq: u128 = ((sl * sl) as u128 + k / 2) / k;
    let radicand: u128 = am * am * k - (am * am - bm * bm) * sin_sq;
    let root: u128 = isqrt(radicand) as u128;
    let n: i128 = ((a * a + root / 2) / root) as i128;
    let polar: i128 = ((b * b + root / 2) / root) as i128;
    let h: i128 = wgs84.elevation as i128;
    let kk: i128 = k as i128;
    let horizontal: i128 = rounded_product(n + h, cos_lat as i128, kk);
    let x: i128 = rounded_product(horizontal, cos_lon as i128, kk);
    let y: i128 = rounded_product(horizontal, sin_lon as i128, kk);
    let z: i128 = rounded_product(polar + h, sl, kk);
    ECEF { x: x as i64, y: y as i64, z: z as i64 }
}

/// The slant range, in nanometres rounded down, from a geodetic observer to
/// a point given in Earth-centred, Earth-fixed coordinates.
pub fn calculate_range(radar_position: WGS84, satellite_position: ECEF) -> (r: u64)
    requires
        elevation_in_range(radar_position),
        coordinates_in_range(satellite_position),
    ensures
        r == slant_range_of(radar_position, satellite_position),
        is_floor_sqrt(squared_distance(geodetic_to_ecef(radar_position), satellite_position), r as int),
        (r == 0) == (geodetic_to_ecef(radar_position) == satellite_position),
{
    let radar_ecef: ECEF = convert_wgs84_ecef(radar_position);
    let delta_x: i128 = satellite_position.x as i128 - radar_ecef.x as i128;
    let delta_y: i128 = satellite_position.y as i128 - radar_ecef.y as i128;
    let delta_z: i128 = satellite_position.z as i128 - radar_ecef.z as i128;
    proof {
        let l: int = 2 * COORDINATE_LIMIT;
        assert(0 <= delta_x * delta_x <= l * l) by (nonlinear_arith)
            requires
                -l <= delta_x <= l,
        ;
        assert(0 <= delta_y * delta_y <= l * l) by (nonlinear_arith)
            requires
                -l <= delta_y <= l,
        ;
        assert(0 <= delta_z * delta_z <= l * l) by (nonlinear_arith)
            requires
                -l <= delta_z <= l,
        ;
    }
    let x_sq: u128 = (delta_x * delta_x) as u128;
    let y_sq: u128 = (delta_y * delta_y) as u128;
    let z_sq: u128 = (delta_z * delta_z) as u128;
    let range: u64 = isqrt(x_sq + y_sq + z_sq);
    proof {
        assert((x_sq + y_sq + z_sq == 0) == (delta_x == 0 && delta_y == 0 && delta_z == 0))
            by (nonlinear_arith)
            requires
                x_sq == delta_x * delta_x,
                y_sq == delta_y * delta_y,
                z_sq == delta_z * delta_z,
        ;
        let n = x_sq + y_sq + z_sq;
        assert((range == 0) == (n == 0)) by (nonlinear_arith)
            requires
                range * range <= n < (range + 1) * (range + 1),
                0 <= range,
        ;
        if delta_x == 0 && delta_y == 0 && delta_z == 0 {
            assert(radar_ecef == satellite_position);
        }
    }
    range
}

/// Every coordinate of the transform of an admissible position is within
/// `COORDINATE_LIMIT`, so that `geodetic_to_ecef` loses nothing to its casts.
pub proof fn lemma_ecef_bounds(w: WGS84)
    requires
        elevation_in_range(w),
    ensures
        -COORDINATE_LIMIT <= ecef_x(w) <= COORDINATE_LIMIT,
        -COORDINATE_LIMIT <= ecef_y(w) <= COORDINATE_LIMIT,
        -COORDINATE_LIMIT <= ecef_z(w) <= COORDINATE_LIMIT,
        geodetic_to_ecef(w).x == ecef_x(w),
        geodetic_to_ecef(w).y == ecef_y(w),
        geodetic_to_ecef(w).z == ecef_z(w),
{
    let k = SCALE as int;
    let s = fixed_sin(w.latitude as int);
    let cl = fixed_cos(w.latitude as int);
    lemma_sin_cos_bounds(w.latitude as int);
    lemma_sin_cos_bounds(w.longitude as int);
    lemma_radii_bounds(s);
    let l = COORDINATE_LIMIT as int;
    let n = prime_vertical(s) + w.elevation;
    lemma_rounded_product_bound(n, cl, k, l);
    let horizontal = div_round(n * cl, k);
    lemma_rounded_product_bound(horizontal, fixed_cos(w.longitude as int), k, l);
    lemma_rounded_product_bound(horizontal, fixed_sin(w.longitude as int), k, l);
    lemma_rounded_product_bound(polar_term(s) + w.elevation, s, k, l);
}

/// The slant range does not depend on which of the two points the deltas
/// are taken from: flipping the sign of all three deltas leaves the sum of
/// their squares, and so the range, unchanged.
pub proof fn lemma_range_symmetric(observer: WGS84, target: ECEF)
    ensures
        squared_distance(geodetic_to_ecef(observer), target) == squared_distance(
            target,
            geodetic_to_ecef(observer),
        ),
        slant_range_of(observer, target) == floor_sqrt(
            squared_distance(target, geodetic_to_ecef(observer)) as nat,
        ),
{
    let p = geodetic_to_ecef(observer);
    assert(squared_distance(p, target) == squared_distance(target, p)) by (nonlinear_arith);
}

/// Rounded division is monotone in the dividend.
proof fn lemma_div_round_monotone(p: int, q: int, d: int)
    requires
        p <= q,
        1 < d,
    ensures
        div_round(p, d) <= div_round(q, d),
{
    if p >= 0 {
        lemma_div_is_ordered(p + d / 2, q + d / 2, d);
    } else if q < 0 {
        lemma_div_is_ordered(-q + d / 2, -p + d / 2, d);
    } else {
        lemma_div_pos_is_pos(-p + d / 2, d);
        lemma_div_pos_is_pos(q + d / 2, d);
    }
}

/// The three values are in order, either way round.
pub open spec fn in_order(a: int, b: int, c: int) -> bool {
    (a <= b && b <= c) || (a >= b && b >= c)
}

/// Scaling by `c / d` with rounding keeps three values in order.
proof fn lemma_rounded_product_keeps_order(m0: int, m1: int, m2: int, c: int, d: int)
    requires
        in_order(m0, m1, m2),
        1 < d,
    ensures
        in_order(div_round(m0 * c, d), div_round(m1 * c, d), div_round(m2 * c, d)),
{
    if m0 <= m1 && m1 <= m2 {
        if c >= 0 {
            lemma_mul_inequality(m0, m1, c);
            lemma_mul_inequality(m1, m2, c);
        } else {
            lemma_mul_inequality_converse_neg(m0, m1, c);
            lemma_mul_inequality_converse_neg(m1, m2, c);
        }
    } else {
        if c >= 0 {
            lemma_mul_inequality(m1, m0, c);
            lemma_mul_inequality(m2, m1, c);
        } else {
            lemma_mul_inequality_converse_neg(m1, m0, c);
            lemma_mul_inequality_converse_neg(m2, m1, c);
        }
    }
    let p0 = m0 * c;
    let p1 = m1 * c;
    let p2 = m2 * c;
    if p0 <= p1 {
        lemma_div_round_monotone(p0, p1, d);
    } else {
        lemma_div_round_monotone(p1, p0, d);
    }
    if p1 <= p2 {
        lemma_div_round_monotone(p1, p2, d);
    } else {
        lemma_div_round_monotone(p2, p1, d);
    }
}

/// `m1 * c <= m2 * c` reversed for a negative `c`.
proof fn lemma_mul_inequality_converse_neg(m1: int, m2: int, c: int)
    requires
        m1 <= m2,
        c < 0,
    ensures
        m2 * c <= m1 * c,
{
    assert(m2 * c <= m1 * c) by (nonlinear_arith)
        requires
            m1 <= m2,
            c < 0,
    ;
}

/// Of three values in order, the third is at least as far from the first as
/// the second is.
proof fn lemma_in_order_squares(a: int, b: int, c: int)
    requires
        in_order(a, b, c),
    ensures
        0 <= (b - a) * (b - a) <= (c - a) * (c - a),
{
    assert(0 <= (b - a) * (b - a) <= (c - a) * (c - a)) by (nonlinear_arith)
        requires
            in_order(a, b, c),
    ;
}

/// Holding latitude and longitude fixed, raising a point's elevation (from
/// zero up) never brings it closer to the ellipsoid-surface point below it.
pub proof fn lemma_range_grows_with_elevation(latitude: i64, longitude: i64, low: i64, high: i64)
    requires
        0 <= low <= high <= MAX_ELEVATION,
    ensures
        ({
            let surface = WGS84 { latitude, longitude, elevation: 0 };
            let near = WGS84 { latitude, longitude, elevation: low };
            let far = WGS84 { latitude, longitude, elevation: high };
            slant_range_of(surface, geodetic_to_ecef(near)) <= slant_range_of(
                surface,
                geodetic_to_ecef(far),
            )
        }),
{
    let surface = WGS84 { latitude, longitude, elevation: 0 };
    let near = WGS84 { latitude, longitude, elevation: low };
    let far = WGS84 { latitude, longitude, elevation: high };
    lemma_ecef_bounds(surface);
    lemma_ecef_bounds(near);
    lemma_ecef_bounds(far);
    let k = SCALE as int;
    let s = fixed_sin(latitude as int);
    let cl = fixed_cos(latitude as int);
    let n = prime_vertical(s);
    let pz = polar_term(s);
    assert(in_order(n + 0, n + low, n + high));
    lemma_rounded_product_keeps_order(n + 0, n + low, n + high, cl, k);
    let h0 = div_round((n + 0) * cl, k);
    let h1 = div_round((n + low) * cl, k);
    let h2 = div_round((n + high) * cl, k);
    lemma_rounded_product_keeps_order(h0, h1, h2, fixed_cos(longitude as int), k);
    lemma_rounded_product_keeps_order(h0, h1, h2, fixed_sin(longitude as int), k);
    assert(in_order(pz + 0, pz + low, pz + high));
    lemma_rounded_product_keeps_order(pz + 0, pz + low, pz + high, s, k);
    lemma_in_order_squares(ecef_x(surface), ecef_x(near), ecef_x(far));
    lemma_in_order_squares(ecef_y(surface), ecef_y(near), ecef_y(far));
    lemma_in_order_squares(ecef_z(surface), ecef_z(near), ecef_z(far));
    let p0 = geodetic_to_ecef(surface);
    let d1 = squared_distance(p0, geodetic_to_ecef(near));
    let d2 = squared_distance(p0, geodetic_to_ecef(far));
    assert(0 <= d1 <= d2);
    lemma_floor_sqrt_monotone(d1 as nat, d2 as nat);
}

/// The transform is a function of its input alone: two conversions of equal
/// positions give the same point.
pub proof fn lemma_convert_deterministic(first: WGS84, second: WGS84)
    requires
        first == second,
    ensures
        geodetic_to_ecef(first) == geodetic_to_ecef(second),
{
}

/// Rounded division commutes with negation.
proof fn lemma_div_round_negate(p: int, d: int)
    requires
        1 < d,
    ensures
        div_round(-p, d) == -div_round(p, d),
{
    if p == 0 {
        lemma_basic_div(d / 2, d);
    }
}

/// Negating the longitude reflects the point in the x-z plane: `x` and `z`
/// stay, `y` changes sign.
pub proof fn lemma_longitude_mirror(w: WGS84)
    requires
        elevation_in_range(w),
        w.longitude > i64::MIN,
    ensures
        ({
            let m = WGS84 { latitude: w.latitude, longitude: (-w.longitude) as i64, elevation: w.elevation };
            &&& ecef_x(m) == ecef_x(w)
            &&& ecef_y(m) == -ecef_y(w)
            &&& ecef_z(m) == ecef_z(w)
            &&& geodetic_to_ecef(m) == (ECEF {
                x: geodetic_to_ecef(w).x,
                y: (-geodetic_to_ecef(w).y) as i64,
                z: geodetic_to_ecef(w).z,
            })
        }),
{
    let m = WGS84 { latitude: w.latitude, longitude: (-w.longitude) as i64, elevation: w.elevation };
    lemma_sin_odd_cos_even(w.longitude as int);
    let n = prime_vertical(fixed_sin(w.latitude as int)) + w.elevation;
    let k = SCALE as int;
    let horizontal = div_round(n * fixed_cos(w.latitude as int), k);
    let so = fixed_sin(w.longitude as int);
    assert(horizontal * -so == -(horizontal * so)) by (nonlinear_arith);
    lemma_div_round_negate(horizontal * so, k);
    lemma_ecef_bounds(w);
    lemma_ecef_bounds(m);
}

/// Negating the latitude reflects the point through the equatorial plane:
/// `x` and `y` stay, `z` changes sign.
pub proof fn lemma_latitude_mirror(w: WGS84)
    requires
        elevation_in_range(w),
        w.latitude > i64::MIN,
    ensures
        ({
            let m = WGS84 { latitude: (-w.latitude) as i64, longitude: w.longitude, elevation: w.elevation };
            &&& ecef_x(m) == ecef_x(w)
            &&& ecef_y(m) == ecef_y(w)
            &&& ecef_z(m) == -ecef_z(w)
            &&& geodetic_to_ecef(m) == (ECEF {
                x: geodetic_to_ecef(w).x,
                y: geodetic_to_ecef(w).y,
                z: (-geodetic_to_ecef(w).z) as i64,
            })
        }),
{
    let m = WGS84 { latitude: (-w.latitude) as i64, longitude: w.longitude, elevation: w.elevation };
    lemma_sin_odd_cos_even(w.latitude as int);
    let s = fixed_sin(w.latitude as int);
    assert((-s) * (-s) == s * s) by (nonlinear_arith);
    assert(sin_squared(-s) == sin_squared(s));
    assert(curvature_root(-s) == curvature_root(s));
    let pz = polar_term(s) + w.elevation;
    assert(pz * -s == -(pz * s)) by (nonlinear_arith);
    lemma_div_round_negate(pz * s, SCALE as int);
    lemma_ecef_bounds(w);
    lemma_ecef_bounds(m);
}

} // verus!
