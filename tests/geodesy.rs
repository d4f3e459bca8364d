use slant_range::ecef::ECEF;
use slant_range::geodesy::{calculate_range, convert_wgs84_ecef, SEMI_MAJOR_AXIS, SEMI_MINOR_AXIS};
use slant_range::wgs84::WGS84;

const NM_PER_M: i64 = 1_000_000_000;

fn micro_degrees(degrees: f64) -> i64 {
    (degrees * 1_000_000.0).round() as i64
}

fn eiffel_tower() -> WGS84 {
    WGS84 { latitude: micro_degrees(48.8584), longitude: micro_degrees(2.2945), elevation: 330 * NM_PER_M }
}

fn satellite() -> ECEF {
    ECEF { x: 4_198_945 * NM_PER_M, y: 174_747 * NM_PER_M, z: 4_781_887 * NM_PER_M }
}

/// The closed-form transform in double precision, in metres.
fn float_transform(lat: f64, lon: f64, h: f64) -> (f64, f64, f64) {
    let a = 6378137.0_f64;
    let b = 6356752.0_f64;
    let e2 = 1.0 - (b * b) / (a * a);
    let (sl, cl) = lat.to_radians().sin_cos();
    let (so, co) = lon.to_radians().sin_cos();
    let n = a / (1.0 - e2 * sl * sl).sqrt();
    ((n + h) * cl * co, (n + h) * cl * so, ((1.0 - e2) * n + h) * sl)
}

fn metres(nm: i64) -> f64 {
    nm as f64 / 1e9
}

fn close(actual_nm: i64, expected_m: f64, tolerance_m: f64) -> bool {
    (metres(actual_nm) - expected_m).abs() <= tolerance_m
}

#[test]
fn equator_on_prime_meridian_is_semi_major_axis() {
    let p = convert_wgs84_ecef(WGS84 { latitude: 0, longitude: 0, elevation: 0 });
    assert_eq!(p, ECEF { x: SEMI_MAJOR_AXIS as i64, y: 0, z: 0 });
    assert_eq!(p.x, 6_378_137 * NM_PER_M);
}

#[test]
fn north_pole_is_polar_radius() {
    let p = convert_wgs84_ecef(WGS84 { latitude: 90_000_000, longitude: 0, elevation: 0 });
    assert!(metres(p.x).abs() <= 1e-3);
    assert!(metres(p.y).abs() <= 1e-3);
    assert!(metres(p.z - SEMI_MINOR_AXIS as i64).abs() <= 1e-3);
    assert_eq!(p, ECEF { x: 0, y: 0, z: 6_356_752 * NM_PER_M });
}

#[test]
fn south_pole_is_negative_polar_radius() {
    let p = convert_wgs84_ecef(WGS84 { latitude: -90_000_000, longitude: 12_345_678, elevation: 0 });
    assert_eq!(p, ECEF { x: 0, y: 0, z: -6_356_752 * NM_PER_M });
}

#[test]
fn equator_quarter_turn_east_lies_on_y_axis() {
    let p = convert_wgs84_ecef(WGS84 { latitude: 0, longitude: 90_000_000, elevation: 1_000_000 });
    assert_eq!(p, ECEF { x: 0, y: 6_378_137_001_000_000, z: 0 });
    let q = convert_wgs84_ecef(WGS84 { latitude: 0, longitude: -180_000_000, elevation: -1_000_000 });
    assert_eq!(q, ECEF { x: -6_378_136_999_000_000, y: 0, z: 0 });
}

#[test]
fn eiffel_tower_transform_matches_closed_form() {
    let p = convert_wgs84_ecef(eiffel_tower());
    let (x, y, z) = float_transform(48.8584, 2.2945, 330.0);
    assert!(close(p.x, x, 1e-6));
    assert!(close(p.y, y, 1e-6));
    assert!(close(p.z, z, 1e-6));
    assert_eq!(p, ECEF { x: 4_201_152_876_091_749, y: 168_331_799_222_542, z: 4_780_461_221_664_379 });
}

#[test]
fn eiffel_tower_to_satellite_range() {
    let range = calculate_range(eiffel_tower(), satellite());
    let (x, y, z) = float_transform(48.8584, 2.2945, 330.0);
    let expected = ((4198945.0 - x).powi(2) + (174747.0 - y).powi(2) + (4781887.0 - z).powi(2)).sqrt();
    assert!((range as f64 / 1e9 - expected).abs() <= 1e-6);
    assert_eq!(range, 6_932_702_338_478);
}

#[test]
fn range_is_the_same_from_either_end() {
    let radar = eiffel_tower();
    let target = satellite();
    let p = convert_wgs84_ecef(radar);
    let forward = calculate_range(radar, target);
    let dx = (p.x - target.x) as i128;
    let dy = (p.y - target.y) as i128;
    let dz = (p.z - target.z) as i128;
    let backward = slant_range::fixed::isqrt((dx * dx + dy * dy + dz * dz) as u128);
    assert_eq!(forward, backward);
}

#[test]
fn range_to_own_position_is_zero() {
    let radar = WGS84 { latitude: -33_868_800, longitude: 151_209_300, elevation: 58 * NM_PER_M };
    let p = convert_wgs84_ecef(radar);
    assert_eq!(calculate_range(radar, p), 0);
}

#[test]
fn range_is_never_negative() {
    let radars = [
        eiffel_tower(),
        WGS84 { latitude: -89_999_999, longitude: 179_999_999, elevation: -400 * NM_PER_M },
        WGS84 { latitude: 12_000_000, longitude: -75_500_000, elevation: 8_848 * NM_PER_M },
    ];
    let targets = [satellite(), ECEF { x: 0, y: 0, z: 0 }, ECEF { x: -7_000_000 * NM_PER_M, y: 3, z: -1 }];
    for radar in radars.iter() {
        for target in targets.iter() {
            let r = calculate_range(*radar, *target);
            assert!(r as i128 >= 0);
        }
    }
    let centre = ECEF { x: 0, y: 0, z: 0 };
    assert_eq!(calculate_range(WGS84 { latitude: 0, longitude: 0, elevation: 0 }, centre), 6_378_137 * NM_PER_M as u64);
}

#[test]
fn range_grows_with_elevation() {
    let lat = micro_degrees(48.8584);
    let lon = micro_degrees(2.2945);
    let surface = convert_wgs84_ecef(WGS84 { latitude: lat, longitude: lon, elevation: 0 });
    let mut previous = 0u64;
    for h in [0i64, 1_000, 1_000_000, 330 * NM_PER_M, 1_000 * NM_PER_M, 400_000 * NM_PER_M] {
        let r = calculate_range(WGS84 { latitude: lat, longitude: lon, elevation: h }, surface);
        if h > 0 {
            assert!(r > previous);
        }
        assert!((r as i64 - h).abs() <= 2);
        previous = r;
    }
}

#[test]
fn range_grows_strictly_at_forty_five_degrees() {
    let surface = convert_wgs84_ecef(WGS84 { latitude: 0, longitude: 45_000_000, elevation: 0 });
    let mut previous = 0u64;
    for h in (1..200).map(|i| i * 1_000_000) {
        let r = calculate_range(WGS84 { latitude: 0, longitude: 45_000_000, elevation: h }, surface);
        assert!(r > previous);
        previous = r;
    }
    let r = calculate_range(WGS84 { latitude: 0, longitude: 45_000_000, elevation: NM_PER_M }, surface);
    assert!((r as i64 - NM_PER_M).abs() <= 2);
}

#[test]
fn conversion_is_repeatable() {
    let first = convert_wgs84_ecef(eiffel_tower());
    let second = convert_wgs84_ecef(eiffel_tower());
    assert_eq!(first, second);
    assert_eq!(calculate_range(eiffel_tower(), satellite()), calculate_range(eiffel_tower(), satellite()));
}

#[test]
fn angles_wrap_around_a_full_turn() {
    let a = convert_wgs84_ecef(WGS84 { latitude: 10_000_000, longitude: 20_000_000, elevation: 5 });
    let b = convert_wgs84_ecef(WGS84 { latitude: 370_000_000, longitude: -340_000_000, elevation: 5 });
    assert_eq!(a, b);
}

#[test]
fn negating_longitude_mirrors_in_the_x_z_plane() {
    for (lat, lon, h) in [(0i64, 45_000_000i64, 0i64), (48_858_400, 2_294_500, 330 * NM_PER_M), (-12_000_000, 135_000_000, -50)] {
        let p = convert_wgs84_ecef(WGS84 { latitude: lat, longitude: lon, elevation: h });
        let m = convert_wgs84_ecef(WGS84 { latitude: lat, longitude: -lon, elevation: h });
        assert_eq!(m, ECEF { x: p.x, y: -p.y, z: p.z });
    }
}

#[test]
fn negating_latitude_mirrors_through_the_equator() {
    for (lat, lon, h) in [(45_000_000i64, 0i64, 0i64), (48_858_400, 2_294_500, 330 * NM_PER_M), (315_000_000, -60_000_000, 7)] {
        let p = convert_wgs84_ecef(WGS84 { latitude: lat, longitude: lon, elevation: h });
        let m = convert_wgs84_ecef(WGS84 { latitude: -lat, longitude: lon, elevation: h });
        assert_eq!(m, ECEF { x: p.x, y: p.y, z: -p.z });
    }
}

#[test]
fn zero_elevation_points_lie_on_the_ellipsoid() {
    let a = 6378137.0_f64;
    let b = 6356752.0_f64;
    for lat in [-89_000_000i64, -45_000_000, -12_345_678, 0, 30_000_000, 48_858_400, 89_999_999] {
        for lon in [-170_000_000i64, -45_000_000, 0, 30_000_000, 2_294_500, 123_456_789] {
            let p = convert_wgs84_ecef(WGS84 { latitude: lat, longitude: lon, elevation: 0 });
            let (x, y, z) = (metres(p.x), metres(p.y), metres(p.z));
            assert!(((x * x + y * y) / (a * a) + z * z / (b * b) - 1.0).abs() <= 1e-12);
            let r = (x * x + y * y + z * z).sqrt();
            assert!(b - 1e-6 <= r && r <= a + 1e-6);
        }
    }
}

#[test]
fn longitude_leaves_distance_from_axis_unchanged() {
    let base = convert_wgs84_ecef(WGS84 { latitude: 0, longitude: 0, elevation: 0 });
    let axis = |p: ECEF| (metres(p.x).powi(2) + metres(p.y).powi(2)).sqrt();
    for lon in [30_000_000i64, 45_000_000, -60_000_000, 123_456_789] {
        let p = convert_wgs84_ecef(WGS84 { latitude: 0, longitude: lon, elevation: 0 });
        assert_eq!(p.z, base.z);
        assert!((axis(p) - axis(base)).abs() <= 1e-6);
    }
}
