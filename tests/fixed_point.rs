use slant_range::fixed::{isqrt, SCALE};
use slant_range::trig::{degrees_to_radians, sin_cos, PI_FINE};

#[test]
fn integer_square_root() {
    assert_eq!(isqrt(0), 0);
    assert_eq!(isqrt(1), 1);
    assert_eq!(isqrt(15), 3);
    assert_eq!(isqrt(16), 4);
    assert_eq!(isqrt(17), 4);
    assert_eq!(isqrt(u128::MAX), u64::MAX);
    assert_eq!(isqrt(6_932_704u128 * 6_932_704u128 + 13_865_408), 6_932_704);
}

#[test]
fn half_turn_is_pi_radians() {
    assert_eq!(degrees_to_radians(180_000_000), PI_FINE as i128);
    assert_eq!(degrees_to_radians(-180_000_000), -(PI_FINE as i128));
    assert_eq!(degrees_to_radians(0), 0);
    assert_eq!(degrees_to_radians(1), 17_453_292_519);
    assert_eq!(degrees_to_radians(-1), -17_453_292_519);
}

#[test]
fn sine_and_cosine_of_special_angles() {
    let s = SCALE as i64;
    assert_eq!(sin_cos(0), (0, s));
    assert_eq!(sin_cos(90_000_000), (s, 0));
    assert_eq!(sin_cos(180_000_000), (0, -s));
    assert_eq!(sin_cos(-90_000_000), (-s, 0));
    assert_eq!(sin_cos(30_000_000), (500_000_000_000_000_000, 866_025_403_784_438_646));
    assert_eq!(sin_cos(-30_000_000), (-500_000_000_000_000_000, 866_025_403_784_438_646));
    assert_eq!(sin_cos(60_000_000), (866_025_403_784_438_646, 500_000_000_000_000_000));
    assert_eq!(sin_cos(45_000_000), (707_106_781_186_547_524, 707_106_781_186_547_524));
    assert_eq!(sin_cos(-45_000_000), (-707_106_781_186_547_524, 707_106_781_186_547_524));
}

#[test]
fn sine_is_odd_and_cosine_even() {
    for micro in [1i64, 45_000_000, 135_000_000, 225_000_000, 315_000_000, 123_456_789, 999_999_999, i64::MAX] {
        let (s, c) = sin_cos(micro);
        let (ns, nc) = sin_cos(-micro);
        assert_eq!(ns, -s);
        assert_eq!(nc, c);
    }
}

#[test]
fn sine_and_cosine_are_nearly_pythagorean() {
    let scale = SCALE as i128;
    for micro in (0..360).map(|d| d * 1_000_000 + 123_457) {
        let (s, c) = sin_cos(micro);
        let sum = s as i128 * s as i128 + c as i128 * c as i128;
        assert!((sum - scale * scale).abs() <= 2 * scale);
    }
}

#[test]
fn sine_and_cosine_follow_the_float_functions() {
    for micro in [-720_000_001i64, -123_456_789, 1, 44_999_999, 45_000_001, 123_456_789, 271_828_182, i64::MAX, i64::MIN] {
        let (s, c) = sin_cos(micro);
        let angle = ((micro % 360_000_000) as f64 / 1_000_000.0).to_radians();
        assert!((s as f64 / 1e18 - angle.sin()).abs() < 1e-14);
        assert!((c as f64 / 1e18 - angle.cos()).abs() < 1e-14);
    }
}
