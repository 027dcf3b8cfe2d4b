use raytracer::fixed::{fixed_div, fixed_mul, fixed_sqrt, isqrt, ONE, LIMIT};
use raytracer::rtweekend::{clamp, degrees_to_radians, random_double, random_double_range, PI};
use raytracer::vec3::{
    random, random_in_hemisphere, random_in_unit_disk, random_in_unit_sphere, random_minmax,
    random_unit_vector, reflect, Vec3,
};

fn v(x: i64, y: i64, z: i64) -> Vec3 {
    Vec3::new_with_values(x, y, z)
}

fn norm2(a: &Vec3) -> i128 {
    a.x as i128 * a.x as i128 + a.y as i128 * a.y as i128 + a.z as i128 * a.z as i128
}

#[test]
fn fixed_point_arithmetic() {
    assert_eq!(fixed_mul(1_500_000_000_000, 2 * ONE), 3 * ONE);
    assert_eq!(fixed_mul(-1_500_000_000_000, 500_000_000_000), -750_000_000_000);
    assert_eq!(fixed_div(ONE, 3 * ONE), 333_333_333_333);
    assert_eq!(fixed_div(-ONE, 3 * ONE), -333_333_333_333);
    assert_eq!(fixed_sqrt(4 * ONE), 2 * ONE);
    assert_eq!(fixed_sqrt(2 * ONE), 1_414_213_562_373);
    assert_eq!(fixed_sqrt(-ONE), 0);
    assert_eq!(isqrt(0), 0);
    assert_eq!(isqrt(99), 9);
    assert_eq!(isqrt(100), 10);
    assert_eq!(isqrt(u128::MAX), u64::MAX as u128);
}

#[test]
fn products_saturate_at_the_limit() {
    assert_eq!(fixed_mul(LIMIT, LIMIT), LIMIT);
    assert_eq!(fixed_mul(LIMIT, -LIMIT), -LIMIT);
    assert_eq!(v(LIMIT, 0, 0).add(v(LIMIT, 0, 0)).x(), LIMIT);
    assert_eq!(Vec3::new_with_values(i64::MIN, 0, i64::MAX), v(-LIMIT, 0, LIMIT));
}

#[test]
fn vector_operations() {
    let a = v(ONE, 2 * ONE, 3 * ONE);
    let b = v(4 * ONE, -5 * ONE, 6 * ONE);
    assert_eq!(a.add(b), v(5 * ONE, -3 * ONE, 9 * ONE));
    assert_eq!(a.sub(b), v(-3 * ONE, 7 * ONE, -3 * ONE));
    assert_eq!(a.neg(), v(-ONE, -2 * ONE, -3 * ONE));
    assert_eq!(a.mul(b), v(4 * ONE, -10 * ONE, 18 * ONE));
    assert_eq!(a.scale(ONE / 2), v(500_000_000_000, ONE, 1_500_000_000_000));
    assert_eq!(a.div(2 * ONE), v(500_000_000_000, ONE, 1_500_000_000_000));
    assert_eq!(Vec3::dot(&a, &b), 12 * ONE);
    assert_eq!(a.dot_self(b), 12 * ONE);
    assert_eq!(Vec3::cross(a, b), v(27 * ONE, 6 * ONE, -13 * ONE));
    assert_eq!(a.length_squared(), 14 * ONE);
    assert_eq!(v(3 * ONE, 4 * ONE, 0).length(), 5 * ONE);
    assert_eq!(a.index(0), ONE);
    assert_eq!(a.index(2), 3 * ONE);
    assert_eq!((a.x(), a.y(), a.z()), (ONE, 2 * ONE, 3 * ONE));
    assert_eq!(Vec3::new(), v(0, 0, 0));
}

#[test]
fn unit_vector_of_three_four_five() {
    assert_eq!(v(3 * ONE, 4 * ONE, 0).unit_vector(), v(600_000_000_000, 800_000_000_000, 0));
    assert_eq!(v(0, 0, -7).unit_vector(), v(0, 0, -ONE));
}

#[test]
fn unit_vector_has_unit_length() {
    let inputs = [
        v(1, 1, 1),
        v(ONE, ONE, ONE),
        v(-3, 5, 7),
        v(123_456_789_000_000, -987_654_000_000, 5),
        v(LIMIT, LIMIT, -LIMIT),
        v(1, 0, 0),
    ];
    for a in inputs.iter() {
        let u = a.unit_vector();
        let len = u.length();
        assert!(ONE - 4 <= len && len <= ONE, "{:?} has length {}", u, len);
        assert!(norm2(&u) <= ONE as i128 * ONE as i128);
    }
}

#[test]
fn unit_vector_of_one_one_zero_is_within_a_nano() {
    let u = v(ONE, ONE, 0).unit_vector();
    assert_eq!(u, v(707_106_781_186, 707_106_781_186, 0));
    let len = u.length();
    assert!((len - ONE).abs() <= 1000, "length {}", len);
}

#[test]
fn near_zero_below_a_hundred_millionth() {
    assert!(v(0, 0, 0).near_zero());
    assert!(v(9_999, -9_999, 1).near_zero());
    assert!(!v(0, 10_000, 0).near_zero());
    assert!(!v(0, 0, -10_000).near_zero());
    assert!(v(0, 0, 0).is_zero_vector());
    assert!(!v(0, 1, 0).is_zero_vector());
}

#[test]
fn reflect_mirrors_about_the_normal() {
    let n = v(0, ONE, 0);
    let d = v(ONE, -ONE, 0);
    assert_eq!(reflect(&d, &n), v(ONE, ONE, 0));
}

#[test]
fn reflect_twice_gives_back_the_vector() {
    let n = v(600_000_000_000, 800_000_000_000, 0);
    let d = v(2 * ONE, -ONE, 3 * ONE);
    let once = reflect(&d, &n);
    assert_ne!(once, d);
    assert_eq!(reflect(&once, &n), d);
    let n2 = v(0, 0, -ONE);
    let d2 = v(123_456_000_000, -654_321_000_000, 777_777_000_000);
    assert_eq!(reflect(&reflect(&d2, &n2), &n2), d2);
}

#[test]
fn reflect_twice_within_rounding() {
    let n = v(600_000_000_000, 0, -800_000_000_000);
    let vs = [
        v(1_234_567_890_123, -2_200_000_000_001, 700_000_000_007),
        v(-98_765_432_109_876, 3, 12_345_678_901_234),
        v(1, -1, 1),
    ];
    for d in vs.iter() {
        let back = reflect(&reflect(d, &n), &n);
        assert!((back.x - d.x).abs() <= 18 && (back.y - d.y).abs() <= 18 && (back.z - d.z).abs() <= 18,
            "{:?} came back as {:?}", d, back);
    }
}

#[test]
fn clamp_and_angles() {
    assert_eq!(clamp(5, 0, 3), 3);
    assert_eq!(clamp(-5, 0, 3), 0);
    assert_eq!(clamp(2, 0, 3), 2);
    assert_eq!(degrees_to_radians(180 * ONE), PI);
    assert_eq!(degrees_to_radians(90 * ONE), 1_570_796_326_795);
    assert_eq!(degrees_to_radians(-180 * ONE), -PI);
}

#[test]
fn uniform_draws_stay_in_range_and_vary() {
    let mut seen = std::collections::HashSet::new();
    for _ in 0..200 {
        let x = random_double();
        assert!(0 <= x && x < ONE);
        let y = random_double_range(-5 * ONE, -4 * ONE);
        assert!(-5 * ONE <= y && y < -4 * ONE);
        seen.insert(y);
    }
    assert!(seen.len() > 1);
}

#[test]
fn random_vectors_lie_in_their_regions() {
    let up = v(0, ONE, 0);
    for _ in 0..200 {
        let a = random();
        assert!(0 <= a.x && a.x < ONE && 0 <= a.y && a.y < ONE && 0 <= a.z && a.z < ONE);
        let b = random_minmax(ONE / 2, ONE);
        assert!(ONE / 2 <= b.x && b.x < ONE && ONE / 2 <= b.z && b.z < ONE);
        let s = random_in_unit_sphere();
        assert!(norm2(&s) < ONE as i128 * ONE as i128);
        let d = random_in_unit_disk();
        assert_eq!(d.z, 0);
        assert!(norm2(&d) < ONE as i128 * ONE as i128);
        let h = random_in_hemisphere(&up);
        assert!(h.y >= 0);
        let u = random_unit_vector();
        let len = u.length();
        assert!(ONE - 4 <= len && len <= ONE);
    }
}
