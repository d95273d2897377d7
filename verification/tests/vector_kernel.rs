use bsp_tree::arith::{div_floor, div_towards_zero, isqrt, Ratio};
use bsp_tree::vec3::{Vec3, COORD_MAX, COORD_SCALE, NORMAL_SCALE};

fn v(x: i64, y: i64, z: i64) -> Vec3 {
    Vec3 { x, y, z }
}

#[test]
fn isqrt_rounds_down() {
    assert_eq!(isqrt(0), 0);
    assert_eq!(isqrt(1), 1);
    assert_eq!(isqrt(3), 1);
    assert_eq!(isqrt(4), 2);
    assert_eq!(isqrt(24), 4);
    assert_eq!(isqrt(25), 5);
    assert_eq!(isqrt(1_000_000_000_000_000_000), 1_000_000_000);
    assert_eq!(isqrt(999_999_999_999_999_999), 999_999_999);
}

#[test]
fn isqrt_of_the_largest_value() {
    assert_eq!(isqrt(u128::MAX), u64::MAX);
}

#[test]
fn div_floor_rounds_towards_negative_infinity() {
    assert_eq!(div_floor(7, 2), 3);
    assert_eq!(div_floor(-7, 2), -4);
    assert_eq!(div_floor(-8, 2), -4);
    assert_eq!(div_floor(0, 5), 0);
    assert_eq!(div_floor(-1, 1_000), -1);
}

#[test]
fn div_towards_zero_is_symmetric() {
    assert_eq!(div_towards_zero(7, 2), 3);
    assert_eq!(div_towards_zero(-7, 2), -3);
    assert_eq!(div_towards_zero(-8, 2), -4);
    assert_eq!(div_towards_zero(0, 5), 0);
    assert_eq!(div_towards_zero(-1, 1_000), 0);
    assert_eq!(div_towards_zero(i128::MIN, 1), i128::MIN);
}

#[test]
fn sub_is_componentwise() {
    assert_eq!(v(5, -3, 10).sub(v(2, 4, -6)), v(3, -7, 16));
    assert_eq!(v(0, 0, 0).sub(v(1, 2, 3)), v(-1, -2, -3));
}

#[test]
fn cross_of_the_axes() {
    assert_eq!(v(1, 0, 0).cross(v(0, 1, 0)), v(0, 0, 1));
    assert_eq!(v(0, 1, 0).cross(v(1, 0, 0)), v(0, 0, -1));
    assert_eq!(v(0, 1, 0).cross(v(0, 0, 1)), v(1, 0, 0));
}

#[test]
fn cross_by_the_formula() {
    assert_eq!(v(1, 2, 3).cross(v(4, 5, 6)), v(-3, 6, -3));
    assert_eq!(v(2, 3, 4).cross(v(2, 3, 4)), v(0, 0, 0));
}

#[test]
fn dot_by_the_formula() {
    assert_eq!(v(1, 2, 3).dot(v(4, -5, 6)), 12);
    assert_eq!(v(1, 0, 0).dot(v(0, 1, 0)), 0);
    assert_eq!(
        v(COORD_MAX, COORD_MAX, COORD_MAX).dot(v(NORMAL_SCALE, NORMAL_SCALE, NORMAL_SCALE)),
        3_000_000_000_000_000_000
    );
}

#[test]
fn scale_rounds_towards_zero() {
    assert_eq!(v(7, -7, 1).scale(Ratio { num: 1, den: 2 }), v(3, -3, 0));
    assert_eq!(v(-7, 7, -1).scale(Ratio { num: 1, den: 2 }), v(-3, 3, 0));
    assert_eq!(v(7, -7, 1).scale(Ratio { num: 3, den: 1 }), v(21, -21, 3));
    assert_eq!(v(10, 20, 30).scale(Ratio { num: -1, den: 10 }), v(-1, -2, -3));
}

#[test]
fn lerp_at_the_ends_and_between() {
    let a = v(0, 0, 0);
    let b = v(10, -10, 1);
    assert_eq!(a.lerp(b, Ratio { num: 0, den: 1 }), a);
    assert_eq!(a.lerp(b, Ratio { num: 1, den: 1 }), b);
    assert_eq!(a.lerp(b, Ratio { num: 1, den: 2 }), v(5, -5, 0));
    assert_eq!(a.lerp(b, Ratio { num: 1, den: 3 }), v(3, -3, 0));
    assert_eq!(a.lerp(b, Ratio { num: 2, den: 3 }), v(6, -6, 0));
}

#[test]
fn lerp_of_the_mirrored_segment_is_mirrored() {
    let a = v(7, -3, 100);
    let b = v(-20, 11, 1);
    for num in 0..=7 {
        let t = Ratio { num, den: 7 };
        let p = a.lerp(b, t);
        let q = v(-a.x, -a.y, -a.z).lerp(v(-b.x, -b.y, -b.z), t);
        assert_eq!(q, v(-p.x, -p.y, -p.z));
    }
}

#[test]
fn lerp_beyond_the_ends() {
    assert_eq!(v(1, 1, 1).lerp(v(2, 2, 2), Ratio { num: -1, den: 1 }), v(0, 0, 0));
    assert_eq!(v(10, -10, 0).lerp(v(0, 0, 0), Ratio { num: 3, den: 2 }), v(-5, 5, 0));
}

#[test]
fn len_rounds_down() {
    assert_eq!(v(3, 4, 0).len(), 5);
    assert_eq!(v(1, 1, 1).len(), 1);
    assert_eq!(v(0, 0, 0).len(), 0);
    assert_eq!(v(-3, 0, -4).len(), 5);
}

#[test]
fn len_of_the_longest_vector() {
    assert_eq!(v(i64::MIN, i64::MIN, i64::MIN).len(), 15_975_348_984_942_515_101);
}

#[test]
fn normalized_has_unit_length() {
    let n = v(3 * COORD_SCALE, 4 * COORD_SCALE, 0).normalized();
    assert_eq!(n, v(600_000_000, 800_000_000, 0));
    assert_eq!(n.len(), NORMAL_SCALE as u64);
}

#[test]
fn normalized_rounds_each_component_towards_zero() {
    assert_eq!(v(1, 2, 3).normalized(), v(333_333_333, 666_666_666, 1_000_000_000));
    assert_eq!(v(0, 0, -5).normalized(), v(0, 0, -1_000_000_000));
    let n = v(0, COORD_MAX, -COORD_MAX).normalized();
    assert_eq!(n, v(0, 707_106_781, -707_106_781));
}

#[test]
fn normalized_of_the_negated_vector_is_negated() {
    for w in [v(1, 2, 3), v(0, COORD_SCALE, -COORD_SCALE), v(-7, 11, 13 * COORD_SCALE)] {
        let n = w.normalized();
        let m = v(-w.x, -w.y, -w.z).normalized();
        assert_eq!(m, v(-n.x, -n.y, -n.z));
    }
}

#[test]
fn short_vector_is_not_normalized_to_unit_length() {
    // the length of (1, 2, 3) is rounded down to 3
    let n = v(1, 2, 3).normalized();
    assert!(n.dot(n) > (NORMAL_SCALE as i128 + 1_000) * (NORMAL_SCALE as i128 + 1_000));
    let m = v(3 * COORD_SCALE, -4 * COORD_SCALE, 12 * COORD_SCALE).normalized();
    let length = (m.dot(m) as f64).sqrt() / NORMAL_SCALE as f64;
    assert!((length - 1.0).abs() < 1e-6);
}

#[test]
fn in_range_is_a_bound_on_every_coordinate() {
    assert!(v(COORD_MAX, -COORD_MAX, 0).is_in_range());
    assert!(!v(COORD_MAX + 1, 0, 0).is_in_range());
    assert!(!v(0, -COORD_MAX - 1, 0).is_in_range());
    assert!(!v(0, 0, i64::MAX).is_in_range());
}
