use bsp_tree::plane::{
    bsp_plane_by_three_points, classify_point_to_plane, intersect_segment_plane, BSPPlane,
    GeometryError, PointPlaneSide, OFFSET_MAX, PARALLEL_EPS, PLANE_THICKNESS_EPS,
};
use bsp_tree::vec3::{Vec3, COORD_MAX, COORD_SCALE, MIN_NORMAL_LEN, NORMAL_SCALE};

const U: i64 = COORD_SCALE;

fn v(x: i64, y: i64, z: i64) -> Vec3 {
    Vec3 { x, y, z }
}

fn plane_x(offset: i64) -> BSPPlane {
    BSPPlane { n: v(NORMAL_SCALE, 0, 0), d: offset }
}

fn to_steps(length: f64) -> i64 {
    (length * COORD_SCALE as f64).round() as i64
}

#[test]
fn thickness_is_one_millionth_of_a_length_unit() {
    let eps = PLANE_THICKNESS_EPS as f64 / (COORD_SCALE as f64 * NORMAL_SCALE as f64);
    assert_eq!(eps, 1e-6);
    assert_eq!(OFFSET_MAX as i128, 3 * COORD_MAX as i128 * NORMAL_SCALE as i128);
}

#[test]
fn point_within_thickness_is_coplanar() {
    let plane = plane_x(0);
    assert_eq!(classify_point_to_plane(plane, v(0, 5 * U, -3 * U)), PointPlaneSide::Coplanar);
    assert_eq!(classify_point_to_plane(plane, v(10, 0, 0)), PointPlaneSide::Coplanar);
    assert_eq!(classify_point_to_plane(plane, v(-10, 0, 0)), PointPlaneSide::Coplanar);
    assert_eq!(classify_point_to_plane(plane, v(9, U, U)), PointPlaneSide::Coplanar);
}

#[test]
fn point_beyond_thickness_is_in_front_or_behind() {
    let plane = plane_x(0);
    assert_eq!(classify_point_to_plane(plane, v(11, 0, 0)), PointPlaneSide::Front);
    assert_eq!(classify_point_to_plane(plane, v(-11, 0, 0)), PointPlaneSide::Back);
    assert_eq!(classify_point_to_plane(plane, v(COORD_MAX, 0, 0)), PointPlaneSide::Front);
    assert_eq!(classify_point_to_plane(plane, v(-COORD_MAX, 0, 0)), PointPlaneSide::Back);
}

#[test]
fn classification_follows_the_offset() {
    let plane = plane_x(2 * U * NORMAL_SCALE);
    assert_eq!(classify_point_to_plane(plane, v(2 * U, 0, 0)), PointPlaneSide::Coplanar);
    assert_eq!(classify_point_to_plane(plane, v(2 * U + 11, 0, 0)), PointPlaneSide::Front);
    assert_eq!(classify_point_to_plane(plane, v(0, 0, 0)), PointPlaneSide::Back);
}

#[test]
fn classification_of_points_given_in_length_units() {
    let plane = plane_x(0);
    let near = v(to_steps(0.0000005), to_steps(1.5), to_steps(-2.25));
    let far = v(to_steps(0.000002), to_steps(1.5), to_steps(-2.25));
    assert_eq!(classify_point_to_plane(plane, near), PointPlaneSide::Coplanar);
    assert_eq!(classify_point_to_plane(plane, far), PointPlaneSide::Front);
}

#[test]
fn signed_distance_is_dot_minus_offset() {
    let plane = BSPPlane { n: v(600_000_000, 0, 800_000_000), d: 7 };
    assert_eq!(plane.distance_to(v(10, 99, -5)), 6_000_000_000 - 4_000_000_000 - 7);
}

#[test]
fn plane_through_three_points_on_the_axes() {
    let plane = bsp_plane_by_three_points(v(0, 0, 0), v(U, 0, 0), v(0, U, 0));
    assert_eq!(plane, Ok(BSPPlane { n: v(0, 0, -NORMAL_SCALE), d: 0 }));
}

#[test]
fn plane_orientation_follows_the_winding() {
    let plane = bsp_plane_by_three_points(v(0, 0, 0), v(0, U, 0), v(U, 0, 0));
    assert_eq!(plane, Ok(BSPPlane { n: v(0, 0, NORMAL_SCALE), d: 0 }));
}

#[test]
fn plane_through_three_tilted_points() {
    let a = v(0, 0, 0);
    let b = v(3 * U, 0, 4 * U);
    let c = v(0, 2 * U, 0);
    let plane = bsp_plane_by_three_points(a, b, c).unwrap();
    assert_eq!(plane, BSPPlane { n: v(800_000_000, 0, -600_000_000), d: 0 });
    assert_eq!(plane.n.dot(plane.n), 1_000_000_000_000_000_000);
}

#[test]
fn plane_has_unit_normal_and_contains_its_points() {
    let a = v(1 * U, 2 * U, 3 * U);
    let b = v(4 * U, -1 * U, 2 * U);
    let c = v(-2 * U, 5 * U, 7 * U);
    let plane = bsp_plane_by_three_points(a, b, c).unwrap();
    assert_eq!(plane, BSPPlane { n: v(707_106_781, 707_106_781, 0), d: 21_213_203_430_000_000 });
    assert!(plane.is_wf());
    let length = (plane.n.dot(plane.n) as f64).sqrt() / NORMAL_SCALE as f64;
    assert!((length - 1.0).abs() < 1e-6);
    assert_eq!(plane.distance_to(a), 0);
    assert_eq!(classify_point_to_plane(plane, a), PointPlaneSide::Coplanar);
    assert_eq!(classify_point_to_plane(plane, b), PointPlaneSide::Coplanar);
    assert_eq!(classify_point_to_plane(plane, c), PointPlaneSide::Coplanar);
}

#[test]
fn reversed_winding_negates_the_plane() {
    let cases = [
        (v(0, 0, 0), v(U, 0, 0), v(0, U, U)),
        (v(1 * U, 2 * U, 3 * U), v(4 * U, -1 * U, 2 * U), v(-2 * U, 5 * U, 7 * U)),
        (v(-COORD_MAX, -COORD_MAX, -COORD_MAX), v(COORD_MAX, COORD_MAX, -COORD_MAX), v(7, -U, 13)),
    ];
    for (a, b, c) in cases {
        let p = bsp_plane_by_three_points(a, b, c).unwrap();
        let q = bsp_plane_by_three_points(a, c, b).unwrap();
        assert_eq!(q.n, v(-p.n.x, -p.n.y, -p.n.z));
        assert_eq!(q.d, -p.d);
    }
    let p = bsp_plane_by_three_points(v(0, 0, 0), v(U, 0, 0), v(0, U, U)).unwrap();
    assert_eq!(p, BSPPlane { n: v(0, 707_106_781, -707_106_781), d: 0 });
    let a = v(1 * U, 2 * U, 3 * U);
    let q = bsp_plane_by_three_points(a, v(-2 * U, 5 * U, 7 * U), v(4 * U, -1 * U, 2 * U));
    assert_eq!(
        q,
        Ok(BSPPlane { n: v(-707_106_781, -707_106_781, 0), d: -21_213_203_430_000_000 })
    );
}

#[test]
fn reversed_winding_is_refused_alike() {
    let a = v(0, 0, 0);
    let b = v(U, U, U);
    let c = v(2 * U, 2 * U, 2 * U);
    assert_eq!(bsp_plane_by_three_points(a, b, c), Err(GeometryError::DegenerateInput));
    assert_eq!(bsp_plane_by_three_points(a, c, b), Err(GeometryError::DegenerateInput));
}

#[test]
fn plane_through_the_corners_of_the_space() {
    let a = v(-COORD_MAX, -COORD_MAX, -COORD_MAX);
    let b = v(COORD_MAX, COORD_MAX, -COORD_MAX);
    let c = v(COORD_MAX, -COORD_MAX, COORD_MAX);
    let plane = bsp_plane_by_three_points(a, b, c).unwrap();
    assert!(plane.is_wf());
    assert_eq!(classify_point_to_plane(plane, a), PointPlaneSide::Coplanar);
    assert_eq!(classify_point_to_plane(plane, b), PointPlaneSide::Coplanar);
    assert_eq!(classify_point_to_plane(plane, c), PointPlaneSide::Coplanar);
}

#[test]
fn collinear_points_are_degenerate() {
    let r = bsp_plane_by_three_points(v(0, 0, 0), v(U, U, U), v(2 * U, 2 * U, 2 * U));
    assert_eq!(r, Err(GeometryError::DegenerateInput));
}

#[test]
fn coincident_points_are_degenerate() {
    let p = v(U, -U, 3);
    assert_eq!(bsp_plane_by_three_points(p, p, p), Err(GeometryError::DegenerateInput));
    assert_eq!(bsp_plane_by_three_points(p, p, v(0, 0, 0)), Err(GeometryError::DegenerateInput));
}

#[test]
fn nearly_collinear_points_are_degenerate() {
    // the cross product has the length 9_999_999, one below the threshold
    let below = bsp_plane_by_three_points(v(0, 0, 0), v(9_999_999, 0, 0), v(0, 1, 0));
    assert_eq!(below, Err(GeometryError::DegenerateInput));
    let at = bsp_plane_by_three_points(v(0, 0, 0), v(MIN_NORMAL_LEN as i64, 0, 0), v(0, 1, 0));
    assert_eq!(at, Ok(BSPPlane { n: v(0, 0, -NORMAL_SCALE), d: 0 }));
}

#[test]
fn segment_crosses_plane_in_the_middle() {
    let p = intersect_segment_plane(v(-U, 0, 0), v(U, 2 * U, -4 * U), plane_x(0));
    assert_eq!(p, Some(v(0, U, -2 * U)));
}

#[test]
fn crossing_point_is_rounded_towards_zero() {
    let plane = plane_x(0);
    assert_eq!(intersect_segment_plane(v(3 * U, -1, -2), v(-7 * U, -10, -1), plane), Some(v(0, -3, -1)));
    assert_eq!(intersect_segment_plane(v(-3 * U, -1, 2), v(7 * U, -10, 1), plane), Some(v(0, -3, 1)));
}

#[test]
fn crossing_point_of_the_mirrored_segment_is_mirrored() {
    let plane = BSPPlane { n: v(600_000_000, 0, 800_000_000), d: 1_234_567 };
    let mirrored = BSPPlane { n: plane.n, d: -plane.d };
    let a = v(-3 * U, 17, 2 * U);
    let b = v(5 * U, -1_000_003, 4 * U);
    let p = intersect_segment_plane(a, b, plane).unwrap();
    let q = intersect_segment_plane(v(-a.x, -a.y, -a.z), v(-b.x, -b.y, -b.z), mirrored).unwrap();
    assert_eq!(q, v(-p.x, -p.y, -p.z));
    let flipped = BSPPlane { n: v(-plane.n.x, -plane.n.y, -plane.n.z), d: -plane.d };
    assert_eq!(intersect_segment_plane(a, b, flipped), Some(p));
}

#[test]
fn crossing_point_is_rounded_to_whole_steps() {
    let plane = plane_x(0);
    assert_eq!(intersect_segment_plane(v(-3 * U, 0, 0), v(7 * U, 10, 1), plane), Some(v(0, 3, 0)));
    assert_eq!(intersect_segment_plane(v(-3 * U, 1, 2), v(7 * U, 10, 1), plane), Some(v(0, 3, 1)));
}

#[test]
fn crossing_point_does_not_depend_on_direction() {
    let plane = plane_x(0);
    let a = v(-3 * U, 1, 2);
    let b = v(7 * U, 10, 1);
    assert_eq!(intersect_segment_plane(a, b, plane), intersect_segment_plane(b, a, plane));
}

#[test]
fn segment_that_ends_on_the_plane_meets_it_there() {
    let plane = plane_x(0);
    assert_eq!(intersect_segment_plane(v(0, 5, 6), v(U, 0, 0), plane), Some(v(0, 5, 6)));
    assert_eq!(intersect_segment_plane(v(-U, 0, 0), v(0, 5, 6), plane), Some(v(0, 5, 6)));
}

#[test]
fn segment_on_one_side_does_not_meet_the_plane() {
    let plane = plane_x(0);
    assert_eq!(intersect_segment_plane(v(U, 0, 0), v(2 * U, 5, 5), plane), None);
    assert_eq!(intersect_segment_plane(v(-2 * U, 0, 0), v(-U, 5, 5), plane), None);
}

#[test]
fn parallel_segment_does_not_meet_the_plane() {
    let plane = plane_x(0);
    assert_eq!(intersect_segment_plane(v(U, 0, 0), v(U, 5 * U, 5), plane), None);
    assert_eq!(intersect_segment_plane(v(0, 0, 0), v(0, 5 * U, 5), plane), None);
    assert_eq!(intersect_segment_plane(v(U, U, U), v(U, U, U), plane), None);
}

#[test]
fn nearly_parallel_segment_does_not_meet_the_plane() {
    // the normal is all but along z; one step along x changes the signed
    // distance by one
    let plane = BSPPlane { n: v(1, 0, NORMAL_SCALE), d: 0 };
    assert!(plane.is_wf());
    assert_eq!(intersect_segment_plane(v(0, 0, 0), v(1, 0, 0), plane), None);
    assert_eq!(intersect_segment_plane(v(0, 0, 0), v(-1, 0, 0), plane), None);
    assert_eq!(intersect_segment_plane(v(-U, 0, 0), v(U, 0, 0), plane), None);
}

#[test]
fn guard_against_parallel_segments_ends_at_its_bound() {
    // along x the signed distance changes by NORMAL_SCALE with every step
    let plane = plane_x(0);
    let just = PARALLEL_EPS / NORMAL_SCALE;
    assert_eq!(just, 10);
    assert_eq!(intersect_segment_plane(v(-5, 7, 0), v(5, 7, 0), plane), None);
    assert_eq!(intersect_segment_plane(v(-5, 7, 0), v(6, 7, 0), plane), Some(v(0, 7, 0)));
    assert_eq!(intersect_segment_plane(v(6, 7, 0), v(-5, 7, 0), plane), Some(v(0, 7, 0)));
    assert_eq!(intersect_segment_plane(v(5, 7, 0), v(-5, 7, 0), plane), None);
    assert_eq!(PARALLEL_EPS, PLANE_THICKNESS_EPS);
}

#[test]
fn well_formed_plane_has_a_unit_normal() {
    assert!(plane_x(0).is_wf());
    assert!(BSPPlane { n: v(600_000_000, -800_000_000, 0), d: -OFFSET_MAX }.is_wf());
    assert!(!BSPPlane { n: v(1, 0, 0), d: 0 }.is_wf());
    assert!(!BSPPlane { n: v(NORMAL_SCALE, NORMAL_SCALE, 0), d: 0 }.is_wf());
    assert!(!BSPPlane { n: v(NORMAL_SCALE + 1, 0, 0), d: 0 }.is_wf());
    assert!(!BSPPlane { n: v(NORMAL_SCALE - 1_000, 0, 0), d: 0 }.is_wf());
    assert!(BSPPlane { n: v(NORMAL_SCALE - 999, 0, 0), d: 0 }.is_wf());
    assert!(!plane_x(OFFSET_MAX + 1).is_wf());
}
