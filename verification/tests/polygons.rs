use bsp_tree::plane::{classify_point_to_plane, BSPPlane, GeometryError, PointPlaneSide};
use bsp_tree::polygon::{
    bsp_polygon_by_vertices, classify_polygon_by_plane, lies_off_side, split_bsp_polygon,
    BSPPolygon, PolygonPlaneSide,
};
use bsp_tree::shapes::{bsp_cube_faces, is_box_in_range};
use bsp_tree::vec3::{Vec3, COORD_MAX, COORD_SCALE, NORMAL_SCALE};

const U: i64 = COORD_SCALE;

fn v(x: i64, y: i64, z: i64) -> Vec3 {
    Vec3 { x, y, z }
}

fn plane_x(offset: i64) -> BSPPlane {
    BSPPlane { n: v(NORMAL_SCALE, 0, 0), d: offset }
}

fn polygon(ring: Vec<Vec3>) -> BSPPolygon {
    bsp_polygon_by_vertices(ring).unwrap()
}

fn square_in_z() -> BSPPolygon {
    polygon(vec![v(-U, -U, 0), v(U, -U, 0), v(U, U, 0), v(-U, U, 0)])
}

fn no_vertex_on(plane: BSPPlane, polygon: &BSPPolygon, side: PointPlaneSide) -> bool {
    polygon.vertices.iter().all(|p| classify_point_to_plane(plane, *p) != side)
}

#[test]
fn polygon_keeps_its_ring_and_derives_its_plane() {
    let ring = vec![v(-U, -U, 0), v(U, -U, 0), v(U, U, 0), v(-U, U, 0)];
    let p = polygon(ring.clone());
    assert_eq!(p.vertices, ring);
    assert_eq!(p.plane, BSPPlane { n: v(0, 0, -NORMAL_SCALE), d: 0 });
    assert!(p.is_wf());
}

#[test]
fn polygon_with_collinear_start_is_refused() {
    let r = bsp_polygon_by_vertices(vec![v(0, 0, 0), v(U, 0, 0), v(2 * U, 0, 0), v(0, U, 0)]);
    assert_eq!(r, Err(GeometryError::DegenerateInput));
}

#[test]
fn polygon_with_a_vertex_outside_the_space_is_not_well_formed() {
    let p = BSPPolygon {
        plane: plane_x(0),
        vertices: vec![v(0, 0, 0), v(0, U, 0), v(0, 0, COORD_MAX + 1)],
    };
    assert!(!p.is_wf());
    let q = BSPPolygon { plane: BSPPlane { n: v(1, 2, 3), d: 0 }, vertices: vec![] };
    assert!(!q.is_wf());
}

#[test]
fn well_formed_polygon_has_three_vertices() {
    let flat = polygon(vec![v(0, 0, 0), v(U, 0, 0), v(U, U, 10), v(0, U, 10)]);
    assert!(flat.is_wf());
    let two = BSPPolygon { plane: flat.plane, vertices: vec![v(0, 0, 0), v(U, 0, 0)] };
    assert!(!two.is_wf());
    let none = BSPPolygon { plane: flat.plane, vertices: vec![] };
    assert!(!none.is_wf());
}

#[test]
fn planar_polygon_has_every_vertex_on_its_plane() {
    let flat = polygon(vec![v(0, 0, 0), v(U, 0, 0), v(U, U, 10), v(0, U, 10)]);
    assert!(flat.is_planar());
    let bent = polygon(vec![v(0, 0, 0), v(U, 0, 0), v(U, U, 0), v(0, U, 11)]);
    assert!(bent.is_wf());
    assert!(!bent.is_planar());
    let under = polygon(vec![v(0, 0, 0), v(U, 0, 0), v(U, U, 0), v(0, U, -11)]);
    assert!(!under.is_planar());
}

#[test]
fn triangle_is_planar() {
    let t = polygon(vec![v(-COORD_MAX, 3, 5), v(COORD_MAX, COORD_MAX, -7), v(0, -COORD_MAX, U)]);
    assert!(t.is_wf());
    assert!(t.is_planar());
}

#[test]
fn lies_off_side_looks_at_every_vertex() {
    let p = polygon(vec![v(0, 0, 0), v(2 * U, U, 0), v(0, U, U)]);
    assert!(lies_off_side(plane_x(0), &p, PointPlaneSide::Back));
    assert!(!lies_off_side(plane_x(0), &p, PointPlaneSide::Front));
    assert!(!lies_off_side(plane_x(0), &p, PointPlaneSide::Coplanar));
    assert!(lies_off_side(plane_x(-3 * U * NORMAL_SCALE), &p, PointPlaneSide::Coplanar));
}

#[test]
fn clone_is_equal() {
    let p = square_in_z();
    assert_eq!(p.clone(), p);
}

#[test]
fn polygon_in_front() {
    let p = polygon(vec![v(U, 0, 0), v(2 * U, U, 0), v(U, U, U)]);
    assert_eq!(classify_polygon_by_plane(plane_x(0), &p), PolygonPlaneSide::Front);
}

#[test]
fn polygon_behind() {
    let p = polygon(vec![v(-U, 0, 0), v(-2 * U, U, 0), v(-U, U, U)]);
    assert_eq!(classify_polygon_by_plane(plane_x(0), &p), PolygonPlaneSide::Back);
}

#[test]
fn polygon_touching_the_plane_is_not_spanning() {
    let front = polygon(vec![v(0, 0, 0), v(2 * U, U, 0), v(0, U, U)]);
    assert_eq!(classify_polygon_by_plane(plane_x(0), &front), PolygonPlaneSide::Front);
    let back = polygon(vec![v(0, 0, 0), v(-2 * U, U, 0), v(0, U, U)]);
    assert_eq!(classify_polygon_by_plane(plane_x(0), &back), PolygonPlaneSide::Back);
}

#[test]
fn polygon_on_the_plane() {
    let p = polygon(vec![v(0, 0, 0), v(0, U, 0), v(0, U, U), v(3, 0, U)]);
    assert_eq!(classify_polygon_by_plane(plane_x(0), &p), PolygonPlaneSide::Coplanar);
    assert_eq!(classify_polygon_by_plane(p.plane, &p), PolygonPlaneSide::Coplanar);
}

#[test]
fn polygon_on_both_sides_is_spanning() {
    assert_eq!(classify_polygon_by_plane(plane_x(0), &square_in_z()), PolygonPlaneSide::Spanning);
}

#[test]
fn polygon_without_vertices_is_coplanar() {
    let p = BSPPolygon { plane: plane_x(0), vertices: vec![] };
    assert_eq!(classify_polygon_by_plane(plane_x(0), &p), PolygonPlaneSide::Coplanar);
}

#[test]
fn split_square_down_the_middle() {
    let p = square_in_z();
    let (front, back) = split_bsp_polygon(plane_x(0), &p);
    assert_eq!(front.vertices, vec![v(0, -U, 0), v(U, -U, 0), v(U, U, 0), v(0, U, 0)]);
    assert_eq!(back.vertices, vec![v(-U, -U, 0), v(0, -U, 0), v(0, U, 0), v(-U, U, 0)]);
    assert_eq!(front.plane, p.plane);
    assert_eq!(back.plane, p.plane);
}

#[test]
fn split_triangle_with_rounded_crossings() {
    let p = polygon(vec![v(2 * U, 0, 0), v(0, 3 * U, 0), v(-4 * U, 0, 5)]);
    let (front, back) = split_bsp_polygon(plane_x(0), &p);
    assert_eq!(front.vertices, vec![v(0, 0, 1), v(2 * U, 0, 0), v(0, 3 * U, 0)]);
    assert_eq!(back.vertices, vec![v(0, 0, 1), v(0, 3 * U, 0), v(-4 * U, 0, 5)]);
}

#[test]
fn split_tilted_quad() {
    let p = polygon(vec![v(-3 * U, -U, 7), v(4 * U, -U, 0), v(4 * U, 2 * U, 0), v(-3 * U, 2 * U, 7)]);
    assert_eq!(p.plane, BSPPlane { n: v(-99, 0, -999_999_999), d: -4_029_999_993 });
    assert!(p.is_wf() && p.is_planar());
    let (front, back) = split_bsp_polygon(plane_x(0), &p);
    assert_eq!(front.vertices, vec![v(0, -U, 4), v(4 * U, -U, 0), v(4 * U, 2 * U, 0), v(0, 2 * U, 4)]);
    assert_eq!(back.vertices, vec![v(-3 * U, -U, 7), v(0, -U, 4), v(0, 2 * U, 4), v(-3 * U, 2 * U, 7)]);
}

#[test]
fn fragments_of_a_spanning_polygon_do_not_span() {
    let plane = BSPPlane { n: v(600_000_000, 0, 800_000_000), d: 1_234_567 };
    let p = polygon(vec![v(-3 * U, -U, 7), v(4 * U, -U, 0), v(4 * U, 2 * U, 3 * U), v(-3 * U, 2 * U, -U)]);
    assert_eq!(classify_polygon_by_plane(plane, &p), PolygonPlaneSide::Spanning);
    let (front, back) = split_bsp_polygon(plane, &p);
    assert!(front.vertices.len() >= 3);
    assert!(back.vertices.len() >= 3);
    assert!(no_vertex_on(plane, &front, PointPlaneSide::Back));
    assert!(no_vertex_on(plane, &back, PointPlaneSide::Front));
    assert_eq!(classify_polygon_by_plane(plane, &front), PolygonPlaneSide::Front);
    assert_eq!(classify_polygon_by_plane(plane, &back), PolygonPlaneSide::Back);
}

#[test]
fn split_of_a_polygon_in_front_leaves_it_whole() {
    let p = polygon(vec![v(0, 0, 0), v(2 * U, U, 0), v(0, U, U)]);
    let (front, back) = split_bsp_polygon(plane_x(0), &p);
    assert_eq!(front, p);
    assert_eq!(back, BSPPolygon { plane: p.plane, vertices: vec![] });
}

#[test]
fn split_of_a_polygon_behind_leaves_it_whole() {
    let p = polygon(vec![v(-U, 0, 0), v(-2 * U, U, 0), v(-U, U, U)]);
    let (front, back) = split_bsp_polygon(plane_x(0), &p);
    assert_eq!(front, BSPPolygon { plane: p.plane, vertices: vec![] });
    assert_eq!(back, p);
}

#[test]
fn split_of_a_polygon_behind_that_touches_the_plane() {
    // the vertex on the plane joins the front fragment, and the back
    // fragment once for the edge that reaches it and once for the edge that
    // leaves it
    let p = polygon(vec![v(-U, 0, 0), v(0, U, 0), v(-U, 2 * U, 0)]);
    assert_eq!(classify_polygon_by_plane(plane_x(0), &p), PolygonPlaneSide::Back);
    let (front, back) = split_bsp_polygon(plane_x(0), &p);
    assert_eq!(front.vertices, vec![v(0, U, 0)]);
    assert_eq!(back.vertices, vec![v(-U, 0, 0), v(0, U, 0), v(0, U, 0), v(-U, 2 * U, 0)]);
}

#[test]
fn split_of_a_polygon_on_the_plane_puts_it_in_front() {
    let p = polygon(vec![v(0, 0, 0), v(0, U, 0), v(0, U, U)]);
    let (front, back) = split_bsp_polygon(plane_x(0), &p);
    assert_eq!(front, p);
    assert_eq!(back.vertices, Vec::<Vec3>::new());
}

#[test]
fn cube_faces_have_the_corners_of_the_box() {
    let faces = bsp_cube_faces(v(0, 0, 0), v(5 * U, 5 * U, 5 * U)).unwrap();
    assert_eq!(faces.len(), 6);
    let h = 5 * U;
    assert_eq!(faces[0].vertices, vec![v(-h, -h, -h), v(-h, -h, h), v(-h, h, h), v(-h, h, -h)]);
    assert_eq!(faces[1].vertices, vec![v(h, -h, -h), v(h, h, -h), v(h, h, h), v(h, -h, h)]);
    assert_eq!(faces[2].vertices, vec![v(-h, -h, -h), v(h, -h, -h), v(h, -h, h), v(-h, -h, h)]);
    assert_eq!(faces[3].vertices, vec![v(-h, h, -h), v(-h, h, h), v(h, h, h), v(h, h, -h)]);
    assert_eq!(faces[4].vertices, vec![v(-h, -h, -h), v(-h, h, -h), v(h, h, -h), v(h, -h, -h)]);
    assert_eq!(faces[5].vertices, vec![v(-h, -h, h), v(h, -h, h), v(h, h, h), v(-h, h, h)]);
    let d = -5 * U * NORMAL_SCALE;
    assert_eq!(faces[0].plane, BSPPlane { n: v(NORMAL_SCALE, 0, 0), d });
    assert_eq!(faces[1].plane, BSPPlane { n: v(-NORMAL_SCALE, 0, 0), d });
    assert_eq!(faces[2].plane, BSPPlane { n: v(0, NORMAL_SCALE, 0), d });
    assert_eq!(faces[3].plane, BSPPlane { n: v(0, -NORMAL_SCALE, 0), d });
    assert_eq!(faces[4].plane, BSPPlane { n: v(0, 0, NORMAL_SCALE), d });
    assert_eq!(faces[5].plane, BSPPlane { n: v(0, 0, -NORMAL_SCALE), d });
}

#[test]
fn cube_faces_around_another_center() {
    let faces = bsp_cube_faces(v(U, 2 * U, 3 * U), v(U, 2 * U, 3 * U)).unwrap();
    assert_eq!(faces[0].vertices, vec![v(0, 0, 0), v(0, 0, 6 * U), v(0, 4 * U, 6 * U), v(0, 4 * U, 0)]);
    assert_eq!(faces[5].vertices[2], v(2 * U, 4 * U, 6 * U));
    for face in faces.iter() {
        assert!(face.is_wf());
        assert!(face.is_planar());
    }
}

#[test]
fn flat_box_is_degenerate() {
    assert_eq!(bsp_cube_faces(v(0, 0, 0), v(U, 0, U)), Err(GeometryError::DegenerateInput));
    assert_eq!(bsp_cube_faces(v(0, 0, 0), v(0, 0, 0)), Err(GeometryError::DegenerateInput));
}

#[test]
fn box_has_to_lie_in_the_space() {
    assert!(is_box_in_range(v(0, 0, 0), v(COORD_MAX, COORD_MAX, COORD_MAX)));
    assert!(is_box_in_range(v(0, 0, 0), v(-COORD_MAX, 1, 1)));
    assert!(!is_box_in_range(v(1, 0, 0), v(COORD_MAX, 1, 1)));
    assert!(!is_box_in_range(v(0, 0, i64::MAX), v(1, 1, i64::MAX)));
}
