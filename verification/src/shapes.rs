//! Ready-made polygon lists: the faces of an axis-aligned box.

use crate::plane::{plane_through, GeometryError, PointPlaneSide};
use crate::plane_laws::{lemma_cross_orthogonal_to_difference, lemma_plane_contains_flat_point};
use crate::polygon::{
    bsp_polygon_by_vertices, polygon_from, polygon_models, polygons_wf, BSPPolygon, Polygon,
};
use crate::vec3::{Vec3, Vector, COORD_MAX};
use vstd::prelude::*;

verus! {

/// The corners of the six faces of a box, by number: the faces towards
/// negative and positive x, negative and positive y, negative and positive
/// z, each with its four corners in order around the face.
pub open spec fn cube_face_corners() -> Seq<Seq<int>> {
    seq![
        seq![0, 4, 6, 2],
        seq![1, 3, 7, 5],
        seq![0, 1, 5, 4],
        seq![2, 6, 7, 3],
        seq![0, 2, 3, 1],
        seq![4, 5, 7, 6],
    ]
}

/// `r` where `bit` is set, `-r` where it is not.
pub open spec fn signed_by(r: int, bit: int) -> int {
    if bit % 2 == 1 {
        r
    } else {
        -r
    }
}

/// The corner `i` of the box around `center`: bit 0 of `i` says whether it
/// lies on the positive x side, bit 1 on the positive y side, bit 2 on the
/// positive z side, each at the distance that `radius` gives for the axis.
pub open spec fn cube_corner(center: Vec3, radius: Vec3, i: int) -> Vector {
    Vector {
        x: center.x + signed_by(radius.x as int, i),
        y: center.y + signed_by(radius.y as int, i / 2),
        z: center.z + signed_by(radius.z as int, i / 4),
    }
}

/// The ring of the four corners of the face `face`.
pub open spec fn cube_face_ring(center: Vec3, radius: Vec3, face: int) -> Seq<Vec3> {
    Seq::new(4, |k: int| cube_corner(center, radius, cube_face_corners()[face][k]).to_vec3())
}

/// Every corner of the box is a point of the space.
pub open spec fn box_in_range(center: Vec3, radius: Vec3) -> bool {
    &&& center@.minus(radius@).bounded(COORD_MAX as int)
    &&& Vector {
        x: center.x + radius.x,
        y: center.y + radius.y,
        z: center.z + radius.z,
    }.bounded(COORD_MAX as int)
}

/// Tells whether every corner of the box is a point of the space.
pub fn is_box_in_range(center: Vec3, radius: Vec3) -> (r: bool)
    ensures
        r == box_in_range(center, radius),
{
    let lo: i128 = -(COORD_MAX as i128);
    let hi: i128 = COORD_MAX as i128;
    let cx: i128 = center.x as i128;
    let cy: i128 = center.y as i128;
    let cz: i128 = center.z as i128;
    let rx: i128 = radius.x as i128;
    let ry: i128 = radius.y as i128;
    let rz: i128 = radius.z as i128;
    lo <= cx - rx && cx - rx <= hi && lo <= cy - ry && cy - ry <= hi && lo <= cz - rz && cz - rz
        <= hi && lo <= cx + rx && cx + rx <= hi && lo <= cy + ry && cy + ry <= hi && lo <= cz
        + rz && cz + rz <= hi
}

/// `c + r` where `bit` is odd, `c - r` where it is even.
fn offset_by(c: i64, r: i64, bit: usize) -> (v: i64)
    requires
        -COORD_MAX <= c - r <= COORD_MAX,
        -COORD_MAX <= c + r <= COORD_MAX,
    ensures
        v == c + signed_by(r as int, bit as int),
        -COORD_MAX <= v <= COORD_MAX,
{
    if bit % 2 == 1 {
        c + r
    } else {
        c - r
    }
}

/// The corner `i` of the box.
fn corner_point(center: Vec3, radius: Vec3, i: usize) -> (p: Vec3)
    requires
        box_in_range(center, radius),
    ensures
        p@ == cube_corner(center, radius, i as int),
        p == cube_corner(center, radius, i as int).to_vec3(),
        p.in_range(),
{
    Vec3 {
        x: offset_by(center.x, radius.x, i),
        y: offset_by(center.y, radius.y, i / 2),
        z: offset_by(center.z, radius.z, i / 4),
    }
}

/// A face of the box is a parallelogram, so its fourth corner lies on the
/// plane through the other three.
proof fn lemma_face_is_flat(center: Vec3, radius: Vec3, f: int)
    requires
        box_in_range(center, radius),
        0 <= f < 6,
    ensures
        ({
            let ring = cube_face_ring(center, radius, f);
            plane_through(ring[0], ring[1], ring[2]) matches Ok(plane) ==> plane.side_of(ring[3])
                == PointPlaneSide::Coplanar
        }),
{
    let ring = cube_face_ring(center, radius, f);
    let a = ring[0];
    let b = ring[1];
    let c = ring[2];
    let p = ring[3];
    lemma_corner_in_range(center, radius, cube_face_corners()[f][0]);
    lemma_corner_in_range(center, radius, cube_face_corners()[f][1]);
    lemma_corner_in_range(center, radius, cube_face_corners()[f][2]);
    lemma_corner_in_range(center, radius, cube_face_corners()[f][3]);
    assert(f == 0 || f == 1 || f == 2 || f == 3 || f == 4 || f == 5);
    assert(p@.minus(a@) == c@.minus(a@).minus(b@.minus(a@)));
    lemma_cross_orthogonal_to_difference(c@.minus(a@), b@.minus(a@));
    if plane_through(a, b, c) is Ok {
        lemma_plane_contains_flat_point(a, b, c, p);
    }
}

/// Every corner of a box in the space is a point of the space.
proof fn lemma_corner_in_range(center: Vec3, radius: Vec3, i: int)
    requires
        box_in_range(center, radius),
    ensures
        cube_corner(center, radius, i).bounded(COORD_MAX as int),
        cube_corner(center, radius, i).to_vec3()@ == cube_corner(center, radius, i),
        cube_corner(center, radius, i).to_vec3().in_range(),
{
}

/// The six faces of the axis-aligned box around `center` that reaches
/// `radius.x`, `radius.y` and `radius.z` to either side along the three
/// axes, each face a planar polygon of four vertices. A box that is flat
/// along some axis has degenerate faces and is refused.
pub fn bsp_cube_faces(center: Vec3, radius: Vec3) -> (r: Result<Vec<BSPPolygon>, GeometryError>)
    requires
        box_in_range(center, radius),
    ensures
        match r {
            Ok(faces) => {
                &&& faces@.len() == 6
                &&& forall|f: int|
                    0 <= f < 6 ==> polygon_from(cube_face_ring(center, radius, f)) == Ok::<
                        Polygon,
                        GeometryError,
                    >(#[trigger] faces@[f]@)
                &&& polygons_wf(polygon_models(faces@))
                &&& forall|f: int| 0 <= f < 6 ==> (#[trigger] faces@[f]@).planar()
            },
            Err(e) => exists|f: int|
                0 <= f < 6 && #[trigger] polygon_from(cube_face_ring(center, radius, f)) == Err::<
                    Polygon,
                    GeometryError,
                >(e),
        },
{
    let table: [[usize; 4]; 6] = [
        [0, 4, 6, 2],
        [1, 3, 7, 5],
        [0, 1, 5, 4],
        [2, 6, 7, 3],
        [0, 2, 3, 1],
        [4, 5, 7, 6],
    ];
    let mut faces: Vec<BSPPolygon> = Vec::new();
    let mut f: usize = 0;
    while f < 6
        invariant
            f <= 6,
            box_in_range(center, radius),
            faces@.len() == f,
            forall|face: int, k: int|
                0 <= face < 6 && 0 <= k < 4 ==> (#[trigger] table@[face]@[k]) as int
                    == cube_face_corners()[face][k],
            forall|g: int|
                0 <= g < f ==> polygon_from(cube_face_ring(center, radius, g)) == Ok::<
                    Polygon,
                    GeometryError,
                >(#[trigger] faces@[g]@),
            forall|g: int| 0 <= g < f ==> (#[trigger] faces@[g]@).wf() && faces@[g]@.planar(),
        decreases 6 - f,
    {
        let row: [usize; 4] = table[f];
        let mut ring: Vec<Vec3> = Vec::new();
        let mut k: usize = 0;
        while k < 4
            invariant
                k <= 4,
                f < 6,
                box_in_range(center, radius),
                row == table@[f as int],
                forall|j: int|
                    0 <= j < 4 ==> (#[trigger] row@[j]) as int == cube_face_corners()[f as int][j],
                ring@ == cube_face_ring(center, radius, f as int).take(k as int),
                forall|j: int| 0 <= j < k ==> (#[trigger] ring@[j]).in_range(),
            decreases 4 - k,
        {
            let p: Vec3 = corner_point(center, radius, row[k]);
            ring.push(p);
            k = k + 1;
        }
        assert(ring@ =~= cube_face_ring(center, radius, f as int));
        proof {
            lemma_face_is_flat(center, radius, f as int);
        }
        match bsp_polygon_by_vertices(ring) {
            Ok(polygon) => {
                assert forall|i: int| 0 <= i < 4 implies polygon.plane.side_of(
                    #[trigger] polygon@.vertices[i],
                ) == PointPlaneSide::Coplanar by {}
                faces.push(polygon);
            },
            Err(e) => {
                return Err(e);
            },
        }
        f = f + 1;
    }
    Ok(faces)
}

} // verus!
