//! Convex polygons, the side of a plane that a polygon lies on, and the
//! splitting of a polygon by a plane.

use crate::plane::{
    bsp_plane_by_three_points, classify_point_to_plane, intersect_segment_plane, plane_through,
    BSPPlane, GeometryError, PointPlaneSide, PLANE_THICKNESS_EPS,
};
use crate::polygon_laws::lemma_split_keeps_sides;
use crate::vec3::Vec3;
use vstd::prelude::*;

verus! {

/// A polygon: its vertices in order around the ring, and the plane derived
/// from the first three of them when it was made. A fragment cut from a
/// polygon keeps the plane of the polygon it was cut from.
#[derive(Debug, PartialEq, Eq)]
pub struct BSPPolygon {
    pub plane: BSPPlane,
    pub vertices: Vec<Vec3>,
}

/// The mathematical model of a polygon.
pub struct Polygon {
    pub plane: BSPPlane,
    pub vertices: Seq<Vec3>,
}

impl View for BSPPolygon {
    type V = Polygon;

    open spec fn view(&self) -> Polygon {
        Polygon { plane: self.plane, vertices: self.vertices@ }
    }
}

impl Clone for BSPPolygon {
    fn clone(&self) -> (r: Self)
        ensures
            r@ == self@,
    {
        let mut vertices: Vec<Vec3> = Vec::new();
        let mut i: usize = 0;
        while i < self.vertices.len()
            invariant
                i <= self.vertices.len(),
                vertices@ == self.vertices@.take(i as int),
            decreases self.vertices.len() - i,
        {
            vertices.push(self.vertices[i]);
            i = i + 1;
        }
        assert(vertices@ =~= self.vertices@);
        BSPPolygon { plane: self.plane, vertices }
    }
}

/// Where a polygon lies relative to a plane.
#[derive(Clone, Copy, Debug, PartialEq, Eq, Structural)]
pub enum PolygonPlaneSide {
    Front,
    Back,
    Spanning,
    Coplanar,
}

/// Every point of `ring` is a point of the space.
pub open spec fn ring_in_range(ring: Seq<Vec3>) -> bool {
    forall|i: int| 0 <= i < ring.len() ==> (#[trigger] ring[i]).in_range()
}

impl Polygon {
    /// Every vertex lies on the plane of the polygon, within its thickness.
    pub open spec fn planar(self) -> bool {
        none_on_side(self.plane, self.vertices, PointPlaneSide::Front) && none_on_side(
            self.plane,
            self.vertices,
            PointPlaneSide::Back,
        )
    }

    /// Every vertex lies on the plane of the polygon up to `slack` beyond
    /// its thickness.
    pub open spec fn planar_within(self, slack: int) -> bool {
        &&& all_at_least(self.plane, self.vertices, -PLANE_THICKNESS_EPS - slack)
        &&& all_at_most(self.plane, self.vertices, PLANE_THICKNESS_EPS + slack)
    }

    /// The plane is well formed, there are three vertices at least, and
    /// every vertex is a point of the space. Whether the vertices lie on the
    /// plane is another matter, which `planar` states.
    pub open spec fn wf(self) -> bool {
        &&& self.plane.wf()
        &&& self.vertices.len() >= 3
        &&& ring_in_range(self.vertices)
    }
}

/// Every point of `points` has a signed distance to the plane of `bound` at
/// least.
pub open spec fn all_at_least(plane: BSPPlane, points: Seq<Vec3>, bound: int) -> bool {
    forall|i: int| 0 <= i < points.len() ==> #[trigger] plane.signed_distance(points[i]) >= bound
}

/// Every point of `points` has a signed distance to the plane of `bound` at
/// most.
pub open spec fn all_at_most(plane: BSPPlane, points: Seq<Vec3>, bound: int) -> bool {
    forall|i: int| 0 <= i < points.len() ==> #[trigger] plane.signed_distance(points[i]) <= bound
}

/// The models of a sequence of polygons.
pub open spec fn polygon_models(polygons: Seq<BSPPolygon>) -> Seq<Polygon> {
    Seq::new(polygons.len(), |i: int| polygons[i]@)
}

/// Every polygon of the sequence is planar.
pub open spec fn polygons_planar(polygons: Seq<Polygon>) -> bool {
    forall|i: int| 0 <= i < polygons.len() ==> (#[trigger] polygons[i]).planar()
}

/// Every polygon of the sequence is well formed.
pub open spec fn polygons_wf(polygons: Seq<Polygon>) -> bool {
    forall|i: int| 0 <= i < polygons.len() ==> (#[trigger] polygons[i]).wf()
}

impl BSPPlane {
    /// Whether one of the first `n` points of `ring` lies on `side`.
    pub open spec fn has_on_side(&self, ring: Seq<Vec3>, n: int, side: PointPlaneSide) -> bool {
        exists|i: int| 0 <= i < n && i < ring.len() && #[trigger] self.side_of(ring[i]) == side
    }

    /// The side that a ring of points lies on: spanning where it has points
    /// strictly in front and strictly behind, in front or behind where it
    /// has points strictly on that side only, coplanar where every point is
    /// on the plane.
    pub open spec fn side_of_ring(&self, ring: Seq<Vec3>) -> PolygonPlaneSide {
        let front = self.has_on_side(ring, ring.len() as int, PointPlaneSide::Front);
        let back = self.has_on_side(ring, ring.len() as int, PointPlaneSide::Back);
        if front && back {
            PolygonPlaneSide::Spanning
        } else if front {
            PolygonPlaneSide::Front
        } else if back {
            PolygonPlaneSide::Back
        } else {
            PolygonPlaneSide::Coplanar
        }
    }
}

/// No point of `points` lies on `side` of the plane.
pub open spec fn none_on_side(plane: BSPPlane, points: Seq<Vec3>, side: PointPlaneSide) -> bool {
    forall|i: int| 0 <= i < points.len() ==> #[trigger] plane.side_of(points[i]) != side
}

/// The polygon with the given ring of vertices: its plane is the plane
/// through the first three of them.
pub open spec fn polygon_from(vertices: Seq<Vec3>) -> Result<Polygon, GeometryError> {
    match plane_through(vertices[0], vertices[1], vertices[2]) {
        Ok(plane) => Ok(Polygon { plane, vertices }),
        Err(e) => Err(e),
    }
}

/// The vertex before the vertex `i` on the closed ring: the last vertex for
/// the first one.
pub open spec fn ring_pred(ring: Seq<Vec3>, i: int) -> Vec3 {
    if i == 0 {
        ring[ring.len() - 1]
    } else {
        ring[i - 1]
    }
}

impl BSPPlane {
    /// The point where the edge from `a` to `b` crosses the plane, as a
    /// sequence of one point, or of none where the edge does not meet the
    /// plane.
    pub open spec fn crossing(&self, a: Vec3, b: Vec3) -> Seq<Vec3> {
        match self.intersection(a, b) {
            Some(p) => seq![p],
            None => Seq::empty(),
        }
    }

    /// What the edge from `prev` to `cur` adds to the front fragment: the
    /// crossing where the edge comes from behind the plane to its front or
    /// leaves the front for the back, and `cur` itself unless it lies
    /// behind.
    pub open spec fn front_part(&self, prev: Vec3, cur: Vec3) -> Seq<Vec3> {
        match self.side_of(cur) {
            PointPlaneSide::Front => {
                if self.side_of(prev) == PointPlaneSide::Back {
                    self.crossing(prev, cur) + seq![cur]
                } else {
                    seq![cur]
                }
            },
            PointPlaneSide::Back => {
                if self.side_of(prev) == PointPlaneSide::Front {
                    self.crossing(prev, cur)
                } else {
                    Seq::empty()
                }
            },
            PointPlaneSide::Coplanar => seq![cur],
        }
    }

    /// What the edge from `prev` to `cur` adds to the back fragment: the
    /// crossing where the edge changes sides, `prev` where it lies on the
    /// plane and `cur` behind it, and `cur` itself where it lies behind, or
    /// on the plane after a vertex behind it.
    pub open spec fn back_part(&self, prev: Vec3, cur: Vec3) -> Seq<Vec3> {
        match self.side_of(cur) {
            PointPlaneSide::Front => {
                if self.side_of(prev) == PointPlaneSide::Back {
                    self.crossing(prev, cur)
                } else {
                    Seq::empty()
                }
            },
            PointPlaneSide::Back => {
                if self.side_of(prev) == PointPlaneSide::Front {
                    self.crossing(prev, cur) + seq![cur]
                } else if self.side_of(prev) == PointPlaneSide::Coplanar {
                    seq![prev, cur]
                } else {
                    seq![cur]
                }
            },
            PointPlaneSide::Coplanar => {
                if self.side_of(prev) == PointPlaneSide::Back {
                    seq![cur]
                } else {
                    Seq::empty()
                }
            },
        }
    }

    /// The front fragment of `ring` after its first `k` edges, the edge `i`
    /// being the one that ends in the vertex `i`.
    pub open spec fn front_ring(&self, ring: Seq<Vec3>, k: nat) -> Seq<Vec3>
        decreases k,
    {
        if k == 0 {
            Seq::empty()
        } else {
            self.front_ring(ring, (k - 1) as nat) + self.front_part(
                ring_pred(ring, k - 1),
                ring[k - 1],
            )
        }
    }

    /// The back fragment of `ring` after its first `k` edges.
    pub open spec fn back_ring(&self, ring: Seq<Vec3>, k: nat) -> Seq<Vec3>
        decreases k,
    {
        if k == 0 {
            Seq::empty()
        } else {
            self.back_ring(ring, (k - 1) as nat) + self.back_part(
                ring_pred(ring, k - 1),
                ring[k - 1],
            )
        }
    }

    /// The two fragments that the plane cuts `polygon` into, the one in
    /// front of the plane first. Both keep the plane of `polygon`.
    pub open spec fn split(&self, polygon: Polygon) -> (Polygon, Polygon) {
        (
            Polygon {
                plane: polygon.plane,
                vertices: self.front_ring(polygon.vertices, polygon.vertices.len()),
            },
            Polygon {
                plane: polygon.plane,
                vertices: self.back_ring(polygon.vertices, polygon.vertices.len()),
            },
        )
    }
}

/// Makes a polygon from its ring of vertices, deriving the plane from the
/// first three of them, which then lie on it. Where these are nearly
/// collinear, the input is refused. Whether the further vertices lie on the
/// plane too is not looked at here: `is_planar` tells.
pub fn bsp_polygon_by_vertices(vertices: Vec<Vec3>) -> (r: Result<BSPPolygon, GeometryError>)
    requires
        vertices@.len() >= 3,
        ring_in_range(vertices@),
    ensures
        match r {
            Ok(polygon) => {
                &&& polygon_from(vertices@) == Ok::<Polygon, GeometryError>(polygon@)
                &&& polygon@.wf()
                &&& forall|i: int|
                    0 <= i < 3 ==> polygon.plane.side_of(#[trigger] vertices@[i])
                        == PointPlaneSide::Coplanar
                &&& vertices@.len() == 3 ==> polygon@.planar()
            },
            Err(e) => polygon_from(vertices@) == Err::<Polygon, GeometryError>(e),
        },
{
    match bsp_plane_by_three_points(vertices[0], vertices[1], vertices[2]) {
        Ok(plane) => Ok(BSPPolygon { plane, vertices }),
        Err(e) => Err(e),
    }
}

impl BSPPolygon {
    /// Tells whether the polygon is well formed: whether it has a
    /// well-formed plane and three vertices at least, all of them points of
    /// the space.
    pub fn is_wf(&self) -> (r: bool)
        ensures
            r == self@.wf(),
    {
        if !self.plane.is_wf() || self.vertices.len() < 3 {
            return false;
        }
        let mut i: usize = 0;
        while i < self.vertices.len()
            invariant
                i <= self.vertices.len(),
                forall|j: int| 0 <= j < i ==> (#[trigger] self.vertices@[j]).in_range(),
            decreases self.vertices.len() - i,
        {
            if !self.vertices[i].is_in_range() {
                return false;
            }
            i = i + 1;
        }
        true
    }

    /// Tells whether every vertex lies on the plane of the polygon, within
    /// its thickness. A polygon that fails this is bent, and is to be
    /// rejected before a tree is built: the tree keeps it at a node as if it
    /// lay on its plane.
    pub fn is_planar(&self) -> (r: bool)
        requires
            self.plane.wf(),
            ring_in_range(self@.vertices),
        ensures
            r == self@.planar(),
    {
        lies_off_side(self.plane, self, PointPlaneSide::Front) && lies_off_side(
            self.plane,
            self,
            PointPlaneSide::Back,
        )
    }
}

/// Tells whether no vertex of the polygon lies on `side` of the plane.
pub fn lies_off_side(plane: BSPPlane, polygon: &BSPPolygon, side: PointPlaneSide) -> (r: bool)
    requires
        plane.wf(),
        ring_in_range(polygon@.vertices),
    ensures
        r == none_on_side(plane, polygon@.vertices, side),
{
    let mut i: usize = 0;
    while i < polygon.vertices.len()
        invariant
            plane.wf(),
            ring_in_range(polygon@.vertices),
            i <= polygon.vertices.len(),
            forall|j: int| 0 <= j < i ==> #[trigger] plane.side_of(polygon.vertices@[j]) != side,
        decreases polygon.vertices.len() - i,
    {
        if classify_point_to_plane(plane, polygon.vertices[i]) == side {
            return false;
        }
        i = i + 1;
    }
    true
}

/// Tells on which side of `plane` the polygon lies.
pub fn classify_polygon_by_plane(plane: BSPPlane, polygon: &BSPPolygon) -> (side: PolygonPlaneSide)
    requires
        plane.wf(),
        ring_in_range(polygon@.vertices),
    ensures
        side == plane.side_of_ring(polygon@.vertices),
{
    let ghost ring = polygon.vertices@;
    let mut front_count: usize = 0;
    let mut back_count: usize = 0;
    let mut i: usize = 0;
    while i < polygon.vertices.len()
        invariant
            plane.wf(),
            ring == polygon.vertices@,
            ring_in_range(ring),
            i <= ring.len(),
            front_count <= i,
            back_count <= i,
            front_count != 0 <==> plane.has_on_side(ring, i as int, PointPlaneSide::Front),
            back_count != 0 <==> plane.has_on_side(ring, i as int, PointPlaneSide::Back),
            !(front_count != 0 && back_count != 0),
        decreases ring.len() - i,
    {
        let p: Vec3 = polygon.vertices[i];
        let side = classify_point_to_plane(plane, p);
        match side {
            PointPlaneSide::Front => {
                front_count = front_count + 1;
            },
            PointPlaneSide::Back => {
                back_count = back_count + 1;
            },
            PointPlaneSide::Coplanar => {},
        }
        i = i + 1;
        if front_count != 0 && back_count != 0 {
            return PolygonPlaneSide::Spanning;
        }
    }
    if front_count != 0 {
        PolygonPlaneSide::Front
    } else if back_count != 0 {
        PolygonPlaneSide::Back
    } else {
        PolygonPlaneSide::Coplanar
    }
}

/// Splits a polygon by a plane into the fragment in front of the plane and
/// the fragment behind it, walking the ring of vertices once. Vertices on
/// the plane go to the front fragment, and also to the back fragment where
/// they bound a run of vertices behind the plane; where an edge changes
/// sides, the crossing point goes to both. Both fragments keep the plane of
/// the polygon. No vertex of the front fragment lies behind the splitting
/// plane, and none of the back fragment in front of it.
pub fn split_bsp_polygon(splitting_plane: BSPPlane, polygon: &BSPPolygon) -> (r: (
    BSPPolygon,
    BSPPolygon,
))
    requires
        splitting_plane.wf(),
        ring_in_range(polygon@.vertices),
        polygon@.vertices.len() > 0,
    ensures
        (r.0@, r.1@) == splitting_plane.split(polygon@),
        ring_in_range(r.0@.vertices),
        ring_in_range(r.1@.vertices),
        none_on_side(splitting_plane, r.0@.vertices, PointPlaneSide::Back),
        none_on_side(splitting_plane, r.1@.vertices, PointPlaneSide::Front),
{
    proof {
        lemma_split_keeps_sides(splitting_plane, polygon@);
    }
    let plane = splitting_plane;
    let ghost ring = polygon.vertices@;
    let n: usize = polygon.vertices.len();
    let mut a: Vec3 = polygon.vertices[n - 1];
    let mut a_side = classify_point_to_plane(plane, a);
    let mut front_verts: Vec<Vec3> = Vec::new();
    let mut back_verts: Vec<Vec3> = Vec::new();
    let mut i: usize = 0;
    while i < n
        invariant
            plane.wf(),
            ring == polygon.vertices@,
            ring_in_range(ring),
            n == ring.len(),
            i <= n,
            a == ring_pred(ring, i as int),
            a_side == plane.side_of(a),
            front_verts@ == plane.front_ring(ring, i as nat),
            back_verts@ == plane.back_ring(ring, i as nat),
            ring_in_range(front_verts@),
            ring_in_range(back_verts@),
        decreases n - i,
    {
        let b: Vec3 = polygon.vertices[i];
        let b_side = classify_point_to_plane(plane, b);
        match b_side {
            PointPlaneSide::Front => {
                if a_side == PointPlaneSide::Back {
                    push_crossing(plane, a, b, &mut front_verts, &mut back_verts);
                }
                front_verts.push(b);
            },
            PointPlaneSide::Back => {
                if a_side == PointPlaneSide::Front {
                    push_crossing(plane, a, b, &mut front_verts, &mut back_verts);
                } else if a_side == PointPlaneSide::Coplanar {
                    back_verts.push(a);
                }
                back_verts.push(b);
            },
            PointPlaneSide::Coplanar => {
                front_verts.push(b);
                if a_side == PointPlaneSide::Back {
                    back_verts.push(b);
                }
            },
        }
        a = b;
        a_side = b_side;
        i = i + 1;
    }
    (
        BSPPolygon { plane: polygon.plane, vertices: front_verts },
        BSPPolygon { plane: polygon.plane, vertices: back_verts },
    )
}

/// Appends the point where the edge from `a` to `b` crosses `plane`, if it
/// does, to both fragments.
fn push_crossing(plane: BSPPlane, a: Vec3, b: Vec3, front: &mut Vec<Vec3>, back: &mut Vec<Vec3>)
    requires
        plane.wf(),
        a.in_range(),
        b.in_range(),
        ring_in_range(old(front)@),
        ring_in_range(old(back)@),
    ensures
        final(front)@ == old(front)@ + plane.crossing(a, b),
        final(back)@ == old(back)@ + plane.crossing(a, b),
        ring_in_range(final(front)@),
        ring_in_range(final(back)@),
{
    match intersect_segment_plane(a, b, plane) {
        Some(p) => {
            front.push(p);
            back.push(p);
        },
        None => {
        },
    }
}

} // verus!
