//! What holds of splitting: no vertex ends up on the wrong side, a polygon
//! that the plane does not cut stays whole, and both fragments of a polygon
//! that spans the plane are polygons again.

use crate::plane::{BSPPlane, PointPlaneSide, PLANE_THICKNESS_EPS, ROUNDING_SLACK};
use crate::plane_laws::{
    lemma_crossing_between, lemma_crossing_is_coplanar, lemma_opposite_sides_meet,
};
use crate::polygon::{
    all_at_least, all_at_most, none_on_side, ring_in_range, ring_pred, Polygon, PolygonPlaneSide,
};
use crate::vec3::Vec3;
use vstd::prelude::*;

verus! {

/// Splitting never leaves a vertex on the wrong side: no vertex of the
/// front fragment lies behind the plane and none of the back fragment in
/// front of it, so the front fragment lies in front of the plane or on it,
/// the back fragment behind the plane or on it, and neither spans it.
pub proof fn lemma_split_keeps_sides(plane: BSPPlane, polygon: Polygon)
    requires
        plane.wf(),
        ring_in_range(polygon.vertices),
    ensures
        ring_in_range(plane.split(polygon).0.vertices),
        ring_in_range(plane.split(polygon).1.vertices),
        none_on_side(plane, plane.split(polygon).0.vertices, PointPlaneSide::Back),
        none_on_side(plane, plane.split(polygon).1.vertices, PointPlaneSide::Front),
        plane.side_of_ring(plane.split(polygon).0.vertices) == PolygonPlaneSide::Front
            || plane.side_of_ring(plane.split(polygon).0.vertices) == PolygonPlaneSide::Coplanar,
        plane.side_of_ring(plane.split(polygon).1.vertices) == PolygonPlaneSide::Back
            || plane.side_of_ring(plane.split(polygon).1.vertices) == PolygonPlaneSide::Coplanar,
{
    lemma_rings_keep_sides(plane, polygon.vertices, polygon.vertices.len());
}

/// Splitting by a plane `h` moves no vertex far, as seen from any plane `g`:
/// where every vertex of the polygon has a signed distance to `g` of `lo` at
/// least, every vertex of both fragments has one of `lo - ROUNDING_SLACK` at
/// least, and likewise from above.
pub proof fn lemma_split_stays_between(
    g: BSPPlane,
    h: BSPPlane,
    polygon: Polygon,
    lo: int,
    hi: int,
)
    requires
        g.wf(),
        ring_in_range(polygon.vertices),
    ensures
        all_at_least(g, polygon.vertices, lo) ==> all_at_least(
            g,
            h.split(polygon).0.vertices,
            lo - ROUNDING_SLACK,
        ) && all_at_least(g, h.split(polygon).1.vertices, lo - ROUNDING_SLACK),
        all_at_most(g, polygon.vertices, hi) ==> all_at_most(
            g,
            h.split(polygon).0.vertices,
            hi + ROUNDING_SLACK,
        ) && all_at_most(g, h.split(polygon).1.vertices, hi + ROUNDING_SLACK),
{
    lemma_rings_stay_between(g, h, polygon.vertices, polygon.vertices.len(), lo, hi);
}

/// A polygon that the plane does not cut is left whole by splitting. One
/// that lies in front of the plane, or on it, becomes the front fragment,
/// and the back fragment is empty. One that lies behind the plane and has
/// no vertex on it becomes the back fragment, and the front fragment is
/// empty.
pub proof fn lemma_split_of_uncut(plane: BSPPlane, polygon: Polygon)
    ensures
        plane.side_of_ring(polygon.vertices) == PolygonPlaneSide::Front || plane.side_of_ring(
            polygon.vertices,
        ) == PolygonPlaneSide::Coplanar ==> plane.split(polygon) == (
            polygon,
            Polygon { plane: polygon.plane, vertices: Seq::empty() },
        ),
        plane.side_of_ring(polygon.vertices) == PolygonPlaneSide::Back && none_on_side(
            plane,
            polygon.vertices,
            PointPlaneSide::Coplanar,
        ) ==> plane.split(polygon) == (
            Polygon { plane: polygon.plane, vertices: Seq::empty() },
            polygon,
        ),
{
    let ring = polygon.vertices;
    let side = plane.side_of_ring(ring);
    if side == PolygonPlaneSide::Front || side == PolygonPlaneSide::Coplanar {
        lemma_rings_of_front(plane, ring, ring.len());
        assert(ring.take(ring.len() as int) =~= ring);
    }
    if side == PolygonPlaneSide::Back && none_on_side(plane, ring, PointPlaneSide::Coplanar) {
        lemma_rings_of_back(plane, ring, ring.len());
        assert(ring.take(ring.len() as int) =~= ring);
    }
}

/// Both fragments of a polygon that spans the plane have at least three
/// vertices: splitting a spanning polygon loses nothing. Around a vertex in
/// front of the plane, the front fragment gets that vertex, what the edge
/// into it adds (a crossing, or the vertex before it), and what the edge out
/// of it adds; likewise for the back fragment around a vertex behind the
/// plane.
pub proof fn lemma_fragments_of_spanning(plane: BSPPlane, polygon: Polygon)
    requires
        plane.side_of_ring(polygon.vertices) == PolygonPlaneSide::Spanning,
    ensures
        plane.split(polygon).0.vertices.len() >= 3,
        plane.split(polygon).1.vertices.len() >= 3,
{
    let ring = polygon.vertices;
    let n = ring.len() as int;
    let p = choose|i: int| 0 <= i < n && i < ring.len() && #[trigger] plane.side_of(ring[i])
        == PointPlaneSide::Front;
    let b = choose|i: int| 0 <= i < n && i < ring.len() && #[trigger] plane.side_of(ring[i])
        == PointPlaneSide::Back;
    // Around the vertex p in front: the edge into p adds p, and a crossing
    // before it where it comes from behind; the edge out of p adds a
    // crossing or the vertex it ends in. Where the edge into p does not
    // come from behind, the vertex it starts from has been added by the
    // edge before; that edge is not the edge out of p, or the ring would
    // consist of these two vertices, neither of them behind.
    let pp = index_before(p, n);
    let ps = index_after(p, n);
    if plane.side_of(ring[ps]) == PointPlaneSide::Back {
        lemma_opposite_sides_meet(plane, ring[p], ring[ps]);
    }
    if plane.side_of(ring[pp]) == PointPlaneSide::Back {
        lemma_opposite_sides_meet(plane, ring[pp], ring[p]);
        lemma_front_ring_len(plane, ring, n as nat, p, 2, ps, 1, p, 0);
    } else {
        lemma_front_ring_len(plane, ring, n as nat, p, 1, pp, 1, ps, 1);
    }
    // Around the vertex b behind: the edge into b adds b, and before it a
    // crossing or the vertex on the plane that it starts from; the edge out
    // of b adds a crossing or the vertex it ends in. Where the edge into b
    // starts behind, the edge before has added its vertex.
    let bp = index_before(b, n);
    let bs = index_after(b, n);
    if plane.side_of(ring[bs]) == PointPlaneSide::Front {
        lemma_opposite_sides_meet(plane, ring[b], ring[bs]);
    }
    if plane.side_of(ring[bp]) != PointPlaneSide::Back {
        if plane.side_of(ring[bp]) == PointPlaneSide::Front {
            lemma_opposite_sides_meet(plane, ring[bp], ring[b]);
        }
        lemma_back_ring_len(plane, ring, n as nat, b, 2, bs, 1, b, 0);
    } else {
        lemma_back_ring_len(plane, ring, n as nat, b, 1, bp, 1, bs, 1);
    }
}

/// What one edge adds to the front fragment has no point behind the plane,
/// and what it adds to the back fragment has none in front of it.
proof fn lemma_parts_keep_sides(plane: BSPPlane, prev: Vec3, cur: Vec3)
    requires
        plane.wf(),
        prev.in_range(),
        cur.in_range(),
    ensures
        ring_in_range(plane.front_part(prev, cur)),
        ring_in_range(plane.back_part(prev, cur)),
        none_on_side(plane, plane.front_part(prev, cur), PointPlaneSide::Back),
        none_on_side(plane, plane.back_part(prev, cur), PointPlaneSide::Front),
{
    if plane.meets_segment(prev, cur) {
        lemma_crossing_is_coplanar(plane, prev, cur);
    }
}

/// What holds of the fragments after some edges still holds after one more.
proof fn lemma_rings_keep_sides(plane: BSPPlane, ring: Seq<Vec3>, k: nat)
    requires
        plane.wf(),
        ring_in_range(ring),
        k <= ring.len(),
    ensures
        ring_in_range(plane.front_ring(ring, k)),
        ring_in_range(plane.back_ring(ring, k)),
        none_on_side(plane, plane.front_ring(ring, k), PointPlaneSide::Back),
        none_on_side(plane, plane.back_ring(ring, k), PointPlaneSide::Front),
    decreases k,
{
    if k > 0 {
        lemma_rings_keep_sides(plane, ring, (k - 1) as nat);
        lemma_parts_keep_sides(plane, ring_pred(ring, k - 1), ring[k - 1]);
    }
}

/// What one edge adds to either fragment lies between the ends of the
/// edge, up to `ROUNDING_SLACK`, as seen from any plane.
proof fn lemma_parts_stay_between(
    g: BSPPlane,
    h: BSPPlane,
    prev: Vec3,
    cur: Vec3,
    lo: int,
    hi: int,
)
    requires
        g.wf(),
        prev.in_range(),
        cur.in_range(),
    ensures
        g.signed_distance(prev) >= lo && g.signed_distance(cur) >= lo ==> all_at_least(
            g,
            h.front_part(prev, cur),
            lo - ROUNDING_SLACK,
        ) && all_at_least(g, h.back_part(prev, cur), lo - ROUNDING_SLACK),
        g.signed_distance(prev) <= hi && g.signed_distance(cur) <= hi ==> all_at_most(
            g,
            h.front_part(prev, cur),
            hi + ROUNDING_SLACK,
        ) && all_at_most(g, h.back_part(prev, cur), hi + ROUNDING_SLACK),
{
    if h.meets_segment(prev, cur) {
        lemma_crossing_between(g, h, prev, cur, lo, hi);
    }
}

/// What holds of one edge's part holds of the fragments after `k` edges.
proof fn lemma_rings_stay_between(
    g: BSPPlane,
    h: BSPPlane,
    ring: Seq<Vec3>,
    k: nat,
    lo: int,
    hi: int,
)
    requires
        g.wf(),
        ring_in_range(ring),
        k <= ring.len(),
    ensures
        all_at_least(g, ring, lo) ==> all_at_least(g, h.front_ring(ring, k), lo - ROUNDING_SLACK)
            && all_at_least(g, h.back_ring(ring, k), lo - ROUNDING_SLACK),
        all_at_most(g, ring, hi) ==> all_at_most(g, h.front_ring(ring, k), hi + ROUNDING_SLACK)
            && all_at_most(g, h.back_ring(ring, k), hi + ROUNDING_SLACK),
    decreases k,
{
    if k > 0 {
        lemma_rings_stay_between(g, h, ring, (k - 1) as nat, lo, hi);
        lemma_parts_stay_between(g, h, ring_pred(ring, k - 1), ring[k - 1], lo, hi);
    }
}

/// With no vertex behind the plane, the first `k` edges add the first `k`
/// vertices to the front fragment and nothing to the back fragment.
proof fn lemma_rings_of_front(plane: BSPPlane, ring: Seq<Vec3>, k: nat)
    requires
        none_on_side(plane, ring, PointPlaneSide::Back),
        k <= ring.len(),
    ensures
        plane.front_ring(ring, k) == ring.take(k as int),
        plane.back_ring(ring, k) == Seq::<Vec3>::empty(),
    decreases k,
{
    if k > 0 {
        lemma_rings_of_front(plane, ring, (k - 1) as nat);
    }
}

/// With every vertex strictly behind the plane, the first `k` edges add
/// the first `k` vertices to the back fragment and nothing to the front
/// fragment.
proof fn lemma_rings_of_back(plane: BSPPlane, ring: Seq<Vec3>, k: nat)
    requires
        forall|i: int| 0 <= i < ring.len() ==> #[trigger] plane.side_of(ring[i])
            == PointPlaneSide::Back,
        k <= ring.len(),
    ensures
        plane.front_ring(ring, k) == Seq::<Vec3>::empty(),
        plane.back_ring(ring, k) == ring.take(k as int),
    decreases k,
{
    if k > 0 {
        lemma_rings_of_back(plane, ring, (k - 1) as nat);
    }
}

/// The index before `i` on a closed ring of `n` vertices.
pub open spec fn index_before(i: int, n: int) -> int {
    if i == 0 {
        n - 1
    } else {
        i - 1
    }
}

/// The index after `i` on a closed ring of `n` vertices.
pub open spec fn index_after(i: int, n: int) -> int {
    if i == n - 1 {
        0
    } else {
        i + 1
    }
}

/// The front fragment after `k` edges is at least as long as what up to
/// three chosen edges among them are known to add. Two of the chosen edges
/// may coincide where one of them is counted with nothing.
proof fn lemma_front_ring_len(
    plane: BSPPlane,
    ring: Seq<Vec3>,
    k: nat,
    e1: int,
    w1: nat,
    e2: int,
    w2: nat,
    e3: int,
    w3: nat,
)
    requires
        k <= ring.len(),
        0 <= e1 < ring.len(),
        0 <= e2 < ring.len(),
        0 <= e3 < ring.len(),
        plane.front_part(ring_pred(ring, e1), ring[e1]).len() >= w1,
        plane.front_part(ring_pred(ring, e2), ring[e2]).len() >= w2,
        plane.front_part(ring_pred(ring, e3), ring[e3]).len() >= w3,
        e1 == e2 ==> w1 == 0 || w2 == 0,
        e1 == e3 ==> w1 == 0 || w3 == 0,
        e2 == e3 ==> w2 == 0 || w3 == 0,
    ensures
        plane.front_ring(ring, k).len() >= (if e1 < k {
            w1
        } else {
            0
        }) + (if e2 < k {
            w2
        } else {
            0
        }) + (if e3 < k {
            w3
        } else {
            0
        }),
    decreases k,
{
    if k > 0 {
        lemma_front_ring_len(plane, ring, (k - 1) as nat, e1, w1, e2, w2, e3, w3);
    }
}

/// The same for the back fragment.
proof fn lemma_back_ring_len(
    plane: BSPPlane,
    ring: Seq<Vec3>,
    k: nat,
    e1: int,
    w1: nat,
    e2: int,
    w2: nat,
    e3: int,
    w3: nat,
)
    requires
        k <= ring.len(),
        0 <= e1 < ring.len(),
        0 <= e2 < ring.len(),
        0 <= e3 < ring.len(),
        plane.back_part(ring_pred(ring, e1), ring[e1]).len() >= w1,
        plane.back_part(ring_pred(ring, e2), ring[e2]).len() >= w2,
        plane.back_part(ring_pred(ring, e3), ring[e3]).len() >= w3,
        e1 == e2 ==> w1 == 0 || w2 == 0,
        e1 == e3 ==> w1 == 0 || w3 == 0,
        e2 == e3 ==> w2 == 0 || w3 == 0,
    ensures
        plane.back_ring(ring, k).len() >= (if e1 < k {
            w1
        } else {
            0
        }) + (if e2 < k {
            w2
        } else {
            0
        }) + (if e3 < k {
            w3
        } else {
            0
        }),
    decreases k,
{
    if k > 0 {
        lemma_back_ring_len(plane, ring, (k - 1) as nat, e1, w1, e2, w2, e3, w3);
    }
}

/// Points of which none lies behind a plane have a signed distance to it of
/// minus its thickness at least, and the other way round; likewise for
/// points of which none lies in front of it.
pub proof fn lemma_sides_as_distances(plane: BSPPlane, points: Seq<Vec3>)
    ensures
        none_on_side(plane, points, PointPlaneSide::Back) <==> all_at_least(
            plane,
            points,
            -PLANE_THICKNESS_EPS,
        ),
        none_on_side(plane, points, PointPlaneSide::Front) <==> all_at_most(
            plane,
            points,
            PLANE_THICKNESS_EPS as int,
        ),
{
    if none_on_side(plane, points, PointPlaneSide::Back) {
        assert forall|i: int| 0 <= i < points.len() implies #[trigger] plane.signed_distance(
            points[i],
        ) >= -PLANE_THICKNESS_EPS by {
            assert(plane.side_of(points[i]) != PointPlaneSide::Back);
        }
    }
    if none_on_side(plane, points, PointPlaneSide::Front) {
        assert forall|i: int| 0 <= i < points.len() implies #[trigger] plane.signed_distance(
            points[i],
        ) <= PLANE_THICKNESS_EPS by {
            assert(plane.side_of(points[i]) != PointPlaneSide::Front);
        }
    }
    if all_at_least(plane, points, -PLANE_THICKNESS_EPS) {
        assert forall|i: int| 0 <= i < points.len() implies #[trigger] plane.side_of(points[i])
            != PointPlaneSide::Back by {
            assert(plane.signed_distance(points[i]) >= -PLANE_THICKNESS_EPS);
        }
    }
    if all_at_most(plane, points, PLANE_THICKNESS_EPS as int) {
        assert forall|i: int| 0 <= i < points.len() implies #[trigger] plane.side_of(points[i])
            != PointPlaneSide::Front by {
            assert(plane.signed_distance(points[i]) <= PLANE_THICKNESS_EPS);
        }
    }
}

/// A polygon that is planar lies on its plane with no slack, and the other
/// way round; and one that lies on its plane classifies as coplanar with
/// it.
pub proof fn lemma_planar(polygon: Polygon)
    ensures
        polygon.planar() <==> polygon.planar_within(0),
        polygon.planar() <==> polygon.plane.side_of_ring(polygon.vertices)
            == PolygonPlaneSide::Coplanar,
{
    lemma_sides_as_distances(polygon.plane, polygon.vertices);
    let ring = polygon.vertices;
    let plane = polygon.plane;
    if polygon.planar() {
        assert(!plane.has_on_side(ring, ring.len() as int, PointPlaneSide::Front));
        assert(!plane.has_on_side(ring, ring.len() as int, PointPlaneSide::Back));
    }
    if plane.side_of_ring(ring) == PolygonPlaneSide::Coplanar {
        assert forall|i: int| 0 <= i < ring.len() implies #[trigger] plane.side_of(ring[i])
            != PointPlaneSide::Front && plane.side_of(ring[i]) != PointPlaneSide::Back by {
            if plane.side_of(ring[i]) == PointPlaneSide::Front {
                assert(plane.has_on_side(ring, ring.len() as int, PointPlaneSide::Front));
            }
            if plane.side_of(ring[i]) == PointPlaneSide::Back {
                assert(plane.has_on_side(ring, ring.len() as int, PointPlaneSide::Back));
            }
        }
    }
}

} // verus!
