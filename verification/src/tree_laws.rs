//! What holds of a tree: the polygons are sorted onto the side of each
//! splitting plane that they lie on, nothing of a polygon that spans a
//! plane is lost, the tree that is built is well formed, it partitions the
//! space and its polygons lie on their planes, the last two up to the
//! rounding of crossing points.

use crate::plane::{BSPPlane, PointPlaneSide, PLANE_THICKNESS_EPS, ROUNDING_SLACK};
use crate::polygon::{
    all_at_least, all_at_most, polygons_planar, polygons_wf, Polygon, PolygonPlaneSide,
};
use crate::polygon_laws::{
    lemma_fragments_of_spanning, lemma_planar, lemma_sides_as_distances,
    lemma_split_keeps_sides, lemma_split_stays_between,
};
use crate::tree::{
    all_coplanar, all_off_side, build_tree, lemma_distribute_len, list_at_least, list_at_most,
    list_planar_within, Partition, Tree,
};
use crate::vec3::Vec3;
use vstd::prelude::*;
use vstd::seq_lib::lemma_multiset_commutative;

verus! {

/// Sorting loses nothing of a polygon that spans the plane: both of its
/// fragments have three vertices or more, so both are kept.
pub proof fn lemma_place_spanning(plane: BSPPlane, part: Partition, polygon: Polygon)
    requires
        plane.side_of_ring(polygon.vertices) == PolygonPlaneSide::Spanning,
    ensures
        plane.place(part, polygon) == (Partition {
            front: part.front.push(plane.split(polygon).0),
            back: part.back.push(plane.split(polygon).1),
            coplanar: part.coplanar,
        }),
{
    lemma_fragments_of_spanning(plane, polygon);
}

/// Sorting neither loses nor repeats a polygon: every polygon that does not
/// span the plane stands in one of the three lists once, and every polygon
/// that spans it stands with one fragment in the front list and with one in
/// the back list.
pub proof fn lemma_distribute_counts(plane: BSPPlane, polygons: Seq<Polygon>, k: nat)
    ensures
        plane.distribute(polygons, k).front.len() + plane.distribute(polygons, k).back.len()
            + plane.distribute(polygons, k).coplanar.len() == k + plane.spanning_among(
            polygons,
            k,
        ),
    decreases k,
{
    if k > 0 {
        lemma_distribute_counts(plane, polygons, (k - 1) as nat);
        if plane.side_of_ring(polygons[k - 1].vertices) == PolygonPlaneSide::Spanning {
            lemma_place_spanning(
                plane,
                plane.distribute(polygons, (k - 1) as nat),
                polygons[k - 1],
            );
        }
    }
}

/// Sorting keeps its promise: the polygons of the three lists are well
/// formed; none in the front list has a vertex behind the plane, none in
/// the back list has a vertex in front of it, and every polygon in the
/// coplanar list lies on the plane.
pub proof fn lemma_distribute_sides(plane: BSPPlane, polygons: Seq<Polygon>, k: nat)
    requires
        plane.wf(),
        polygons_wf(polygons),
        k <= polygons.len(),
    ensures
        polygons_wf(plane.distribute(polygons, k).front),
        polygons_wf(plane.distribute(polygons, k).back),
        polygons_wf(plane.distribute(polygons, k).coplanar),
        all_off_side(plane, plane.distribute(polygons, k).front, PointPlaneSide::Back),
        all_off_side(plane, plane.distribute(polygons, k).back, PointPlaneSide::Front),
        all_coplanar(plane, plane.distribute(polygons, k).coplanar),
    decreases k,
{
    if k > 0 {
        lemma_distribute_sides(plane, polygons, (k - 1) as nat);
        lemma_split_keeps_sides(plane, polygons[k - 1]);
    }
}

/// Sorting by a plane `h` moves no vertex far, as seen from any plane `g`:
/// the polygons of the coplanar list are as they were, and those of the
/// front and of the back list have moved by `ROUNDING_SLACK` at most.
pub proof fn lemma_distribute_stays_between(
    g: BSPPlane,
    h: BSPPlane,
    polygons: Seq<Polygon>,
    k: nat,
    lo: int,
    hi: int,
)
    requires
        g.wf(),
        polygons_wf(polygons),
        k <= polygons.len(),
    ensures
        list_at_least(g, polygons, lo) ==> {
            &&& list_at_least(g, h.distribute(polygons, k).coplanar, lo)
            &&& list_at_least(g, h.distribute(polygons, k).front, lo - ROUNDING_SLACK)
            &&& list_at_least(g, h.distribute(polygons, k).back, lo - ROUNDING_SLACK)
        },
        list_at_most(g, polygons, hi) ==> {
            &&& list_at_most(g, h.distribute(polygons, k).coplanar, hi)
            &&& list_at_most(g, h.distribute(polygons, k).front, hi + ROUNDING_SLACK)
            &&& list_at_most(g, h.distribute(polygons, k).back, hi + ROUNDING_SLACK)
        },
    decreases k,
{
    if k > 0 {
        lemma_distribute_stays_between(g, h, polygons, (k - 1) as nat, lo, hi);
        lemma_split_stays_between(g, h, polygons[k - 1], lo, hi);
    }
}

/// The tree for a list of polygons holds no vertex far from where the list
/// had it, as seen from any plane `g`.
pub proof fn lemma_build_tree_stays_between(g: BSPPlane, polygons: Seq<Polygon>, lo: int, hi: int)
    requires
        g.wf(),
        polygons_wf(polygons),
    ensures
        list_at_least(g, polygons, lo) ==> build_tree(polygons).at_least(g, lo),
        list_at_most(g, polygons, hi) ==> build_tree(polygons).at_most(g, hi),
    decreases polygons.len(),
{
    if polygons.len() != 0 {
        let h = polygons[0].plane;
        let rest = polygons.skip(1);
        lemma_distribute_len(h, rest, rest.len());
        lemma_distribute_sides(h, rest, rest.len());
        lemma_distribute_stays_between(g, h, rest, rest.len(), lo, hi);
        let part = h.distribute(rest, rest.len());
        lemma_build_tree_stays_between(g, part.front, lo - ROUNDING_SLACK, hi + ROUNDING_SLACK);
        lemma_build_tree_stays_between(g, part.back, lo - ROUNDING_SLACK, hi + ROUNDING_SLACK);
    }
}

/// The tree for a list of well-formed polygons partitions the space, up to
/// the rounding of crossing points: at every node, a polygon that stands
/// `k` levels below the front child has no vertex farther behind the plane
/// of the node than its thickness and `k` times `ROUNDING_SLACK`, and
/// likewise for the back child. For the polygons of the children
/// themselves, `k` is zero: they keep to their side.
pub proof fn lemma_build_tree_sorted(polygons: Seq<Polygon>)
    requires
        polygons_wf(polygons),
    ensures
        build_tree(polygons).sorted(),
    decreases polygons.len(),
{
    if polygons.len() != 0 {
        let h = polygons[0].plane;
        let rest = polygons.skip(1);
        lemma_distribute_len(h, rest, rest.len());
        lemma_distribute_sides(h, rest, rest.len());
        let part = h.distribute(rest, rest.len());
        assert forall|i: int| 0 <= i < part.front.len() implies all_at_least(
            h,
            (#[trigger] part.front[i]).vertices,
            -PLANE_THICKNESS_EPS,
        ) by {
            lemma_sides_as_distances(h, part.front[i].vertices);
        }
        assert forall|i: int| 0 <= i < part.back.len() implies all_at_most(
            h,
            (#[trigger] part.back[i]).vertices,
            PLANE_THICKNESS_EPS as int,
        ) by {
            lemma_sides_as_distances(h, part.back[i].vertices);
        }
        lemma_build_tree_stays_between(
            h,
            part.front,
            -PLANE_THICKNESS_EPS,
            PLANE_THICKNESS_EPS as int,
        );
        lemma_build_tree_stays_between(
            h,
            part.back,
            -PLANE_THICKNESS_EPS,
            PLANE_THICKNESS_EPS as int,
        );
        lemma_build_tree_sorted(part.front);
        lemma_build_tree_sorted(part.back);
    }
}

/// Sorting moves no polygon far off its own plane: the polygons of the
/// coplanar list are as they were, and those of the front and of the back
/// list lie on their planes up to `ROUNDING_SLACK` more than before.
pub proof fn lemma_distribute_flat(h: BSPPlane, polygons: Seq<Polygon>, k: nat, slack: int)
    requires
        polygons_wf(polygons),
        list_planar_within(polygons, slack),
        k <= polygons.len(),
    ensures
        list_planar_within(h.distribute(polygons, k).coplanar, slack),
        list_planar_within(h.distribute(polygons, k).front, slack + ROUNDING_SLACK),
        list_planar_within(h.distribute(polygons, k).back, slack + ROUNDING_SLACK),
    decreases k,
{
    if k > 0 {
        lemma_distribute_flat(h, polygons, (k - 1) as nat, slack);
        let polygon = polygons[k - 1];
        assert(polygon.wf() && polygon.planar_within(slack));
        lemma_split_stays_between(
            polygon.plane,
            h,
            polygon,
            -PLANE_THICKNESS_EPS - slack,
            PLANE_THICKNESS_EPS + slack,
        );
    }
}

/// Where the polygons of a list lie on their planes up to `slack`, so do
/// the polygons of the tree for the list, up to `ROUNDING_SLACK` more with
/// every level. With planar polygons and no slack, the polygons at the root
/// lie on their planes, and so does the first polygon of every node up to
/// `ROUNDING_SLACK` for every level that the node stands below the root.
pub proof fn lemma_build_tree_flat(polygons: Seq<Polygon>, slack: int)
    requires
        polygons_wf(polygons),
    ensures
        list_planar_within(polygons, slack) ==> build_tree(polygons).flat_within(slack),
    decreases polygons.len(),
{
    if polygons.len() != 0 && list_planar_within(polygons, slack) {
        let plane = polygons[0].plane;
        let rest = polygons.skip(1);
        assert(polygons[0].planar_within(slack));
        assert forall|i: int| 0 <= i < rest.len() implies (#[trigger] rest[i]).wf()
            && rest[i].planar_within(slack) by {
            assert(rest[i] == polygons[i + 1]);
        }
        lemma_distribute_len(plane, rest, rest.len());
        lemma_distribute_sides(plane, rest, rest.len());
        lemma_distribute_flat(plane, rest, rest.len(), slack);
        let part = plane.distribute(rest, rest.len());
        lemma_build_tree_flat(part.front, slack + ROUNDING_SLACK);
        lemma_build_tree_flat(part.back, slack + ROUNDING_SLACK);
        let here = seq![polygons[0]] + part.coplanar;
        assert forall|i: int| 0 <= i < here.len() implies (#[trigger] here[i]).planar_within(
            slack,
        ) by {
            if i > 0 {
                assert(here[i] == part.coplanar[i - 1]);
            }
        }
    }
}

/// The tree for a list of planar polygons holds polygons that lie on their
/// planes: those at the root within the thickness of the plane, those of its
/// children up to `ROUNDING_SLACK` more, and so on.
pub proof fn lemma_build_tree_planar(polygons: Seq<Polygon>)
    requires
        polygons_wf(polygons),
    ensures
        polygons_planar(polygons) ==> build_tree(polygons).flat_within(0),
{
    if polygons_planar(polygons) {
        assert forall|i: int| 0 <= i < polygons.len() implies (#[trigger] polygons[i])
            .planar_within(0) by {
            lemma_planar(polygons[i]);
        }
        lemma_build_tree_flat(polygons, 0);
    }
}

/// Where the first polygon of a list is planar, every polygon at the root
/// of the tree for the list lies on the plane of the root, the first one
/// too.
pub proof fn lemma_root_lies_on_its_plane(polygons: Seq<Polygon>)
    requires
        polygons_wf(polygons),
        polygons.len() > 0,
        polygons[0].planar(),
    ensures
        build_tree(polygons) matches Tree::Node { plane, polygons: here, .. } && all_coplanar(
            plane,
            here,
        ),
{
    lemma_build_tree_wf(polygons);
    lemma_planar(polygons[0]);
}

/// A well-formed tree has well-formed planes.
pub proof fn lemma_planes_wf(tree: Tree)
    requires
        tree.wf(),
    ensures
        tree.planes_wf(),
    decreases tree,
{
    match tree {
        Tree::Leaf => {},
        Tree::Node { plane, front, back, polygons } => {
            lemma_planes_wf(*front);
            lemma_planes_wf(*back);
        },
    }
}

/// The tree for a list of well-formed polygons is well formed.
pub proof fn lemma_build_tree_wf(polygons: Seq<Polygon>)
    requires
        polygons_wf(polygons),
    ensures
        build_tree(polygons).wf(),
    decreases polygons.len(),
{
    if polygons.len() != 0 {
        let plane = polygons[0].plane;
        let rest = polygons.skip(1);
        lemma_distribute_len(plane, rest, rest.len());
        lemma_distribute_sides(plane, rest, rest.len());
        let part = plane.distribute(rest, rest.len());
        lemma_build_tree_wf(part.front);
        lemma_build_tree_wf(part.back);
    }
}

/// Whatever the viewer, every node of the tree is visited exactly once: the
/// viewer decides the order only.
pub proof fn lemma_visits_every_node_once(tree: Tree, viewer: Vec3)
    ensures
        tree.visit_order(viewer).to_multiset() == tree.planes(),
    decreases tree,
{
    match tree {
        Tree::Leaf => {
            Seq::<BSPPlane>::empty().to_multiset_ensures();
        },
        Tree::Node { plane, front, back, polygons } => {
            lemma_visits_every_node_once(*front, viewer);
            lemma_visits_every_node_once(*back, viewer);
            let here = seq![plane];
            let f = front.visit_order(viewer);
            let b = back.visit_order(viewer);
            Seq::<BSPPlane>::empty().to_multiset_ensures();
            lemma_multiset_commutative(here, f);
            lemma_multiset_commutative(here, b);
            lemma_multiset_commutative(here + f, b);
            lemma_multiset_commutative(here + b, f);
        },
    }
}

} // verus!
