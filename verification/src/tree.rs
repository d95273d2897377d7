//! The tree of splitting planes: how it is built from a list of polygons,
//! and the order in which a viewer visits its nodes.

use crate::plane::{BSPPlane, PointPlaneSide, PLANE_THICKNESS_EPS, ROUNDING_SLACK};
use crate::polygon::{
    all_at_least, all_at_most, classify_polygon_by_plane, none_on_side, polygon_models,
    polygons_planar, polygons_wf, split_bsp_polygon, BSPPolygon, Polygon, PolygonPlaneSide,
};
use crate::tree_laws::{
    lemma_build_tree_planar, lemma_build_tree_sorted, lemma_distribute_sides, lemma_planes_wf,
    lemma_root_lies_on_its_plane,
};
use crate::vec3::Vec3;
use vstd::multiset::Multiset;
use vstd::prelude::*;

verus! {

/// An inner node: a splitting plane, the subtree of what lies in front of
/// it, the subtree of what lies behind it, and the polygons on the plane.
#[derive(Debug, PartialEq, Eq)]
pub struct InnerBSPNode {
    pub plane: BSPPlane,
    pub front: Box<BSPNode>,
    pub back: Box<BSPNode>,
    pub polygons: Vec<BSPPolygon>,
}

/// A tree of splitting planes.
#[derive(Debug, PartialEq, Eq)]
pub enum BSPNode {
    Node(InnerBSPNode),
    Leaf,
}

/// The mathematical model of a tree.
pub enum Tree {
    Leaf,
    Node { plane: BSPPlane, front: Box<Tree>, back: Box<Tree>, polygons: Seq<Polygon> },
}

/// Three lists that the polygons of a node are sorted into.
pub struct Partition {
    pub front: Seq<Polygon>,
    pub back: Seq<Polygon>,
    pub coplanar: Seq<Polygon>,
}

impl BSPNode {
    /// The model of the tree: the same shape, with the model of each
    /// polygon in place of the polygon.
    pub open spec fn model(&self) -> Tree
        decreases self,
    {
        match self {
            BSPNode::Leaf => Tree::Leaf,
            BSPNode::Node(inner) => Tree::Node {
                plane: inner.plane,
                front: Box::new(inner.front.model()),
                back: Box::new(inner.back.model()),
                polygons: polygon_models(inner.polygons@),
            },
        }
    }
}

impl View for BSPNode {
    type V = Tree;

    open spec fn view(&self) -> Tree {
        self.model()
    }
}

/// The list with the fragment appended, unless the fragment has fewer than
/// three vertices: such a fragment is dropped.
pub open spec fn with_fragment(list: Seq<Polygon>, fragment: Polygon) -> Seq<Polygon> {
    if fragment.vertices.len() >= 3 {
        list.push(fragment)
    } else {
        list
    }
}

impl BSPPlane {
    /// The partition with one more polygon sorted in: a polygon on the
    /// plane joins the coplanar list, one in front of it the front list,
    /// one behind it the back list; a polygon that spans the plane is split,
    /// and its fragments join the front and the back list.
    pub open spec fn place(&self, part: Partition, polygon: Polygon) -> Partition {
        match self.side_of_ring(polygon.vertices) {
            PolygonPlaneSide::Coplanar => Partition {
                coplanar: part.coplanar.push(polygon),
                ..part
            },
            PolygonPlaneSide::Front => Partition { front: part.front.push(polygon), ..part },
            PolygonPlaneSide::Back => Partition { back: part.back.push(polygon), ..part },
            PolygonPlaneSide::Spanning => Partition {
                front: with_fragment(part.front, self.split(polygon).0),
                back: with_fragment(part.back, self.split(polygon).1),
                ..part
            },
        }
    }

    /// How many of the first `k` of the polygons span the plane.
    pub open spec fn spanning_among(&self, polygons: Seq<Polygon>, k: nat) -> nat
        decreases k,
    {
        if k == 0 {
            0
        } else if self.side_of_ring(polygons[k - 1].vertices) == PolygonPlaneSide::Spanning {
            self.spanning_among(polygons, (k - 1) as nat) + 1
        } else {
            self.spanning_among(polygons, (k - 1) as nat)
        }
    }

    /// The partition of the first `k` of the polygons.
    pub open spec fn distribute(&self, polygons: Seq<Polygon>, k: nat) -> Partition
        decreases k,
    {
        if k == 0 {
            Partition { front: Seq::empty(), back: Seq::empty(), coplanar: Seq::empty() }
        } else {
            self.place(self.distribute(polygons, (k - 1) as nat), polygons[k - 1])
        }
    }
}

/// The tree for a list of polygons. An empty list gives a leaf. Otherwise
/// the plane of the first polygon splits the space: the first polygon stays
/// at the node, the others are sorted by that plane, those on the plane
/// stay at the node after the first, and the front and the back list give
/// the two subtrees.
pub open spec fn build_tree(polygons: Seq<Polygon>) -> Tree
    decreases polygons.len(),
    via build_tree_decreases
{
    if polygons.len() == 0 {
        Tree::Leaf
    } else {
        let plane = polygons[0].plane;
        let rest = polygons.skip(1);
        let part = plane.distribute(rest, rest.len());
        Tree::Node {
            plane,
            front: Box::new(build_tree(part.front)),
            back: Box::new(build_tree(part.back)),
            polygons: seq![polygons[0]] + part.coplanar,
        }
    }
}

#[via_fn]
proof fn build_tree_decreases(polygons: Seq<Polygon>) {
    if polygons.len() != 0 {
        let rest = polygons.skip(1);
        lemma_distribute_len(polygons[0].plane, rest, rest.len());
    }
}

/// Neither the front list nor the back list of a partition is longer than
/// the number of polygons sorted.
pub proof fn lemma_distribute_len(plane: BSPPlane, polygons: Seq<Polygon>, k: nat)
    ensures
        plane.distribute(polygons, k).front.len() <= k,
        plane.distribute(polygons, k).back.len() <= k,
        plane.distribute(polygons, k).coplanar.len() <= k,
    decreases k,
{
    if k > 0 {
        lemma_distribute_len(plane, polygons, (k - 1) as nat);
    }
}

impl Tree {
    /// Every node has a well-formed plane, which is the plane of the first
    /// of its polygons; its polygons are well formed, and all but the first
    /// lie on the plane; its subtrees are well formed.
    pub open spec fn wf(self) -> bool
        decreases self,
    {
        match self {
            Tree::Leaf => true,
            Tree::Node { plane, front, back, polygons } => {
                &&& plane.wf()
                &&& polygons.len() >= 1
                &&& polygons[0].plane == plane
                &&& polygons_wf(polygons)
                &&& forall|i: int|
                    1 <= i < polygons.len() ==> plane.side_of_ring(
                        (#[trigger] polygons[i]).vertices,
                    ) == PolygonPlaneSide::Coplanar
                &&& front.wf()
                &&& back.wf()
            },
        }
    }

    /// Every node has a well-formed plane: all that a traversal needs.
    pub open spec fn planes_wf(self) -> bool
        decreases self,
    {
        match self {
            Tree::Leaf => true,
            Tree::Node { plane, front, back, polygons } => {
                &&& plane.wf()
                &&& front.planes_wf()
                &&& back.planes_wf()
            },
        }
    }

    /// Every polygon of the tree lies on its own plane, up to `slack` beyond
    /// the thickness of the plane at the root, and up to `ROUNDING_SLACK`
    /// more with every level: each level may have split the polygons once
    /// more, and the rounding of a crossing point can take it that far off
    /// the plane. As the first polygon of a node has the plane of the node,
    /// it lies on the plane of the node as far as this says.
    pub open spec fn flat_within(self, slack: int) -> bool
        decreases self,
    {
        match self {
            Tree::Leaf => true,
            Tree::Node { plane, front, back, polygons } => {
                &&& list_planar_within(polygons, slack)
                &&& front.flat_within(slack + ROUNDING_SLACK)
                &&& back.flat_within(slack + ROUNDING_SLACK)
            },
        }
    }

    /// No vertex in the tree has a signed distance to the plane `g` below
    /// `bound`, where the bound falls by `ROUNDING_SLACK` with every level:
    /// each level may have split the polygons once more.
    pub open spec fn at_least(self, g: BSPPlane, bound: int) -> bool
        decreases self,
    {
        match self {
            Tree::Leaf => true,
            Tree::Node { plane, front, back, polygons } => {
                &&& list_at_least(g, polygons, bound)
                &&& front.at_least(g, bound - ROUNDING_SLACK)
                &&& back.at_least(g, bound - ROUNDING_SLACK)
            },
        }
    }

    /// No vertex in the tree has a signed distance to the plane `g` above
    /// `bound`, where the bound rises by `ROUNDING_SLACK` with every level.
    pub open spec fn at_most(self, g: BSPPlane, bound: int) -> bool
        decreases self,
    {
        match self {
            Tree::Leaf => true,
            Tree::Node { plane, front, back, polygons } => {
                &&& list_at_most(g, polygons, bound)
                &&& front.at_most(g, bound + ROUNDING_SLACK)
                &&& back.at_most(g, bound + ROUNDING_SLACK)
            },
        }
    }

    /// The tree partitions the space: at every node, the front subtree
    /// holds what lies in front of the node's plane or on it, and the back
    /// subtree what lies behind the plane or on it. The polygons at the
    /// root of a subtree keep to their side exactly, that is up to the
    /// thickness of the plane; those a level further down up to
    /// `ROUNDING_SLACK` more, and so on: they may hold crossing points cut
    /// further down, which are rounded to whole steps.
    pub open spec fn sorted(self) -> bool
        decreases self,
    {
        match self {
            Tree::Leaf => true,
            Tree::Node { plane, front, back, polygons } => {
                &&& front.at_least(plane, -PLANE_THICKNESS_EPS)
                &&& back.at_most(plane, PLANE_THICKNESS_EPS as int)
                &&& front.sorted()
                &&& back.sorted()
            },
        }
    }

    /// The planes of all nodes of the tree, each as often as it occurs.
    pub open spec fn planes(self) -> Multiset<BSPPlane>
        decreases self,
    {
        match self {
            Tree::Leaf => Multiset::empty(),
            Tree::Node { plane, front, back, polygons } => Multiset::singleton(plane).add(
                front.planes(),
            ).add(back.planes()),
        }
    }

    /// The planes of the nodes in the order in which the viewer visits
    /// them: a node before its subtrees; the front subtree before the back
    /// subtree where the viewer is strictly in front of the node's plane,
    /// the back subtree first otherwise. A leaf is not visited.
    pub open spec fn visit_order(self, viewer: Vec3) -> Seq<BSPPlane>
        decreases self,
    {
        match self {
            Tree::Leaf => Seq::empty(),
            Tree::Node { plane, front, back, polygons } => {
                if plane.faces(viewer) {
                    seq![plane] + front.visit_order(viewer) + back.visit_order(viewer)
                } else {
                    seq![plane] + back.visit_order(viewer) + front.visit_order(viewer)
                }
            },
        }
    }
}

/// No polygon of the list has a vertex on `side` of the plane.
pub open spec fn all_off_side(
    plane: BSPPlane,
    polygons: Seq<Polygon>,
    side: PointPlaneSide,
) -> bool {
    forall|i: int|
        0 <= i < polygons.len() ==> none_on_side(plane, (#[trigger] polygons[i]).vertices, side)
}

/// No vertex of a polygon of the list has a signed distance to the plane
/// below `bound`.
pub open spec fn list_at_least(plane: BSPPlane, polygons: Seq<Polygon>, bound: int) -> bool {
    forall|i: int|
        0 <= i < polygons.len() ==> all_at_least(plane, (#[trigger] polygons[i]).vertices, bound)
}

/// No vertex of a polygon of the list has a signed distance to the plane
/// above `bound`.
pub open spec fn list_at_most(plane: BSPPlane, polygons: Seq<Polygon>, bound: int) -> bool {
    forall|i: int|
        0 <= i < polygons.len() ==> all_at_most(plane, (#[trigger] polygons[i]).vertices, bound)
}

/// Every polygon of the list lies on its own plane, up to `slack` beyond
/// the thickness of the plane.
pub open spec fn list_planar_within(polygons: Seq<Polygon>, slack: int) -> bool {
    forall|i: int| 0 <= i < polygons.len() ==> (#[trigger] polygons[i]).planar_within(slack)
}

/// Every polygon of the list lies on the plane.
pub open spec fn all_coplanar(plane: BSPPlane, polygons: Seq<Polygon>) -> bool {
    forall|i: int|
        0 <= i < polygons.len() ==> plane.side_of_ring((#[trigger] polygons[i]).vertices)
            == PolygonPlaneSide::Coplanar
}

/// Builds the tree for a list of polygons. An empty list gives a leaf.
/// Otherwise the plane of the first polygon becomes the splitting plane of
/// the root, and the first polygon stays at the root. Each other polygon is
/// sorted by that plane: onto the plane, in front of it, or behind it; one
/// that spans the plane is split, and each fragment joins its list as it
/// was cut, unless it has fewer than three vertices. The front subtree is
/// the tree for the front list, the back subtree the tree for the back
/// list.
///
/// The tree partitions the space, and where the polygons of the list are
/// planar, the polygons of the tree lie on their planes: both up to the
/// rounding of crossing points, `ROUNDING_SLACK` for every level below the
/// node in question, as `sorted` and `flat_within` say. At the root itself
/// nothing is rounded: where the first polygon of the list is planar, every
/// polygon at the root lies on the plane of the root.
pub fn build_bsp_node(polygons: Vec<BSPPolygon>) -> (node: BSPNode)
    requires
        polygons_wf(polygon_models(polygons@)),
    ensures
        node@ == build_tree(polygon_models(polygons@)),
        node@.wf(),
        node@.planes_wf(),
        node@.sorted(),
        polygons_planar(polygon_models(polygons@)) ==> node@.flat_within(0),
        polygons@.len() > 0 && polygon_models(polygons@)[0].planar() ==> (node@ matches Tree::Node {
            plane,
            polygons: here,
            ..
        } && all_coplanar(plane, here)),
        polygons@.len() == 0 <==> node@ == Tree::Leaf,
    decreases polygons@.len(),
{
    proof {
        lemma_build_tree_sorted(polygon_models(polygons@));
        lemma_build_tree_planar(polygon_models(polygons@));
        if polygons@.len() > 0 && polygon_models(polygons@)[0].planar() {
            lemma_root_lies_on_its_plane(polygon_models(polygons@));
        }
    }
    if polygons.len() == 0 {
        return BSPNode::Leaf;
    }
    let ghost all = polygon_models(polygons@);
    let ghost rest = all.skip(1);
    let split_plane: BSPPlane = polygons[0].plane;
    let mut front: Vec<BSPPolygon> = Vec::new();
    let mut back: Vec<BSPPolygon> = Vec::new();
    let mut coplanar: Vec<BSPPolygon> = Vec::new();
    push_polygon(&mut coplanar, polygons[0].clone());
    let mut i: usize = 1;
    while i < polygons.len()
        invariant
            1 <= i <= polygons.len(),
            all == polygon_models(polygons@),
            polygons_wf(all),
            rest == all.skip(1),
            split_plane == all[0].plane,
            split_plane.wf(),
            polygon_models(front@) == split_plane.distribute(rest, (i - 1) as nat).front,
            polygon_models(back@) == split_plane.distribute(rest, (i - 1) as nat).back,
            polygon_models(coplanar@) == seq![all[0]] + split_plane.distribute(
                rest,
                (i - 1) as nat,
            ).coplanar,
        decreases polygons.len() - i,
    {
        let polygon = &polygons[i];
        assert(rest[i - 1] == all[i as int] && all[i as int] == polygon@);
        match classify_polygon_by_plane(split_plane, polygon) {
            PolygonPlaneSide::Back => push_polygon(&mut back, polygon.clone()),
            PolygonPlaneSide::Front => push_polygon(&mut front, polygon.clone()),
            PolygonPlaneSide::Coplanar => push_polygon(&mut coplanar, polygon.clone()),
            PolygonPlaneSide::Spanning => {
                let (front_poly, back_poly) = split_bsp_polygon(split_plane, polygon);
                push_fragment(&mut back, back_poly);
                push_fragment(&mut front, front_poly);
            },
        }
        i = i + 1;
    }
    proof {
        lemma_distribute_len(split_plane, rest, rest.len());
        lemma_distribute_sides(split_plane, rest, rest.len());
    }
    let front_node = build_bsp_node(front);
    let back_node = build_bsp_node(back);
    proof {
        lemma_planes_wf(build_tree(all));
    }
    BSPNode::Node(
        InnerBSPNode {
            plane: split_plane,
            front: Box::new(front_node),
            back: Box::new(back_node),
            polygons: coplanar,
        },
    )
}

impl BSPNode {
    /// Tells whether every node of the tree has a well-formed plane.
    pub fn has_wf_planes(&self) -> (r: bool)
        ensures
            r == self@.planes_wf(),
        decreases self,
    {
        match self {
            BSPNode::Leaf => true,
            BSPNode::Node(inner) => {
                inner.plane.is_wf() && inner.front.has_wf_planes() && inner.back.has_wf_planes()
            },
        }
    }
}

/// Appends a polygon to a list.
fn push_polygon(list: &mut Vec<BSPPolygon>, polygon: BSPPolygon)
    ensures
        polygon_models(final(list)@) == polygon_models(old(list)@).push(polygon@),
{
    list.push(polygon);
}

/// Appends a fragment to a list, unless it has fewer than three vertices.
fn push_fragment(list: &mut Vec<BSPPolygon>, fragment: BSPPolygon)
    ensures
        polygon_models(final(list)@) == with_fragment(polygon_models(old(list)@), fragment@),
{
    if fragment.vertices.len() >= 3 {
        push_polygon(list, fragment);
    }
}

/// The order in which a viewer visits the nodes of the tree, each node
/// standing in it with its plane: a node comes before its subtrees, and of
/// the two subtrees the front one comes first where the viewer is strictly
/// in front of the node's plane (`dot(n, viewer) > d`), the back one
/// otherwise. A leaf is not visited, so the order of a leaf is empty. The
/// planes of the tree have to be well formed, which `has_wf_planes` tells;
/// a tree that `build_bsp_node` has built has such planes.
pub fn render_bsp(node: &BSPNode, viewer: Vec3) -> (order: Vec<BSPPlane>)
    requires
        node@.planes_wf(),
        viewer.in_range(),
    ensures
        order@ == node@.visit_order(viewer),
        node@ == Tree::Leaf ==> order@.len() == 0,
{
    let mut order: Vec<BSPPlane> = Vec::new();
    visit_nodes(node, viewer, &mut order);
    order
}

/// Appends to `out` the planes of the nodes of `node` in the order in which
/// the viewer visits them.
fn visit_nodes(node: &BSPNode, viewer: Vec3, out: &mut Vec<BSPPlane>)
    requires
        node@.planes_wf(),
        viewer.in_range(),
    ensures
        final(out)@ == old(out)@ + node@.visit_order(viewer),
    decreases node,
{
    match node {
        BSPNode::Node(inner) => {
            out.push(inner.plane);
            if inner.plane.distance_to(viewer) > 0 {
                visit_nodes(&*inner.front, viewer, out);
                visit_nodes(&*inner.back, viewer, out);
            } else {
                visit_nodes(&*inner.back, viewer, out);
                visit_nodes(&*inner.front, viewer, out);
            }
        },
        BSPNode::Leaf => {
        },
    }
}

} // verus!
