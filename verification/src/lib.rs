//! Binary space partitioning over fixed-point coordinates.
//!
//! Convex polygons in three-dimensional space are sorted into a binary tree
//! of splitting planes; the tree then yields, for any viewer position, the
//! order in which its nodes are to be visited.
//!
//! All arithmetic is exact integer arithmetic. A coordinate is a whole number
//! of steps of 1/`COORD_SCALE` of a length unit, the components of a plane
//! normal are whole numbers of steps of 1/`NORMAL_SCALE`, and a signed
//! distance is measured in the product of both steps. Points live in the
//! cube of coordinates from `-COORD_MAX` to `COORD_MAX`. Every quotient is
//! rounded towards zero, so that reversing the winding of a polygon negates
//! its plane exactly. The point where an edge crosses a plane is rounded to
//! whole steps in this way, which moves it by less than `ROUNDING_SLACK` in
//! signed distance to any plane; what is proved of a tree says where this
//! slack comes in.
//!
//! - `arith`: division, square root, rational factors.
//! - `vec3`: points and vectors, and the operations on them.
//! - `plane`: planes, the side of a plane that a point lies on, the point
//!   where a segment meets a plane.
//! - `polygon`: polygons, the side of a plane that a polygon lies on, the
//!   splitting of a polygon by a plane.
//! - `tree`: the tree, how it is built, and the order of a traversal.
//! - `shapes`: the faces of a box, as polygons to build a tree from.
//! - `plane_laws`, `polygon_laws`, `tree_laws`: what is proved of these
//!   beyond the contracts of the functions.

pub mod arith;
pub mod plane;
pub mod plane_laws;
pub mod polygon;
pub mod polygon_laws;
pub mod shapes;
pub mod tree;
pub mod tree_laws;
pub mod vec3;
