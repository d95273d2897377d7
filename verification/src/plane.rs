//! Planes, the side of a plane that a point lies on, and the point where a
//! segment meets a plane.

use crate::arith::Ratio;
use crate::plane_laws::{
    lemma_cross_bounded, lemma_dot_bounded, lemma_lerp_in_range, lemma_mul_bounded,
    lemma_plane_contains_its_points,
};
use crate::vec3::{Vec3, Vector, COORD_MAX, MIN_NORMAL_LEN, NORMAL_SCALE};
use vstd::prelude::*;

verus! {

/// Half the thickness of a plane: a point whose signed distance is within
/// `PLANE_THICKNESS_EPS` of zero counts as lying on the plane. In length
/// units this is `PLANE_THICKNESS_EPS / (COORD_SCALE * NORMAL_SCALE)`, one
/// millionth.
pub const PLANE_THICKNESS_EPS: i64 = 10_000_000_000;

/// The denominator up to which a segment counts as parallel to a plane: one
/// whose ends differ in signed distance by no more than the thickness of
/// the plane does not cross it anywhere in particular. An edge from
/// strictly in front of a plane to strictly behind it has a denominator of
/// more than twice this, so that splitting never meets the guard.
pub const PARALLEL_EPS: i64 = 10_000_000_000;

/// How far the rounding of a crossing point can move it, in signed distance
/// to any plane: each coordinate is rounded by less than a step, which is
/// less than `3 * NORMAL_SCALE` along a unit normal.
pub const ROUNDING_SLACK: i64 = 3_000_000_000;

/// The largest magnitude of the offset of a plane, `3 * COORD_MAX *
/// NORMAL_SCALE`: no point of the space is farther out along a unit normal.
pub const OFFSET_MAX: i64 = 3_000_000_000_000_000_000;

/// Why a geometric construction was refused.
#[derive(Clone, Copy, Debug, PartialEq, Eq, Structural)]
pub enum GeometryError {
    /// The three points that should span a plane are collinear or
    /// coincident, or nearly so.
    DegenerateInput,
}

/// The plane `{ p | dot(n, p) == d }`; its front side is where
/// `dot(n, p) > d`.
#[derive(Clone, Copy, Debug, PartialEq, Eq, Structural)]
pub struct BSPPlane {
    pub n: Vec3,
    pub d: i64,
}

/// Where a point lies relative to a plane.
#[derive(Clone, Copy, Debug, PartialEq, Eq, Structural)]
pub enum PointPlaneSide {
    Coplanar,
    Front,
    Back,
}

impl BSPPlane {
    /// The normal has unit length, up to `UNIT_TOLERANCE`.
    pub open spec fn is_unit(&self) -> bool {
        self.n@.is_unit()
    }

    /// The plane seen from the other side: the same points, front and back
    /// exchanged.
    pub open spec fn flipped(&self) -> BSPPlane {
        BSPPlane { n: self.n@.neg().to_vec3(), d: (-self.d) as i64 }
    }

    /// The normal has unit length and no component beyond `NORMAL_SCALE`,
    /// and the offset is one that a point of the space can have.
    pub open spec fn wf(&self) -> bool {
        &&& self.n@.bounded(NORMAL_SCALE as int)
        &&& self.is_unit()
        &&& -OFFSET_MAX <= self.d <= OFFSET_MAX
    }

    /// `dot(n, p) - d`: positive in front of the plane, negative behind it.
    pub open spec fn signed_distance(&self, p: Vec3) -> int {
        self.n@.dot(p@) - self.d
    }

    /// The side of the plane that `p` lies on, with the plane's thickness
    /// taken into account.
    pub open spec fn side_of(&self, p: Vec3) -> PointPlaneSide {
        if self.signed_distance(p) > PLANE_THICKNESS_EPS {
            PointPlaneSide::Front
        } else if self.signed_distance(p) < -PLANE_THICKNESS_EPS {
            PointPlaneSide::Back
        } else {
            PointPlaneSide::Coplanar
        }
    }

    /// Whether the viewer at `p` sees the front of the plane: the sign test
    /// without thickness.
    pub open spec fn faces(&self, p: Vec3) -> bool {
        self.signed_distance(p) > 0
    }

    /// The numerator of the parameter at which the line from `a` to `b`
    /// meets the plane.
    pub open spec fn crossing_num(&self, a: Vec3, b: Vec3) -> int {
        self.d - self.n@.dot(a@)
    }

    /// The denominator of that parameter: the difference of the signed
    /// distances of `b` and `a`, zero where the line is parallel to the
    /// plane.
    pub open spec fn crossing_den(&self, a: Vec3, b: Vec3) -> int {
        self.n@.dot(b@.minus(a@))
    }

    /// Whether the segment from `a` to `b` is parallel to the plane, or
    /// nearly so: the denominator is zero, or `PARALLEL_EPS` at most in
    /// magnitude.
    pub open spec fn nearly_parallel(&self, a: Vec3, b: Vec3) -> bool {
        -PARALLEL_EPS <= self.crossing_den(a, b) <= PARALLEL_EPS
    }

    /// Whether the segment from `a` to `b` meets the plane: it is not
    /// parallel to it, nor nearly so, and the parameter lies in `[0, 1]`.
    pub open spec fn meets_segment(&self, a: Vec3, b: Vec3) -> bool {
        let num = self.crossing_num(a, b);
        let den = self.crossing_den(a, b);
        !self.nearly_parallel(a, b) && ((den > 0 && 0 <= num <= den) || (den < 0 && den <= num
            <= 0))
    }

    /// The point of the segment from `a` to `b` at the parameter
    /// `crossing_num / crossing_den`, each coordinate rounded towards zero.
    pub open spec fn crossing_point(&self, a: Vec3, b: Vec3) -> Vector {
        let num = self.crossing_num(a, b);
        let den = self.crossing_den(a, b);
        if den > 0 {
            a@.lerp(b@, num, den)
        } else {
            a@.lerp(b@, -num, -den)
        }
    }

    /// Where the segment from `a` to `b` meets the plane, if it does.
    pub open spec fn intersection(&self, a: Vec3, b: Vec3) -> Option<Vec3> {
        if self.meets_segment(a, b) {
            Some(self.crossing_point(a, b).to_vec3())
        } else {
            None
        }
    }

    /// Tells whether the plane is well formed.
    pub fn is_wf(&self) -> (r: bool)
        ensures
            r == self.wf(),
    {
        if !(-NORMAL_SCALE <= self.n.x && self.n.x <= NORMAL_SCALE && -NORMAL_SCALE <= self.n.y
            && self.n.y <= NORMAL_SCALE && -NORMAL_SCALE <= self.n.z && self.n.z
            <= NORMAL_SCALE) {
            return false;
        }
        proof {
            lemma_dot_bounded(self.n@, self.n@, NORMAL_SCALE as int, NORMAL_SCALE as int);
        }
        let nn: i128 = self.n.dot(self.n);
        // the squares of NORMAL_SCALE - UNIT_TOLERANCE and of NORMAL_SCALE
        // + UNIT_TOLERANCE
        999_998_000_001_000_000 < nn && nn < 1_000_002_000_001_000_000 && -OFFSET_MAX <= self.d
            && self.d <= OFFSET_MAX
    }

    /// Computes `dot(n, p) - d`.
    pub fn distance_to(&self, p: Vec3) -> (r: i64)
        requires
            self.wf(),
            p.in_range(),
        ensures
            r == self.signed_distance(p),
    {
        proof {
            lemma_dot_bounded(self.n@, p@, NORMAL_SCALE as int, COORD_MAX as int);
        }
        let s: i128 = self.n.dot(p) - (self.d as i128);
        s as i64
    }
}

/// The normal, not yet normalized, of the plane through `a`, `b` and `c`:
/// `cross(c - a, b - a)`. The order of the operands decides which side of
/// the plane is its front.
pub open spec fn normal_through(a: Vec3, b: Vec3, c: Vec3) -> Vector {
    c@.minus(a@).cross(b@.minus(a@))
}

/// Whether `a`, `b` and `c` are too close to collinear to span a plane.
pub open spec fn degenerate(a: Vec3, b: Vec3, c: Vec3) -> bool {
    normal_through(a, b, c).len() < MIN_NORMAL_LEN
}

/// The plane through `a`, `b` and `c`: its normal is `normal_through`
/// normalized, its offset the dot product of `a` with that normal.
pub open spec fn plane_through(a: Vec3, b: Vec3, c: Vec3) -> Result<BSPPlane, GeometryError> {
    if degenerate(a, b, c) {
        Err(GeometryError::DegenerateInput)
    } else {
        let n = normal_through(a, b, c).normalized();
        Ok(BSPPlane { n: n.to_vec3(), d: a@.dot(n) as i64 })
    }
}

/// Tells on which side of `plane` the point `p` lies: in front where the
/// signed distance exceeds the thickness, behind where it is below its
/// negative, on the plane otherwise.
pub fn classify_point_to_plane(plane: BSPPlane, p: Vec3) -> (side: PointPlaneSide)
    requires
        plane.wf(),
        p.in_range(),
    ensures
        side == plane.side_of(p),
        side == PointPlaneSide::Coplanar <==> -PLANE_THICKNESS_EPS <= plane.signed_distance(p)
            <= PLANE_THICKNESS_EPS,
{
    let dist: i64 = plane.distance_to(p);
    if dist > PLANE_THICKNESS_EPS {
        PointPlaneSide::Front
    } else if dist < -PLANE_THICKNESS_EPS {
        PointPlaneSide::Back
    } else {
        PointPlaneSide::Coplanar
    }
}

/// Derives the plane through three points. The normal is
/// `cross(c - a, b - a)`, normalized, and the offset is `dot(a, n)`; where
/// the three points are nearly collinear, the input is refused. The plane
/// has a unit normal, and the three points lie on it.
pub fn bsp_plane_by_three_points(a: Vec3, b: Vec3, c: Vec3) -> (r: Result<BSPPlane, GeometryError>)
    requires
        a.in_range(),
        b.in_range(),
        c.in_range(),
    ensures
        r == plane_through(a, b, c),
        r matches Ok(plane) ==> {
            &&& plane.wf()
            &&& plane.side_of(a) == PointPlaneSide::Coplanar
            &&& plane.side_of(b) == PointPlaneSide::Coplanar
            &&& plane.side_of(c) == PointPlaneSide::Coplanar
        },
{
    let d0: Vec3 = b.sub(a);
    let d1: Vec3 = c.sub(a);
    proof {
        lemma_cross_bounded(d1@, d0@);
        if plane_through(a, b, c) is Ok {
            lemma_plane_contains_its_points(a, b, c);
        }
    }
    let normal: Vec3 = d1.cross(d0);
    if normal.len() < MIN_NORMAL_LEN {
        return Err(GeometryError::DegenerateInput);
    }
    let n: Vec3 = normal.normalized();
    proof {
        lemma_dot_bounded(a@, n@, COORD_MAX as int, NORMAL_SCALE as int);
    }
    let d: i128 = a.dot(n);
    Ok(BSPPlane { n, d: d as i64 })
}

/// The point where the segment from `a` to `b` meets `plane`: the point at
/// the parameter `t = (d - dot(n, a)) / dot(n, b - a)`, where `0 <= t <= 1`.
/// There is none where the denominator is zero or near zero, `PARALLEL_EPS`
/// at most in magnitude: the segment is parallel to the plane then, or
/// nearly so. There is none either where `t` lies outside of `[0, 1]`.
pub fn intersect_segment_plane(a: Vec3, b: Vec3, plane: BSPPlane) -> (r: Option<Vec3>)
    requires
        plane.wf(),
        a.in_range(),
        b.in_range(),
    ensures
        r == plane.intersection(a, b),
        r matches Some(p) ==> p.in_range(),
{
    let ab: Vec3 = b.sub(a);
    proof {
        lemma_dot_bounded(plane.n@, ab@, NORMAL_SCALE as int, 2 * COORD_MAX);
        lemma_dot_bounded(plane.n@, a@, NORMAL_SCALE as int, COORD_MAX as int);
    }
    let den: i128 = plane.n.dot(ab);
    let num: i128 = (plane.d as i128) - plane.n.dot(a);
    if -(PARALLEL_EPS as i128) <= den && den <= PARALLEL_EPS as i128 {
        return None;
    }
    let t = if den < 0 {
        Ratio { num: (-num) as i64, den: (-den) as u64 }
    } else {
        Ratio { num: num as i64, den: den as u64 }
    };
    if 0 <= t.num && t.num as i128 <= t.den as i128 {
        proof {
            lemma_lerp_in_range(a, b, t.num as int, t.den as int);
            lemma_mul_bounded(t.num as int, b.x - a.x, 2 * OFFSET_MAX, 2 * COORD_MAX);
            lemma_mul_bounded(t.num as int, b.y - a.y, 2 * OFFSET_MAX, 2 * COORD_MAX);
            lemma_mul_bounded(t.num as int, b.z - a.z, 2 * OFFSET_MAX, 2 * COORD_MAX);
        }
        Some(a.lerp(b, t))
    } else {
        None
    }
}

} // verus!
