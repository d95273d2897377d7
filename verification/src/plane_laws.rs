//! What holds of planes: a derived plane has a unit normal and contains the
//! points it was derived from, and the crossing point of a segment lies on
//! the plane. The bounds that keep the arithmetic within the machine
//! integers are proved here too.

use crate::arith::{lemma_div_trunc, lemma_floor_sqrt, lemma_mean_between};
use crate::plane::{
    normal_through, plane_through, BSPPlane, GeometryError, PointPlaneSide, ROUNDING_SLACK,
};
use crate::vec3::{
    lemma_normalized_bounded, Vec3, Vector, COORD_MAX, MIN_NORMAL_LEN, NORMAL_SCALE,
};
use vstd::prelude::*;

verus! {

/// A vector at least `MIN_NORMAL_LEN` long has, once normalized, the length
/// `NORMAL_SCALE` up to `UNIT_TOLERANCE`.
pub proof fn lemma_normalized_is_unit(c: Vector)
    requires
        c.len() >= MIN_NORMAL_LEN,
    ensures
        c.normalized().is_unit(),
{
    // l is the length of c, rounded down: l * l <= c . c < (l + 1) * (l + 1)
    let l = c.len();
    let n = c.normalized();
    let cc = c.dot(c);
    assert(c.x * c.x >= 0) by (nonlinear_arith);
    assert(c.y * c.y >= 0) by (nonlinear_arith);
    assert(c.z * c.z >= 0) by (nonlinear_arith);
    lemma_floor_sqrt(cc);
    // each component of n is a quotient by l; e is what the rounding took:
    // l * n = NORMAL_SCALE * c - e, with e below l in magnitude
    let ex = c.x * 1_000_000_000 - l * n.x;
    let ey = c.y * 1_000_000_000 - l * n.y;
    let ez = c.z * 1_000_000_000 - l * n.z;
    lemma_div_trunc(c.x * 1_000_000_000, l);
    lemma_div_trunc(c.y * 1_000_000_000, l);
    lemma_div_trunc(c.z * 1_000_000_000, l);
    lemma_scaled_square(c.x, l, n.x, ex);
    lemma_scaled_square(c.y, l, n.y, ey);
    lemma_scaled_square(c.z, l, n.z, ez);
    lemma_component_terms(c.x, c.y * c.y + c.z * c.z, l, ex);
    lemma_component_terms(c.y, c.x * c.x + c.z * c.z, l, ey);
    lemma_component_terms(c.z, c.x * c.x + c.y * c.y, l, ez);
    // squared and summed: (l * l) * (n . n) is NORMAL_SCALE^2 * (c . c) up to
    // terms that are small beside it, as l is at least MIN_NORMAL_LEN
    let ll = l * l;
    let nn = n.dot(n);
    assert(ll * nn == ll * (n.x * n.x) + ll * (n.y * n.y) + ll * (n.z * n.z))
        by (nonlinear_arith)
        requires
            nn == n.x * n.x + n.y * n.y + n.z * n.z,
    ;
    assert(ll >= 10_000_000 * l && (l + 1) * (l + 1) == ll + 2 * l + 1) by (nonlinear_arith)
        requires
            ll == l * l,
            l >= 10_000_000,
    ;
    assert(999_998_000_001_000_000 * ll < ll * nn < 1_000_002_000_001_000_000 * ll);
    lemma_cancel_square(ll, nn, 999_998_000_001_000_000, 1_000_002_000_001_000_000);
    assert((NORMAL_SCALE - 1_000) * (NORMAL_SCALE - 1_000) == 999_998_000_001_000_000)
        by (nonlinear_arith);
    assert((NORMAL_SCALE + 1_000) * (NORMAL_SCALE + 1_000) == 1_000_002_000_001_000_000)
        by (nonlinear_arith);
}

/// Negating a vector negates its normalized form and keeps its length.
pub proof fn lemma_normalized_neg(v: Vector)
    requires
        v.len() > 0,
    ensures
        v.neg().len() == v.len(),
        v.neg().normalized() == v.normalized().neg(),
{
    assert(v.neg().dot(v.neg()) == v.dot(v)) by (nonlinear_arith)
        requires
            v.neg().dot(v.neg()) == (-v.x) * (-v.x) + (-v.y) * (-v.y) + (-v.z) * (-v.z),
            v.dot(v) == v.x * v.x + v.y * v.y + v.z * v.z,
    ;
    let l = v.len();
    lemma_div_trunc(v.x * NORMAL_SCALE, l);
    lemma_div_trunc(v.y * NORMAL_SCALE, l);
    lemma_div_trunc(v.z * NORMAL_SCALE, l);
}

/// Reversing the winding flips the plane and nothing else: the plane through
/// `a`, `c` and `b` is the plane through `a`, `b` and `c` with its normal
/// and its offset negated, and the one is refused where the other is.
pub proof fn lemma_reversed_winding(a: Vec3, b: Vec3, c: Vec3)
    requires
        a.in_range(),
        b.in_range(),
        c.in_range(),
    ensures
        plane_through(a, c, b) == match plane_through(a, b, c) {
            Ok(plane) => Ok::<BSPPlane, GeometryError>(plane.flipped()),
            Err(e) => Err(e),
        },
{
    let v = normal_through(a, b, c);
    let w = normal_through(a, c, b);
    assert(w == v.neg()) by (nonlinear_arith)
        requires
            v == c@.minus(a@).cross(b@.minus(a@)),
            w == b@.minus(a@).cross(c@.minus(a@)),
    ;
    assert(v.neg().dot(v.neg()) == v.dot(v)) by (nonlinear_arith)
        requires
            v.neg().dot(v.neg()) == (-v.x) * (-v.x) + (-v.y) * (-v.y) + (-v.z) * (-v.z),
            v.dot(v) == v.x * v.x + v.y * v.y + v.z * v.z,
    ;
    if plane_through(a, b, c) is Ok {
        lemma_normalized_neg(v);
        lemma_normalized_bounded(v);
        let n = v.normalized();
        lemma_dot_bounded(a@, n, COORD_MAX as int, NORMAL_SCALE as int);
        assert(a@.dot(n.neg()) == -a@.dot(n)) by (nonlinear_arith)
            requires
                a@.dot(n.neg()) == a.x * (-n.x) + a.y * (-n.y) + a.z * (-n.z),
                a@.dot(n) == a.x * n.x + a.y * n.y + a.z * n.z,
        ;
    }
}

/// The plane derived from three points of the space passes through the
/// first of them exactly and through the other two within its thickness:
/// all three lie on the plane.
pub proof fn lemma_plane_contains_its_points(a: Vec3, b: Vec3, c: Vec3)
    requires
        a.in_range(),
        b.in_range(),
        c.in_range(),
        plane_through(a, b, c) is Ok,
    ensures
        plane_through(a, b, c)->Ok_0.wf(),
        plane_through(a, b, c)->Ok_0.signed_distance(a) == 0,
        plane_through(a, b, c)->Ok_0.side_of(a) == PointPlaneSide::Coplanar,
        plane_through(a, b, c)->Ok_0.side_of(b) == PointPlaneSide::Coplanar,
        plane_through(a, b, c)->Ok_0.side_of(c) == PointPlaneSide::Coplanar,
{
    let plane = plane_through(a, b, c)->Ok_0;
    let d0 = b@.minus(a@);
    let d1 = c@.minus(a@);
    let cr = normal_through(a, b, c);
    let n = cr.normalized();
    lemma_normalized_bounded(cr);
    lemma_normalized_is_unit(cr);
    lemma_dot_bounded(a@, n, COORD_MAX as int, NORMAL_SCALE as int);
    // the cross product is orthogonal to both edges, and the normalized one
    // nearly so; the signed distance of b is dot(n, b - a), that of c is
    // dot(n, c - a)
    lemma_cross_orthogonal(d1, d0);
    lemma_scaled_nearly_orthogonal(cr, d0, NORMAL_SCALE as int, cr.len(), 2 * COORD_MAX);
    lemma_scaled_nearly_orthogonal(cr, d1, NORMAL_SCALE as int, cr.len(), 2 * COORD_MAX);
    assert(plane.signed_distance(a) == 0) by (nonlinear_arith)
        requires
            plane.signed_distance(a) == n.x * a.x + n.y * a.y + n.z * a.z - (a.x * n.x + a.y * n.y
                + a.z * n.z),
    ;
    assert(plane.signed_distance(b) == n.dot(d0)) by (nonlinear_arith)
        requires
            plane.signed_distance(b) == n.x * b.x + n.y * b.y + n.z * b.z - (a.x * n.x + a.y * n.y
                + a.z * n.z),
            n.dot(d0) == n.x * (b.x - a.x) + n.y * (b.y - a.y) + n.z * (b.z - a.z),
    ;
    assert(plane.signed_distance(c) == n.dot(d1)) by (nonlinear_arith)
        requires
            plane.signed_distance(c) == n.x * c.x + n.y * c.y + n.z * c.z - (a.x * n.x + a.y * n.y
                + a.z * n.z),
            n.dot(d1) == n.x * (c.x - a.x) + n.y * (c.y - a.y) + n.z * (c.z - a.z),
    ;
}

/// The plane derived from three points contains every point of the space
/// that lies in the plane through them: one whose difference to the first
/// point is orthogonal to `normal_through`.
pub proof fn lemma_plane_contains_flat_point(a: Vec3, b: Vec3, c: Vec3, p: Vec3)
    requires
        a.in_range(),
        b.in_range(),
        c.in_range(),
        p.in_range(),
        plane_through(a, b, c) is Ok,
        normal_through(a, b, c).dot(p@.minus(a@)) == 0,
    ensures
        plane_through(a, b, c)->Ok_0.side_of(p) == PointPlaneSide::Coplanar,
{
    let plane = plane_through(a, b, c)->Ok_0;
    let v = p@.minus(a@);
    let cr = normal_through(a, b, c);
    let n = cr.normalized();
    lemma_normalized_bounded(cr);
    lemma_dot_bounded(a@, n, COORD_MAX as int, NORMAL_SCALE as int);
    lemma_scaled_nearly_orthogonal(cr, v, NORMAL_SCALE as int, cr.len(), 2 * COORD_MAX);
    assert(plane.signed_distance(p) == n.dot(v)) by (nonlinear_arith)
        requires
            plane.signed_distance(p) == n.x * p.x + n.y * p.y + n.z * p.z - (a.x * n.x + a.y * n.y
                + a.z * n.z),
            n.dot(v) == n.x * (p.x - a.x) + n.y * (p.y - a.y) + n.z * (p.z - a.z),
    ;
}

/// The fourth corner of a parallelogram lies in the plane of the other
/// three: the cross product of two sides is orthogonal to their difference.
pub proof fn lemma_cross_orthogonal_to_difference(u: Vector, v: Vector)
    ensures
        u.cross(v).dot(u.minus(v)) == 0,
{
    lemma_cross_orthogonal(u, v);
    let c = u.cross(v);
    assert(c.dot(u.minus(v)) == c.dot(u) - c.dot(v)) by (nonlinear_arith)
        requires
            c.dot(u.minus(v)) == c.x * (u.x - v.x) + c.y * (u.y - v.y) + c.z * (u.z - v.z),
            c.dot(u) == c.x * u.x + c.y * u.y + c.z * u.z,
            c.dot(v) == c.x * v.x + c.y * v.y + c.z * v.z,
    ;
}

/// The point computed for the crossing of a segment with a plane is a point
/// of the space and lies within the thickness of the plane: rounding its
/// coordinates moves it by less than a coordinate step along each axis,
/// which is less than `3 * NORMAL_SCALE` in signed distance.
pub proof fn lemma_crossing_is_coplanar(plane: BSPPlane, a: Vec3, b: Vec3)
    requires
        plane.wf(),
        a.in_range(),
        b.in_range(),
        plane.meets_segment(a, b),
    ensures
        plane.crossing_point(a, b).to_vec3().in_range(),
        -3 * NORMAL_SCALE < plane.signed_distance(plane.crossing_point(a, b).to_vec3()) < 3
            * NORMAL_SCALE,
        plane.side_of(plane.crossing_point(a, b).to_vec3()) == PointPlaneSide::Coplanar,
{
    let n = plane.n@;
    let d = plane.d as int;
    let na = n.dot(a@);
    let nb = n.dot(b@);
    let num0 = plane.crossing_num(a, b);
    let den0 = plane.crossing_den(a, b);
    assert(den0 == nb - na) by (nonlinear_arith)
        requires
            den0 == n.x * (b.x - a.x) + n.y * (b.y - a.y) + n.z * (b.z - a.z),
            na == n.x * a.x + n.y * a.y + n.z * a.z,
            nb == n.x * b.x + n.y * b.y + n.z * b.z,
    ;
    // the parameter is t / q with q > 0, and the crossing point is
    // p = (w * a + t * b) / q, rounded, with w = q - t
    let t = if den0 > 0 {
        num0
    } else {
        -num0
    };
    let q = if den0 > 0 {
        den0
    } else {
        -den0
    };
    let w = q - t;
    let p = a@.lerp(b@, t, q);
    lemma_lerp_in_range(a, b, t, q);
    let xx = w * a.x + t * b.x;
    let xy = w * a.y + t * b.y;
    let xz = w * a.z + t * b.z;
    lemma_div_trunc(xx, q);
    lemma_div_trunc(xy, q);
    lemma_div_trunc(xz, q);
    let rx = xx - q * p.x;
    let ry = xy - q * p.y;
    let rz = xz - q * p.z;
    // before rounding the point lies on the plane: dot(n, w * a + t * b) is
    // q * d
    lemma_weighted_product(n.x, a.x as int, b.x as int, w, t);
    lemma_weighted_product(n.y, a.y as int, b.y as int, w, t);
    lemma_weighted_product(n.z, a.z as int, b.z as int, w, t);
    assert(n.x * xx + n.y * xy + n.z * xz == w * na + t * nb) by (nonlinear_arith)
        requires
            n.x * xx == w * (n.x * a.x) + t * (n.x * b.x),
            n.y * xy == w * (n.y * a.y) + t * (n.y * b.y),
            n.z * xz == w * (n.z * a.z) + t * (n.z * b.z),
            na == n.x * a.x + n.y * a.y + n.z * a.z,
            nb == n.x * b.x + n.y * b.y + n.z * b.z,
    ;
    assert(w * na + t * nb == q * d) by (nonlinear_arith)
        requires
            w == q - t,
            (q == nb - na && t == d - na) || (q == na - nb && t == na - d),
    ;
    // so q times the signed distance f of p is what rounding took away,
    // the remainders r, each below q
    let f = n.dot(p) - d;
    lemma_weighted_product(n.x, p.x, rx, q, 1);
    lemma_weighted_product(n.y, p.y, ry, q, 1);
    lemma_weighted_product(n.z, p.z, rz, q, 1);
    assert(q * f == q * (n.x * p.x) + q * (n.y * p.y) + q * (n.z * p.z) - q * d)
        by (nonlinear_arith)
        requires
            f == n.x * p.x + n.y * p.y + n.z * p.z - d,
    ;
    assert(q * f == -(n.x * rx + n.y * ry + n.z * rz));
    lemma_mul_bounded(n.x, rx, NORMAL_SCALE as int, q - 1);
    lemma_mul_bounded(n.y, ry, NORMAL_SCALE as int, q - 1);
    lemma_mul_bounded(n.z, rz, NORMAL_SCALE as int, q - 1);
    lemma_residue_bound(q, f, NORMAL_SCALE as int, n.x * rx, n.y * ry, n.z * rz);
}

/// The point computed for the crossing of a segment with a plane `h` lies
/// between the ends of the segment, up to `ROUNDING_SLACK`, as seen from any
/// plane `g`: where both ends have a signed distance to `g` of `lo` at
/// least, the crossing point has one above `lo - ROUNDING_SLACK`, and where
/// both have one of `hi` at most, the crossing point has one below
/// `hi + ROUNDING_SLACK`.
pub proof fn lemma_crossing_between(
    g: BSPPlane,
    h: BSPPlane,
    a: Vec3,
    b: Vec3,
    lo: int,
    hi: int,
)
    requires
        g.wf(),
        a.in_range(),
        b.in_range(),
        h.meets_segment(a, b),
    ensures
        h.crossing_point(a, b).to_vec3().in_range(),
        g.signed_distance(a) >= lo && g.signed_distance(b) >= lo ==> g.signed_distance(
            h.crossing_point(a, b).to_vec3(),
        ) > lo - ROUNDING_SLACK,
        g.signed_distance(a) <= hi && g.signed_distance(b) <= hi ==> g.signed_distance(
            h.crossing_point(a, b).to_vec3(),
        ) < hi + ROUNDING_SLACK,
{
    let n = g.n@;
    let d = g.d as int;
    let na = n.dot(a@);
    let nb = n.dot(b@);
    let ga = na - d;
    let gb = nb - d;
    // the crossing point is p = (w * a + t * b) / q, rounded, with
    // 0 <= t <= q and w = q - t
    let t = if h.crossing_den(a, b) > 0 {
        h.crossing_num(a, b)
    } else {
        -h.crossing_num(a, b)
    };
    let q = if h.crossing_den(a, b) > 0 {
        h.crossing_den(a, b)
    } else {
        -h.crossing_den(a, b)
    };
    let w = q - t;
    let p = a@.lerp(b@, t, q);
    lemma_lerp_in_range(a, b, t, q);
    let xx = w * a.x + t * b.x;
    let xy = w * a.y + t * b.y;
    let xz = w * a.z + t * b.z;
    lemma_div_trunc(xx, q);
    lemma_div_trunc(xy, q);
    lemma_div_trunc(xz, q);
    let rx = xx - q * p.x;
    let ry = xy - q * p.y;
    let rz = xz - q * p.z;
    lemma_weighted_product(n.x, a.x as int, b.x as int, w, t);
    lemma_weighted_product(n.y, a.y as int, b.y as int, w, t);
    lemma_weighted_product(n.z, a.z as int, b.z as int, w, t);
    assert(n.x * xx + n.y * xy + n.z * xz == w * na + t * nb) by (nonlinear_arith)
        requires
            n.x * xx == w * (n.x * a.x) + t * (n.x * b.x),
            n.y * xy == w * (n.y * a.y) + t * (n.y * b.y),
            n.z * xz == w * (n.z * a.z) + t * (n.z * b.z),
            na == n.x * a.x + n.y * a.y + n.z * a.z,
            nb == n.x * b.x + n.y * b.y + n.z * b.z,
    ;
    // q times the signed distance f of p is the weighted sum of those of a
    // and b, less what rounding took away
    let f = n.dot(p) - d;
    lemma_weighted_product(n.x, p.x, rx, q, 1);
    lemma_weighted_product(n.y, p.y, ry, q, 1);
    lemma_weighted_product(n.z, p.z, rz, q, 1);
    assert(q * f == q * (n.x * p.x) + q * (n.y * p.y) + q * (n.z * p.z) - q * d)
        by (nonlinear_arith)
        requires
            f == n.x * p.x + n.y * p.y + n.z * p.z - d,
    ;
    assert(w * ga + t * gb == w * na + t * nb - q * d) by (nonlinear_arith)
        requires
            ga == na - d,
            gb == nb - d,
            q == w + t,
    ;
    let s = n.x * rx + n.y * ry + n.z * rz;
    assert(q * f == w * ga + t * gb - s);
    lemma_mul_bounded(n.x, rx, NORMAL_SCALE as int, q - 1);
    lemma_mul_bounded(n.y, ry, NORMAL_SCALE as int, q - 1);
    lemma_mul_bounded(n.z, rz, NORMAL_SCALE as int, q - 1);
    if ga >= lo && gb >= lo {
        lemma_weighted_bound(q, f, w, t, ga, gb, s, lo, NORMAL_SCALE as int);
    }
    if ga <= hi && gb <= hi {
        assert(q * (-f) == w * (-ga) + t * (-gb) - (-s)) by (nonlinear_arith)
            requires
                q * f == w * ga + t * gb - s,
        ;
        lemma_weighted_bound(q, -f, w, t, -ga, -gb, -s, -hi, NORMAL_SCALE as int);
    }
}

/// Where `q * f` is a sum of `a` and `b` with the weights `w` and `t`, which
/// add up to `q`, less a term `s` below `3 * m * q` in magnitude, and `a`
/// and `b` are `lo` at least, `f` is above `lo - 3 * m`.
proof fn lemma_weighted_bound(
    q: int,
    f: int,
    w: int,
    t: int,
    a: int,
    b: int,
    s: int,
    lo: int,
    m: int,
)
    by (nonlinear_arith)
    requires
        q > 0,
        w >= 0,
        t >= 0,
        q == w + t,
        q * f == w * a + t * b - s,
        a >= lo,
        b >= lo,
        m > 0,
        -3 * (m * (q - 1)) <= s <= 3 * (m * (q - 1)),
    ensures
        f > lo - 3 * m,
{
    assert(w * a >= w * lo);
    assert(t * b >= t * lo);
    assert(w * lo + t * lo == q * lo);
    assert(q * f >= q * lo - 3 * (m * (q - 1)));
    assert(q * f > q * (lo - 3 * m));
}

/// An edge from a point strictly in front of a plane to a point strictly
/// behind it, or the other way round, meets the plane: its ends differ in
/// signed distance by more than twice the thickness of the plane, so that
/// it is far from parallel.
pub proof fn lemma_opposite_sides_meet(plane: BSPPlane, a: Vec3, b: Vec3)
    requires
        (plane.side_of(a) == PointPlaneSide::Front && plane.side_of(b) == PointPlaneSide::Back)
            || (plane.side_of(a) == PointPlaneSide::Back && plane.side_of(b)
            == PointPlaneSide::Front),
    ensures
        plane.meets_segment(a, b),
{
    let n = plane.n@;
    let na = n.dot(a@);
    let nb = n.dot(b@);
    let den0 = plane.crossing_den(a, b);
    assert(den0 == nb - na) by (nonlinear_arith)
        requires
            den0 == n.x * (b.x - a.x) + n.y * (b.y - a.y) + n.z * (b.z - a.z),
            na == n.x * a.x + n.y * a.y + n.z * a.z,
            nb == n.x * b.x + n.y * b.y + n.z * b.z,
    ;
}

/// A segment meets a plane in the same point whichever of its ends is
/// taken first.
pub proof fn lemma_intersection_symmetric(plane: BSPPlane, a: Vec3, b: Vec3)
    ensures
        plane.intersection(a, b) == plane.intersection(b, a),
{
    let n = plane.n@;
    let na = n.dot(a@);
    let nb = n.dot(b@);
    let den = plane.crossing_den(a, b);
    let rev = plane.crossing_den(b, a);
    assert(den == nb - na && rev == na - nb) by (nonlinear_arith)
        requires
            den == n.x * (b.x - a.x) + n.y * (b.y - a.y) + n.z * (b.z - a.z),
            rev == n.x * (a.x - b.x) + n.y * (a.y - b.y) + n.z * (a.z - b.z),
            na == n.x * a.x + n.y * a.y + n.z * a.z,
            nb == n.x * b.x + n.y * b.y + n.z * b.z,
    ;
}

/// A point of a segment between two points of the space is a point of the
/// space.
pub proof fn lemma_lerp_in_range(a: Vec3, b: Vec3, num: int, den: int)
    requires
        a.in_range(),
        b.in_range(),
        den > 0,
        0 <= num <= den,
    ensures
        a@.lerp(b@, num, den).bounded(COORD_MAX as int),
        a@.lerp(b@, num, den).to_vec3()@ == a@.lerp(b@, num, den),
        a@.lerp(b@, num, den).to_vec3().in_range(),
{
    lemma_mean_between(a.x as int, b.x as int, num, den);
    lemma_mean_between(a.y as int, b.y as int, num, den);
    lemma_mean_between(a.z as int, b.z as int, num, den);
}

/// A cross product is orthogonal to both of its operands.
pub proof fn lemma_cross_orthogonal(u: Vector, v: Vector)
    ensures
        u.cross(v).dot(u) == 0,
        u.cross(v).dot(v) == 0,
{
    lemma_regroup(u.y, v.z, u.z, v.y, u.x);
    lemma_regroup(u.z, v.x, u.x, v.z, u.y);
    lemma_regroup(u.x, v.y, u.y, v.x, u.z);
    lemma_regroup(u.y, v.z, u.z, v.y, v.x);
    lemma_regroup(u.z, v.x, u.x, v.z, v.y);
    lemma_regroup(u.x, v.y, u.y, v.x, v.z);
}

/// The cross product of two differences of points of the space fits the
/// machine integers.
pub proof fn lemma_cross_bounded(u: Vector, v: Vector)
    requires
        u.bounded(2 * COORD_MAX),
        v.bounded(2 * COORD_MAX),
    ensures
        u.cross(v).bounded(8_000_000_000_000_000_000),
        u.cross(v).fits(),
{
    let m = 2 * COORD_MAX;
    assert(m * m == 4_000_000_000_000_000_000) by (nonlinear_arith)
        requires
            m == 2_000_000_000,
    ;
    lemma_mul_bounded(u.y, v.z, m, m);
    lemma_mul_bounded(u.z, v.y, m, m);
    lemma_mul_bounded(u.z, v.x, m, m);
    lemma_mul_bounded(u.x, v.z, m, m);
    lemma_mul_bounded(u.x, v.y, m, m);
    lemma_mul_bounded(u.y, v.x, m, m);
}

/// The dot product of a vector bounded by `m` with one bounded by `k` is at
/// most `3 * m * k` in magnitude, and the sum of its first two terms at most
/// `2 * m * k`.
pub proof fn lemma_dot_bounded(u: Vector, v: Vector, m: int, k: int)
    requires
        u.bounded(m),
        v.bounded(k),
    ensures
        -2 * (m * k) <= u.x * v.x + u.y * v.y <= 2 * (m * k),
        -3 * (m * k) <= u.dot(v) <= 3 * (m * k),
{
    lemma_mul_bounded(u.x, v.x, m, k);
    lemma_mul_bounded(u.y, v.y, m, k);
    lemma_mul_bounded(u.z, v.z, m, k);
}

/// The magnitude of a product is bounded by the product of the bounds.
pub proof fn lemma_mul_bounded(a: int, b: int, m: int, k: int)
    by (nonlinear_arith)
    requires
        -m <= a <= m,
        -k <= b <= k,
    ensures
        -(m * k) <= a * b <= m * k,
{
}

/// A difference of two products times a factor, multiplied out, and the
/// two ways to regroup a product of three factors.
proof fn lemma_regroup(a: int, b: int, c: int, d: int, e: int)
    by (nonlinear_arith)
    ensures
        (a * b - c * d) * e == (a * b) * e - (c * d) * e,
        (a * b) * e == (e * b) * a,
        (a * b) * e == (a * e) * b,
{
}

/// A vector orthogonal to `v` stays nearly orthogonal to it when it is
/// scaled by `num / den` and rounded: the dot product of the result
/// with `v` is smaller in magnitude than three times the bound of `v`.
proof fn lemma_scaled_nearly_orthogonal(c: Vector, v: Vector, num: int, den: int, m: int)
    requires
        den > 0,
        m > 0,
        c.dot(v) == 0,
        v.bounded(m),
    ensures
        -3 * m < c.scale(num, den).dot(v) < 3 * m,
{
    // den * n = num * c - e, where e is what the rounding took, below den in
    // magnitude; as c is orthogonal to v, den * dot(n, v) = -dot(e, v)
    let n = c.scale(num, den);
    let ex = c.x * num - den * n.x;
    let ey = c.y * num - den * n.y;
    let ez = c.z * num - den * n.z;
    lemma_div_trunc(c.x * num, den);
    lemma_div_trunc(c.y * num, den);
    lemma_div_trunc(c.z * num, den);
    lemma_weighted_product(v.x, n.x, ex, den, 1);
    lemma_weighted_product(v.y, n.y, ey, den, 1);
    lemma_weighted_product(v.z, n.z, ez, den, 1);
    let f = n.dot(v);
    assert(den * f == den * (v.x * n.x) + den * (v.y * n.y) + den * (v.z * n.z))
        by (nonlinear_arith)
        requires
            f == n.x * v.x + n.y * v.y + n.z * v.z,
    ;
    assert(v.x * (c.x * num) + v.y * (c.y * num) + v.z * (c.z * num) == 0) by (nonlinear_arith)
        requires
            c.x * v.x + c.y * v.y + c.z * v.z == 0,
    ;
    assert(den * f == -(v.x * ex + v.y * ey + v.z * ez));
    lemma_mul_bounded(v.x, ex, m, den - 1);
    lemma_mul_bounded(v.y, ey, m, den - 1);
    lemma_mul_bounded(v.z, ez, m, den - 1);
    lemma_residue_bound(den, f, m, v.x * ex, v.y * ey, v.z * ez);
}

/// Where `c * 1_000_000_000 == l * n + e`, the square of `l * n` is the
/// square of the difference on the other side, multiplied out.
proof fn lemma_scaled_square(c: int, l: int, n: int, e: int)
    requires
        c * 1_000_000_000 == l * n + e,
    ensures
        (l * l) * (n * n) == 1_000_000_000_000_000_000 * (c * c) - 2_000_000_000 * (c * e) + e
            * e,
{
    let y = l * n;
    let p = c * 1_000_000_000;
    assert(y * y == (l * l) * (n * n)) by (nonlinear_arith)
        requires
            y == l * n,
    ;
    assert(y * y == p * p - 2 * (p * e) + e * e) by (nonlinear_arith)
        requires
            y == p - e,
    ;
    assert(p * p == 1_000_000_000_000_000_000 * (c * c)) by (nonlinear_arith)
        requires
            p == c * 1_000_000_000,
    ;
    assert(p * e == 1_000_000_000 * (c * e)) by (nonlinear_arith)
        requires
            p == c * 1_000_000_000,
    ;
}

/// A component `c` of a vector whose squared length is below
/// `(l + 1) * (l + 1)` is at most `l` in magnitude; with a remainder `e`
/// below `l` in magnitude, `c * e` is at most `l * l` in magnitude and
/// `e * e` at most `l * l`.
proof fn lemma_component_terms(c: int, rest: int, l: int, e: int)
    by (nonlinear_arith)
    requires
        l > 0,
        rest >= 0,
        c * c + rest < (l + 1) * (l + 1),
        -l < e < l,
    ensures
        -(l * l) <= c * e <= l * l,
        0 <= e * e <= l * l,
{
}

/// The last step: bounds on `ll * nn` that are strict multiples of `ll` bound
/// `nn`.
proof fn lemma_cancel_square(ll: int, nn: int, lo: int, hi: int)
    by (nonlinear_arith)
    requires
        ll > 0,
        lo * ll < ll * nn,
        ll * nn < hi * ll,
    ensures
        lo < nn < hi,
{
}

/// A factor times a weighted sum is the weighted sum of the products.
proof fn lemma_weighted_product(n: int, a: int, b: int, w: int, v: int)
    by (nonlinear_arith)
    ensures
        n * (w * a + v * b) == w * (n * a) + v * (n * b),
{
}

/// Where `q * f` is the negated sum of three terms, each smaller in
/// magnitude than `m * q`, `f` is smaller in magnitude than `3 * m`.
proof fn lemma_residue_bound(q: int, f: int, m: int, t0: int, t1: int, t2: int)
    by (nonlinear_arith)
    requires
        q > 0,
        q * f == -(t0 + t1 + t2),
        -(m * (q - 1)) <= t0 <= m * (q - 1),
        -(m * (q - 1)) <= t1 <= m * (q - 1),
        -(m * (q - 1)) <= t2 <= m * (q - 1),
        m > 0,
    ensures
        -3 * m < f < 3 * m,
{
}

} // verus!
