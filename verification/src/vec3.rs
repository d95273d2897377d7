//! Points and vectors with integer coordinates, and the operations on them.
//!
//! `Vector` is the mathematical model, with unbounded components; `Vec3` is
//! the machine value. Every operation computes exactly what its model says.
//! A quotient is rounded towards zero, so that negated vectors give the
//! negated result.

use crate::arith::{
    div_floor, div_towards_zero, div_trunc, floor_sqrt, isqrt, lemma_div_trunc,
    lemma_trunc_from_floor, Ratio,
};
use crate::plane_laws::lemma_normalized_is_unit;
use vstd::arithmetic::div_mod::{
    lemma_fundamental_div_mod, lemma_hoist_over_denominator, lemma_mod_bound,
};
use vstd::prelude::*;

verus! {

/// Steps per length unit: a coordinate `c` stands for the length
/// `c / COORD_SCALE`.
pub const COORD_SCALE: i64 = 10_000_000;

/// The largest magnitude of a coordinate of a point: the space is the cube
/// of all points with coordinates from `-COORD_MAX` to `COORD_MAX`, a
/// hundred length units to either side. Within it the cross product of two
/// differences of points has `i64` components.
pub const COORD_MAX: i64 = 1_000_000_000;

/// The length of a unit normal: a component `c` of a normal stands for
/// `c / NORMAL_SCALE`. The steps are fine enough for a plane derived from
/// three points of the space to contain them within its thickness.
pub const NORMAL_SCALE: i64 = 1_000_000_000;

/// How far the length of a unit normal may be from `NORMAL_SCALE`: one
/// millionth of it.
pub const UNIT_TOLERANCE: i64 = 1_000;

/// The least length from which a vector, once normalized, has unit length
/// within `UNIT_TOLERANCE`. A shorter vector loses too much to the rounding
/// of its length.
pub const MIN_NORMAL_LEN: u64 = 10_000_000;

/// The value is an `i64`.
pub open spec fn fits_i64(v: int) -> bool {
    i64::MIN <= v <= i64::MAX
}

/// The value is an `i128`.
pub open spec fn fits_i128(v: int) -> bool {
    i128::MIN <= v <= i128::MAX
}

/// A vector of three mathematical integers.
pub struct Vector {
    pub x: int,
    pub y: int,
    pub z: int,
}

impl Vector {
    /// Componentwise difference.
    pub open spec fn minus(self, other: Vector) -> Vector {
        Vector { x: self.x - other.x, y: self.y - other.y, z: self.z - other.z }
    }

    /// Cross product.
    pub open spec fn cross(self, other: Vector) -> Vector {
        Vector {
            x: self.y * other.z - self.z * other.y,
            y: self.z * other.x - self.x * other.z,
            z: self.x * other.y - self.y * other.x,
        }
    }

    /// Dot product.
    pub open spec fn dot(self, other: Vector) -> int {
        self.x * other.x + self.y * other.y + self.z * other.z
    }

    /// The vector with every component negated.
    pub open spec fn neg(self) -> Vector {
        Vector { x: -self.x, y: -self.y, z: -self.z }
    }

    /// The vector times `num / den`, each component rounded towards zero.
    pub open spec fn scale(self, num: int, den: int) -> Vector {
        Vector {
            x: div_trunc(self.x * num, den),
            y: div_trunc(self.y * num, den),
            z: div_trunc(self.z * num, den),
        }
    }

    /// The length is `NORMAL_SCALE`, up to `UNIT_TOLERANCE`.
    pub open spec fn is_unit(self) -> bool {
        (NORMAL_SCALE - UNIT_TOLERANCE) * (NORMAL_SCALE - UNIT_TOLERANCE) < self.dot(self) < (
        NORMAL_SCALE + UNIT_TOLERANCE) * (NORMAL_SCALE + UNIT_TOLERANCE)
    }

    /// `(1 - t) * self + t * other` for `t = num / den`, each component
    /// rounded towards zero.
    pub open spec fn lerp(self, other: Vector, num: int, den: int) -> Vector {
        Vector {
            x: div_trunc((den - num) * self.x + num * other.x, den),
            y: div_trunc((den - num) * self.y + num * other.y, den),
            z: div_trunc((den - num) * self.z + num * other.z, den),
        }
    }

    /// The Euclidean length, rounded down.
    pub open spec fn len(self) -> int {
        floor_sqrt(self.dot(self))
    }

    /// The vector stretched to the length `NORMAL_SCALE`.
    pub open spec fn normalized(self) -> Vector {
        self.scale(NORMAL_SCALE as int, self.len())
    }

    /// No component exceeds `m` in magnitude.
    pub open spec fn bounded(self, m: int) -> bool {
        &&& -m <= self.x <= m
        &&& -m <= self.y <= m
        &&& -m <= self.z <= m
    }

    /// Every component is an `i64`.
    pub open spec fn fits(self) -> bool {
        fits_i64(self.x) && fits_i64(self.y) && fits_i64(self.z)
    }

    /// The machine value with these components; meant for a vector that
    /// `fits`.
    pub open spec fn to_vec3(self) -> Vec3 {
        Vec3 { x: self.x as i64, y: self.y as i64, z: self.z as i64 }
    }
}

/// A point or a vector with `i64` coordinates.
#[derive(Clone, Copy, Debug, PartialEq, Eq, Structural)]
pub struct Vec3 {
    pub x: i64,
    pub y: i64,
    pub z: i64,
}

impl View for Vec3 {
    type V = Vector;

    open spec fn view(&self) -> Vector {
        Vector { x: self.x as int, y: self.y as int, z: self.z as int }
    }
}

/// The product of two `i64` values is an `i128`, with room to spare.
pub proof fn lemma_product_fits(a: int, b: int)
    by (nonlinear_arith)
    requires
        fits_i64(a),
        fits_i64(b),
    ensures
        -0x4000_0000_0000_0000_0000_0000_0000_0000 <= a * b
            <= 0x4000_0000_0000_0000_0000_0000_0000_0000,
{
}

/// `a * d - b * c` for `i64` values whose result is an `i64`.
fn det2(a: i64, d: i64, b: i64, c: i64) -> (r: i64)
    requires
        fits_i64(a * d - b * c),
    ensures
        r == a * d - b * c,
{
    proof {
        lemma_product_fits(a as int, d as int);
        lemma_product_fits(b as int, c as int);
    }
    let p: i128 = (a as i128) * (d as i128);
    let q: i128 = (b as i128) * (c as i128);
    (p - q) as i64
}

/// `v * num / den`, rounded towards zero, where the result is an `i64`.
fn scale_component(v: i64, num: i64, den: i128) -> (r: i64)
    requires
        den > 0,
        fits_i64(div_trunc(v * num, den as int)),
    ensures
        r == div_trunc(v * num, den as int),
{
    proof {
        lemma_product_fits(v as int, num as int);
    }
    let p: i128 = (v as i128) * (num as i128);
    div_towards_zero(p, den) as i64
}

/// `((den - num) * a + num * b) / den`, rounded towards zero.
fn lerp_component(a: i64, b: i64, num: i64, den: u64) -> (r: i64)
    requires
        den > 0,
        fits_i128(num * (b - a)),
        fits_i64(div_trunc((den - num) * a + num * b, den as int)),
    ensures
        r == div_trunc((den - num) * a + num * b, den as int),
{
    // the sum is den * a + step; its quotient is taken from that of step,
    // which is an `i128`
    let step: i128 = (num as i128) * ((b as i128) - (a as i128));
    let down: i128 = div_floor(step, den as i128);
    let over = step.checked_rem_euclid(den as i128);
    proof {
        let x = (den - num) * a + num * b;
        let s = step as int;
        let d = den as int;
        lemma_hoist_over_denominator(s, a as int, den as nat);
        assert(s + a * d == x) by (nonlinear_arith)
            requires
                s == num * (b - a),
                x == (d - num) * a + num * b,
        ;
        lemma_fundamental_div_mod(s, d);
        lemma_fundamental_div_mod(x, d);
        lemma_mod_bound(s, d);
        assert(x % d == s % d) by (nonlinear_arith)
            requires
                s + a * d == x,
                x == d * (x / d) + x % d,
                s == d * (s / d) + s % d,
                x / d == s / d + a,
        ;
        lemma_trunc_from_floor(x, d);
    }
    let rest: i128 = over.unwrap();
    let floor: i128 = down + (a as i128);
    if floor < 0 && rest != 0 {
        (floor + 1) as i64
    } else {
        floor as i64
    }
}

impl Vec3 {
    /// Every coordinate is within `COORD_MAX` of zero: the value is a point
    /// of the space that planes and polygons live in.
    pub open spec fn in_range(&self) -> bool {
        self@.bounded(COORD_MAX as int)
    }

    /// Whether `lerp` can compute the point between `self` and `other` at
    /// `t` without leaving the machine integers.
    pub open spec fn lerp_defined(&self, other: Vec3, t: Ratio) -> bool {
        &&& t.wf()
        &&& fits_i128(t.num * (other.x - self.x))
        &&& fits_i128(t.num * (other.y - self.y))
        &&& fits_i128(t.num * (other.z - self.z))
        &&& self@.lerp(other@, t.num as int, t.den as int).fits()
    }

    /// Tells whether the value is a point of the space.
    pub fn is_in_range(&self) -> (r: bool)
        ensures
            r == self.in_range(),
    {
        -COORD_MAX <= self.x && self.x <= COORD_MAX && -COORD_MAX <= self.y && self.y <= COORD_MAX
            && -COORD_MAX <= self.z && self.z <= COORD_MAX
    }

    /// Componentwise difference.
    pub fn sub(&self, other: Vec3) -> (r: Vec3)
        requires
            self@.minus(other@).fits(),
        ensures
            r@ == self@.minus(other@),
    {
        Vec3 { x: self.x - other.x, y: self.y - other.y, z: self.z - other.z }
    }

    /// Cross product.
    pub fn cross(&self, other: Vec3) -> (r: Vec3)
        requires
            self@.cross(other@).fits(),
        ensures
            r@ == self@.cross(other@),
    {
        Vec3 {
            x: det2(self.y, other.z, self.z, other.y),
            y: det2(self.z, other.x, self.x, other.z),
            z: det2(self.x, other.y, self.y, other.x),
        }
    }

    /// Dot product. The sum is taken from left to right and has to stay
    /// within `i128` on the way.
    pub fn dot(&self, other: Vec3) -> (r: i128)
        requires
            fits_i128(self.x * other.x + self.y * other.y),
            fits_i128(self@.dot(other@)),
        ensures
            r == self@.dot(other@),
    {
        proof {
            lemma_product_fits(self.x as int, other.x as int);
            lemma_product_fits(self.y as int, other.y as int);
            lemma_product_fits(self.z as int, other.z as int);
        }
        let px: i128 = (self.x as i128) * (other.x as i128);
        let py: i128 = (self.y as i128) * (other.y as i128);
        let pz: i128 = (self.z as i128) * (other.z as i128);
        px + py + pz
    }

    /// The point `(1 - t) * self + t * other`, each coordinate rounded
    /// towards zero.
    pub fn lerp(&self, other: Vec3, t: Ratio) -> (r: Vec3)
        requires
            self.lerp_defined(other, t),
        ensures
            r@ == self@.lerp(other@, t.num as int, t.den as int),
    {
        Vec3 {
            x: lerp_component(self.x, other.x, t.num, t.den),
            y: lerp_component(self.y, other.y, t.num, t.den),
            z: lerp_component(self.z, other.z, t.num, t.den),
        }
    }

    /// The vector times the factor `s`, each component rounded towards
    /// zero.
    pub fn scale(&self, s: Ratio) -> (r: Vec3)
        requires
            s.wf(),
            self@.scale(s.num as int, s.den as int).fits(),
        ensures
            r@ == self@.scale(s.num as int, s.den as int),
    {
        Vec3 {
            x: scale_component(self.x, s.num, s.den as i128),
            y: scale_component(self.y, s.num, s.den as i128),
            z: scale_component(self.z, s.num, s.den as i128),
        }
    }

    /// The Euclidean length, rounded down.
    pub fn len(&self) -> (r: u64)
        ensures
            r == self@.len(),
    {
        proof {
            lemma_product_fits(self.x as int, self.x as int);
            lemma_product_fits(self.y as int, self.y as int);
            lemma_product_fits(self.z as int, self.z as int);
            assert(self.x * self.x >= 0) by (nonlinear_arith);
            assert(self.y * self.y >= 0) by (nonlinear_arith);
            assert(self.z * self.z >= 0) by (nonlinear_arith);
        }
        let sx: u128 = ((self.x as i128) * (self.x as i128)) as u128;
        let sy: u128 = ((self.y as i128) * (self.y as i128)) as u128;
        let sz: u128 = ((self.z as i128) * (self.z as i128)) as u128;
        isqrt(sx + sy + sz)
    }

    /// The vector stretched to the length `NORMAL_SCALE`: scaled by
    /// `NORMAL_SCALE / len`, each component rounded towards zero. The result
    /// has unit length within `UNIT_TOLERANCE` where the vector is at least
    /// `MIN_NORMAL_LEN` long; of a shorter vector the rounded length says
    /// too little, and the result may be longer.
    pub fn normalized(&self) -> (r: Vec3)
        requires
            self@.len() > 0,
        ensures
            r@ == self@.normalized(),
            r@.bounded(NORMAL_SCALE as int),
            self@.len() >= MIN_NORMAL_LEN ==> r@.is_unit(),
    {
        let len: u64 = self.len();
        proof {
            lemma_normalized_bounded(self@);
            if self@.len() >= MIN_NORMAL_LEN {
                lemma_normalized_is_unit(self@);
            }
        }
        self.scale(Ratio { num: NORMAL_SCALE, den: len })
    }
}

/// No component of a normalized vector exceeds `NORMAL_SCALE` in magnitude.
pub proof fn lemma_normalized_bounded(v: Vector)
    requires
        v.len() > 0,
    ensures
        v.normalized().bounded(NORMAL_SCALE as int),
{
    let n = v.dot(v);
    let l = v.len();
    assert(v.x * v.x >= 0) by (nonlinear_arith);
    assert(v.y * v.y >= 0) by (nonlinear_arith);
    assert(v.z * v.z >= 0) by (nonlinear_arith);
    crate::arith::lemma_floor_sqrt(n);
    lemma_component_scaled(v.x, v.y * v.y + v.z * v.z, l);
    lemma_component_scaled(v.y, v.x * v.x + v.z * v.z, l);
    lemma_component_scaled(v.z, v.x * v.x + v.y * v.y, l);
}

/// A component `c` of a vector of rounded-down length `l > 0` satisfies
/// `|c| <= l`, so `c * NORMAL_SCALE / l` is at most `NORMAL_SCALE` in
/// magnitude.
proof fn lemma_component_scaled(c: int, rest: int, l: int)
    requires
        l > 0,
        c * c + rest < (l + 1) * (l + 1),
        rest >= 0,
    ensures
        -1_000_000_000 <= div_trunc(c * 1_000_000_000, l) <= 1_000_000_000,
{
    let q = div_trunc(c * 1_000_000_000, l);
    lemma_div_trunc(c * 1_000_000_000, l);
    assert(-l <= c <= l) by (nonlinear_arith)
        requires
            l > 0,
            c * c + rest < (l + 1) * (l + 1),
            rest >= 0,
    ;
    assert(-1_000_000_000 <= q <= 1_000_000_000) by (nonlinear_arith)
        requires
            l > 0,
            -l <= c <= l,
            -l < c * 1_000_000_000 - l * q < l,
    ;
}

} // verus!
