//! Integer helpers: division rounded towards zero, the integer square
//! root and rational factors.

use vstd::arithmetic::div_mod::{
    lemma_div_multiples_vanish, lemma_fundamental_div_mod, lemma_fundamental_div_mod_converse,
    lemma_mod_bound,
};
use vstd::prelude::*;

verus! {

/// The mathematical integer square root: the largest `r` with `r * r <= n`.
pub open spec fn is_sqrt_of(r: int, n: int) -> bool {
    0 <= r && r * r <= n && n < (r + 1) * (r + 1)
}

/// Squaring is monotone on the naturals.
pub proof fn lemma_square_monotone(a: int, b: int)
    by (nonlinear_arith)
    requires
        0 <= a <= b,
    ensures
        a * a <= b * b,
{
}

/// The integer square root is unique.
pub proof fn lemma_sqrt_unique(r: int, s: int, n: int)
    requires
        is_sqrt_of(r, n),
        is_sqrt_of(s, n),
    ensures
        r == s,
{
    if r < s {
        lemma_square_monotone(r + 1, s);
    } else if s < r {
        lemma_square_monotone(s + 1, r);
    }
}

/// The integer square root of `n`, rounded down (`0` for a negative `n`).
pub open spec fn floor_sqrt(n: int) -> int {
    if n < 0 {
        0
    } else {
        choose|r: int| is_sqrt_of(r, n)
    }
}

/// For a natural `n`, `floor_sqrt(n)` is its integer square root.
pub proof fn lemma_floor_sqrt(n: int)
    requires
        n >= 0,
    ensures
        is_sqrt_of(floor_sqrt(n), n),
{
    lemma_sqrt_exists(n);
}

/// Every natural has an integer square root.
proof fn lemma_sqrt_exists(n: int)
    requires
        n >= 0,
    ensures
        exists|r: int| is_sqrt_of(r, n),
    decreases n,
{
    if n == 0 {
        assert(is_sqrt_of(0, 0));
    } else {
        let m = n - 1;
        lemma_sqrt_exists(m);
        let r = choose|r: int| is_sqrt_of(r, m);
        if n < (r + 1) * (r + 1) {
            assert(is_sqrt_of(r, n));
        } else {
            assert((r + 2) * (r + 2) > (r + 1) * (r + 1)) by (nonlinear_arith)
                requires
                    r >= 0,
            ;
            assert(is_sqrt_of(r + 1, n));
        }
    }
}

/// A factor `num / den` with a positive denominator.
#[derive(Clone, Copy, Debug, PartialEq, Eq, Structural)]
pub struct Ratio {
    pub num: i64,
    pub den: u64,
}

impl Ratio {
    /// The denominator is positive.
    pub open spec fn wf(&self) -> bool {
        self.den > 0
    }
}

/// A quotient by a positive divisor is no larger in magnitude than the
/// dividend.
pub proof fn lemma_div_floor_bounds(a: int, b: int)
    by (nonlinear_arith)
    requires
        b > 0,
    ensures
        a >= 0 ==> 0 <= a / b <= a,
        a < 0 ==> a <= a / b < 0,
{
}

/// The quotient of `x` by a positive `d`, rounded towards zero: the
/// quotient of `-x` is the negated quotient of `x`.
pub open spec fn div_trunc(x: int, d: int) -> int {
    if x >= 0 {
        x / d
    } else {
        -((-x) / d)
    }
}

/// What rounding towards zero leaves over is smaller than the divisor and
/// has the sign of the dividend.
pub proof fn lemma_div_trunc(x: int, d: int)
    requires
        d > 0,
    ensures
        -d < x - d * div_trunc(x, d) < d,
        x >= 0 ==> 0 <= x - d * div_trunc(x, d) && 0 <= div_trunc(x, d) <= x,
        x <= 0 ==> x - d * div_trunc(x, d) <= 0 && x <= div_trunc(x, d) <= 0,
        div_trunc(-x, d) == -div_trunc(x, d),
{
    let y = if x >= 0 {
        x
    } else {
        -x
    };
    lemma_fundamental_div_mod(y, d);
    lemma_mod_bound(y, d);
    lemma_div_floor_bounds(y, d);
    assert(d * (-(y / d)) == -(d * (y / d))) by (nonlinear_arith);
}

/// Rounding towards zero is rounding down, and one more for a negative
/// quotient that is not whole.
pub proof fn lemma_trunc_from_floor(x: int, d: int)
    requires
        d > 0,
    ensures
        div_trunc(x, d) == if x / d < 0 && x % d != 0 {
            x / d + 1
        } else {
            x / d
        },
{
    let f = x / d;
    let r = x % d;
    lemma_fundamental_div_mod(x, d);
    lemma_mod_bound(x, d);
    if x >= 0 {
        assert(f >= 0) by (nonlinear_arith)
            requires
                x == d * f + r,
                0 <= r < d,
                x >= 0,
                d > 0,
        ;
    } else {
        assert(f < 0) by (nonlinear_arith)
            requires
                x == d * f + r,
                0 <= r < d,
                x < 0,
                d > 0,
        ;
        if r == 0 {
            assert(-x == d * (-f)) by (nonlinear_arith)
                requires
                    x == d * f + r,
                    r == 0,
            ;
            lemma_div_multiples_vanish(-f, d);
        } else {
            assert(-x == (-f - 1) * d + (d - r)) by (nonlinear_arith)
                requires
                    x == d * f + r,
            ;
            lemma_fundamental_div_mod_converse(-x, d, -f - 1, d - r);
        }
    }
}

/// A weighted mean of `a` and `b` with weights `den - num` and `num`,
/// `0 <= num <= den`, lies between `a` and `b`, also after rounding.
pub proof fn lemma_mean_between(a: int, b: int, num: int, den: int)
    requires
        den > 0,
        0 <= num <= den,
    ensures
        a <= b ==> a <= div_trunc((den - num) * a + num * b, den) <= b,
        b <= a ==> b <= div_trunc((den - num) * a + num * b, den) <= a,
{
    let x = (den - num) * a + num * b;
    let q = div_trunc(x, den);
    lemma_div_trunc(x, den);
    if a <= b {
        assert(a <= q <= b) by (nonlinear_arith)
            requires
                x == (den - num) * a + num * b,
                0 <= num <= den,
                den > 0,
                a <= b,
                -den < x - den * q < den,
        ;
    } else {
        assert(b <= q <= a) by (nonlinear_arith)
            requires
                x == (den - num) * a + num * b,
                0 <= num <= den,
                den > 0,
                b <= a,
                -den < x - den * q < den,
        ;
    }
}

/// Division rounded towards zero.
pub fn div_towards_zero(a: i128, b: i128) -> (q: i128)
    requires
        b > 0,
    ensures
        q == div_trunc(a as int, b as int),
{
    proof {
        lemma_div_trunc(a as int, b as int);
        assert((a * -1) * -1 == a) by (nonlinear_arith);
    }
    let q = a.checked_div(b);
    q.unwrap()
}

/// Division rounded down, towards negative infinity.
pub fn div_floor(a: i128, b: i128) -> (q: i128)
    requires
        b > 0,
    ensures
        q == a / b,
{
    proof {
        lemma_div_floor_bounds(a as int, b as int);
    }
    let q = a.checked_div_euclid(b);
    q.unwrap()
}

/// Integer square root, rounded down.
pub fn isqrt(n: u128) -> (r: u64)
    ensures
        is_sqrt_of(r as int, n as int),
        r == floor_sqrt(n as int),
{
    let mut lo: u128 = 0;
    let mut hi: u128 = 0x1_0000_0000_0000_0000;
    while hi - lo > 1
        invariant
            lo < hi <= 0x1_0000_0000_0000_0000,
            lo * lo <= n,
            n < hi * hi,
        decreases hi - lo,
    {
        let mid: u128 = lo + (hi - lo) / 2;
        assert(mid * mid <= 0xffff_ffff_ffff_ffff * 0xffff_ffff_ffff_ffff) by {
            lemma_square_monotone(mid as int, 0xffff_ffff_ffff_ffff);
        }
        if mid * mid <= n {
            lo = mid;
        } else {
            hi = mid;
        }
    }
    proof {
        assert(is_sqrt_of(lo as int, n as int));
        let r = choose|r: int| is_sqrt_of(r, n as int);
        lemma_sqrt_unique(r, lo as int, n as int);
    }
    lo as u64
}

} // verus!
