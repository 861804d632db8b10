//! Integer plane geometry: points, the exact integer square root, and the
//! rational quantities the spatial queries are built on.
use vstd::prelude::*;

verus! {

/// Largest magnitude allowed for a coordinate or a direction component.
pub const COORD_LIMIT: i64 = 65536;

/// A point (or a vector) of the plane with integer coordinates.
#[derive(Clone, Copy, Debug, PartialEq, Eq, Structural)]
pub struct Point {
    pub x: i64,
    pub y: i64,
}

impl Point {
    pub open spec fn in_bounds(self) -> bool {
        -COORD_LIMIT <= self.x <= COORD_LIMIT && -COORD_LIMIT <= self.y <= COORD_LIMIT
    }

    pub fn new(x: i64, y: i64) -> (r: Point)
        ensures
            r.x == x,
            r.y == y,
    {
        Point { x, y }
    }

    pub fn is_in_bounds(&self) -> (r: bool)
        ensures
            r == self.in_bounds(),
    {
        -COORD_LIMIT <= self.x && self.x <= COORD_LIMIT && -COORD_LIMIT <= self.y && self.y
            <= COORD_LIMIT
    }
}

/// `|a * b| <= x * y` when `|a| <= x` and `|b| <= y`.
pub proof fn lemma_mul_abs_bound(a: int, b: int, x: int, y: int)
    requires
        -x <= a <= x,
        -y <= b <= y,
    ensures
        -(x * y) <= a * b <= x * y,
{
    assert(-(x * y) <= a * b <= x * y) by (nonlinear_arith)
        requires
            -x <= a <= x,
            -y <= b <= y,
    ;
}

/// `s` is the integer square root of `w`.
pub open spec fn is_isqrt(s: int, w: int) -> bool {
    0 <= s && s * s <= w < (s + 1) * (s + 1)
}

/// Every non-negative integer has an integer square root.
pub proof fn lemma_isqrt_exists(w: int)
    requires
        0 <= w,
    ensures
        is_isqrt(sqrt_floor(w), w),
    decreases w,
{
    if w == 0 {
        assert(is_isqrt(0, 0));
    } else {
        lemma_isqrt_exists(w - 1);
        let s = sqrt_floor(w - 1);
        if (s + 1) * (s + 1) <= w {
            assert((s + 2) * (s + 2) == (s + 1) * (s + 1) + 2 * s + 3) by (nonlinear_arith);
            assert(is_isqrt(s + 1, w));
        } else {
            assert(is_isqrt(s, w));
        }
    }
}

/// The integer square root of a non-negative integer: the largest `s` with `s * s <= w`.
pub open spec fn sqrt_floor(w: int) -> int {
    choose|s: int| is_isqrt(s, w)
}

pub proof fn lemma_square_monotone(a: int, b: int)
    requires
        0 <= a <= b,
    ensures
        a * a <= b * b,
{
    assert(a * a <= b * b) by (nonlinear_arith)
        requires
            0 <= a <= b,
    ;
}

/// The integer square root is unique.
pub proof fn lemma_isqrt_unique(s: int, t: int, w: int)
    requires
        is_isqrt(s, w),
        is_isqrt(t, w),
    ensures
        s == t,
{
    if s < t {
        lemma_square_monotone(s + 1, t);
    } else if t < s {
        lemma_square_monotone(t + 1, s);
    }
}

/// Once a witness is known, `sqrt_floor` is that witness.
pub proof fn lemma_sqrt_floor_is(s: int, w: int)
    requires
        is_isqrt(s, w),
    ensures
        sqrt_floor(w) == s,
{
    let c = sqrt_floor(w);
    assert(is_isqrt(c, w));
    lemma_isqrt_unique(s, c, w);
}

/// The integer square root of `w`, found by bisection.
pub fn isqrt(w: u128) -> (s: u128)
    ensures
        s as int == sqrt_floor(w as int),
        is_isqrt(s as int, w as int),
{
    let mut lo: u128 = 0;
    let mut hi: u128 = 0x1_0000_0000_0000_0000;
    assert(0x1_0000_0000_0000_0000u128 * 0x1_0000_0000_0000_0000u128 > w as int)
        by (nonlinear_arith);
    while hi - lo > 1
        invariant
            lo < hi <= 0x1_0000_0000_0000_0000u128,
            lo * lo <= w,
            w < hi * hi,
        decreases hi - lo,
    {
        let mid: u128 = lo + (hi - lo) / 2;
        assert(mid * mid <= 0xffff_ffff_ffff_ffffu128 * 0xffff_ffff_ffff_ffffu128) by {
            lemma_square_monotone(mid as int, 0xffff_ffff_ffff_ffff);
        }
        assert(0xffff_ffff_ffff_ffffu128 * 0xffff_ffff_ffff_ffffu128 <= u128::MAX)
            by (nonlinear_arith);
        if mid * mid <= w {
            lo = mid;
        } else {
            hi = mid;
        }
    }
    proof {
        assert(hi == lo + 1);
        lemma_sqrt_floor_is(lo as int, w as int);
    }
    lo
}

/// Euclidean floor division by a positive divisor, on values of 100 bits.
pub fn floor_div(x: i128, d: i128) -> (q: i128)
    requires
        0 < d,
        -0x10_0000_0000_0000_0000_0000_0000 <= x <= 0x10_0000_0000_0000_0000_0000_0000,
    ensures
        q as int == x as int / d as int,
{
    if x >= 0 {
        let q = ((x as u128) / (d as u128)) as i128;
        q
    } else {
        let m: u128 = (-x) as u128;
        let du: u128 = d as u128;
        let c: u128 = (m + du - 1) / du;
        proof {
            let cc = c as int;
            let mm = m as int;
            let dd = du as int;
            vstd::arithmetic::div_mod::lemma_fundamental_div_mod(mm + dd - 1, dd);
            assert(cc * dd <= mm + dd - 1 < cc * dd + dd) by (nonlinear_arith)
                requires
                    0 < dd,
                    mm + dd - 1 == dd * cc + (mm + dd - 1) % dd,
                    0 <= (mm + dd - 1) % dd < dd,
            ;
            assert(cc <= mm) by (nonlinear_arith)
                requires
                    0 < dd,
                    0 < mm,
                    cc * dd <= mm + dd - 1,
            ;
            assert((-cc) * dd == -(cc * dd)) by (nonlinear_arith);
            vstd::arithmetic::div_mod::lemma_fundamental_div_mod_converse(
                x as int,
                dd,
                -cc,
                cc * dd - mm,
            );
        }
        -(c as i128)
    }
}

} // verus!
