//! Line segments of a layout: how many LEDs each one carries, and where a
//! ray, a point or a circle meets it, in exact integer arithmetic.
use vstd::prelude::*;

use crate::geometry::{
    floor_div, isqrt, lemma_isqrt_exists, lemma_mul_abs_bound, lemma_square_monotone,
    sqrt_floor, Point,
};

verus! {

/// Largest value allowed for either part of a density.
pub const DENSITY_LIMIT: i64 = 65536;

/// Largest radius a distance query accepts.
pub const RADIUS_LIMIT: i64 = 262144;

/// The radius a distance query works with: `dist`, or `RADIUS_LIMIT` when
/// `dist` is larger. Every two points of the plane lie closer together than
/// `RADIUS_LIMIT`, so a larger radius reaches no further.
pub open spec fn effective_radius(dist: int) -> int {
    if dist > RADIUS_LIMIT {
        RADIUS_LIMIT as int
    } else {
        dist
    }
}

pub fn clamp_radius(dist: i64) -> (r: i64)
    requires
        0 <= dist,
    ensures
        r == effective_radius(dist as int),
        0 <= r <= RADIUS_LIMIT,
{
    if dist > RADIUS_LIMIT {
        RADIUS_LIMIT
    } else {
        dist
    }
}

/// A density of `leds` LEDs for every `per_length` units of length.
#[derive(Clone, Copy, Debug, PartialEq, Eq, Structural)]
pub struct Density {
    pub leds: i64,
    pub per_length: i64,
}

impl Density {
    /// A density is usable when it is non-negative and has a positive length.
    pub open spec fn valid(self) -> bool {
        0 <= self.leds <= DENSITY_LIMIT && 1 <= self.per_length <= DENSITY_LIMIT
    }

    pub fn new(leds: i64, per_length: i64) -> (r: Density)
        ensures
            r.leds == leds,
            r.per_length == per_length,
    {
        Density { leds, per_length }
    }

    pub fn is_valid(&self) -> (r: bool)
        ensures
            r == self.valid(),
    {
        0 <= self.leds && self.leds <= DENSITY_LIMIT && 1 <= self.per_length && self.per_length
            <= DENSITY_LIMIT
    }
}

/// A straight run of LEDs from `start` to `end`.
#[derive(Clone, Copy, Debug, PartialEq, Eq, Structural)]
pub struct LineSegment {
    pub start: Point,
    pub end: Point,
    pub density: Density,
}

/// `sqrt(w) >= v`, for `w >= 0`.
pub open spec fn sqrt_at_least(w: int, v: int) -> bool {
    v <= 0 || v * v <= w
}

/// `sqrt(w) <= v`, for `w >= 0`.
pub open spec fn sqrt_at_most(w: int, v: int) -> bool {
    0 <= v && w <= v * v
}

/// The smallest integer not below `sqrt(w)`.
pub open spec fn sqrt_ceil(w: int) -> int {
    if sqrt_floor(w) * sqrt_floor(w) == w {
        sqrt_floor(w)
    } else {
        sqrt_floor(w) + 1
    }
}

/// Where a circle crosses a segment: the floors of `t * n` at the two roots
/// of the crossing equation, and whether each root lies on the segment.
#[derive(Clone, Copy, Debug, PartialEq, Eq, Structural)]
pub struct CircleCut {
    pub lo: i128,
    pub hi: i128,
    pub lo_on_segment: bool,
    pub hi_on_segment: bool,
    /// Whether part of the segment lies in the closed disk.
    pub overlaps: bool,
}

/// A non-negative `x` with `x * x <= w` is at most the integer square root of `w`.
pub proof fn lemma_le_sqrt(x: int, w: int)
    requires
        0 <= x,
        x * x <= w,
    ensures
        x <= sqrt_floor(w),
{
    lemma_isqrt_exists(w);
    let s = sqrt_floor(w);
    if x > s {
        lemma_square_monotone(s + 1, x);
    }
}

/// When `w <= x * x` for a non-negative `x`, both roundings of `sqrt(w)` are at most `x`.
pub proof fn lemma_sqrt_le(x: int, w: int)
    requires
        0 <= x,
        0 <= w <= x * x,
    ensures
        sqrt_floor(w) <= sqrt_ceil(w) <= x,
        0 <= sqrt_floor(w),
{
    lemma_isqrt_exists(w);
    let s = sqrt_floor(w);
    if s > x {
        lemma_square_monotone(x + 1, s);
        assert(false) by (nonlinear_arith)
            requires
                (x + 1) * (x + 1) <= s * s,
                s * s <= w,
                w <= x * x,
                0 <= x,
        ;
    }
    if s * s < w && s + 1 > x {
        assert(s == x);
        assert(false);
    }
}

/// Scaling both sides of `v * v <= d` (or `d <= v * v`) by `n * n`.
pub proof fn lemma_scale_square(n: int, d: int, v: int)
    requires
        0 <= n,
    ensures
        v * v <= d ==> (n * v) * (n * v) <= n * n * d,
        d <= v * v ==> n * n * d <= (n * v) * (n * v),
{
    assert((n * v) * (n * v) == n * n * (v * v)) by (nonlinear_arith);
    assert(v * v <= d ==> n * n * (v * v) <= n * n * d) by (nonlinear_arith)
        requires
            0 <= n,
    ;
    assert(d <= v * v ==> n * n * d <= n * n * (v * v)) by (nonlinear_arith)
        requires
            0 <= n,
    ;
}

/// `0 <= num <= 2 * a * n` puts `num / (2 * a)` in `[0, n]`.
pub proof fn lemma_div_in_unit(num: int, a: int, n: int)
    requires
        0 < a,
        0 <= n,
        0 <= num <= 2 * a * n,
    ensures
        0 <= num / (2 * a) <= n,
{
    vstd::arithmetic::div_mod::lemma_div_is_ordered(0, num, 2 * a);
    vstd::arithmetic::div_mod::lemma_div_is_ordered(num, 2 * a * n, 2 * a);
    assert(2 * a * n == n * (2 * a)) by (nonlinear_arith);
    vstd::arithmetic::div_mod::lemma_div_multiples_vanish(n, 2 * a);
}

impl LineSegment {
    pub open spec fn dx(self) -> int {
        self.end.x - self.start.x
    }

    pub open spec fn dy(self) -> int {
        self.end.y - self.start.y
    }

    /// The squared length.
    pub open spec fn len2(self) -> int {
        self.dx() * self.dx() + self.dy() * self.dy()
    }

    /// Both endpoints lie in bounds, they differ, and the density is usable.
    pub open spec fn valid(self) -> bool {
        self.start.in_bounds() && self.end.in_bounds() && self.start != self.end
            && self.density.valid()
    }

    /// `length * density` rounded half up: `floor(sqrt(len2) * leds / per_length + 1/2)`,
    /// which equals `floor((floor(sqrt(4 * len2 * leds^2)) + per_length) / (2 * per_length))`.
    pub open spec fn rounded_leds(self) -> int {
        (sqrt_floor(4 * self.len2() * (self.density.leds * self.density.leds))
            + self.density.per_length) / (2 * self.density.per_length)
    }

    /// The number of LEDs on the segment: its rounded length times density, at least one.
    pub open spec fn led_count(self) -> int {
        if self.rounded_leds() < 1 {
            1
        } else {
            self.rounded_leds()
        }
    }

    pub proof fn lemma_len2_positive(self)
        requires
            self.valid(),
        ensures
            self.len2() > 0,
    {
        let dx = self.dx();
        let dy = self.dy();
        assert(dx * dx >= 0 && dy * dy >= 0) by (nonlinear_arith);
        if dx != 0 {
            assert(dx * dx > 0) by (nonlinear_arith)
                requires
                    dx != 0,
            ;
        } else {
            assert(dy != 0);
            assert(dy * dy > 0) by (nonlinear_arith)
                requires
                    dy != 0,
            ;
        }
    }

    pub fn new(start: Point, end: Point, density: Density) -> (r: LineSegment)
        ensures
            r.start == start,
            r.end == end,
            r.density == density,
    {
        LineSegment { start, end, density }
    }

    pub fn is_valid(&self) -> (r: bool)
        ensures
            r == self.valid(),
    {
        self.start.is_in_bounds() && self.end.is_in_bounds() && !(self.start.x == self.end.x
            && self.start.y == self.end.y) && self.density.is_valid()
    }

    /// The squared length, exactly.
    pub fn length_squared(&self) -> (r: i128)
        requires
            self.valid(),
        ensures
            r == self.len2(),
            0 < r <= 0x8_0000_0000,
    {
        let dx = self.end.x as i128 - self.start.x as i128;
        let dy = self.end.y as i128 - self.start.y as i128;
        proof {
            lemma_mul_abs_bound(dx as int, dx as int, 131072, 131072);
            lemma_mul_abs_bound(dy as int, dy as int, 131072, 131072);
            assert(dx * dx >= 0 && dy * dy >= 0) by (nonlinear_arith);
            if dx == 0 {
                assert(dy != 0);
                assert(dy * dy > 0) by (nonlinear_arith)
                    requires
                        dy != 0,
                ;
            } else {
                assert(dx * dx > 0) by (nonlinear_arith)
                    requires
                        dx != 0,
                ;
            }
        }
        dx * dx + dy * dy
    }

    /// The number of LEDs the segment carries.
    pub fn num_leds(&self) -> (r: u64)
        requires
            self.valid(),
        ensures
            r == self.led_count(),
            1 <= r <= 0x10_0000_0000,
    {
        let l2 = self.length_squared();
        let leds = self.density.leds as i128;
        let per = self.density.per_length as i128;
        proof {
            lemma_mul_abs_bound(leds as int, leds as int, 65536, 65536);
            lemma_mul_abs_bound(l2 as int, leds * leds, 0x8_0000_0000, 0x1_0000_0000);
            assert(leds * leds >= 0) by (nonlinear_arith);
            assert(l2 * (leds * leds) >= 0) by (nonlinear_arith)
                requires
                    l2 > 0,
                    leds * leds >= 0,
            ;
        }
        let w: u128 = (4 * (l2 * (leds * leds))) as u128;
        let s = isqrt(w);
        proof {
            let si = s as int;
            assert(si * si <= w);
            assert(si <= 0x8_0000_0000) by {
                if si > 0x8_0000_0000 {
                    lemma_square_monotone(0x8_0000_0001, si);
                }
            }
        }
        let q: u128 = (s + per as u128) / (2 * per as u128);
        proof {
            assert(q <= s + per) by {
                vstd::arithmetic::div_mod::lemma_div_is_ordered_by_denominator(
                    (s + per) as int,
                    1,
                    2 * per as int,
                );
            }
        }
        assert(w == 4 * self.len2() * (self.density.leds * self.density.leds)) by {
            let a = self.len2();
            let b = self.density.leds * self.density.leds;
            assert(4 * (a * b) == 4 * a * b) by (nonlinear_arith);
        }
        assert(q == self.rounded_leds());
        if q < 1 {
            1
        } else {
            q as u64
        }
    }
}

impl LineSegment {
    /// The ray from `o` along `d` meets the segment at parameter `t = tn / td`
    /// (`0 <= tn <= td`, `td > 0`); `None` when it misses or runs parallel.
    pub open spec fn ray_hit(self, o: Point, d: Point) -> Option<(int, int)> {
        let ex = self.dx();
        let ey = self.dy();
        let wx = self.start.x - o.x;
        let wy = self.start.y - o.y;
        let den = d.x * ey - d.y * ex;
        let sn = wx * ey - wy * ex;
        let tn = wx * d.y - wy * d.x;
        if den > 0 && sn >= 0 && 0 <= tn <= den {
            Some((tn, den))
        } else if den < 0 && sn <= 0 && den <= tn <= 0 {
            Some((-tn, -den))
        } else {
            None
        }
    }

    /// The projection of `p - start` on the segment's direction.
    pub open spec fn projection(self, p: Point) -> int {
        (p.x - self.start.x) * self.dx() + (p.y - self.start.y) * self.dy()
    }

    /// The closest point to `p` lies at parameter `closest_param(p) / len2`.
    pub open spec fn closest_param(self, p: Point) -> int {
        if self.projection(p) < 0 {
            0
        } else if self.projection(p) > self.len2() {
            self.len2()
        } else {
            self.projection(p)
        }
    }

    /// `len2` times the squared distance from `p` to the segment.
    pub open spec fn scaled_dist2(self, p: Point) -> int {
        let c0 = (self.start.x - p.x) * (self.start.x - p.x) + (self.start.y - p.y) * (
        self.start.y - p.y);
        let pc = self.closest_param(p);
        c0 * self.len2() - 2 * pc * self.projection(p) + pc * pc
    }

    /// The crossing of the segment with the circle of radius `r` around `p`
    /// solves `qa * t^2 + qb * t + qc == 0`.
    pub open spec fn qb(self, p: Point) -> int {
        2 * (self.dx() * (self.start.x - p.x) + self.dy() * (self.start.y - p.y))
    }

    pub open spec fn qc(self, p: Point, r: int) -> int {
        (self.start.x - p.x) * (self.start.x - p.x) + (self.start.y - p.y) * (self.start.y
            - p.y) - r * r
    }

    pub open spec fn disc(self, p: Point, r: int) -> int {
        self.qb(p) * self.qb(p) - 4 * self.len2() * self.qc(p, r)
    }

    /// `floor(t_hi * n)` for the larger root `t_hi = (-qb + sqrt(disc)) / (2 * qa)`.
    pub open spec fn hi_floor(self, p: Point, r: int, n: int) -> int {
        (-self.qb(p) * n + sqrt_floor(n * n * self.disc(p, r))) / (2 * self.len2())
    }

    /// `floor(t_lo * n)` for the smaller root `t_lo = (-qb - sqrt(disc)) / (2 * qa)`.
    pub open spec fn lo_floor(self, p: Point, r: int, n: int) -> int {
        (-self.qb(p) * n - sqrt_ceil(n * n * self.disc(p, r))) / (2 * self.len2())
    }

    /// `0 <= t_hi <= 1`.
    pub open spec fn hi_on_segment(self, p: Point, r: int) -> bool {
        self.disc(p, r) >= 0 && sqrt_at_least(self.disc(p, r), self.qb(p)) && sqrt_at_most(
            self.disc(p, r),
            2 * self.len2() + self.qb(p),
        )
    }

    /// `0 <= t_lo <= 1`.
    pub open spec fn lo_on_segment(self, p: Point, r: int) -> bool {
        self.disc(p, r) >= 0 && sqrt_at_most(self.disc(p, r), -self.qb(p)) && sqrt_at_least(
            self.disc(p, r),
            -self.qb(p) - 2 * self.len2(),
        )
    }

    /// Some part of the segment lies in the closed disk of radius `r` around `p`:
    /// the circle's line crosses it with `t_hi >= 0` and `t_lo <= 1`.
    pub open spec fn overlaps(self, p: Point, r: int) -> bool {
        self.disc(p, r) >= 0 && sqrt_at_least(self.disc(p, r), self.qb(p)) && sqrt_at_least(
            self.disc(p, r),
            -self.qb(p) - 2 * self.len2(),
        )
    }

    /// Where the circle crosses the segment, the smaller root comes first.
    pub proof fn lemma_lo_le_hi(self, p: Point, r: int, n: int)
        requires
            self.valid(),
            1 <= n,
            self.disc(p, r) >= 0,
        ensures
            self.lo_floor(p, r, n) <= self.hi_floor(p, r, n),
    {
        self.lemma_len2_positive();
        let w = n * n * self.disc(p, r);
        let d = self.disc(p, r);
        assert(n * n * d >= 0) by (nonlinear_arith)
            requires
                d >= 0,
        ;
        lemma_isqrt_exists(w);
        vstd::arithmetic::div_mod::lemma_div_is_ordered(
            -self.qb(p) * n - sqrt_ceil(w),
            -self.qb(p) * n + sqrt_floor(w),
            2 * self.len2(),
        );
    }

    /// A larger root on the segment gives a floor in `[0, n]`.
    pub proof fn lemma_hi_floor_bounds(self, p: Point, r: int, n: int)
        requires
            self.valid(),
            1 <= n,
            self.hi_on_segment(p, r),
        ensures
            0 <= self.hi_floor(p, r, n) <= n,
    {
        self.lemma_len2_positive();
        let d = self.disc(p, r);
        let qb = self.qb(p);
        let a = self.len2();
        let w = n * n * d;
        assert(n * n * d >= 0) by (nonlinear_arith)
            requires
                d >= 0,
        ;
        lemma_isqrt_exists(w);
        let s = sqrt_floor(w);
        if qb > 0 {
            lemma_scale_square(n, d, qb);
            assert(n * qb >= 0) by (nonlinear_arith)
                requires
                    n >= 1,
                    qb > 0,
            ;
            lemma_le_sqrt(n * qb, w);
            assert(-qb * n == -(n * qb)) by (nonlinear_arith);
        } else {
            assert(-qb * n >= 0) by (nonlinear_arith)
                requires
                    n >= 1,
                    qb <= 0,
            ;
        }
        let v = 2 * a + qb;
        lemma_scale_square(n, d, v);
        assert(n * v >= 0) by (nonlinear_arith)
            requires
                n >= 1,
                v >= 0,
        ;
        lemma_sqrt_le(n * v, w);
        assert(-qb * n + n * (2 * a + qb) == 2 * a * n) by (nonlinear_arith);
        lemma_div_in_unit(-qb * n + s, a, n);
    }

    /// A smaller root on the segment gives a floor in `[0, n]`.
    pub proof fn lemma_lo_floor_bounds(self, p: Point, r: int, n: int)
        requires
            self.valid(),
            1 <= n,
            self.lo_on_segment(p, r),
        ensures
            0 <= self.lo_floor(p, r, n) <= n,
    {
        self.lemma_len2_positive();
        let d = self.disc(p, r);
        let qb = self.qb(p);
        let a = self.len2();
        let w = n * n * d;
        assert(n * n * d >= 0) by (nonlinear_arith)
            requires
                d >= 0,
        ;
        lemma_isqrt_exists(w);
        let cs = sqrt_ceil(w);
        let m = n * (-qb);
        lemma_scale_square(n, d, -qb);
        assert(n * (-qb) >= 0) by (nonlinear_arith)
            requires
                n >= 1,
                -qb >= 0,
        ;
        lemma_sqrt_le(m, w);
        assert(-qb * n == n * (-qb)) by (nonlinear_arith);
        let u = -qb - 2 * a;
        if u > 0 {
            lemma_scale_square(n, d, u);
            assert(n * u >= 0) by (nonlinear_arith)
                requires
                    n >= 1,
                    u > 0,
            ;
            lemma_le_sqrt(n * u, w);
            assert(-qb * n - n * (-qb - 2 * a) == 2 * a * n) by (nonlinear_arith);
        } else {
            assert(-qb * n <= 2 * a * n) by (nonlinear_arith)
                requires
                    n >= 1,
                    -qb <= 2 * a,
            ;
        }
        lemma_div_in_unit(-qb * n - cs, a, n);
    }

    /// When the segment's start lies strictly inside the circle, the part in
    /// the disk begins at the start (`lo_floor <= 0`, `hi_floor >= 0`); when its
    /// end lies strictly inside too (`len2 + qb + qc < 0`), the part reaches
    /// the end (`hi_floor >= n`).
    pub proof fn lemma_start_inside(self, p: Point, r: int, n: int)
        requires
            self.valid(),
            1 <= n,
            self.qc(p, r) < 0,
        ensures
            self.overlaps(p, r),
            self.lo_floor(p, r, n) <= 0,
            self.hi_floor(p, r, n) >= 0,
            self.len2() + self.qb(p) + self.qc(p, r) < 0 ==> self.hi_floor(p, r, n) >= n,
    {
        self.lemma_len2_positive();
        let a = self.len2();
        let qb = self.qb(p);
        let qc = self.qc(p, r);
        let d = self.disc(p, r);
        assert(d > qb * qb) by (nonlinear_arith)
            requires
                d == qb * qb - 4 * a * qc,
                a > 0,
                qc < 0,
        ;
        assert(qb * qb >= 0) by (nonlinear_arith);
        let v = -qb - 2 * a;
        if v > 0 {
            assert(v * v < qb * qb) by (nonlinear_arith)
                requires
                    v == -qb - 2 * a,
                    v > 0,
                    a > 0,
            ;
        }
        let aq = if qb < 0 {
            -qb
        } else {
            qb
        };
        assert(aq * aq == qb * qb) by (nonlinear_arith)
            requires
                aq == qb || aq == -qb,
        ;
        let w = n * n * d;
        assert(n * n * d >= 0) by (nonlinear_arith)
            requires
                d >= 0,
        ;
        lemma_isqrt_exists(w);
        lemma_scale_square(n, d, aq);
        assert(n * aq >= 0) by (nonlinear_arith)
            requires
                n >= 1,
                aq >= 0,
        ;
        lemma_le_sqrt(n * aq, w);
        let s = sqrt_floor(w);
        let cs = sqrt_ceil(w);
        assert(-qb * n - n * aq <= 0) by (nonlinear_arith)
            requires
                aq == qb || aq == -qb,
                aq >= 0,
                n >= 1,
        ;
        assert(-qb * n + n * aq >= 0) by (nonlinear_arith)
            requires
                aq == qb || aq == -qb,
                aq >= 0,
                n >= 1,
        ;
        vstd::arithmetic::div_mod::lemma_div_is_ordered(-qb * n - cs, 0, 2 * a);
        vstd::arithmetic::div_mod::lemma_div_is_ordered(0, -qb * n + s, 2 * a);
        if a + qb + qc < 0 {
            let u = 2 * a + qb;
            assert(d - u * u == -4 * a * (a + qb + qc)) by (nonlinear_arith)
                requires
                    d == qb * qb - 4 * a * qc,
                    u == 2 * a + qb,
            ;
            assert(-4 * a * (a + qb + qc) > 0) by (nonlinear_arith)
                requires
                    a > 0,
                    a + qb + qc < 0,
            ;
            if u > 0 {
                lemma_scale_square(n, d, u);
                assert(n * u >= 0) by (nonlinear_arith)
                    requires
                        n >= 1,
                        u > 0,
                ;
                lemma_le_sqrt(n * u, w);
                assert(-qb * n + n * u == 2 * a * n) by (nonlinear_arith)
                    requires
                        u == 2 * a + qb,
                ;
            } else {
                assert(qb < 0);
                assert(aq == -qb);
                assert(-qb * n + n * aq >= 2 * a * n) by (nonlinear_arith)
                    requires
                        aq == -qb,
                        -qb >= 2 * a,
                        a > 0,
                        n >= 1,
                ;
            }
            assert(2 * a * n == n * (2 * a)) by (nonlinear_arith);
            vstd::arithmetic::div_mod::lemma_div_multiples_vanish(n, 2 * a);
            vstd::arithmetic::div_mod::lemma_div_is_ordered(2 * a * n, -qb * n + s, 2 * a);
        }
    }

    /// Where the ray from `o` along `d` meets the segment, as in `ray_hit`.
    pub fn intersects_ray(&self, o: Point, d: Point) -> (r: Option<(i64, i64)>)
        requires
            self.valid(),
            o.in_bounds(),
            d.in_bounds(),
        ensures
            r.is_some() == self.ray_hit(o, d).is_some(),
            r.is_some() ==> self.ray_hit(o, d) == Some((r.unwrap().0 as int, r.unwrap().1 as int)),
            r.is_some() ==> 0 <= r.unwrap().0 <= r.unwrap().1 && 0 < r.unwrap().1 <= 0x4_0000_0000,
    {
        let ex = self.end.x - self.start.x;
        let ey = self.end.y - self.start.y;
        let wx = self.start.x - o.x;
        let wy = self.start.y - o.y;
        proof {
            lemma_mul_abs_bound(d.x as int, ey as int, 65536, 131072);
            lemma_mul_abs_bound(d.y as int, ex as int, 65536, 131072);
            lemma_mul_abs_bound(wx as int, ey as int, 131072, 131072);
            lemma_mul_abs_bound(wy as int, ex as int, 131072, 131072);
            lemma_mul_abs_bound(wx as int, d.y as int, 131072, 65536);
            lemma_mul_abs_bound(wy as int, d.x as int, 131072, 65536);
        }
        let den = d.x * ey - d.y * ex;
        let sn = wx * ey - wy * ex;
        let tn = wx * d.y - wy * d.x;
        if den > 0 && sn >= 0 && 0 <= tn && tn <= den {
            Some((tn, den))
        } else if den < 0 && sn <= 0 && den <= tn && tn <= 0 {
            Some((-tn, -den))
        } else {
            None
        }
    }

    /// The closest point of the segment to `p`: `(closest_param(p), scaled_dist2(p))`.
    pub fn closest_to_point(&self, p: Point) -> (r: (i128, i128))
        requires
            self.valid(),
            p.in_bounds(),
        ensures
            r.0 == self.closest_param(p),
            r.1 == self.scaled_dist2(p),
            0 <= r.0 <= self.len2(),
            -0x200_0000_0000_0000_0000 <= r.1 <= 0x200_0000_0000_0000_0000,
    {
        let a = self.length_squared();
        let ex = self.end.x as i128 - self.start.x as i128;
        let ey = self.end.y as i128 - self.start.y as i128;
        let wx = self.start.x as i128 - p.x as i128;
        let wy = self.start.y as i128 - p.y as i128;
        proof {
            lemma_mul_abs_bound(wx as int, ex as int, 131072, 131072);
            lemma_mul_abs_bound(wy as int, ey as int, 131072, 131072);
            lemma_mul_abs_bound(wx as int, wx as int, 131072, 131072);
            lemma_mul_abs_bound(wy as int, wy as int, 131072, 131072);
            assert((-wx) * ex == -(wx * ex)) by (nonlinear_arith);
            assert((-wy) * ey == -(wy * ey)) by (nonlinear_arith);
        }
        let proj = (-wx) * ex + (-wy) * ey;
        let pc = if proj < 0 {
            0
        } else if proj > a {
            a
        } else {
            proj
        };
        let c0 = wx * wx + wy * wy;
        proof {
            lemma_mul_abs_bound(c0 as int, a as int, 0x10_0000_0000, 0x8_0000_0000);
            lemma_mul_abs_bound(pc as int, proj as int, 0x8_0000_0000, 0x8_0000_0000);
            lemma_mul_abs_bound(pc as int, pc as int, 0x8_0000_0000, 0x8_0000_0000);
            assert(2 * pc * proj == 2 * (pc * proj)) by (nonlinear_arith);
        }
        (pc, c0 * a - 2 * pc * proj + pc * pc)
    }

    /// Where the circle of radius `r` around `p` crosses the segment, with
    /// parameters scaled by `n`; `None` when the circle's line misses it.
    pub fn circle_cut(&self, p: Point, r: i64, n: u64) -> (res: Option<CircleCut>)
        requires
            self.valid(),
            p.in_bounds(),
            0 <= r <= RADIUS_LIMIT,
            1 <= n <= 0x100_0000,
        ensures
            res.is_some() == (self.disc(p, r as int) >= 0),
            res.is_some() ==> ({
                let c = res.unwrap();
                &&& c.lo == self.lo_floor(p, r as int, n as int)
                &&& c.hi == self.hi_floor(p, r as int, n as int)
                &&& c.lo_on_segment == self.lo_on_segment(p, r as int)
                &&& c.hi_on_segment == self.hi_on_segment(p, r as int)
                &&& c.overlaps == self.overlaps(p, r as int)
            }),
    {
        let a = self.length_squared();
        let ex = self.end.x as i128 - self.start.x as i128;
        let ey = self.end.y as i128 - self.start.y as i128;
        let wx = self.start.x as i128 - p.x as i128;
        let wy = self.start.y as i128 - p.y as i128;
        let rr = r as i128;
        proof {
            lemma_mul_abs_bound(wx as int, ex as int, 131072, 131072);
            lemma_mul_abs_bound(wy as int, ey as int, 131072, 131072);
            lemma_mul_abs_bound(wx as int, wx as int, 131072, 131072);
            lemma_mul_abs_bound(wy as int, wy as int, 131072, 131072);
            lemma_mul_abs_bound(rr as int, rr as int, 262144, 262144);
        }
        let qb = 2 * (wx * ex + wy * ey);
        let qc = wx * wx + wy * wy - rr * rr;
        proof {
            lemma_mul_abs_bound(qb as int, qb as int, 0x10_0000_0000, 0x10_0000_0000);
            lemma_mul_abs_bound(a as int, qc as int, 0x8_0000_0000, 0x18_0000_0000);
            assert(4 * a * qc == 4 * (a * qc)) by (nonlinear_arith);
        }
        let disc = qb * qb - 4 * a * qc;
        if disc < 0 {
            return None;
        }
        let ni = n as i128;
        proof {
            lemma_mul_abs_bound(ni as int, ni as int, 0x100_0000, 0x100_0000);
            assert(ni * ni >= 0) by (nonlinear_arith);
            lemma_mul_abs_bound(ni * ni, disc as int, 0x1_0000_0000_0000, 0x400_0000_0000_0000_0000);
            assert(ni * ni * disc >= 0) by (nonlinear_arith)
                requires
                    ni * ni >= 0,
                    disc >= 0,
            ;
        }
        let w: u128 = (ni * ni * disc) as u128;
        let s = isqrt(w);
        proof {
            let si = s as int;
            assert(si <= 0x4000_0000_0000_0000) by {
                if si > 0x4000_0000_0000_0000 {
                    lemma_square_monotone(0x4000_0000_0000_0001, si);
                }
            }
            lemma_mul_abs_bound(qb as int, ni as int, 0x10_0000_0000, 0x100_0000);
        }
        let si = s as i128;
        let sc = if si * si == w as i128 {
            si
        } else {
            si + 1
        };
        let hi = floor_div(-(qb * ni) + si, 2 * a);
        let lo = floor_div(-(qb * ni) - sc, 2 * a);
        proof {
            assert(-(qb * ni) == -qb * ni) by (nonlinear_arith);
            lemma_mul_abs_bound(2 * a + qb, 2 * a + qb, 0x20_0000_0000, 0x20_0000_0000);
            lemma_mul_abs_bound(-qb - 2 * a, -qb - 2 * a, 0x20_0000_0000, 0x20_0000_0000);
        }
        let hi_low_ok = qb <= 0 || qb * qb <= disc;
        let hi_high_ok = 0 <= 2 * a + qb && disc <= (2 * a + qb) * (2 * a + qb);
        let lo_high_ok = 0 <= -qb && disc <= qb * qb;
        let lo_low_ok = -qb - 2 * a <= 0 || (-qb - 2 * a) * (-qb - 2 * a) <= disc;
        proof {
            assert((-qb) * (-qb) == qb * qb) by (nonlinear_arith);
            assert(qb == self.qb(p)) by (nonlinear_arith)
                requires
                    qb == 2 * (wx * ex + wy * ey),
                    wx == self.start.x - p.x,
                    wy == self.start.y - p.y,
                    ex == self.dx(),
                    ey == self.dy(),
            ;
            assert(a == self.len2());
            assert(disc == self.disc(p, r as int));
            assert(hi_low_ok == sqrt_at_least(self.disc(p, r as int), self.qb(p)));
            assert(lo_low_ok == sqrt_at_least(self.disc(p, r as int), -self.qb(p) - 2 * self.len2()));
            assert(hi == self.hi_floor(p, r as int, n as int));
            assert(lo == self.lo_floor(p, r as int, n as int));
        }
        Some(
            CircleCut {
                lo,
                hi,
                lo_on_segment: lo_high_ok && lo_low_ok,
                hi_on_segment: hi_low_ok && hi_high_ok,
                overlaps: hi_low_ok && lo_low_ok,
            },
        )
    }
}

} // verus!
