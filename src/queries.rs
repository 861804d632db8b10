//! Geometric queries: the LED a ray strikes first, and the LED closest to a point.
use vstd::prelude::*;

use crate::error::SledError;
use crate::geometry::Point;
use crate::layout::{lemma_offset_monotone, Layout};
use crate::segment::LineSegment;
use crate::sled::{Led, Sled};

verus! {

/// The LED index for parameter `tn / td` (in `[0, 1]`) along segment `j`:
/// the segment's first index plus `floor(t * count)`, kept on the segment.
pub open spec fn param_index(l: Layout, j: int, tn: int, td: int) -> int {
    let n = l.segs()[j].led_count();
    let k = tn * n / td;
    l.offset(j) + if k < n - 1 {
        k
    } else {
        n - 1
    }
}

/// The first segment, from `j` on, that the ray from `o` along `d` meets.
pub open spec fn first_ray_hit(segs: Seq<LineSegment>, o: Point, d: Point, j: int) -> Option<int>
    decreases segs.len() - j,
{
    if j < 0 || j >= segs.len() {
        None
    } else if segs[j].ray_hit(o, d).is_some() {
        Some(j)
    } else {
        first_ray_hit(segs, o, d, j + 1)
    }
}

/// The LED the ray from `o` along `d` strikes: on the first segment, in
/// layout order, that it meets.
pub open spec fn index_at_dir(l: Layout, o: Point, d: Point) -> Option<int> {
    match first_ray_hit(l.segs(), o, d, 0) {
        Some(j) => Some(
            param_index(l, j, l.segs()[j].ray_hit(o, d).unwrap().0, l.segs()[j].ray_hit(o, d).unwrap().1),
        ),
        None => None,
    }
}

/// Where the ray from `o` along `d` lands among the LEDs, as
/// `(index, occupancy numerator, occupancy denominator)`. On the struck
/// segment LED `k` sits at parameter `k / (count - 1)`, so the ray lands at
/// the fractional LED position `f = t * (count - 1)`; the index is
/// `floor(f)` and its occupancy is `1 - frac(f)`, the rest falling on the
/// next LED.
pub open spec fn hit_at_dir(l: Layout, o: Point, d: Point) -> (int, int, int) {
    let j = first_ray_hit(l.segs(), o, d, 0).unwrap();
    let (tn, td) = l.segs()[j].ray_hit(o, d).unwrap();
    let gaps = l.segs()[j].led_count() - 1;
    (l.offset(j) + (tn * gaps) / td, td - (tn * gaps) % td, td)
}

/// Where a ray strikes: the LED, and how squarely (`occupancy_num / occupancy_den`).
#[derive(Clone, Copy, Debug, PartialEq, Eq, Structural)]
pub struct DirectionalHit {
    pub index: usize,
    pub occupancy_num: u64,
    pub occupancy_den: u64,
}

/// Segment `a` lies strictly closer to `p` than segment `b`.
pub open spec fn closer(segs: Seq<LineSegment>, p: Point, a: int, b: int) -> bool {
    segs[a].scaled_dist2(p) * segs[b].len2() < segs[b].scaled_dist2(p) * segs[a].len2()
}

/// Segment `j` is the first of the segments closest to `p`.
pub open spec fn is_closest_segment(segs: Seq<LineSegment>, p: Point, j: int) -> bool {
    &&& 0 <= j < segs.len()
    &&& forall|k: int| 0 <= k < segs.len() ==> !#[trigger] closer(segs, p, k, j)
    &&& forall|k: int| 0 <= k < j ==> #[trigger] closer(segs, p, j, k)
}

/// The LED nearest to `p` on segment `j`.
pub open spec fn closest_on(l: Layout, p: Point, j: int) -> int {
    param_index(l, j, l.segs()[j].closest_param(p), l.segs()[j].len2())
}

proof fn lemma_ratio_lt_le(x1: int, a1: int, x2: int, a2: int, x3: int, a3: int)
    requires
        a1 > 0,
        a2 > 0,
        a3 > 0,
        x1 * a2 < x2 * a1,
        x2 * a3 <= x3 * a2,
    ensures
        x1 * a3 < x3 * a1,
{
    assert(x1 * a2 * a3 < x2 * a1 * a3) by (nonlinear_arith)
        requires
            x1 * a2 < x2 * a1,
            a3 > 0,
    ;
    assert(x2 * a3 * a1 <= x3 * a2 * a1) by (nonlinear_arith)
        requires
            x2 * a3 <= x3 * a2,
            a1 > 0,
    ;
    assert(x1 * a3 * a2 < x3 * a1 * a2) by (nonlinear_arith)
        requires
            x1 * a2 * a3 < x2 * a1 * a3,
            x2 * a3 * a1 <= x3 * a2 * a1,
    ;
    assert(x1 * a3 < x3 * a1) by (nonlinear_arith)
        requires
            x1 * a3 * a2 < x3 * a1 * a2,
            a2 > 0,
    ;
}

proof fn lemma_ratio_le_lt(x1: int, a1: int, x2: int, a2: int, x3: int, a3: int)
    requires
        a1 > 0,
        a2 > 0,
        a3 > 0,
        x1 * a2 <= x2 * a1,
        x2 * a3 < x3 * a2,
    ensures
        x1 * a3 < x3 * a1,
{
    assert(x1 * a2 * a3 <= x2 * a1 * a3) by (nonlinear_arith)
        requires
            x1 * a2 <= x2 * a1,
            a3 > 0,
    ;
    assert(x2 * a3 * a1 < x3 * a2 * a1) by (nonlinear_arith)
        requires
            x2 * a3 < x3 * a2,
            a1 > 0,
    ;
    assert(x1 * a3 * a2 < x3 * a1 * a2) by (nonlinear_arith)
        requires
            x1 * a2 * a3 <= x2 * a1 * a3,
            x2 * a3 * a1 < x3 * a2 * a1,
    ;
    assert(x1 * a3 < x3 * a1) by (nonlinear_arith)
        requires
            x1 * a3 * a2 < x3 * a1 * a2,
            a2 > 0,
    ;
}

/// Only the first segment closest to `p` is `is_closest_segment`.
pub proof fn lemma_closest_unique(segs: Seq<LineSegment>, p: Point, j1: int, j2: int)
    requires
        is_closest_segment(segs, p, j1),
        is_closest_segment(segs, p, j2),
    ensures
        j1 == j2,
{
    if j1 < j2 {
        assert(closer(segs, p, j2, j1));
        assert(!closer(segs, p, j2, j1));
    } else if j2 < j1 {
        assert(closer(segs, p, j1, j2));
        assert(!closer(segs, p, j1, j2));
    }
}

impl<C: Copy> Sled<C> {
    /// The LED index for parameter `tn / td` along segment `j`.
    fn alpha_to_index(&self, tn: i128, td: i128, j: usize) -> (r: usize)
        requires
            self.wf(),
            j < self.num_segments_spec(),
            0 <= tn <= td,
            0 < td <= 0x100_0000_0000,
        ensures
            r == param_index(self.layout(), j as int, tn as int, td as int),
            self.layout().offset(j as int) <= r < self.layout().offset(j as int + 1),
            r < self.num_leds_spec(),
    {
        let layout = self.layout_ref();
        proof {
            self.lemma_segment_bounds(j as int);
        }
        let (first, past) = layout.line_segment_endpoint_indices[j];
        let n = (past - first) as i128;
        proof {
            assert(tn * n <= td * n) by (nonlinear_arith)
                requires
                    0 <= tn <= td,
                    0 <= n,
            ;
            assert(td * n <= 0x100_0000_0000 * 0x100_0000) by (nonlinear_arith)
                requires
                    0 < td <= 0x100_0000_0000,
                    0 <= n <= 0x100_0000,
            ;
            assert(tn * n >= 0) by (nonlinear_arith)
                requires
                    0 <= tn,
                    0 <= n,
            ;
        }
        let k = tn * n / td;
        proof {
            let kk = k as int;
            vstd::arithmetic::div_mod::lemma_fundamental_div_mod(tn * n, td as int);
            assert(kk <= n) by (nonlinear_arith)
                requires
                    tn * n == td * kk + (tn * n) % (td as int),
                    0 <= (tn * n) % (td as int),
                    tn * n <= td * n,
                    0 < td,
            ;
            assert(kk >= 0) by (nonlinear_arith)
                requires
                    tn * n == td * kk + (tn * n) % (td as int),
                    (tn * n) % (td as int) < td,
                    tn * n >= 0,
                    0 < td,
            ;
        }
        let local = if k < n - 1 {
            k
        } else {
            n - 1
        };
        first + local as usize
    }

    /// The first segment, in layout order, that the ray from `start` along
    /// `dir` meets, with the parameter `tn / td` where it meets it.
    fn raycast(&self, start: Point, dir: Point) -> (r: Option<(usize, i64, i64)>)
        requires
            self.wf(),
            start.in_bounds(),
            dir.in_bounds(),
        ensures
            r.is_some() == first_ray_hit(self.layout().segs(), start, dir, 0).is_some(),
            r.is_some() ==> ({
                let (j, tn, td) = r.unwrap();
                &&& first_ray_hit(self.layout().segs(), start, dir, 0) == Some(j as int)
                &&& j < self.num_segments_spec()
                &&& self.layout().segs()[j as int].ray_hit(start, dir) == Some((tn as int, td as int))
                &&& 0 <= tn <= td
                &&& 0 < td <= 0x4_0000_0000
            }),
    {
        let layout = self.layout_ref();
        let ghost segs = self.layout().segs();
        let n = layout.line_segments.len();
        let mut j: usize = 0;
        while j < n
            invariant
                self.wf(),
                *layout == self.layout(),
                segs == layout.segs(),
                n == segs.len(),
                j <= n,
                first_ray_hit(segs, start, dir, 0) == first_ray_hit(segs, start, dir, j as int),
                start.in_bounds(),
                dir.in_bounds(),
            decreases n - j,
        {
            assert(segs[j as int].valid());
            match layout.line_segments[j].intersects_ray(start, dir) {
                Some((tn, td)) => {
                    return Some((j, tn, td));
                },
                None => {},
            }
            j = j + 1;
        }
        None
    }

    /// The LED index struck by the ray from `start` along `dir`, if any.
    fn raycast_for_index(&self, start: Point, dir: Point) -> (r: Option<usize>)
        requires
            self.wf(),
            start.in_bounds(),
            dir.in_bounds(),
        ensures
            r.is_some() == index_at_dir(self.layout(), start, dir).is_some(),
            r.is_some() ==> r.unwrap() == index_at_dir(self.layout(), start, dir).unwrap(),
            r.is_some() ==> r.unwrap() < self.num_leds_spec(),
    {
        match self.raycast(start, dir) {
            Some((j, tn, td)) => Some(self.alpha_to_index(tn as i128, td as i128, j)),
            None => None,
        }
    }

    /// Where the ray from `center_point` along `dir` strikes the layout, as
    /// in `hit_at_dir`: the LED at or just before the point struck, and its
    /// occupancy `occupancy_num / occupancy_den`, which is 1 when the ray
    /// lands on that LED and falls toward 0 as it lands nearer the next one.
    pub fn get_hit_at_dir_from(&self, center_point: Point, dir: Point) -> (r: Option<
        DirectionalHit,
    >)
        requires
            self.wf(),
            center_point.in_bounds(),
            dir.in_bounds(),
        ensures
            r.is_some() == index_at_dir(self.layout(), center_point, dir).is_some(),
            r.is_some() ==> ({
                let h = r.unwrap();
                (h.index as int, h.occupancy_num as int, h.occupancy_den as int) == hit_at_dir(
                    self.layout(),
                    center_point,
                    dir,
                )
            }),
            r.is_some() ==> r.unwrap().index < self.num_leds_spec(),
            r.is_some() ==> 0 < r.unwrap().occupancy_num <= r.unwrap().occupancy_den,
    {
        match self.raycast(center_point, dir) {
            Some((j, tn, td)) => {
                proof {
                    self.lemma_segment_bounds(j as int);
                }
                let (first, past) = self.layout_ref().line_segment_endpoint_indices[j];
                let gaps = (past - first - 1) as u64;
                proof {
                    assert(tn * gaps <= td * gaps) by (nonlinear_arith)
                        requires
                            0 <= tn <= td,
                            0 <= gaps,
                    ;
                    assert(td * gaps <= 0x4_0000_0000 * 0x100_0000) by (nonlinear_arith)
                        requires
                            0 < td <= 0x4_0000_0000,
                            0 <= gaps <= 0x100_0000,
                    ;
                    assert(tn * gaps >= 0) by (nonlinear_arith)
                        requires
                            0 <= tn,
                            0 <= gaps,
                    ;
                }
                let scaled = tn as u64 * gaps;
                let whole = scaled / (td as u64);
                let rem = scaled % (td as u64);
                proof {
                    let w = whole as int;
                    vstd::arithmetic::div_mod::lemma_fundamental_div_mod(scaled as int, td as int);
                    assert(w <= gaps) by (nonlinear_arith)
                        requires
                            scaled == td * w + rem,
                            0 <= rem,
                            scaled <= td * gaps,
                            0 < td,
                    ;
                }
                Some(
                    DirectionalHit {
                        index: first + whole as usize,
                        occupancy_num: td as u64 - rem,
                        occupancy_den: td as u64,
                    },
                )
            },
            None => None,
        }
    }

    /// The LED struck first by the ray from `center_point` along `dir`, if any.
    pub fn get_at_dir_from(&self, center_point: Point, dir: Point) -> (r: Option<Led<C>>)
        requires
            self.wf(),
            center_point.in_bounds(),
            dir.in_bounds(),
        ensures
            r == match index_at_dir(self.layout(), center_point, dir) {
                Some(i) => Some(self.led(i)),
                None => None::<Led<C>>,
            },
    {
        match self.raycast_for_index(center_point, dir) {
            Some(i) => Some(self.led_at(i)),
            None => None,
        }
    }

    /// The LED struck first by the ray from the center point along `dir`, if any.
    pub fn get_at_dir(&self, dir: Point) -> (r: Option<Led<C>>)
        requires
            self.wf(),
            dir.in_bounds(),
        ensures
            r == match index_at_dir(self.layout(), self.layout().center_point, dir) {
                Some(i) => Some(self.led(i)),
                None => None::<Led<C>>,
            },
    {
        self.get_at_dir_from(self.center_point(), dir)
    }

    /// Sets the LED struck first by the ray from the center point along
    /// `dir` to `color`; fails, changing nothing, when the ray strikes none.
    pub fn set_at_dir(&mut self, dir: Point, color: C) -> (r: Result<(), SledError>)
        requires
            old(self).wf(),
            dir.in_bounds(),
        ensures
            final(self).wf(),
            final(self).layout() == old(self).layout(),
            r.is_err() == index_at_dir(old(self).layout(), old(self).layout().center_point, dir).is_none(),
            r.is_err() ==> r == Err::<(), SledError>(SledError::NoLedInDirection),
            r.is_err() ==> final(self).colors() == old(self).colors(),
            r.is_ok() ==> final(self).colors() == old(self).colors().update(
                index_at_dir(old(self).layout(), old(self).layout().center_point, dir).unwrap(),
                color,
            ),
    {
        let center = self.center_point();
        match self.raycast_for_index(center, dir) {
            Some(i) => {
                let _ = self.set(i, color);
                Ok(())
            },
            None => Err(SledError::NoLedInDirection),
        }
    }

    /// The index of the LED closest to `pos`: on the first segment nearest to
    /// `pos`, the LED at the nearest point's parameter.
    pub fn get_index_of_closest_to(&self, pos: Point) -> (r: usize)
        requires
            self.wf(),
            pos.in_bounds(),
        ensures
            exists|j: int|
                is_closest_segment(self.layout().segs(), pos, j) && r == closest_on(
                    self.layout(),
                    pos,
                    j,
                ),
            r < self.num_leds_spec(),
    {
        let layout = self.layout_ref();
        let ghost segs = self.layout().segs();
        let n = layout.line_segments.len();
        assert(segs[0].valid());
        let (first_param, first_dist) = layout.line_segments[0].closest_to_point(pos);
        let mut best: usize = 0;
        let mut best_param: i128 = first_param;
        let mut best_dist: i128 = first_dist;
        let mut best_len: i128 = layout.line_segments[0].length_squared();
        let mut j: usize = 1;
        while j < n
            invariant
                self.wf(),
                *layout == self.layout(),
                segs == layout.segs(),
                n == segs.len(),
                pos.in_bounds(),
                1 <= j <= n,
                best < j,
                best_param == segs[best as int].closest_param(pos),
                best_dist == segs[best as int].scaled_dist2(pos),
                best_len == segs[best as int].len2(),
                0 < best_len <= 0x8_0000_0000,
                -0x200_0000_0000_0000_0000 <= best_dist <= 0x200_0000_0000_0000_0000,
                forall|k: int| 0 <= k < j ==> !#[trigger] closer(segs, pos, k, best as int),
                forall|k: int| 0 <= k < best ==> #[trigger] closer(segs, pos, best as int, k),
            decreases n - j,
        {
            let seg = &layout.line_segments[j];
            assert(segs[j as int].valid());
            let (pj, dj) = seg.closest_to_point(pos);
            let lj = seg.length_squared();
            proof {
                crate::geometry::lemma_mul_abs_bound(dj as int, best_len as int, 0x200_0000_0000_0000_0000, 0x8_0000_0000);
                crate::geometry::lemma_mul_abs_bound(best_dist as int, lj as int, 0x200_0000_0000_0000_0000, 0x8_0000_0000);
            }
            if dj * best_len < best_dist * lj {
                proof {
                    let b = best as int;
                    let jj = j as int;
                    assert forall|k: int| 0 <= k < jj + 1 implies !#[trigger] closer(segs, pos, k, jj) by {
                        assert(segs[k].valid());
                        segs[k].lemma_len2_positive();
                        segs[jj].lemma_len2_positive();
                        segs[b].lemma_len2_positive();
                        if k < jj && closer(segs, pos, k, jj) {
                            assert(!closer(segs, pos, k, b));
                            assert(closer(segs, pos, jj, b));
                            lemma_ratio_lt_le(
                                segs[k].scaled_dist2(pos), segs[k].len2(),
                                segs[jj].scaled_dist2(pos), segs[jj].len2(),
                                segs[b].scaled_dist2(pos), segs[b].len2(),
                            );
                            assert(segs[k].valid());
                        }
                    }
                    assert forall|k: int| 0 <= k < jj implies #[trigger] closer(segs, pos, jj, k) by {
                        assert(segs[k].valid());
                        segs[k].lemma_len2_positive();
                        segs[jj].lemma_len2_positive();
                        segs[b].lemma_len2_positive();
                        if k < b {
                            assert(closer(segs, pos, b, k));
                            lemma_ratio_lt_le(
                                segs[jj].scaled_dist2(pos), segs[jj].len2(),
                                segs[b].scaled_dist2(pos), segs[b].len2(),
                                segs[k].scaled_dist2(pos), segs[k].len2(),
                            );
                        } else if k > b {
                            assert(!closer(segs, pos, k, b));
                            lemma_ratio_lt_le(
                                segs[jj].scaled_dist2(pos), segs[jj].len2(),
                                segs[b].scaled_dist2(pos), segs[b].len2(),
                                segs[k].scaled_dist2(pos), segs[k].len2(),
                            );
                        }
                    }
                }
                best = j;
                best_param = pj;
                best_dist = dj;
                best_len = lj;
            }
            j = j + 1;
        }
        assert(is_closest_segment(segs, pos, best as int));
        assert(segs[best as int].valid());
        let r = self.alpha_to_index(best_param, best_len, best);
        assert(r == closest_on(self.layout(), pos, best as int));
        r
    }

    /// The LED closest to `pos`.
    pub fn get_closest_to(&self, pos: Point) -> (r: Led<C>)
        requires
            self.wf(),
            pos.in_bounds(),
        ensures
            exists|j: int|
                is_closest_segment(self.layout().segs(), pos, j) && r == self.led(
                    closest_on(self.layout(), pos, j),
                ),
    {
        let i = self.get_index_of_closest_to(pos);
        self.led_at(i)
    }

    /// Sets the LED closest to `pos` to `color`.
    pub fn set_closest_to(&mut self, pos: Point, color: C)
        requires
            old(self).wf(),
            pos.in_bounds(),
        ensures
            final(self).wf(),
            final(self).layout() == old(self).layout(),
            exists|j: int|
                is_closest_segment(old(self).layout().segs(), pos, j) && final(self).colors()
                    == old(self).colors().update(closest_on(old(self).layout(), pos, j), color),
    {
        let i = self.get_index_of_closest_to(pos);
        let _ = self.set(i, color);
    }
}

} // verus!
