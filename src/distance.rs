//! Distance queries: the LEDs where a circle around a point crosses the
//! layout, and the LEDs of the parts of segments inside its disk.
use vstd::prelude::*;

use crate::error::SledError;
use crate::filter::Filter;
use crate::geometry::Point;
use crate::layout::{Layout, Position, MAX_LEDS};
use crate::segment::{clamp_radius, effective_radius, RADIUS_LIMIT};
use crate::sled::{in_set, paint, Sled};

verus! {

/// The LED index on segment `j` for a parameter whose `floor(t * count)` is
/// `fl` (with `t` in `[0, 1]`), kept on the segment.
pub open spec fn root_index(l: Layout, j: int, fl: int) -> int {
    let n = l.segs()[j].led_count();
    l.offset(j) + if fl < n - 1 {
        fl
    } else {
        n - 1
    }
}

/// LED `i` is where the circle of radius `r` around `p` crosses segment `j`.
pub open spec fn at_dist_on(l: Layout, p: Point, r: int, j: int, i: int) -> bool {
    let seg = l.segs()[j];
    let n = seg.led_count();
    ||| seg.hi_on_segment(p, r) && i == root_index(l, j, seg.hi_floor(p, r, n))
    ||| seg.lo_on_segment(p, r) && i == root_index(l, j, seg.lo_floor(p, r, n))
}

/// The first LED, counted along segment `j`, of its part inside the disk.
pub open spec fn within_first(l: Layout, p: Point, r: int, j: int) -> int {
    let seg = l.segs()[j];
    let n = seg.led_count();
    let lo = seg.lo_floor(p, r, n);
    let lo0 = if lo < 0 {
        0
    } else {
        lo
    };
    if lo0 < n - 1 {
        lo0
    } else {
        n - 1
    }
}

/// The last LED, counted along segment `j`, of its part inside the disk.
pub open spec fn within_last(l: Layout, p: Point, r: int, j: int) -> int {
    let seg = l.segs()[j];
    let n = seg.led_count();
    let hi = seg.hi_floor(p, r, n);
    if hi < n - 1 {
        hi
    } else {
        n - 1
    }
}

/// LED `i` belongs to the part of segment `j` inside the closed disk of
/// radius `r` around `p`.
pub open spec fn within_dist_on(l: Layout, p: Point, r: int, j: int, i: int) -> bool {
    &&& l.segs()[j].overlaps(p, r)
    &&& l.offset(j) + within_first(l, p, r, j) <= i <= l.offset(j) + within_last(l, p, r, j)
}

/// An LED at `pos` lies strictly closer to `p` than `r`.
pub open spec fn led_closer_than(pos: Position, p: Point, r: int) -> bool {
    let dx = pos.x - p.x * pos.scale;
    let dy = pos.y - p.y * pos.scale;
    dx * dx + dy * dy < r * r * (pos.scale * pos.scale)
}

/// The LEDs at distance `r` from `p`.
pub open spec fn at_dist_sel(l: Layout, p: Point, r: int) -> spec_fn(int) -> bool {
    |i: int| exists|j: int| 0 <= j < l.num_segs() && #[trigger] at_dist_on(l, p, r, j, i)
}

/// The LEDs within distance `r` of `p`.
pub open spec fn within_dist_sel(l: Layout, p: Point, r: int) -> spec_fn(int) -> bool {
    |i: int| exists|j: int| 0 <= j < l.num_segs() && #[trigger] within_dist_on(l, p, r, j, i)
}

impl<C: Copy> Sled<C> {
    /// The LEDs where the circle of radius `dist` around `pos` crosses the
    /// layout. A radius past `RADIUS_LIMIT` is taken as the limit
    /// (`effective_radius`), which no two points of the plane are apart.
    pub fn get_at_dist_from(&self, pos: Point, dist: i64) -> (r: Filter)
        requires
            self.wf(),
            pos.in_bounds(),
            0 <= dist,
        ensures
            r.wf(),
            forall|i: usize| #[trigger]
                r@.contains(i) <==> at_dist_sel(self.layout(), pos, effective_radius(dist as int))(i as int),
            forall|i: usize| #[trigger] r@.contains(i) ==> i < self.num_leds_spec(),
    {
        let dist = clamp_radius(dist);
        let layout = self.layout_ref();
        let ghost l = self.layout();
        let nseg = layout.line_segments.len();
        let mut f = Filter::new();
        let mut j: usize = 0;
        while j < nseg
            invariant
                self.wf(),
                *layout == l,
                l == self.layout(),
                nseg == l.num_segs(),
                pos.in_bounds(),
                0 <= dist <= RADIUS_LIMIT,
                j <= nseg,
                f.wf(),
                forall|i: usize| #[trigger] f@.contains(i) ==> i < self.num_leds_spec(),
                forall|i: usize|
                    #[trigger] f@.contains(i) <==> exists|k: int|
                        0 <= k < j && #[trigger] at_dist_on(l, pos, dist as int, k, i as int),
            decreases nseg - j,
        {
            proof {
                self.lemma_segment_bounds(j as int);
            }
            let seg = layout.line_segments[j];
            assert(l.segs()[j as int].valid());
            let (first, past) = layout.line_segment_endpoint_indices[j];
            let n = past - first;
            let ghost fbefore = f@;
            match seg.circle_cut(pos, dist, n as u64) {
                Some(cut) => {
                    if cut.hi_on_segment {
                        proof {
                            seg.lemma_hi_floor_bounds(pos, dist as int, n as int);
                        }
                        let k = if cut.hi < (n - 1) as i128 {
                            cut.hi as usize
                        } else {
                            n - 1
                        };
                        f.insert(first + k);
                    }
                    if cut.lo_on_segment {
                        proof {
                            seg.lemma_lo_floor_bounds(pos, dist as int, n as int);
                        }
                        let k = if cut.lo < (n - 1) as i128 {
                            cut.lo as usize
                        } else {
                            n - 1
                        };
                        f.insert(first + k);
                    }
                },
                None => {},
            }
            proof {
                assert forall|i: usize| #[trigger] f@.contains(i) <==> exists|k: int|
                    0 <= k < j + 1 && #[trigger] at_dist_on(l, pos, dist as int, k, i as int) by {
                    if at_dist_on(l, pos, dist as int, j as int, i as int) {
                        assert(f@.contains(i));
                    }
                    if f@.contains(i) && !fbefore.contains(i) {
                        assert(at_dist_on(l, pos, dist as int, j as int, i as int));
                    }
                }
            }
            j = j + 1;
        }
        f
    }

    /// The LEDs of the parts of segments inside the closed disk of radius
    /// `dist` around `pos`, a radius past `RADIUS_LIMIT` being taken as the
    /// limit (`effective_radius`).
    pub fn get_within_dist_from(&self, pos: Point, dist: i64) -> (r: Filter)
        requires
            self.wf(),
            pos.in_bounds(),
            0 <= dist,
        ensures
            r.wf(),
            forall|i: usize| #[trigger]
                r@.contains(i) <==> within_dist_sel(self.layout(), pos, effective_radius(dist as int))(i as int),
            forall|i: usize| #[trigger] r@.contains(i) ==> i < self.num_leds_spec(),
    {
        let dist = clamp_radius(dist);
        let layout = self.layout_ref();
        let ghost l = self.layout();
        let nseg = layout.line_segments.len();
        let mut f = Filter::new();
        let mut j: usize = 0;
        while j < nseg
            invariant
                self.wf(),
                *layout == l,
                l == self.layout(),
                nseg == l.num_segs(),
                pos.in_bounds(),
                0 <= dist <= RADIUS_LIMIT,
                j <= nseg,
                f.wf(),
                forall|i: usize| #[trigger] f@.contains(i) ==> i < self.num_leds_spec(),
                forall|i: usize|
                    #[trigger] f@.contains(i) <==> exists|k: int|
                        0 <= k < j && #[trigger] within_dist_on(l, pos, dist as int, k, i as int),
            decreases nseg - j,
        {
            proof {
                self.lemma_segment_bounds(j as int);
            }
            let seg = layout.line_segments[j];
            assert(l.segs()[j as int].valid());
            let (first, past) = layout.line_segment_endpoint_indices[j];
            let n = past - first;
            let ghost fbefore = f@;
            match seg.circle_cut(pos, dist, n as u64) {
                Some(cut) => {
                    if cut.overlaps {
                        let lo0: i128 = if cut.lo < 0 {
                            0
                        } else {
                            cut.lo
                        };
                        let a: usize = if lo0 < (n - 1) as i128 {
                            lo0 as usize
                        } else {
                            n - 1
                        };
                        let b: i128 = if cut.hi < (n - 1) as i128 {
                            cut.hi
                        } else {
                            (n - 1) as i128
                        };
                        let mut k: usize = a;
                        while (k as i128) <= b
                            invariant
                                self.wf(),
                                l == self.layout(),
                                j < nseg,
                                nseg == l.num_segs(),
                                first == l.offset(j as int),
                                first + n <= self.num_leds_spec(),
                                self.num_leds_spec() <= MAX_LEDS,
                                a <= k,
                                k <= b + 1 || k == a,
                                b < n,
                                a == within_first(l, pos, dist as int, j as int),
                                b == within_last(l, pos, dist as int, j as int),
                                l.segs()[j as int].overlaps(pos, dist as int),
                                f.wf(),
                                forall|i: usize| #[trigger] f@.contains(i) ==> i < self.num_leds_spec(),
                                forall|i: usize|
                                    #[trigger] f@.contains(i) <==> (fbefore.contains(i) || (first + a
                                        <= i && i < first + k)),
                            decreases b + 1 - k,
                        {
                            f.insert(first + k);
                            k = k + 1;
                        }
                    }
                },
                None => {},
            }
            proof {
                assert forall|i: usize| #[trigger] f@.contains(i) <==> exists|k: int|
                    0 <= k < j + 1 && #[trigger] within_dist_on(l, pos, dist as int, k, i as int) by {
                    if within_dist_on(l, pos, dist as int, j as int, i as int) {
                        assert(f@.contains(i));
                    }
                    if f@.contains(i) && !fbefore.contains(i) {
                        assert(within_dist_on(l, pos, dist as int, j as int, i as int));
                    }
                }
            }
            j = j + 1;
        }
        f
    }
}

impl<C: Copy> Sled<C> {
    /// Every LED a distance query selects is an LED of the layout.
    pub proof fn lemma_dist_sel_bounds(self, p: Point, r: int)
        requires
            self.wf(),
        ensures
            forall|i: int|
                #[trigger] at_dist_sel(self.layout(), p, r)(i) ==> 0 <= i < self.num_leds_spec(),
            forall|i: int|
                #[trigger] within_dist_sel(self.layout(), p, r)(i) ==> 0 <= i
                    < self.num_leds_spec(),
    {
        let l = self.layout();
        assert forall|i: int| #[trigger] at_dist_sel(l, p, r)(i) implies 0 <= i
            < self.num_leds_spec() by {
            let j = choose|j: int| 0 <= j < l.num_segs() && #[trigger] at_dist_on(l, p, r, j, i);
            self.lemma_segment_bounds(j);
            let seg = l.segs()[j];
            assert(seg.valid());
            if seg.hi_on_segment(p, r) {
                seg.lemma_hi_floor_bounds(p, r, seg.led_count());
            }
            if seg.lo_on_segment(p, r) {
                seg.lemma_lo_floor_bounds(p, r, seg.led_count());
            }
        }
        assert forall|i: int| #[trigger] within_dist_sel(l, p, r)(i) implies 0 <= i
            < self.num_leds_spec() by {
            let j = choose|j: int|
                0 <= j < l.num_segs() && #[trigger] within_dist_on(l, p, r, j, i);
            self.lemma_segment_bounds(j);
        }
    }

    /// Paints the LEDs of `f`, which are those `sel` picks; fails, changing
    /// nothing, when there are none.
    fn paint_selection(
        &mut self,
        f: &Filter,
        color: C,
        sel: Ghost<spec_fn(int) -> bool>,
        err: SledError,
    ) -> (r: Result<(), SledError>)
        requires
            old(self).wf(),
            forall|i: usize| #[trigger] f@.contains(i) <==> sel@(i as int),
            forall|i: int| #[trigger] sel@(i) ==> 0 <= i < old(self).num_leds_spec(),
        ensures
            final(self).wf(),
            final(self).layout() == old(self).layout(),
            r.is_err() == (forall|i: int| !#[trigger] sel@(i)),
            r.is_err() ==> r == Err::<(), SledError>(err),
            r.is_err() ==> final(self).colors() == old(self).colors(),
            r.is_ok() ==> final(self).colors() == paint(old(self).colors(), sel@, color),
    {
        proof {
            assert forall|i: int| #[trigger] in_set(f@)(i) == sel@(i) by {
                if 0 <= i <= usize::MAX {
                    assert(f@.contains(i as usize) == sel@(i));
                }
                if sel@(i) {
                    assert(i < MAX_LEDS);
                }
            }
            assert(in_set(f@) =~= sel@);
        }
        if f.is_empty() {
            proof {
                assert forall|i: int| !#[trigger] sel@(i) by {
                    if sel@(i) {
                        assert(f@.contains(i as usize));
                    }
                }
            }
            return Err(err);
        }
        proof {
            if forall|i: int| !#[trigger] sel@(i) {
                assert forall|i: usize| !#[trigger] f@.contains(i) by {
                    assert(!sel@(i as int));
                }
                assert(f@ =~= Set::<usize>::empty());
            }
        }
        self.set_filter(f, color);
        Ok(())
    }

    /// The LEDs where the circle of radius `dist` around the center point crosses the layout.
    pub fn get_at_dist(&self, dist: i64) -> (r: Filter)
        requires
            self.wf(),
            0 <= dist,
        ensures
            r.wf(),
            forall|i: usize| #[trigger]
                r@.contains(i) <==> at_dist_sel(
                    self.layout(),
                    self.layout().center_point,
                    effective_radius(dist as int),
                )(i as int),
    {
        self.get_at_dist_from(self.center_point(), dist)
    }

    /// Sets the LEDs at distance `dist` from `pos` to `color`; fails,
    /// changing nothing, when there are none.
    pub fn set_at_dist_from(&mut self, pos: Point, dist: i64, color: C) -> (r: Result<(), SledError>)
        requires
            old(self).wf(),
            pos.in_bounds(),
            0 <= dist,
        ensures
            final(self).wf(),
            final(self).layout() == old(self).layout(),
            r.is_err() == (forall|i: int|
                !#[trigger] at_dist_sel(old(self).layout(), pos, effective_radius(dist as int))(i)),
            r.is_err() ==> r == Err::<(), SledError>(SledError::NoLedsAtDistance),
            r.is_err() ==> final(self).colors() == old(self).colors(),
            r.is_ok() ==> final(self).colors() == paint(
                old(self).colors(),
                at_dist_sel(old(self).layout(), pos, effective_radius(dist as int)),
                color,
            ),
    {
        let f = self.get_at_dist_from(pos, dist);
        proof {
            self.lemma_dist_sel_bounds(pos, effective_radius(dist as int));
        }
        self.paint_selection(
            &f,
            color,
            Ghost(at_dist_sel(self.layout(), pos, effective_radius(dist as int))),
            SledError::NoLedsAtDistance,
        )
    }

    /// Sets the LEDs at distance `dist` from the center point to `color`;
    /// fails, changing nothing, when there are none.
    pub fn set_at_dist(&mut self, dist: i64, color: C) -> (r: Result<(), SledError>)
        requires
            old(self).wf(),
            0 <= dist,
        ensures
            final(self).wf(),
            final(self).layout() == old(self).layout(),
            r.is_err() == (forall|i: int|
                !#[trigger] at_dist_sel(
                    old(self).layout(),
                    old(self).layout().center_point,
                    effective_radius(dist as int),
                )(i)),
            r.is_err() ==> r == Err::<(), SledError>(SledError::NoLedsAtDistance),
            r.is_err() ==> final(self).colors() == old(self).colors(),
            r.is_ok() ==> final(self).colors() == paint(
                old(self).colors(),
                at_dist_sel(old(self).layout(), old(self).layout().center_point, effective_radius(dist as int)),
                color,
            ),
    {
        let center = self.center_point();
        self.set_at_dist_from(center, dist, color)
    }

    /// The LEDs within distance `dist` of the center point.
    pub fn get_within_dist(&self, dist: i64) -> (r: Filter)
        requires
            self.wf(),
            0 <= dist,
        ensures
            r.wf(),
            forall|i: usize| #[trigger]
                r@.contains(i) <==> within_dist_sel(
                    self.layout(),
                    self.layout().center_point,
                    effective_radius(dist as int),
                )(i as int),
    {
        self.get_within_dist_from(self.center_point(), dist)
    }

    /// Sets the LEDs within distance `dist` of `pos` to `color`; fails,
    /// changing nothing, when there are none.
    pub fn set_within_dist_from(&mut self, pos: Point, dist: i64, color: C) -> (r: Result<
        (),
        SledError,
    >)
        requires
            old(self).wf(),
            pos.in_bounds(),
            0 <= dist,
        ensures
            final(self).wf(),
            final(self).layout() == old(self).layout(),
            r.is_err() == (forall|i: int|
                !#[trigger] within_dist_sel(old(self).layout(), pos, effective_radius(dist as int))(i)),
            r.is_err() ==> r == Err::<(), SledError>(SledError::NoLedsWithinDistance),
            r.is_err() ==> final(self).colors() == old(self).colors(),
            r.is_ok() ==> final(self).colors() == paint(
                old(self).colors(),
                within_dist_sel(old(self).layout(), pos, effective_radius(dist as int)),
                color,
            ),
    {
        let f = self.get_within_dist_from(pos, dist);
        proof {
            self.lemma_dist_sel_bounds(pos, effective_radius(dist as int));
        }
        self.paint_selection(
            &f,
            color,
            Ghost(within_dist_sel(self.layout(), pos, effective_radius(dist as int))),
            SledError::NoLedsWithinDistance,
        )
    }

    /// Sets the LEDs within distance `dist` of the center point to `color`;
    /// fails, changing nothing, when there are none.
    pub fn set_within_dist(&mut self, dist: i64, color: C) -> (r: Result<(), SledError>)
        requires
            old(self).wf(),
            0 <= dist,
        ensures
            final(self).wf(),
            final(self).layout() == old(self).layout(),
            r.is_err() == (forall|i: int|
                !#[trigger] within_dist_sel(
                    old(self).layout(),
                    old(self).layout().center_point,
                    effective_radius(dist as int),
                )(i)),
            r.is_err() ==> r == Err::<(), SledError>(SledError::NoLedsWithinDistance),
            r.is_err() ==> final(self).colors() == old(self).colors(),
            r.is_ok() ==> final(self).colors() == paint(
                old(self).colors(),
                within_dist_sel(old(self).layout(), old(self).layout().center_point, effective_radius(dist as int)),
                color,
            ),
    {
        let center = self.center_point();
        self.set_within_dist_from(center, dist, color)
    }
}

} // verus!
