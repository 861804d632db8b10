//! The spatial LED model: a built layout plus one color per LED, with
//! reads and writes by index, range, segment, vertex and filter.
use vstd::prelude::*;

use crate::config::Config;
use crate::error::SledError;
use crate::filter::Filter;
use crate::geometry::Point;
use crate::layout::{
    config_error, lemma_offset_monotone, lemma_vertices_in_range, Layout, LedInfo,
    Position, MAX_LEDS,
};
use std::ops::Range;

verus! {

/// An LED as handed out by the model: its fixed data and its current color.
#[derive(Clone, Copy, Debug, PartialEq, Eq, Structural)]
pub struct Led<C> {
    pub color: C,
    /// Its place in the LED buffer.
    pub index: usize,
    /// The segment it belongs to.
    pub segment: usize,
    /// Where it sits.
    pub position: Position,
    /// Its offset from the center point, at the scale of `position`.
    pub direction: Position,
}

/// The LED with fixed data `info` and color `color`.
pub open spec fn led_of<C>(info: LedInfo, color: C) -> Led<C> {
    Led {
        color,
        index: info.index,
        segment: info.segment,
        position: info.position,
        direction: info.direction,
    }
}

/// `colors` with every index that `sel` picks set to `c`.
pub open spec fn paint<C>(colors: Seq<C>, sel: spec_fn(int) -> bool, c: C) -> Seq<C> {
    Seq::new(colors.len(), |i: int| if sel(i) { c } else { colors[i] })
}

/// Picks the indices `start..end`.
pub open spec fn in_range(start: int, end: int) -> spec_fn(int) -> bool {
    |i: int| start <= i < end
}

/// Picks the members of a filter.
pub open spec fn in_set(s: Set<usize>) -> spec_fn(int) -> bool {
    |i: int| 0 <= i <= usize::MAX && s.contains(i as usize)
}

/// A collection of LEDs handed out for reading.
pub trait CollectionOfLeds {}

/// A collection of LEDs handed out for writing.
pub trait CollectionOfLedsMut {}

impl<C> CollectionOfLeds for Vec<Led<C>> {}

impl<'a, C> CollectionOfLedsMut for Vec<&'a mut Led<C>> {}

/// A set of LEDs in a plane, laid out along line segments, each with a color.
pub struct Sled<C> {
    layout: Layout,
    colors: Vec<C>,
}

impl<C: Copy> Sled<C> {
    /// The fixed part: segments, LED positions and lookup tables.
    pub closed spec fn layout(self) -> Layout {
        self.layout
    }

    /// The color of each LED, by index.
    pub closed spec fn colors(self) -> Seq<C> {
        self.colors@
    }

    pub open spec fn wf(self) -> bool {
        self.layout().wf() && self.colors().len() == self.layout().leds@.len()
    }

    pub open spec fn num_leds_spec(self) -> int {
        self.layout().leds@.len() as int
    }

    pub open spec fn num_segments_spec(self) -> int {
        self.layout().num_segs()
    }

    pub open spec fn num_vertices_spec(self) -> int {
        self.layout().vertex_indices@.len() as int
    }

    /// LED `i` as the model hands it out.
    pub open spec fn led(self, i: int) -> Led<C> {
        led_of(self.layout().leds@[i], self.colors()[i])
    }

    /// The first LED of segment `s` and one past its last.
    pub open spec fn segment_bounds(self, s: int) -> (int, int) {
        (self.layout().offset(s), self.layout().offset(s + 1))
    }

    /// The LED index of vertex `v`.
    pub open spec fn vertex_led(self, v: int) -> int {
        self.layout().vertex_indices@[v] as int
    }

    /// Builds the model that `config` describes, every LED showing `color`.
    pub fn new(config: &Config, color: C) -> (r: Result<Sled<C>, SledError>)
        ensures
            r.is_err() == config_error(*config).is_some(),
            r.is_err() ==> r == Err::<Sled<C>, SledError>(config_error(*config).unwrap()),
            r.is_ok() ==> ({
                let s = r.unwrap();
                &&& s.wf()
                &&& s.layout().segs() == config.segments()
                &&& s.layout().center_point == config.center_point
                &&& s.colors() == Seq::new(s.num_leds_spec() as nat, |i: int| color)
            }),
    {
        let layout = match Layout::new(config) {
            Ok(l) => l,
            Err(e) => {
                return Err(e);
            },
        };
        let n = layout.leds.len();
        let mut colors: Vec<C> = Vec::new();
        let mut i: usize = 0;
        while i < n
            invariant
                i <= n,
                colors@.len() == i,
                forall|j: int| 0 <= j < i ==> #[trigger] colors@[j] == color,
            decreases n - i,
        {
            colors.push(color);
            i = i + 1;
        }
        let r = Sled { layout, colors };
        assert(r.colors() =~= Seq::new(n as nat, |i: int| color));
        Ok(r)
    }

    pub proof fn lemma_segment_bounds(self, s: int)
        requires
            self.wf(),
            0 <= s < self.num_segments_spec(),
        ensures
            0 <= self.segment_bounds(s).0 < self.segment_bounds(s).1 <= self.num_leds_spec(),
            self.segment_bounds(s).1 - self.segment_bounds(s).0 == self.layout().segs()[s].led_count(),
    {
        let segs = self.layout().segs();
        lemma_offset_monotone(segs, 0, s);
        lemma_offset_monotone(segs, s + 1, segs.len() as int);
    }

    /// The fixed part, for reading.
    pub fn layout_ref(&self) -> (r: &Layout)
        ensures
            *r == self.layout(),
    {
        &self.layout
    }

    pub fn center_point(&self) -> (r: Point)
        ensures
            r == self.layout().center_point,
    {
        self.layout.center_point
    }

    pub fn num_leds(&self) -> (r: usize)
        ensures
            r == self.num_leds_spec(),
    {
        self.layout.leds.len()
    }

    pub fn num_segments(&self) -> (r: usize)
        ensures
            r == self.num_segments_spec(),
    {
        self.layout.line_segments.len()
    }

    pub fn num_vertices(&self) -> (r: usize)
        ensures
            r == self.num_vertices_spec(),
    {
        self.layout.vertex_indices.len()
    }

    /// Every LED, in index order.
    pub fn read(&self) -> (r: Vec<Led<C>>)
        requires
            self.wf(),
        ensures
            r@.len() == self.num_leds_spec(),
            forall|i: int| 0 <= i < r@.len() ==> #[trigger] r@[i] == self.led(i),
    {
        let mut r: Vec<Led<C>> = Vec::new();
        let mut i: usize = 0;
        while i < self.layout.leds.len()
            invariant
                self.wf(),
                i <= self.num_leds_spec(),
                r@.len() == i,
                forall|j: int| 0 <= j < i ==> #[trigger] r@[j] == self.led(j),
            decreases self.num_leds_spec() - i,
        {
            r.push(self.led_at(i));
            i = i + 1;
        }
        r
    }

    /// Every LED's color, in index order.
    pub fn read_colors(&self) -> (r: Vec<C>)
        ensures
            r@ == self.colors(),
    {
        let mut r: Vec<C> = Vec::new();
        let mut i: usize = 0;
        while i < self.colors.len()
            invariant
                i <= self.colors@.len(),
                r@ == self.colors@.subrange(0, i as int),
            decreases self.colors@.len() - i,
        {
            r.push(self.colors[i]);
            i = i + 1;
            assert(r@ =~= self.colors@.subrange(0, i as int));
        }
        assert(r@ =~= self.colors@);
        r
    }

    pub(crate) fn led_at(&self, i: usize) -> (r: Led<C>)
        requires
            self.wf(),
            i < self.num_leds_spec(),
        ensures
            r == self.led(i as int),
    {
        let info = self.layout.leds[i];
        Led {
            color: self.colors[i],
            index: info.index,
            segment: info.segment,
            position: info.position,
            direction: info.direction,
        }
    }

    /// LED `index`, if there is one.
    pub fn get(&self, index: usize) -> (r: Option<Led<C>>)
        requires
            self.wf(),
        ensures
            r == if index < self.num_leds_spec() {
                Some(self.led(index as int))
            } else {
                None::<Led<C>>
            },
    {
        if index < self.layout.leds.len() {
            Some(self.led_at(index))
        } else {
            None
        }
    }

    /// The color of LED `index`, for writing in place, if there is such an LED.
    pub fn get_mut(&mut self, index: usize) -> (r: Option<&mut C>)
        requires
            old(self).wf(),
        ensures
            r.is_some() == (index < old(self).num_leds_spec()),
            r.is_none() ==> *final(self) == *old(self),
            r.is_some() ==> *r.unwrap() == old(self).colors()[index as int],
            r.is_some() ==> final(self).layout() == old(self).layout(),
            r.is_some() ==> final(self).colors() == old(self).colors().update(
                index as int,
                *final(r.unwrap()),
            ),
    {
        if index < self.colors.len() {
            Some(&mut self.colors[index])
        } else {
            None
        }
    }

    /// Sets LED `index` to `color`; fails, changing nothing, when there is no such LED.
    pub fn set(&mut self, index: usize, color: C) -> (r: Result<(), SledError>)
        requires
            old(self).wf(),
        ensures
            final(self).wf(),
            final(self).layout() == old(self).layout(),
            r.is_err() == (index >= old(self).num_leds_spec()),
            r.is_err() ==> r == Err::<(), SledError>(SledError::LedOutOfRange(index)),
            r.is_err() ==> final(self).colors() == old(self).colors(),
            r.is_ok() ==> final(self).colors() == old(self).colors().update(index as int, color),
    {
        if index < self.colors.len() {
            self.colors.set(index, color);
            Ok(())
        } else {
            Err(SledError::LedOutOfRange(index))
        }
    }

    /// Sets every LED to `color`.
    pub fn set_all(&mut self, color: C)
        requires
            old(self).wf(),
        ensures
            final(self).wf(),
            final(self).layout() == old(self).layout(),
            final(self).colors() == Seq::new(old(self).colors().len(), |i: int| color),
    {
        let n = self.colors.len();
        self.paint_range(0, n, color);
        assert(self.colors() =~= Seq::new(old(self).colors().len(), |i: int| color));
    }

    /// Sets the LEDs `start..end` to `color`.
    fn paint_range(&mut self, start: usize, end: usize, color: C)
        requires
            old(self).wf(),
            start <= end <= old(self).num_leds_spec(),
        ensures
            final(self).wf(),
            final(self).layout() == old(self).layout(),
            final(self).colors() == paint(old(self).colors(), in_range(start as int, end as int), color),
    {
        let mut i: usize = start;
        while i < end
            invariant
                self.wf(),
                self.layout() == old(self).layout(),
                start <= i <= end <= self.num_leds_spec(),
                self.colors() == paint(old(self).colors(), in_range(start as int, i as int), color),
            decreases end - i,
        {
            self.colors.set(i, color);
            i = i + 1;
            assert(self.colors() =~= paint(old(self).colors(), in_range(start as int, i as int), color));
        }
    }

    /// The LEDs `start..end`; `None` when the range is malformed or leaves the buffer.
    pub fn get_range(&self, index_range: Range<usize>) -> (r: Option<Vec<Led<C>>>)
        requires
            self.wf(),
        ensures
            ({
                let start = index_range.start;
                let end = index_range.end;
                &&& r.is_some() == (start <= end <= self.num_leds_spec())
                &&& r.is_some() ==> r.unwrap()@.len() == end - start
                &&& r.is_some() ==> forall|i: int|
                    0 <= i < end - start ==> #[trigger] r.unwrap()@[i] == self.led(start + i)
            }),
    {
        let start = index_range.start;
        let end = index_range.end;
        self.leds_between(start, end)
    }

    fn leds_between(&self, start: usize, end: usize) -> (r: Option<Vec<Led<C>>>)
        requires
            self.wf(),
        ensures
            r.is_some() == (start <= end <= self.num_leds_spec()),
            r.is_some() ==> r.unwrap()@.len() == end - start,
            r.is_some() ==> forall|i: int|
                0 <= i < end - start ==> #[trigger] r.unwrap()@[i] == self.led(start + i),
    {
        if start > end || end > self.layout.leds.len() {
            return None;
        }
        let mut r: Vec<Led<C>> = Vec::new();
        let mut i: usize = start;
        while i < end
            invariant
                self.wf(),
                start <= i <= end <= self.num_leds_spec(),
                r@.len() == i - start,
                forall|j: int| 0 <= j < i - start ==> #[trigger] r@[j] == self.led(start + j),
            decreases end - i,
        {
            r.push(self.led_at(i));
            i = i + 1;
        }
        Some(r)
    }

    /// Sets the LEDs `start..end` to `color`; fails, changing nothing, when
    /// the range is malformed or leaves the buffer.
    pub fn set_range(&mut self, index_range: Range<usize>, color: C) -> (r: Result<(), SledError>)
        requires
            old(self).wf(),
        ensures
            final(self).wf(),
            final(self).layout() == old(self).layout(),
            r.is_err() == !(index_range.start <= index_range.end <= old(self).num_leds_spec()),
            r.is_err() ==> r == Err::<(), SledError>(
                SledError::InvalidRange(index_range.start, index_range.end),
            ),
            r.is_err() ==> final(self).colors() == old(self).colors(),
            r.is_ok() ==> final(self).colors() == paint(
                old(self).colors(),
                in_range(index_range.start as int, index_range.end as int),
                color,
            ),
    {
        let start = index_range.start;
        let end = index_range.end;
        if start > end || end > self.colors.len() {
            return Err(SledError::InvalidRange(start, end));
        }
        self.paint_range(start, end, color);
        Ok(())
    }
}

/// Segment-based reads and writes.
impl<C: Copy> Sled<C> {
    /// The LEDs of segment `segment_index`, if it exists.
    pub fn get_segment(&self, segment_index: usize) -> (r: Option<Vec<Led<C>>>)
        requires
            self.wf(),
        ensures
            r.is_some() == (segment_index < self.num_segments_spec()),
            r.is_some() ==> ({
                let (a, b) = self.segment_bounds(segment_index as int);
                &&& r.unwrap()@.len() == b - a
                &&& forall|i: int| 0 <= i < b - a ==> #[trigger] r.unwrap()@[i] == self.led(a + i)
            }),
    {
        if segment_index >= self.layout.line_segment_endpoint_indices.len() {
            return None;
        }
        proof {
            self.lemma_segment_bounds(segment_index as int);
        }
        let (start, end) = self.layout.line_segment_endpoint_indices[segment_index];
        self.leds_between(start, end)
    }

    /// The LEDs of segment `segment_index` as a filter, if the segment exists.
    pub fn segment(&self, segment_index: usize) -> (r: Option<Filter>)
        requires
            self.wf(),
        ensures
            r.is_some() == (segment_index < self.num_segments_spec()),
            r.is_some() ==> r.unwrap().wf() && forall|i: usize| #[trigger]
                r.unwrap()@.contains(i) <==> self.segment_bounds(segment_index as int).0 <= i
                    < self.segment_bounds(segment_index as int).1,
    {
        if segment_index >= self.layout.line_segment_endpoint_indices.len() {
            return None;
        }
        proof {
            self.lemma_segment_bounds(segment_index as int);
        }
        let (start, end) = self.layout.line_segment_endpoint_indices[segment_index];
        Some(Filter::from_range(start, end))
    }

    /// Sets every LED of segment `segment_index` to `color`; fails, changing
    /// nothing, when there is no such segment.
    pub fn set_segment(&mut self, segment_index: usize, color: C) -> (r: Result<(), SledError>)
        requires
            old(self).wf(),
        ensures
            final(self).wf(),
            final(self).layout() == old(self).layout(),
            r.is_err() == (segment_index >= old(self).num_segments_spec()),
            r.is_err() ==> r == Err::<(), SledError>(SledError::SegmentOutOfRange(segment_index)),
            r.is_err() ==> final(self).colors() == old(self).colors(),
            r.is_ok() ==> final(self).colors() == paint(
                old(self).colors(),
                in_range(
                    old(self).segment_bounds(segment_index as int).0,
                    old(self).segment_bounds(segment_index as int).1,
                ),
                color,
            ),
    {
        if segment_index >= self.layout.line_segment_endpoint_indices.len() {
            return Err(SledError::SegmentOutOfRange(segment_index));
        }
        proof {
            self.lemma_segment_bounds(segment_index as int);
        }
        let (start, end) = self.layout.line_segment_endpoint_indices[segment_index];
        self.paint_range(start, end, color);
        Ok(())
    }

    /// The first LED of segment `first` and one past the last LED of segment
    /// `past - 1`: the LEDs of segments `first..past`.
    pub open spec fn segments_bounds(self, first: int, past: int) -> (int, int) {
        (self.layout().offset(first), self.layout().offset(past))
    }

    fn segment_range_leds(&self, first: usize, past: usize) -> (r: (usize, usize))
        requires
            self.wf(),
            first <= past <= self.num_segments_spec(),
        ensures
            r.0 == self.segments_bounds(first as int, past as int).0,
            r.1 == self.segments_bounds(first as int, past as int).1,
            r.0 <= r.1 <= self.num_leds_spec(),
    {
        let segs = &self.layout.line_segment_endpoint_indices;
        let n = self.layout.leds.len();
        proof {
            lemma_offset_monotone(self.layout().segs(), 0, first as int);
            lemma_offset_monotone(self.layout().segs(), first as int, past as int);
            lemma_offset_monotone(self.layout().segs(), past as int, self.num_segments_spec());
        }
        let a = if first < segs.len() {
            segs[first].0
        } else {
            n
        };
        let b = if past < segs.len() {
            segs[past].0
        } else {
            n
        };
        (a, b)
    }

    /// The LEDs of segments `range.start..range.end`; `None` when the range
    /// is malformed, starts at no segment, or passes the last one.
    pub fn get_segments(&self, range: Range<usize>) -> (r: Option<Vec<Led<C>>>)
        requires
            self.wf(),
        ensures
            r.is_some() == (range.start < self.num_segments_spec() && range.start <= range.end
                <= self.num_segments_spec()),
            r.is_some() ==> ({
                let (a, b) = self.segments_bounds(range.start as int, range.end as int);
                &&& r.unwrap()@.len() == b - a
                &&& forall|i: int| 0 <= i < b - a ==> #[trigger] r.unwrap()@[i] == self.led(a + i)
            }),
    {
        if range.start >= self.layout.line_segments.len() || range.start > range.end || range.end
            > self.layout.line_segments.len() {
            return None;
        }
        let (a, b) = self.segment_range_leds(range.start, range.end);
        self.leds_between(a, b)
    }

    /// The LEDs of segments `range.start..range.end` as a filter; `None` when
    /// the range is malformed, starts at no segment, or passes the last one.
    pub fn segments(&self, range: Range<usize>) -> (r: Option<Filter>)
        requires
            self.wf(),
        ensures
            r.is_some() == (range.start < self.num_segments_spec() && range.start <= range.end
                <= self.num_segments_spec()),
            r.is_some() ==> r.unwrap().wf() && forall|i: usize| #[trigger]
                r.unwrap()@.contains(i) <==> self.segments_bounds(
                    range.start as int,
                    range.end as int,
                ).0 <= i < self.segments_bounds(range.start as int, range.end as int).1,
    {
        if range.start >= self.layout.line_segments.len() || range.start > range.end || range.end
            > self.layout.line_segments.len() {
            return None;
        }
        let (a, b) = self.segment_range_leds(range.start, range.end);
        Some(Filter::from_range(a, b))
    }

    /// Sets every LED of segments `range.start..range.end` to `color`; fails,
    /// changing nothing, when the range is malformed, starts at no segment,
    /// or passes the last one.
    pub fn set_segments(&mut self, range: Range<usize>, color: C) -> (r: Result<(), SledError>)
        requires
            old(self).wf(),
        ensures
            final(self).wf(),
            final(self).layout() == old(self).layout(),
            r.is_err() == !(range.start < old(self).num_segments_spec() && range.start <= range.end
                <= old(self).num_segments_spec()),
            r.is_err() ==> r == Err::<(), SledError>(SledError::InvalidRange(range.start, range.end)),
            r.is_err() ==> final(self).colors() == old(self).colors(),
            r.is_ok() ==> final(self).colors() == paint(
                old(self).colors(),
                in_range(
                    old(self).segments_bounds(range.start as int, range.end as int).0,
                    old(self).segments_bounds(range.start as int, range.end as int).1,
                ),
                color,
            ),
    {
        if range.start >= self.layout.line_segments.len() || range.start > range.end || range.end
            > self.layout.line_segments.len() {
            return Err(SledError::InvalidRange(range.start, range.end));
        }
        let (a, b) = self.segment_range_leds(range.start, range.end);
        self.paint_range(a, b, color);
        Ok(())
    }
}

/// Vertex-based reads and writes.
impl<C: Copy> Sled<C> {
    pub proof fn lemma_vertex_bounds(self)
        requires
            self.wf(),
        ensures
            forall|v: int|
                0 <= v < self.num_vertices_spec() ==> 0 <= #[trigger] self.layout().vertex_indices@[v]
                    < self.num_leds_spec(),
    {
        lemma_vertices_in_range(self.layout().segs(), self.num_segments_spec());
    }

    /// The LED of vertex `vertex_index`, if it exists.
    pub fn get_vertex(&self, vertex_index: usize) -> (r: Option<Led<C>>)
        requires
            self.wf(),
        ensures
            r == if vertex_index < self.num_vertices_spec() {
                Some(self.led(self.vertex_led(vertex_index as int)))
            } else {
                None::<Led<C>>
            },
    {
        if vertex_index >= self.layout.vertex_indices.len() {
            return None;
        }
        proof {
            self.lemma_vertex_bounds();
        }
        Some(self.led_at(self.layout.vertex_indices[vertex_index]))
    }

    /// The LED of vertex `vertex_index`, if it exists.
    pub fn vertex(&self, vertex_index: usize) -> (r: Option<Led<C>>)
        requires
            self.wf(),
        ensures
            r == if vertex_index < self.num_vertices_spec() {
                Some(self.led(self.vertex_led(vertex_index as int)))
            } else {
                None::<Led<C>>
            },
    {
        self.get_vertex(vertex_index)
    }

    /// Sets the LED of vertex `vertex_index` to `color`; fails, changing
    /// nothing, when there is no such vertex.
    pub fn set_vertex(&mut self, vertex_index: usize, color: C) -> (r: Result<(), SledError>)
        requires
            old(self).wf(),
        ensures
            final(self).wf(),
            final(self).layout() == old(self).layout(),
            r.is_err() == (vertex_index >= old(self).num_vertices_spec()),
            r.is_err() ==> r == Err::<(), SledError>(SledError::VertexOutOfRange(vertex_index)),
            r.is_err() ==> final(self).colors() == old(self).colors(),
            r.is_ok() ==> final(self).colors() == old(self).colors().update(
                old(self).vertex_led(vertex_index as int),
                color,
            ),
    {
        if vertex_index >= self.layout.vertex_indices.len() {
            return Err(SledError::VertexOutOfRange(vertex_index));
        }
        proof {
            self.lemma_vertex_bounds();
        }
        let i = self.layout.vertex_indices[vertex_index];
        self.colors.set(i, color);
        Ok(())
    }

    /// The LEDs of all vertices, in vertex order.
    pub fn get_vertices(&self) -> (r: Vec<Led<C>>)
        requires
            self.wf(),
        ensures
            r@.len() == self.num_vertices_spec(),
            forall|v: int| 0 <= v < r@.len() ==> #[trigger] r@[v] == self.led(self.vertex_led(v)),
    {
        proof {
            self.lemma_vertex_bounds();
        }
        let mut r: Vec<Led<C>> = Vec::new();
        let mut v: usize = 0;
        while v < self.layout.vertex_indices.len()
            invariant
                self.wf(),
                forall|w: int|
                    0 <= w < self.num_vertices_spec() ==> 0 <= #[trigger] self.layout().vertex_indices@[w]
                        < self.num_leds_spec(),
                v <= self.num_vertices_spec(),
                r@.len() == v,
                forall|w: int| 0 <= w < v ==> #[trigger] r@[w] == self.led(self.vertex_led(w)),
            decreases self.num_vertices_spec() - v,
        {
            r.push(self.led_at(self.layout.vertex_indices[v]));
            v = v + 1;
        }
        r
    }

    /// The LEDs of all vertices as a filter.
    pub fn vertices(&self) -> (r: Filter)
        requires
            self.wf(),
        ensures
            r.wf(),
            forall|i: usize| #[trigger] r@.contains(i) <==> self.layout().vertex_indices@.contains(i),
    {
        proof {
            lemma_vertices_in_range(self.layout().segs(), self.num_segments_spec());
        }
        Filter::from_indices(&self.layout.vertex_indices)
    }

    /// Sets the LED of every vertex to `color`.
    pub fn set_vertices(&mut self, color: C)
        requires
            old(self).wf(),
        ensures
            final(self).wf(),
            final(self).layout() == old(self).layout(),
            final(self).colors() == paint(
                old(self).colors(),
                in_set(old(self).layout().vertex_indices@.to_set()),
                color,
            ),
    {
        let f = self.vertices();
        self.set_filter(&f, color);
        assert(in_set(f@) == in_set(old(self).layout().vertex_indices@.to_set())) by {
            assert(f@ =~= old(self).layout().vertex_indices@.to_set());
        }
    }
}

/// Filter-based reads and writes.
impl<C: Copy> Sled<C> {
    /// Sets every LED whose index is in `filter` to `color`; other indices are ignored.
    pub fn set_filter(&mut self, filter: &Filter, color: C)
        requires
            old(self).wf(),
        ensures
            final(self).wf(),
            final(self).layout() == old(self).layout(),
            final(self).colors() == paint(old(self).colors(), in_set(filter@), color),
    {
        let n = self.colors.len();
        let mut i: usize = 0;
        while i < n
            invariant
                self.wf(),
                self.layout() == old(self).layout(),
                n == self.num_leds_spec(),
                i <= n,
                self.colors() == paint(
                    old(self).colors(),
                    |j: int| j < i && in_set(filter@)(j),
                    color,
                ),
            decreases n - i,
        {
            if filter.contains(i) {
                self.colors.set(i, color);
            }
            i = i + 1;
            assert(self.colors() =~= paint(
                old(self).colors(),
                |j: int| j < i && in_set(filter@)(j),
                color,
            ));
        }
        assert(self.colors() =~= paint(old(self).colors(), in_set(filter@), color));
    }

    /// The LEDs whose index is in `filter`, in index order.
    pub fn get_filter(&self, filter: &Filter) -> (r: Vec<Led<C>>)
        requires
            self.wf(),
        ensures
            forall|j: int| 0 <= j < r@.len() ==> filter@.contains(#[trigger] r@[j].index),
            forall|j: int| 0 <= j < r@.len() ==> #[trigger] r@[j] == self.led(r@[j].index as int),
            forall|i: usize| i < self.num_leds_spec() && #[trigger] filter@.contains(i) ==> exists|j: int|
                0 <= j < r@.len() && #[trigger] r@[j].index == i,
            forall|a: int, b: int| 0 <= a < b < r@.len() ==> r@[a].index < r@[b].index,
    {
        let n = self.layout.leds.len();
        let mut r: Vec<Led<C>> = Vec::new();
        let mut i: usize = 0;
        while i < n
            invariant
                self.wf(),
                n == self.num_leds_spec(),
                i <= n,
                forall|j: int| 0 <= j < r@.len() ==> #[trigger] r@[j].index < i,
                forall|j: int| 0 <= j < r@.len() ==> filter@.contains(#[trigger] r@[j].index),
                forall|j: int| 0 <= j < r@.len() ==> #[trigger] r@[j] == self.led(r@[j].index as int),
                forall|k: usize| k < i && #[trigger] filter@.contains(k) ==> exists|j: int|
                    0 <= j < r@.len() && #[trigger] r@[j].index == k,
                forall|a: int, b: int| 0 <= a < b < r@.len() ==> r@[a].index < r@[b].index,
            decreases n - i,
        {
            if filter.contains(i) {
                let led = self.led_at(i);
                let ghost before = r@;
                r.push(led);
                proof {
                    assert(r@[before.len() as int].index == i);
                    assert forall|k: usize| k < i + 1 && #[trigger] filter@.contains(k) implies exists|j: int|
                        0 <= j < r@.len() && #[trigger] r@[j].index == k by {
                        if k < i {
                            let j = choose|j: int| 0 <= j < before.len() && #[trigger] before[j].index == k;
                            assert(r@[j].index == k);
                        }
                    }
                }
            }
            i = i + 1;
        }
        r
    }

    /// The LEDs for which `f` holds, as a filter.
    pub fn filter<F: Fn(&Led<C>) -> bool>(&self, f: F) -> (r: Filter)
        requires
            self.wf(),
            forall|l: Led<C>| #[trigger] f.requires((&l,)),
        ensures
            r.wf(),
            forall|i: usize| #[trigger] r@.contains(i) ==> i < self.num_leds_spec(),
            forall|i: usize|
                i < self.num_leds_spec() ==> f.ensures(
                    (&self.led(i as int),),
                    #[trigger] r@.contains(i),
                ),
    {
        let n = self.layout.leds.len();
        let mut r = Filter::new();
        let mut i: usize = 0;
        while i < n
            invariant
                self.wf(),
                n == self.num_leds_spec(),
                n <= MAX_LEDS,
                i <= n,
                r.wf(),
                forall|l: Led<C>| #[trigger] f.requires((&l,)),
                forall|k: usize| #[trigger] r@.contains(k) ==> k < i,
                forall|k: usize| k < i ==> f.ensures((&self.led(k as int),), #[trigger] r@.contains(k)),
            decreases n - i,
        {
            let led = self.led_at(i);
            let keep = f(&led);
            if keep {
                r.insert(i);
            }
            assert(r@.contains(i) == keep);
            i = i + 1;
        }
        r
    }

    /// Every LED in `sel` has its color replaced by what `f` makes of the LED
    /// as it was; every other LED keeps its color.
    pub open spec fn modulated<F: Fn(&Led<C>) -> C>(
        self,
        sel: spec_fn(int) -> bool,
        f: F,
        new_colors: Seq<C>,
    ) -> bool {
        &&& new_colors.len() == self.colors().len()
        &&& forall|i: int|
            0 <= i < new_colors.len() ==> if sel(i) {
                f.ensures((&self.led(i),), #[trigger] new_colors[i])
            } else {
                new_colors[i] == self.colors()[i]
            }
    }

    /// Recolors every LED in `filter` by `f`.
    pub fn modulate_filter<F: Fn(&Led<C>) -> C>(&mut self, filter: &Filter, f: F)
        requires
            old(self).wf(),
            forall|l: Led<C>| #[trigger] f.requires((&l,)),
        ensures
            final(self).wf(),
            final(self).layout() == old(self).layout(),
            old(self).modulated(in_set(filter@), f, final(self).colors()),
    {
        let n = self.colors.len();
        let ghost start = *self;
        let mut i: usize = 0;
        while i < n
            invariant
                self.wf(),
                start == *old(self),
                self.layout() == start.layout(),
                n == self.num_leds_spec(),
                i <= n,
                forall|l: Led<C>| #[trigger] f.requires((&l,)),
                forall|j: int| i <= j < n ==> #[trigger] self.colors()[j] == start.colors()[j],
                start.modulated(
                    |j: int| j < i && in_set(filter@)(j),
                    f,
                    self.colors(),
                ),
            decreases n - i,
        {
            if filter.contains(i) {
                let led = self.led_at(i);
                assert(led == start.led(i as int));
                let c = f(&led);
                self.colors.set(i, c);
            }
            i = i + 1;
        }
    }

    /// Recolors every LED by `f`.
    pub fn map<F: Fn(&Led<C>) -> C>(&mut self, f: F)
        requires
            old(self).wf(),
            forall|l: Led<C>| #[trigger] f.requires((&l,)),
        ensures
            final(self).wf(),
            final(self).layout() == old(self).layout(),
            forall|i: int|
                0 <= i < old(self).num_leds_spec() ==> f.ensures(
                    (&old(self).led(i),),
                    #[trigger] final(self).colors()[i],
                ),
            final(self).colors().len() == old(self).colors().len(),
    {
        let n = self.colors.len();
        let all = Filter::from_range(0, n);
        self.modulate_filter(&all, f);
        assert forall|i: int| 0 <= i < old(self).num_leds_spec() implies f.ensures(
            (&old(self).led(i),),
            #[trigger] self.colors()[i],
        ) by {
            assert(all@.contains(i as usize));
        }
    }

    /// Recolors every LED of segment `segment_index` by `f`; fails, changing
    /// nothing, when there is no such segment.
    pub fn modulate_segment<F: Fn(&Led<C>) -> C>(&mut self, segment_index: usize, f: F) -> (r:
        Result<(), SledError>)
        requires
            old(self).wf(),
            forall|l: Led<C>| #[trigger] f.requires((&l,)),
        ensures
            final(self).wf(),
            final(self).layout() == old(self).layout(),
            r.is_err() == (segment_index >= old(self).num_segments_spec()),
            r.is_err() ==> r == Err::<(), SledError>(SledError::SegmentOutOfRange(segment_index)),
            r.is_err() ==> final(self).colors() == old(self).colors(),
            r.is_ok() ==> old(self).modulated(
                in_range(
                    old(self).segment_bounds(segment_index as int).0,
                    old(self).segment_bounds(segment_index as int).1,
                ),
                f,
                final(self).colors(),
            ),
    {
        match self.segment(segment_index) {
            None => Err(SledError::SegmentOutOfRange(segment_index)),
            Some(sel) => {
                self.modulate_filter(&sel, f);
                let ghost (a, b) = old(self).segment_bounds(segment_index as int);
                proof {
                    old(self).lemma_segment_bounds(segment_index as int);
                }
                assert forall|i: int| #[trigger] in_set(sel@)(i) == in_range(a, b)(i) by {
                    if 0 <= i <= usize::MAX {
                        assert(sel@.contains(i as usize) == (a <= i < b));
                    }
                }
                assert(in_set(sel@) =~= in_range(a, b));
                Ok(())
            },
        }
    }

    /// Recolors every LED of segments `range.start..range.end` by `f`; fails,
    /// changing nothing, when the range is malformed, starts at no segment,
    /// or passes the last one.
    pub fn modulate_segments<F: Fn(&Led<C>) -> C>(&mut self, range: Range<usize>, f: F) -> (r:
        Result<(), SledError>)
        requires
            old(self).wf(),
            forall|l: Led<C>| #[trigger] f.requires((&l,)),
        ensures
            final(self).wf(),
            final(self).layout() == old(self).layout(),
            r.is_err() == !(range.start < old(self).num_segments_spec() && range.start <= range.end
                <= old(self).num_segments_spec()),
            r.is_err() ==> r == Err::<(), SledError>(SledError::InvalidRange(range.start, range.end)),
            r.is_err() ==> final(self).colors() == old(self).colors(),
            r.is_ok() ==> old(self).modulated(
                in_range(
                    old(self).segments_bounds(range.start as int, range.end as int).0,
                    old(self).segments_bounds(range.start as int, range.end as int).1,
                ),
                f,
                final(self).colors(),
            ),
    {
        let first = range.start;
        let past = range.end;
        match self.segments(range) {
            None => Err(SledError::InvalidRange(first, past)),
            Some(sel) => {
                self.modulate_filter(&sel, f);
                let ghost (a, b) = old(self).segments_bounds(first as int, past as int);
                proof {
                    lemma_offset_monotone(old(self).layout().segs(), 0, first as int);
                    lemma_offset_monotone(old(self).layout().segs(), past as int, old(self).num_segments_spec());
                }
                assert forall|i: int| #[trigger] in_set(sel@)(i) == in_range(a, b)(i) by {
                    if 0 <= i <= usize::MAX {
                        assert(sel@.contains(i as usize) == (a <= i < b));
                    }
                }
                assert(in_set(sel@) =~= in_range(a, b));
                Ok(())
            },
        }
    }

    /// Recolors every LED of segment `segment_index` by what `f` makes of the
    /// LED and of how far along the segment it sits: the `k`-th LED of a
    /// segment of `count` LEDs gets `f(led, k, count)`, its alpha being
    /// `k / count`, in `[0, 1)`. Fails, changing nothing, when there is no
    /// such segment.
    pub fn modulate_segment_with_alpha<F: Fn(&Led<C>, usize, usize) -> C>(
        &mut self,
        segment_index: usize,
        f: F,
    ) -> (r: Result<(), SledError>)
        requires
            old(self).wf(),
            forall|l: Led<C>, k: usize, n: usize| #[trigger] f.requires((&l, k, n)),
        ensures
            final(self).wf(),
            final(self).layout() == old(self).layout(),
            r.is_err() == (segment_index >= old(self).num_segments_spec()),
            r.is_err() ==> r == Err::<(), SledError>(SledError::SegmentOutOfRange(segment_index)),
            r.is_err() ==> final(self).colors() == old(self).colors(),
            r.is_ok() ==> final(self).colors().len() == old(self).colors().len(),
            r.is_ok() ==> ({
                let (a, b) = old(self).segment_bounds(segment_index as int);
                forall|i: int|
                    0 <= i < old(self).colors().len() ==> if a <= i < b {
                        f.ensures(
                            (&old(self).led(i), (i - a) as usize, (b - a) as usize),
                            #[trigger] final(self).colors()[i],
                        )
                    } else {
                        final(self).colors()[i] == old(self).colors()[i]
                    }
            }),
    {
        if segment_index >= self.layout.line_segment_endpoint_indices.len() {
            return Err(SledError::SegmentOutOfRange(segment_index));
        }
        proof {
            self.lemma_segment_bounds(segment_index as int);
        }
        let (start, end) = self.layout.line_segment_endpoint_indices[segment_index];
        let count = end - start;
        let ghost before = *self;
        let mut i: usize = start;
        while i < end
            invariant
                self.wf(),
                before == *old(self),
                self.layout() == before.layout(),
                start <= i <= end <= self.num_leds_spec(),
                count == end - start,
                (start as int, end as int) == before.segment_bounds(segment_index as int),
                forall|l: Led<C>, k: usize, n: usize| #[trigger] f.requires((&l, k, n)),
                self.colors().len() == before.colors().len(),
                forall|j: int|
                    0 <= j < self.colors().len() ==> if start <= j < i {
                        f.ensures(
                            (&before.led(j), (j - start) as usize, count),
                            #[trigger] self.colors()[j],
                        )
                    } else {
                        self.colors()[j] == before.colors()[j]
                    },
            decreases end - i,
        {
            let led = self.led_at(i);
            assert(led == before.led(i as int));
            let c = f(&led, i - start, count);
            self.colors.set(i, c);
            i = i + 1;
        }
        Ok(())
    }

    /// Recolors the LED of vertex `vertex_index` by `f`; fails, changing
    /// nothing, when there is no such vertex.
    pub fn modulate_vertex<F: Fn(&Led<C>) -> C>(&mut self, vertex_index: usize, f: F) -> (r:
        Result<(), SledError>)
        requires
            old(self).wf(),
            forall|l: Led<C>| #[trigger] f.requires((&l,)),
        ensures
            final(self).wf(),
            final(self).layout() == old(self).layout(),
            r.is_err() == (vertex_index >= old(self).num_vertices_spec()),
            r.is_err() ==> r == Err::<(), SledError>(SledError::VertexOutOfRange(vertex_index)),
            r.is_err() ==> final(self).colors() == old(self).colors(),
            r.is_ok() ==> old(self).modulated(
                |i: int| i == old(self).vertex_led(vertex_index as int),
                f,
                final(self).colors(),
            ),
    {
        if vertex_index >= self.layout.vertex_indices.len() {
            return Err(SledError::VertexOutOfRange(vertex_index));
        }
        proof {
            self.lemma_vertex_bounds();
        }
        let i = self.layout.vertex_indices[vertex_index];
        let led = self.led_at(i);
        let c = f(&led);
        self.colors.set(i, c);
        Ok(())
    }

    /// Recolors the LED of every vertex by `f`, once per LED.
    pub fn modulate_vertices<F: Fn(&Led<C>) -> C>(&mut self, f: F)
        requires
            old(self).wf(),
            forall|l: Led<C>| #[trigger] f.requires((&l,)),
        ensures
            final(self).wf(),
            final(self).layout() == old(self).layout(),
            old(self).modulated(
                in_set(old(self).layout().vertex_indices@.to_set()),
                f,
                final(self).colors(),
            ),
    {
        let sel = self.vertices();
        self.modulate_filter(&sel, f);
        assert(in_set(sel@) =~= in_set(old(self).layout().vertex_indices@.to_set())) by {
            assert(sel@ =~= old(self).layout().vertex_indices@.to_set());
        }
    }

    /// Recolors every LED by what `f` makes of its index.
    pub fn map_by_index<F: Fn(usize) -> C>(&mut self, f: F)
        requires
            old(self).wf(),
            forall|i: usize| #[trigger] f.requires((i,)),
        ensures
            final(self).wf(),
            final(self).layout() == old(self).layout(),
            final(self).colors().len() == old(self).colors().len(),
            forall|i: int|
                0 <= i < old(self).num_leds_spec() ==> f.ensures(
                    (i as usize,),
                    #[trigger] final(self).colors()[i],
                ),
    {
        let n = self.colors.len();
        let mut i: usize = 0;
        while i < n
            invariant
                self.wf(),
                self.layout() == old(self).layout(),
                n == self.num_leds_spec(),
                i <= n,
                forall|k: usize| #[trigger] f.requires((k,)),
                forall|j: int| 0 <= j < i ==> f.ensures((j as usize,), #[trigger] self.colors()[j]),
            decreases n - i,
        {
            let c = f(i);
            self.colors.set(i, c);
            i = i + 1;
        }
    }

    /// Recolors every LED by what `f` makes of its segment's index.
    pub fn map_by_segment<F: Fn(usize) -> C>(&mut self, f: F)
        requires
            old(self).wf(),
            forall|i: usize| #[trigger] f.requires((i,)),
        ensures
            final(self).wf(),
            final(self).layout() == old(self).layout(),
            final(self).colors().len() == old(self).colors().len(),
            forall|i: int|
                0 <= i < old(self).num_leds_spec() ==> f.ensures(
                    (old(self).layout().leds@[i].segment,),
                    #[trigger] final(self).colors()[i],
                ),
    {
        let n = self.colors.len();
        let mut i: usize = 0;
        while i < n
            invariant
                self.wf(),
                self.layout() == old(self).layout(),
                n == self.num_leds_spec(),
                i <= n,
                forall|k: usize| #[trigger] f.requires((k,)),
                forall|j: int|
                    0 <= j < i ==> f.ensures(
                        (self.layout().leds@[j].segment,),
                        #[trigger] self.colors()[j],
                    ),
            decreases n - i,
        {
            let c = f(self.layout.leds[i].segment);
            self.colors.set(i, c);
            i = i + 1;
        }
    }
}

} // verus!
