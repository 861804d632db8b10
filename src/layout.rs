//! The fixed part of a spatial LED model: where every LED sits, which
//! segment it belongs to, and the lookup tables for segments and vertices.
use vstd::prelude::*;

use crate::config::Config;
use crate::error::SledError;
use crate::geometry::{lemma_mul_abs_bound, Point};
use crate::segment::LineSegment;

verus! {

/// Largest number of LEDs a layout may hold.
pub const MAX_LEDS: usize = 0x100_0000;

/// A point with rational coordinates `(x / scale, y / scale)`.
#[derive(Clone, Copy, Debug, PartialEq, Eq, Structural)]
pub struct Position {
    pub x: i64,
    pub y: i64,
    pub scale: i64,
}

/// What never changes about an LED once the layout is built.
#[derive(Clone, Copy, Debug, PartialEq, Eq, Structural)]
pub struct LedInfo {
    /// Its place in the LED buffer.
    pub index: usize,
    /// The segment it belongs to.
    pub segment: usize,
    /// Where it sits.
    pub position: Position,
    /// Its offset from the layout's center point, at the same scale as `position`.
    pub direction: Position,
}

/// The first LED index of segment `i`: the LED counts of the segments before it, summed.
pub open spec fn led_offset(segs: Seq<LineSegment>, i: int) -> int
    decreases i,
{
    if i <= 0 {
        0
    } else {
        led_offset(segs, i - 1) + segs[i - 1].led_count()
    }
}

/// The vertices of the first `i` segments. A segment's first LED is a new
/// vertex unless the segment starts exactly where the previous one ended;
/// its last LED always is one.
pub open spec fn vertex_model(segs: Seq<LineSegment>, i: int) -> Seq<usize>
    decreases i,
{
    if i <= 0 {
        seq![]
    } else {
        let prev = vertex_model(segs, i - 1);
        let with_start = if i == 1 || segs[i - 1].start != segs[i - 2].end {
            prev.push(led_offset(segs, i - 1) as usize)
        } else {
            prev
        };
        with_start.push((led_offset(segs, i) - 1) as usize)
    }
}

/// The denominator of LED positions on `seg`: the gap count between its LEDs, at least one.
pub open spec fn position_scale(seg: LineSegment) -> int {
    if seg.led_count() > 1 {
        seg.led_count() - 1
    } else {
        1
    }
}

/// LED `k` of `seg` sits at `start + (end - start) * k / (count - 1)`
/// (at `start` when the segment holds one LED).
pub open spec fn led_position(seg: LineSegment, k: int) -> Position {
    let sc = position_scale(seg);
    Position {
        x: (seg.start.x * sc + seg.dx() * k) as i64,
        y: (seg.start.y * sc + seg.dy() * k) as i64,
        scale: sc as i64,
    }
}

/// The offset of `pos` from `center`, at the scale of `pos`.
pub open spec fn offset_from(pos: Position, center: Point) -> Position {
    Position {
        x: (pos.x - center.x * pos.scale) as i64,
        y: (pos.y - center.y * pos.scale) as i64,
        scale: pos.scale,
    }
}

/// LED `k` of segment `s`.
pub open spec fn led_info(segs: Seq<LineSegment>, center: Point, s: int, k: int) -> LedInfo {
    LedInfo {
        index: (led_offset(segs, s) + k) as usize,
        segment: s as usize,
        position: led_position(segs[s], k),
        direction: offset_from(led_position(segs[s], k), center),
    }
}

/// The first problem found in the segments from `i` on, if any.
pub open spec fn segment_error(segs: Seq<LineSegment>, i: int) -> Option<SledError>
    decreases segs.len() - i,
{
    if i < 0 || i >= segs.len() {
        None
    } else if !segs[i].start.in_bounds() || !segs[i].end.in_bounds() {
        Some(SledError::CoordinateOutOfBounds(i as usize))
    } else if segs[i].start == segs[i].end {
        Some(SledError::DegenerateSegment(i as usize))
    } else if !segs[i].density.valid() {
        Some(SledError::InvalidDensity(i as usize))
    } else {
        segment_error(segs, i + 1)
    }
}

/// Why `config` cannot be built, if it cannot.
pub open spec fn config_error(config: Config) -> Option<SledError> {
    let segs = config.segments();
    if segs.len() == 0 {
        Some(SledError::EmptyLayout)
    } else if !config.center_point.in_bounds() {
        Some(SledError::CenterOutOfBounds)
    } else if segment_error(segs, 0).is_some() {
        segment_error(segs, 0)
    } else if led_offset(segs, segs.len() as int) > MAX_LEDS {
        Some(SledError::TooManyLeds)
    } else {
        None
    }
}

pub proof fn lemma_segment_error_none(segs: Seq<LineSegment>, i: int, j: int)
    requires
        0 <= i <= j < segs.len(),
        segment_error(segs, i).is_none(),
    ensures
        segs[j].valid(),
    decreases j - i,
{
    if i < j {
        lemma_segment_error_none(segs, i + 1, j);
    }
}

/// Offsets grow with the segment index, by at least one LED per segment.
pub proof fn lemma_offset_monotone(segs: Seq<LineSegment>, i: int, j: int)
    requires
        0 <= i <= j <= segs.len(),
    ensures
        led_offset(segs, i) + (j - i) <= led_offset(segs, j),
    decreases j - i,
{
    if i < j {
        lemma_offset_monotone(segs, i, j - 1);
    }
}

/// Every LED index from segment `j`'s first on belongs to some segment from `j` on.
pub proof fn lemma_segment_of(segs: Seq<LineSegment>, i: int, j: int) -> (s: int)
    requires
        0 <= j < segs.len(),
        led_offset(segs, j) <= i < led_offset(segs, segs.len() as int),
    ensures
        j <= s < segs.len(),
        led_offset(segs, s) <= i < led_offset(segs, s + 1),
    decreases segs.len() - j,
{
    if i < led_offset(segs, j + 1) {
        j
    } else {
        lemma_segment_of(segs, i, j + 1)
    }
}

/// Every vertex of the first `i` segments is an LED of those segments.
pub proof fn lemma_vertices_in_range(segs: Seq<LineSegment>, i: int)
    requires
        0 <= i <= segs.len(),
        led_offset(segs, segs.len() as int) <= MAX_LEDS,
    ensures
        forall|v: int|
            0 <= v < vertex_model(segs, i).len() ==> 0 <= #[trigger] vertex_model(segs, i)[v]
                < led_offset(segs, i),
    decreases i,
{
    if i > 0 {
        lemma_vertices_in_range(segs, i - 1);
        lemma_offset_monotone(segs, i - 1, i);
        lemma_offset_monotone(segs, i, segs.len() as int);
        lemma_offset_monotone(segs, 0, i - 1);
        let prev = vertex_model(segs, i - 1);
        let with_start = if i == 1 || segs[i - 1].start != segs[i - 2].end {
            prev.push(led_offset(segs, i - 1) as usize)
        } else {
            prev
        };
        assert forall|v: int| 0 <= v < with_start.len() implies 0 <= #[trigger] with_start[v]
            < led_offset(segs, i) by {
            if v < prev.len() {
                assert(with_start[v] == prev[v]);
            }
        }
    }
}

/// A built layout: a center point, the segments, every LED's fixed data, and
/// the segment and vertex lookup tables.
pub struct Layout {
    pub center_point: Point,
    pub line_segments: Vec<LineSegment>,
    pub leds: Vec<LedInfo>,
    /// For each segment, its first LED index and one past its last.
    pub line_segment_endpoint_indices: Vec<(usize, usize)>,
    /// The LED index of each vertex.
    pub vertex_indices: Vec<usize>,
}

impl Layout {
    pub open spec fn segs(self) -> Seq<LineSegment> {
        self.line_segments@
    }

    pub open spec fn num_segs(self) -> int {
        self.line_segments@.len() as int
    }

    /// The first LED index of segment `i`.
    pub open spec fn offset(self, i: int) -> int {
        led_offset(self.segs(), i)
    }

    /// The number of LEDs, from the segments alone.
    pub open spec fn total(self) -> int {
        led_offset(self.segs(), self.num_segs())
    }

    /// The layout is what its segments and center point make of it.
    pub open spec fn wf(self) -> bool {
        &&& self.num_segs() > 0
        &&& self.center_point.in_bounds()
        &&& forall|i: int| 0 <= i < self.num_segs() ==> #[trigger] self.segs()[i].valid()
        &&& self.total() <= MAX_LEDS
        &&& self.leds@.len() == self.total()
        &&& forall|i: int| 0 <= i < self.leds@.len() ==> #[trigger] self.leds@[i].index == i
        &&& forall|s: int, k: int|
            0 <= s < self.num_segs() && 0 <= k < self.segs()[s].led_count() ==> #[trigger] self.leds@[self.offset(s) + k]
                == led_info(self.segs(), self.center_point, s, k)
        &&& self.line_segment_endpoint_indices@.len() == self.num_segs()
        &&& forall|i: int|
            0 <= i < self.num_segs() ==> #[trigger] self.line_segment_endpoint_indices@[i] == (
            self.offset(i) as usize, self.offset(i + 1) as usize)
        &&& self.vertex_indices@ == vertex_model(self.segs(), self.num_segs())
    }

    /// Builds the layout that `config` describes, or says why it cannot.
    pub fn new(config: &Config) -> (r: Result<Layout, SledError>)
        ensures
            r.is_err() == config_error(*config).is_some(),
            r.is_err() ==> r == Err::<Layout, SledError>(config_error(*config).unwrap()),
            r.is_ok() ==> ({
                let l = r.unwrap();
                &&& l.wf()
                &&& l.segs() == config.segments()
                &&& l.center_point == config.center_point
            }),
    {
        let n = config.line_segments.len();
        if n == 0 {
            return Err(SledError::EmptyLayout);
        }
        if !config.center_point.is_in_bounds() {
            return Err(SledError::CenterOutOfBounds);
        }
        let ghost segs = config.segments();
        let mut line_segments: Vec<LineSegment> = Vec::new();
        let mut i: usize = 0;
        while i < n
            invariant
                n == config.line_segments@.len(),
                segs == config.segments(),
                segs.len() == n,
                config.center_point.in_bounds(),
                i <= n,
                line_segments@ == segs.subrange(0, i as int),
                segment_error(segs, 0) == segment_error(segs, i as int),
            decreases n - i,
        {
            let seg = config.line_segments[i].resolved(config.default_density);
            assert(seg == segs[i as int]);
            if !seg.start.is_in_bounds() || !seg.end.is_in_bounds() {
                assert(segment_error(segs, i as int) == Some(SledError::CoordinateOutOfBounds(i)));
                return Err(SledError::CoordinateOutOfBounds(i));
            }
            if seg.start.x == seg.end.x && seg.start.y == seg.end.y {
                assert(seg.start == seg.end);
                assert(segment_error(segs, i as int) == Some(SledError::DegenerateSegment(i)));
                return Err(SledError::DegenerateSegment(i));
            }
            if !seg.density.is_valid() {
                assert(segment_error(segs, i as int) == Some(SledError::InvalidDensity(i)));
                return Err(SledError::InvalidDensity(i));
            }
            line_segments.push(seg);
            i = i + 1;
        }
        assert(line_segments@ == segs);
        assert(segment_error(segs, n as int).is_none());
        proof {
            assert forall|j: int| 0 <= j < n implies #[trigger] segs[j].valid() by {
                lemma_segment_error_none(segs, 0, j);
            }
        }
        // LED counts, and the running total
        let mut counts: Vec<usize> = Vec::new();
        let mut total: usize = 0;
        let mut i: usize = 0;
        while i < n
            invariant
                n == segs.len(),
                n == config.line_segments@.len(),
                segs == config.segments(),
                config.center_point.in_bounds(),
                segment_error(segs, 0).is_none(),
                line_segments@ == segs,
                forall|j: int| 0 <= j < n ==> #[trigger] segs[j].valid(),
                i <= n,
                counts@.len() == i,
                forall|j: int| 0 <= j < i ==> #[trigger] counts@[j] == segs[j].led_count(),
                total == led_offset(segs, i as int),
                total <= MAX_LEDS,
            decreases n - i,
        {
            assert(segs[i as int].valid());
            let c = line_segments[i].num_leds();
            if c > (MAX_LEDS - total) as u64 {
                proof {
                    lemma_offset_monotone(segs, i as int + 1, n as int);
                    assert(config_error(*config) == Some(SledError::TooManyLeds));
                }
                return Err(SledError::TooManyLeds);
            }
            counts.push(c as usize);
            total = total + c as usize;
            i = i + 1;
        }
        let ghost center = config.center_point;
        let cx = config.center_point.x;
        let cy = config.center_point.y;
        // every LED, segment by segment
        let mut leds: Vec<LedInfo> = Vec::new();
        let mut endpoints: Vec<(usize, usize)> = Vec::new();
        let mut s: usize = 0;
        while s < n
            invariant
                n == segs.len(),
                line_segments@ == segs,
                forall|j: int| 0 <= j < n ==> #[trigger] segs[j].valid(),
                counts@.len() == n,
                forall|j: int| 0 <= j < n ==> #[trigger] counts@[j] == segs[j].led_count(),
                total == led_offset(segs, n as int),
                total <= MAX_LEDS,
                center == config.center_point,
                cx == center.x,
                cy == center.y,
                center.in_bounds(),
                s <= n,
                leds@.len() == led_offset(segs, s as int),
                forall|j: int| 0 <= j < leds@.len() ==> #[trigger] leds@[j].index == j,
                forall|t: int, k: int|
                    0 <= t < s && 0 <= k < segs[t].led_count() ==> #[trigger] leds@[led_offset(
                        segs,
                        t,
                    ) + k] == led_info(segs, center, t, k),
                endpoints@.len() == s,
                forall|j: int|
                    0 <= j < s ==> #[trigger] endpoints@[j] == (
                    led_offset(segs, j) as usize, led_offset(segs, j + 1) as usize),
            decreases n - s,
        {
            proof {
                lemma_offset_monotone(segs, s as int + 1, n as int);
            }
            let seg = line_segments[s];
            assert(segs[s as int].valid());
            let count = counts[s];
            let start_index = leds.len();
            let ghost before = leds@;
            let scale: i64 = if count > 1 {
                (count - 1) as i64
            } else {
                1
            };
            let dx = seg.end.x - seg.start.x;
            let dy = seg.end.y - seg.start.y;
            proof {
                assert(led_offset(segs, s as int + 1) == led_offset(segs, s as int) + count);
                lemma_mul_abs_bound(seg.start.x as int, scale as int, 65536, 0x100_0000);
                lemma_mul_abs_bound(seg.start.y as int, scale as int, 65536, 0x100_0000);
                lemma_mul_abs_bound(cx as int, scale as int, 65536, 0x100_0000);
                lemma_mul_abs_bound(cy as int, scale as int, 65536, 0x100_0000);
            }
            let mut k: usize = 0;
            while k < count
                invariant
                    n == segs.len(),
                    s < n,
                    seg == segs[s as int],
                    seg.valid(),
                    count == seg.led_count(),
                    scale == position_scale(seg),
                    dx == seg.dx(),
                    dy == seg.dy(),
                    center == config.center_point,
                    cx == center.x,
                    cy == center.y,
                    center.in_bounds(),
                    -0x100_0000_0000 <= seg.start.x * scale <= 0x100_0000_0000,
                    -0x100_0000_0000 <= seg.start.y * scale <= 0x100_0000_0000,
                    -0x100_0000_0000 <= cx * scale <= 0x100_0000_0000,
                    -0x100_0000_0000 <= cy * scale <= 0x100_0000_0000,
                    start_index == led_offset(segs, s as int),
                    led_offset(segs, s as int) + count <= MAX_LEDS,
                    before.len() == start_index,
                    leds@.subrange(0, start_index as int) == before,
                    k <= count,
                    leds@.len() == start_index + k,
                    forall|j: int| 0 <= j < leds@.len() ==> #[trigger] leds@[j].index == j,
                    forall|t: int, kk: int|
                        0 <= t < s && 0 <= kk < segs[t].led_count() ==> #[trigger] before[led_offset(
                            segs,
                            t,
                        ) + kk] == led_info(segs, center, t, kk),
                    forall|kk: int|
                        0 <= kk < k ==> #[trigger] leds@[start_index + kk] == led_info(
                            segs,
                            center,
                            s as int,
                            kk,
                        ),
                decreases count - k,
            {
                proof {
                    lemma_mul_abs_bound(dx as int, k as int, 131072, 0x100_0000);
                    lemma_mul_abs_bound(dy as int, k as int, 131072, 0x100_0000);
                }
                let x = seg.start.x * scale + dx * (k as i64);
                let y = seg.start.y * scale + dy * (k as i64);
                let position = Position { x, y, scale };
                let direction = Position { x: x - cx * scale, y: y - cy * scale, scale };
                let info = LedInfo { index: start_index + k, segment: s, position, direction };
                assert(info == led_info(segs, center, s as int, k as int));
                leds.push(info);
                assert(leds@.subrange(0, start_index as int) =~= before);
                k = k + 1;
            }
            proof {
                assert forall|t: int, kk: int|
                    0 <= t < s && 0 <= kk < segs[t].led_count() implies #[trigger] leds@[led_offset(
                        segs,
                        t,
                    ) + kk] == led_info(segs, center, t, kk) by {
                    lemma_offset_monotone(segs, t + 1, s as int);
                    lemma_offset_monotone(segs, 0, t);
                    assert(led_offset(segs, t + 1) == led_offset(segs, t) + segs[t].led_count());
                    assert(led_offset(segs, t) + kk < start_index);
                    let x = led_offset(segs, t) + kk;
                    assert(before[x] == led_info(segs, center, t, kk));
                    assert(leds@.subrange(0, start_index as int)[x] == leds@[x]);
                }
            }
            endpoints.push((start_index, start_index + count));
            s = s + 1;
        }
        // vertices, with shared endpoints collapsed
        let mut vertices: Vec<usize> = Vec::new();
        let mut s: usize = 0;
        while s < n
            invariant
                n == segs.len(),
                line_segments@ == segs,
                endpoints@.len() == n,
                forall|j: int|
                    0 <= j < n ==> #[trigger] endpoints@[j] == (
                    led_offset(segs, j) as usize, led_offset(segs, j + 1) as usize),
                s <= n,
                total == led_offset(segs, n as int),
                total <= MAX_LEDS,
                vertices@ == vertex_model(segs, s as int),
            decreases n - s,
        {
            let (first, past) = endpoints[s];
            proof {
                lemma_offset_monotone(segs, s as int, s as int + 1);
                lemma_offset_monotone(segs, s as int + 1, n as int);
                lemma_offset_monotone(segs, 0, s as int);
            }
            if s == 0 || line_segments[s].start != line_segments[s - 1].end {
                vertices.push(first);
            }
            vertices.push(past - 1);
            s = s + 1;
        }
        Ok(
            Layout {
                center_point: config.center_point,
                line_segments,
                leds,
                line_segment_endpoint_indices: endpoints,
                vertex_indices: vertices,
            },
        )
    }
}

} // verus!
