//! What holds of every built model, stated over the contracts' own spec
//! functions and proved.
use vstd::prelude::*;

use crate::distance::{
    at_dist_on, at_dist_sel, led_closer_than, within_dist_on, within_dist_sel,
};
use crate::geometry::Point;
use crate::layout::{
    led_info, led_offset, lemma_offset_monotone, lemma_segment_of, lemma_vertices_in_range,
    position_scale, vertex_model, MAX_LEDS,
};
use crate::geometry::lemma_mul_abs_bound;
use crate::queries::{first_ray_hit, index_at_dir};
use crate::segment::LineSegment;
use crate::sled::{paint, Sled};

verus! {

/// The number of segments among the first `k` that start a new run: the
/// first one, and each that does not start where the previous one ended.
pub open spec fn run_starts(segs: Seq<LineSegment>, k: int) -> int
    decreases k,
{
    if k <= 0 {
        0
    } else {
        run_starts(segs, k - 1) + if k == 1 || segs[k - 1].start != segs[k - 2].end {
            1int
        } else {
            0int
        }
    }
}

/// A built model holds exactly as many LEDs as its segments' LED counts sum
/// to, and every LED's index is its place in the buffer.
pub proof fn lemma_led_count_and_indices<C: Copy>(s: Sled<C>)
    requires
        s.wf(),
    ensures
        s.num_leds_spec() == led_offset(s.layout().segs(), s.num_segments_spec()),
        forall|i: int| 0 <= i < s.num_leds_spec() ==> #[trigger] s.led(i).index == i,
{
}

/// Setting LED `i` to `c` and then reading LED `i` gives back `c`: after a
/// successful `set(i, c)`, `get(i)` returns the LED with color `c`.
pub proof fn lemma_set_then_get<C: Copy>(before: Sled<C>, after: Sled<C>, i: usize, c: C)
    requires
        before.wf(),
        i < before.num_leds_spec(),
        after.layout() == before.layout(),
        after.colors() == before.colors().update(i as int, c),
    ensures
        after.wf(),
        i < after.num_leds_spec(),
        after.led(i as int).color == c,
        after.led(i as int).index == i,
{
}

/// Painting a selection twice with one color leaves the colors as painting
/// it once does; `set_range`, `set_segment`, `set_segments`, `set_filter`,
/// `set_vertices` and the distance setters all paint a selection.
pub proof fn lemma_paint_idempotent<C>(colors: Seq<C>, sel: spec_fn(int) -> bool, c: C)
    ensures
        paint(paint(colors, sel, c), sel, c) == paint(colors, sel, c),
{
    assert(paint(paint(colors, sel, c), sel, c) =~= paint(colors, sel, c));
}

/// The LED a ray strikes depends on the layout, the origin and the direction
/// alone: two models with one layout answer a direction query alike,
/// whatever their colors.
pub proof fn lemma_direction_deterministic<C: Copy>(a: Sled<C>, b: Sled<C>, o: Point, d: Point)
    requires
        a.layout() == b.layout(),
    ensures
        index_at_dir(a.layout(), o, d) == index_at_dir(b.layout(), o, d),
{
}

/// A segment that starts exactly where the previous one ended adds only its
/// last LED as a vertex: the shared point is one vertex, not two. One that
/// starts elsewhere adds its first LED too.
pub proof fn lemma_shared_endpoint_one_vertex(segs: Seq<LineSegment>, j: int)
    requires
        1 <= j < segs.len(),
    ensures
        segs[j].start == segs[j - 1].end ==> vertex_model(segs, j + 1) == vertex_model(
            segs,
            j,
        ).push((led_offset(segs, j + 1) - 1) as usize),
        segs[j].start != segs[j - 1].end ==> vertex_model(segs, j + 1) == vertex_model(
            segs,
            j,
        ).push(led_offset(segs, j) as usize).push((led_offset(segs, j + 1) - 1) as usize),
{
}

/// The first `k` segments give one vertex per segment plus one per run start.
pub proof fn lemma_vertex_count(segs: Seq<LineSegment>, k: int)
    requires
        0 <= k <= segs.len(),
    ensures
        vertex_model(segs, k).len() == k + run_starts(segs, k),
    decreases k,
{
    if k > 0 {
        lemma_vertex_count(segs, k - 1);
    }
}

/// The vertices of the first `j` segments begin the vertices of the first
/// `i`; the ones the later segments add lie at or past segment `j`'s first LED.
pub proof fn lemma_vertex_prefix(segs: Seq<LineSegment>, j: int, i: int)
    requires
        0 <= j <= i <= segs.len(),
        led_offset(segs, segs.len() as int) <= MAX_LEDS,
    ensures
        vertex_model(segs, j).len() <= vertex_model(segs, i).len(),
        vertex_model(segs, i).subrange(0, vertex_model(segs, j).len() as int) == vertex_model(
            segs,
            j,
        ),
        forall|q: int|
            vertex_model(segs, j).len() <= q < vertex_model(segs, i).len() ==> led_offset(segs, j)
                <= #[trigger] vertex_model(segs, i)[q],
    decreases i - j,
{
    if j < i {
        lemma_vertex_prefix(segs, j, i - 1);
        lemma_offset_monotone(segs, 0, i - 1);
        lemma_offset_monotone(segs, j, i - 1);
        lemma_offset_monotone(segs, i - 1, i);
        lemma_offset_monotone(segs, i, segs.len() as int);
        let prev = vertex_model(segs, i - 1);
        let cur = vertex_model(segs, i);
        let lj = vertex_model(segs, j).len() as int;
        let with_start = if i == 1 || segs[i - 1].start != segs[i - 2].end {
            prev.push(led_offset(segs, i - 1) as usize)
        } else {
            prev
        };
        assert(cur == with_start.push((led_offset(segs, i) - 1) as usize));
        assert forall|q: int| 0 <= q < prev.len() implies #[trigger] cur[q] == prev[q] by {
            assert(with_start[q] == prev[q]);
        }
        assert(cur.subrange(0, lj) =~= vertex_model(segs, j)) by {
            assert forall|q: int| 0 <= q < lj implies cur.subrange(0, lj)[q] == vertex_model(
                segs,
                j,
            )[q] by {
                assert(prev.subrange(0, lj)[q] == prev[q]);
            }
        }
        assert forall|q: int| lj <= q < cur.len() implies led_offset(segs, j)
            <= #[trigger] cur[q] by {
            if q < prev.len() {
                assert(cur[q] == prev[q]);
            } else if q < with_start.len() {
                assert(cur[q] == with_start[q]);
            }
        }
    }
}

/// Where segment `k + 1` starts exactly at segment `k`'s end, and both hold
/// more than one LED, the LED at that joint (the last of segment `k`) is a
/// vertex exactly once, and the first LED of segment `k + 1` is not one.
pub proof fn lemma_shared_joint_once(segs: Seq<LineSegment>, k: int)
    requires
        0 <= k,
        k + 1 < segs.len(),
        segs[k + 1].start == segs[k].end,
        segs[k].led_count() > 1,
        segs[k + 1].led_count() > 1,
        led_offset(segs, segs.len() as int) <= MAX_LEDS,
    ensures
        ({
            let vs = vertex_model(segs, segs.len() as int);
            let o = led_offset(segs, k + 1);
            &&& exists|p: int|
                0 <= p < vs.len() && vs[p] == o - 1 && forall|q: int|
                    0 <= q < vs.len() && #[trigger] vs[q] == o - 1 ==> q == p
            &&& forall|q: int| 0 <= q < vs.len() ==> #[trigger] vs[q] != o
        }),
{
    let n = segs.len() as int;
    let vs = vertex_model(segs, n);
    let o = led_offset(segs, k + 1);
    let o2 = led_offset(segs, k + 2);
    let a = vertex_model(segs, k);
    let b = vertex_model(segs, k + 1);
    let c = vertex_model(segs, k + 2);
    lemma_offset_monotone(segs, 0, k);
    lemma_offset_monotone(segs, k + 2, n);
    lemma_vertices_in_range(segs, k);
    lemma_vertex_prefix(segs, k + 2, n);
    lemma_vertex_prefix(segs, k, k + 1);
    assert(c == b.push((o2 - 1) as usize));
    let p = b.len() - 1;
    assert(b[p] == o - 1);
    assert forall|q: int| 0 <= q < vs.len() implies (#[trigger] vs[q] == o - 1 ==> q == p) && vs[q]
        != o by {
        if q < c.len() {
            assert(vs[q] == vs.subrange(0, c.len() as int)[q]);
            if q < b.len() {
                assert(c[q] == b[q]);
                if q < a.len() {
                    assert(b[q] == b.subrange(0, a.len() as int)[q]);
                    assert(a[q] < led_offset(segs, k));
                } else if q < p {
                    assert(b[q] == led_offset(segs, k));
                }
            }
        }
    }
    assert(vs[p] == vs.subrange(0, c.len() as int)[p]);
    assert(c[p] == b[p]);
}

pub open spec fn abs(x: int) -> int {
    if x < 0 {
        -x
    } else {
        x
    }
}

/// A ray from the origin along the x axis, at a layout of one vertical
/// segment from `(10, -5)` to `(10, 5)`, strikes LED `count / 2` whatever the
/// density, and no LED of the segment lies nearer the line `y = 0`.
pub proof fn lemma_axis_ray_strikes_nearest<C: Copy>(s: Sled<C>)
    requires
        s.wf(),
        s.num_segments_spec() == 1,
        s.layout().segs()[0].start == (Point { x: 10i64, y: -5i64 }),
        s.layout().segs()[0].end == (Point { x: 10i64, y: 5i64 }),
    ensures
        index_at_dir(s.layout(), (Point { x: 0i64, y: 0i64 }), (Point { x: 1i64, y: 0i64 })) == Some(
            s.num_leds_spec() / 2,
        ),
        forall|k: int|
            0 <= k < s.num_leds_spec() ==> abs(
                s.layout().leds@[s.num_leds_spec() / 2].position.y as int,
            ) <= abs(#[trigger] s.layout().leds@[k].position.y as int),
{
    let l = s.layout();
    let segs = l.segs();
    let seg = segs[0];
    let o = Point { x: 0i64, y: 0i64 };
    let d = Point { x: 1i64, y: 0i64 };
    assert(seg.ray_hit(o, d) == Some((5int, 10int)));
    assert(first_ray_hit(segs, o, d, 0) == Some(0int));
    s.lemma_segment_bounds(0);
    let n = seg.led_count();
    assert(l.offset(0) == 0);
    assert(n == s.num_leds_spec());
    let m = n / 2;
    assert((5 * n) / 10 == m);
    let sc = position_scale(seg);
    assert forall|k: int| 0 <= k < n implies #[trigger] l.leds@[k].position.y == -5 * sc + 10 * k by {
        assert(l.leds@[l.offset(0) + k] == led_info(segs, l.center_point, 0, k));
    }
    assert forall|k: int| 0 <= k < n implies abs(l.leds@[m].position.y as int) <= abs(
        #[trigger] l.leds@[k].position.y as int,
    ) by {
        assert(l.leds@[m].position.y == -5 * sc + 10 * m);
        assert(l.leds@[k].position.y == -5 * sc + 10 * k);
    }
}

/// A point whose coordinates are scaled by `sc > 0` lies strictly within
/// `r` of `p` exactly when the unscaled point does.
proof fn lemma_unscale(x: int, y: int, px: int, py: int, sc: int, r: int)
    requires
        sc > 0,
        (x * sc - px * sc) * (x * sc - px * sc) + (y * sc - py * sc) * (y * sc - py * sc) < r * r
            * (sc * sc),
    ensures
        (x - px) * (x - px) + (y - py) * (y - py) < r * r,
{
    assert((x * sc - px * sc) * (x * sc - px * sc) + (y * sc - py * sc) * (y * sc - py * sc) == ((
    x - px) * (x - px) + (y - py) * (y - py)) * (sc * sc)) by (nonlinear_arith);
    assert(sc * sc > 0) by (nonlinear_arith)
        requires
            sc > 0,
    ;
    assert((x - px) * (x - px) + (y - py) * (y - py) < r * r) by (nonlinear_arith)
        requires
            ((x - px) * (x - px) + (y - py) * (y - py)) * (sc * sc) < r * r * (sc * sc),
            sc * sc > 0,
    ;
}

/// A disk around `p` that holds every LED strictly inside selects every
/// LED for a within-distance query.
pub proof fn lemma_large_radius_selects_all<C: Copy>(s: Sled<C>, p: Point, r: int)
    requires
        s.wf(),
        p.in_bounds(),
        forall|i: int|
            0 <= i < s.num_leds_spec() ==> #[trigger] led_closer_than(
                s.layout().leds@[i].position,
                p,
                r,
            ),
    ensures
        forall|i: int| 0 <= i < s.num_leds_spec() ==> #[trigger] within_dist_sel(s.layout(), p, r)(i),
{
    let l = s.layout();
    let segs = l.segs();
    let nseg = l.num_segs();
    assert forall|i: int| 0 <= i < s.num_leds_spec() implies #[trigger] within_dist_sel(l, p, r)(
        i,
    ) by {
        lemma_offset_monotone(segs, 0, 0);
        let j = lemma_segment_of(segs, i, 0);
        s.lemma_segment_bounds(j);
        let seg = segs[j];
        assert(seg.valid());
        let n = seg.led_count();
        let sc = position_scale(seg);
        let off = l.offset(j);
        lemma_mul_abs_bound(seg.start.x as int, sc, 65536, 0x100_0000);
        lemma_mul_abs_bound(seg.start.y as int, sc, 65536, 0x100_0000);
        lemma_mul_abs_bound(p.x as int, sc, 65536, 0x100_0000);
        lemma_mul_abs_bound(p.y as int, sc, 65536, 0x100_0000);
        // the first LED sits at the start
        assert(l.leds@[off + 0] == led_info(segs, l.center_point, j, 0));
        assert(led_closer_than(l.leds@[off].position, p, r));
        lemma_unscale(seg.start.x as int, seg.start.y as int, p.x as int, p.y as int, sc, r);
        assert(seg.qc(p, r) < 0);
        if n > 1 {
            // the last LED sits at the end
            let k = n - 1;
            lemma_mul_abs_bound(seg.dx(), k, 131072, 0x100_0000);
            lemma_mul_abs_bound(seg.dy(), k, 131072, 0x100_0000);
            assert(l.leds@[off + k] == led_info(segs, l.center_point, j, k));
            assert(led_closer_than(l.leds@[off + k].position, p, r));
            assert(seg.start.x * sc + seg.dx() * k == seg.end.x * sc) by (nonlinear_arith)
                requires
                    sc == k,
                    seg.dx() == seg.end.x - seg.start.x,
            ;
            assert(seg.start.y * sc + seg.dy() * k == seg.end.y * sc) by (nonlinear_arith)
                requires
                    sc == k,
                    seg.dy() == seg.end.y - seg.start.y,
            ;
            lemma_unscale(seg.end.x as int, seg.end.y as int, p.x as int, p.y as int, sc, r);
            let wx = seg.start.x - p.x;
            let wy = seg.start.y - p.y;
            assert(seg.len2() + seg.qb(p) + seg.qc(p, r) == (seg.end.x - p.x) * (seg.end.x - p.x)
                + (seg.end.y - p.y) * (seg.end.y - p.y) - r * r) by (nonlinear_arith)
                requires
                    seg.len2() == seg.dx() * seg.dx() + seg.dy() * seg.dy(),
                    seg.qb(p) == 2 * (seg.dx() * wx + seg.dy() * wy),
                    seg.qc(p, r) == wx * wx + wy * wy - r * r,
                    seg.dx() == seg.end.x - seg.start.x,
                    seg.dy() == seg.end.y - seg.start.y,
                    wx == seg.start.x - p.x,
                    wy == seg.start.y - p.y,
            ;
        }
        seg.lemma_start_inside(p, r, n);
        assert(within_dist_on(l, p, r, j, i));
    }
}

/// Every LED at distance `r` from `p` is also within distance `r` of `p`.
pub proof fn lemma_at_dist_within<C: Copy>(s: Sled<C>, p: Point, r: int)
    requires
        s.wf(),
    ensures
        forall|i: int| #[trigger]
            at_dist_sel(s.layout(), p, r)(i) ==> within_dist_sel(s.layout(), p, r)(i),
{
    let l = s.layout();
    assert forall|i: int| #[trigger] at_dist_sel(l, p, r)(i) implies within_dist_sel(l, p, r)(
        i,
    ) by {
        let j = choose|j: int| 0 <= j < l.num_segs() && #[trigger] at_dist_on(l, p, r, j, i);
        let seg = l.segs()[j];
        let n = seg.led_count();
        assert(seg.valid());
        assert(n >= 1);
        seg.lemma_lo_le_hi(p, r, n);
        if seg.hi_on_segment(p, r) {
            seg.lemma_hi_floor_bounds(p, r, n);
        }
        if seg.lo_on_segment(p, r) {
            seg.lemma_lo_floor_bounds(p, r, n);
        }
        assert(within_dist_on(l, p, r, j, i));
    }
}

} // verus!
