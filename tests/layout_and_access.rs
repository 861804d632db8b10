use spatial_led::{Config, Density, Point, SegmentConfig, Sled, SledError};

type Rgb = (u8, u8, u8);

const BLACK: Rgb = (0, 0, 0);
const RED: Rgb = (255, 0, 0);
const GREEN: Rgb = (0, 255, 0);

fn seg(x0: i64, y0: i64, x1: i64, y1: i64) -> SegmentConfig {
    SegmentConfig { start: Point::new(x0, y0), end: Point::new(x1, y1), density: None }
}

fn config(center: (i64, i64), density: Density, segments: Vec<SegmentConfig>) -> Config {
    Config {
        center_point: Point::new(center.0, center.1),
        default_density: density,
        line_segments: segments,
    }
}

/// Two segments meeting at (10, 0): ten LEDs each at one LED per unit.
fn corner() -> Sled<Rgb> {
    let c = config((5, 5), Density::new(1, 1), vec![seg(0, 0, 10, 0), seg(10, 0, 10, 10)]);
    Sled::new(&c, BLACK).unwrap()
}

#[test]
fn single_segment_density_one_rounds_length() {
    let c = config((5, 0), Density::new(1, 1), vec![seg(0, 0, 10, 0)]);
    let sled: Sled<Rgb> = Sled::new(&c, BLACK).unwrap();
    assert_eq!(sled.num_leds(), 10);
    assert_eq!(sled.num_vertices(), 2);
    assert_eq!(sled.get_vertex(0).unwrap().index, 0);
    assert_eq!(sled.get_vertex(1).unwrap().index, 9);
    let last = sled.get(9).unwrap();
    assert_eq!(last.position.x, 10 * last.position.scale);
    assert_eq!(last.position.y, 0);
}

#[test]
fn single_segment_eleven_leds_at_integer_coordinates() {
    let c = config((5, 0), Density::new(11, 10), vec![seg(0, 0, 10, 0)]);
    let sled: Sled<Rgb> = Sled::new(&c, BLACK).unwrap();
    assert_eq!(sled.num_leds(), 11);
    for i in 0..11usize {
        let led = sled.get(i).unwrap();
        assert_eq!(led.position.scale, 10);
        assert_eq!(led.position.x, 10 * i as i64);
        assert_eq!(led.position.y, 0);
    }
    assert_eq!(sled.get_vertex(0).unwrap().index, 0);
    assert_eq!(sled.get_vertex(1).unwrap().index, 10);
    assert!(sled.get_vertex(2).is_none());
    // the LED at the center has a zero offset from it
    let mid = sled.get(5).unwrap();
    assert_eq!((mid.direction.x, mid.direction.y), (0, 0));
}

#[test]
fn shared_endpoint_gives_three_vertices() {
    let sled = corner();
    assert_eq!(sled.num_vertices(), 3);
    let v: Vec<usize> = sled.get_vertices().iter().map(|l| l.index).collect();
    assert_eq!(v, vec![0, 9, 19]);
    // the joint is LED 9 once; the second segment's first LED is no vertex
    assert_eq!(v.iter().filter(|i| **i == 9).count(), 1);
    assert!(!v.contains(&10));
}

#[test]
fn disjoint_segments_give_four_vertices() {
    let c = config((5, 5), Density::new(1, 1), vec![seg(0, 0, 10, 0), seg(10, 1, 10, 10)]);
    let sled: Sled<Rgb> = Sled::new(&c, BLACK).unwrap();
    // the second segment is 9 long: 9 LEDs
    assert_eq!(sled.num_leds(), 19);
    let v: Vec<usize> = sled.get_vertices().iter().map(|l| l.index).collect();
    assert_eq!(v, vec![0, 9, 10, 18]);
}

#[test]
fn led_count_is_sum_and_indices_match_positions() {
    let c = config(
        (0, 0),
        Density::new(3, 2),
        vec![seg(-10, -10, 10, -10), seg(10, -10, 10, 10), seg(10, 10, -7, 10)],
    );
    let sled: Sled<Rgb> = Sled::new(&c, BLACK).unwrap();
    // 20 * 1.5 = 30, 30, 17 * 1.5 = 25.5 rounds to 26
    assert_eq!(sled.num_leds(), 30 + 30 + 26);
    for (i, led) in sled.read().iter().enumerate() {
        assert_eq!(led.index, i);
    }
    assert_eq!(sled.get_segment(2).unwrap().len(), 26);
    assert_eq!(sled.get_segment(1).unwrap()[0].index, 30);
    assert_eq!(sled.get_segment(1).unwrap()[0].segment, 1);
}

#[test]
fn diagonal_segment_rounds_its_length() {
    // length 5 * sqrt(2) = 7.07..., times 2 is 14.14: 14 LEDs
    let c = config((0, 0), Density::new(2, 1), vec![seg(1, 1, 6, 6)]);
    let sled: Sled<Rgb> = Sled::new(&c, BLACK).unwrap();
    assert_eq!(sled.num_leds(), 14);
}

#[test]
fn zero_density_still_places_one_led_at_the_start() {
    let c = config((0, 0), Density::new(0, 1), vec![seg(3, 4, 8, 4)]);
    let sled: Sled<Rgb> = Sled::new(&c, BLACK).unwrap();
    assert_eq!(sled.num_leds(), 1);
    let led = sled.get(0).unwrap();
    assert_eq!((led.position.x, led.position.y, led.position.scale), (3, 4, 1));
    assert_eq!(sled.num_vertices(), 2);
}

#[test]
fn segment_density_overrides_default() {
    let mut s1 = seg(10, 0, 10, 10);
    s1.density = Some(Density::new(2, 1));
    let c = config((5, 5), Density::new(1, 1), vec![seg(0, 0, 10, 0), s1]);
    let sled: Sled<Rgb> = Sled::new(&c, BLACK).unwrap();
    assert_eq!(sled.num_leds(), 10 + 20);
}

#[test]
fn construction_errors() {
    let empty = config((0, 0), Density::new(1, 1), vec![]);
    assert_eq!(Sled::<Rgb>::new(&empty, BLACK).err(), Some(SledError::EmptyLayout));
    let far_center = config((100_000, 0), Density::new(1, 1), vec![seg(0, 0, 1, 0)]);
    assert_eq!(Sled::<Rgb>::new(&far_center, BLACK).err(), Some(SledError::CenterOutOfBounds));
    let far = config((0, 0), Density::new(1, 1), vec![seg(0, 0, 1, 0), seg(0, 0, 70_000, 0)]);
    assert_eq!(Sled::<Rgb>::new(&far, BLACK).err(), Some(SledError::CoordinateOutOfBounds(1)));
    let degenerate = config((0, 0), Density::new(1, 1), vec![seg(2, 2, 2, 2)]);
    assert_eq!(Sled::<Rgb>::new(&degenerate, BLACK).err(), Some(SledError::DegenerateSegment(0)));
    let negative = config((0, 0), Density::new(-1, 1), vec![seg(0, 0, 1, 0)]);
    assert_eq!(Sled::<Rgb>::new(&negative, BLACK).err(), Some(SledError::InvalidDensity(0)));
    let no_length = config((0, 0), Density::new(1, 0), vec![seg(0, 0, 1, 0)]);
    assert_eq!(Sled::<Rgb>::new(&no_length, BLACK).err(), Some(SledError::InvalidDensity(0)));
    let dense = config((0, 0), Density::new(65536, 1), vec![seg(-65536, 0, 65536, 0)]);
    assert_eq!(Sled::<Rgb>::new(&dense, BLACK).err(), Some(SledError::TooManyLeds));
}

#[test]
fn set_then_get_round_trip() {
    let mut sled = corner();
    for i in 0..sled.num_leds() {
        sled.set(i, (i as u8, 1, 2)).unwrap();
        assert_eq!(sled.get(i).unwrap().color, (i as u8, 1, 2));
    }
    assert_eq!(sled.set(20, RED), Err(SledError::LedOutOfRange(20)));
    assert!(sled.get(20).is_none());
}

#[test]
fn get_mut_writes_in_place() {
    let mut sled = corner();
    *sled.get_mut(3).unwrap() = RED;
    assert_eq!(sled.get(3).unwrap().color, RED);
    assert_eq!(sled.get(4).unwrap().color, BLACK);
    assert!(sled.get_mut(20).is_none());
}

#[test]
fn set_all_and_read_colors() {
    let mut sled = corner();
    sled.set_all(GREEN);
    assert!(sled.read_colors().iter().all(|c| *c == GREEN));
    assert_eq!(sled.read_colors().len(), 20);
}

#[test]
fn set_range_twice_equals_once() {
    let mut once = corner();
    once.set(4, GREEN).unwrap();
    let mut twice = corner();
    twice.set(4, GREEN).unwrap();
    once.set_range(2..7, RED).unwrap();
    twice.set_range(2..7, RED).unwrap();
    twice.set_range(2..7, RED).unwrap();
    assert_eq!(once.read_colors(), twice.read_colors());
    let colors = once.read_colors();
    assert_eq!(colors[1], BLACK);
    assert_eq!(colors[2], RED);
    assert_eq!(colors[6], RED);
    assert_eq!(colors[7], BLACK);
}

#[test]
fn set_segment_twice_equals_once() {
    let mut once = corner();
    let mut twice = corner();
    once.set_segment(1, RED).unwrap();
    twice.set_segment(1, RED).unwrap();
    twice.set_segment(1, RED).unwrap();
    assert_eq!(once.read_colors(), twice.read_colors());
    assert_eq!(once.read_colors()[9], BLACK);
    assert_eq!(once.read_colors()[10], RED);
}

#[test]
fn set_filter_twice_equals_once() {
    let mut once = corner();
    let mut twice = corner();
    let f = once.vertices();
    once.set_filter(&f, RED);
    twice.set_filter(&f, RED);
    twice.set_filter(&f, RED);
    assert_eq!(once.read_colors(), twice.read_colors());
    let lit: Vec<usize> =
        (0..20).filter(|i| once.read_colors()[*i] == RED).collect();
    assert_eq!(lit, vec![0, 9, 19]);
}

#[test]
fn range_errors_change_nothing() {
    let mut sled = corner();
    assert_eq!(sled.set_range(5..3, RED), Err(SledError::InvalidRange(5, 3)));
    assert_eq!(sled.set_range(15..21, RED), Err(SledError::InvalidRange(15, 21)));
    assert!(sled.read_colors().iter().all(|c| *c == BLACK));
    assert!(sled.get_range(15..21).is_none());
    assert_eq!(sled.get_range(18..20).unwrap().len(), 2);
    assert_eq!(sled.get_range(3..3).unwrap().len(), 0);
}

#[test]
fn segment_and_vertex_errors() {
    let mut sled = corner();
    assert!(sled.get_segment(2).is_none());
    assert!(sled.segment(2).is_none());
    assert_eq!(sled.set_segment(2, RED), Err(SledError::SegmentOutOfRange(2)));
    assert_eq!(sled.set_vertex(3, RED), Err(SledError::VertexOutOfRange(3)));
    assert_eq!(sled.modulate_vertex(3, |l| l.color), Err(SledError::VertexOutOfRange(3)));
    assert_eq!(sled.modulate_segment(2, |l| l.color), Err(SledError::SegmentOutOfRange(2)));
    assert_eq!(sled.set_segments(1..3, RED), Err(SledError::InvalidRange(1, 3)));
    assert_eq!(sled.modulate_segments(2..1, |l| l.color), Err(SledError::InvalidRange(2, 1)));
    assert!(sled.get_segments(0..3).is_none());
    assert!(sled.segments(1..0).is_none());
    assert!(sled.vertex(3).is_none());
    // an empty range must still start at a segment
    assert_eq!(sled.set_segments(2..2, RED), Err(SledError::InvalidRange(2, 2)));
    assert!(sled.segments(2..2).is_none());
    assert!(sled.get_segments(2..2).is_none());
    assert_eq!(sled.modulate_segments(2..2, |l| l.color), Err(SledError::InvalidRange(2, 2)));
    assert!(sled.read_colors().iter().all(|c| *c == BLACK));
}

#[test]
fn segment_ranges_are_half_open() {
    let mut sled = corner();
    assert_eq!(sled.get_segments(0..1).unwrap().len(), 10);
    assert_eq!(sled.get_segments(0..2).unwrap().len(), 20);
    assert_eq!(sled.get_segments(1..1).unwrap().len(), 0);
    let f = sled.segments(1..2).unwrap();
    assert_eq!(f.indices(), (10..20).collect::<Vec<usize>>());
    sled.set_segments(0..1, RED).unwrap();
    assert_eq!(sled.read_colors()[9], RED);
    assert_eq!(sled.read_colors()[10], BLACK);
}

#[test]
fn vertex_writes() {
    let mut sled = corner();
    sled.set_vertex(1, RED).unwrap();
    assert_eq!(sled.get(9).unwrap().color, RED);
    sled.set_vertices(GREEN);
    assert_eq!(sled.get(0).unwrap().color, GREEN);
    assert_eq!(sled.get(9).unwrap().color, GREEN);
    assert_eq!(sled.get(19).unwrap().color, GREEN);
    assert_eq!(sled.get(10).unwrap().color, BLACK);
    sled.modulate_vertices(|l| (l.color.0, l.color.1 / 2, 7));
    assert_eq!(sled.get(19).unwrap().color, (0, 127, 7));
    sled.modulate_vertex(0, |l| (l.index as u8, 0, 0)).unwrap();
    assert_eq!(sled.get(0).unwrap().color, (0, 0, 0));
}

#[test]
fn modulate_and_map() {
    let mut sled = corner();
    sled.map_by_index(|i| (i as u8, 0, 0));
    assert_eq!(sled.get(13).unwrap().color, (13, 0, 0));
    sled.map_by_segment(|s| (0, s as u8, 0));
    assert_eq!(sled.get(3).unwrap().color, (0, 0, 0));
    assert_eq!(sled.get(13).unwrap().color, (0, 1, 0));
    sled.map(|l| (l.index as u8, l.color.1, 9));
    assert_eq!(sled.get(15).unwrap().color, (15, 1, 9));
    sled.modulate_segment(0, |l| (l.color.0 + 100, 0, 0)).unwrap();
    assert_eq!(sled.get(2).unwrap().color, (102, 0, 0));
    assert_eq!(sled.get(12).unwrap().color, (12, 1, 9));
    sled.modulate_segments(0..2, |l| (0, 0, l.color.2)).unwrap();
    assert_eq!(sled.get(12).unwrap().color, (0, 0, 9));
}

#[test]
fn segment_alpha_runs_from_zero_below_one() {
    let mut sled = corner();
    sled.modulate_segment_with_alpha(1, |_l, k, n| ((100 * k / n) as u8, n as u8, 0)).unwrap();
    assert_eq!(sled.get(10).unwrap().color, (0, 10, 0));
    assert_eq!(sled.get(15).unwrap().color, (50, 10, 0));
    assert_eq!(sled.get(19).unwrap().color, (90, 10, 0));
    assert_eq!(sled.get(9).unwrap().color, BLACK);
    assert_eq!(
        sled.modulate_segment_with_alpha(2, |l, _k, _n| l.color),
        Err(SledError::SegmentOutOfRange(2))
    );
}

#[test]
fn predicate_filters_and_algebra() {
    let mut sled = corner();
    let low = sled.filter(|l| l.index < 5);
    let even = sled.filter(|l| l.index % 2 == 0);
    assert_eq!(low.union(&even).indices(), vec![0, 1, 2, 3, 4, 6, 8, 10, 12, 14, 16, 18]);
    assert_eq!(low.intersection(&even).indices(), vec![0, 2, 4]);
    assert_eq!(low.difference(&even).indices(), vec![1, 3]);
    assert!(low.contains(4));
    assert!(!low.contains(5));
    assert!(!sled.filter(|l| l.index > 100).contains(0));
    assert!(sled.filter(|l| l.index > 100).is_empty());
    sled.modulate_filter(&low, |l| (l.index as u8 + 1, 0, 0));
    assert_eq!(sled.get(3).unwrap().color, (4, 0, 0));
    assert_eq!(sled.get(5).unwrap().color, BLACK);
    let got: Vec<usize> = sled.get_filter(&low.difference(&even)).iter().map(|l| l.index).collect();
    assert_eq!(got, vec![1, 3]);
}
