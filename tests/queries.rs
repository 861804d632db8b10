use spatial_led::{Config, Density, Point, SegmentConfig, Sled, SledError};

type Rgb = (u8, u8, u8);

const BLACK: Rgb = (0, 0, 0);
const RED: Rgb = (255, 0, 0);

fn seg(x0: i64, y0: i64, x1: i64, y1: i64) -> SegmentConfig {
    SegmentConfig { start: Point::new(x0, y0), end: Point::new(x1, y1), density: None }
}

fn build(center: (i64, i64), density: Density, segments: Vec<SegmentConfig>) -> Sled<Rgb> {
    let c = Config {
        center_point: Point::new(center.0, center.1),
        default_density: density,
        line_segments: segments,
    };
    Sled::new(&c, BLACK).unwrap()
}

fn corner() -> Sled<Rgb> {
    build((5, 5), Density::new(1, 1), vec![seg(0, 0, 10, 0), seg(10, 0, 10, 10)])
}

fn indices(f: &spatial_led::Filter) -> Vec<usize> {
    f.indices()
}

#[test]
fn ray_hits_vertical_segment_in_the_middle() {
    let sled = build((0, 0), Density::new(1, 1), vec![seg(10, -5, 10, 5)]);
    // t = 1/2 on a ten-LED segment: floor(5.0) = 5
    let led = sled.get_at_dir(Point::new(1, 0)).unwrap();
    assert_eq!(led.index, 5);
}

#[test]
fn ray_hits_led_lying_on_it() {
    let sled = build((0, 0), Density::new(11, 10), vec![seg(10, -5, 10, 5)]);
    let led = sled.get_at_dir(Point::new(1, 0)).unwrap();
    assert_eq!(led.index, 5);
    assert_eq!(led.position.y, 0);
    assert_eq!(led.position.x, 10 * led.position.scale);
    // the ray lands on LED 5: full occupancy
    let hit = sled.get_hit_at_dir_from(Point::new(0, 0), Point::new(1, 0)).unwrap();
    assert_eq!(hit.index, 5);
    assert_eq!(hit.occupancy_num, hit.occupancy_den);
}

#[test]
fn ray_occupancy_between_two_leds() {
    // ten LEDs: none at y = 0; the ray lands halfway between LEDs 4 and 5
    let sled = build((0, 0), Density::new(1, 1), vec![seg(10, -5, 10, 5)]);
    let hit = sled.get_hit_at_dir_from(Point::new(0, 0), Point::new(1, 0)).unwrap();
    assert_eq!(hit.index, 4);
    assert_eq!(2 * hit.occupancy_num, hit.occupancy_den);
    let below = sled.get(4).unwrap().position;
    let above = sled.get(5).unwrap().position;
    assert!(below.y < 0 && above.y > 0);
    assert!(sled.get_hit_at_dir_from(Point::new(0, 0), Point::new(-1, 0)).is_none());
}

#[test]
fn ray_occupancy_on_an_led() {
    // fifteen LEDs: LED 7 sits exactly on the ray
    let dense = build((0, 0), Density::new(3, 2), vec![seg(10, -5, 10, 5)]);
    let hit = dense.get_hit_at_dir_from(Point::new(0, 0), Point::new(1, 0)).unwrap();
    assert_eq!(hit.index, 7);
    assert_eq!(hit.occupancy_num, hit.occupancy_den);
    assert_eq!(dense.get(7).unwrap().position.y, 0);
    // a tenth of the way along a five-LED segment: f = 0.4, between LEDs 0 and 1
    let five = build((0, 0), Density::new(1, 2), vec![seg(10, -1, 10, 9)]);
    let hit = five.get_hit_at_dir_from(Point::new(0, 0), Point::new(1, 0)).unwrap();
    assert_eq!(hit.index, 0);
    assert_eq!(5 * hit.occupancy_num, 3 * hit.occupancy_den);
}

#[test]
fn ray_misses_and_parallel() {
    let mut sled = build((0, 0), Density::new(1, 1), vec![seg(10, -5, 10, 5)]);
    assert!(sled.get_at_dir(Point::new(-1, 0)).is_none());
    assert!(sled.get_at_dir(Point::new(0, 1)).is_none());
    assert!(sled.get_at_dir(Point::new(0, 0)).is_none());
    assert_eq!(sled.set_at_dir(Point::new(-1, 0), RED), Err(SledError::NoLedInDirection));
    assert!(sled.read_colors().iter().all(|c| *c == BLACK));
}

#[test]
fn ray_query_is_deterministic() {
    let mut sled = corner();
    let first = sled.get_at_dir(Point::new(1, -1)).map(|l| l.index);
    sled.set_all(RED);
    let second = sled.get_at_dir(Point::new(1, -1)).map(|l| l.index);
    assert_eq!(first, second);
    // the ray passes the shared corner (10, 0): the first segment's end
    assert_eq!(first, Some(9));
    let miss1 = sled.get_at_dir(Point::new(-1, 1)).map(|l| l.index);
    let miss2 = sled.get_at_dir(Point::new(-1, 1)).map(|l| l.index);
    assert_eq!(miss1, None);
    assert_eq!(miss1, miss2);
}

#[test]
fn ray_takes_first_segment_in_layout_order() {
    // the far wall is declared first and wins over the nearer one
    let sled = build(
        (0, 0),
        Density::new(1, 1),
        vec![seg(20, -5, 20, 5), seg(10, -5, 10, 5)],
    );
    assert_eq!(sled.get_at_dir(Point::new(1, 0)).unwrap().segment, 0);
    assert_eq!(sled.get_at_dir_from(Point::new(15, 0), Point::new(-1, 0)).unwrap().segment, 1);
}

#[test]
fn set_at_dir_colors_the_struck_led() {
    let mut sled = corner();
    sled.set_at_dir(Point::new(1, 0), RED).unwrap();
    // from (5, 5) to the right: the wall x = 10 at y = 5, t = 1/2, index 10 + 5
    assert_eq!(sled.get(15).unwrap().color, RED);
    assert_eq!(sled.read_colors().iter().filter(|c| **c == RED).count(), 1);
}

#[test]
fn closest_led_to_points() {
    let mut sled = corner();
    assert_eq!(sled.get_index_of_closest_to(Point::new(3, -2)), 3);
    assert_eq!(sled.get_index_of_closest_to(Point::new(12, 8)), 18);
    assert_eq!(sled.get_index_of_closest_to(Point::new(-5, -5)), 0);
    // equally near both walls: the first segment wins; its end is clamped to its last LED
    assert_eq!(sled.get_index_of_closest_to(Point::new(11, -1)), 9);
    assert_eq!(sled.get_closest_to(Point::new(10, 10)).index, 19);
    sled.set_closest_to(Point::new(3, -2), RED);
    assert_eq!(sled.get(3).unwrap().color, RED);
}

#[test]
fn at_distance_crossings() {
    let sled = corner();
    // the circle of radius 5 around (5, 5) touches the first wall at (5, 0)
    // and the second wall at (10, 5)
    assert_eq!(indices(&sled.get_at_dist(5)), vec![5, 15]);
    // radius 3 around (0, 0) crosses the first wall at t = 0.3
    assert_eq!(indices(&sled.get_at_dist_from(Point::new(0, 0), 3)), vec![3]);
    assert!(sled.get_at_dist(1).is_empty());
}

#[test]
fn within_distance_ranges() {
    let sled = corner();
    // radius 3 around (0, 0): t in [0, 0.3] of the first wall
    assert_eq!(indices(&sled.get_within_dist_from(Point::new(0, 0), 3)), vec![0, 1, 2, 3]);
    // radius 5 around (10, 0) reaches both walls
    assert_eq!(
        indices(&sled.get_within_dist_from(Point::new(10, 0), 5)),
        vec![5, 6, 7, 8, 9, 10, 11, 12, 13, 14, 15]
    );
}

#[test]
fn within_covers_at_distance() {
    let sled = corner();
    for r in 0..16i64 {
        for (x, y) in [(5, 5), (0, 0), (10, 0), (3, -2), (12, 7)] {
            let p = Point::new(x, y);
            let at = sled.get_at_dist_from(p, r);
            let within = sled.get_within_dist_from(p, r);
            for i in at.indices() {
                assert!(within.contains(i), "r = {}, p = ({}, {}), i = {}", r, x, y, i);
            }
        }
    }
}

#[test]
fn within_large_radius_is_everything_and_zero_is_nothing() {
    let sled = corner();
    assert_eq!(indices(&sled.get_within_dist(8)), (0..20).collect::<Vec<usize>>());
    assert!(sled.get_within_dist(0).is_empty());
    // a radius past the plane's extent reaches no further than the limit
    assert_eq!(indices(&sled.get_within_dist(1_000_000)), (0..20).collect::<Vec<usize>>());
    assert!(sled.get_at_dist(1_000_000).is_empty());
    // LEDs sitting exactly at the query point are found at radius zero:
    // the corner holds the last LED of one segment and the first of the next
    let on_led = sled.get_within_dist_from(Point::new(10, 0), 0);
    assert_eq!(on_led.indices(), vec![9, 10]);
}

#[test]
fn distance_setters() {
    let mut sled = corner();
    assert_eq!(sled.set_at_dist(1, RED), Err(SledError::NoLedsAtDistance));
    assert_eq!(sled.set_within_dist(1, RED), Err(SledError::NoLedsWithinDistance));
    assert!(sled.read_colors().iter().all(|c| *c == BLACK));
    sled.set_at_dist(5, RED).unwrap();
    assert_eq!(sled.get(5).unwrap().color, RED);
    assert_eq!(sled.get(15).unwrap().color, RED);
    assert_eq!(sled.read_colors().iter().filter(|c| **c == RED).count(), 2);
    let mut other = corner();
    other.set_within_dist_from(Point::new(0, 0), 3, RED).unwrap();
    assert_eq!(other.read_colors().iter().filter(|c| **c == RED).count(), 4);
    let mut third = corner();
    third.set_at_dist_from(Point::new(0, 0), 3, RED).unwrap();
    third.set_within_dist(8, (1, 1, 1)).unwrap();
    assert!(third.read_colors().iter().all(|c| *c == (1, 1, 1)));
}

#[test]
fn axis_ray_strikes_led_nearest_the_axis_for_every_density() {
    for leds in 1..40i64 {
        let sled = build((0, 0), Density::new(leds, 10), vec![seg(10, -5, 10, 5)]);
        let n = sled.num_leds();
        let struck = sled.get_at_dir(Point::new(1, 0)).unwrap();
        assert_eq!(struck.index, n / 2);
        let best = sled.read().iter().map(|l| l.position.y.abs()).min().unwrap();
        assert_eq!(struck.position.y.abs(), best);
    }
}

#[test]
fn disk_holding_every_led_selects_all_of_them() {
    let sled = build(
        (0, 0),
        Density::new(3, 2),
        vec![seg(-10, -10, 10, -10), seg(10, -10, 10, 10), seg(10, 10, -7, 10)],
    );
    // every LED lies within sqrt(200) < 15 of the center
    assert_eq!(sled.get_within_dist(15).indices(), (0..sled.num_leds()).collect::<Vec<usize>>());
}
