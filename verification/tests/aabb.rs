use remda::aabb::AABB;
use remda::random::Random;

type Point = [f64; 3];

fn meets(bbox: &AABB<Point>, origin: Point, direction: Point, low: f64, high: f64) -> bool {
    bbox.hit(
        low,
        high,
        &|min: &Point, max: &Point, axis: usize| {
            let inv = 1.0 / direction[axis];
            let t0 = (min[axis] - origin[axis]) * inv;
            let t1 = (max[axis] - origin[axis]) * inv;
            if inv < 0.0 {
                (t1, t0)
            } else {
                (t0, t1)
            }
        },
        &f64::max,
        &f64::min,
        &|to: &f64, from: &f64| to <= from,
    )
}

fn union(a: &AABB<Point>, b: &AABB<Point>) -> AABB<Point> {
    a.union(
        b,
        &|a: &Point, b: &Point| [a[0].min(b[0]), a[1].min(b[1]), a[2].min(b[2])],
        &|a: &Point, b: &Point| [a[0].max(b[0]), a[1].max(b[1]), a[2].max(b[2])],
    )
}

#[test]
fn the_box_around_two_boxes_reaches_from_the_lowest_to_the_highest_corner() {
    let a = AABB::new([0.0, 5.0, -1.0], [1.0, 6.0, 0.0]);
    let b = AABB::new([-2.0, 5.5, 3.0], [0.5, 9.0, 4.0]);
    let around = union(&a, &b);
    assert_eq!(around.min, [-2.0, 5.0, -1.0]);
    assert_eq!(around.max, [1.0, 9.0, 4.0]);
    let same = union(&a, &a);
    assert_eq!((same.min, same.max), (a.min, a.max));
}

#[test]
fn a_box_holds_its_corners() {
    let bbox = AABB::new([0.0, 1.0, 2.0], [3.0, 4.0, 5.0]);
    assert_eq!(*bbox.min(), [0.0, 1.0, 2.0]);
    assert_eq!(*bbox.max(), [3.0, 4.0, 5.0]);
}

#[test]
fn a_ray_through_a_box_meets_it() {
    let bbox = AABB::new([-1.0, -1.0, -1.0], [1.0, 1.0, 1.0]);
    assert!(meets(&bbox, [0.1, 0.2, 5.0], [0.01, 0.01, -1.0], 0.001, f64::INFINITY));
    assert!(meets(&bbox, [-5.0, -5.0, -5.0], [1.0, 1.0, 1.0], 0.001, f64::INFINITY));
    assert!(meets(&bbox, [0.0, 0.0, 0.0], [1.0, 2.0, 3.0], 0.001, f64::INFINITY));
}

#[test]
fn a_ray_beside_a_box_misses_it() {
    let bbox = AABB::new([-1.0, -1.0, -1.0], [1.0, 1.0, 1.0]);
    assert!(!meets(&bbox, [3.0, 0.2, 5.0], [0.01, 0.01, -1.0], 0.001, f64::INFINITY));
    assert!(!meets(&bbox, [0.1, 0.2, 5.0], [0.01, 0.01, 1.0], 0.001, f64::INFINITY));
}

#[test]
fn a_box_outside_the_interval_is_missed() {
    let bbox = AABB::new([-1.0, -1.0, -1.0], [1.0, 1.0, 1.0]);
    let origin = [0.1, 0.2, 5.0];
    let direction = [0.01, 0.01, -1.0];
    assert!(meets(&bbox, origin, direction, 0.001, 4.5));
    assert!(!meets(&bbox, origin, direction, 0.001, 4.0));
    assert!(!meets(&bbox, origin, direction, 6.0, f64::INFINITY));
    assert!(meets(&bbox, origin, direction, 5.0, f64::INFINITY));
}

#[test]
fn an_empty_interval_meets_nothing() {
    let bbox = AABB::new([-1.0, -1.0, -1.0], [1.0, 1.0, 1.0]);
    assert!(!meets(&bbox, [0.0, 0.0, 0.0], [1.0, 1.0, 1.0], 0.5, 0.5));
    assert!(!meets(&bbox, [0.0, 0.0, 0.0], [1.0, 1.0, 1.0], 0.5, 0.25));
}

#[test]
fn a_ray_along_an_axis_crosses_the_other_axes_always() {
    let bbox = AABB::new([-1.0, -1.0, -1.0], [1.0, 1.0, 1.0]);
    assert!(meets(&bbox, [0.5, 0.5, 5.0], [0.0, 0.0, -1.0], 0.001, f64::INFINITY));
    assert!(!meets(&bbox, [1.5, 0.5, 5.0], [0.0, 0.0, -1.0], 0.001, f64::INFINITY));
}

#[test]
fn the_test_stops_at_the_first_axis_that_empties_the_interval() {
    let bbox = AABB::new(0u8, 1u8);
    let met = bbox.hit(
        0i64,
        10i64,
        &|_: &u8, _: &u8, axis: usize| {
            assert_eq!(axis, 0);
            (20i64, 30i64)
        },
        &|a: i64, b: i64| a.max(b),
        &|a: i64, b: i64| a.min(b),
        &|to: &i64, from: &i64| to <= from,
    );
    assert!(!met);
}

#[test]
fn the_interval_is_narrowed_axis_by_axis() {
    let bbox = AABB::new((), ());
    let sides = [(0i64, 10i64), (2, 8), (5, 6)];
    let test = |low: i64, high: i64| {
        bbox.hit(
            low,
            high,
            &|_: &(), _: &(), axis: usize| sides[axis],
            &|a: i64, b: i64| a.max(b),
            &|a: i64, b: i64| a.min(b),
            &|to: &i64, from: &i64| to <= from,
        )
    };
    assert!(test(0, 100));
    assert!(test(5, 6));
    assert!(!test(6, 100));
    assert!(!test(0, 5));
    assert!(test(0, 6));
}

fn draw() -> f64 {
    Random::range(0, 2000) as f64 / 100.0 - 10.0
}

#[test]
fn the_box_around_two_boxes_is_met_wherever_one_of_them_is() {
    for _ in 0..2000 {
        let a = AABB::new([draw(), draw(), draw()], [draw() + 20.0, draw() + 20.0, draw() + 20.0]);
        let b = AABB::new([draw(), draw(), draw()], [draw() + 20.0, draw() + 20.0, draw() + 20.0]);
        let around = union(&a, &b);
        let origin = [3.0 * draw(), 3.0 * draw(), 3.0 * draw()];
        let direction = [draw() + 0.005, draw() + 0.005, draw() + 0.005];
        let low = Random::range(0, 300) as f64 / 100.0;
        let high = low + Random::range(0, 1000) as f64 / 100.0;
        if meets(&a, origin, direction, low, high) || meets(&b, origin, direction, low, high) {
            assert!(meets(&around, origin, direction, low, high));
        }
    }
}
