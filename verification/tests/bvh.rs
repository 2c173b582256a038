use remda::bvh::{NoBoundingBox, BVH};
use remda::list::HittableList;
use remda::random::Random;
use remda::sort::MinCorner;

#[derive(Debug, Clone, Copy, PartialEq)]
struct Boxed {
    min: [f64; 3],
    max: [f64; 3],
}

#[derive(Debug, Clone, Copy)]
struct Ball {
    center: [f64; 3],
    radius: f64,
}

#[derive(Debug, Clone, Copy)]
struct Beam {
    origin: [f64; 3],
    direction: [f64; 3],
}

fn dot(a: [f64; 3], b: [f64; 3]) -> f64 {
    a[0] * b[0] + a[1] * b[1] + a[2] * b[2]
}

fn minus(a: [f64; 3], b: [f64; 3]) -> [f64; 3] {
    [a[0] - b[0], a[1] - b[1], a[2] - b[2]]
}

fn ball_hit(ball: &Ball, beam: &Beam, low: f64, high: f64) -> Option<(f64, usize)> {
    let l = minus(beam.origin, ball.center);
    let half_b = dot(beam.direction, l);
    let a = dot(beam.direction, beam.direction);
    let c = dot(l, l) - ball.radius * ball.radius;
    let delta = half_b * half_b - a * c;
    if delta < 0.0 {
        return None;
    }
    let root = delta.sqrt();
    let near = (-half_b - root) / a;
    if low <= near && near < high {
        return Some((near, 0));
    }
    let far = (-half_b + root) / a;
    if low <= far && far < high {
        return Some((far, 0));
    }
    None
}

fn ball_box(ball: &Ball) -> Boxed {
    let r = ball.radius;
    Boxed {
        min: [ball.center[0] - r, ball.center[1] - r, ball.center[2] - r],
        max: [ball.center[0] + r, ball.center[1] + r, ball.center[2] + r],
    }
}

fn box_hit(bbox: &Boxed, beam: &Beam, low: f64, high: f64) -> bool {
    let mut t_min = low;
    let mut t_max = high;
    for i in 0..3 {
        let inv = 1.0 / beam.direction[i];
        let mut t0 = (bbox.min[i] - beam.origin[i]) * inv;
        let mut t1 = (bbox.max[i] - beam.origin[i]) * inv;
        if inv < 0.0 {
            std::mem::swap(&mut t0, &mut t1);
        }
        t_min = t_min.max(t0);
        t_max = t_max.min(t1);
        if t_max <= t_min {
            return false;
        }
    }
    true
}

fn join(a: &Boxed, b: &Boxed) -> Boxed {
    Boxed {
        min: [a.min[0].min(b.min[0]), a.min[1].min(b.min[1]), a.min[2].min(b.min[2])],
        max: [a.max[0].max(b.max[0]), a.max[1].max(b.max[1]), a.max[2].max(b.max[2])],
    }
}

fn code(x: f64) -> i64 {
    let bits = (x + 0.0).to_bits() as i64;
    bits ^ ((((bits >> 63) as u64) >> 1) as i64)
}

fn corner(bbox: &Boxed) -> MinCorner {
    MinCorner { x: code(bbox.min[0]), y: code(bbox.min[1]), z: code(bbox.min[2]) }
}

fn build(balls: &[Ball]) -> BVH<Boxed> {
    BVH::new(
        balls.len(),
        &|object: usize| Some(corner(&ball_box(&balls[object]))),
        &|object: usize| Some(ball_box(&balls[object])),
        &join,
    )
    .unwrap()
}

fn leaves(tree: &BVH<Boxed>, out: &mut Vec<usize>) {
    match tree {
        BVH::Empty => {}
        BVH::Leaf { object, .. } => out.push(*object),
        BVH::Pair { first, second, .. } => {
            out.push(*first);
            out.push(*second);
        }
        BVH::Split { left, right, .. } => {
            leaves(left, out);
            leaves(right, out);
        }
    }
}

fn objects_of(tree: &BVH<Boxed>) -> Vec<usize> {
    let mut out = Vec::new();
    leaves(tree, &mut out);
    out
}

fn check_shape(tree: &BVH<Boxed>, balls: &[Ball]) {
    let objects = objects_of(tree);
    match tree {
        BVH::Empty => assert_eq!(objects.len(), 0),
        BVH::Leaf { bbox, object } => assert_eq!(*bbox, ball_box(&balls[*object])),
        BVH::Pair { bbox, first, second } => {
            assert_eq!(*bbox, join(&ball_box(&balls[*first]), &ball_box(&balls[*second])));
        }
        BVH::Split { bbox, left, right } => {
            let lefts = objects_of(left);
            let rights = objects_of(right);
            assert!(objects.len() >= 3);
            assert_eq!(lefts.len(), objects.len() / 2);
            assert_eq!(rights.len(), objects.len() - objects.len() / 2);
            assert_eq!(*bbox, join(left.bbox().unwrap(), right.bbox().unwrap()));
            let cut = (0..3).any(|axis| {
                lefts.iter().all(|&l| {
                    rights.iter().all(|&r| {
                        corner(&ball_box(&balls[l])).on(axis) <= corner(&ball_box(&balls[r])).on(axis)
                    })
                })
            });
            assert!(cut);
            check_shape(left, balls);
            check_shape(right, balls);
        }
    }
}

fn scatter(count: usize) -> Vec<Ball> {
    (0..count)
        .map(|_| Ball {
            center: [
                Random::range(0, 2000) as f64 / 100.0 - 10.0,
                Random::range(0, 2000) as f64 / 100.0 - 10.0,
                Random::range(0, 2000) as f64 / 100.0 - 10.0,
            ],
            radius: Random::range(1, 150) as f64 / 100.0,
        })
        .collect()
}

fn tree_distance(tree: &BVH<Boxed>, balls: &[Ball], beam: &Beam, low: f64, high: f64) -> Option<f64> {
    tree.hit(
        low,
        high,
        &|bbox: &Boxed, l: f64, h: f64| box_hit(bbox, beam, l, h),
        &|object: usize, l: f64, h: f64| ball_hit(&balls[object], beam, l, h).map(|(t, _)| (t, object)),
    )
    .map(|(t, _)| t)
}

fn list_distance(balls: &[Ball], beam: &Beam, low: f64, high: f64) -> Option<f64> {
    let mut list = HittableList::new();
    for ball in balls {
        list.add(*ball);
    }
    list.hit(
        low,
        high,
        &|ball: &Ball, l: f64, h: f64| ball_hit(ball, beam, l, h),
        &|a: &f64, b: &f64| a < b,
    )
    .map(|(t, _)| t)
}

#[test]
fn no_objects_make_an_empty_hierarchy() {
    let tree = build(&[]);
    assert!(matches!(tree, BVH::Empty));
    assert!(tree.bbox().is_none());
}

#[test]
fn one_object_makes_a_leaf() {
    let balls = [Ball { center: [1.0, 2.0, 3.0], radius: 0.5 }];
    let tree = build(&balls);
    match &tree {
        BVH::Leaf { bbox, object } => {
            assert_eq!(*object, 0);
            assert_eq!(*bbox, Boxed { min: [0.5, 1.5, 2.5], max: [1.5, 2.5, 3.5] });
        }
        _ => panic!("a leaf was expected"),
    }
    assert_eq!(tree.bbox(), Some(&Boxed { min: [0.5, 1.5, 2.5], max: [1.5, 2.5, 3.5] }));
}

#[test]
fn two_objects_make_a_pair_in_their_order() {
    let balls = [
        Ball { center: [5.0, 0.0, 0.0], radius: 1.0 },
        Ball { center: [-5.0, 0.0, 0.0], radius: 1.0 },
    ];
    match build(&balls) {
        BVH::Pair { bbox, first, second } => {
            assert_eq!(first, 0);
            assert_eq!(second, 1);
            assert_eq!(bbox, Boxed { min: [-6.0, -1.0, -1.0], max: [6.0, 1.0, 1.0] });
        }
        _ => panic!("a pair was expected"),
    }
}

#[test]
fn three_objects_are_cut_into_one_and_two() {
    let balls = scatter(3);
    let tree = build(&balls);
    match &tree {
        BVH::Split { left, right, .. } => {
            assert!(matches!(**left, BVH::Leaf { .. }));
            assert!(matches!(**right, BVH::Pair { .. }));
        }
        _ => panic!("a split was expected"),
    }
    check_shape(&tree, &balls);
}

#[test]
fn a_hierarchy_holds_every_object_once() {
    for count in [0usize, 1, 2, 3, 4, 5, 8, 17, 100, 257] {
        let balls = scatter(count);
        let tree = build(&balls);
        let mut objects = objects_of(&tree);
        objects.sort();
        assert_eq!(objects, (0..count).collect::<Vec<usize>>());
    }
}

#[test]
fn a_hierarchy_is_cut_evenly_and_across_an_axis() {
    for count in [3usize, 4, 5, 6, 7, 8, 9, 31, 64, 100] {
        let balls = scatter(count);
        check_shape(&build(&balls), &balls);
    }
}

#[test]
fn objects_that_differ_along_one_axis_only_are_sorted_along_it() {
    // Along y and z all corners are equal, and the stable sort keeps the
    // order; along x the objects stand in descending order.
    let balls: Vec<Ball> =
        (0..3).map(|i| Ball { center: [-(i as f64), 0.0, 0.0], radius: 0.25 }).collect();
    for _ in 0..20 {
        let objects = objects_of(&build(&balls));
        assert!(objects == vec![0, 1, 2] || objects == vec![2, 1, 0]);
    }
}

#[test]
fn an_object_without_a_box_is_an_error() {
    let balls = scatter(5);
    let built: Result<BVH<Boxed>, NoBoundingBox> = BVH::new(
        balls.len(),
        &|object: usize| Some(corner(&ball_box(&balls[object]))),
        &|object: usize| if object == 3 { None } else { Some(ball_box(&balls[object])) },
        &join,
    );
    assert_eq!(built.unwrap_err(), NoBoundingBox { object: 3 });
}

#[test]
fn an_object_without_a_corner_is_an_error() {
    let balls = scatter(4);
    let built: Result<BVH<Boxed>, NoBoundingBox> = BVH::new(
        balls.len(),
        &|object: usize| if object == 2 { None } else { Some(corner(&ball_box(&balls[object]))) },
        &|object: usize| Some(ball_box(&balls[object])),
        &join,
    );
    assert_eq!(built.unwrap_err(), NoBoundingBox { object: 2 });
}

#[test]
fn a_single_object_without_a_box_is_an_error() {
    let built: Result<BVH<Boxed>, NoBoundingBox> =
        BVH::new(1, &|_| Some(MinCorner { x: 0, y: 0, z: 0 }), &|_| None, &join);
    assert_eq!(built.unwrap_err(), NoBoundingBox { object: 0 });
}

#[test]
fn the_second_of_two_objects_without_a_box_is_an_error() {
    let balls = scatter(2);
    let built: Result<BVH<Boxed>, NoBoundingBox> = BVH::new(
        2,
        &|_| Some(MinCorner { x: 0, y: 0, z: 0 }),
        &|object: usize| if object == 1 { None } else { Some(ball_box(&balls[object])) },
        &join,
    );
    assert_eq!(built.unwrap_err(), NoBoundingBox { object: 1 });
}

#[test]
fn corners_are_not_asked_for_where_nothing_is_sorted() {
    let balls = scatter(2);
    let tree: BVH<Boxed> = BVH::new(
        2,
        &|_| -> Option<MinCorner> { panic!("no corner is needed") },
        &|object: usize| Some(ball_box(&balls[object])),
        &join,
    )
    .unwrap();
    assert_eq!(objects_of(&tree), vec![0, 1]);
}

#[test]
fn an_empty_hierarchy_is_never_hit() {
    let beam = Beam { origin: [0.0, 0.0, 0.0], direction: [0.0, 0.0, -1.0] };
    assert_eq!(tree_distance(&build(&[]), &[], &beam, 0.001, f64::INFINITY), None);
}

#[test]
fn a_ray_through_the_center_hits_at_the_distance_less_the_radius() {
    for (distance, radius) in [(3.0, 1.0), (10.0, 2.5), (2.0, 0.5), (100.0, 7.0)] {
        let balls = [Ball { center: [0.0, 0.0, 0.0], radius }];
        let beam = Beam { origin: [0.0, 0.0, distance], direction: [0.0, 0.0, -1.0] };
        let expected: f64 = distance - radius;
        let found = tree_distance(&build(&balls), &balls, &beam, 0.001, f64::INFINITY).unwrap();
        assert!((found - expected).abs() < 1e-9);
        let scanned = list_distance(&balls, &beam, 0.001, f64::INFINITY).unwrap();
        assert!((scanned - expected).abs() < 1e-9);
    }
}

#[test]
fn the_nearer_of_two_objects_is_found_whichever_comes_first() {
    let near = Ball { center: [0.0, 0.0, -3.0], radius: 1.0 };
    let far = Ball { center: [0.0, 0.0, -10.0], radius: 1.0 };
    let beam = Beam { origin: [0.0, 0.0, 0.0], direction: [0.0, 0.0, -1.0] };
    for balls in [[near, far], [far, near]] {
        let tree = build(&balls);
        assert_eq!(tree_distance(&tree, &balls, &beam, 0.001, f64::INFINITY), Some(2.0));
        assert_eq!(tree_distance(&tree, &balls, &beam, 3.0, f64::INFINITY), Some(4.0));
        assert_eq!(tree_distance(&tree, &balls, &beam, 5.0, f64::INFINITY), Some(9.0));
        assert_eq!(tree_distance(&tree, &balls, &beam, 0.001, 1.5), None);
        assert_eq!(tree_distance(&tree, &balls, &beam, 12.0, f64::INFINITY), None);
    }
}

#[test]
fn the_hit_that_is_found_names_its_object() {
    let balls = [
        Ball { center: [0.0, 0.0, -10.0], radius: 1.0 },
        Ball { center: [0.0, 0.0, -3.0], radius: 1.0 },
        Ball { center: [0.0, 5.0, -3.0], radius: 1.0 },
        Ball { center: [0.0, 0.0, -20.0], radius: 1.0 },
    ];
    let beam = Beam { origin: [0.0, 0.0, 0.0], direction: [0.0, 0.0, -1.0] };
    let tree = build(&balls);
    let found = tree.hit(
        0.001,
        f64::INFINITY,
        &|bbox: &Boxed, l: f64, h: f64| box_hit(bbox, &beam, l, h),
        &|object: usize, l: f64, h: f64| ball_hit(&balls[object], &beam, l, h).map(|(t, _)| (t, object)),
    );
    assert_eq!(found, Some((2.0, 1)));
}

#[test]
fn the_hierarchy_finds_what_the_plain_list_finds() {
    for count in [1usize, 2, 3, 4, 7, 20, 80] {
        let balls = scatter(count);
        let tree = build(&balls);
        for _ in 0..200 {
            let beam = Beam {
                origin: [
                    Random::range(0, 4000) as f64 / 100.0 - 20.0,
                    Random::range(0, 4000) as f64 / 100.0 - 20.0,
                    Random::range(0, 4000) as f64 / 100.0 - 20.0,
                ],
                direction: [
                    Random::range(1, 200) as f64 / 100.0 - 1.005,
                    Random::range(1, 200) as f64 / 100.0 - 1.005,
                    Random::range(1, 200) as f64 / 100.0 - 1.005,
                ],
            };
            let low = Random::range(0, 500) as f64 / 100.0;
            let high = low + Random::range(0, 4000) as f64 / 100.0;
            assert_eq!(
                tree_distance(&tree, &balls, &beam, low, high),
                list_distance(&balls, &beam, low, high)
            );
            assert_eq!(
                tree_distance(&tree, &balls, &beam, 0.001, f64::INFINITY),
                list_distance(&balls, &beam, 0.001, f64::INFINITY)
            );
        }
    }
}

#[test]
fn a_box_that_is_missed_hides_its_objects() {
    let balls = [Ball { center: [0.0, 0.0, -3.0], radius: 1.0 }];
    let tree = build(&balls);
    let found: Option<(f64, usize)> = tree.hit(
        0.001,
        f64::INFINITY,
        &|_: &Boxed, _: f64, _: f64| false,
        &|_: usize, _: f64, _: f64| -> Option<(f64, usize)> { panic!("the object is not tested") },
    );
    assert_eq!(found, None);
}

#[test]
fn the_second_child_is_searched_before_what_the_first_found() {
    let tree: BVH<u8> = BVH::new(2, &|_| Some(MinCorner { x: 0, y: 0, z: 0 }), &|_| Some(0u8), &|_, _| 0u8).unwrap();
    let found = tree.hit(
        1i64,
        100i64,
        &|_: &u8, _: i64, _: i64| true,
        &|object: usize, low: i64, high: i64| {
            if object == 0 {
                assert_eq!((low, high), (1, 100));
                Some((40i64, "first"))
            } else {
                assert_eq!((low, high), (1, 40));
                None
            }
        },
    );
    assert_eq!(found, Some((40, "first")));
    let found = tree.hit(
        1i64,
        100i64,
        &|_: &u8, _: i64, _: i64| true,
        &|object: usize, _: i64, high: i64| {
            if object == 0 {
                None
            } else {
                assert_eq!(high, 100);
                Some((70i64, "second"))
            }
        },
    );
    assert_eq!(found, Some((70, "second")));
    let found = tree.hit(
        1i64,
        100i64,
        &|_: &u8, _: i64, _: i64| true,
        &|object: usize, _: i64, _: i64| {
            if object == 0 {
                Some((40i64, "first"))
            } else {
                Some((30i64, "second"))
            }
        },
    );
    assert_eq!(found, Some((30, "second")));
}

#[test]
fn a_cut_sorts_and_halves() {
    let corners: Vec<MinCorner> = [5, 1, 4, 2, 3].iter().map(|&x| MinCorner { x, y: -x, z: 0 }).collect();
    let objects = vec![0, 1, 2, 3, 4];
    assert_eq!(remda::bvh::cut(&objects, &corners, 0), (vec![1, 3], vec![4, 2, 0]));
    assert_eq!(remda::bvh::cut(&objects, &corners, 1), (vec![0, 2], vec![4, 3, 1]));
    assert_eq!(remda::bvh::cut(&objects, &corners, 2), (vec![0, 1], vec![2, 3, 4]));
    assert_eq!(remda::bvh::cut(&vec![3, 0, 1], &corners, 0), (vec![1], vec![3, 0]));
    assert_eq!(remda::bvh::cut(&vec![2], &corners, 0), (vec![], vec![2]));
    assert_eq!(remda::bvh::cut(&Vec::new(), &corners, 0), (vec![], vec![]));
}

fn depth(tree: &BVH<Boxed>) -> usize {
    match tree {
        BVH::Empty => 0,
        BVH::Leaf { .. } | BVH::Pair { .. } => 1,
        BVH::Split { left, right, .. } => 1 + depth(left).max(depth(right)),
    }
}

#[test]
fn a_hierarchy_is_shallow() {
    assert_eq!(depth(&build(&scatter(0))), 0);
    assert_eq!(depth(&build(&scatter(1))), 1);
    assert_eq!(depth(&build(&scatter(2))), 1);
    for count in 3usize..200 {
        let deep = depth(&build(&scatter(count)));
        assert!(deep >= 2);
        assert!(1usize << (deep - 1) <= count - 1);
    }
}
