use remda::sort::{sort_by_axis, MinCorner};

fn corner(x: i64, y: i64, z: i64) -> MinCorner {
    MinCorner { x, y, z }
}

#[test]
fn a_corner_has_a_coordinate_on_each_axis() {
    let c = corner(1, -2, 3);
    assert_eq!(c.on(0), 1);
    assert_eq!(c.on(1), -2);
    assert_eq!(c.on(2), 3);
}

#[test]
fn objects_are_sorted_along_the_axis() {
    let corners = vec![corner(5, 1, 9), corner(3, 2, 8), corner(4, 0, 7)];
    let objects = vec![0, 1, 2];
    assert_eq!(sort_by_axis(&objects, &corners, 0), vec![1, 2, 0]);
    assert_eq!(sort_by_axis(&objects, &corners, 1), vec![2, 0, 1]);
    assert_eq!(sort_by_axis(&objects, &corners, 2), vec![2, 1, 0]);
}

#[test]
fn equal_corners_keep_their_order() {
    let corners = vec![corner(5, 0, 0), corner(1, 0, 0), corner(5, 0, 0), corner(1, 0, 0)];
    assert_eq!(sort_by_axis(&vec![0, 1, 2, 3], &corners, 0), vec![1, 3, 0, 2]);
    assert_eq!(sort_by_axis(&vec![3, 2, 1, 0], &corners, 0), vec![3, 1, 2, 0]);
    assert_eq!(sort_by_axis(&vec![2, 0, 3, 1], &corners, 1), vec![2, 0, 3, 1]);
}

#[test]
fn a_part_of_the_objects_is_sorted_by_itself() {
    let corners = vec![corner(9, 0, 0), corner(7, 0, 0), corner(8, 0, 0), corner(1, 0, 0)];
    assert_eq!(sort_by_axis(&vec![0, 2], &corners, 0), vec![2, 0]);
    assert_eq!(sort_by_axis(&vec![1], &corners, 0), vec![1]);
    assert_eq!(sort_by_axis(&Vec::new(), &corners, 0), Vec::<usize>::new());
}

#[test]
fn negative_coordinates_come_first() {
    let corners = vec![corner(0, 0, 0), corner(-1, 0, 0), corner(i64::MIN, 0, 0), corner(i64::MAX, 0, 0)];
    assert_eq!(sort_by_axis(&vec![0, 1, 2, 3], &corners, 0), vec![2, 1, 0, 3]);
}

#[test]
fn the_sort_agrees_with_the_standard_stable_sort() {
    let corners: Vec<MinCorner> =
        (0..200).map(|i: i64| corner((i * 37) % 11, (i * 13) % 7, i % 3)).collect();
    let objects: Vec<usize> = (0..200).rev().collect();
    for axis in 0..3 {
        let mut expected = objects.clone();
        expected.sort_by_key(|&object| corners[object].on(axis));
        assert_eq!(sort_by_axis(&objects, &corners, axis), expected);
    }
}
