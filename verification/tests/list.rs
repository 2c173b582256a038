use remda::list::HittableList;

fn list_of(objects: &[(i64, char)]) -> HittableList<(i64, char)> {
    let mut list = HittableList::new();
    for object in objects {
        list.add(*object);
    }
    list
}

fn nearest(objects: &[(i64, char)], low: i64, high: i64) -> Option<(i64, char)> {
    list_of(objects).hit(
        low,
        high,
        &|object: &(i64, char), l: i64, h: i64| {
            if l <= object.0 && object.0 < h {
                Some(*object)
            } else {
                None
            }
        },
        &|a: &i64, b: &i64| a < b,
    )
}

#[test]
fn a_new_list_is_empty() {
    let list: HittableList<u8> = HittableList::new();
    assert_eq!(list.len(), 0);
    assert_eq!(list.into_objects(), Vec::<u8>::new());
}

#[test]
fn objects_stay_in_the_order_in_which_they_were_added() {
    let mut list = HittableList::new();
    list.add('a');
    list.add('b');
    list.add('c');
    assert_eq!(list.len(), 3);
    assert_eq!(*list.get(1), 'b');
    assert_eq!(list.into_objects(), vec!['a', 'b', 'c']);
}

#[test]
fn clear_takes_every_object_out() {
    let mut list = HittableList::new();
    list.add(1);
    list.add(2);
    list.clear();
    assert_eq!(list.len(), 0);
    list.add(3);
    assert_eq!(list.into_objects(), vec![3]);
}

#[test]
fn an_empty_list_is_never_hit() {
    assert_eq!(nearest(&[], 0, 100), None);
}

#[test]
fn the_nearest_hit_is_found() {
    let objects = [(30, 'a'), (10, 'b'), (20, 'c')];
    assert_eq!(nearest(&objects, 0, 100), Some((10, 'b')));
    assert_eq!(nearest(&objects, 11, 100), Some((20, 'c')));
    assert_eq!(nearest(&objects, 21, 100), Some((30, 'a')));
    assert_eq!(nearest(&objects, 31, 100), None);
    assert_eq!(nearest(&objects, 0, 10), None);
}

#[test]
fn of_hits_at_the_same_distance_the_first_is_found() {
    let objects = [(30, 'a'), (10, 'b'), (10, 'c'), (30, 'd')];
    assert_eq!(nearest(&objects, 0, 100), Some((10, 'b')));
    assert_eq!(nearest(&objects, 20, 100), Some((30, 'a')));
}

fn around(boxes: &[Option<(i64, i64)>]) -> Option<(i64, i64)> {
    let mut list = HittableList::new();
    for bbox in boxes {
        list.add(*bbox);
    }
    list.bbox(&|object: &Option<(i64, i64)>| *object, &|a: &(i64, i64), b: &(i64, i64)| {
        (a.0.min(b.0), a.1.max(b.1))
    })
}

#[test]
fn no_box_around_no_objects() {
    assert_eq!(around(&[]), None);
}

#[test]
fn the_box_of_one_object_is_its_own() {
    assert_eq!(around(&[Some((3, 4))]), Some((3, 4)));
}

#[test]
fn the_box_around_objects_is_joined_from_theirs() {
    assert_eq!(around(&[Some((3, 4)), Some((-1, 2)), Some((0, 9))]), Some((-1, 9)));
}

#[test]
fn no_box_around_an_object_without_a_box() {
    assert_eq!(around(&[Some((3, 4)), None, Some((0, 9))]), None);
    assert_eq!(around(&[None]), None);
    assert_eq!(around(&[Some((3, 4)), None]), None);
}

#[test]
fn boxes_are_joined_from_the_first_on() {
    let mut list = HittableList::new();
    for name in ["a", "b", "c"] {
        list.add(name.to_string());
    }
    let joined = list.bbox(&|object: &String| Some(object.clone()), &|a: &String, b: &String| {
        format!("({}{})", a, b)
    });
    assert_eq!(joined, Some("((ab)c)".to_string()));
}
