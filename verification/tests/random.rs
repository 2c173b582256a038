use remda::random::Random;

#[test]
fn a_draw_lies_in_its_range() {
    for _ in 0..1000 {
        let drawn = Random::range(10, 20);
        assert!(10 <= drawn && drawn < 20);
    }
}

#[test]
fn a_range_of_one_number_gives_that_number() {
    assert_eq!(Random::range(7, 8), 7);
}

#[test]
fn draws_are_not_all_the_lower_bound() {
    let draws: Vec<usize> = (0..200).map(|_| Random::range(0, 1000)).collect();
    assert!(draws.iter().any(|&drawn| drawn != 0));
    assert!(draws.iter().all(|&drawn| drawn < 1000));
}

#[test]
fn every_number_of_a_small_range_is_drawn() {
    let mut seen = [false; 3];
    for _ in 0..1000 {
        seen[Random::range(0, 3)] = true;
    }
    assert_eq!(seen, [true, true, true]);
}

#[test]
fn a_pick_is_one_of_the_values() {
    let values = vec!['a', 'b', 'c'];
    for _ in 0..100 {
        assert!(values.contains(Random::pick(&values)));
    }
}

#[test]
fn a_pick_of_one_value_is_that_value() {
    assert_eq!(*Random::pick(&vec![42]), 42);
}

#[test]
fn a_shuffle_keeps_the_values() {
    let mut values: Vec<usize> = (0..100).collect();
    Random::shuffle(&mut values);
    let mut sorted = values.clone();
    sorted.sort();
    assert_eq!(sorted, (0..100).collect::<Vec<usize>>());
}

#[test]
fn a_shuffle_changes_the_order() {
    let plain: Vec<usize> = (0..100).collect();
    let mut changed = false;
    for _ in 0..10 {
        let mut values = plain.clone();
        Random::shuffle(&mut values);
        changed = changed || values != plain;
    }
    assert!(changed);
}

#[test]
fn a_shuffle_of_nothing_is_nothing() {
    let mut values: Vec<u8> = Vec::new();
    Random::shuffle(&mut values);
    assert!(values.is_empty());
}
