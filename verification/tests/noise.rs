use remda::noise::{is_power_of_two, Lattice, SmoothType};

#[test]
fn powers_of_two_are_told_apart() {
    for count in [1usize, 2, 4, 8, 256, 1 << 20, 1 << 31] {
        assert!(is_power_of_two(count));
    }
    for count in [0usize, 3, 5, 6, 7, 9, 255, 257, (1 << 20) + 1, usize::MAX] {
        assert!(!is_power_of_two(count));
    }
}

#[test]
fn a_lattice_knows_its_number_of_points() {
    assert_eq!(Lattice::new(256).point_count(), 256);
    assert_eq!(Lattice::new(0).point_count(), 0);
    assert_eq!(Lattice::new(3).point_count(), 3);
}

#[test]
fn every_grid_point_has_a_place() {
    for count in [1usize, 2, 16, 256] {
        let lattice = Lattice::new(count);
        for i in [-1000i64, -257, -256, -1, 0, 1, 2, 255, 256, 257, i64::MAX, i64::MIN] {
            for j in [-3i64, 0, 5, 300] {
                for k in [-1i64, 0, 1, 1 << 40] {
                    assert!(lattice.index(i, j, k) < count);
                }
            }
        }
    }
}

#[test]
fn the_grid_repeats() {
    let lattice = Lattice::new(256);
    for (i, j, k) in [(0i64, 0i64, 0i64), (1, 2, 3), (-1, -2, -3), (255, 256, 257)] {
        let place = lattice.index(i, j, k);
        assert_eq!(lattice.index(i + 256, j, k), place);
        assert_eq!(lattice.index(i, j - 256, k), place);
        assert_eq!(lattice.index(i, j, k + 512), place);
    }
}

#[test]
fn a_lattice_of_one_point_has_one_place() {
    let lattice = Lattice::new(1);
    assert_eq!(lattice.index(5, -7, 123), 0);
}

#[test]
fn along_an_axis_every_place_is_met_once() {
    // With the two other coordinates fixed, a walk along an axis goes
    // through a permutation of the places.
    let lattice = Lattice::new(64);
    for axis in 0..3 {
        let mut places: Vec<usize> = (0..64i64)
            .map(|step| match axis {
                0 => lattice.index(step, 3, 9),
                1 => lattice.index(3, step, 9),
                _ => lattice.index(3, 9, step),
            })
            .collect();
        places.sort();
        assert_eq!(places, (0..64).collect::<Vec<usize>>());
    }
}

#[test]
fn two_lattices_differ() {
    let some = Lattice::new(256);
    let differs = (0..10).any(|_| {
        let other = Lattice::new(256);
        (0..256i64).any(|i| some.index(i, 0, 0) != other.index(i, 0, 0))
    });
    assert!(differs);
}

#[test]
fn smoothing_has_three_kinds() {
    assert_ne!(SmoothType::Off, SmoothType::LinearInterpolate);
    assert_ne!(SmoothType::LinearInterpolate, SmoothType::HermitianCubic);
    assert_eq!(SmoothType::HermitianCubic.clone(), SmoothType::HermitianCubic);
}
