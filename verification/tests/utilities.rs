use gridsearch::cycle::CycleDetector;
use gridsearch::direction::Direction;
use gridsearch::numeric::euclidic_gcd;
use gridsearch::numeric::euclidic_lcm;
use gridsearch::numeric::unique_permutations;

#[test]
fn test_cycle() {
    let detector = CycleDetector {
        stack: vec![1, 2, 3, 4, 2, 3, 4],
    };
    assert_eq!(detector.has_cycle(), Some(4));
}

#[test]
fn cycle_grows_by_pushes() {
    let mut detector = CycleDetector::new();
    assert_eq!(detector.push(2), None);
    assert_eq!(detector.push(3), None);
    assert_eq!(detector.push(2), None);
    assert_eq!(detector.push(3), Some(2));
    assert_eq!(detector.len(), 4);
    assert_eq!(detector.get_slice(2, 4), &[2, 3]);
}

#[test]
fn direction_get_index() {
    assert_eq!(Direction::North.get_index(9, 3, 4), Some(1));
    assert_eq!(Direction::NorthEast.get_index(9, 3, 4), Some(2));
    assert_eq!(Direction::East.get_index(9, 3, 4), Some(5));
    assert_eq!(Direction::SouthEast.get_index(9, 3, 4), Some(8));
    assert_eq!(Direction::South.get_index(9, 3, 4), Some(7));
    assert_eq!(Direction::SouthWest.get_index(9, 3, 4), Some(6));
    assert_eq!(Direction::West.get_index(9, 3, 4), Some(3));
    assert_eq!(Direction::NorthWest.get_index(9, 3, 4), Some(0));
    assert_eq!(Direction::North.get_index(9, 3, 1), None);
}

#[test]
fn direction_opposite_is_involutive() {
    let all = [
        Direction::North,
        Direction::NorthEast,
        Direction::East,
        Direction::SouthEast,
        Direction::South,
        Direction::SouthWest,
        Direction::West,
        Direction::NorthWest,
    ];
    for d in all {
        assert_eq!(d.opposite().opposite(), d);
    }
}

#[test]
fn test_euclidic_gcd() {
    assert_eq!(euclidic_gcd(10, 9), 1);
    assert_eq!(euclidic_gcd(10, 10), 10);
    assert_eq!(euclidic_gcd(30, 33), 3);
    assert_eq!(euclidic_gcd(18, 48), 6);
    assert_eq!(euclidic_gcd(48, 18), 6);
}

#[test]
fn test_euclidic_lcm() {
    assert_eq!(euclidic_lcm(10, 9), 90);
    assert_eq!(euclidic_lcm(10, 10), 10);
    assert_eq!(euclidic_lcm(30, 33), 330);
    assert_eq!(euclidic_lcm(18, 48), 144);
    assert_eq!(euclidic_lcm(48, 18), 144);
}

#[test]
fn test_unique_permutations() {
    assert_eq!(
        unique_permutations(&vec![1, 2, 3]),
        vec![vec![1, 2], vec![1, 3], vec![2, 3]]
    );
}

#[test]
fn unique_permutations_of_short_lists() {
    assert_eq!(unique_permutations::<i32>(&[]), Vec::<Vec<i32>>::new());
    assert_eq!(unique_permutations(&[5]), Vec::<Vec<i32>>::new());
}
