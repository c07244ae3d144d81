use pastry_dht::ring::Ring;
use pastry_dht::ring::Ring64;

#[test]
fn test_counter_clockwise_distance() {
    let counter_clockwise_distance = Ring64::counter_clockwise_distance(200, 100);
    assert_eq!(counter_clockwise_distance, 100);

    // (100 - 200) modulo 2^64
    let counter_clockwise_distance = Ring64::counter_clockwise_distance(100, 200);
    assert_eq!(counter_clockwise_distance, u64::MAX - 99);

    let counter_clockwise_distance = Ring64::counter_clockwise_distance(100, u64::MAX - 100);
    assert_eq!(counter_clockwise_distance, 201);

    let counter_clockwise_distance = Ring64::counter_clockwise_distance(u64::MAX - 100, 100);
    assert_eq!(counter_clockwise_distance, u64::MAX - 200);

    // the distance from a point to itself is zero
    assert_eq!(Ring64::counter_clockwise_distance(5, 5), 0);
}

#[test]
fn test_distance() {
    let distance = Ring64::distance(200, 100);
    assert_eq!(distance, 100);

    let distance = Ring64::distance(100, 200);
    assert_eq!(distance, 100);

    let distance = Ring64::distance(100, u64::MAX - 100);
    assert_eq!(distance, 201);

    let distance = Ring64::distance(u64::MAX - 100, 100);
    assert_eq!(distance, 201);

    assert_eq!(Ring64::distance(5, 5), 0);
}

#[test]
fn test_is_in_range() {
    let from = 100;
    let to = 200;

    let value = 50;
    assert_eq!(Ring64::is_in_range(from, to, value), false);
    assert_eq!(Ring64::is_in_range(to, from, value), true);

    let value = 150;
    assert_eq!(Ring64::is_in_range(from, to, value), true);
    assert_eq!(Ring64::is_in_range(to, from, value), false);

    let value = 250;
    assert_eq!(Ring64::is_in_range(from, to, value), false);
    assert_eq!(Ring64::is_in_range(to, from, value), true);
}

#[test]
fn test_is_in_range_wraparound_neighbors() {
    // ids 0 and u64::MAX as literal neighbors across the wraparound: the
    // range runs just past `from` up to and including `to`
    assert!(!Ring64::is_in_range(u64::MAX, 0, u64::MAX));
    assert!(Ring64::is_in_range(u64::MAX, 0, 0));
    assert!(!Ring64::is_in_range(0, u64::MAX, 0));
    assert!(Ring64::is_in_range(0, u64::MAX, 1));
    assert!(Ring64::is_in_range(0, u64::MAX, u64::MAX));
    assert_eq!(Ring64::distance(0, u64::MAX), 1);
}
