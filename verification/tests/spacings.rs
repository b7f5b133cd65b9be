//! Tests of the spacings at the limits of the storage types.

use coll_birth::birthday::{compute_spacings, compute_spacings_with_predecessor};
use coll_birth::common::CellCount;
use coll_birth::merging::count_adjacent_equals;

// Non-degenerate at the boundary: sorted points {3, 10, 2^64 - 1} on a circle
// of 2^64 cells have spacings {7, 2^64 - 11} and wrap 2^64 - (2^64 - 1) + 3 = 4,
// none of which overflow u64 despite cells itself being unrepresentable.
#[test]
fn wrap_at_width_boundary_is_exact() {
    let cells = CellCount::power_of_two(64);
    let mut v = [3u64, 10, u64::MAX];
    compute_spacings(&mut v, &cells);
    assert_eq!(v[0], 4, "wrap-around spacing");
    assert_eq!(v[1], 7);
    assert_eq!(v[2], u64::MAX - 10);
}

// Degenerate case at the boundary: all points coincide, so the wrap-around
// would equal cells == 2^64. It is replaced by a nonzero stand-in; the n - 1
// zero spacings then yield exactly n - 2 collisions, the true count.
#[test]
fn degenerate_equal_points_at_width_boundary() {
    let cells = CellCount::power_of_two(64);
    let mut v = [7u64, 7, 7, 7];
    compute_spacings(&mut v, &cells);
    v.sort_unstable();
    assert_eq!(count_adjacent_equals(&v), 2);
}

#[test]
fn stand_in_of_a_single_point() {
    let cells = CellCount::from_u128(100);
    let mut v = [42u32];
    compute_spacings(&mut v, &cells);
    assert_eq!(v, [1]);
    let mut none: [u32; 0] = [];
    compute_spacings(&mut none, &cells);
}

#[test]
fn wrap_on_a_small_circle() {
    let cells = CellCount::from_u128(100);
    let mut v = [10u64, 10, 25, 90];
    compute_spacings(&mut v, &cells);
    assert_eq!(v, [20, 0, 15, 65]);
}

#[test]
fn largest_circle() {
    let cells = CellCount::power_of_two(128);
    let mut v = [1u128, u128::MAX];
    compute_spacings(&mut v, &cells);
    assert_eq!(v, [2, u128::MAX - 1]);
}

#[test]
fn predecessor_of_the_first_element() {
    let mut v = [10u64, 12, 12, 40];
    compute_spacings_with_predecessor(&mut v, Some(7));
    assert_eq!(v, [3, 2, 0, 28]);
    let mut w = [10u64, 12];
    compute_spacings_with_predecessor(&mut w, None);
    assert_eq!(w, [10, 2]);
}

#[test]
fn spacings_of_many_chunks() {
    let n = 50_000u64;
    let mut v: Vec<u64> = (0..n).map(|i| i * i).collect();
    compute_spacings_with_predecessor(&mut v, None);
    assert_eq!(v[0], 0);
    for i in 1..n {
        assert_eq!(v[i as usize], 2 * i - 1);
    }
}

#[test]
fn cell_counts() {
    assert_eq!(CellCount::power_of_two(0).last, 0);
    assert_eq!(CellCount::power_of_two(16).last, 65535);
    assert_eq!(CellCount::power_of_two(64).last, u64::MAX as u128);
    assert_eq!(CellCount::power_of_two(128).last, u128::MAX);
    assert_eq!(CellCount::from_u128(1).last, 0);
}
