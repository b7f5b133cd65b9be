//! Tests of counting and merging in sorted data.

use coll_birth::merging::{
    count_adjacent_equals, merge_count_collisions, merge_count_collisions_segmented, merge_into,
    merge_sorted,
};

/// Reference: concatenate, sort, and count adjacent-equal pairs directly.
fn brute(slices: &[&[u64]]) -> usize {
    let mut all: Vec<u64> = slices.iter().flat_map(|s| s.iter().copied()).collect();
    all.sort_unstable();
    all.windows(2).filter(|w| w[0] == w[1]).count()
}

/// The segmented parallel merge must match the brute-force count for every
/// segment count, including the awkward cases where equal values straddle a
/// would-be splitter and where sub-ranges come out empty.
#[test]
fn segmented_merge_matches_brute_force() {
    // Small value range relative to the element count forces many duplicates
    // (hence collisions) and guarantees splitters land on repeated values.
    // xoroshiro128+, used only to vary the test data.
    let mut s0 = 0x1234_5678_9abc_def0u64;
    let mut s1 = 0x9e37_79b9_7f4a_7c15u64;
    let mut next = || {
        let result = s0.wrapping_add(s1);
        s1 ^= s0;
        s0 = s0.rotate_left(24) ^ s1 ^ (s1 << 16);
        s1 = s1.rotate_left(37);
        result
    };

    for &p in &[1usize, 2, 3, 5, 16] {
        for &range in &[4u64, 64, 1000, 100_000] {
            // Build p sorted slices of random length.
            let slices_owned: Vec<Vec<u64>> = (0..p)
                .map(|_| {
                    let len = (next() % 500) as usize;
                    let mut v: Vec<u64> = (0..len).map(|_| next() % range).collect();
                    v.sort_unstable();
                    v
                })
                .collect();
            let slices: Vec<&[u64]> = slices_owned.iter().map(|v| v.as_slice()).collect();

            let expected = brute(&slices);
            // Exercise the serial path and several explicit segment counts,
            // including more segments than elements.
            for &segs in &[0usize, 1, 2, 7, 50, 100_000] {
                let got = merge_count_collisions_segmented(&slices, segs);
                assert_eq!(
                    got, expected,
                    "p={p} range={range} segs={segs}: got {got}, expected {expected}"
                );
            }
            // The production entry point (machine-chosen segment count).
            assert_eq!(merge_count_collisions(&slices), expected);
        }
    }
}

#[test]
fn segmented_merge_edge_cases() {
    let empty: Vec<&[u64]> = vec![];
    assert_eq!(merge_count_collisions(&empty), 0);

    let all_empty: Vec<&[u64]> = vec![&[], &[], &[]];
    assert_eq!(merge_count_collisions(&all_empty), 0);

    // Every element identical and spread across slices: collisions = n - 1.
    let a = [7u64; 5];
    let b = [7u64; 3];
    let slices: Vec<&[u64]> = vec![&a, &b];
    for segs in 0..=10 {
        assert_eq!(merge_count_collisions_segmented(&slices, segs), 7);
    }
}

#[test]
fn adjacent_equals_of_small_slices() {
    assert_eq!(count_adjacent_equals::<u64>(&[]), 0);
    assert_eq!(count_adjacent_equals(&[5u64]), 0);
    assert_eq!(count_adjacent_equals(&[5u32, 5]), 1);
    assert_eq!(count_adjacent_equals(&[1u128, 1, 2, 2, 2, 3]), 3);
}

#[test]
fn adjacent_equals_across_chunk_borders() {
    for len in [1023usize, 1024, 1025, 4096, 100_003] {
        let same = vec![9u64; len];
        assert_eq!(count_adjacent_equals(&same), len - 1);
        let pairs: Vec<u64> = (0..len as u64).map(|i| (i + 1) / 2).collect();
        let expected = pairs.windows(2).filter(|w| w[0] == w[1]).count();
        assert_eq!(count_adjacent_equals(&pairs), expected);
        let distinct: Vec<u64> = (0..len as u64).collect();
        assert_eq!(count_adjacent_equals(&distinct), 0);
    }
}

#[test]
fn merge_into_the_prefix() {
    let mut buf = [1u64, 4, 4, 9, 0, 0, 0, 77];
    merge_into(&mut buf, 4, &[0, 4, 12]);
    assert_eq!(buf, [0, 1, 4, 4, 4, 9, 12, 77]);
    merge_into(&mut buf, 7, &[]);
    assert_eq!(buf, [0, 1, 4, 4, 4, 9, 12, 77]);
    let mut empty_prefix = [0u32; 3];
    merge_into(&mut empty_prefix, 0, &[3, 5, 8]);
    assert_eq!(empty_prefix, [3, 5, 8]);
}

#[test]
fn merge_sorted_slices() {
    let slices: Vec<&[u128]> = vec![&[1, 5, 9], &[], &[2, 5, 5, u128::MAX], &[0]];
    assert_eq!(
        merge_sorted(&slices),
        [0, 1, 2, 5, 5, 5, 9, u128::MAX]
    );
    let none: Vec<&[u32]> = vec![];
    assert!(merge_sorted(&none).is_empty());
}
