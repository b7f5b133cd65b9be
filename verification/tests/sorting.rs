//! Tests of the radix sort.

use coll_birth::sorting::{sort_uniform_u64s, sort_uniform_u64s_tuned, tunable, SortTuning};
use rayon::slice::ParallelSliceMut;

const WY_CONST_0: u64 = 0x2d35_8dcc_aa6c_78a5;
const WY_CONST_1: u64 = 0x8bb8_4b93_962e_acc9;

struct WyRand(u64);

impl WyRand {
    fn new(seed: u64) -> Self {
        Self(seed)
    }

    fn next_u64(&mut self) -> u64 {
        let s = self.0.wrapping_add(WY_CONST_0);
        self.0 = s;
        let t = (s as u128) * ((s ^ WY_CONST_1) as u128);
        ((t >> 64) as u64) ^ (t as u64)
    }
}

fn test_array(data: &mut [u64], num_bits: u32) {
    let mut data_clone = data.to_vec();
    data_clone.par_sort_unstable();
    let mut scratch = vec![0u64; data.len()];
    sort_uniform_u64s(data, num_bits, &mut scratch);
    let len = data.len();
    if data_clone != data {
        println!("Failure at num_bits={num_bits}, len={len}");
        println!("      expected          actual");
        for i in 0..len.min(100) {
            println!(
                "{i:4}: 0x{:016x}   0x{:016x}{}",
                data_clone[i],
                data[i],
                if data_clone[i] == data[i] {
                    ""
                } else {
                    " ****"
                }
            );
        }
    }
    assert!(
        data_clone == data,
        "Failure at num_bits={num_bits}, len={len}"
    );
}

fn random_words(size: usize, bit_width: u32) -> Vec<u64> {
    let mut rng = WyRand::new(size as u64 * 64 + bit_width as u64);
    let mask = if bit_width == 64 {
        u64::MAX
    } else {
        (1u64 << bit_width) - 1
    };
    (0..size).map(|_| rng.next_u64() & mask).collect()
}

fn test_size_and_width(size: usize, bit_width: u32) {
    let mut data = random_words(size, bit_width);
    test_array(&mut data, bit_width);
}

#[test]
fn test_one() {
    test_size_and_width(1 << 25, 44);
}

#[test]
fn test_power_of_two_sizes() {
    let limit = 13;

    for lg_size in 0..=limit {
        let size = 1usize << lg_size;
        // Test size-1, size, size+1
        for delta in [-1isize, 0, 1] {
            let test_size = (size as isize + delta) as usize;

            // Test bit widths at lg2(size) - 7, lg2(size), lg2(size) + 7
            for bit_width_delta in [-7, 0, 7] {
                let bit_width = (lg_size + bit_width_delta).max(1).min(52) as u32;
                test_size_and_width(test_size, bit_width);
            }
        }
    }
}

#[test]
fn test_bit_widths() {
    // Test every multiple of 4 between 0 and 52
    let test_size = 1024;
    for bit_width in (0..=52).step_by(4) {
        if bit_width == 0 {
            continue;
        }
        test_size_and_width(test_size, bit_width as u32);
    }
}

#[test]
fn parallel_sizes_around_the_threshold() {
    for size in [(1 << 20) - 1, 1 << 20, (1 << 20) + 1, (1 << 21) + 12345] {
        for width in [1, 7, 11, 12, 40, 64] {
            test_size_and_width(size, width);
        }
    }
}

#[test]
fn other_tunings_sort_too() {
    for (msd_lg_radix, max_par_chunks, lsd_lg_radix) in
        [(1, 1, 1), (4, 2, 11), (16, 1024, 16), (8, 3, 5)]
    {
        let tuning = SortTuning {
            msd_lg_radix,
            max_par_chunks,
            lsd_lg_radix,
        };
        for size in [300, 5000, (1 << 20) + 7] {
            let mut data = random_words(size, 37);
            let mut expected = data.clone();
            expected.sort_unstable();
            let mut scratch = vec![0u64; size];
            sort_uniform_u64s_tuned(&mut data, 37, &mut scratch, tuning);
            assert_eq!(data, expected);
        }
    }
}

#[test]
fn default_tuning() {
    let tuning = SortTuning::default();
    assert_eq!(tuning.msd_lg_radix, 11);
    assert_eq!(tuning.max_par_chunks, 1024);
    assert_eq!(tuning.lsd_lg_radix, 8);
}

#[test]
fn more_bits_than_a_word_has() {
    let mut data = random_words(1000, 64);
    let mut expected = data.clone();
    expected.sort_unstable();
    let mut scratch = vec![0u64; 1000];
    sort_uniform_u64s(&mut data, 100, &mut scratch);
    assert_eq!(data, expected);
}

#[test]
fn a_larger_scratch_is_fine() {
    let mut data = vec![3u64, 1, 2];
    let mut scratch = vec![9u64; 10];
    sort_uniform_u64s(&mut data, 2, &mut scratch);
    assert_eq!(data, [1, 2, 3]);
    assert_eq!(scratch.len(), 10);
}

#[test]
fn words_with_higher_bits_are_permuted() {
    let original = random_words(5000, 64);
    let mut data = original.clone();
    let mut scratch = vec![0u64; 5000];
    sort_uniform_u64s(&mut data, 20, &mut scratch);
    let mut expected = original;
    expected.sort_unstable();
    data.sort_unstable();
    assert_eq!(data, expected);
}

#[test]
fn equal_high_bits_do_not_matter() {
    let high = 0xabcd_0000_0000_0000u64;
    let mut data: Vec<u64> = random_words(3000, 30).iter().map(|w| w | high).collect();
    let mut expected = data.clone();
    expected.sort_unstable();
    let mut scratch = vec![0u64; 3000];
    sort_uniform_u64s(&mut data, 30, &mut scratch);
    assert_eq!(data, expected);
}

#[test]
fn tunable_reads_decimal_or_takes_the_default() {
    assert_eq!(tunable(None, 11), 11);
    assert_eq!(tunable(Some("8"), 11), 8);
    assert_eq!(tunable(Some("1024"), 11), 1024);
    assert_eq!(tunable(Some("007"), 11), 7);
    assert_eq!(tunable(Some(""), 11), 0);
}

#[test]
fn longer_scratch_is_left_alone() {
    let mut data = [3, 0, 2, 1, 0];
    let mut scratch = [9; 6];
    sort_uniform_u64s(&mut data, 2, &mut scratch);
    assert_eq!(data, [0, 0, 1, 2, 3]);
    assert_eq!(scratch[5], 9);
}

#[test]
fn few_words_are_sorted_by_all_bits() {
    for len in [2usize, 100, 256] {
        for num_bits in [0, 1, 7] {
            let mut data = random_words(len, 64);
            let mut expected = data.clone();
            expected.sort_unstable();
            let mut scratch = vec![0u64; len];
            sort_uniform_u64s(&mut data, num_bits, &mut scratch);
            assert_eq!(data, expected);
        }
    }
}
