use radix_spline::{compute_orientation, num_shift_bits, Orientation, RadixSpline, RadixSplineSearchBound};

/// A small deterministic generator for test data.
struct Lcg(u64);

impl Lcg {
    fn next(&mut self) -> u64 {
        self.0 = self.0.wrapping_mul(6364136223846793005).wrapping_add(1442695040888963407);
        self.0 >> 11
    }

    fn below(&mut self, n: u64) -> u64 {
        self.next() % n
    }
}

/// Sorted keys with at least two distinct values.
fn sorted_keys(rng: &mut Lcg, min_len: u64, max_len: u64, spread: u64) -> Vec<u64> {
    loop {
        let len = min_len + rng.below(max_len - min_len + 1);
        let mut data: Vec<u64> = (0..len).map(|_| rng.below(spread)).collect();
        data.sort();
        if data[0] != data[data.len() - 1] {
            return data;
        }
    }
}

fn build(keys: &[u64], max_error: Option<u64>, radix_bits: Option<u64>) -> RadixSpline {
    let mut builder = RadixSpline::builder(keys[0], keys[keys.len() - 1]);
    if let Some(bits) = radix_bits {
        builder.radix_bits(bits);
    }
    if let Some(err) = max_error {
        builder.max_error(err);
    }
    builder.add_keys(keys);
    builder.build()
}

fn assert_found(data: &[u64], spline: &RadixSpline, key: u64) {
    for i in spline.find(key) {
        assert!(data[i] <= key);
        if data[i] == key {
            return;
        }
    }
    panic!("Didn't find element");
}

#[test]
fn basic_behavioural() {
    let mut builder = RadixSpline::builder(0, 1000);
    let keys: Vec<u64> = (0..=1000).collect();
    builder.add_keys(&keys);
    let spline = builder.build();

    let range = spline.find(50);

    assert!(range.contains(&50));
}

#[test]
fn construct_spline() {
    let mut rng = Lcg(7);
    for _ in 0..200 {
        let data = sorted_keys(&mut rng, 2, 20, u64::MAX);
        let max_error = 5 + rng.below(26);
        let radix_bits = 8 + rng.below(18);
        let spline = build(&data, Some(max_error), Some(radix_bits));
        let range = spline.find(data[0]);
        assert!(range.start <= range.end && range.end <= data.len());
    }
}

#[test]
fn can_find_elements() {
    let mut rng = Lcg(11);
    for _ in 0..200 {
        let data = sorted_keys(&mut rng, 2, 300, 5000);
        let spline = build(&data, None, None);
        for &key in &data {
            assert_found(&data, &spline, key);
        }
    }
}

#[test]
fn spline_searching_checks() {
    let data = vec![1, 2, 3, 55, 56, 57, 110, 111, 112, 165, 166, 167, 277, 278, 279];
    let mut builder = RadixSpline::builder(1, 279);
    builder.max_error(3);
    builder.radix_bits(4);
    builder.add_keys(&data);
    let spline = builder.build();

    for &key in &data {
        assert_found(&data, &spline, key);
    }
    for key in 0..=280u64 {
        let range = spline.find(key);
        assert!(range.start <= range.end);
        assert!(range.end <= data.len());
    }
}

#[test]
fn linear_keys_exact_ranges() {
    let keys: Vec<u64> = (0..=1000).collect();
    let spline = build(&keys, None, None);
    assert_eq!(spline.find(50), 18..84);
    assert_eq!(spline.find(0), 0..34);
    assert_eq!(spline.find(1000), 968..1001);
    assert_eq!(spline.find(999), 967..1001);
}

#[test]
fn three_keys_exact_ranges() {
    let keys = vec![0u64, 5, 10];
    let spline = build(&keys, Some(1), None);
    assert_eq!(spline.find(5), 0..3);
    assert_eq!(spline.find(10), 1..3);
    assert_eq!(spline.find(0), 0..3);
    assert_eq!(spline.find(7), 0..3);
}

#[test]
fn keys_between_spline_points_are_interpolated() {
    // the spline runs from (0, 0) through (100, 2) to (101, 3)
    let keys = vec![0u64, 1, 100, 101];
    let spline = build(&keys, Some(0), None);
    assert_eq!(spline.find(1), 1..3);
    assert_eq!(spline.find(50), 1..3);
    assert_eq!(spline.find(100), 2..4);
    assert_eq!(spline.find(101), 3..4);
}

#[test]
fn repeated_largest_key_keeps_keys_in_range() {
    // the spline closes at the first position of the largest key
    let mut keys = vec![0u64, 1];
    keys.extend(std::iter::repeat(2u64).take(67));
    let spline = build(&keys, None, None);
    for &key in &[0u64, 1, 2] {
        assert_found(&keys, &spline, key);
    }
    assert_eq!(spline.find(1), 0..35);
    let keys = vec![0u64, 1, 2, 2, 2, 2, 2, 2, 2, 2];
    let spline = build(&keys, Some(1), None);
    assert_eq!(spline.find(1), 0..4);
    assert_eq!(spline.find(2), 8..10);
}

#[test]
fn repeated_keys_everywhere_are_found() {
    let mut rng = Lcg(23);
    for _ in 0..200 {
        let data = sorted_keys(&mut rng, 2, 200, 20);
        let max_error = rng.below(4);
        let spline = build(&data, Some(max_error), None);
        for &key in &data {
            assert_found(&data, &spline, key);
        }
    }
}

#[test]
fn empty_spline_finds_nothing() {
    let spline = RadixSpline::builder(0, 10).build();
    assert_eq!(spline.find(0), 0..0);
}

#[test]
fn builder_calls_chain() {
    let keys = vec![1u64, 2, 3, 55, 56, 57, 110];
    let mut builder = RadixSpline::builder(1, 110);
    builder.radix_bits(4).max_error(3).add_keys(&keys);
    let spline = builder.build();
    for &key in &keys {
        assert_found(&keys, &spline, key);
    }
    let mut builder = RadixSpline::builder(1, 110);
    builder.add_key(1).add_key(2).add_key(110);
    let spline = builder.build();
    assert_eq!(spline.find(110), 0..3);
}

#[test]
fn large_keys_are_found() {
    let keys = vec![0u64, 1 << 40, (1 << 40) + 3, 1 << 62, u64::MAX - 1, u64::MAX];
    let spline = build(&keys, Some(0), Some(18));
    for &key in &keys {
        assert_found(&keys, &spline, key);
    }
    let spline = build(&keys, Some(u64::MAX), Some(12));
    assert_eq!(spline.find(1 << 62), 0..6);
}

#[test]
fn shift_bits_values() {
    assert_eq!(num_shift_bits(1000, 18), 0);
    assert_eq!(num_shift_bits(1 << 20, 18), 3);
    assert_eq!(num_shift_bits(u64::MAX, 18), 46);
    assert_eq!(num_shift_bits(u64::MAX, 0), 64);
    assert_eq!(num_shift_bits(0, 0), 0);
    assert_eq!(num_shift_bits(278, 4), 5);
    assert_eq!(num_shift_bits(5, 100), 0);
}

#[test]
fn shift_bits_valid() {
    let mut rng = Lcg(3);
    for _ in 0..1000 {
        let diff = rng.next() | 1;
        let radix_bits = 1 + rng.below(63);
        let shift = num_shift_bits(diff, radix_bits);
        assert!(shift < 64);
        assert!((diff >> shift) < (1u64 << radix_bits));
    }
}

#[test]
fn orientation_of_small_vectors() {
    assert_eq!(compute_orientation((1, 2), (2, 3)), Orientation::Clockwise);
    assert_eq!(compute_orientation((1, 0), (2, 1)), Orientation::AntiClockwise);
    assert_eq!(compute_orientation((1, 1), (2, 2)), Orientation::Colinear);
    assert_eq!(compute_orientation((2, -1), (3, 1)), Orientation::AntiClockwise);
    assert_eq!(compute_orientation((2, 1), (3, -1)), Orientation::Clockwise);
    assert_eq!(compute_orientation((2, -1), (4, -2)), Orientation::Colinear);
    assert_eq!(compute_orientation((0, 0), (3, -1)), Orientation::Colinear);
}

#[test]
fn orientation_of_wide_vectors() {
    let big: i128 = 1 << 65;
    // big * MAX - (big - 1) * MAX = MAX > 0
    assert_eq!(compute_orientation((u64::MAX, big), (u64::MAX, big - 1)), Orientation::Clockwise);
    assert_eq!(compute_orientation((u64::MAX, big - 1), (u64::MAX, big)), Orientation::AntiClockwise);
    assert_eq!(compute_orientation((u64::MAX, big), (u64::MAX, big)), Orientation::Colinear);
    assert_eq!(compute_orientation((u64::MAX, -big + 1), (u64::MAX, -big + 2)), Orientation::AntiClockwise);
}

#[test]
fn search_bound_holds_a_range() {
    let keys = vec![0u64, 5, 10];
    let spline = build(&keys, Some(1), None);
    let range = spline.find(5);
    let bound = RadixSplineSearchBound { start: range.start, stop: range.end };
    assert_eq!((bound.start, bound.stop), (0, 3));
}

#[test]
fn size_counts_both_tables() {
    let keys: Vec<u64> = (0..=1000).collect();
    let spline = build(&keys, None, None);
    let expected = std::mem::size_of::<RadixSpline>()
        + 1002 * std::mem::size_of::<u32>()
        + 2 * std::mem::size_of::<(u64, usize)>();
    assert_eq!(spline.size_in_bytes(), expected);
}
