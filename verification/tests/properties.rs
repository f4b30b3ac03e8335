use nexus_sort_core::cognitive_engine::{
    predict_sorting_strategy, predict_sorting_strategy_f32, SortingStrategy,
};
use nexus_sort_core::cognitive_engine::features::{extract_features_f32, extract_features_ord};
use nexus_sort_core::macro_sorters::{comparison_sort, merge_sort_bits, radix_sort_f32};
use nexus_sort_core::micro_sorters::alpha_dev_sort;
use nexus_sort_core::{nexus_sort, nexus_sort_f32};

fn to_bits(data: &[f32]) -> Vec<u32> {
    data.iter().map(|x| x.to_bits()).collect()
}

fn from_bits(bits: &[u32]) -> Vec<f32> {
    bits.iter().map(|b| f32::from_bits(*b)).collect()
}

fn is_nan_pattern(x: u32) -> bool {
    f32::from_bits(x).is_nan()
}

/// Multiset equality of bit patterns, order ignored.
fn same_multiset(a: &[u32], b: &[u32]) -> bool {
    let mut sa = a.to_vec();
    let mut sb = b.to_vec();
    sa.sort_unstable();
    sb.sort_unstable();
    sa == sb
}

/// Adjacent pairs never compare Greater under the NaN-as-equal rule.
fn nan_eq_non_decreasing(bits: &[u32]) -> bool {
    bits.windows(2).all(|w| {
        let a = f32::from_bits(w[0]);
        let b = f32::from_bits(w[1]);
        a.partial_cmp(&b) != Some(std::cmp::Ordering::Greater)
    })
}

#[test]
fn integer_scenario() {
    let mut data: Vec<i32> = vec![5, 3, 4, 1, 2];
    nexus_sort(&mut data);
    assert_eq!(data, vec![1, 2, 3, 4, 5]);
}

#[test]
fn integer_sort_twice_is_once() {
    let mut data: Vec<i32> = vec![9, -4, 7, 7, 0, -4, 100, 3];
    nexus_sort(&mut data);
    let once = data.clone();
    nexus_sort(&mut data);
    assert_eq!(data, once);
}

#[test]
fn float_sort_twice_is_once() {
    let raw: Vec<f32> = vec![3.5, -2.0, 8.25, -2.0, 0.5, 7.0, -100.0, 4.0];
    let mut bits = to_bits(&raw);
    nexus_sort_f32(&mut bits);
    let once = bits.clone();
    nexus_sort_f32(&mut bits);
    assert_eq!(bits, once);
}

#[test]
fn float_zero_scenario() {
    let raw: Vec<f32> = vec![3.0, -0.0, 0.0, -1.0];
    let mut bits = to_bits(&raw);
    nexus_sort_f32(&mut bits);
    let first = bits.clone();
    let mut bits2 = to_bits(&raw);
    nexus_sort_f32(&mut bits2);
    assert_eq!(bits, bits2, "zero-pair order must be consistent across runs");
    let result = from_bits(&first);
    assert_eq!(result[0], -1.0);
    assert_eq!(result[3], 3.0);
    let zeros: Vec<u32> = vec![first[1], first[2]];
    assert!(zeros.contains(&0.0f32.to_bits()));
    assert!(zeros.contains(&(-0.0f32).to_bits()));
}

fn check_network_sorts(values: &[f32]) {
    // every permutation of the given values must come out non-decreasing
    let n = values.len();
    let mut indices: Vec<usize> = (0..n).collect();
    permute_and_check(values, &mut indices, 0);
}

fn permute_and_check(values: &[f32], indices: &mut Vec<usize>, k: usize) {
    let n = values.len();
    if k == n {
        let perm: Vec<f32> = indices.iter().map(|i| values[*i]).collect();
        let mut bits = to_bits(&perm);
        let orig = bits.clone();
        alpha_dev_sort(&mut bits);
        assert!(same_multiset(&orig, &bits));
        let sorted = from_bits(&bits);
        for w in sorted.windows(2) {
            assert!(w[0] <= w[1], "network failed on {:?}", perm);
        }
        return;
    }
    for i in k..n {
        indices.swap(k, i);
        permute_and_check(values, indices, k + 1);
        indices.swap(k, i);
    }
}

#[test]
fn network_exhaustive_len2() {
    check_network_sorts(&[2.0, 1.0]);
    check_network_sorts(&[1.0, 1.0]);
}

#[test]
fn network_exhaustive_len3() {
    check_network_sorts(&[3.0, 1.0, 2.0]);
    check_network_sorts(&[2.0, 2.0, -5.0]);
}

#[test]
fn network_exhaustive_len4() {
    check_network_sorts(&[4.0, 1.0, 3.0, 2.0]);
    check_network_sorts(&[-1.0, 0.5, 0.5, -7.0]);
}

#[test]
fn micro_fallback_sorts() {
    let raw: Vec<f32> = (0..20).map(|i| 19.0 - i as f32).collect();
    let mut bits = to_bits(&raw);
    alpha_dev_sort(&mut bits);
    let sorted = from_bits(&bits);
    for (i, x) in sorted.iter().enumerate() {
        assert_eq!(*x, i as f32);
    }
}

#[test]
fn radix_boundary_values() {
    let raw: Vec<f32> = vec![
        1.0,
        f32::INFINITY,
        -0.0,
        f32::MAX,
        f32::NEG_INFINITY,
        0.0,
        f32::MIN,
        -1.5e-38,
        2.5e38,
        -2.0,
    ];
    let mut bits = to_bits(&raw);
    radix_sort_f32(&mut bits);
    let mut bits2 = to_bits(&raw);
    radix_sort_f32(&mut bits2);
    assert_eq!(bits, bits2, "radix placement must be consistent across runs");
    let expected: Vec<u32> = to_bits(&[
        f32::NEG_INFINITY,
        f32::MIN,
        -2.0,
        -1.5e-38,
        -0.0,
        0.0,
        1.0,
        2.5e38,
        f32::MAX,
        f32::INFINITY,
    ]);
    assert_eq!(bits, expected, "-0.0 sits just below +0.0 in the transform order");
}

#[test]
fn radix_large_random_is_sorted() {
    // deterministic pseudo-random data keeps the radix path exercised
    let mut state: u32 = 0xdead_beef;
    let mut raw: Vec<f32> = Vec::new();
    for _ in 0..500 {
        state = state.wrapping_mul(1_664_525).wrapping_add(1_013_904_223);
        raw.push((state as f32 / u32::MAX as f32) * 2000.0 - 1000.0);
    }
    let mut bits = to_bits(&raw);
    let orig = bits.clone();
    radix_sort_f32(&mut bits);
    assert!(same_multiset(&orig, &bits));
    let sorted = from_bits(&bits);
    for w in sorted.windows(2) {
        assert!(w[0] <= w[1]);
    }
}

#[test]
fn nan_tolerance_all_strategies() {
    let nan = f32::NAN;
    // NaN inside the sample of a large fragmented array: Intro strategy
    let mut raw: Vec<f32> = Vec::new();
    for i in 0..100 {
        raw.push(if i % 2 == 0 { 100.0 - i as f32 } else { nan });
    }
    let mut bits = to_bits(&raw);
    let orig = bits.clone();
    nexus_sort_f32(&mut bits);
    assert!(same_multiset(&orig, &bits));

    // NaN through the stable path and the unstable path directly
    for stable in [true, false] {
        let mut b = to_bits(&[2.0, nan, 1.0, nan, -3.0, 0.5, 9.0]);
        let o = b.clone();
        comparison_sort(&mut b, stable);
        assert!(same_multiset(&o, &b));
        assert!(nan_eq_non_decreasing(&b));
    }

    // NaN in a tiny array: the fixed networks must leave a consistent order
    let mut small = to_bits(&[2.0, nan, 1.0]);
    let orig_small = small.clone();
    nexus_sort_f32(&mut small);
    assert!(same_multiset(&orig_small, &small));
    assert!(nan_eq_non_decreasing(&small));

    // NaN beyond the sample with a clean sample: the radix path still
    // terminates and yields its consistent transform order
    let mut big: Vec<f32> = (0..2000).map(|i| ((i * 37) % 1000) as f32).collect();
    big[1500] = nan;
    let mut bb = to_bits(&big);
    let ob = bb.clone();
    nexus_sort_f32(&mut bb);
    assert!(same_multiset(&ob, &bb));
}

#[test]
fn stable_branch_matches_reference() {
    // 10,000 elements, sorted except one misplaced: the selector must
    // pick the stable branch and match a reference stable sort exactly
    let mut raw: Vec<f32> = (0..10_000).map(|i| i as f32).collect();
    raw[5_000] = -1.0;
    let bits = to_bits(&raw);
    assert_eq!(
        predict_sorting_strategy_f32(&bits, 1024),
        SortingStrategy::Timsort,
        "nearly sorted input must select the stable branch"
    );
    let mut reference = raw.clone();
    reference.sort_by(|a, b| a.partial_cmp(b).unwrap());
    let mut out = bits.clone();
    nexus_sort_f32(&mut out);
    assert_eq!(from_bits(&out), reference);
}

#[test]
fn stable_branch_keeps_equal_keys_in_order() {
    // distinguishable tags on equal keys: -0.0 and +0.0 compare equal
    // but have different bit patterns
    let mut raw: Vec<f32> = vec![-0.0, 0.0];
    for i in 1..40 {
        raw.push(i as f32);
    }
    let bits = to_bits(&raw);
    assert_eq!(predict_sorting_strategy_f32(&bits, bits.len()), SortingStrategy::Timsort);
    let mut out = bits.clone();
    nexus_sort_f32(&mut out);
    assert_eq!(out[0], (-0.0f32).to_bits());
    assert_eq!(out[1], 0.0f32.to_bits());

    // and directly through the stable comparison backend
    let tagged = to_bits(&[1.0, -0.0, 5.0, 0.0, -0.0, 2.0]);
    let result = merge_sort_bits(tagged);
    let zeros: Vec<u32> = result
        .iter()
        .copied()
        .filter(|b| *b == 0 || *b == 0x8000_0000)
        .collect();
    assert_eq!(zeros, vec![0x8000_0000, 0, 0x8000_0000]);
}

#[test]
fn selector_decision_table() {
    let sorted: Vec<i32> = (0..100).collect();
    assert_eq!(predict_sorting_strategy(&sorted, 100), SortingStrategy::Timsort);
    let mut ragged: Vec<i32> = Vec::new();
    for i in 0..100 {
        ragged.push(if i % 2 == 0 { i } else { -i });
    }
    assert_eq!(predict_sorting_strategy(&ragged, 100), SortingStrategy::Intro);

    let clean = to_bits(&[5.0, 1.0, 4.0, 2.0, 3.0, 0.0, 9.0, 7.0]);
    assert_eq!(predict_sorting_strategy_f32(&clean, 8), SortingStrategy::Radix);
    let with_nan = to_bits(&[5.0, 1.0, 4.0, 2.0, 3.0, 0.0, 9.0, f32::NAN]);
    assert_eq!(predict_sorting_strategy_f32(&with_nan, 8), SortingStrategy::Intro);
}

#[test]
fn feature_extractor_counts_runs() {
    let data: Vec<i32> = vec![1, 2, 3, 2, 5, 1];
    // descents at 3->2 and 5->1: runs = 3, score = 1 - 2/5 = 3/5
    let f = extract_features_ord(&data, 6);
    assert_eq!(f.pre_sortedness_num, 3);
    assert_eq!(f.pre_sortedness_den, 5);
    assert!(f.is_numeric_like);

    let single = extract_features_ord(&data, 1);
    assert_eq!(single.pre_sortedness_num, 1);
    assert_eq!(single.pre_sortedness_den, 1);

    let fl = extract_features_f32(&to_bits(&[1.0, f32::NAN, 2.0]), 3);
    assert!(!fl.is_numeric_like);
    let fl2 = extract_features_f32(&to_bits(&[1.0, 0.5, 2.0]), 3);
    assert!(fl2.is_numeric_like);
}

#[test]
fn empty_and_singleton() {
    let mut none: Vec<i32> = vec![];
    nexus_sort(&mut none);
    assert_eq!(none, Vec::<i32>::new());
    let mut one: Vec<i32> = vec![7];
    nexus_sort(&mut one);
    assert_eq!(one, vec![7]);
    let mut fnone: Vec<u32> = vec![];
    nexus_sort_f32(&mut fnone);
    assert_eq!(fnone, Vec::<u32>::new());
    let mut fone = to_bits(&[2.5]);
    nexus_sort_f32(&mut fone);
    assert_eq!(fone, to_bits(&[2.5]));
}

#[test]
fn reverse_and_all_equal() {
    let mut rev: Vec<i32> = (0..500).rev().collect();
    nexus_sort(&mut rev);
    let expect: Vec<i32> = (0..500).collect();
    assert_eq!(rev, expect);

    let mut same: Vec<i32> = vec![4; 300];
    nexus_sort(&mut same);
    assert_eq!(same, vec![4; 300]);

    let mut frev = to_bits(&(0..500).rev().map(|i| i as f32).collect::<Vec<f32>>());
    nexus_sort_f32(&mut frev);
    let fexpect = to_bits(&(0..500).map(|i| i as f32).collect::<Vec<f32>>());
    assert_eq!(frev, fexpect);
}

#[test]
fn unstable_branch_sorts_fragmented_integers() {
    // fragmented pattern drives the ordered path into the Intro branch
    let mut data: Vec<i32> = Vec::new();
    for i in 0..2000 {
        data.push(if i % 2 == 0 { i } else { 1000 - i });
    }
    assert_eq!(
        predict_sorting_strategy(&data, 1024),
        SortingStrategy::Intro
    );
    let mut reference = data.clone();
    reference.sort();
    nexus_sort(&mut data);
    assert_eq!(data, reference);
}

#[test]
fn nan_patterns_are_preserved_bitwise() {
    // several distinct NaN payloads must survive sorting untouched
    let quiet = f32::NAN.to_bits();
    let payload1 = quiet | 0x1234;
    let payload2 = 0xff80_0001u32; // a negative NaN pattern
    assert!(is_nan_pattern(payload1) && is_nan_pattern(payload2));
    let mut bits = vec![payload1, 1.0f32.to_bits(), payload2, (-2.0f32).to_bits()];
    let orig = bits.clone();
    nexus_sort_f32(&mut bits);
    assert!(same_multiset(&orig, &bits));
}

#[test]
fn heapsort_sorts_and_tolerates_nan() {
    let raw: Vec<f32> = vec![7.5, -1.0, 3.25, 0.0, -0.0, 42.0, -8.5, 7.5, 2.0];
    let bits = to_bits(&raw);
    let out = nexus_sort_core::macro_sorters::heapsort(bits.clone());
    assert!(same_multiset(&bits, &out));
    let sorted = from_bits(&out);
    for w in sorted.windows(2) {
        assert!(w[0] <= w[1]);
    }

    let with_nan = to_bits(&[5.0, f32::NAN, 1.0, -3.0, f32::NAN, 2.0]);
    let out2 = nexus_sort_core::macro_sorters::heapsort(with_nan.clone());
    assert!(same_multiset(&with_nan, &out2));
}

#[test]
fn stable_branch_bitwise_idempotent_with_zeros() {
    // nearly sorted, longer than the micro threshold, with both zero
    // patterns: the stable branch must return its own output unchanged,
    // -0.0/+0.0 placement included
    let mut raw: Vec<f32> = vec![-0.0, 0.0, -0.0];
    for i in 0..40 {
        raw.push(i as f32);
    }
    let mut bits = to_bits(&raw);
    nexus_sort_f32(&mut bits);
    let once = bits.clone();
    nexus_sort_f32(&mut bits);
    assert_eq!(bits, once);
    // the zero run kept its input order
    let zeros: Vec<u32> = once
        .iter()
        .copied()
        .filter(|b| *b == 0 || *b == 0x8000_0000)
        .collect();
    assert_eq!(zeros, vec![0x8000_0000, 0, 0x8000_0000, 0]);
}
