use jsonl_peek::hist::{
    bucket_for, value_for_bucket, At, Histogram, BUCKET_COUNT, EXACT_MAX, MAX_EXP, SUBDIV,
};

/// The percentile for a fraction.
fn percentile(hist: &Histogram, p: f64) -> Option<u64> {
    hist.percentile(if p == 0.0 {
        At::Least
    } else if p == 1.0 {
        At::Greatest
    } else {
        At::Rank((p * hist.count() as f64).ceil() as u64)
    })
}

fn mean(hist: &Histogram) -> Option<f64> {
    hist.mean().map(|(sum, count)| sum as f64 / count as f64)
}

#[test]
fn empty_histogram_has_no_summary() {
    let hist = Histogram::new();
    assert_eq!(hist.count(), 0);
    assert_eq!(hist.min(), None);
    assert_eq!(hist.max(), None);
    assert_eq!(mean(&hist), None);
    assert_eq!(percentile(&hist, 0.5), None);
}

#[test]
fn small_values_round_trip_exactly() {
    let mut hist = Histogram::new();
    for v in [0u64, 1, 5, 16] {
        hist.add(v);
    }
    // Each of these is its own bucket, so the median of this 4-item set
    // (rank 2 under nearest-rank) is exactly 1.
    assert_eq!(percentile(&hist, 0.5), Some(1));
    assert_eq!(hist.min(), Some(0));
    assert_eq!(hist.max(), Some(16));
}

#[test]
fn min_max_mean_are_exact_over_a_wide_range() {
    let mut hist = Histogram::new();
    for v in 1..=10_000u64 {
        hist.add(v);
    }
    assert_eq!(hist.count(), 10_000);
    assert_eq!(hist.min(), Some(1));
    assert_eq!(hist.max(), Some(10_000));
    assert_eq!(mean(&hist), Some(5_000.5));
}

#[test]
fn percentiles_stay_within_error_bound_above_the_exact_range() {
    let mut hist = Histogram::new();
    let n = 1_000_000u64;
    for v in 1..=n {
        hist.add(v);
    }
    for &p in &[0.01, 0.1, 0.5, 0.9, 0.99, 0.999] {
        let want = (p * n as f64).ceil();
        let got = percentile(&hist, p).unwrap();
        let relative_error = (got as f64 - want).abs() / want;
        assert!(
            relative_error < 0.02,
            "p{p}: got {got}, want ~{want}, relative error {relative_error}"
        );
    }
}

#[test]
fn percentile_of_a_single_value_is_that_value() {
    let mut hist = Histogram::new();
    hist.add(42);
    assert_eq!(percentile(&hist, 0.0), Some(42));
    assert_eq!(percentile(&hist, 1.0), Some(42));
}

#[test]
fn handles_a_value_near_the_top_of_the_range() {
    let mut hist = Histogram::new();
    hist.add(u64::MAX);
    hist.add(1);
    assert_eq!(hist.min(), Some(1));
    assert_eq!(hist.max(), Some(u64::MAX));
    assert_eq!(percentile(&hist, 1.0), Some(u64::MAX));
}

#[test]
fn bucket_count_matches_the_declared_layout() {
    assert_eq!(
        BUCKET_COUNT,
        EXACT_MAX as usize + MAX_EXP as usize * SUBDIV as usize
    );
    // The largest ratio a u64 value can produce (value / EXACT_MAX) is
    // just under 2^60, so its exponent must fit under MAX_EXP.
    let e = (u64::MAX / EXACT_MAX).ilog2();
    assert!(e < MAX_EXP as u32);
}

#[test]
fn ranks_outside_the_range_are_taken_as_the_nearest() {
    let mut hist = Histogram::new();
    for v in [3u64, 7, 11] {
        hist.add(v);
    }
    assert_eq!(hist.percentile(At::Rank(0)), Some(3));
    assert_eq!(hist.percentile(At::Rank(1)), Some(3));
    assert_eq!(hist.percentile(At::Rank(2)), Some(7));
    assert_eq!(hist.percentile(At::Rank(3)), Some(11));
    assert_eq!(hist.percentile(At::Rank(u64::MAX)), Some(11));
}

#[test]
fn buckets_have_the_documented_layout() {
    for v in 0..=16u64 {
        assert_eq!(value_for_bucket(bucket_for(v)), v);
    }
    assert_eq!(bucket_for(16), 16);
    assert_eq!(bucket_for(31), 46);
    assert_eq!(bucket_for(32), 48);
    assert_eq!(bucket_for(1000), 16 + 5 * 32 + 30);
    assert_eq!(value_for_bucket(16 + 5 * 32 + 30), 1000);
    assert_eq!(bucket_for(u64::MAX), BUCKET_COUNT - 1);
}

#[test]
fn a_bucket_is_close_to_its_values() {
    for v in [17u64, 33, 999, 65_535, 1_000_003, u64::MAX / 3, u64::MAX] {
        let got = value_for_bucket(bucket_for(v));
        assert!(64 * got.abs_diff(v) as u128 <= v as u128);
    }
}

#[test]
fn mean_is_a_sum_over_a_count() {
    let mut hist = Histogram::default();
    hist.add(u64::MAX);
    hist.add(u64::MAX);
    hist.add(4);
    assert_eq!(hist.mean(), Some((2 * u64::MAX as u128 + 4, 3)));
}

#[test]
fn larger_values_never_fall_into_earlier_buckets() {
    let mut values: Vec<u64> = (0..5000).collect();
    values.extend((12..64).flat_map(|e| [(1u64 << e) - 1, 1 << e, (1 << e) + 1]));
    values.sort_unstable();
    for pair in values.windows(2) {
        assert!(bucket_for(pair[0]) <= bucket_for(pair[1]));
    }
}

#[test]
fn every_rank_gives_the_bucket_of_the_value_that_has_it() {
    let mut hist = Histogram::new();
    let values = [5u64, 900, 5, 70_000, 31];
    for v in values {
        hist.add(v);
    }
    let mut sorted = values;
    sorted.sort_unstable();
    for (i, v) in sorted.iter().enumerate() {
        assert_eq!(hist.percentile(At::Rank(i as u64 + 1)), Some(value_for_bucket(bucket_for(*v))));
    }
}

#[test]
fn the_median_of_a_thousand_values() {
    let mut hist = Histogram::new();
    for v in 1..=1000u64 {
        hist.add(v);
    }
    let p50 = percentile(&hist, 0.5).unwrap();
    assert!((p50 as f64 - 500.0).abs() / 500.0 < 0.05);
}

#[test]
fn the_ends_are_exact_where_a_rank_is_not() {
    let mut hist = Histogram::new();
    hist.add(1000);
    hist.add(1003);
    hist.add(1007);
    assert_eq!(bucket_for(1003), bucket_for(1007));
    let inside = value_for_bucket(bucket_for(1007));
    assert_eq!(hist.percentile(At::Rank(3)), Some(inside));
    assert_ne!(inside, 1007);
    assert_eq!(hist.percentile(At::Least), hist.min());
    assert_eq!(hist.percentile(At::Greatest), hist.max());
    assert_eq!(hist.percentile(At::Greatest), Some(1007));
    for at in [At::Least, At::Rank(1), At::Greatest] {
        assert_eq!(Histogram::new().percentile(at), None);
    }
}
