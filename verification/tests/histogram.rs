use keel::bench::histogram::{bucket_of, upper_edge, Histogram, BUCKETS, SUB_BUCKETS};

const LINEAR_LIMIT: u64 = SUB_BUCKETS as u64;

#[test]
fn small_values_are_recorded_exactly() {
    let mut h = Histogram::new();
    for v in 0..LINEAR_LIMIT {
        h.record(v);
    }
    assert_eq!(h.count(), LINEAR_LIMIT);
    assert_eq!(h.min(), 0);
    assert_eq!(h.max(), LINEAR_LIMIT - 1);
    assert_eq!(h.quantile(1, 1), LINEAR_LIMIT - 1);
}

/// The property the bucketing exists for: the error stays proportional
/// rather than staying absolute.
#[test]
fn the_relative_error_is_bounded_at_every_magnitude() {
    for exponent in 7..40u32 {
        let value = 1u64 << exponent;
        for offset in [0u64, 1, value / 3, value / 2] {
            let v = value + offset;
            let edge = upper_edge(bucket_of(v));
            assert!(edge >= v, "bucket edge {edge} is below the value {v}");
            let error = (edge - v) as f64 / v as f64;
            assert!(
                error < 0.02,
                "value {v} landed in a bucket ending at {edge}, {:.3}% away",
                error * 100.0
            );
        }
    }
}

/// A quoted percentile must never be lower than the truth.
#[test]
fn a_percentile_is_never_optimistic() {
    let mut h = Histogram::new();
    let samples: Vec<u64> = (1..=1000).map(|i| i * 1_000).collect();
    for s in &samples {
        h.record(*s);
    }
    let mut sorted = samples.clone();
    sorted.sort_unstable();
    for (num, den) in [(1, 2), (9, 10), (99, 100), (999, 1000), (1, 1)] {
        let q = num as f64 / den as f64;
        let exact = sorted[(((sorted.len() as f64) * q).ceil() as usize - 1).min(999)];
        let reported = h.quantile(num, den);
        assert!(
            reported >= exact,
            "p{q} reported {reported}, which is below the exact {exact}"
        );
    }
}

/// The correction that makes an open-loop measurement honest.
#[test]
fn a_weighted_sample_counts_for_every_request_it_stands_for() {
    let mut plain = Histogram::new();
    let mut weighted = Histogram::new();
    for _ in 0..10 {
        plain.record(1_000_000);
    }
    weighted.record_weighted(1_000_000, 10);
    assert_eq!(plain.count(), weighted.count());
    assert_eq!(plain.quantile(99, 100), weighted.quantile(99, 100));
    assert!(plain.mean().abs_diff(weighted.mean()) < 1);
}

#[test]
fn merging_two_histograms_is_the_same_as_recording_into_one() {
    let mut both = Histogram::new();
    let mut a = Histogram::new();
    let mut b = Histogram::new();
    for i in 1..500u64 {
        both.record(i * 37);
        a.record(i * 37);
    }
    for i in 500..1000u64 {
        both.record(i * 37);
        b.record(i * 37);
    }
    a.merge(&b);
    assert_eq!(a, both);
}

#[test]
fn an_empty_histogram_answers_without_dividing_by_zero() {
    let h = Histogram::new();
    assert_eq!(h.count(), 0);
    assert_eq!(h.quantile(99, 100), 0);
    assert_eq!(h.mean(), 0);
    assert_eq!(h.min(), 0);
}

#[test]
fn the_edges_of_the_buckets_are_where_they_are_worked_out_to_be() {
    assert_eq!(bucket_of(127), 127);
    assert_eq!(bucket_of(128), 128);
    assert_eq!(bucket_of(255), 255);
    // From here on two values share a bucket, and then four.
    assert_eq!(bucket_of(256), 256);
    assert_eq!(bucket_of(257), 256);
    assert_eq!(upper_edge(256), 257);
    assert_eq!(bucket_of(u64::MAX), BUCKETS - 1);
    assert_eq!(upper_edge(BUCKETS - 1), u64::MAX);
}

#[test]
fn a_histogram_hands_out_what_it_holds() {
    let mut h = Histogram::new();
    h.record(5);
    h.record_weighted(300, 3);
    h.record_weighted(9, 0);
    assert_eq!(h.count(), 4);
    assert_eq!(h.total(), 905);
    assert_eq!(h.mean(), 226);
    assert_eq!((h.min(), h.max()), (5, 300));
    assert_eq!(h.buckets(), vec![(5, 1), (301, 3)]);
    assert_eq!(h.quantile(1, 4), 5);
    assert_eq!(h.quantile(1, 2), 301);
}

#[test]
fn the_first_sample_is_both_extremes() {
    for value in [0, 1, 77, u64::MAX] {
        let mut h = Histogram::new();
        h.record(value);
        assert_eq!((h.min(), h.max(), h.count()), (value, value, 1));
    }
}
