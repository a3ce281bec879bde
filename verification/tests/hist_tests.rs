use ldapbench::hist::{Bucket, HistConfig, HistError, Histogram};

#[test]
fn config_rejects_bad_parameters() {
    assert_eq!(HistConfig::new(7, 65).unwrap_err(), HistError::MaxPowerTooHigh);
    assert_eq!(HistConfig::new(7, 7).unwrap_err(), HistError::MaxPowerTooLow);
    assert_eq!(HistConfig::new(32, 33).unwrap_err(), HistError::Overflow);
    assert_eq!(HistConfig::new(31, 32).unwrap_err(), HistError::Overflow);
    let c = HistConfig::new(7, 32).unwrap();
    assert_eq!(c.grouping_power, 7);
    assert_eq!(c.max_value_power, 32);
}

#[test]
fn new_histogram_is_empty() {
    let h = Histogram::new(7, 32).unwrap();
    assert_eq!(h.total_count(), 0);
    assert_eq!(h.snapshot().len(), 3328);
    assert!(h.snapshot().iter().all(|&c| c == 0));
}

#[test]
fn linear_range_buckets_are_exact() {
    let mut h = Histogram::new(7, 32).unwrap();
    h.increment(0).unwrap();
    h.increment(1).unwrap();
    h.increment(255).unwrap();
    let snap = h.snapshot();
    assert_eq!(snap[0], 1);
    assert_eq!(snap[1], 1);
    assert_eq!(snap[255], 1);
    assert_eq!(h.total_count(), 3);
}

#[test]
fn logarithmic_buckets_match_reference_layout() {
    // The same values the reference layout places at known indices.
    let mut h = Histogram::new(7, 64).unwrap();
    for v in [256u64, 257, 258, 512, 515, 516, 1024, 1031, 1032, u64::MAX - 1, u64::MAX] {
        h.increment(v).unwrap();
    }
    let snap = h.snapshot();
    assert_eq!(snap[256], 2); // 256 and 257 share the first two-wide bucket
    assert_eq!(snap[257], 1); // 258
    assert_eq!(snap[384], 2); // 512 and 515
    assert_eq!(snap[385], 1); // 516
    assert_eq!(snap[512], 2); // 1024 and 1031
    assert_eq!(snap[513], 1); // 1032
    assert_eq!(snap[7423], 2); // the two largest values
}

#[test]
fn bucket_layout_agrees_with_histogram_crate() {
    // Record the same values here and in the histogram crate and compare
    // the resulting bucket-count vectors.
    let values = [0u64, 1, 100, 255, 256, 257, 300, 1000, 4096, 65536, 1 << 30, (1 << 32) - 1];
    let mut ours = Histogram::new(7, 32).unwrap();
    let mut theirs = histogram::Histogram::new(7, 32).unwrap();
    for &v in &values {
        ours.increment(v).unwrap();
        theirs.increment(v).unwrap();
    }
    assert_eq!(ours.snapshot(), theirs.as_slice().to_vec());
}

#[test]
fn out_of_range_samples_are_dropped() {
    let mut h = Histogram::new(7, 32).unwrap();
    assert_eq!(h.increment(1 << 32), Err(HistError::OutOfRange));
    assert_eq!(h.increment(u64::MAX), Err(HistError::OutOfRange));
    assert_eq!(h.total_count(), 0);
    h.increment((1 << 32) - 1).unwrap();
    assert_eq!(h.total_count(), 1);
}

#[test]
fn snapshot_round_trip_preserves_percentiles() {
    let mut h = Histogram::new(7, 32).unwrap();
    for v in [10u64, 20, 30, 1000, 5000, 100_000] {
        h.increment(v).unwrap();
    }
    let restored = Histogram::from_buckets(7, 32, h.snapshot()).unwrap();
    for p in [1u64, 100, 250, 500, 750, 900, 990, 999, 1000] {
        assert_eq!(h.percentile_tenths(p), restored.percentile_tenths(p));
    }
    assert_eq!(h.snapshot(), restored.snapshot());
}

#[test]
fn from_buckets_rejects_wrong_length() {
    assert_eq!(
        Histogram::from_buckets(7, 32, vec![0; 100]).unwrap_err(),
        HistError::IncompatibleParameters
    );
}

#[test]
fn merge_is_commutative_and_associative() {
    let mut a = Histogram::new(7, 32).unwrap();
    let mut b = Histogram::new(7, 32).unwrap();
    let mut c = Histogram::new(7, 32).unwrap();
    for v in [1u64, 500, 70_000] {
        a.increment(v).unwrap();
    }
    for v in [2u64, 500, 1_000_000] {
        b.increment(v).unwrap();
    }
    for v in [3u64, 900, 70_000] {
        c.increment(v).unwrap();
    }
    let ab = a.checked_add(&b).unwrap();
    let ba = b.checked_add(&a).unwrap();
    assert_eq!(ab.snapshot(), ba.snapshot());
    let ab_c = ab.checked_add(&c).unwrap();
    let bc = b.checked_add(&c).unwrap();
    let a_bc = a.checked_add(&bc).unwrap();
    assert_eq!(ab_c.snapshot(), a_bc.snapshot());
}

#[test]
fn merge_rejects_mismatched_parameters() {
    let a = Histogram::new(7, 32).unwrap();
    let b = Histogram::new(7, 30).unwrap();
    assert_eq!(a.checked_add(&b).unwrap_err(), HistError::IncompatibleParameters);
}

#[test]
fn merge_reports_counter_overflow() {
    let a = Histogram::from_buckets(7, 32, {
        let mut v = vec![0u64; 3328];
        v[5] = u64::MAX;
        v
    })
    .unwrap();
    let mut b = Histogram::new(7, 32).unwrap();
    b.increment(5).unwrap();
    assert_eq!(a.checked_add(&b).unwrap_err(), HistError::Overflow);
}

#[test]
fn percentile_of_empty_histogram_is_none() {
    let h = Histogram::new(7, 32).unwrap();
    assert_eq!(h.percentile_tenths(500).unwrap(), None);
}

#[test]
fn percentile_rejects_out_of_range_request() {
    let mut h = Histogram::new(7, 32).unwrap();
    h.increment(5).unwrap();
    assert_eq!(h.percentile_tenths(0).unwrap_err(), HistError::InvalidPercentile);
    assert_eq!(h.percentile_tenths(1001).unwrap_err(), HistError::InvalidPercentile);
}

#[test]
fn percentile_picks_first_bucket_reaching_rank() {
    let mut h = Histogram::new(7, 32).unwrap();
    for _ in 0..9 {
        h.increment(10).unwrap();
    }
    h.increment(100).unwrap();
    // ranks 1..=9 fall in the bucket of value 10, rank 10 in that of 100
    assert_eq!(
        h.percentile_tenths(500).unwrap(),
        Some(Bucket { low: 10, high: 10, count: 9 })
    );
    assert_eq!(
        h.percentile_tenths(900).unwrap(),
        Some(Bucket { low: 10, high: 10, count: 9 })
    );
    assert_eq!(
        h.percentile_tenths(1000).unwrap(),
        Some(Bucket { low: 100, high: 100, count: 1 })
    );
}

#[test]
fn percentiles_are_monotone() {
    let mut h = Histogram::new(7, 32).unwrap();
    for v in [5u64, 5, 17, 300, 301, 40_000, 2_000_000, 100_000_000] {
        h.increment(v).unwrap();
    }
    let mut last_mid = 0u64;
    for p in [10u64, 250, 500, 750, 900, 950, 990, 999, 1000] {
        let b = h.percentile_tenths(p).unwrap().unwrap();
        let mid = (b.low + b.high) / 2;
        assert!(mid >= last_mid, "percentile {} went backwards", p);
        last_mid = mid;
    }
}

#[test]
fn nonempty_buckets_are_ascending_with_counts() {
    let mut h = Histogram::new(7, 32).unwrap();
    h.increment(3).unwrap();
    h.increment(3).unwrap();
    h.increment(90).unwrap();
    let nb = h.nonempty_buckets();
    assert_eq!(nb.len(), 2);
    assert_eq!((nb[0].low, nb[0].high, nb[0].count), (3, 3, 2));
    assert_eq!((nb[1].low, nb[1].high, nb[1].count), (90, 90, 1));
}
