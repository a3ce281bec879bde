use ldapbench::lb::{per_task_count, BaseJob, RequestOutcome, TaskResult};
use ldapbench::report::{compute_report, distribution_rows, merge_histograms, percentile_rows};
use ldapbench::hist::Histogram;

fn run_worker(tid: usize, number: usize, concurrency: usize, latency_us: u64, ok: bool) -> TaskResult {
    let per_task = per_task_count(number, concurrency);
    let outcomes: Vec<RequestOutcome> =
        (0..per_task).map(|_| RequestOutcome { success: ok, latency_us }).collect();
    let elapsed = latency_us * per_task as u64;
    ldapbench::lb::run_worker(tid, number, concurrency, &outcomes, 0, elapsed)
}

#[test]
fn worker_records_each_outcome() {
    let outcomes = vec![
        RequestOutcome { success: true, latency_us: 100 },
        RequestOutcome { success: false, latency_us: 300 },
        RequestOutcome { success: true, latency_us: 100 },
    ];
    let res = ldapbench::lb::run_worker(7, 3, 1, &outcomes, 50, 550);
    assert_eq!(res.tid, 7);
    assert_eq!(res.count, 3);
    assert_eq!(res.success, 2);
    assert_eq!(res.start_us, 50);
    assert_eq!(res.end_us, 550);
    assert_eq!(res.histogram_data[100], 2);
    // 300 falls in the two-wide bucket covering 300..=301
    assert_eq!(res.histogram_data[278], 1);
    assert_eq!(res.histogram_data.iter().sum::<u64>(), 3);
}

#[test]
fn worker_drops_unrepresentable_latency() {
    let mut job = BaseJob::new(0);
    job.record_request(true, 1 << 32);
    job.record_request(true, (1 << 32) - 1);
    let res = job.to_result(0, 0);
    assert_eq!(res.count, 2);
    assert_eq!(res.success, 2);
    // the first sample was beyond the representable range
    assert_eq!(res.histogram_data.iter().sum::<u64>(), 1);
}

#[test]
fn per_task_count_rounds_up() {
    assert_eq!(per_task_count(10, 4), 3);
    assert_eq!(per_task_count(10, 5), 2);
    assert_eq!(per_task_count(0, 3), 0);
    assert_eq!(per_task_count(1, 10), 1);
}

#[test]
fn single_worker_full_success() {
    // One worker, five requests, each succeeding after exactly 100 ms.
    let res = run_worker(0, 5, 1, 100_000, true);
    assert_eq!(res.count, 5);
    assert_eq!(res.success, 5);
    let stats = compute_report(&vec![res], 1).unwrap();
    assert_eq!(stats.total_requests, 5);
    assert_eq!(stats.success_requests, 5);
    assert_eq!(stats.success_rate_percent, 100);
    assert_eq!(stats.elapsed_us, 500_000);
    // ten requests per second: the inverse of the fixed delay
    assert_eq!(stats.requests_per_sec_milli, 10_000);
    assert_eq!(stats.time_per_request_us, 100_000);
    assert_eq!(stats.time_per_request_all_us, 100_000);
}

#[test]
fn uneven_split_attempts_more_than_configured() {
    // Four workers for ten requests: each runs ceil(10/4) = 3, so the
    // run attempts 12 in total.
    let results: Vec<TaskResult> = (0..4).map(|tid| run_worker(tid, 10, 4, 1_000, true)).collect();
    for r in &results {
        assert_eq!(r.count, 3);
    }
    let stats = compute_report(&results, 4).unwrap();
    assert_eq!(stats.total_requests, 12);
    assert_eq!(stats.success_requests, 12);
    assert_eq!(stats.success_rate_percent, 100);
}

#[test]
fn empty_result_set_yields_no_report() {
    // Every worker abandoned before the timed loop: no statistics, no
    // division by zero.
    assert!(compute_report(&Vec::new(), 4).is_none());
}

#[test]
fn zero_attempts_give_zero_rate() {
    let res = run_worker(0, 0, 2, 1_000, true);
    assert_eq!(res.count, 0);
    let stats = compute_report(&vec![res], 2).unwrap();
    assert_eq!(stats.total_requests, 0);
    assert_eq!(stats.success_rate_percent, 0);
    assert_eq!(stats.time_per_request_us, 0);
    assert_eq!(stats.time_per_request_all_us, 0);
}

#[test]
fn failures_are_counted_but_not_successes() {
    let res = run_worker(0, 8, 2, 2_000, false);
    assert_eq!(res.count, 4);
    assert_eq!(res.success, 0);
    let stats = compute_report(&vec![res], 2).unwrap();
    assert_eq!(stats.total_requests, 4);
    assert_eq!(stats.success_requests, 0);
    assert_eq!(stats.success_rate_percent, 0);
}

#[test]
fn mixed_success_rate_rounds_down() {
    let ok = run_worker(0, 4, 2, 500, true);
    let bad = run_worker(1, 4, 2, 500, false);
    let stats = compute_report(&vec![ok, bad], 2).unwrap();
    assert_eq!(stats.total_requests, 4);
    assert_eq!(stats.success_requests, 2);
    assert_eq!(stats.success_rate_percent, 50);
}

#[test]
fn window_spans_earliest_start_to_latest_end() {
    let mut a = run_worker(0, 2, 2, 1_000, true);
    let mut b = run_worker(1, 2, 2, 1_000, true);
    a.start_us = 100;
    a.end_us = 900;
    b.start_us = 300;
    b.end_us = 1_500;
    let stats = compute_report(&vec![a, b], 2).unwrap();
    assert_eq!(stats.first_start_us, 100);
    assert_eq!(stats.last_end_us, 1_500);
    assert_eq!(stats.elapsed_us, 1_400);
}

#[test]
fn merged_histogram_sums_worker_snapshots() {
    let a = run_worker(0, 3, 1, 1_000, true);
    let b = run_worker(1, 3, 1, 1_000, true);
    let merged = merge_histograms(&vec![a, b]).unwrap();
    assert_eq!(merged.total_count(), 6);
}

#[test]
fn merge_rejects_a_malformed_snapshot() {
    // a snapshot of the wrong shape invalidates the whole merge: no
    // combined report, not a silently partial one
    let broken = TaskResult {
        tid: 9,
        count: 1,
        success: 1,
        start_us: 0,
        end_us: 1,
        histogram_data: vec![1; 7],
    };
    let good = run_worker(2, 3, 1, 1_000, true);
    assert_eq!(
        merge_histograms(&vec![broken, good]).unwrap_err(),
        ldapbench::hist::HistError::IncompatibleParameters
    );
}

#[test]
fn merge_rejects_a_counter_overflow() {
    let one_more = run_worker(1, 1, 1, 1_000, true);
    let idx = one_more.histogram_data.iter().position(|&c| c > 0).unwrap();
    let mut saturated = run_worker(0, 1, 1, 1_000, true);
    saturated.histogram_data[idx] = u64::MAX;
    assert_eq!(
        merge_histograms(&vec![saturated, one_more]).unwrap_err(),
        ldapbench::hist::HistError::Overflow
    );
}

#[test]
fn merge_order_does_not_matter() {
    let a = run_worker(0, 2, 1, 500, true);
    let b = run_worker(1, 2, 1, 9_000, false);
    let c = run_worker(2, 2, 1, 70_000, true);
    let fwd = merge_histograms(&vec![a.clone(), b.clone(), c.clone()]).unwrap();
    let rev = merge_histograms(&vec![c, a, b]).unwrap();
    assert_eq!(fwd.snapshot(), rev.snapshot());
}

#[test]
fn percentile_rows_cover_the_fixed_quantiles() {
    let mut h = Histogram::new(7, 32).unwrap();
    for _ in 0..100 {
        h.increment(200).unwrap();
    }
    let rows = percentile_rows(&h);
    assert_eq!(rows.len(), 6);
    let ps: Vec<u64> = rows.iter().map(|r| r.p_tenths).collect();
    assert_eq!(ps, vec![500, 750, 900, 950, 990, 999]);
    for row in &rows {
        assert_eq!(row.mid_us, 200);
    }
    let empty = Histogram::new(7, 32).unwrap();
    assert!(percentile_rows(&empty).is_empty());
}

#[test]
fn distribution_rows_show_counts_and_bars() {
    let mut h = Histogram::new(7, 32).unwrap();
    for _ in 0..3 {
        h.increment(10).unwrap();
    }
    h.increment(50).unwrap();
    let rows = distribution_rows(&h);
    assert_eq!(rows.len(), 2);
    assert_eq!((rows[0].low, rows[0].high, rows[0].count), (10, 10, 3));
    assert_eq!(rows[0].percent_tenths, 750);
    assert_eq!(rows[0].bar_width, 40);
    assert_eq!((rows[1].low, rows[1].high, rows[1].count), (50, 50, 1));
    assert_eq!(rows[1].percent_tenths, 250);
    assert_eq!(rows[1].bar_width, 13);
}

#[test]
fn distribution_rows_never_exceed_ten() {
    let mut h = Histogram::new(7, 32).unwrap();
    // 40 distinct non-empty buckets in the exact range
    for v in 0..40u64 {
        h.increment(v).unwrap();
    }
    let rows = distribution_rows(&h);
    assert_eq!(rows.len(), 10);
    // grouping size ceil(40/10) = 4: each row spans four one-wide buckets
    assert_eq!((rows[0].low, rows[0].high, rows[0].count), (0, 3, 4));
    assert_eq!((rows[9].low, rows[9].high, rows[9].count), (36, 39, 4));
    let mut h2 = Histogram::new(7, 32).unwrap();
    for v in 0..201u64 {
        h2.increment(v).unwrap();
    }
    assert!(distribution_rows(&h2).len() <= 10);
}
