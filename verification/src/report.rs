//! Statistics over a completed run: aggregate counters, wall-clock window,
//! throughput and mean latencies, the merged latency histogram, and the
//! rows of the percentile table and the distribution chart.
//!
//! Everything here is a pure function of the collected worker results; the
//! caller renders the rows into text.

use vstd::prelude::*;
use crate::hist::{
    Histogram, HistError, Bucket, spec_sum, spec_merged, spec_counts_compatible, spec_percentile,
};
use crate::lb::{TaskResult, spec_run_config, run_config, lemma_run_config_valid, spec_total_attempted, spec_zero_counts, HISTOGRAM_GROUPING_POWER, HISTOGRAM_MAX_VALUE_POWER};

verus! {

/// Clamp an exact value to the range of the 64-bit counters the report
/// carries.  Every formula below saturates instead of wrapping.
pub open spec fn sat64(x: int) -> int {
    if x > u64::MAX {
        u64::MAX as int
    } else {
        x
    }
}

/// Successes over a set of worker results.
pub open spec fn spec_total_success(s: Seq<TaskResult>) -> int
    decreases s.len(),
{
    if s.len() == 0 {
        0
    } else {
        s[0].success + spec_total_success(s.skip(1))
    }
}

/// Earliest timed-loop start over a non-empty set of results.
pub open spec fn spec_min_start(s: Seq<TaskResult>) -> int
    decreases s.len(),
{
    if s.len() <= 1 {
        s[0].start_us as int
    } else {
        let rest = spec_min_start(s.drop_last());
        if (s.last().start_us as int) < rest {
            s.last().start_us as int
        } else {
            rest
        }
    }
}

/// Latest timed-loop end over a non-empty set of results.
pub open spec fn spec_max_end(s: Seq<TaskResult>) -> int
    decreases s.len(),
{
    if s.len() <= 1 {
        s[0].end_us as int
    } else {
        let rest = spec_max_end(s.drop_last());
        if (s.last().end_us as int) > rest {
            s.last().end_us as int
        } else {
            rest
        }
    }
}

/// The aggregate figures of a benchmark report.  All time figures are in
/// microseconds; rates carry the scale their name says.
#[derive(Debug, Clone)]
pub struct ReportStats {
    /// Number of parallel workers the run was configured with.
    pub concurrency: usize,
    /// Requests attempted over all workers.
    pub total_requests: u64,
    /// Requests that succeeded over all workers.
    pub success_requests: u64,
    /// Percentage of attempted requests that succeeded, rounded down;
    /// zero when nothing was attempted.
    pub success_rate_percent: u64,
    /// Earliest start of a timed loop.
    pub first_start_us: u64,
    /// Latest end of a timed loop.
    pub last_end_us: u64,
    /// Wall-clock window covering every timed loop.
    pub elapsed_us: u64,
    /// Attempted requests per second, in thousandths; zero for an empty
    /// window.
    pub requests_per_sec_milli: u64,
    /// Mean time per request over the worker slots.
    pub time_per_request_us: u64,
    /// Mean time per request across all concurrent requests.
    pub time_per_request_all_us: u64,
}

impl ReportStats {
    /// What `compute_report` promises of every field.
    pub open spec fn matches(self, s: Seq<TaskResult>, concurrency: int) -> bool {
        let total = sat64(spec_total_attempted(s));
        let succ = sat64(spec_total_success(s));
        let first = spec_min_start(s);
        let last = spec_max_end(s);
        let elapsed = last - first;
        &&& self.concurrency == concurrency
        &&& self.total_requests == total
        &&& self.success_requests == succ
        &&& self.success_rate_percent == if total > 0 {
            succ * 100 / total
        } else {
            0
        }
        &&& self.first_start_us == first
        &&& self.last_end_us == last
        &&& self.elapsed_us == elapsed
        &&& self.requests_per_sec_milli == if elapsed > 0 {
            sat64(total * 1_000_000_000 / elapsed)
        } else {
            0
        }
        &&& self.time_per_request_us == if total > 0 {
            sat64(concurrency * elapsed / total)
        } else {
            0
        }
        &&& self.time_per_request_all_us == if total > 0 {
            elapsed / total
        } else {
            0
        }
    }
}

proof fn lemma_total_attempted_snoc(s: Seq<TaskResult>, r: TaskResult)
    ensures
        spec_total_attempted(s.push(r)) == spec_total_attempted(s) + r.count,
        spec_total_success(s.push(r)) == spec_total_success(s) + r.success,
    decreases s.len(),
{
    if s.len() == 0 {
        assert(s.push(r).skip(1) =~= Seq::<TaskResult>::empty());
        assert(s.push(r)[0] == r);
        assert(spec_total_attempted(Seq::<TaskResult>::empty()) == 0);
        assert(spec_total_success(Seq::<TaskResult>::empty()) == 0);
        assert(spec_total_attempted(s) == 0);
        assert(spec_total_success(s) == 0);
    } else {
        assert(s.push(r).skip(1) =~= s.skip(1).push(r));
        assert(s.push(r)[0] == s[0]);
        lemma_total_attempted_snoc(s.skip(1), r);
    }
}

proof fn lemma_totals_bounds(s: Seq<TaskResult>)
    ensures
        0 <= spec_total_attempted(s) <= s.len() * (usize::MAX as int),
        0 <= spec_total_success(s) <= spec_total_attempted(s) || !(forall|i: int|
            0 <= i < s.len() ==> (#[trigger] s[i]).valid()),
        (forall|i: int| 0 <= i < s.len() ==> (#[trigger] s[i]).valid()) ==> 0 <= spec_total_success(
            s,
        ) <= spec_total_attempted(s),
    decreases s.len(),
{
    if s.len() > 0 {
        lemma_totals_bounds(s.skip(1));
        assert(s.len() * (usize::MAX as int) == s.skip(1).len() * (usize::MAX as int) + (
        usize::MAX as int)) by (nonlinear_arith)
            requires
                s.len() == s.skip(1).len() + 1,
        ;
        assert forall|i: int| 0 <= i < s.skip(1).len() implies (#[trigger] s.skip(1)[i]).valid()
            || !(forall|j: int| 0 <= j < s.len() ==> (#[trigger] s[j]).valid()) by {
            assert(s.skip(1)[i] == s[i + 1]);
        }
    }
}

/// The aggregate report over the collected results, or `None` when no
/// worker contributed a result — the caller then reports "no results"
/// instead of statistics.
pub fn compute_report(results: &Vec<TaskResult>, concurrency: usize) -> (r: Option<ReportStats>)
    requires
        forall|i: int| 0 <= i < results@.len() ==> (#[trigger] results@[i]).valid(),
    ensures
        (r is Some) <==> results@.len() > 0,
        r is Some ==> r->0.matches(results@, concurrency as int),
        r is Some ==> r->0.success_rate_percent <= 100,
        r is Some && sat64(spec_total_attempted(results@)) == 0 ==> r->0.success_rate_percent
            == 0,
{
    if results.len() == 0 {
        return None;
    }
    let mut total: u128 = 0;
    let mut succ: u128 = 0;
    let mut first: u64 = results[0].start_us;
    let mut last: u64 = results[0].end_us;
    let mut i: usize = 0;
    proof {
        assert(results@.subrange(0, 0) =~= Seq::<TaskResult>::empty());
    }
    while i < results.len()
        invariant
            i <= results@.len(),
            forall|k: int| 0 <= k < results@.len() ==> (#[trigger] results@[k]).valid(),
            total == spec_total_attempted(results@.subrange(0, i as int)),
            succ == spec_total_success(results@.subrange(0, i as int)),
            i > 0 ==> first == spec_min_start(results@.subrange(0, i as int)),
            i > 0 ==> last == spec_max_end(results@.subrange(0, i as int)),
            i == 0 ==> first == results@[0].start_us && last == results@[0].end_us,
            results@.len() > 0,
        decreases results@.len() - i,
    {
        proof {
            lemma_totals_bounds(results@.subrange(0, i as int));
            assert(results@.subrange(0, i as int).len() * (usize::MAX as int) <= (
            usize::MAX as int) * (usize::MAX as int)) by (nonlinear_arith)
                requires
                    results@.subrange(0, i as int).len() <= usize::MAX as int,
            ;
            assert(results@.subrange(0, i as int + 1) =~= results@.subrange(0, i as int).push(
                results@[i as int],
            ));
            lemma_total_attempted_snoc(results@.subrange(0, i as int), results@[i as int]);
            if i > 0 {
                assert(results@.subrange(0, i as int + 1).drop_last() =~= results@.subrange(
                    0,
                    i as int,
                ));
            } else {
                assert(results@.subrange(0, 1).len() == 1);
                assert(results@.subrange(0, 1)[0] == results@[0]);
            }
        }
        proof {
            assert((usize::MAX as int) * (usize::MAX as int) + (usize::MAX as int) < u128::MAX as int)
                by (nonlinear_arith);
            assert(results@.subrange(0, i as int + 1).last() == results@[i as int]);
        }
        let res = &results[i];
        total = total + res.count as u128;
        succ = succ + res.success as u128;
        if res.start_us < first || i == 0 {
            first = res.start_us;
        }
        if res.end_us > last || i == 0 {
            last = res.end_us;
        }
        i = i + 1;
    }
    proof {
        assert(results@.subrange(0, results@.len() as int) =~= results@);
        lemma_totals_bounds(results@);
    }
    let total_requests: u64 = if total > u64::MAX as u128 {
        u64::MAX
    } else {
        total as u64
    };
    let success_requests: u64 = if succ > u64::MAX as u128 {
        u64::MAX
    } else {
        succ as u64
    };
    proof {
        lemma_min_le_max(results@);
    }
    let elapsed_us: u64 = last - first;
    proof {
        assert(spec_total_success(results@) <= spec_total_attempted(results@));
        assert(success_requests <= total_requests);
    }
    let success_rate_percent: u64 = if total_requests > 0 {
        proof {
            assert((success_requests as int) * 100 / (total_requests as int) <= 100) by {
                vstd::arithmetic::div_mod::lemma_multiply_divide_le(
                    success_requests as int,
                    total_requests as int,
                    100,
                );
                assert((success_requests as int) * 100 <= (total_requests as int) * 100)
                    by (nonlinear_arith)
                    requires
                        success_requests as int <= total_requests as int,
                ;
                vstd::arithmetic::div_mod::lemma_div_is_ordered(
                    (success_requests as int) * 100,
                    (total_requests as int) * 100,
                    total_requests as int,
                );
                assert((total_requests as int) * 100 / (total_requests as int) == 100) by {
                    vstd::arithmetic::div_mod::lemma_div_by_multiple(100, total_requests as int);
                    vstd::arithmetic::mul::lemma_mul_is_commutative(100, total_requests as int);
                }
            }
        }
        ((success_requests as u128 * 100) / total_requests as u128) as u64
    } else {
        0
    };
    let requests_per_sec_milli: u64 = if elapsed_us > 0 {
        let v: u128 = total_requests as u128 * 1_000_000_000 / elapsed_us as u128;
        if v > u64::MAX as u128 {
            u64::MAX
        } else {
            v as u64
        }
    } else {
        0
    };
    let time_per_request_us: u64 = if total_requests > 0 {
        proof {
            assert((concurrency as int) * (elapsed_us as int) <= (usize::MAX as int) * (
            u64::MAX as int)) by (nonlinear_arith)
                requires
                    concurrency as int <= usize::MAX as int,
                    elapsed_us as int <= u64::MAX as int,
            ;
            assert((usize::MAX as int) * (u64::MAX as int) < u128::MAX as int)
                by (nonlinear_arith);
        }
        let v: u128 = concurrency as u128 * elapsed_us as u128 / total_requests as u128;
        if v > u64::MAX as u128 {
            u64::MAX
        } else {
            v as u64
        }
    } else {
        0
    };
    let time_per_request_all_us: u64 = if total_requests > 0 {
        elapsed_us / total_requests
    } else {
        0
    };
    Some(
        ReportStats {
            concurrency,
            total_requests,
            success_requests,
            success_rate_percent,
            first_start_us: first,
            last_end_us: last,
            elapsed_us,
            requests_per_sec_milli,
            time_per_request_us,
            time_per_request_all_us,
        },
    )
}

/// Every worker snapshot has the run configuration's bucket count.
pub open spec fn spec_snapshots_well_formed(s: Seq<TaskResult>) -> bool {
    forall|i: int|
        0 <= i < s.len() ==> (#[trigger] s[i]).histogram_data@.len()
            == spec_run_config().total_buckets()
}

/// The counts after merging every snapshot of `s` into `counts`, in
/// order.
pub open spec fn spec_merge_all(counts: Seq<u64>, s: Seq<TaskResult>) -> Seq<u64>
    decreases s.len(),
{
    if s.len() == 0 {
        counts
    } else {
        spec_merge_all(spec_merged(counts, s[0].histogram_data@), s.skip(1))
    }
}

/// Whether some step of that merge would push a bucket counter past its
/// type.
pub open spec fn spec_merge_overflows(counts: Seq<u64>, s: Seq<TaskResult>) -> bool
    decreases s.len(),
{
    if s.len() == 0 {
        false
    } else {
        !spec_counts_compatible(counts, s[0].histogram_data@) || spec_merge_overflows(
            spec_merged(counts, s[0].histogram_data@),
            s.skip(1),
        )
    }
}

proof fn lemma_merge_all_snoc(counts: Seq<u64>, s: Seq<TaskResult>, r: TaskResult)
    ensures
        spec_merge_all(counts, s.push(r)) == spec_merged(
            spec_merge_all(counts, s),
            r.histogram_data@,
        ),
        spec_merge_overflows(counts, s.push(r)) == (spec_merge_overflows(counts, s)
            || !spec_counts_compatible(spec_merge_all(counts, s), r.histogram_data@)),
    decreases s.len(),
{
    if s.len() == 0 {
        assert(s.push(r).skip(1) =~= Seq::<TaskResult>::empty());
        assert(s.push(r)[0] == r);
        assert(spec_merge_all(counts, s) == counts);
        assert(spec_merge_overflows(counts, s) == false);
        assert(spec_merge_all(spec_merged(counts, r.histogram_data@), Seq::<TaskResult>::empty())
            == spec_merged(counts, r.histogram_data@));
        assert(spec_merge_overflows(
            spec_merged(counts, r.histogram_data@),
            Seq::<TaskResult>::empty(),
        ) == false);
    } else {
        assert(s.push(r).skip(1) =~= s.skip(1).push(r));
        assert(s.push(r)[0] == s[0]);
        let next = spec_merged(counts, s[0].histogram_data@);
        lemma_merge_all_snoc(next, s.skip(1), r);
        assert(spec_merge_all(counts, s.push(r)) == spec_merge_all(next, s.skip(1).push(r)));
        assert(spec_merge_all(counts, s) == spec_merge_all(next, s.skip(1)));
        assert(spec_merge_overflows(counts, s.push(r)) == (!spec_counts_compatible(
            counts,
            s[0].histogram_data@,
        ) || spec_merge_overflows(next, s.skip(1).push(r))));
        assert(spec_merge_overflows(counts, s) == (!spec_counts_compatible(
            counts,
            s[0].histogram_data@,
        ) || spec_merge_overflows(next, s.skip(1))));
    }
}

proof fn lemma_merge_overflow_extends(counts: Seq<u64>, s: Seq<TaskResult>, i: int)
    requires
        0 <= i <= s.len(),
        spec_merge_overflows(counts, s.subrange(0, i)),
    ensures
        spec_merge_overflows(counts, s),
    decreases s.len() - i,
{
    if i == s.len() {
        assert(s.subrange(0, i) =~= s);
    } else {
        assert(s.subrange(0, i + 1) =~= s.subrange(0, i).push(s[i]));
        lemma_merge_all_snoc(counts, s.subrange(0, i), s[i]);
        lemma_merge_overflow_extends(counts, s, i + 1);
    }
}

/// The combined histogram over every worker's snapshot.  A snapshot whose
/// shape does not match the run configuration makes the whole merge
/// invalid — the combined report is rejected, not computed from the rest
/// — and a bucket sum past the counter type is rejected as overflow.
pub fn merge_histograms(results: &Vec<TaskResult>) -> (r: Result<Histogram, HistError>)
    ensures
        !spec_snapshots_well_formed(results@) ==> r == Err::<Histogram, HistError>(
            HistError::IncompatibleParameters,
        ),
        spec_snapshots_well_formed(results@) && spec_merge_overflows(
            spec_zero_counts(),
            results@,
        ) ==> r == Err::<Histogram, HistError>(HistError::Overflow),
        r is Ok <==> spec_snapshots_well_formed(results@) && !spec_merge_overflows(
            spec_zero_counts(),
            results@,
        ),
        r is Ok ==> {
            let h = r->Ok_0;
            &&& h.wf()
            &&& h.cfg() == spec_run_config()
            &&& h.counts() == spec_merge_all(spec_zero_counts(), results@)
        },
{
    let config = run_config();
    proof {
        lemma_run_config_valid();
    }
    let total = crate::hist::config_total_buckets(&config);
    let mut i: usize = 0;
    while i < results.len()
        invariant
            i <= results@.len(),
            total == spec_run_config().total_buckets(),
            forall|k: int|
                0 <= k < i ==> (#[trigger] results@[k]).histogram_data@.len()
                    == spec_run_config().total_buckets(),
        decreases results@.len() - i,
    {
        if results[i].histogram_data.len() != total {
            return Err(HistError::IncompatibleParameters);
        }
        i = i + 1;
    }
    let mut merged = Histogram::with_config(&config);
    proof {
        assert(merged.counts() =~= spec_zero_counts());
        assert(results@.subrange(0, 0) =~= Seq::<TaskResult>::empty());
    }
    let mut i: usize = 0;
    while i < results.len()
        invariant
            i <= results@.len(),
            merged.wf(),
            merged.cfg() == spec_run_config(),
            spec_snapshots_well_formed(results@),
            merged.counts() == spec_merge_all(spec_zero_counts(), results@.subrange(0, i as int)),
            !spec_merge_overflows(spec_zero_counts(), results@.subrange(0, i as int)),
        decreases results@.len() - i,
    {
        proof {
            lemma_run_config_valid();
            assert(results@.subrange(0, i as int + 1) =~= results@.subrange(0, i as int).push(
                results@[i as int],
            ));
            lemma_merge_all_snoc(
                spec_zero_counts(),
                results@.subrange(0, i as int),
                results@[i as int],
            );
        }
        let data = copy_counts(&results[i].histogram_data);
        let worker_hist = match Histogram::from_buckets(
            HISTOGRAM_GROUPING_POWER,
            HISTOGRAM_MAX_VALUE_POWER,
            data,
        ) {
            Ok(h) => h,
            Err(_) => {
                proof {
                    assert(false);
                }
                return Err(HistError::IncompatibleParameters);
            },
        };
        match merged.checked_add(&worker_hist) {
            Ok(new_merged) => {
                merged = new_merged;
            },
            Err(_) => {
                proof {
                    lemma_merge_overflow_extends(spec_zero_counts(), results@, i as int + 1);
                }
                return Err(HistError::Overflow);
            },
        }
        i = i + 1;
    }
    proof {
        assert(results@.subrange(0, results@.len() as int) =~= results@);
    }
    Ok(merged)
}

/// Per-bucket total of one bucket position over all worker snapshots.
pub open spec fn spec_bucket_total(s: Seq<TaskResult>, i: int) -> int
    decreases s.len(),
{
    if s.len() == 0 {
        0
    } else {
        s[0].histogram_data@[i] + spec_bucket_total(s.skip(1), i)
    }
}

proof fn lemma_merge_all_totals_rec(c: Seq<u64>, s: Seq<TaskResult>, i: int)
    requires
        spec_snapshots_well_formed(s),
        c.len() == spec_run_config().total_buckets(),
        !spec_merge_overflows(c, s),
        0 <= i < c.len(),
    ensures
        spec_merge_all(c, s).len() == c.len(),
        spec_merge_all(c, s)[i] == c[i] + spec_bucket_total(s, i),
    decreases s.len(),
{
    if s.len() > 0 {
        let data = s[0].histogram_data@;
        let next = spec_merged(c, data);
        assert(next.len() == c.len());
        assert(next[i] == c[i] + data[i]);
        assert(spec_snapshots_well_formed(s.skip(1))) by {
            assert forall|k: int|
                0 <= k < s.skip(1).len() implies (#[trigger] s.skip(1)[k]).histogram_data@.len()
                == spec_run_config().total_buckets() by {
                assert(s.skip(1)[k] == s[k + 1]);
            }
        }
        lemma_merge_all_totals_rec(next, s.skip(1), i);
    }
}

/// Law: with every snapshot well formed and no bucket sum overflowing,
/// the merged counts are exactly the per-bucket totals over all workers
/// — a characterization with no merge order in it.  In particular, two
/// result sets with the same per-bucket totals (any permutation of one
/// another) merge to identical counts.
pub proof fn lemma_merge_all_order_free(a: Seq<TaskResult>, b: Seq<TaskResult>)
    requires
        spec_snapshots_well_formed(a),
        spec_snapshots_well_formed(b),
        !spec_merge_overflows(spec_zero_counts(), a),
        !spec_merge_overflows(spec_zero_counts(), b),
        forall|i: int|
            0 <= i < spec_run_config().total_buckets() ==> spec_bucket_total(a, i)
                == #[trigger] spec_bucket_total(b, i),
    ensures
        spec_merge_all(spec_zero_counts(), a) =~= spec_merge_all(spec_zero_counts(), b),
{
    let z = spec_zero_counts();
    lemma_run_config_valid();
    assert forall|i: int| 0 <= i < spec_run_config().total_buckets() implies spec_merge_all(z, a)[i]
        == spec_merge_all(z, b)[i] by {
        lemma_merge_all_totals_rec(z, a, i);
        lemma_merge_all_totals_rec(z, b, i);
    }
    lemma_merge_all_totals_rec(z, a, 0);
    lemma_merge_all_totals_rec(z, b, 0);
    assert(spec_merge_all(z, a).len() == spec_run_config().total_buckets());
    assert(spec_merge_all(z, b).len() == spec_run_config().total_buckets());
}

fn copy_counts(v: &Vec<u64>) -> (r: Vec<u64>)
    ensures
        r@ == v@,
{
    let mut out: Vec<u64> = Vec::new();
    let mut i: usize = 0;
    while i < v.len()
        invariant
            i <= v@.len(),
            out@ == v@.subrange(0, i as int),
        decreases v@.len() - i,
    {
        out.push(v[i]);
        proof {
            assert(v@.subrange(0, i as int + 1) =~= v@.subrange(0, i as int).push(v@[i as int]));
        }
        i = i + 1;
    }
    proof {
        assert(v@.subrange(0, v@.len() as int) =~= v@);
    }
    out
}

proof fn lemma_min_le_max(s: Seq<TaskResult>)
    requires
        s.len() > 0,
        forall|i: int| 0 <= i < s.len() ==> (#[trigger] s[i]).valid(),
    ensures
        spec_min_start(s) <= s[0].start_us,
        spec_max_end(s) >= s[0].end_us,
        spec_min_start(s) <= spec_max_end(s),
        spec_min_start(s) >= 0,
        spec_max_end(s) <= u64::MAX,
    decreases s.len(),
{
    if s.len() > 1 {
        lemma_min_le_max(s.drop_last());
        assert(s.drop_last()[0] == s[0]);
        assert(s.last().valid());
    }
}

/// One row of the percentile table: the percentile, in tenths of a
/// percent, and the midpoint of the bucket range it falls in.
#[derive(Debug, Clone, Copy, PartialEq, Eq, Structural)]
pub struct PercentileRow {
    pub p_tenths: u64,
    pub mid_us: u64,
}

/// The fixed percentiles of the detailed report.
pub open spec fn spec_report_percentiles() -> Seq<int> {
    seq![500int, 750int, 900int, 950int, 990int, 999int]
}

/// Midpoint of the bucket a percentile falls in.
pub open spec fn spec_percentile_mid(c: crate::hist::HistConfig, s: Seq<u64>, p: int) -> int {
    let b = spec_percentile(c, s, p)->Some_0;
    (b.low + b.high) as int / 2
}

/// The percentile table of the detailed report: one row per fixed
/// percentile, empty when the histogram holds no samples.
pub fn percentile_rows(h: &Histogram) -> (r: Vec<PercentileRow>)
    requires
        h.wf(),
    ensures
        spec_sum(h.counts()) == 0 ==> r@.len() == 0,
        spec_sum(h.counts()) > 0 ==> r@.len() == 6,
        spec_sum(h.counts()) > 0 ==> forall|i: int|
            0 <= i < 6 ==> (#[trigger] r@[i]).p_tenths == spec_report_percentiles()[i]
                && r@[i].mid_us == spec_percentile_mid(
                h.cfg(),
                h.counts(),
                spec_report_percentiles()[i],
            ),
{
    let total = h.total_count();
    let mut out: Vec<PercentileRow> = Vec::new();
    if total == 0 {
        return out;
    }
    let ps: [u64; 6] = [500, 750, 900, 950, 990, 999];
    let mut i: usize = 0;
    while i < 6
        invariant
            i <= 6,
            h.wf(),
            spec_sum(h.counts()) > 0,
            ps@ =~= seq![500u64, 750u64, 900u64, 950u64, 990u64, 999u64],
            out@.len() == i,
            forall|j: int|
                0 <= j < i ==> (#[trigger] out@[j]).p_tenths == spec_report_percentiles()[j]
                    && out@[j].mid_us == spec_percentile_mid(
                    h.cfg(),
                    h.counts(),
                    spec_report_percentiles()[j],
                ),
        decreases 6 - i,
    {
        let p = ps[i];
        let row = match h.percentile_tenths(p) {
            Ok(Some(b)) => {
                let mid: u64 = (((b.low as u128) + (b.high as u128)) / 2) as u64;
                PercentileRow { p_tenths: p, mid_us: mid }
            },
            _ => {
                proof {
                    assert(false);
                }
                PercentileRow { p_tenths: p, mid_us: 0 }
            },
        };
        out.push(row);
        i = i + 1;
    }
    out
}

/// One row of the distribution chart: a value range, its sample count,
/// the share of all samples in tenths of a percent, and a bar width
/// proportional to the largest row, out of 40.
#[derive(Debug, Clone, Copy, PartialEq, Eq, Structural)]
pub struct DistRow {
    pub low: u64,
    pub high: u64,
    pub count: u64,
    pub percent_tenths: u64,
    pub bar_width: u64,
}

/// Sample count over a run of chart buckets.
pub open spec fn spec_bucket_count_sum(s: Seq<Bucket>) -> int
    decreases s.len(),
{
    if s.len() == 0 {
        0
    } else {
        s[0].count + spec_bucket_count_sum(s.skip(1))
    }
}

/// A run of adjacent buckets collapsed to one chart bucket: the range
/// spans from the first to the last, the counts add up (saturating).
pub open spec fn spec_combine(s: Seq<Bucket>) -> Bucket {
    Bucket {
        low: s[0].low,
        high: s.last().high,
        count: sat64(spec_bucket_count_sum(s)) as u64,
    }
}

/// The non-empty buckets taken `k` at a time, each group collapsed.
pub open spec fn spec_chunked(s: Seq<Bucket>, k: int) -> Seq<Bucket>
    decreases s.len(),
{
    if k < 1 || s.len() == 0 {
        Seq::empty()
    } else if s.len() <= k {
        seq![spec_combine(s)]
    } else {
        seq![spec_combine(s.take(k))] + spec_chunked(s.skip(k), k)
    }
}

/// Largest count over the chart buckets.
pub open spec fn spec_max_count(s: Seq<Bucket>) -> int
    decreases s.len(),
{
    if s.len() <= 1 {
        s[0].count as int
    } else {
        let rest = spec_max_count(s.drop_last());
        if s.last().count as int > rest {
            s.last().count as int
        } else {
            rest
        }
    }
}

/// The chart buckets: the non-empty buckets themselves when at most ten,
/// otherwise grouped into at most ten runs of `ceil(n / 10)` buckets.
pub open spec fn spec_chart_buckets(c: crate::hist::HistConfig, counts: Seq<u64>) -> Seq<Bucket> {
    let nb = crate::hist::spec_nonempty_buckets(c, counts, counts.len() as int);
    if nb.len() <= 10 {
        nb
    } else {
        spec_chunked(nb, (nb.len() + 9) as int / 10)
    }
}

proof fn lemma_bucket_sum_snoc(s: Seq<Bucket>, b: Bucket)
    ensures
        spec_bucket_count_sum(s.push(b)) == spec_bucket_count_sum(s) + b.count,
    decreases s.len(),
{
    if s.len() == 0 {
        assert(s.push(b).skip(1) =~= Seq::<Bucket>::empty());
        assert(s.push(b)[0] == b);
        assert(spec_bucket_count_sum(Seq::<Bucket>::empty()) == 0);
        assert(spec_bucket_count_sum(s) == 0);
    } else {
        assert(s.push(b).skip(1) =~= s.skip(1).push(b));
        assert(s.push(b)[0] == s[0]);
        lemma_bucket_sum_snoc(s.skip(1), b);
    }
}

proof fn lemma_bucket_sum_nonneg(s: Seq<Bucket>)
    ensures
        spec_bucket_count_sum(s) >= 0,
    decreases s.len(),
{
    if s.len() > 0 {
        lemma_bucket_sum_nonneg(s.skip(1));
    }
}

proof fn lemma_nonempty_positive(c: crate::hist::HistConfig, s: Seq<u64>, n: int)
    requires
        0 <= n <= s.len(),
    ensures
        forall|i: int|
            0 <= i < crate::hist::spec_nonempty_buckets(c, s, n).len() ==> (
            #[trigger] crate::hist::spec_nonempty_buckets(c, s, n)[i]).count > 0,
        crate::hist::spec_nonempty_buckets(c, s, n).len() > 0 ==> spec_sum(s.subrange(0, n)) > 0,
    decreases n,
{
    if n > 0 {
        lemma_nonempty_positive(c, s, n - 1);
        crate::hist::lemma_sum_snoc(s.subrange(0, n - 1), s[n - 1]);
        assert(s.subrange(0, n) =~= s.subrange(0, n - 1).push(s[n - 1]));
        crate::hist::lemma_sum_bounds(s.subrange(0, n - 1));
    }
}

proof fn lemma_max_count_ge(s: Seq<Bucket>, i: int)
    requires
        0 <= i < s.len(),
    ensures
        s[i].count as int <= spec_max_count(s),
    decreases s.len(),
{
    if s.len() > 1 && i < s.len() - 1 {
        lemma_max_count_ge(s.drop_last(), i);
        assert(s.drop_last()[i] == s[i]);
    }
}

proof fn lemma_chunked_len(s: Seq<Bucket>, k: int)
    requires
        k >= 1,
    ensures
        spec_chunked(s, k).len() == (s.len() + k - 1) / k,
    decreases s.len(),
{
    if s.len() == 0 {
        vstd::arithmetic::div_mod::lemma_basic_div(k - 1, k);
        assert((0 + k - 1) / k == 0);
    } else if s.len() <= k {
        vstd::arithmetic::div_mod::lemma_fundamental_div_mod_converse(s.len() + k - 1, k, 1, s.len() - 1);
    } else {
        lemma_chunked_len(s.skip(k), k);
        assert(s.skip(k).len() == s.len() - k);
        vstd::arithmetic::div_mod::lemma_div_plus_one(s.len() - k + k - 1, k);
        assert((s.len() - k + k - 1 + k) / k == (s.len() - k + k - 1) / k + 1);
    }
}

/// The chart never shows more than ten rows, however many distinct
/// non-empty buckets the histogram holds.
pub proof fn lemma_chart_rows_bounded(c: crate::hist::HistConfig, counts: Seq<u64>)
    ensures
        spec_chart_buckets(c, counts).len() <= 10,
{
    let nb = crate::hist::spec_nonempty_buckets(c, counts, counts.len() as int);
    let n = nb.len() as int;
    if n > 10 {
        let k = (n + 9) / 10;
        vstd::arithmetic::div_mod::lemma_fundamental_div_mod(n + 9, 10);
        vstd::arithmetic::div_mod::lemma_mod_division_less_than_divisor(n + 9, 10);
        assert(10 * k >= n);
        lemma_chunked_len(nb, k);
        assert((n + k - 1) / k <= 10) by {
            vstd::arithmetic::div_mod::lemma_div_is_ordered(n + k - 1, 10 * k + k - 1, k);
            vstd::arithmetic::div_mod::lemma_fundamental_div_mod_converse(
                10 * k + k - 1,
                k,
                10,
                k - 1,
            );
        }
    }
}

/// The distribution chart over the histogram's non-empty buckets: at most
/// ten rows; when more non-empty buckets exist, adjacent buckets are
/// grouped `ceil(n / 10)` at a time.  Each row shows its value range, its
/// sample count, that count's share of all samples in tenths of a percent,
/// and a bar width proportional to the row with the most samples, out of
/// forty.
pub fn distribution_rows(h: &Histogram) -> (r: Vec<DistRow>)
    requires
        h.wf(),
    ensures
        r@.len() <= 10,
        ({
            let chart = spec_chart_buckets(h.cfg(), h.counts());
            let total = spec_sum(h.counts());
            let maxc = spec_max_count(chart);
            &&& r@.len() == chart.len()
            &&& forall|i: int|
                0 <= i < chart.len() ==> (#[trigger] r@[i]) == (DistRow {
                    low: chart[i].low,
                    high: chart[i].high,
                    count: chart[i].count,
                    percent_tenths: (if chart[i].count * 1000 / total > 1000 {
                        1000int
                    } else {
                        chart[i].count * 1000 / total
                    }) as u64,
                    bar_width: (chart[i].count * 40 / maxc) as u64,
                })
        }),
{
    let nb = h.nonempty_buckets();
    let ghost nbs = nb@;
    proof {
        lemma_nonempty_positive(h.cfg(), h.counts(), h.counts().len() as int);
        assert(h.counts().subrange(0, h.counts().len() as int) =~= h.counts());
    }
    if nb.len() == 0 {
        return Vec::new();
    }
    let total = h.total_count();
    let n = nb.len();
    proof {
        crate::hist::lemma_nonempty_len(h.cfg(), h.counts(), h.counts().len() as int);
        assert(nbs.len() <= h.counts().len());
        assert(h.counts().len() <= u32::MAX);
        assert(n <= u32::MAX);
    }
    let grouped: Vec<Bucket> = if n <= 10 {
        nb
    } else {
        let k = (n - 1) / 10 + 1;
        proof {
            vstd::arithmetic::div_mod::lemma_div_plus_one(n as int - 1, 10);
            assert(k == (n + 9) / 10);
            vstd::arithmetic::div_mod::lemma_fundamental_div_mod(n as int + 9, 10);
            vstd::arithmetic::div_mod::lemma_mod_division_less_than_divisor(n as int + 9, 10);
            assert(nbs.skip(0) =~= nbs);
            assert(Seq::<Bucket>::empty() + spec_chunked(nbs, k as int) =~= spec_chunked(
                nbs,
                k as int,
            ));
        }
        let mut out: Vec<Bucket> = Vec::new();
        let mut i: usize = 0;
        while i < n
            invariant
                0 <= i <= n,
                k >= 1,
                k <= n,
                n <= u32::MAX,
                n == nbs.len(),
                forall|j: int| 0 <= j < nbs.len() ==> (#[trigger] nbs[j]).count > 0,
                spec_chunked(nbs, k as int) =~= out@ + spec_chunked(
                    nbs.skip(i as int),
                    k as int,
                ),
                forall|j: int| 0 <= j < out@.len() ==> (#[trigger] out@[j]).count > 0,
                nb@ == nbs,
            decreases n - i,
        {
            let end = if k < n - i {
                i + k
            } else {
                n
            };
            let mut cnt: u64 = 0;
            let mut j: usize = i;
            proof {
                assert(nbs.subrange(i as int, i as int) =~= Seq::<Bucket>::empty());
            }
            while j < end
                invariant
                    i <= j <= end <= n,
                    n == nbs.len(),
                    nb@ == nbs,
                    cnt == sat64(spec_bucket_count_sum(nbs.subrange(i as int, j as int))),
                decreases end - j,
            {
                proof {
                    lemma_bucket_sum_snoc(nbs.subrange(i as int, j as int), nbs[j as int]);
                    assert(nbs.subrange(i as int, j as int + 1) =~= nbs.subrange(
                        i as int,
                        j as int,
                    ).push(nbs[j as int]));
                    lemma_bucket_sum_nonneg(nbs.subrange(i as int, j as int));
                }
                let c = nb[j].count;
                cnt = if cnt > u64::MAX - c {
                    u64::MAX
                } else {
                    cnt + c
                };
                j = j + 1;
            }
            let combined = Bucket { low: nb[i].low, high: nb[end - 1].high, count: cnt };
            proof {
                let chunk = nbs.skip(i as int);
                assert(chunk.len() == n - i);
                if chunk.len() <= k as int {
                    assert(end == n);
                    assert(nbs.subrange(i as int, end as int) =~= chunk);
                    assert(combined == spec_combine(chunk));
                    assert(spec_chunked(chunk, k as int) =~= seq![spec_combine(chunk)]);
                    assert(nbs.skip(end as int) =~= Seq::<Bucket>::empty());
                    assert(spec_chunked(nbs.skip(end as int), k as int) =~= Seq::<
                        Bucket,
                    >::empty());
                } else {
                    assert(end == i + k);
                    assert(chunk.take(k as int) =~= nbs.subrange(i as int, end as int));
                    assert(combined == spec_combine(chunk.take(k as int)));
                    assert(chunk.skip(k as int) =~= nbs.skip(end as int));
                }
                lemma_bucket_sum_nonneg(nbs.subrange(i as int, i as int + 1));
                assert(nbs.subrange(i as int, end as int)[0] == nbs[i as int]);
                assert(spec_bucket_count_sum(nbs.subrange(i as int, end as int)) >= nbs[i as int].count) by {
                    lemma_bucket_sum_decompose(nbs.subrange(i as int, end as int));
                }
                assert(combined.count > 0);
            }
            out.push(combined);
            i = end;
        }
        proof {
            assert(nbs.skip(n as int) =~= Seq::<Bucket>::empty());
            assert(spec_chunked(nbs.skip(n as int), k as int) =~= Seq::<Bucket>::empty());
            assert(out@ + Seq::<Bucket>::empty() =~= out@);
            assert(out@ =~= spec_chunked(nbs, k as int));
        }
        out
    };
    proof {
        lemma_chart_rows_bounded(h.cfg(), h.counts());
        assert(grouped@ =~= spec_chart_buckets(h.cfg(), h.counts()));
    }
    // largest row count, for the proportional bars
    let mut maxc: u64 = grouped[0].count;
    let mut i: usize = 1;
    while i < grouped.len()
        invariant
            1 <= i <= grouped@.len(),
            grouped@.len() > 0,
            maxc == spec_max_count(grouped@.subrange(0, i as int)),
        decreases grouped@.len() - i,
    {
        proof {
            assert(grouped@.subrange(0, i as int + 1).drop_last() =~= grouped@.subrange(
                0,
                i as int,
            ));
            assert(grouped@.subrange(0, i as int + 1).last() == grouped@[i as int]);
        }
        if grouped[i].count > maxc {
            maxc = grouped[i].count;
        }
        i = i + 1;
    }
    proof {
        assert(grouped@.subrange(0, grouped@.len() as int) =~= grouped@);
        assert(grouped@.subrange(0, 1).len() == 1);
        assert(grouped@.subrange(0, 1)[0] == grouped@[0]);
        assert(grouped@[0].count > 0);
        lemma_max_count_ge(grouped@, 0);
        assert(maxc > 0) by {
            if grouped@.len() == 1 {
            }
        }
    }
    let mut rows: Vec<DistRow> = Vec::new();
    let mut i: usize = 0;
    while i < grouped.len()
        invariant
            0 <= i <= grouped@.len(),
            grouped@ =~= spec_chart_buckets(h.cfg(), h.counts()),
            h.wf(),
            total == spec_sum(h.counts()),
            total > 0,
            maxc == spec_max_count(grouped@),
            maxc > 0,
            rows@.len() == i,
            forall|j: int|
                0 <= j < i ==> (#[trigger] rows@[j]) == (DistRow {
                    low: grouped@[j].low,
                    high: grouped@[j].high,
                    count: grouped@[j].count,
                    percent_tenths: (if grouped@[j].count * 1000 / spec_sum(h.counts()) > 1000 {
                        1000int
                    } else {
                        grouped@[j].count * 1000 / spec_sum(h.counts())
                    }) as u64,
                    bar_width: (grouped@[j].count * 40 / spec_max_count(grouped@)) as u64,
                }),
        decreases grouped@.len() - i,
    {
        let b = grouped[i];
        proof {
            lemma_max_count_ge(grouped@, i as int);
            assert(b.count * 40 <= maxc * 40) by (nonlinear_arith)
                requires
                    b.count as int <= maxc as int,
            ;
            vstd::arithmetic::div_mod::lemma_div_is_ordered(
                b.count as int * 40,
                maxc as int * 40,
                maxc as int,
            );
            assert(maxc as int * 40 / (maxc as int) == 40) by {
                vstd::arithmetic::div_mod::lemma_div_by_multiple(40, maxc as int);
                vstd::arithmetic::mul::lemma_mul_is_commutative(40, maxc as int);
            }
        }
        let pct128: u128 = b.count as u128 * 1000 / total;
        let percent_tenths: u64 = if pct128 > 1000 {
            1000
        } else {
            pct128 as u64
        };
        let bar_width: u64 = (b.count as u128 * 40 / maxc as u128) as u64;
        rows.push(
            DistRow { low: b.low, high: b.high, count: b.count, percent_tenths, bar_width },
        );
        i = i + 1;
    }
    rows
}

proof fn lemma_bucket_sum_decompose(s: Seq<Bucket>)
    requires
        s.len() > 0,
    ensures
        spec_bucket_count_sum(s) >= s[0].count,
{
    lemma_bucket_sum_nonneg(s.skip(1));
}

/// Law: the single-worker full-success scenario.  One worker attempts
/// five requests, each succeeding after exactly `d` microseconds, so its
/// timed loop spans `5 * d`.  Any report of that result set shows five
/// attempts, five successes, a 100 percent success rate, a mean time per
/// request of exactly `d`, and a throughput of exactly `10^9 / d`
/// thousandths of a request per second — the inverse of the fixed delay.
pub proof fn lemma_single_worker_scenario(stats: ReportStats, res: TaskResult, d: int)
    requires
        1 <= d,
        5 * d <= u64::MAX,
        res.count == 5,
        res.success == 5,
        res.start_us == 0,
        res.end_us == 5 * d,
        stats.matches(seq![res], 1),
    ensures
        stats.total_requests == 5,
        stats.success_requests == 5,
        stats.success_rate_percent == 100,
        stats.elapsed_us == 5 * d,
        stats.requests_per_sec_milli == 1_000_000_000int / d,
        stats.time_per_request_us == d,
        stats.time_per_request_all_us == d,
{
    let s = seq![res];
    assert(s.skip(1) =~= Seq::<TaskResult>::empty());
    assert(s[0] == res);
    assert(spec_total_attempted(Seq::<TaskResult>::empty()) == 0);
    assert(spec_total_success(Seq::<TaskResult>::empty()) == 0);
    assert(spec_total_attempted(s) == 5);
    assert(spec_total_success(s) == 5);
    assert(spec_min_start(s) == 0);
    assert(spec_max_end(s) == 5 * d);
    lemma_scaled_quotient(1_000_000_000int, d, 5);
    assert(1_000_000_000int / d <= 1_000_000_000int) by {
        vstd::arithmetic::div_mod::lemma_div_nonincreasing(1_000_000_000int, d);
    }
    lemma_scaled_quotient(d, d, 5);
    assert(d / d == 1) by {
        vstd::arithmetic::div_mod::lemma_div_by_self(d);
    }
    assert(5 * (d * 1) == 5 * d) by (nonlinear_arith);
    assert(1 * (5 * d) == 5 * d);
}

/// Scaling numerator and denominator by the same positive factor leaves
/// the quotient unchanged.
proof fn lemma_scaled_quotient(x: int, d: int, k: int)
    requires
        x >= 0,
        d >= 1,
        k >= 1,
    ensures
        (k * x) / (k * d) == x / d,
{
    let q = x / d;
    let r = x % d;
    vstd::arithmetic::div_mod::lemma_fundamental_div_mod(x, d);
    vstd::arithmetic::div_mod::lemma_mod_division_less_than_divisor(x, d);
    vstd::arithmetic::div_mod::lemma_div_pos_is_pos(x, d);
    assert(k * x == q * (k * d) + k * r) by (nonlinear_arith)
        requires
            x == d * q + r,
    ;
    assert(0 <= k * r < k * d) by (nonlinear_arith)
        requires
            0 <= r < d,
            k >= 1,
    ;
    assert(k * d != 0) by (nonlinear_arith)
        requires
            k >= 1,
            d >= 1,
    ;
    vstd::arithmetic::div_mod::lemma_fundamental_div_mod_converse(k * x, k * d, q, k * r);
}

} // verus!
