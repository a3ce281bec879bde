//! Common benchmark framework: configuration, per-worker state, the timed
//! request loop, and the per-worker result record.
//!
//! A worker owns one `BaseJob`; the driver performs a fixed number of
//! requests, records each latency into the worker's histogram, and emits one
//! `TaskResult`.  Connections and clocks belong to the caller: the driver
//! here consumes the observed outcome of each request as plain values.

use vstd::prelude::*;
use vstd::arithmetic::power2::pow2;
use crate::hist::{HistConfig, Histogram, spec_sum};

verus! {

/// Grouping power of every latency histogram in a run.
pub const HISTOGRAM_GROUPING_POWER: u8 = 7;

/// Maximum-value power of every latency histogram in a run: values of up to
/// `2^32` microseconds are representable.
pub const HISTOGRAM_MAX_VALUE_POWER: u8 = 32;

/// The histogram layout shared by all workers of a run.
pub open spec fn spec_run_config() -> HistConfig {
    HistConfig {
        grouping_power: HISTOGRAM_GROUPING_POWER,
        max_value_power: HISTOGRAM_MAX_VALUE_POWER,
    }
}

pub proof fn lemma_run_config_valid()
    ensures
        spec_run_config().valid(),
        spec_run_config().total_buckets() == 3328,
        spec_run_config().max_value() == 0xFFFFFFFF,
{
    vstd::arithmetic::power2::lemma2_to64();
    assert(pow2(7) == 128);
    assert(spec_run_config().total_buckets() == pow2(7) * 26);
    assert(pow2(7) * 26 == 3328) by (nonlinear_arith)
        requires
            pow2(7) == 128,
    ;
}

/// The histogram layout shared by all workers of a run.
pub fn run_config() -> (c: HistConfig)
    ensures
        c == spec_run_config(),
        c.valid(),
{
    proof {
        lemma_run_config_valid();
    }
    HistConfig {
        grouping_power: HISTOGRAM_GROUPING_POWER,
        max_value_power: HISTOGRAM_MAX_VALUE_POWER,
    }
}

/// Options shared by every benchmark scenario.
#[derive(Debug, Clone)]
pub struct CommonArgs {
    /// Number of parallel tasks.
    pub concurrency: usize,
    /// Number of requests over the whole run.
    pub number: usize,
    /// Bind DN.
    pub bind_dn: String,
    /// Bind password.
    pub bind_pw: String,
    /// Server URL.
    pub url: String,
}

impl CommonArgs {
    /// A field-for-field copy.
    pub fn duplicate(&self) -> (r: CommonArgs)
        ensures
            r.concurrency == self.concurrency,
            r.number == self.number,
            r.bind_dn@ == self.bind_dn@,
            r.bind_pw@ == self.bind_pw@,
            r.url@ == self.url@,
    {
        CommonArgs {
            concurrency: self.concurrency,
            number: self.number,
            bind_dn: self.bind_dn.clone(),
            bind_pw: self.bind_pw.clone(),
            url: self.url.clone(),
        }
    }
}

/// Arguments that embed the shared options.
pub trait HasCommonArgs {
    spec fn spec_common(&self) -> CommonArgs;

    fn common(&self) -> (c: &CommonArgs)
        ensures
            *c == self.spec_common(),
    ;
}

/// What one worker reports after finishing its share of the run.
#[derive(Debug, Clone)]
pub struct TaskResult {
    /// Worker index.
    pub tid: usize,
    /// Requests attempted.
    pub count: usize,
    /// Requests that succeeded.
    pub success: usize,
    /// Start of the worker's timed loop, in microseconds of a common clock.
    pub start_us: u64,
    /// End of the worker's timed loop, on the same clock.
    pub end_us: u64,
    /// Snapshot of the worker's latency histogram.
    pub histogram_data: Vec<u64>,
}

impl TaskResult {
    /// Every result a worker emits satisfies this.
    pub open spec fn valid(self) -> bool {
        &&& self.success <= self.count
        &&& self.start_us <= self.end_us
    }

    /// The wall-clock span of the worker's timed loop, in microseconds.
    pub fn elapsed_us(&self) -> (r: u64)
        requires
            self.valid(),
        ensures
            r == self.end_us - self.start_us,
    {
        self.end_us - self.start_us
    }
}

/// State owned by one worker: its counters and its private histogram.
pub struct BaseJob {
    /// Worker index.
    pub tid: usize,
    /// First numeric entry id this worker addresses.
    pub start_index: usize,
    /// Requests attempted so far.
    pub count: usize,
    /// Requests succeeded so far.
    pub success: usize,
    /// Latencies of every attempted request, microseconds.
    pub histogram: Histogram,
}

impl BaseJob {
    pub open spec fn wf(self) -> bool {
        &&& self.success <= self.count
        &&& self.histogram.wf()
        &&& self.histogram.cfg() == spec_run_config()
    }

    /// Fresh state for worker `tid`: zero counters, empty histogram.
    pub fn new(tid: usize) -> (r: BaseJob)
        ensures
            r.wf(),
            r.tid == tid,
            r.start_index == 0,
            r.count == 0,
            r.success == 0,
            spec_sum(r.histogram.counts()) == 0,
            forall|i: int| 0 <= i < r.histogram.counts().len() ==> r.histogram.counts()[i] == 0u64,
    {
        let config = run_config();
        let histogram = Histogram::with_config(&config);
        proof {
            crate::hist::lemma_sum_zero(histogram.counts());
        }
        BaseJob { tid, start_index: 0, count: 0, success: 0, histogram }
    }

    /// Record one request latency; a value at or beyond the representable
    /// range is dropped without an error.
    pub fn record_latency(&mut self, duration_us: u64)
        requires
            old(self).wf(),
        ensures
            final(self).wf(),
            final(self).tid == old(self).tid,
            final(self).start_index == old(self).start_index,
            final(self).count == old(self).count,
            final(self).success == old(self).success,
            final(self).histogram.counts() == crate::hist::spec_recorded(
                spec_run_config(),
                old(self).histogram.counts(),
                duration_us as nat,
            ),
    {
        let _ = self.histogram.increment(duration_us);
        proof {
            lemma_run_config_valid();
        }
    }

    /// Account one finished request: always counted as attempted, counted
    /// as a success only when the scenario reported one, and its latency
    /// recorded.
    pub fn record_request(&mut self, success: bool, duration_us: u64)
        requires
            old(self).wf(),
            old(self).count < usize::MAX,
        ensures
            final(self).wf(),
            final(self).tid == old(self).tid,
            final(self).start_index == old(self).start_index,
            final(self).count == old(self).count + 1,
            final(self).success == old(self).success + if success {
                1int
            } else {
                0int
            },
            final(self).histogram.counts() == crate::hist::spec_recorded(
                spec_run_config(),
                old(self).histogram.counts(),
                duration_us as nat,
            ),
    {
        self.record_latency(duration_us);
        if success {
            self.success = self.success + 1;
        }
        self.count = self.count + 1;
    }

    /// The worker's immutable summary, with the timed loop's boundary
    /// timestamps.
    pub fn to_result(&self, start_us: u64, end_us: u64) -> (r: TaskResult)
        requires
            self.wf(),
            start_us <= end_us,
        ensures
            r.valid(),
            r.tid == self.tid,
            r.count == self.count,
            r.success == self.success,
            r.start_us == start_us,
            r.end_us == end_us,
            r.histogram_data@ == self.histogram.counts(),
    {
        TaskResult {
            tid: self.tid,
            count: self.count,
            success: self.success,
            start_us,
            end_us,
            histogram_data: self.histogram.snapshot(),
        }
    }
}

/// How many requests each worker performs: the configured total divided by
/// the concurrency, rounded up.
pub open spec fn spec_per_task(number: int, concurrency: int) -> int {
    (number + (concurrency - 1)) / concurrency
}

/// Requests per worker.  With a total that the concurrency does not divide
/// evenly, the workers together attempt more than the configured total.
pub fn per_task_count(number: usize, concurrency: usize) -> (r: usize)
    requires
        concurrency >= 1,
        number + concurrency - 1 <= usize::MAX,
    ensures
        r == spec_per_task(number as int, concurrency as int),
        concurrency * r >= number,
        concurrency * r < number + concurrency,
        number > 0 ==> r >= 1,
{
    proof {
        vstd::arithmetic::div_mod::lemma_fundamental_div_mod(
            number as int + concurrency as int - 1,
            concurrency as int,
        );
        vstd::arithmetic::div_mod::lemma_mod_division_less_than_divisor(
            number as int + concurrency as int - 1,
            concurrency as int,
        );
        vstd::arithmetic::div_mod::lemma_div_pos_is_pos(
            number as int + concurrency as int - 1,
            concurrency as int,
        );
        if number > 0 && spec_per_task(number as int, concurrency as int) == 0 {
            assert(false);
        }
    }
    (number + (concurrency - 1)) / concurrency
}

/// The observed outcome of one request: the scenario's success signal and
/// the measured wall-clock latency.
#[derive(Debug, Clone, Copy)]
pub struct RequestOutcome {
    pub success: bool,
    pub latency_us: u64,
}

/// Successes among a list of outcomes.
pub open spec fn spec_success_total(s: Seq<RequestOutcome>) -> int
    decreases s.len(),
{
    if s.len() == 0 {
        0
    } else {
        spec_success_total(s.skip(1)) + if s[0].success {
            1int
        } else {
            0int
        }
    }
}

/// Histogram counts after recording every latency of `s` in order.
pub open spec fn spec_record_all(counts: Seq<u64>, s: Seq<RequestOutcome>) -> Seq<u64>
    decreases s.len(),
{
    if s.len() == 0 {
        counts
    } else {
        spec_record_all(
            crate::hist::spec_recorded(spec_run_config(), counts, s[0].latency_us as nat),
            s.skip(1),
        )
    }
}

/// The timed loop of one worker, on outcomes already observed: attempts
/// every outcome in order, counts successes, records every latency.  This
/// is the loop each live worker runs request by request through
/// `record_request`.
pub fn drive(job: &mut BaseJob, outcomes: &Vec<RequestOutcome>)
    requires
        old(job).wf(),
        old(job).count + outcomes@.len() <= usize::MAX,
    ensures
        final(job).wf(),
        final(job).tid == old(job).tid,
        final(job).start_index == old(job).start_index,
        final(job).count == old(job).count + outcomes@.len(),
        final(job).success == old(job).success + spec_success_total(outcomes@),
        final(job).histogram.counts() == spec_record_all(old(job).histogram.counts(), outcomes@),
{
    let mut i: usize = 0;
    proof {
        lemma_success_total_prefix(outcomes@, 0);
        lemma_record_all_prefix(old(job).histogram.counts(), outcomes@, 0);
    }
    while i < outcomes.len()
        invariant
            i <= outcomes@.len(),
            job.wf(),
            job.tid == old(job).tid,
            job.start_index == old(job).start_index,
            old(job).count + outcomes@.len() <= usize::MAX,
            job.count == old(job).count + i,
            job.success == old(job).success + spec_success_total(outcomes@.subrange(0, i as int)),
            job.histogram.counts() == spec_record_all(
                old(job).histogram.counts(),
                outcomes@.subrange(0, i as int),
            ),
        decreases outcomes@.len() - i,
    {
        let o = outcomes[i];
        job.record_request(o.success, o.latency_us);
        proof {
            lemma_success_total_snoc(outcomes@.subrange(0, i as int), o);
            lemma_record_all_snoc(old(job).histogram.counts(), outcomes@.subrange(0, i as int), o);
            assert(outcomes@.subrange(0, i as int + 1) =~= outcomes@.subrange(0, i as int).push(o));
        }
        i = i + 1;
    }
    proof {
        assert(outcomes@.subrange(0, outcomes@.len() as int) =~= outcomes@);
    }
}

proof fn lemma_success_total_prefix(s: Seq<RequestOutcome>, i: int)
    requires
        0 <= i <= s.len(),
    ensures
        i == 0 ==> spec_success_total(s.subrange(0, 0)) == 0,
{
    assert(s.subrange(0, 0) =~= Seq::<RequestOutcome>::empty());
}

proof fn lemma_record_all_prefix(counts: Seq<u64>, s: Seq<RequestOutcome>, i: int)
    requires
        0 <= i <= s.len(),
    ensures
        i == 0 ==> spec_record_all(counts, s.subrange(0, 0)) == counts,
{
    assert(s.subrange(0, 0) =~= Seq::<RequestOutcome>::empty());
}

proof fn lemma_success_total_snoc(s: Seq<RequestOutcome>, o: RequestOutcome)
    ensures
        spec_success_total(s.push(o)) == spec_success_total(s) + if o.success {
            1int
        } else {
            0int
        },
    decreases s.len(),
{
    if s.len() == 0 {
        assert(s.push(o).skip(1) =~= Seq::<RequestOutcome>::empty());
        assert(s.push(o)[0] == o);
        assert(spec_success_total(Seq::<RequestOutcome>::empty()) == 0);
        assert(spec_success_total(s) == 0);
    } else {
        assert(s.push(o).skip(1) =~= s.skip(1).push(o));
        assert(s.push(o)[0] == s[0]);
        lemma_success_total_snoc(s.skip(1), o);
        assert(spec_success_total(s.push(o)) == spec_success_total(s.skip(1).push(o)) + if s[0].success { 1int } else { 0int });
        assert(spec_success_total(s) == spec_success_total(s.skip(1)) + if s[0].success { 1int } else { 0int });
    }
}

proof fn lemma_record_all_snoc(counts: Seq<u64>, s: Seq<RequestOutcome>, o: RequestOutcome)
    ensures
        spec_record_all(counts, s.push(o)) == crate::hist::spec_recorded(
            spec_run_config(),
            spec_record_all(counts, s),
            o.latency_us as nat,
        ),
    decreases s.len(),
{
    if s.len() == 0 {
        assert(s.push(o).skip(1) =~= Seq::<RequestOutcome>::empty());
        assert(s.push(o)[0] == o);
        assert(spec_record_all(crate::hist::spec_recorded(spec_run_config(), counts, o.latency_us as nat), Seq::<RequestOutcome>::empty()) == crate::hist::spec_recorded(spec_run_config(), counts, o.latency_us as nat));
        assert(spec_record_all(counts, s) == counts);
    } else {
        assert(s.push(o).skip(1) =~= s.skip(1).push(o));
        assert(s.push(o)[0] == s[0]);
        lemma_record_all_snoc(
            crate::hist::spec_recorded(spec_run_config(), counts, s[0].latency_us as nat),
            s.skip(1),
            o,
        );
    }
}

/// All-zero bucket counts for the run's histogram layout.
pub open spec fn spec_zero_counts() -> Seq<u64> {
    Seq::new(spec_run_config().total_buckets(), |i: int| 0u64)
}

/// One worker's timed loop as the driver performs it, on outcomes
/// already observed: one outcome per assigned request — the configured
/// total divided over the workers, rounded up — each counted as
/// attempted, counted as a success when the scenario said so, and its
/// latency recorded; the worker's summary carries the loop's boundary
/// timestamps.
pub fn run_worker(
    tid: usize,
    number: usize,
    concurrency: usize,
    outcomes: &Vec<RequestOutcome>,
    start_us: u64,
    end_us: u64,
) -> (r: TaskResult)
    requires
        concurrency >= 1,
        number + concurrency - 1 <= usize::MAX,
        outcomes@.len() == spec_per_task(number as int, concurrency as int),
        start_us <= end_us,
    ensures
        r.valid(),
        r.tid == tid,
        r.count == spec_per_task(number as int, concurrency as int),
        r.success == spec_success_total(outcomes@),
        r.start_us == start_us,
        r.end_us == end_us,
        r.histogram_data@ == spec_record_all(spec_zero_counts(), outcomes@),
{
    let mut job = BaseJob::new(tid);
    proof {
        assert(job.histogram.counts() =~= spec_zero_counts());
    }
    drive(&mut job, outcomes);
    job.to_result(start_us, end_us)
}

/// Attempted requests over a set of worker results.
pub open spec fn spec_total_attempted(s: Seq<TaskResult>) -> int
    decreases s.len(),
{
    if s.len() == 0 {
        0
    } else {
        s[0].count + spec_total_attempted(s.skip(1))
    }
}

/// Law: when every one of `concurrency` workers completes its share, the
/// attempted requests over all workers total `concurrency` times the
/// per-worker share `ceil(number / concurrency)` — more than the
/// configured total whenever the division is uneven.
pub proof fn lemma_total_attempted(s: Seq<TaskResult>, number: int, concurrency: int)
    requires
        concurrency >= 1,
        s.len() == concurrency,
        forall|i: int| 0 <= i < s.len() ==> s[i].count == spec_per_task(number, concurrency),
    ensures
        spec_total_attempted(s) == concurrency * spec_per_task(number, concurrency),
{
    lemma_total_attempted_uniform(s, spec_per_task(number, concurrency));
}

proof fn lemma_total_attempted_uniform(s: Seq<TaskResult>, k: int)
    requires
        forall|i: int| 0 <= i < s.len() ==> s[i].count == k,
    ensures
        spec_total_attempted(s) == s.len() * k,
    decreases s.len(),
{
    if s.len() == 0 {
    } else {
        lemma_total_attempted_uniform(s.skip(1), k);
        assert(s.len() * k == k + (s.len() - 1) * k) by (nonlinear_arith);
    }
}

} // verus!
