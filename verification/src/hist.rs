//! Logarithmic latency histogram.
//!
//! Values are grouped in ranges of successive powers of two; each such range
//! is subdivided into `2^grouping_power` equal-width buckets, so small values
//! are recorded exactly and large values with bounded relative error.  The
//! layout is determined by a two-parameter configuration; histograms can only
//! be merged when their configurations agree.

use vstd::prelude::*;
use vstd::arithmetic::power2::*;
use vstd::arithmetic::div_mod::*;
use vstd::arithmetic::mul::*;

verus! {

/// Failures of histogram construction and queries.
#[derive(Debug, Clone, Copy, PartialEq, Eq, Structural)]
pub enum HistError {
    /// The maximum-value power is above 64.
    MaxPowerTooHigh,
    /// The maximum-value power does not exceed the grouping power.
    MaxPowerTooLow,
    /// The bucket geometry does not fit, or a bucket counter would wrap.
    Overflow,
    /// A sample above the largest representable value.
    OutOfRange,
    /// A bucket-count snapshot does not match the configuration.
    IncompatibleParameters,
    /// A percentile request outside the accepted range.
    InvalidPercentile,
}

/// The two-parameter bucket layout shared by every histogram of one run.
#[derive(Debug, Clone, Copy, PartialEq, Eq, Structural)]
pub struct HistConfig {
    pub grouping_power: u8,
    pub max_value_power: u8,
}

impl HistConfig {
    /// Power of two below which every value has a bucket of its own.
    pub open spec fn cutoff_power(self) -> nat {
        self.grouping_power as nat + 1
    }

    pub open spec fn cutoff(self) -> nat {
        pow2(self.cutoff_power())
    }

    /// Largest value the histogram can record.
    pub open spec fn max_value(self) -> nat {
        (pow2(self.max_value_power as nat) - 1) as nat
    }

    pub open spec fn total_buckets(self) -> nat {
        pow2(self.grouping_power as nat)
            * (self.max_value_power - self.grouping_power + 1) as nat
    }

    pub open spec fn valid(self) -> bool {
        &&& self.max_value_power <= 64
        &&& self.grouping_power < self.max_value_power
        &&& self.grouping_power < 32
        &&& self.total_buckets() <= u32::MAX
    }

    /// Validates the two layout parameters.
    pub fn new(grouping_power: u8, max_value_power: u8) -> (r: Result<HistConfig, HistError>)
        ensures
            max_value_power > 64 ==> r == Err::<HistConfig, HistError>(HistError::MaxPowerTooHigh),
            max_value_power <= 64 && grouping_power >= max_value_power
                ==> r == Err::<HistConfig, HistError>(HistError::MaxPowerTooLow),
            max_value_power <= 64 && grouping_power < max_value_power && !(HistConfig {
                grouping_power,
                max_value_power,
            }).valid() ==> r == Err::<HistConfig, HistError>(HistError::Overflow),
            (HistConfig { grouping_power, max_value_power }).valid() ==> r == Ok::<
                HistConfig,
                HistError,
            >(HistConfig { grouping_power, max_value_power }),
    {
        if max_value_power > 64 {
            return Err(HistError::MaxPowerTooHigh);
        }
        if grouping_power >= max_value_power {
            return Err(HistError::MaxPowerTooLow);
        }
        if grouping_power >= 32 {
            return Err(HistError::Overflow);
        }
        let gp = pow2_u64(grouping_power as u64);
        proof {
            lemma_pow2_strictly_increases(grouping_power as nat, 32);
            lemma2_to64();
        }
        let factor: u64 = (max_value_power - grouping_power + 1) as u64;
        assert(gp * factor < 0x100000000u64 * 65) by (nonlinear_arith)
            requires
                gp < 0x100000000u64,
                factor <= 65,
        ;
        let total = gp * factor;
        if total > u32::MAX as u64 {
            return Err(HistError::Overflow);
        }
        Ok(HistConfig { grouping_power, max_value_power })
    }
}

/// Computes `2^e` for exponents below 64.
pub fn pow2_u64(e: u64) -> (r: u64)
    requires
        e < 64,
    ensures
        r == pow2(e as nat),
{
    let mut r: u64 = 1;
    let mut i: u64 = 0;
    proof {
        lemma2_to64();
        lemma2_to64_rest();
    }
    while i < e
        invariant
            i <= e < 64,
            r == pow2(i as nat),
        decreases e - i,
    {
        proof {
            lemma_pow2_adds(i as nat, 1);
            lemma2_to64();
            if i as nat + 1 < 64 {
                lemma_pow2_strictly_increases(i as nat + 1, 64);
            }
            lemma2_to64_rest();
        }
        r = r * 2;
        i = i + 1;
    }
    r
}

/// Floor of the base-two logarithm.
pub open spec fn spec_floor_log2(n: nat) -> nat
    decreases n,
{
    if n <= 1 {
        0
    } else {
        1 + spec_floor_log2(n / 2)
    }
}

pub proof fn lemma_floor_log2_bounds(n: nat)
    requires
        n >= 1,
    ensures
        pow2(spec_floor_log2(n)) <= n < pow2(spec_floor_log2(n) + 1),
    decreases n,
{
    if n <= 1 {
        lemma2_to64();
    } else {
        lemma_floor_log2_bounds(n / 2);
        lemma_pow2_adds(spec_floor_log2(n / 2), 1);
        lemma_pow2_adds(spec_floor_log2(n / 2) + 1, 1);
        lemma2_to64();
    }
}

pub proof fn lemma_pow2_le(a: nat, b: nat)
    requires
        a <= b,
    ensures
        pow2(a) <= pow2(b),
{
    if a < b {
        lemma_pow2_strictly_increases(a, b);
    }
}

pub proof fn lemma_floor_log2_unique(n: nat, p: nat)
    requires
        pow2(p) <= n < pow2(p + 1),
    ensures
        spec_floor_log2(n) == p,
{
    lemma_pow2_pos(p);
    lemma_floor_log2_bounds(n);
    let l = spec_floor_log2(n);
    if l < p {
        lemma_pow2_le(l + 1, p);
        assert(pow2(l + 1) <= pow2(p));
    } else if l > p {
        lemma_pow2_le(p + 1, l);
        assert(pow2(p + 1) <= pow2(l));
    }
}

/// The index of the bucket that records `v`.
pub open spec fn spec_bucket_index(c: HistConfig, v: nat) -> nat {
    if v < c.cutoff() {
        v
    } else {
        let g = c.grouping_power as nat;
        let p = spec_floor_log2(v);
        (c.cutoff() + (p - g - 1) * pow2(g) + (v - pow2(p)) as int / pow2((p - g) as nat) as int) as nat
    }
}

pub proof fn lemma_bucket_index_in_range(c: HistConfig, v: nat)
    requires
        c.valid(),
        v <= c.max_value(),
    ensures
        spec_bucket_index(c, v) < c.total_buckets(),
{
    let g = c.grouping_power as nat;
    let m = c.max_value_power as nat;
    lemma_pow2_pos(g);
    lemma_pow2_adds(g, 1);
    lemma2_to64();
    assert(c.cutoff() == pow2(g) * 2);
    if v < c.cutoff() {
        assert(pow2(g) * 2 <= pow2(g) * (m - g + 1)) by (nonlinear_arith)
            requires
                pow2(g) >= 1,
                m - g + 1 >= 2,
        ;
    } else {
        let p = spec_floor_log2(v);
        lemma_floor_log2_bounds(v);
        lemma_pow2_pos(m);
        assert(v < pow2(m)) by {
            lemma_pow2_pos(m);
        }
        // p < m because pow2(p) <= v < pow2(m)
        if p > m {
            lemma_pow2_strictly_increases(m, p);
            assert(false);
        }
        if p == m {
            assert(false);
        }
        // p >= g + 1 because v >= cutoff = pow2(g + 1)
        if p < g + 1 {
            if p + 1 < g + 1 {
                lemma_pow2_strictly_increases(p + 1, g + 1);
            }
            assert(pow2(p + 1) <= c.cutoff());
            assert(false);
        }
        let off = (v - pow2(p)) as int / pow2((p - g) as nat) as int;
        lemma_pow2_pos((p - g) as nat);
        lemma_pow2_adds(p, 1);
        assert(pow2(p + 1) == pow2(p) * 2);
        assert((v - pow2(p)) < pow2(p));
        lemma_pow2_adds((p - g) as nat, g);
        assert(pow2((p - g) as nat) * pow2(g) == pow2(p));
        assert(off < pow2(g)) by {
            lemma_multiply_divide_lt((v - pow2(p)) as int, pow2((p - g) as nat) as int, pow2(g) as int);
        }
        assert(off >= 0) by {
            lemma_div_pos_is_pos((v - pow2(p)) as int, pow2((p - g) as nat) as int);
        }
        assert((p - g - 1) * pow2(g) <= (m - g - 2) * pow2(g)) by {
            lemma_mul_inequality((p - g - 1) as int, (m - g - 2) as int, pow2(g) as int);
        }
        assert(spec_bucket_index(c, v) <= pow2(g) * 2 + (m - g - 2) * pow2(g) + (pow2(g) - 1));
        assert(pow2(g) * 2 + (m - g - 2) * pow2(g) + (pow2(g) - 1) < pow2(g) * (m - g + 1))
            by (nonlinear_arith)
            requires
                pow2(g) >= 1,
                m >= g + 2 || m == g + 1,
                m > g,
        ;
    }
}

/// The smallest value recorded by the bucket at `i`.
pub open spec fn spec_lower_bound(c: HistConfig, i: nat) -> nat {
    let g = c.grouping_power as nat;
    let band = i / pow2(g);
    let off = i % pow2(g);
    if band < 1 {
        off
    } else {
        pow2((g + band - 1) as nat) + pow2((band - 1) as nat) * off
    }
}

/// The largest value recorded by the bucket at `i`.
pub open spec fn spec_upper_bound(c: HistConfig, i: nat) -> nat {
    (spec_lower_bound(c, i + 1) - 1) as nat
}

/// The midpoint of a bucket's value range, used when reporting percentiles.
pub open spec fn spec_bucket_mid(c: HistConfig, i: nat) -> nat {
    (spec_lower_bound(c, i) + spec_upper_bound(c, i)) / 2
}

/// A contiguous range of values tracked by a single count.
#[derive(Debug, Clone, Copy, PartialEq, Eq, Structural)]
pub struct Bucket {
    /// Smallest value the bucket covers.
    pub low: u64,
    /// Largest value the bucket covers.
    pub high: u64,
    /// Number of samples recorded in the bucket.
    pub count: u64,
}

/// A logarithmic bucketed counter over non-negative integer samples.
#[derive(Debug)]
pub struct Histogram {
    config: HistConfig,
    buckets: Vec<u64>,
}

impl Histogram {
    pub closed spec fn cfg(self) -> HistConfig {
        self.config
    }

    /// The bucket counts, indexed by bucket position.
    pub closed spec fn counts(self) -> Seq<u64> {
        self.buckets@
    }

    pub open spec fn wf(self) -> bool {
        &&& self.cfg().valid()
        &&& self.counts().len() == self.cfg().total_buckets()
    }

    pub fn config(&self) -> (c: HistConfig)
        ensures
            c == self.cfg(),
    {
        self.config
    }

    /// An all-zero histogram for a validated configuration.
    pub fn with_config(config: &HistConfig) -> (h: Histogram)
        requires
            config.valid(),
        ensures
            h.wf(),
            h.cfg() == *config,
            h.counts().len() == config.total_buckets(),
            forall|i: int| 0 <= i < h.counts().len() ==> h.counts()[i] == 0u64,
    {
        let total = config_total_buckets(config);
        let mut buckets: Vec<u64> = Vec::new();
        while buckets.len() < total
            invariant
                buckets.len() <= total,
                forall|i: int| 0 <= i < buckets.len() ==> buckets[i] == 0u64,
            decreases total - buckets.len(),
        {
            buckets.push(0u64);
        }
        Histogram { config: *config, buckets }
    }

    /// Construct an all-zero histogram after validating the parameters.
    pub fn new(grouping_power: u8, max_value_power: u8) -> (r: Result<Histogram, HistError>)
        ensures
            (HistConfig { grouping_power, max_value_power }).valid() <==> r is Ok,
            r is Ok ==> {
                let h = r->Ok_0;
                &&& h.wf()
                &&& h.cfg() == HistConfig { grouping_power, max_value_power }
                &&& forall|i: int| 0 <= i < h.counts().len() ==> h.counts()[i] == 0u64
            },
    {
        let config = HistConfig::new(grouping_power, max_value_power)?;
        Ok(Histogram::with_config(&config))
    }

    /// Reconstruct a histogram from an exported bucket-count snapshot.
    /// Fails unless the snapshot length matches the configuration.
    pub fn from_buckets(grouping_power: u8, max_value_power: u8, buckets: Vec<u64>) -> (r: Result<
        Histogram,
        HistError,
    >)
        ensures
            r is Ok <==> (HistConfig { grouping_power, max_value_power }).valid()
                && buckets@.len() == (HistConfig { grouping_power, max_value_power }).total_buckets(),
            r is Ok ==> {
                let h = r->Ok_0;
                &&& h.wf()
                &&& h.cfg() == HistConfig { grouping_power, max_value_power }
                &&& h.counts() == buckets@
            },
            !(HistConfig { grouping_power, max_value_power }).valid() ==> r is Err,
    {
        let config = HistConfig::new(grouping_power, max_value_power)?;
        if config_total_buckets(&config) != buckets.len() {
            return Err(HistError::IncompatibleParameters);
        }
        Ok(Histogram { config, buckets })
    }

    /// Export the bucket counts; `from_buckets` reconstructs an equivalent
    /// histogram from this snapshot.
    pub fn snapshot(&self) -> (r: Vec<u64>)
        ensures
            r@ == self.counts(),
    {
        let mut out: Vec<u64> = Vec::new();
        let mut i: usize = 0;
        while i < self.buckets.len()
            invariant
                i <= self.buckets.len(),
                out@ == self.buckets@.subrange(0, i as int),
            decreases self.buckets.len() - i,
        {
            out.push(self.buckets[i]);
            i = i + 1;
        }
        assert(out@ == self.buckets@.subrange(0, self.buckets@.len() as int));
        assert(self.buckets@.subrange(0, self.buckets@.len() as int) == self.buckets@);
        out
    }
}

impl Histogram {
    /// Record one sample.  Values above the representable maximum are
    /// reported as out of range and change nothing; a bucket counter at its
    /// limit likewise leaves the sample unrecorded.
    pub fn increment(&mut self, value: u64) -> (r: Result<(), HistError>)
        requires
            old(self).wf(),
        ensures
            final(self).wf(),
            final(self).cfg() == old(self).cfg(),
            value as nat > old(self).cfg().max_value() ==> r == Err::<(), HistError>(
                HistError::OutOfRange,
            ) && final(self).counts() == old(self).counts(),
            value as nat <= old(self).cfg().max_value() ==> {
                let idx = spec_bucket_index(old(self).cfg(), value as nat) as int;
                if old(self).counts()[idx] < u64::MAX {
                    r == Ok::<(), HistError>(()) && final(self).counts() == old(
                        self,
                    ).counts().update(idx, (old(self).counts()[idx] + 1) as u64)
                } else {
                    r == Err::<(), HistError>(HistError::Overflow) && final(self).counts() == old(
                        self,
                    ).counts()
                }
            },
    {
        proof {
            lemma_pow2_pos(self.config.max_value_power as nat);
        }
        let maxv = config_max_value(&self.config);
        if value > maxv {
            return Err(HistError::OutOfRange);
        }
        let idx = bucket_index(&self.config, value);
        proof {
            lemma_bucket_index_in_range(self.config, value as nat);
        }
        let c = self.buckets[idx];
        if c == u64::MAX {
            return Err(HistError::Overflow);
        }
        self.buckets.set(idx, c + 1);
        Ok(())
    }
}

/// The largest value recordable under `config`.
pub fn config_max_value(config: &HistConfig) -> (r: u64)
    requires
        config.valid(),
    ensures
        r == config.max_value(),
{
    proof {
        lemma2_to64_rest();
    }
    if config.max_value_power == 64 {
        proof {
            assert(pow2(64) == 0x10000000000000000);
        }
        u64::MAX
    } else {
        let p = pow2_u64(config.max_value_power as u64);
        proof {
            lemma_pow2_pos(config.max_value_power as nat);
        }
        p - 1
    }
}

/// Locate the bucket covering `value`.
pub fn bucket_index(config: &HistConfig, value: u64) -> (idx: usize)
    requires
        config.valid(),
        value as nat <= config.max_value(),
    ensures
        idx == spec_bucket_index(*config, value as nat),
        idx < config.total_buckets(),
{
    let g: u64 = config.grouping_power as u64;
    let gp = pow2_u64(g);
    proof {
        lemma_pow2_adds(g as nat, 1);
        lemma2_to64();
        lemma_pow2_strictly_increases(g as nat, 32);
    }
    let cutoff: u64 = gp * 2;
    proof {
        lemma_bucket_index_in_range(*config, value as nat);
    }
    if value < cutoff {
        return value as usize;
    }
    let ghost m = config.max_value_power as nat;
    let mut p: u64 = g + 1;
    let mut low: u64 = cutoff;
    proof {
        lemma_pow2_pos(m);
        if config.max_value_power < 64 {
            lemma_pow2_strictly_increases(m, 64);
        }
        lemma2_to64_rest();
        assert(value < pow2(64));
    }
    while value / 2 >= low
        invariant
            low == pow2(p as nat),
            low <= value,
            g + 1 <= p,
            p < 64,
            value < pow2(64),
        decreases 64 - p,
    {
        proof {
            lemma_pow2_adds(p as nat, 1);
            lemma2_to64();
        }
        low = low * 2;
        p = p + 1;
        proof {
            if p as nat >= 64 {
                lemma_pow2_le(64, p as nat);
                lemma2_to64_rest();
                assert(false);
            }
        }
    }
    proof {
        lemma_pow2_adds(p as nat, 1);
        lemma2_to64();
        assert(value < pow2(p as nat + 1));
        lemma_floor_log2_unique(value as nat, p as nat);
        lemma_pow2_subtracts(g as nat, p as nat);
        lemma_pow2_pos(g as nat);
        lemma_pow2_pos((p - g) as nat);
    }
    let div = low / gp;
    let offset = (value - low) / div;
    proof {
        lemma_bucket_index_exec_fits(*config, value as nat, p as nat);
    }
    let idx: u64 = cutoff + (p - g - 1) * gp + offset;
    idx as usize
}

proof fn lemma_bucket_index_exec_fits(c: HistConfig, v: nat, p: nat)
    requires
        c.valid(),
        v <= c.max_value(),
        v >= c.cutoff(),
        p == spec_floor_log2(v),
    ensures
        pow2(c.grouping_power as nat + 1) + (p - c.grouping_power - 1) * pow2(
            c.grouping_power as nat,
        ) + (v - pow2(p)) as int / pow2((p - c.grouping_power) as nat) as int == spec_bucket_index(
            c,
            v,
        ),
        spec_bucket_index(c, v) < c.total_buckets(),
        c.total_buckets() <= u32::MAX,
{
    lemma_bucket_index_in_range(c, v);
    lemma_pow2_pos(c.grouping_power as nat);
    lemma_pow2_adds(c.grouping_power as nat, 1);
    lemma2_to64();
    if v < c.cutoff() {
        assert(false);
    }
    let g = c.grouping_power as nat;
    lemma_floor_log2_bounds(v);
    if p < g + 1 {
        lemma_pow2_le(p + 1, g + 1);
        assert(false);
    }
    lemma_pow2_pos((p - g) as nat);
    lemma_div_pos_is_pos((v - pow2(p)) as int, pow2((p - g) as nat) as int);
}

/// Sum of a sequence of bucket counts.
pub open spec fn spec_sum(s: Seq<u64>) -> int
    decreases s.len(),
{
    if s.len() == 0 {
        0
    } else {
        s[0] + spec_sum(s.skip(1))
    }
}

pub proof fn lemma_sum_bounds(s: Seq<u64>)
    ensures
        0 <= spec_sum(s) <= s.len() * (u64::MAX as int),
    decreases s.len(),
{
    if s.len() > 0 {
        lemma_sum_bounds(s.skip(1));
    }
}

pub proof fn lemma_sum_snoc(s: Seq<u64>, x: u64)
    ensures
        spec_sum(s.push(x)) == spec_sum(s) + x,
    decreases s.len(),
{
    if s.len() == 0 {
        assert(s.push(x).skip(1) =~= Seq::<u64>::empty());
        assert(s.push(x)[0] == x);
        assert(spec_sum(Seq::<u64>::empty()) == 0);
    } else {
        assert(s.push(x).skip(1) =~= s.skip(1).push(x));
        assert(s.push(x)[0] == s[0]);
        lemma_sum_snoc(s.skip(1), x);
    }
}

pub proof fn lemma_sum_prefix_monotone(s: Seq<u64>, a: int, b: int)
    requires
        0 <= a <= b <= s.len(),
    ensures
        spec_sum(s.subrange(0, a)) <= spec_sum(s.subrange(0, b)),
    decreases b - a,
{
    if a < b {
        lemma_sum_prefix_monotone(s, a, b - 1);
        assert(s.subrange(0, b) =~= s.subrange(0, b - 1).push(s[b - 1]));
        lemma_sum_snoc(s.subrange(0, b - 1), s[b - 1]);
    }
}

pub proof fn lemma_sum_zero(s: Seq<u64>)
    requires
        forall|i: int| 0 <= i < s.len() ==> s[i] == 0u64,
    ensures
        spec_sum(s) == 0,
    decreases s.len(),
{
    if s.len() > 0 {
        lemma_sum_zero(s.skip(1));
    }
}

/// The counts after one sample: values beyond the representable range, and
/// samples whose bucket counter is saturated, leave the counts unchanged.
pub open spec fn spec_recorded(c: HistConfig, counts: Seq<u64>, v: nat) -> Seq<u64> {
    if v > c.max_value() {
        counts
    } else {
        let idx = spec_bucket_index(c, v) as int;
        if counts[idx] < u64::MAX {
            counts.update(idx, (counts[idx] + 1) as u64)
        } else {
            counts
        }
    }
}

/// Elementwise sum of two equally long count sequences.
pub open spec fn spec_merged(a: Seq<u64>, b: Seq<u64>) -> Seq<u64> {
    Seq::new(a.len(), |i: int| (a[i] + b[i]) as u64)
}

/// No elementwise sum wraps the counter type.
pub open spec fn spec_counts_compatible(a: Seq<u64>, b: Seq<u64>) -> bool {
    forall|i: int| 0 <= i < a.len() ==> a[i] + b[i] <= u64::MAX
}

/// Index of the bucket at which the running total first reaches `rank`.
pub open spec fn spec_pct_index(s: Seq<u64>, rank: int) -> int
    decreases s.len(),
{
    if s.len() == 0 {
        0
    } else if s[0] >= rank {
        0
    } else {
        1 + spec_pct_index(s.skip(1), rank - s[0])
    }
}

/// The one-based rank (in samples) addressed by a percentile given in
/// tenths of a percent.
pub open spec fn spec_rank(p_tenths: int, total: int) -> int {
    (p_tenths * total + 999) / 1000
}

/// The bucket reported for a percentile request: the first bucket whose
/// cumulative count reaches the requested rank, or `None` without samples.
pub open spec fn spec_percentile(c: HistConfig, s: Seq<u64>, p_tenths: int) -> Option<Bucket> {
    if spec_sum(s) == 0 {
        None
    } else {
        let idx = spec_pct_index(s, spec_rank(p_tenths, spec_sum(s)));
        Some(
            Bucket {
                low: spec_lower_bound(c, idx as nat) as u64,
                high: spec_upper_bound(c, idx as nat) as u64,
                count: s[idx],
            },
        )
    }
}

pub proof fn lemma_pct_index_props(s: Seq<u64>, rank: int)
    requires
        1 <= rank <= spec_sum(s),
    ensures
        0 <= spec_pct_index(s, rank) < s.len(),
        spec_sum(s.subrange(0, spec_pct_index(s, rank))) < rank,
        spec_sum(s.subrange(0, spec_pct_index(s, rank) + 1)) >= rank,
        s[spec_pct_index(s, rank)] > 0,
    decreases s.len(),
{
    if s.len() == 0 {
    } else if s[0] >= rank {
        assert(s.subrange(0, 0) =~= Seq::<u64>::empty());
        assert(s.subrange(0, 1) =~= Seq::<u64>::empty().push(s[0]));
        lemma_sum_snoc(Seq::<u64>::empty(), s[0]);
    } else {
        let t = s.skip(1);
        lemma_pct_index_props(t, rank - s[0]);
        let k = spec_pct_index(t, rank - s[0]);
        assert(s.subrange(0, 1 + k).skip(1) =~= t.subrange(0, k));
        assert(s.subrange(0, 1 + k)[0] == s[0]);
        assert(s.subrange(0, 1 + k + 1).skip(1) =~= t.subrange(0, k + 1));
        assert(s.subrange(0, 1 + k + 1)[0] == s[0]);
    }
}

pub proof fn lemma_pct_index_unique(s: Seq<u64>, rank: int, j: int)
    requires
        0 <= j < s.len(),
        spec_sum(s.subrange(0, j)) < rank,
        spec_sum(s.subrange(0, j + 1)) >= rank,
    ensures
        spec_pct_index(s, rank) == j,
    decreases s.len(),
{
    assert(s.subrange(0, 1) =~= Seq::<u64>::empty().push(s[0]));
    lemma_sum_snoc(Seq::<u64>::empty(), s[0]);
    if j == 0 {
        assert(s[0] >= rank);
    } else {
        lemma_sum_prefix_monotone(s, 1, j);
        assert(s[0] < rank);
        let t = s.skip(1);
        assert(s.subrange(0, j).skip(1) =~= t.subrange(0, j - 1));
        assert(s.subrange(0, j)[0] == s[0]);
        assert(s.subrange(0, j + 1).skip(1) =~= t.subrange(0, j));
        assert(s.subrange(0, j + 1)[0] == s[0]);
        lemma_pct_index_unique(t, rank - s[0], j - 1);
    }
}

impl Histogram {
    /// Total number of recorded samples.
    pub fn total_count(&self) -> (r: u128)
        requires
            self.wf(),
        ensures
            r == spec_sum(self.counts()),
    {
        let mut i: usize = 0;
        let mut acc: u128 = 0;
        proof {
            assert(self.buckets@.subrange(0, 0) =~= Seq::<u64>::empty());
        }
        while i < self.buckets.len()
            invariant
                self.wf(),
                i <= self.buckets@.len(),
                acc == spec_sum(self.buckets@.subrange(0, i as int)),
            decreases self.buckets@.len() - i,
        {
            proof {
                lemma_sum_bounds(self.buckets@.subrange(0, i as int));
                assert(self.buckets@.subrange(0, i as int).len() * (u64::MAX as int) <= (
                u32::MAX as int) * (u64::MAX as int)) by (nonlinear_arith)
                    requires
                        self.buckets@.subrange(0, i as int).len() <= u32::MAX as int,
                ;
                assert(self.buckets@.subrange(0, i as int + 1) =~= self.buckets@.subrange(
                    0,
                    i as int,
                ).push(self.buckets@[i as int]));
                lemma_sum_snoc(self.buckets@.subrange(0, i as int), self.buckets@[i as int]);
            }
            acc = acc + self.buckets[i] as u128;
            i = i + 1;
        }
        proof {
            assert(self.buckets@.subrange(0, self.buckets@.len() as int) =~= self.buckets@);
        }
        acc
    }

    /// Merge two histograms of identical configuration into their
    /// elementwise sum; mismatched configurations are rejected and a bucket
    /// sum beyond the counter type reports overflow.
    pub fn checked_add(&self, other: &Histogram) -> (r: Result<Histogram, HistError>)
        requires
            self.wf(),
            other.wf(),
        ensures
            self.cfg() != other.cfg() ==> r == Err::<Histogram, HistError>(
                HistError::IncompatibleParameters,
            ),
            self.cfg() == other.cfg() && !spec_counts_compatible(self.counts(), other.counts())
                ==> r == Err::<Histogram, HistError>(HistError::Overflow),
            r is Ok <==> self.cfg() == other.cfg() && spec_counts_compatible(
                self.counts(),
                other.counts(),
            ),
            r is Ok ==> {
                let h = r->Ok_0;
                &&& h.wf()
                &&& h.cfg() == self.cfg()
                &&& h.counts() =~= spec_merged(self.counts(), other.counts())
            },
    {
        if !(self.config.grouping_power == other.config.grouping_power
            && self.config.max_value_power == other.config.max_value_power) {
            return Err(HistError::IncompatibleParameters);
        }
        proof {
            assert(self.config == other.config);
        }
        let n = self.buckets.len();
        let mut out: Vec<u64> = Vec::new();
        let mut i: usize = 0;
        while i < n
            invariant
                i <= n,
                self.cfg() == other.cfg(),
                self.wf(),
                other.wf(),
                n == self.counts().len() == other.counts().len(),
                out@ =~= spec_merged(self.counts(), other.counts()).subrange(0, i as int),
                forall|j: int| 0 <= j < i ==> self.counts()[j] + other.counts()[j] <= u64::MAX,
            decreases n - i,
        {
            let a = self.buckets[i];
            let b = other.buckets[i];
            if a > u64::MAX - b {
                return Err(HistError::Overflow);
            }
            out.push(a + b);
            proof {
                assert(out@ =~= spec_merged(self.counts(), other.counts()).subrange(
                    0,
                    i as int + 1,
                ));
            }
            i = i + 1;
        }
        proof {
            assert(spec_merged(self.counts(), other.counts()).subrange(
                0,
                spec_merged(self.counts(), other.counts()).len() as int,
            ) =~= spec_merged(self.counts(), other.counts()));
        }
        Ok(Histogram { config: self.config, buckets: out })
    }

    /// The bucket first reaching the requested percentile, given in tenths
    /// of a percent in `1..=1000`; `None` when the histogram holds no
    /// samples.
    pub fn percentile_tenths(&self, p_tenths: u64) -> (r: Result<Option<Bucket>, HistError>)
        requires
            self.wf(),
        ensures
            !(1 <= p_tenths <= 1000) ==> r == Err::<Option<Bucket>, HistError>(
                HistError::InvalidPercentile,
            ),
            1 <= p_tenths <= 1000 ==> r == Ok::<Option<Bucket>, HistError>(
                spec_percentile(self.cfg(), self.counts(), p_tenths as int),
            ),
    {
        if p_tenths < 1 || p_tenths > 1000 {
            return Err(HistError::InvalidPercentile);
        }
        let total = self.total_count();
        if total == 0 {
            return Ok(None);
        }
        proof {
            lemma_sum_bounds(self.counts());
            assert(self.counts().len() * (u64::MAX as int) <= (u32::MAX as int) * (
            u64::MAX as int)) by (nonlinear_arith)
                requires
                    self.counts().len() <= u32::MAX as int,
            ;
            assert((p_tenths as int) * (total as int) <= 1000 * (total as int))
                by (nonlinear_arith)
                requires
                    1 <= p_tenths as int <= 1000,
                    total as int >= 0,
            ;
        }
        let rank: u128 = (p_tenths as u128 * total + 999) / 1000;
        let ghost rk = spec_rank(p_tenths as int, spec_sum(self.counts()));
        proof {
            assert(rank as int == rk);
            assert(rk >= 1) by {
                assert((p_tenths as int) * (total as int) >= 1 * 1) by (nonlinear_arith)
                    requires
                        p_tenths as int >= 1,
                        total as int >= 1,
                ;
            }
            assert(rk <= total as int) by {
                assert((p_tenths as int) * (total as int) + 999 <= 1000 * (total as int) + 999);
                lemma_div_is_ordered(
                    (p_tenths as int) * (total as int) + 999,
                    1000 * (total as int) + 999,
                    1000,
                );
                assert((1000 * (total as int) + 999) / 1000 == total as int) by {
                    lemma_fundamental_div_mod(1000 * (total as int) + 999, 1000);
                    lemma_div_multiples_vanish_fancy(total as int, 999, 1000);
                }
            }
            lemma_pct_index_props(self.counts(), rk);
        }
        let n = self.buckets.len();
        let mut i: usize = 0;
        let mut cum: u128 = 0;
        proof {
            assert(self.counts().subrange(0, 0) =~= Seq::<u64>::empty());
        }
        loop
            invariant
                self.wf(),
                i < n,
                n == self.counts().len(),
                cum == spec_sum(self.counts().subrange(0, i as int)),
                cum < rank,
                1 <= p_tenths <= 1000,
                total == spec_sum(self.counts()),
                total > 0,
                rank as int == rk,
                rk == spec_rank(p_tenths as int, spec_sum(self.counts())),
                1 <= rk <= spec_sum(self.counts()),
                spec_pct_index(self.counts(), rk) < n,
            decreases n - i,
        {
            proof {
                lemma_sum_bounds(self.counts().subrange(0, i as int));
                assert(self.counts().subrange(0, i as int).len() * (u64::MAX as int) <= (
                u32::MAX as int) * (u64::MAX as int)) by (nonlinear_arith)
                    requires
                        self.counts().subrange(0, i as int).len() <= u32::MAX as int,
                ;
                assert(self.counts().subrange(0, i as int + 1) =~= self.counts().subrange(
                    0,
                    i as int,
                ).push(self.counts()[i as int]));
                lemma_sum_snoc(self.counts().subrange(0, i as int), self.counts()[i as int]);
            }
            let c = self.buckets[i];
            if cum + c as u128 >= rank {
                proof {
                    lemma_pct_index_unique(self.counts(), rk, i as int);
                }
                let low = index_to_lower_bound(&self.config, i);
                let high = index_to_upper_bound(&self.config, i);
                return Ok(Some(Bucket { low, high, count: c }));
            }
            cum = cum + c as u128;
            i = i + 1;
            proof {
                if i == n {
                    assert(self.counts().subrange(0, n as int) =~= self.counts());
                    assert(false);
                }
            }
        }
    }

    /// The ascending list of non-empty buckets, each with its value range
    /// and count.
    pub fn nonempty_buckets(&self) -> (r: Vec<Bucket>)
        requires
            self.wf(),
        ensures
            r@ == spec_nonempty_buckets(self.cfg(), self.counts(), self.counts().len() as int),
    {
        let n = self.buckets.len();
        let mut out: Vec<Bucket> = Vec::new();
        let mut i: usize = 0;
        while i < n
            invariant
                i <= n,
                self.wf(),
                n == self.counts().len(),
                out@ == spec_nonempty_buckets(self.cfg(), self.counts(), i as int),
            decreases n - i,
        {
            let c = self.buckets[i];
            if c > 0 {
                let low = index_to_lower_bound(&self.config, i);
                let high = index_to_upper_bound(&self.config, i);
                out.push(Bucket { low, high, count: c });
            }
            i = i + 1;
        }
        out
    }
}

pub proof fn lemma_nonempty_len(c: HistConfig, s: Seq<u64>, n: int)
    requires
        n >= 0,
    ensures
        spec_nonempty_buckets(c, s, n).len() <= n,
    decreases n,
{
    if n > 0 {
        lemma_nonempty_len(c, s, n - 1);
    }
}

/// The non-empty buckets among the first `n`, in ascending order.
pub open spec fn spec_nonempty_buckets(c: HistConfig, s: Seq<u64>, n: int) -> Seq<Bucket>
    decreases n,
{
    if n <= 0 {
        Seq::empty()
    } else {
        let rest = spec_nonempty_buckets(c, s, n - 1);
        if s[n - 1] > 0 {
            rest.push(
                Bucket {
                    low: spec_lower_bound(c, (n - 1) as nat) as u64,
                    high: spec_upper_bound(c, (n - 1) as nat) as u64,
                    count: s[n - 1],
                },
            )
        } else {
            rest
        }
    }
}

/// The smallest value of the bucket at `i`.
pub fn index_to_lower_bound(config: &HistConfig, i: usize) -> (r: u64)
    requires
        config.valid(),
        i < config.total_buckets(),
    ensures
        r == spec_lower_bound(*config, i as nat),
        r as nat <= config.max_value(),
{
    let g: u64 = config.grouping_power as u64;
    let gp = pow2_u64(g);
    proof {
        lemma_pow2_pos(g as nat);
        lemma_lower_bound_fits(*config, i as nat);
        lemma_pow2_le(config.max_value_power as nat, 64);
        lemma2_to64_rest();
    }
    let band: u64 = (i as u64) / gp;
    let off: u64 = (i as u64) % gp;
    if band < 1 {
        proof {
            assert(spec_lower_bound(*config, i as nat) == off);
        }
        off
    } else {
        proof {
            assert(g + band - 1 < 64) by {
                assert(band <= (config.max_value_power - config.grouping_power) as nat);
            }
        }
        let base = pow2_u64(g + band - 1);
        let step = pow2_u64(band - 1);
        proof {
            assert(spec_lower_bound(*config, i as nat) == base + step * (off as nat));
            assert(base + step * (off as nat) <= config.max_value());
        }
        base + step * off
    }
}

/// The largest value of the bucket at `i`.
pub fn index_to_upper_bound(config: &HistConfig, i: usize) -> (r: u64)
    requires
        config.valid(),
        i < config.total_buckets(),
    ensures
        r == spec_upper_bound(*config, i as nat),
        r as nat <= config.max_value(),
{
    proof {
        lemma_lower_bound_fits(*config, i as nat + 1);
        lemma_lower_bound_positive(*config, i as nat + 1);
    }
    if i + 1 == config_total_buckets(config) {
        proof {
            lemma_lower_bound_at_total(*config);
        }
        config_max_value(config)
    } else {
        let low = index_to_lower_bound(config, i + 1);
        low - 1
    }
}

/// Facts that let the bucket bounds be computed in 64-bit arithmetic: the
/// band of an index below `total_buckets` stays below the maximum-value
/// power, and the lower bound stays within the representable range.
pub proof fn lemma_lower_bound_fits(c: HistConfig, i: nat)
    requires
        c.valid(),
        i <= c.total_buckets(),
    ensures
        i / pow2(c.grouping_power as nat) <= (c.max_value_power - c.grouping_power + 1) as nat,
        i < c.total_buckets() ==> i / pow2(c.grouping_power as nat) <= (c.max_value_power
            - c.grouping_power) as nat,
        spec_lower_bound(c, i) <= pow2(c.max_value_power as nat),
        i < c.total_buckets() ==> spec_lower_bound(c, i) <= c.max_value(),
{
    let g = c.grouping_power as nat;
    let m = c.max_value_power as nat;
    let band = i / pow2(g);
    let off = i % pow2(g);
    lemma_pow2_pos(g);
    lemma_pow2_pos(m);
    lemma_fundamental_div_mod(i as int, pow2(g) as int);
    lemma_mod_division_less_than_divisor(i as int, pow2(g) as int);
    assert(i == pow2(g) * band + off);
    // the band count: total has exactly (m - g + 1) full bands
    assert(band <= (m - g + 1) as nat) by {
        if band > (m - g + 1) as nat {
            assert(pow2(g) * band >= pow2(g) * ((m - g + 1) as nat + 1)) by (nonlinear_arith)
                requires
                    band >= (m - g + 1) as nat + 1,
                    pow2(g) >= 1,
            ;
            assert(pow2(g) * ((m - g + 1) as nat + 1) > pow2(g) * (m - g + 1) as nat)
                by (nonlinear_arith)
                requires
                    pow2(g) >= 1,
            ;
        }
    }
    if i < c.total_buckets() {
        assert(band <= (m - g) as nat) by {
            if band == (m - g + 1) as nat {
                assert(pow2(g) * band == c.total_buckets());
                assert(off < pow2(g));
                assert(i >= pow2(g) * band) by (nonlinear_arith)
                    requires
                        i == pow2(g) * band + off,
                        off >= 0,
                ;
            }
        }
    }
    if band == 0 {
        assert(spec_lower_bound(c, i) == off);
        lemma_pow2_strictly_increases(g, m);
    } else {
        assert(spec_lower_bound(c, i) == pow2((g + band - 1) as nat) + pow2((band - 1) as nat)
            * off);
        lemma_pow2_adds((band - 1) as nat, g);
        assert(pow2((band - 1) as nat) * off <= pow2((band - 1) as nat) * (pow2(g) - 1))
            by (nonlinear_arith)
            requires
                off <= pow2(g) - 1,
                pow2((band - 1) as nat) >= 0,
        ;
        assert(pow2((band - 1) as nat) * (pow2(g) - 1) == pow2(((band - 1) + g) as nat) - pow2(
            (band - 1) as nat,
        )) by (nonlinear_arith)
            requires
                pow2((band - 1) as nat) * pow2(g) == pow2(((band - 1) + g) as nat),
        ;
        lemma_pow2_pos((band - 1) as nat);
        // lower(i) <= 2 * pow2(g + band - 1) - 1 < pow2(g + band)
        lemma_pow2_adds((g + band - 1) as nat, 1);
        lemma2_to64();
        assert(spec_lower_bound(c, i) < pow2((g + band) as nat));
        lemma_pow2_le((g + band) as nat, (m + 1) as nat);
        if band <= (m - g) as nat {
            lemma_pow2_le((g + band) as nat, m);
        } else {
            // band == m - g + 1 happens only at i == total, where off == 0
            assert(pow2(g) * band == c.total_buckets());
            assert(off == 0) by (nonlinear_arith)
                requires
                    i == pow2(g) * band + off,
                    i <= pow2(g) * band,
                    off >= 0,
            ;
            assert(pow2((band - 1) as nat) * off == 0) by (nonlinear_arith)
                requires
                    off == 0,
            ;
            assert(spec_lower_bound(c, i) == pow2((g + band - 1) as nat));
            lemma_pow2_le((g + band - 1) as nat, m);
        }
    }
}

pub proof fn lemma_lower_bound_positive(c: HistConfig, i: nat)
    requires
        c.valid(),
        i >= 1,
    ensures
        spec_lower_bound(c, i) >= 1,
{
    let g = c.grouping_power as nat;
    lemma_pow2_pos(g);
    let band = i / pow2(g);
    let off = i % pow2(g);
    lemma_fundamental_div_mod(i as int, pow2(g) as int);
    assert(i == pow2(g) * band + off);
    if band < 1 {
        assert(pow2(g) * band == 0) by (nonlinear_arith)
            requires
                band == 0,
        ;
        assert(off == i);
    } else {
        lemma_pow2_pos((g + band - 1) as nat);
        assert(pow2((band - 1) as nat) * off >= 0) by (nonlinear_arith)
            requires
                off >= 0,
                pow2((band - 1) as nat) >= 0,
        ;
    }
}

/// One past the last bucket, the lower bound reaches the power-of-two
/// ceiling of the representable range.
pub proof fn lemma_lower_bound_at_total(c: HistConfig)
    requires
        c.valid(),
    ensures
        spec_lower_bound(c, c.total_buckets()) == pow2(c.max_value_power as nat),
{
    let g = c.grouping_power as nat;
    let m = c.max_value_power as nat;
    let t = c.total_buckets();
    lemma_pow2_pos(g);
    assert(t == pow2(g) * (m - g + 1) as nat);
    lemma_mul_is_commutative(pow2(g) as int, (m - g + 1) as int);
    assert(t / pow2(g) == (m - g + 1) as nat && t % pow2(g) == 0) by {
        lemma_mul_is_commutative(pow2(g) as int, (m - g + 1) as int);
        lemma_fundamental_div_mod_converse(
            t as int,
            pow2(g) as int,
            (m - g + 1) as int,
            0,
        );
    }
    lemma_pow2_adds(g, (m - g) as nat);
}

/// The number of buckets that `config` lays out.
pub fn config_total_buckets(config: &HistConfig) -> (r: usize)
    requires
        config.valid(),
    ensures
        r == config.total_buckets(),
{
    let gp = pow2_u64(config.grouping_power as u64);
    proof {
        lemma_pow2_strictly_increases(config.grouping_power as nat, 32);
        lemma2_to64();
    }
    let factor: u64 = (config.max_value_power - config.grouping_power + 1) as u64;
    assert(gp * factor < 0x100000000u64 * 65) by (nonlinear_arith)
        requires
            gp < 0x100000000u64,
            factor <= 65,
    ;
    (gp * factor) as usize
}

proof fn lemma_sum_update(s: Seq<u64>, i: int)
    requires
        0 <= i < s.len(),
        s[i] < u64::MAX,
    ensures
        spec_sum(s.update(i, (s[i] + 1) as u64)) == spec_sum(s) + 1,
    decreases s.len(),
{
    let t = s.update(i, (s[i] + 1) as u64);
    if i == 0 {
        assert(t.skip(1) =~= s.skip(1));
    } else {
        assert(t.skip(1) =~= s.skip(1).update(i - 1, (s[i] + 1) as u64));
        assert(s.skip(1)[i - 1] == s[i]);
        lemma_sum_update(s.skip(1), i - 1);
    }
}

/// Law: the sum of all bucket counts equals the number of recorded
/// samples — recording a sample raises the total count by exactly one,
/// and a dropped sample (out of range, or in a saturated bucket) leaves
/// it unchanged.
pub proof fn lemma_recorded_sum(c: HistConfig, counts: Seq<u64>, v: nat)
    requires
        c.valid(),
        counts.len() == c.total_buckets(),
    ensures
        spec_sum(spec_recorded(c, counts, v)) == spec_sum(counts) + if v <= c.max_value()
            && counts[spec_bucket_index(c, v) as int] < u64::MAX {
            1int
        } else {
            0int
        },
{
    if v <= c.max_value() {
        lemma_bucket_index_in_range(c, v);
        let idx = spec_bucket_index(c, v) as int;
        if counts[idx] < u64::MAX {
            lemma_sum_update(counts, idx);
        }
    }
}

/// Law: recording locates the bucket covering the sample — every
/// representable value lies between the lower and upper bound of the
/// bucket that `increment` counts it in.
pub proof fn lemma_bucket_covers_value(c: HistConfig, v: nat)
    requires
        c.valid(),
        v <= c.max_value(),
    ensures
        spec_lower_bound(c, spec_bucket_index(c, v)) <= v,
        v <= spec_upper_bound(c, spec_bucket_index(c, v)),
{
    let g = c.grouping_power as nat;
    let m = c.max_value_power as nat;
    lemma_pow2_pos(g);
    lemma_pow2_adds(g, 1);
    lemma2_to64();
    lemma_bucket_index_in_range(c, v);
    let idx = spec_bucket_index(c, v);
    if v < c.cutoff() {
        // the exact range: one bucket per value, lower(i) == i there
        assert(idx == v);
        lemma_linear_lower_bound(c, v);
        lemma_linear_lower_bound(c, v + 1);
        assert(spec_upper_bound(c, idx) == v);
    } else {
        let p = spec_floor_log2(v);
        lemma_floor_log2_bounds(v);
        lemma_pow2_pos(m);
        if p > m {
            lemma_pow2_strictly_increases(m, p);
            assert(false);
        }
        if p == m {
            assert(false);
        }
        if p < g + 1 {
            lemma_pow2_le(p + 1, g + 1);
            assert(false);
        }
        let w = pow2((p - g) as nat);
        lemma_pow2_pos((p - g) as nat);
        lemma_pow2_adds((p - g) as nat, g);
        let off = (v - pow2(p)) as int / w as int;
        lemma_fundamental_div_mod((v - pow2(p)) as int, w as int);
        lemma_mod_division_less_than_divisor((v - pow2(p)) as int, w as int);
        assert(pow2(p + 1) == pow2(p) * 2) by {
            lemma_pow2_adds(p, 1);
        }
        assert(off < pow2(g)) by {
            lemma_multiply_divide_lt((v - pow2(p)) as int, w as int, pow2(g) as int);
        }
        lemma_div_pos_is_pos((v - pow2(p)) as int, w as int);
        // the index decomposes into band p - g + 1 and offset `off`
        assert(idx == c.cutoff() + (p - g - 1) * pow2(g) + off);
        let band = (p - g + 1) as int;
        assert(idx as int == band * pow2(g) + off) by (nonlinear_arith)
            requires
                idx == pow2(g) * 2 + (p - g - 1) * pow2(g) + off,
                band == p - g + 1,
        ;
        lemma_fundamental_div_mod_converse(idx as int, pow2(g) as int, band, off);
        assert(idx / pow2(g) == band && idx % pow2(g) == off);
        lemma_pow2_adds(g, (p - g) as nat);
        assert(spec_lower_bound(c, idx) == pow2(p) + w * off);
        // lower bound: the offset rounds the value down within the band
        assert(w * off <= v - pow2(p)) by {
            lemma_fundamental_div_mod((v - pow2(p)) as int, w as int);
        }
        // upper bound: one offset step up passes the value
        if off + 1 < pow2(g) {
            lemma_fundamental_div_mod_converse(
                idx as int + 1,
                pow2(g) as int,
                band,
                off + 1,
            );
            assert(spec_lower_bound(c, (idx + 1) as nat) == pow2(p) + w * (off + 1));
        } else {
            assert(off + 1 == pow2(g));
            assert(idx as int + 1 == (band + 1) * pow2(g) + 0) by (nonlinear_arith)
                requires
                    idx as int == band * pow2(g) + off,
                    off + 1 == pow2(g),
            ;
            lemma_fundamental_div_mod_converse(idx as int + 1, pow2(g) as int, band + 1, 0);
            lemma_pow2_adds(g, (p - g + 1) as nat);
            assert(pow2(g) * 0 == 0) by (nonlinear_arith);
            assert(spec_lower_bound(c, (idx + 1) as nat) == pow2(p + 1));
            assert(pow2(p + 1) == pow2(p) + w * pow2(g));
        }
        assert(v - pow2(p) < w * (off + 1)) by {
            lemma_fundamental_div_mod((v - pow2(p)) as int, w as int);
            assert(w * (off + 1) == w * off + w) by (nonlinear_arith);
        }
        assert(w * (off + 1) == w * off + w) by (nonlinear_arith);
    }
}

/// Below the cutoff every bucket holds exactly one value.
proof fn lemma_linear_lower_bound(c: HistConfig, i: nat)
    requires
        c.valid(),
        i <= c.cutoff(),
    ensures
        spec_lower_bound(c, i) == i,
{
    let g = c.grouping_power as nat;
    lemma_pow2_pos(g);
    lemma_pow2_adds(g, 1);
    lemma2_to64();
    let band = i / pow2(g);
    let off = i % pow2(g);
    lemma_fundamental_div_mod(i as int, pow2(g) as int);
    lemma_mod_division_less_than_divisor(i as int, pow2(g) as int);
    assert(i == pow2(g) * band + off);
    assert(band <= 2) by {
        if band > 2 {
            assert(pow2(g) * band >= pow2(g) * 3) by (nonlinear_arith)
                requires
                    band >= 3,
                    pow2(g) >= 1,
            ;
        }
    }
    if band == 0 {
        assert(pow2(g) * 0 == 0) by (nonlinear_arith);
        assert(i == off);
    } else if band == 1 {
        assert(spec_lower_bound(c, i) == pow2(g) + pow2(0) * off);
        assert(pow2(0) * off == off) by (nonlinear_arith)
            requires
                pow2(0) == 1,
        ;
        assert(pow2(g) * 1 == pow2(g)) by (nonlinear_arith);
        assert(i == pow2(g) + off);
    } else {
        assert(i >= pow2(g) * 2) by (nonlinear_arith)
            requires
                i == pow2(g) * band + off,
                band == 2,
                off >= 0,
        ;
        assert(off == 0) by (nonlinear_arith)
            requires
                i == pow2(g) * band + off,
                band == 2,
                i <= pow2(g) * 2,
                off >= 0,
        ;
        assert(spec_lower_bound(c, i) == pow2((g + 1) as nat) + pow2(1) * 0);
        assert(pow2(1) * 0 == 0) by (nonlinear_arith);
    }
}

/// Law: a histogram reconstructed from an exported bucket-count snapshot
/// (same configuration, same counts, as `from_buckets` of a `snapshot`
/// guarantees) reports the same bucket for every percentile as the
/// original.
pub proof fn lemma_round_trip_percentile(h: Histogram, r: Histogram, p_tenths: int)
    requires
        r.cfg() == h.cfg(),
        r.counts() == h.counts(),
    ensures
        spec_percentile(r.cfg(), r.counts(), p_tenths) == spec_percentile(
            h.cfg(),
            h.counts(),
            p_tenths,
        ),
{
}

/// Law: merging histograms is commutative; the merged counts, and the
/// question whether the merge overflows, do not depend on the order of the
/// operands.
pub proof fn lemma_merge_commutative(a: Seq<u64>, b: Seq<u64>)
    requires
        a.len() == b.len(),
    ensures
        spec_merged(a, b) =~= spec_merged(b, a),
        spec_counts_compatible(a, b) == spec_counts_compatible(b, a),
{
}

/// Law: merging histograms is associative; when every three-way bucket sum
/// stays within the counter type, merging in either grouping yields the
/// same counts.
pub proof fn lemma_merge_associative(a: Seq<u64>, b: Seq<u64>, c: Seq<u64>)
    requires
        a.len() == b.len() == c.len(),
        forall|i: int| 0 <= i < a.len() ==> a[i] + b[i] + c[i] <= u64::MAX,
    ensures
        spec_counts_compatible(a, b),
        spec_counts_compatible(b, c),
        spec_counts_compatible(spec_merged(a, b), c),
        spec_counts_compatible(a, spec_merged(b, c)),
        spec_merged(spec_merged(a, b), c) =~= spec_merged(a, spec_merged(b, c)),
{
}

pub proof fn lemma_pct_index_nonneg(s: Seq<u64>, r: int)
    ensures
        0 <= spec_pct_index(s, r),
    decreases s.len(),
{
    if s.len() > 0 && !(s[0] >= r) {
        lemma_pct_index_nonneg(s.skip(1), r - s[0]);
    }
}

pub proof fn lemma_pct_index_monotone(s: Seq<u64>, r1: int, r2: int)
    requires
        r1 <= r2,
    ensures
        spec_pct_index(s, r1) <= spec_pct_index(s, r2),
    decreases s.len(),
{
    lemma_pct_index_nonneg(s, r2);
    if s.len() > 0 && !(s[0] >= r1) {
        lemma_pct_index_monotone(s.skip(1), r1 - s[0], r2 - s[0]);
    }
}

pub proof fn lemma_lower_bound_step(c: HistConfig, i: nat)
    requires
        c.valid(),
        i + 1 <= c.total_buckets(),
    ensures
        spec_lower_bound(c, i) <= spec_lower_bound(c, i + 1),
{
    let g = c.grouping_power as nat;
    lemma_pow2_pos(g);
    let band = i / pow2(g);
    let off = i % pow2(g);
    lemma_fundamental_div_mod(i as int, pow2(g) as int);
    lemma_mod_division_less_than_divisor(i as int, pow2(g) as int);
    assert(i == pow2(g) * band + off);
    if off + 1 < pow2(g) {
        lemma_fundamental_div_mod_converse(
            i as int + 1,
            pow2(g) as int,
            band as int,
            off as int + 1,
        );
        assert((i + 1) / pow2(g) == band && (i + 1) % pow2(g) == off + 1);
        if band >= 1 {
            lemma_pow2_pos((band - 1) as nat);
            assert(pow2((band - 1) as nat) * (off + 1) == pow2((band - 1) as nat) * off + pow2(
                (band - 1) as nat,
            )) by (nonlinear_arith);
        }
    } else {
        // crossing into the next band
        assert(off + 1 == pow2(g));
        assert(i as int + 1 == (band + 1) as int * pow2(g) as int + 0) by (nonlinear_arith)
            requires
                i == pow2(g) * band + off,
                off + 1 == pow2(g),
        ;
        lemma_fundamental_div_mod_converse(i as int + 1, pow2(g) as int, band as int + 1, 0);
        assert((i + 1) / pow2(g) == band + 1 && (i + 1) % pow2(g) == 0);
        assert(spec_lower_bound(c, i + 1) == pow2((g + band) as nat) + pow2(band) * 0);
        assert(pow2(band) * 0 == 0) by (nonlinear_arith);
        if band == 0 {
            assert(spec_lower_bound(c, i) == off);
            lemma_pow2_adds(g, 0);
            lemma2_to64();
            assert(spec_lower_bound(c, i + 1) == pow2(g));
        } else {
            assert(spec_lower_bound(c, i) == pow2((g + band - 1) as nat) + pow2((band - 1) as nat)
                * off);
            lemma_pow2_adds((band - 1) as nat, g);
            assert(pow2((band - 1) as nat) * off <= pow2((band - 1) as nat) * pow2(g))
                by (nonlinear_arith)
                requires
                    off <= pow2(g),
                    pow2((band - 1) as nat) >= 0,
            ;
            lemma_pow2_adds((g + band - 1) as nat, 1);
            lemma2_to64();
        }
    }
}

pub proof fn lemma_lower_bound_monotone(c: HistConfig, i: nat, j: nat)
    requires
        c.valid(),
        i <= j,
        j <= c.total_buckets(),
    ensures
        spec_lower_bound(c, i) <= spec_lower_bound(c, j),
    decreases j - i,
{
    if i < j {
        lemma_lower_bound_monotone(c, i, (j - 1) as nat);
        lemma_lower_bound_step(c, (j - 1) as nat);
    }
}

/// Law: percentiles are monotone.  For two percentile requests on the same
/// histogram, the bucket reported for the smaller request does not lie
/// above the bucket reported for the larger one: its range midpoint is no
/// greater.
pub proof fn lemma_percentile_monotone(c: HistConfig, s: Seq<u64>, p1: int, p2: int)
    requires
        c.valid(),
        s.len() == c.total_buckets(),
        spec_sum(s) > 0,
        1 <= p1 <= p2 <= 1000,
    ensures
        (spec_percentile(c, s, p1) is Some),
        (spec_percentile(c, s, p2) is Some),
        ({
            let b1 = spec_percentile(c, s, p1)->Some_0;
            let b2 = spec_percentile(c, s, p2)->Some_0;
            (b1.low + b1.high) / 2 <= (b2.low + b2.high) / 2
        }),
{
    let total = spec_sum(s);
    let r1 = spec_rank(p1, total);
    let r2 = spec_rank(p2, total);
    assert(p1 * total <= p2 * total) by (nonlinear_arith)
        requires
            p1 <= p2,
            total >= 0,
    ;
    lemma_div_is_ordered(p1 * total + 999, p2 * total + 999, 1000);
    assert(r1 <= r2);
    // both ranks address an existing sample
    assert(1 <= r1 && r2 <= total) by {
        assert(p1 * total >= 1 * 1) by (nonlinear_arith)
            requires
                p1 >= 1,
                total >= 1,
        ;
        assert(p2 * total + 999 <= 1000 * total + 999) by (nonlinear_arith)
            requires
                p2 <= 1000,
                total >= 0,
        ;
        lemma_div_is_ordered(p2 * total + 999, 1000 * total + 999, 1000);
        assert((1000 * total + 999) / 1000 == total) by {
            lemma_div_multiples_vanish_fancy(total, 999, 1000);
        }
    }
    lemma_pct_index_props(s, r1);
    lemma_pct_index_props(s, r2);
    lemma_pct_index_monotone(s, r1, r2);
    let i1 = spec_pct_index(s, r1);
    let i2 = spec_pct_index(s, r2);
    lemma_lower_bound_monotone(c, i1 as nat, i2 as nat);
    lemma_lower_bound_monotone(c, (i1 + 1) as nat, (i2 + 1) as nat);
    lemma_lower_bound_positive(c, (i1 + 1) as nat);
    lemma_lower_bound_positive(c, (i2 + 1) as nat);
    lemma_lower_bound_fits(c, i1 as nat);
    lemma_lower_bound_fits(c, i2 as nat);
    lemma_lower_bound_fits(c, (i1 + 1) as nat);
    lemma_lower_bound_fits(c, (i2 + 1) as nat);
    lemma_pow2_le(c.max_value_power as nat, 64);
    lemma2_to64_rest();
    assert(spec_lower_bound(c, i1 as nat) <= u64::MAX);
    assert(spec_lower_bound(c, i2 as nat) <= u64::MAX);
    assert(spec_upper_bound(c, i1 as nat) <= u64::MAX);
    assert(spec_upper_bound(c, i2 as nat) <= u64::MAX);
    let b1 = spec_percentile(c, s, p1)->Some_0;
    let b2 = spec_percentile(c, s, p2)->Some_0;
    assert(b1.low == spec_lower_bound(c, i1 as nat));
    assert(b2.low == spec_lower_bound(c, i2 as nat));
    assert(b1.high == spec_upper_bound(c, i1 as nat));
    assert(b2.high == spec_upper_bound(c, i2 as nat));
    assert(b1.low as int + b1.high as int <= b2.low as int + b2.high as int);
    lemma_div_is_ordered(b1.low as int + b1.high as int, b2.low as int + b2.high as int, 2);
}

} // verus!
