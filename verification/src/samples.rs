//! From one worker's measurement interval to a stability verdict.
//!
//! Every worker repeatedly runs as many transactions as it can for roughly
//! 100 ms and records the outcome in a [`Sample`]. Samples are assigned to
//! fixed 200 ms time buckets ("timeslices") derived from their start instant.
//! All samples of one bucket, across workers, are summed into a
//! [`ParallelSample`]; a [`ParallelSamples`] keeps one such total per bucket,
//! ordered by bucket index. Completed buckets are frozen into [`TestResult`]s
//! (throughput and mean latency) and collected in a bounded rolling window,
//! [`TestResults`], which declares a concurrency level stable once the window
//! is long enough and both statistics have a small relative standard
//! deviation.
//!
//! Instants are nanoseconds since the Unix epoch; durations are nanoseconds.
//! Sums of durations and of transaction counts saturate at `u64::MAX` instead
//! of overflowing; all quantities here are far below that in practice.

use vstd::prelude::*;

verus! {

// ---------------------------------------------------------------------------
// Time buckets
// ---------------------------------------------------------------------------

/// The bucket ("timeslice") an instant belongs to: its millisecond count,
/// divided into windows of 200 ms.
pub open spec fn timeslice_spec(ns: int) -> int {
    ns / 1_000_000 / 200
}

/// Assigns an instant (nanoseconds since the Unix epoch) to its 200 ms bucket.
pub fn timeslice(ns: u64) -> (slice: u64)
    ensures
        slice == timeslice_spec(ns as int),
{
    ns / 1_000_000 / 200
}

// ---------------------------------------------------------------------------
// Relative size of one quantity against another, in percent
// ---------------------------------------------------------------------------

/// The magnitude of an integer.
pub open spec fn magnitude(x: int) -> int {
    if x < 0 {
        -x
    } else {
        x
    }
}

/// `100 * second / first`, with quotient and sign as truncating integer
/// division gives them, and 0 when `first` is 0.
pub open spec fn percent_of_spec(first: int, second: int) -> int {
    if first == 0 {
        0
    } else {
        let q = 100 * magnitude(second) / magnitude(first);
        if (first < 0) == (second < 0) {
            q
        } else {
            -q
        }
    }
}

/// What an out-of-range value is clamped to when forced into an `i64`.
pub open spec fn clamp_i64(x: int) -> int {
    if x > i64::MAX {
        i64::MAX as int
    } else if x < i64::MIN {
        i64::MIN as int
    } else {
        x
    }
}

/// How large `second` is relative to `first`, in percent, rounded toward
/// zero; 0 when `first` is 0, clamped to the `i64` range.
pub fn percent_of(first: i64, second: i64) -> (percent: i64)
    ensures
        percent == clamp_i64(percent_of_spec(first as int, second as int)),
{
    if first == 0 {
        return 0;
    }
    let first_mag: u128 = if first < 0 {
        (-(first as i128)) as u128
    } else {
        first as u128
    };
    let second_mag: u128 = if second < 0 {
        (-(second as i128)) as u128
    } else {
        second as u128
    };
    assert(first_mag == magnitude(first as int));
    assert(second_mag == magnitude(second as int));
    let q: u128 = 100 * second_mag / first_mag;
    if (first < 0) == (second < 0) {
        if q > i64::MAX as u128 {
            i64::MAX
        } else {
            q as i64
        }
    } else {
        if q >= 9_223_372_036_854_775_808u128 {
            i64::MIN
        } else {
            -((q as i128) as i64)
        }
    }
}

// ---------------------------------------------------------------------------
// Sample: one worker, one measurement interval
// ---------------------------------------------------------------------------

/// One worker's accounting over one measurement interval: transactions
/// completed, summed per-transaction wait, and the wall-clock bounds of the
/// interval.
pub struct Sample {
    /// Transactions completed during the interval.
    pub transactions: u32,
    /// Sum of the per-transaction waits, in nanoseconds.
    pub wait: u64,
    /// Start of the interval, nanoseconds since the Unix epoch.
    pub start: u64,
    /// End of the interval, nanoseconds since the Unix epoch; the sample is
    /// sealed by [`Sample::end`].
    pub end: u64,
}

impl Clone for Sample {
    fn clone(&self) -> (res: Sample)
        ensures
            res == *self,
    {
        Sample { transactions: self.transactions, wait: self.wait, start: self.start, end: self.end }
    }
}

impl Copy for Sample {

}

/// Transactions per second over the sample's own interval; when the interval
/// has zero length the transaction count itself is the fallback.
pub open spec fn sample_tps_spec(s: Sample) -> int {
    let duration = s.end - s.start;
    if duration == 0 {
        s.transactions as int
    } else {
        1_000_000_000 * s.transactions / duration
    }
}

impl Sample {
    /// A sample is well formed when its interval does not end before it
    /// starts.
    pub open spec fn wf(self) -> bool {
        self.start <= self.end
    }

    /// Starts a new, empty sample whose interval opens (and, until sealed,
    /// closes) at `now`.
    pub fn new(now: u64) -> (s: Sample)
        ensures
            s.transactions == 0,
            s.wait == 0,
            s.start == now,
            s.end == now,
            s.wf(),
    {
        Sample { transactions: 0, wait: 0, start: now, end: now }
    }

    /// Records one completed transaction and the wait it took.
    pub fn increment(&mut self, wait: u64)
        requires
            old(self).transactions < u32::MAX,
            old(self).wait + wait <= u64::MAX,
        ensures
            final(self).transactions == old(self).transactions + 1,
            final(self).wait == old(self).wait + wait,
            final(self).start == old(self).start,
            final(self).end == old(self).end,
    {
        self.transactions = self.transactions + 1;
        self.wait = self.wait + wait;
    }

    /// Seals the sample: closes its interval at `now`.
    pub fn end(&mut self, now: u64)
        requires
            now >= old(self).start,
        ensures
            final(self).end == now,
            final(self).transactions == old(self).transactions,
            final(self).wait == old(self).wait,
            final(self).start == old(self).start,
            final(self).wf(),
    {
        self.end = now;
    }

    /// Transactions per second this sample observed.
    pub fn tps(self) -> (tps: u64)
        requires
            self.wf(),
        ensures
            tps == sample_tps_spec(self),
    {
        let duration = self.end - self.start;
        if duration == 0 {
            self.transactions as u64
        } else {
            1_000_000_000u64 * (self.transactions as u64) / duration
        }
    }

    /// Materializes the sample as the one-sample total of its own bucket.
    pub fn to_parallel_sample(self) -> (p: ParallelSample)
        requires
            self.wf(),
        ensures
            p.timeslice == timeslice_spec(self.start as int),
            p.total_transactions == self.transactions,
            p.total_waits == self.wait,
            p.total_duration == self.end - self.start,
            p.num_samples == 1,
    {
        ParallelSample {
            timeslice: timeslice(self.start),
            total_transactions: self.transactions as u64,
            total_waits: self.wait,
            total_duration: self.end - self.start,
            num_samples: 1,
        }
    }
}

// ---------------------------------------------------------------------------
// ParallelSample: every worker's samples of one bucket, summed
// ---------------------------------------------------------------------------

/// The summed samples of one time bucket across all workers: how many
/// transactions the fleet completed in the bucket, the summed waits, the
/// summed interval lengths, and how many samples went in.
#[derive(PartialEq, Eq, Structural, Debug)]
pub struct ParallelSample {
    /// The bucket these totals belong to.
    pub timeslice: u64,
    /// Transactions summed over the merged samples.
    pub total_transactions: u64,
    /// Per-transaction waits summed over the merged samples, nanoseconds.
    pub total_waits: u64,
    /// Interval lengths summed over the merged samples, nanoseconds.
    pub total_duration: u64,
    /// How many samples were merged in.
    pub num_samples: u64,
}

impl Clone for ParallelSample {
    fn clone(&self) -> (res: ParallelSample)
        ensures
            res == *self,
    {
        ParallelSample {
            timeslice: self.timeslice,
            total_transactions: self.total_transactions,
            total_waits: self.total_waits,
            total_duration: self.total_duration,
            num_samples: self.num_samples,
        }
    }
}

impl Copy for ParallelSample {

}

/// Addition that stops at the largest representable value rather than
/// overflow.
pub open spec fn sat64(x: int) -> u64 {
    if x > u64::MAX {
        u64::MAX
    } else {
        x as u64
    }
}

/// The merge of two same-bucket totals: every sum added, saturating.
pub open spec fn merged(a: ParallelSample, b: ParallelSample) -> ParallelSample {
    ParallelSample {
        timeslice: a.timeslice,
        total_transactions: sat64(a.total_transactions + b.total_transactions),
        total_waits: sat64(a.total_waits + b.total_waits),
        total_duration: sat64(a.total_duration + b.total_duration),
        num_samples: sat64(a.num_samples + b.num_samples),
    }
}

/// Mean per-transaction wait of the bucket, in nanoseconds; 0 when no
/// transaction completed.
pub open spec fn avg_latency_spec(p: ParallelSample) -> int {
    if p.total_transactions == 0 {
        0
    } else {
        p.total_waits as int / p.total_transactions as int
    }
}

/// Fleet-wide transactions per second of the bucket: the summed transactions
/// against the *average* interval length, the workers having run
/// concurrently. 0 without samples; the raw transaction count when the
/// averaged interval length is zero; capped at `u64::MAX`.
pub open spec fn tot_tps_spec(p: ParallelSample) -> int {
    if p.num_samples < 1 {
        0
    } else {
        let duration = p.total_duration as int / p.num_samples as int;
        if duration == 0 {
            p.total_transactions as int
        } else {
            let q = 1_000_000_000 * p.total_transactions / duration;
            if q > u64::MAX {
                u64::MAX as int
            } else {
                q
            }
        }
    }
}

impl ParallelSample {
    /// Mean per-transaction wait of this bucket, in nanoseconds.
    pub fn avg_latency(&self) -> (latency: u64)
        ensures
            latency == avg_latency_spec(*self),
    {
        if self.total_transactions == 0 {
            0
        } else {
            self.total_waits / self.total_transactions
        }
    }

    /// Merges another same-bucket total into this one; totals of two
    /// different buckets refuse to combine.
    pub fn add(&mut self, samples: ParallelSample) -> (res: Result<(), &'static str>)
        ensures
            old(self).timeslice == samples.timeslice ==> res is Ok && *final(self) == merged(
                *old(self),
                samples,
            ),
            old(self).timeslice != samples.timeslice ==> (res matches Err(m) && m@
                == "trying to combine samples of different timeslices"@) && *final(self) == *old(
                self,
            ),
    {
        if self.timeslice != samples.timeslice {
            return Err("trying to combine samples of different timeslices");
        }
        self.total_transactions = self.total_transactions.saturating_add(
            samples.total_transactions,
        );
        self.total_waits = self.total_waits.saturating_add(samples.total_waits);
        self.total_duration = self.total_duration.saturating_add(samples.total_duration);
        self.num_samples = self.num_samples.saturating_add(samples.num_samples);
        Ok(())
    }

    /// Fleet-wide transactions per second of this bucket.
    pub fn tot_tps(&self) -> (tps: u64)
        ensures
            tps == tot_tps_spec(*self),
    {
        if self.num_samples < 1 {
            return 0;
        }
        let duration = self.total_duration / self.num_samples;
        if duration == 0 {
            self.total_transactions
        } else {
            let q: u128 = 1_000_000_000u128 * (self.total_transactions as u128) / (
            duration as u128);
            if q > u64::MAX as u128 {
                u64::MAX
            } else {
                q as u64
            }
        }
    }

    /// Freezes this bucket's totals into a result: fleet throughput and mean
    /// latency.
    pub fn as_testresult(&self) -> (res: TestResult)
        ensures
            res.tps == tot_tps_spec(*self),
            res.latency == avg_latency_spec(*self),
    {
        TestResult { tps: self.tot_tps(), latency: self.avg_latency() }
    }
}

/// What [`ParallelSample::as_testresult`] freezes a bucket into.
pub open spec fn as_testresult_spec(p: ParallelSample) -> TestResult {
    TestResult { tps: tot_tps_spec(p) as u64, latency: avg_latency_spec(p) as u64 }
}

// ---------------------------------------------------------------------------
// ParallelSamples: one total per bucket, ordered by bucket
// ---------------------------------------------------------------------------

/// The totals of a set of samples, one [`ParallelSample`] per time bucket,
/// held in strictly ascending bucket order.
pub struct ParallelSamples {
    /// The per-bucket totals, sorted by strictly ascending `timeslice`.
    pub samples: Vec<ParallelSample>,
}

/// The per-bucket map a sequence of totals denotes: each element under its
/// own bucket index.
pub open spec fn seq_to_map(s: Seq<ParallelSample>) -> Map<u64, ParallelSample>
    decreases s.len(),
{
    if s.len() == 0 {
        Map::empty()
    } else {
        seq_to_map(s.drop_last()).insert(s.last().timeslice, s.last())
    }
}

/// Adding one total to a per-bucket map: merge into its bucket's entry, or
/// open the bucket.
pub open spec fn map_add_spec(m: Map<u64, ParallelSample>, s: ParallelSample) -> Map<
    u64,
    ParallelSample,
> {
    if m.dom().contains(s.timeslice) {
        m.insert(s.timeslice, merged(m[s.timeslice], s))
    } else {
        m.insert(s.timeslice, s)
    }
}

/// The bucketwise merge of two per-bucket maps: buckets present in both are
/// merged, the rest are taken as they are.
pub open spec fn merge_maps(m1: Map<u64, ParallelSample>, m2: Map<u64, ParallelSample>) -> Map<
    u64,
    ParallelSample,
> {
    Map::new(
        |k: u64| m1.dom().contains(k) || m2.dom().contains(k),
        |k: u64|
            if m1.dom().contains(k) && m2.dom().contains(k) {
                merged(m1[k], m2[k])
            } else if m2.dom().contains(k) {
                m2[k]
            } else {
                m1[k]
            },
    )
}

/// A per-bucket map is coherent when every entry records its own key as its
/// bucket.
pub open spec fn map_wf(m: Map<u64, ParallelSample>) -> bool {
    forall|k: u64| #[trigger] m.dom().contains(k) ==> m[k].timeslice == k
}

proof fn lemma_seq_to_map_dom(s: Seq<ParallelSample>)
    ensures
        forall|k: u64|
            #[trigger] seq_to_map(s).dom().contains(k) <==> exists|i: int|
                0 <= i < s.len() && s[i].timeslice == k,
    decreases s.len(),
{
    if s.len() > 0 {
        lemma_seq_to_map_dom(s.drop_last());
        assert forall|k: u64| #[trigger] seq_to_map(s).dom().contains(k) implies exists|i: int|
            0 <= i < s.len() && s[i].timeslice == k by {
            if k == s.last().timeslice {
                assert(s[s.len() - 1].timeslice == k);
            } else {
                assert(seq_to_map(s.drop_last()).dom().contains(k));
                let i = choose|i: int| 0 <= i < s.drop_last().len() && s.drop_last()[i].timeslice
                    == k;
                assert(s.drop_last()[i] == s[i]);
                assert(s[i].timeslice == k);
            }
        }
        assert forall|k: u64|
            exists|i: int| 0 <= i < s.len() && s[i].timeslice == k implies #[trigger] seq_to_map(
            s,
        ).dom().contains(k) by {
            let i = choose|i: int| 0 <= i < s.len() && s[i].timeslice == k;
            if i < s.len() - 1 {
                assert(s.drop_last()[i] == s[i]);
                assert(exists|j: int|
                    0 <= j < s.drop_last().len() && s.drop_last()[j].timeslice == k);
                assert(seq_to_map(s.drop_last()).dom().contains(k));
            } else {
                assert(s.last().timeslice == k);
            }
        }
    }
}

proof fn lemma_seq_to_map_wf(s: Seq<ParallelSample>)
    ensures
        map_wf(seq_to_map(s)),
    decreases s.len(),
{
    if s.len() > 0 {
        lemma_seq_to_map_wf(s.drop_last());
    }
}

impl Clone for ParallelSamples {
    fn clone(&self) -> (res: ParallelSamples)
        ensures
            res.samples@ == self.samples@,
    {
        let n = self.samples.len();
        let mut samples: Vec<ParallelSample> = Vec::new();
        let mut i: usize = 0;
        while i < n
            invariant
                0 <= i <= n,
                n == self.samples@.len(),
                samples@ =~= self.samples@.take(i as int),
            decreases n - i,
        {
            samples.push(self.samples[i]);
            proof {
                assert(samples@ =~= self.samples@.take(i + 1));
            }
            i = i + 1;
        }
        proof {
            assert(self.samples@.take(n as int) =~= self.samples@);
        }
        ParallelSamples { samples }
    }
}

impl ParallelSamples {
    /// The container is well formed when its buckets are strictly ascending.
    pub open spec fn wf(self) -> bool {
        forall|i: int, j: int|
            0 <= i < j < self.samples@.len() ==> self.samples@[i].timeslice
                < self.samples@[j].timeslice
    }

    /// The per-bucket map this container denotes.
    pub open spec fn as_map(self) -> Map<u64, ParallelSample> {
        seq_to_map(self.samples@)
    }

    /// An empty collection: no bucket yet.
    pub fn new() -> (res: ParallelSamples)
        ensures
            res.wf(),
            res.samples@.len() == 0,
            res.as_map() == Map::<u64, ParallelSample>::empty(),
    {
        ParallelSamples { samples: Vec::new() }
    }

    /// How many buckets hold data.
    pub fn len(&self) -> (n: usize)
        ensures
            n == self.samples@.len(),
    {
        self.samples.len()
    }

    /// Merges one bucket total in: into its bucket if that bucket is already
    /// present, as a new bucket otherwise.
    pub fn add(&mut self, sample: ParallelSample)
        requires
            old(self).wf(),
        ensures
            final(self).wf(),
            final(self).as_map() == map_add_spec(old(self).as_map(), sample),
    {
        let n = self.samples.len();
        let mut i: usize = 0;
        while i < n && self.samples[i].timeslice < sample.timeslice
            invariant
                0 <= i <= n,
                n == self.samples@.len(),
                forall|j: int| 0 <= j < i ==> self.samples@[j].timeslice < sample.timeslice,
                self.wf(),
            decreases n - i,
        {
            i = i + 1;
        }
        proof {
            lemma_seq_to_map_dom(self.samples@);
        }
        if i < n && self.samples[i].timeslice == sample.timeslice {
            let mut elem = self.samples[i];
            let merge_result = elem.add(sample);
            proof {
                assert(merge_result is Ok);
            }
            let ghost before = self.samples@;
            proof {
                assert forall|j: int| 0 <= j < before.len() && j != i implies #[trigger] before[j].timeslice
                    != sample.timeslice by {
                    if j < i {
                        assert(before[j].timeslice < before[i as int].timeslice);
                    } else {
                        assert(before[i as int].timeslice < before[j].timeslice);
                    }
                }
                lemma_seq_to_map_value(before, i as int);
            }
            self.samples[i] = elem;
            proof {
                lemma_seq_to_map_update(before, i as int, elem);
            }
        } else {
            let ghost before = self.samples@;
            proof {
                assert forall|j: int| 0 <= j < before.len() implies #[trigger] before[j].timeslice
                    != sample.timeslice by {
                    if j < i {
                        assert(before[j].timeslice < sample.timeslice);
                    } else {
                        assert(before[i as int].timeslice <= before[j].timeslice);
                    }
                }
            }
            self.samples.insert(i, sample);
            proof {
                lemma_seq_to_map_insert(before, i as int, sample);
                assert(!seq_to_map(before).dom().contains(sample.timeslice)) by {
                    lemma_seq_to_map_dom(before);
                }
                assert forall|a: int, b: int|
                    0 <= a < b < self.samples@.len() implies self.samples@[a].timeslice
                    < self.samples@[b].timeslice by {
                    assert(self.samples@ == before.insert(i as int, sample));
                    if b < i {
                        assert(self.samples@[a] == before[a] && self.samples@[b] == before[b]);
                    } else if a < i && b == i {
                        assert(self.samples@[a] == before[a]);
                        assert(self.samples@[b] == sample);
                    } else if a < i && b > i {
                        assert(self.samples@[a] == before[a]);
                        assert(self.samples@[b] == before[b - 1]);
                        assert(before[a].timeslice < sample.timeslice);
                        assert(sample.timeslice < before[b - 1].timeslice);
                    } else if a == i {
                        assert(self.samples@[a] == sample);
                        assert(self.samples@[b] == before[b - 1]);
                        assert(sample.timeslice < before[b - 1].timeslice);
                    } else {
                        assert(self.samples@[a] == before[a - 1]);
                        assert(self.samples@[b] == before[b - 1]);
                    }
                }
            }
        }
    }

    /// Merges every bucket of `samples` into this collection, bucketwise, and
    /// hands the combined collection back.
    pub fn append(self, samples: ParallelSamples) -> (res: ParallelSamples)
        requires
            self.wf(),
            samples.wf(),
        ensures
            res.wf(),
            res.as_map() == merge_maps(self.as_map(), samples.as_map()),
    {
        let mut res = self;
        let n = samples.samples.len();
        let mut i: usize = 0;
        proof {
            lemma_merge_maps_take_zero(res.as_map(), samples.samples@);
        }
        while i < n
            invariant
                0 <= i <= n,
                n == samples.samples@.len(),
                samples.wf(),
                res.wf(),
                res.as_map() == merge_maps(seq_to_map(self.samples@), seq_to_map(samples.samples@.take(i as int))),
            decreases n - i,
        {
            let ghost before = res.as_map();
            let ghost taken = samples.samples@.take(i as int);
            let elem = samples.samples[i];
            res.add(elem);
            proof {
                lemma_seq_to_map_dom(taken);
                assert(forall|j: int|
                    0 <= j < taken.len() ==> #[trigger] taken[j].timeslice != elem.timeslice);
                assert(!seq_to_map(taken).dom().contains(elem.timeslice));
                lemma_map_add_merge(seq_to_map(self.samples@), seq_to_map(taken), elem);
                assert(samples.samples@.take(i + 1).drop_last() =~= taken);
                assert(seq_to_map(samples.samples@.take(i + 1)) == seq_to_map(taken).insert(
                    elem.timeslice,
                    elem,
                ));
            }
            i = i + 1;
        }
        proof {
            assert(samples.samples@.take(n as int) =~= samples.samples@);
        }
        res
    }

    /// Freezes every completed bucket into a verdict window: buckets in
    /// ascending order, stopping at the bucket before the current one
    /// (`current_slice`), which may still be filling.
    pub fn as_results(&self, min: usize, max: usize, current_slice: u64) -> (res: TestResults)
        requires
            self.wf(),
            current_slice >= 1,
        ensures
            res.wf(),
            res.min == min,
            res.max == max,
            res.results@ == window_tail(
                results_of(self.samples@, current_slice - 1),
                max as int,
            ),
    {
        let prev = current_slice - 1;
        let mut res = TestResults::new(min, max);
        let n = self.samples.len();
        let mut i: usize = 0;
        proof {
            assert(self.samples@.take(0) =~= Seq::<ParallelSample>::empty());
            assert(map_results(self.samples@.take(0)) =~= Seq::<TestResult>::empty());
        }
        while i < n && self.samples[i].timeslice < prev
            invariant
                0 <= i <= n,
                n == self.samples@.len(),
                self.wf(),
                res.wf(),
                res.min == min,
                res.max == max,
                forall|j: int| 0 <= j < i ==> self.samples@[j].timeslice < prev,
                res.results@ == window_tail(map_results(self.samples@.take(i as int)), max as int),
            decreases n - i,
        {
            let tr = self.samples[i].as_testresult();
            proof {
                lemma_window_tail_push(map_results(self.samples@.take(i as int)), tr, max as int);
                assert(map_results(self.samples@.take(i + 1)) =~= map_results(
                    self.samples@.take(i as int),
                ).push(tr));
            }
            res.append(tr);
            i = i + 1;
        }
        proof {
            lemma_results_of_prefix(self.samples@, prev as int, i as int);
        }
        res
    }
}

// ---------------------------------------------------------------------------
// Laws of per-bucket merging
// ---------------------------------------------------------------------------

/// A bucket that holds at least one sample holds nonnegative totals; every
/// sum in a [`ParallelSample`] is unsigned and can only grow as samples are
/// merged in.
pub proof fn lemma_counts_nonnegative(p: ParallelSample)
    requires
        p.num_samples >= 1,
    ensures
        p.total_transactions >= 0,
        p.total_duration >= 0,
{
}

/// Merging two totals of one bucket is commutative.
pub proof fn lemma_merged_commutative(a: ParallelSample, b: ParallelSample)
    requires
        a.timeslice == b.timeslice,
    ensures
        merged(a, b) == merged(b, a),
{
}

/// Merging totals of one bucket is associative.
pub proof fn lemma_merged_associative(a: ParallelSample, b: ParallelSample, c: ParallelSample)
    requires
        a.timeslice == b.timeslice,
        b.timeslice == c.timeslice,
    ensures
        merged(merged(a, b), c) == merged(a, merged(b, c)),
{
}

/// The per-bucket map of a well-formed collection is coherent: every entry
/// records its own key as its bucket.
pub proof fn lemma_as_map_wf(p: ParallelSamples)
    ensures
        map_wf(p.as_map()),
{
    lemma_seq_to_map_wf(p.samples@);
}

/// Merging whole collections is commutative, bucket by bucket.
pub proof fn lemma_merge_maps_commutative(m1: Map<u64, ParallelSample>, m2: Map<u64, ParallelSample>)
    requires
        map_wf(m1),
        map_wf(m2),
    ensures
        merge_maps(m1, m2) == merge_maps(m2, m1),
{
    assert forall|k: u64| #[trigger] merge_maps(m1, m2).dom().contains(k) implies merge_maps(
        m1,
        m2,
    )[k] == merge_maps(m2, m1)[k] by {
        if m1.dom().contains(k) && m2.dom().contains(k) {
            lemma_merged_commutative(m1[k], m2[k]);
        }
    }
    assert(merge_maps(m1, m2) =~= merge_maps(m2, m1));
}

/// Merging whole collections is associative, bucket by bucket.
pub proof fn lemma_merge_maps_associative(
    m1: Map<u64, ParallelSample>,
    m2: Map<u64, ParallelSample>,
    m3: Map<u64, ParallelSample>,
)
    requires
        map_wf(m1),
        map_wf(m2),
        map_wf(m3),
    ensures
        merge_maps(merge_maps(m1, m2), m3) == merge_maps(m1, merge_maps(m2, m3)),
{
    assert forall|k: u64| #[trigger] merge_maps(merge_maps(m1, m2), m3).dom().contains(
        k,
    ) implies merge_maps(merge_maps(m1, m2), m3)[k] == merge_maps(m1, merge_maps(m2, m3))[k] by {
        if m1.dom().contains(k) && m2.dom().contains(k) && m3.dom().contains(k) {
            lemma_merged_associative(m1[k], m2[k], m3[k]);
        }
    }
    assert(merge_maps(merge_maps(m1, m2), m3) =~= merge_maps(m1, merge_maps(m2, m3)));
}

/// Merging a collection into an empty one leaves every bucket as it was.
pub proof fn lemma_merge_into_empty(m: Map<u64, ParallelSample>)
    ensures
        merge_maps(Map::<u64, ParallelSample>::empty(), m) == m,
{
    assert(merge_maps(Map::<u64, ParallelSample>::empty(), m) =~= m);
}

proof fn lemma_sorted_seq_unique(a: Seq<ParallelSample>, b: Seq<ParallelSample>)
    requires
        forall|i: int, j: int| 0 <= i < j < a.len() ==> a[i].timeslice < a[j].timeslice,
        forall|i: int, j: int| 0 <= i < j < b.len() ==> b[i].timeslice < b[j].timeslice,
        seq_to_map(a) == seq_to_map(b),
    ensures
        a == b,
    decreases a.len(),
{
    lemma_seq_to_map_dom(a);
    lemma_seq_to_map_dom(b);
    if a.len() == 0 {
        if b.len() > 0 {
            assert(b[b.len() - 1].timeslice == b.last().timeslice);
            assert(seq_to_map(b).dom().contains(b.last().timeslice));
            assert(false);
        }
        assert(a =~= b);
    } else if b.len() == 0 {
        assert(a[a.len() - 1].timeslice == a.last().timeslice);
        assert(seq_to_map(a).dom().contains(a.last().timeslice));
        assert(false);
    } else {
        let ka = a.last().timeslice;
        let kb = b.last().timeslice;
        assert forall|j: int| 0 <= j < a.len() && j != a.len() - 1 implies #[trigger] a[j].timeslice
            != ka by {
            assert(a[j].timeslice < a[a.len() - 1].timeslice);
        }
        assert forall|j: int| 0 <= j < b.len() && j != b.len() - 1 implies #[trigger] b[j].timeslice
            != kb by {
            assert(b[j].timeslice < b[b.len() - 1].timeslice);
        }
        lemma_seq_to_map_value(a, a.len() - 1);
        lemma_seq_to_map_value(b, b.len() - 1);
        if ka < kb {
            assert(seq_to_map(a).dom().contains(kb));
            let i = choose|i: int| 0 <= i < a.len() && a[i].timeslice == kb;
            if i < a.len() - 1 {
                assert(a[i].timeslice < ka);
            }
            assert(false);
        }
        if kb < ka {
            assert(seq_to_map(b).dom().contains(ka));
            let i = choose|i: int| 0 <= i < b.len() && b[i].timeslice == ka;
            if i < b.len() - 1 {
                assert(b[i].timeslice < kb);
            }
            assert(false);
        }
        assert(ka == kb);
        assert(a.last() == seq_to_map(a)[ka]);
        assert(b.last() == seq_to_map(b)[ka]);
        assert(a.last() == b.last());
        lemma_seq_to_map_dom(a.drop_last());
        lemma_seq_to_map_dom(b.drop_last());
        assert(!seq_to_map(a.drop_last()).dom().contains(ka)) by {
            if seq_to_map(a.drop_last()).dom().contains(ka) {
                let i = choose|i: int|
                    0 <= i < a.drop_last().len() && a.drop_last()[i].timeslice == ka;
                assert(a[i].timeslice == ka);
            }
        }
        assert(!seq_to_map(b.drop_last()).dom().contains(ka)) by {
            if seq_to_map(b.drop_last()).dom().contains(ka) {
                let i = choose|i: int|
                    0 <= i < b.drop_last().len() && b.drop_last()[i].timeslice == ka;
                assert(b[i].timeslice == ka);
            }
        }
        assert(seq_to_map(a.drop_last()) =~= seq_to_map(a).remove(ka));
        assert(seq_to_map(b.drop_last()) =~= seq_to_map(b).remove(ka));
        assert(forall|i: int, j: int|
            0 <= i < j < a.drop_last().len() ==> a.drop_last()[i].timeslice
                < a.drop_last()[j].timeslice);
        assert(forall|i: int, j: int|
            0 <= i < j < b.drop_last().len() ==> b.drop_last()[i].timeslice
                < b.drop_last()[j].timeslice);
        lemma_sorted_seq_unique(a.drop_last(), b.drop_last());
        assert(a.len() == b.len());
        assert forall|i: int| 0 <= i < a.len() implies a[i] == b[i] by {
            if i < a.len() - 1 {
                assert(a.drop_last()[i] == b.drop_last()[i]);
            } else {
                assert(a[i] == a.last());
            }
        }
        assert(a =~= b);
    }
}

/// A collection is determined by its per-bucket map: two well-formed
/// collections holding the same totals under the same buckets are the same
/// sequence. Merging a collection into an empty one, in particular,
/// reproduces the collection itself, bucket for bucket and in order.
pub proof fn lemma_same_buckets_same_sequence(a: ParallelSamples, b: ParallelSamples)
    requires
        a.wf(),
        b.wf(),
        a.as_map() == b.as_map(),
    ensures
        a.samples@ == b.samples@,
{
    lemma_sorted_seq_unique(a.samples@, b.samples@);
}

/// The merge of a nonempty run of totals, first to last.
pub open spec fn fold_merge(s: Seq<ParallelSample>) -> ParallelSample
    recommends
        s.len() >= 1,
    decreases s.len(),
{
    if s.len() <= 1 {
        s[0]
    } else {
        merged(fold_merge(s.drop_last()), s.last())
    }
}

/// Under a steady workload every worker contributes exactly one sample to a
/// completed bucket, so the bucket's merged sample count is the worker
/// count: scaling the fleet up strictly raises it.
pub proof fn lemma_steady_bucket_sample_count(s: Seq<ParallelSample>)
    requires
        s.len() >= 1,
        s.len() <= u64::MAX,
        forall|i: int| 0 <= i < s.len() ==> #[trigger] s[i].num_samples == 1,
    ensures
        fold_merge(s).num_samples == s.len(),
    decreases s.len(),
{
    if s.len() > 1 {
        lemma_steady_bucket_sample_count(s.drop_last());
    }
}

/// Scaling from `before` workers to strictly more workers and letting every
/// worker deliver one sample of the bucket yields strictly more merged
/// samples per bucket than before.
pub proof fn lemma_scaleup_more_samples(before: Seq<ParallelSample>, after: Seq<ParallelSample>)
    requires
        1 <= before.len() < after.len() <= u64::MAX,
        forall|i: int| 0 <= i < before.len() ==> #[trigger] before[i].num_samples == 1,
        forall|i: int| 0 <= i < after.len() ==> #[trigger] after[i].num_samples == 1,
    ensures
        fold_merge(before).num_samples < fold_merge(after).num_samples,
{
    lemma_steady_bucket_sample_count(before);
    lemma_steady_bucket_sample_count(after);
}

/// Each element of a per-bucket sequence frozen into its result.
pub open spec fn map_results(s: Seq<ParallelSample>) -> Seq<TestResult> {
    s.map_values(|p: ParallelSample| as_testresult_spec(p))
}

/// The results a per-bucket sequence yields for a stability decision: its
/// buckets in order, stopping at the first bucket at or past `prev` (a bucket that may
/// still be filling).
pub open spec fn results_of(s: Seq<ParallelSample>, prev: int) -> Seq<TestResult>
    decreases s.len(),
{
    if s.len() == 0 {
        Seq::empty()
    } else if s[0].timeslice >= prev {
        Seq::empty()
    } else {
        seq![as_testresult_spec(s[0])] + results_of(s.drop_first(), prev)
    }
}

proof fn lemma_results_of_prefix(s: Seq<ParallelSample>, prev: int, i: int)
    requires
        0 <= i <= s.len(),
        forall|j: int| 0 <= j < i ==> s[j].timeslice < prev,
        i < s.len() ==> s[i].timeslice >= prev,
    ensures
        results_of(s, prev) == map_results(s.take(i)),
    decreases s.len(),
{
    if i == 0 {
        assert(s.take(0) =~= Seq::<ParallelSample>::empty());
        assert(map_results(s.take(0)) =~= Seq::<TestResult>::empty());
    } else {
        assert(s[0].timeslice < prev);
        let rest = s.drop_first();
        assert(forall|j: int| 0 <= j < i - 1 ==> rest[j].timeslice < prev);
        lemma_results_of_prefix(rest, prev, i - 1);
        assert(results_of(s, prev) == seq![as_testresult_spec(s[0])] + map_results(
            rest.take(i - 1),
        ));
        assert(results_of(s, prev) =~= map_results(s.take(i)));
    }
}

proof fn lemma_window_tail_push(s: Seq<TestResult>, r: TestResult, max: int)
    requires
        max >= 0,
    ensures
        window_tail(window_tail(s, max).push(r), max) == window_tail(s.push(r), max),
{
    if s.len() <= max {
    } else {
        let w = s.skip(s.len() - max);
        assert(w.len() == max);
        if max == 0 {
            assert(window_tail(w.push(r), max) =~= window_tail(s.push(r), max));
        } else {
            assert(w.push(r).len() == max + 1);
            assert(window_tail(w.push(r), max) =~= w.push(r).skip(1));
            assert(window_tail(s.push(r), max) =~= s.push(r).skip(s.len() + 1 - max));
            assert(w.push(r).skip(1) =~= s.push(r).skip(s.len() + 1 - max));
        }
    }
}

proof fn lemma_seq_to_map_value(s: Seq<ParallelSample>, i: int)
    requires
        0 <= i < s.len(),
        forall|j: int| 0 <= j < s.len() && j != i ==> #[trigger] s[j].timeslice != s[i].timeslice,
    ensures
        seq_to_map(s).dom().contains(s[i].timeslice),
        seq_to_map(s)[s[i].timeslice] == s[i],
    decreases s.len(),
{
    if i == s.len() - 1 {
    } else {
        assert(s.drop_last()[i] == s[i]);
        assert(forall|j: int|
            0 <= j < s.drop_last().len() && j != i ==> #[trigger] s.drop_last()[j].timeslice
                != s.drop_last()[i].timeslice);
        lemma_seq_to_map_value(s.drop_last(), i);
        assert(s[s.len() - 1].timeslice != s[i].timeslice);
    }
}

proof fn lemma_seq_to_map_update(s: Seq<ParallelSample>, i: int, v: ParallelSample)
    requires
        0 <= i < s.len(),
        v.timeslice == s[i].timeslice,
        forall|j: int| 0 <= j < s.len() && j != i ==> #[trigger] s[j].timeslice != v.timeslice,
    ensures
        seq_to_map(s.update(i, v)) == seq_to_map(s).insert(v.timeslice, v),
    decreases s.len(),
{
    let su = s.update(i, v);
    if i == s.len() - 1 {
        assert(su.drop_last() =~= s.drop_last());
        assert(seq_to_map(su) == seq_to_map(s.drop_last()).insert(v.timeslice, v));
        assert(seq_to_map(s).insert(v.timeslice, v) =~= seq_to_map(s.drop_last()).insert(
            v.timeslice,
            v,
        ));
    } else {
        assert(su.drop_last() =~= s.drop_last().update(i, v));
        assert(forall|j: int|
            0 <= j < s.drop_last().len() && j != i ==> #[trigger] s.drop_last()[j].timeslice
                != v.timeslice);
        assert(s.drop_last()[i] == s[i]);
        lemma_seq_to_map_update(s.drop_last(), i, v);
        assert(su.last() == s.last());
        assert(s.last().timeslice != v.timeslice);
        assert(seq_to_map(su) =~= seq_to_map(s).insert(v.timeslice, v));
    }
}

proof fn lemma_seq_to_map_insert(s: Seq<ParallelSample>, i: int, v: ParallelSample)
    requires
        0 <= i <= s.len(),
        forall|j: int| 0 <= j < s.len() ==> #[trigger] s[j].timeslice != v.timeslice,
    ensures
        seq_to_map(s.insert(i, v)) == seq_to_map(s).insert(v.timeslice, v),
    decreases s.len(),
{
    let si = s.insert(i, v);
    if i == s.len() {
        assert(si.drop_last() =~= s);
        assert(si.last() == v);
    } else {
        assert(si.last() == s.last());
        assert(si.drop_last() =~= s.drop_last().insert(i, v));
        assert(forall|j: int|
            0 <= j < s.drop_last().len() ==> #[trigger] s.drop_last()[j].timeslice
                != v.timeslice);
        lemma_seq_to_map_insert(s.drop_last(), i, v);
        assert(s.last().timeslice != v.timeslice);
        assert(seq_to_map(si) =~= seq_to_map(s).insert(v.timeslice, v));
    }
}

proof fn lemma_merge_maps_take_zero(m: Map<u64, ParallelSample>, s: Seq<ParallelSample>)
    ensures
        merge_maps(m, seq_to_map(s.take(0))) == m,
{
    assert(s.take(0) =~= Seq::<ParallelSample>::empty());
    assert(merge_maps(m, seq_to_map(s.take(0))) =~= m);
}

proof fn lemma_map_add_merge(
    m1: Map<u64, ParallelSample>,
    m2: Map<u64, ParallelSample>,
    v: ParallelSample,
)
    requires
        !m2.dom().contains(v.timeslice),
    ensures
        map_add_spec(merge_maps(m1, m2), v) == merge_maps(m1, m2.insert(v.timeslice, v)),
{
    assert(map_add_spec(merge_maps(m1, m2), v) =~= merge_maps(m1, m2.insert(v.timeslice, v)));
}

// ---------------------------------------------------------------------------
// TestResult: one bucket, frozen
// ---------------------------------------------------------------------------

/// One completed bucket's verdict material: fleet transactions per second and
/// mean per-transaction latency in nanoseconds.
#[derive(PartialEq, Eq, Structural, Debug)]
pub struct TestResult {
    /// Fleet-wide transactions per second.
    pub tps: u64,
    /// Mean per-transaction wait, nanoseconds.
    pub latency: u64,
}

impl Clone for TestResult {
    fn clone(&self) -> (res: TestResult)
        ensures
            res == *self,
    {
        TestResult { tps: self.tps, latency: self.latency }
    }
}

impl Copy for TestResult {

}

// ---------------------------------------------------------------------------
// TestResults: a bounded rolling window of bucket results
// ---------------------------------------------------------------------------

/// Sum of the throughput values of a window.
pub open spec fn sum_tps(s: Seq<TestResult>) -> int
    decreases s.len(),
{
    if s.len() == 0 {
        0
    } else {
        sum_tps(s.drop_last()) + s.last().tps
    }
}

/// Sum of the latency values of a window, nanoseconds.
pub open spec fn sum_latency(s: Seq<TestResult>) -> int
    decreases s.len(),
{
    if s.len() == 0 {
        0
    } else {
        sum_latency(s.drop_last()) + s.last().latency
    }
}

/// Arithmetic mean of the window's throughput values; 0 for an empty window.
pub open spec fn mean_tps_spec(s: Seq<TestResult>) -> int {
    if s.len() == 0 {
        0
    } else {
        sum_tps(s) / s.len() as int
    }
}

/// Arithmetic mean of the window's latency values, nanoseconds; 0 for an
/// empty window.
pub open spec fn mean_latency_spec(s: Seq<TestResult>) -> int {
    if s.len() == 0 {
        0
    } else {
        sum_latency(s) / s.len() as int
    }
}

/// The square of an integer.
pub open spec fn sq(x: int) -> int {
    x * x
}

/// A latency deviation from the mean, brought to whole microseconds (the
/// difference is taken in nanoseconds first, then divided).
pub open spec fn lat_diff_us(mean_ns: int, lat_ns: int) -> int {
    magnitude(mean_ns - lat_ns) / 1000
}

/// Sum of squared throughput deviations from `mean`.
pub open spec fn sum_sq_tps(s: Seq<TestResult>, mean: int) -> int
    decreases s.len(),
{
    if s.len() == 0 {
        0
    } else {
        sum_sq_tps(s.drop_last(), mean) + sq(mean - s.last().tps)
    }
}

/// Sum of squared latency deviations from `mean_ns`, in microseconds.
pub open spec fn sum_sq_latency(s: Seq<TestResult>, mean_ns: int) -> int
    decreases s.len(),
{
    if s.len() == 0 {
        0
    } else {
        sum_sq_latency(s.drop_last(), mean_ns) + sq(lat_diff_us(mean_ns, s.last().latency as int))
    }
}

/// What an unsigned value too large for 128 bits saturates to.
pub open spec fn sat_u128(x: int) -> int {
    if x > u128::MAX {
        u128::MAX as int
    } else {
        x
    }
}

/// Population variance of the window's throughput (squared-deviation sum,
/// saturating at 128 bits, divided by the window length).
pub open spec fn variance_tps_spec(s: Seq<TestResult>) -> int {
    if s.len() == 0 {
        0
    } else {
        sat_u128(sum_sq_tps(s, mean_tps_spec(s))) / s.len() as int
    }
}

/// Population variance of the window's latency, in squared microseconds.
pub open spec fn variance_latency_spec(s: Seq<TestResult>) -> int {
    if s.len() == 0 {
        0
    } else {
        sat_u128(sum_sq_latency(s, mean_latency_spec(s))) / s.len() as int
    }
}

/// Integer square root, by the classical digit-pair recursion.
pub open spec fn isqrt_spec(n: int) -> int
    decreases n,
{
    if n <= 0 {
        0
    } else {
        let r = 2 * isqrt_spec(n / 4);
        if sq(r + 1) <= n {
            r + 1
        } else {
            r
        }
    }
}

/// Population standard deviation of the window's throughput.
pub open spec fn stddev_tps_spec(s: Seq<TestResult>) -> int {
    isqrt_spec(variance_tps_spec(s))
}

/// Population standard deviation of the window's latency, microseconds.
pub open spec fn stddev_latency_us_spec(s: Seq<TestResult>) -> int {
    isqrt_spec(variance_latency_spec(s))
}

/// The stability test one statistic must pass: its standard deviation is
/// below `spread` percent of its mean; a zero mean passes exactly when
/// `spread` is positive (the ratio counts as zero then).
pub open spec fn within_spread(mean: int, sd: int, spread: int) -> bool {
    if mean == 0 {
        spread > 0
    } else {
        100 * sd < spread * mean
    }
}

/// When a window justifies declaring stability: it is long enough, and both
/// statistics sit within `spread` percent of their means.
pub open spec fn stable_spec(s: Seq<TestResult>, min: int, spread: int) -> bool {
    &&& s.len() >= min
    &&& s.len() > 0
    &&& within_spread(mean_tps_spec(s), stddev_tps_spec(s), spread)
    &&& within_spread(mean_latency_spec(s) / 1000, stddev_latency_us_spec(s), spread)
}

/// The window after one more result is pushed onto a window already capped
/// at `max`: the oldest result falls out when the cap is passed.
pub open spec fn window_tail(s: Seq<TestResult>, max: int) -> Seq<TestResult> {
    if s.len() <= max {
        s
    } else {
        s.skip(s.len() - max)
    }
}

proof fn lemma_sum_bounds(s: Seq<TestResult>)
    ensures
        0 <= sum_tps(s) <= s.len() * (u64::MAX as int),
        0 <= sum_latency(s) <= s.len() * (u64::MAX as int),
    decreases s.len(),
{
    if s.len() > 0 {
        lemma_sum_bounds(s.drop_last());
        assert((s.len() - 1) * (u64::MAX as int) + u64::MAX == s.len() * (u64::MAX as int))
            by (nonlinear_arith);
    }
}

proof fn lemma_sum_take_step(s: Seq<TestResult>, i: int)
    requires
        0 <= i < s.len(),
    ensures
        sum_tps(s.take(i + 1)) == sum_tps(s.take(i)) + s[i].tps,
        sum_latency(s.take(i + 1)) == sum_latency(s.take(i)) + s[i].latency,
{
    assert(s.take(i + 1).drop_last() =~= s.take(i));
    assert(s.take(i + 1).last() == s[i]);
}

proof fn lemma_sum_sq_take_step(s: Seq<TestResult>, i: int, mean_tps: int, mean_lat: int)
    requires
        0 <= i < s.len(),
    ensures
        sum_sq_tps(s.take(i + 1), mean_tps) == sum_sq_tps(s.take(i), mean_tps) + sq(
            mean_tps - s[i].tps,
        ),
        sum_sq_latency(s.take(i + 1), mean_lat) == sum_sq_latency(s.take(i), mean_lat) + sq(
            lat_diff_us(mean_lat, s[i].latency as int),
        ),
{
    assert(s.take(i + 1).drop_last() =~= s.take(i));
    assert(s.take(i + 1).last() == s[i]);
}

proof fn lemma_sum_sq_nonneg(s: Seq<TestResult>, mean_tps: int, mean_lat: int)
    ensures
        sum_sq_tps(s, mean_tps) >= 0,
        sum_sq_latency(s, mean_lat) >= 0,
    decreases s.len(),
{
    if s.len() > 0 {
        lemma_sum_sq_nonneg(s.drop_last(), mean_tps, mean_lat);
        assert(sq(mean_tps - s.last().tps) >= 0) by (nonlinear_arith);
        assert(sq(lat_diff_us(mean_lat, s.last().latency as int)) >= 0) by {
            assert(magnitude(mean_lat - s.last().latency) >= 0);
            assert(magnitude(mean_lat - s.last().latency) / 1000 >= 0);
            assert(forall|x: int| x >= 0 ==> #[trigger] sq(x) >= 0) by (nonlinear_arith);
        }
    }
}

proof fn lemma_isqrt_bounds(n: int)
    requires
        n >= 0,
    ensures
        sq(isqrt_spec(n)) <= n < sq(isqrt_spec(n) + 1),
        isqrt_spec(n) >= 0,
    decreases n,
{
    if n > 0 {
        lemma_isqrt_bounds(n / 4);
        let r0 = isqrt_spec(n / 4);
        let r = 2 * r0;
        assert(r0 * r0 <= n / 4 < (r0 + 1) * (r0 + 1));
        assert(4 * (n / 4) <= n < 4 * (n / 4) + 4);
        assert(r * r <= n) by (nonlinear_arith)
            requires
                r == 2 * r0,
                r0 * r0 <= n / 4,
                4 * (n / 4) <= n,
        ;
        assert(n < (r + 2) * (r + 2)) by (nonlinear_arith)
            requires
                r == 2 * r0,
                n / 4 < (r0 + 1) * (r0 + 1),
                n < 4 * (n / 4) + 4,
        ;
        assert(sq(r) == r * r);
        assert(sq(r + 2) == (r + 2) * (r + 2));
        let res = isqrt_spec(n);
        assert(res == if sq(r + 1) <= n {
            r + 1
        } else {
            r
        });
        if sq(r + 1) <= n {
            assert(res == r + 1);
            assert(n < sq(res + 1));
        } else {
            assert(res == r);
            assert(n < sq(res + 1));
        }
    } else {
        assert(isqrt_spec(n) == 0);
        assert(sq(0) == 0);
        assert(sq(1) == 1);
    }
}

proof fn lemma_isqrt_unique(n: int, r: int)
    requires
        n >= 0,
        r >= 0,
        sq(r) <= n < sq(r + 1),
    ensures
        r == isqrt_spec(n),
{
    lemma_isqrt_bounds(n);
    let q = isqrt_spec(n);
    if r < q {
        assert(sq(r + 1) <= sq(q)) by (nonlinear_arith)
            requires
                0 <= r < q,
        ;
    } else if q < r {
        assert(sq(q + 1) <= sq(r)) by (nonlinear_arith)
            requires
                0 <= q < r,
        ;
    }
}

/// Integer square root of a 128-bit value: the largest `r` with
/// `r * r <= v`.
fn isqrt_u128(v: u128) -> (r: u64)
    ensures
        r == isqrt_spec(v as int),
{
    let mut lo: u128 = 0;
    let mut hi: u128 = 0x1_0000_0000_0000_0000u128;
    while hi - lo > 1
        invariant
            0 <= lo < hi <= 0x1_0000_0000_0000_0000u128,
            sq(lo as int) <= v as int,
            (v as int) < sq(hi as int),
        decreases hi - lo,
    {
        let mid = lo + (hi - lo) / 2;
        assert(lo < mid < hi);
        assert(sq(mid as int) < sq(0x1_0000_0000_0000_0000u128 as int)) by (nonlinear_arith)
            requires
                0 <= mid < 0x1_0000_0000_0000_0000u128,
        ;
        let mid_sq = mid * mid;
        if mid_sq <= v {
            lo = mid;
        } else {
            hi = mid;
        }
    }
    proof {
        lemma_isqrt_unique(v as int, lo as int);
    }
    lo as u64
}

/// A bounded first-in first-out window of per-bucket results, with the
/// window length required before a verdict may be given (`min`) and the
/// length the window is capped at (`max`).
pub struct TestResults {
    /// Window length required before [`TestResults::verify`] may declare
    /// stability.
    pub min: usize,
    /// Largest window length kept; appending past it drops the oldest
    /// result.
    pub max: usize,
    /// The rolling window, oldest first.
    pub results: Vec<TestResult>,
}

impl TestResults {
    /// The window never holds more than `max` results.
    pub open spec fn wf(self) -> bool {
        self.results@.len() <= self.max
    }

    /// An empty window with the given verdict threshold and cap.
    pub fn new(min: usize, max: usize) -> (res: TestResults)
        ensures
            res.min == min,
            res.max == max,
            res.results@.len() == 0,
            res.wf(),
    {
        TestResults { min, max, results: Vec::new() }
    }

    /// How many results the window holds.
    pub fn len(&self) -> (n: usize)
        ensures
            n == self.results@.len(),
    {
        self.results.len()
    }

    /// Pushes one result, dropping the oldest when the cap is passed.
    pub fn append(&mut self, result: TestResult)
        requires
            old(self).wf(),
        ensures
            final(self).wf(),
            final(self).min == old(self).min,
            final(self).max == old(self).max,
            final(self).results@ == window_tail(
                old(self).results@.push(result),
                old(self).max as int,
            ),
    {
        self.results.push(result);
        if self.results.len() > self.max {
            self.results.remove(0);
            proof {
                assert(self.results@ =~= window_tail(
                    old(self).results@.push(result),
                    old(self).max as int,
                ));
            }
        }
    }

    /// Sum of the window's throughput values, capped at `u64::MAX`.
    pub fn tot_tps(&self) -> (tps: u64)
        ensures
            tps == sat64(sum_tps(self.results@)),
    {
        let (tps_sum, _) = self.sums();
        if tps_sum > u64::MAX as u128 {
            u64::MAX
        } else {
            tps_sum as u64
        }
    }

    /// Mean latency of the window, nanoseconds; 0 for an empty window.
    pub fn avg_latency(&self) -> (latency: u64)
        ensures
            latency == mean_latency_spec(self.results@),
    {
        let n = self.results.len();
        if n == 0 {
            return 0;
        }
        let (_, lat_sum) = self.sums();
        proof {
            lemma_sum_bounds(self.results@);
            vstd::arithmetic::div_mod::lemma_div_is_ordered(
                sum_latency(self.results@),
                self.results@.len() * (u64::MAX as int),
                n as int,
            );
            vstd::arithmetic::div_mod::lemma_div_by_multiple(u64::MAX as int, n as int);
        }
        (lat_sum / (n as u128)) as u64
    }

    /// Both sums of the window, exactly (they fit 128 bits).
    fn sums(&self) -> (res: (u128, u128))
        ensures
            res.0 == sum_tps(self.results@),
            res.1 == sum_latency(self.results@),
    {
        let n = self.results.len();
        let mut tps_sum: u128 = 0;
        let mut lat_sum: u128 = 0;
        let mut i: usize = 0;
        proof {
            assert(self.results@.take(0) =~= Seq::<TestResult>::empty());
        }
        while i < n
            invariant
                0 <= i <= n,
                n == self.results@.len(),
                tps_sum == sum_tps(self.results@.take(i as int)),
                lat_sum == sum_latency(self.results@.take(i as int)),
            decreases n - i,
        {
            proof {
                lemma_sum_take_step(self.results@, i as int);
                lemma_sum_bounds(self.results@.take(i as int));
                assert(self.results@.take(i as int).len() * (u64::MAX as int) <= (n as int) * (
                u64::MAX as int)) by (nonlinear_arith)
                    requires
                        0 <= i <= n,
                        self.results@.take(i as int).len() == i,
                ;
            }
            tps_sum = tps_sum + (self.results[i].tps as u128);
            lat_sum = lat_sum + (self.results[i].latency as u128);
            i = i + 1;
        }
        proof {
            assert(self.results@.take(n as int) =~= self.results@);
        }
        (tps_sum, lat_sum)
    }

    /// The window's mean: throughput and latency averaged over the window.
    /// Defined only for a non-empty window.
    pub fn mean(&self) -> (res: Option<TestResult>)
        ensures
            res is Some <==> self.results@.len() > 0,
            res matches Some(m) ==> m.tps == mean_tps_spec(self.results@) && m.latency
                == mean_latency_spec(self.results@),
    {
        let n = self.results.len();
        if n == 0 {
            return None;
        }
        let (tps_sum, lat_sum) = self.sums();
        proof {
            lemma_sum_bounds(self.results@);
            vstd::arithmetic::div_mod::lemma_div_is_ordered(
                sum_tps(self.results@),
                self.results@.len() * (u64::MAX as int),
                n as int,
            );
            vstd::arithmetic::div_mod::lemma_div_is_ordered(
                sum_latency(self.results@),
                self.results@.len() * (u64::MAX as int),
                n as int,
            );
            vstd::arithmetic::div_mod::lemma_div_by_multiple(u64::MAX as int, n as int);
        }
        let tps = (tps_sum / (n as u128)) as u64;
        let latency = (lat_sum / (n as u128)) as u64;
        Some(TestResult { tps, latency })
    }

    /// Both standard deviations of the window: throughput, and latency in
    /// whole microseconds.
    fn stddevs(&self) -> (res: (u64, u64))
        requires
            self.results@.len() > 0,
        ensures
            res.0 == stddev_tps_spec(self.results@),
            res.1 == stddev_latency_us_spec(self.results@),
    {
        let n = self.results.len();
        let m = match self.mean() {
            Some(m) => m,
            None => {
                return (0, 0);
            },
        };
        let ghost s = self.results@;
        let ghost mean_t = mean_tps_spec(s);
        let ghost mean_l = mean_latency_spec(s);
        let mut acc_t: u128 = 0;
        let mut acc_l: u128 = 0;
        let mut i: usize = 0;
        proof {
            assert(s.take(0) =~= Seq::<TestResult>::empty());
        }
        while i < n
            invariant
                0 <= i <= n,
                n == s.len(),
                s == self.results@,
                m.tps == mean_t,
                m.latency == mean_l,
                acc_t == sat_u128(sum_sq_tps(s.take(i as int), mean_t)),
                acc_l == sat_u128(sum_sq_latency(s.take(i as int), mean_l)),
            decreases n - i,
        {
            let x = self.results[i];
            let dt: u64 = if m.tps >= x.tps {
                m.tps - x.tps
            } else {
                x.tps - m.tps
            };
            let dl_ns: u64 = if m.latency >= x.latency {
                m.latency - x.latency
            } else {
                x.latency - m.latency
            };
            let dl: u64 = dl_ns / 1000;
            proof {
                assert(dt == magnitude(mean_t - x.tps));
                assert(dl == lat_diff_us(mean_l, x.latency as int));
            }
            assert((dt as int) * (dt as int) <= (u64::MAX as int) * (u64::MAX as int))
                by (nonlinear_arith)
                requires
                    0 <= dt <= u64::MAX,
            ;
            assert((dl as int) * (dl as int) <= (u64::MAX as int) * (u64::MAX as int))
                by (nonlinear_arith)
                requires
                    0 <= dl <= u64::MAX,
            ;
            let d2t: u128 = (dt as u128) * (dt as u128);
            let d2l: u128 = (dl as u128) * (dl as u128);
            proof {
                assert(d2t == sq(mean_t - x.tps)) by (nonlinear_arith)
                    requires
                        dt == magnitude(mean_t - x.tps),
                        d2t == (dt as int) * (dt as int),
                ;
                assert(d2l == sq(lat_diff_us(mean_l, x.latency as int))) by (nonlinear_arith)
                    requires
                        dl == lat_diff_us(mean_l, x.latency as int),
                        dl >= 0,
                        d2l == (dl as int) * (dl as int),
                ;
                lemma_sum_sq_take_step(s, i as int, mean_t, mean_l);
                lemma_sum_sq_nonneg(s.take(i as int), mean_t, mean_l);
            }
            acc_t = acc_t.saturating_add(d2t);
            acc_l = acc_l.saturating_add(d2l);
            i = i + 1;
        }
        proof {
            assert(s.take(n as int) =~= s);
            lemma_sum_sq_nonneg(s, mean_t, mean_l);
        }
        let var_t: u128 = acc_t / (n as u128);
        let var_l: u128 = acc_l / (n as u128);
        let sd_t = isqrt_u128(var_t);
        let sd_l = isqrt_u128(var_l);
        (sd_t, sd_l)
    }

    /// Population standard deviation of the window, as a result whose
    /// latency carries the microsecond deviation (in nanoseconds, capped).
    /// Defined only for a non-empty window.
    pub fn std_deviation_absolute(&self) -> (res: Option<TestResult>)
        ensures
            res is Some <==> self.results@.len() > 0,
            res matches Some(sd) ==> sd.tps == stddev_tps_spec(self.results@) && sd.latency
                == sat64(1000 * stddev_latency_us_spec(self.results@)),
    {
        if self.results.len() == 0 {
            return None;
        }
        let (sd_t, sd_l) = self.stddevs();
        let scaled: u128 = 1000u128 * (sd_l as u128);
        let latency: u64 = if scaled > u64::MAX as u128 {
            u64::MAX
        } else {
            scaled as u64
        };
        Some(TestResult { tps: sd_t, latency })
    }

    /// The stability decision: the window's mean, exactly when the window is long
    /// enough and both statistics sit within `spread` percent of their
    /// means.
    pub fn verify(&self, spread: u64) -> (res: Option<TestResult>)
        ensures
            res is Some <==> stable_spec(self.results@, self.min as int, spread as int),
            res matches Some(m) ==> m.tps == mean_tps_spec(self.results@) && m.latency
                == mean_latency_spec(self.results@),
    {
        let n = self.results.len();
        if n < self.min || n == 0 {
            return None;
        }
        let m = match self.mean() {
            Some(m) => m,
            None => {
                return None;
            },
        };
        let (sd_t, sd_l) = self.stddevs();
        proof {
            assert((spread as int) * (m.tps as int) <= (u64::MAX as int) * (u64::MAX as int))
                by (nonlinear_arith)
                requires
                    0 <= spread <= u64::MAX,
                    0 <= m.tps <= u64::MAX,
            ;
            assert((spread as int) * ((m.latency as int) / 1000) <= (u64::MAX as int) * (
            u64::MAX as int)) by (nonlinear_arith)
                requires
                    0 <= spread <= u64::MAX,
                    0 <= (m.latency as int) / 1000 <= u64::MAX,
            ;
        }
        let tps_ok: bool = if m.tps == 0 {
            spread > 0
        } else {
            100u128 * (sd_t as u128) < (spread as u128) * (m.tps as u128)
        };
        let mean_us: u64 = m.latency / 1000;
        let lat_ok: bool = if mean_us == 0 {
            spread > 0
        } else {
            100u128 * (sd_l as u128) < (spread as u128) * (mean_us as u128)
        };
        if tps_ok && lat_ok {
            Some(m)
        } else {
            None
        }
    }
}

} // verus!
