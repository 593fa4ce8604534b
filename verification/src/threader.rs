//! The controller's bookkeeping: how many workers each consumer owns, how a
//! scale-up distributes new workers over the consumer fleet, what each
//! worker plans per iteration, and the per-level stability wait — one
//! decision step per batch of fan-in, deciding between "stable", "deadline
//! passed" and "keep collecting".
//!
//! Thread spawning, channels and sleeps live outside; the plans and verdicts
//! computed here tell that outer layer exactly what to do.

use vstd::prelude::*;
use crate::samples::ParallelSamples;
use crate::samples::TestResult;
use crate::samples::mean_latency_spec;
use crate::samples::mean_tps_spec;
use crate::samples::merge_maps;
use crate::samples::results_of;
use crate::samples::stable_spec;
use crate::samples::timeslice;
use crate::samples::timeslice_spec;
use crate::samples::window_tail;
use crate::workload::Workload;

verus! {

/// How many workers one consumer aggregates at most.
pub const THREADS_PER_CONSUMER: u32 = 10;

/// How many incoming messages a consumer coalesces, per owned worker, before
/// it forwards one combined message upstream.
pub const SCALEDOWNFACTOR: u32 = 10;

/// One consumer's bookkeeping: its position in the fleet and how many
/// workers it owns.
#[derive(Clone, Copy, PartialEq, Eq, Structural, Debug)]
pub struct Consumer {
    /// Position in the fleet; fixes the worker-id range this consumer hands
    /// out.
    pub id: u32,
    /// Workers currently owned.
    pub num_threads: u32,
}

/// A spawn instruction a scale-up hands back: which workers to start under
/// which consumer.
#[derive(Clone, Copy, PartialEq, Eq, Structural, Debug)]
pub struct SpawnPlan {
    /// Index of the consumer that owns the new workers.
    pub consumer: usize,
    /// Whether that consumer itself is new.
    pub new_consumer: bool,
    /// Id of the first worker to start.
    pub first_worker: u32,
    /// How many workers to start.
    pub count: u32,
}

impl Consumer {
    /// A consumer never owns more workers than its cap.
    pub open spec fn wf(self) -> bool {
        self.num_threads <= THREADS_PER_CONSUMER
    }

    /// A fresh consumer owning no worker yet.
    pub fn new(id: u32) -> (c: Consumer)
        ensures
            c.id == id,
            c.num_threads == 0,
            c.wf(),
    {
        Consumer { id, num_threads: 0 }
    }

    /// Takes as many of `extra_threads` new workers as the cap leaves room
    /// for and hands back the worker-id range to start plus the leftover the
    /// caller must place elsewhere.
    pub fn scaleup(&mut self, extra_threads: u32) -> (res: (u32, u32, u32))
        requires
            old(self).wf(),
            old(self).id * THREADS_PER_CONSUMER + THREADS_PER_CONSUMER <= u32::MAX,
            old(self).num_threads + extra_threads <= u32::MAX,
        ensures
            final(self).id == old(self).id,
            final(self).wf(),
            ({
                let spawned = if old(self).num_threads + extra_threads > THREADS_PER_CONSUMER {
                    THREADS_PER_CONSUMER - old(self).num_threads
                } else {
                    extra_threads as int
                };
                &&& res.0 == old(self).id * THREADS_PER_CONSUMER + old(self).num_threads
                &&& res.1 == spawned
                &&& res.2 == extra_threads - spawned
                &&& final(self).num_threads == old(self).num_threads + spawned
            }),
            res.2 > 0 ==> final(self).num_threads == THREADS_PER_CONSUMER,
    {
        let mut leftover: u32 = 0;
        if self.num_threads + extra_threads > THREADS_PER_CONSUMER {
            leftover = self.num_threads + extra_threads - THREADS_PER_CONSUMER;
        }
        let spawned = extra_threads - leftover;
        let first = self.id * THREADS_PER_CONSUMER + self.num_threads;
        self.num_threads = self.num_threads + spawned;
        (first, spawned, leftover)
    }
}

/// Sum of the workers the consumers own.
pub open spec fn sum_threads(s: Seq<Consumer>) -> int
    decreases s.len(),
{
    if s.len() == 0 {
        0
    } else {
        sum_threads(s.drop_last()) + s.last().num_threads
    }
}

/// What one spawn instruction says, against the consumer fleet before and
/// after the scale-up: a plan on an existing consumer tops that consumer up
/// in place, a plan on a new consumer fills a freshly opened one, and the
/// new worker ids start right after the workers the consumer already had —
/// so worker id 0 is handed out exactly once, by the first consumer's first
/// spawn.
pub open spec fn plan_pinned(before: Seq<Consumer>, after: Seq<Consumer>, p: SpawnPlan) -> bool {
    let c = p.consumer as int;
    let had: int = if p.new_consumer {
        0
    } else {
        before[c].num_threads as int
    };
    &&& (p.new_consumer <==> c >= before.len())
    &&& 0 < p.count
    &&& c < after.len()
    &&& p.first_worker == c * THREADS_PER_CONSUMER + had
    &&& after[c].num_threads == had + p.count
}

/// Sum of the workers a list of spawn instructions starts.
pub open spec fn sum_plans(s: Seq<SpawnPlan>) -> int
    decreases s.len(),
{
    if s.len() == 0 {
        0
    } else {
        sum_plans(s.drop_last()) + s.last().count
    }
}

proof fn lemma_sum_threads_full(s: Seq<Consumer>)
    requires
        forall|i: int| 0 <= i < s.len() ==> #[trigger] s[i].num_threads == THREADS_PER_CONSUMER,
    ensures
        sum_threads(s) == s.len() * (THREADS_PER_CONSUMER as int),
    decreases s.len(),
{
    if s.len() > 0 {
        lemma_sum_threads_full(s.drop_last());
        assert((s.len() - 1) * (THREADS_PER_CONSUMER as int) + THREADS_PER_CONSUMER == s.len() * (
        THREADS_PER_CONSUMER as int)) by (nonlinear_arith);
    }
}

/// The controller's fleet bookkeeping: the target it was sized for, the
/// consumers it owns and the worker total they carry.
pub struct Threader {
    /// Workers currently running, always the sum over the consumers.
    pub num_workers: usize,
    /// Consumer slots available.
    pub max_workers: usize,
    /// The job description every new worker gets a duplicate of.
    pub workload: Workload,
    /// The consumer fleet; every consumer but the last is full.
    pub consumers: Vec<Consumer>,
}

impl Threader {
    /// The fleet invariant: consumer ids are their positions, every
    /// consumer respects its cap, every consumer but the last is full, no
    /// more consumers than slots, and the worker total is the sum over the
    /// consumers.
    pub open spec fn wf(self) -> bool {
        &&& forall|i: int|
            0 <= i < self.consumers@.len() ==> (#[trigger] self.consumers@[i]).wf()
                && self.consumers@[i].id == i
        &&& forall|i: int|
            0 <= i < self.consumers@.len() - 1 ==> (#[trigger] self.consumers@[i]).num_threads
                == THREADS_PER_CONSUMER
        &&& self.consumers@.len() <= self.max_workers
        &&& sum_threads(self.consumers@) == self.num_workers
    }

    /// Sizes the fleet for a worker cap: one consumer slot for every started
    /// group of workers — the cap divided by the group size, rounded up —
    /// plus one; a cap below 1 stands for 1000.
    pub fn new(max_workers: usize, workload: Workload) -> (t: Threader)
        ensures
            t.wf(),
            t.num_workers == 0,
            t.consumers@.len() == 0,
            t.max_workers == ((if max_workers < 1 {
                1000int
            } else {
                max_workers as int
            }) + THREADS_PER_CONSUMER - 1) / (THREADS_PER_CONSUMER as int) + 1,
            t.workload == workload,
    {
        let mut cap = max_workers;
        if cap < 1 {
            cap = 1000;
        }
        let mut slots = cap / (THREADS_PER_CONSUMER as usize) + 1;
        if cap % (THREADS_PER_CONSUMER as usize) != 0 {
            slots = slots + 1;
        }
        proof {
            let c = cap as int;
            let q = c / (THREADS_PER_CONSUMER as int);
            let r = c % (THREADS_PER_CONSUMER as int);
            vstd::arithmetic::div_mod::lemma_fundamental_div_mod(c, THREADS_PER_CONSUMER as int);
            if r == 0 {
                vstd::arithmetic::div_mod::lemma_div_multiples_vanish_fancy(
                    q,
                    THREADS_PER_CONSUMER - 1,
                    THREADS_PER_CONSUMER as int,
                );
                assert((c + THREADS_PER_CONSUMER - 1) / (THREADS_PER_CONSUMER as int) == q);
            } else {
                vstd::arithmetic::div_mod::lemma_div_multiples_vanish_fancy(
                    q + 1,
                    r - 1,
                    THREADS_PER_CONSUMER as int,
                );
                assert((THREADS_PER_CONSUMER as int) * (q + 1) + (r - 1) == c
                    + THREADS_PER_CONSUMER - 1);
                assert((c + THREADS_PER_CONSUMER - 1) / (THREADS_PER_CONSUMER as int) == q + 1);
            }
        }
        Threader { num_workers: 0, max_workers: slots, workload, consumers: Vec::new() }
    }

    /// Raises the worker total to `new_workers`: tops up the last consumer,
    /// then opens new consumers for what is left, and hands back the spawn
    /// instructions the caller must carry out. The plans pin the outcome
    /// completely: the first plan tops up the old last consumer (or opens
    /// the first new one), each further plan opens the next consumer in
    /// line, and every plan names exactly the worker-id range its consumer
    /// hands out.
    pub fn scaleup(&mut self, new_workers: u32) -> (plans: Vec<SpawnPlan>)
        requires
            old(self).wf(),
            old(self).num_workers <= new_workers,
            new_workers <= old(self).max_workers * (THREADS_PER_CONSUMER as int),
            old(self).max_workers * (THREADS_PER_CONSUMER as int) + THREADS_PER_CONSUMER
                <= u32::MAX,
        ensures
            final(self).wf(),
            final(self).num_workers == new_workers,
            final(self).max_workers == old(self).max_workers,
            final(self).workload == old(self).workload,
            sum_plans(plans@) == new_workers - old(self).num_workers,
            forall|k: int|
                0 <= k < plans@.len() ==> (#[trigger] plans@[k]).consumer
                    < final(self).consumers@.len() && plans@[k].count <= THREADS_PER_CONSUMER,
            forall|i: int|
                0 <= i < old(self).consumers@.len() - 1 ==> final(self).consumers@[i] == old(
                    self,
                ).consumers@[i],
            plans@.len() == 0 ==> final(self).consumers@ == old(self).consumers@,
            plans@.len() > 0 ==> final(self).consumers@.len() == plans@[plans@.len()
                - 1].consumer + 1,
            plans@.len() > 0 ==> plans@[0].consumer == (if plans@[0].new_consumer {
                old(self).consumers@.len() as int
            } else {
                old(self).consumers@.len() - 1
            }),
            forall|k: int|
                1 <= k < plans@.len() ==> (#[trigger] plans@[k]).consumer == plans@[k
                    - 1].consumer + 1 && plans@[k].new_consumer,
            forall|k: int|
                0 <= k < plans@.len() ==> plan_pinned(
                    old(self).consumers@,
                    final(self).consumers@,
                    #[trigger] plans@[k],
                ),
    {
        let mut plans: Vec<SpawnPlan> = Vec::new();
        let mut extra: u32 = new_workers - (self.num_workers as u32);
        let ghost target = new_workers;
        if self.consumers.len() > 0 {
            let last = self.consumers.len() - 1;
            let mut c = self.consumers[last];
            let (first, spawned, leftover) = c.scaleup(extra);
            let ghost before = self.consumers@;
            self.consumers[last] = c;
            proof {
                assert(self.consumers@ =~= before.update(last as int, c));
                assert(self.consumers@.drop_last() =~= before.drop_last());
                assert(sum_threads(self.consumers@) == sum_threads(before) + spawned);
                if spawned == 0 {
                    assert(c == before[last as int]);
                    assert(self.consumers@ =~= before);
                }
            }
            if spawned > 0 {
                plans.push(
                    SpawnPlan {
                        consumer: last,
                        new_consumer: false,
                        first_worker: first,
                        count: spawned,
                    },
                );
                proof {
                    assert(plans@.drop_last() =~= Seq::<SpawnPlan>::empty());
                    assert(sum_plans(plans@.drop_last()) == 0);
                    assert(sum_plans(plans@) == spawned);
                    assert(plan_pinned(before, self.consumers@, plans@[0]));
                }
            }
            extra = leftover;
        }
        while extra > 0 && self.consumers.len() < self.max_workers
            invariant
                self.max_workers == old(self).max_workers,
                self.workload == old(self).workload,
                self.num_workers == old(self).num_workers,
                self.consumers@.len() <= self.max_workers,
                forall|i: int|
                    0 <= i < self.consumers@.len() ==> (#[trigger] self.consumers@[i]).wf()
                        && self.consumers@[i].id == i,
                forall|i: int|
                    0 <= i < self.consumers@.len() - 1 ==> (
                    #[trigger] self.consumers@[i]).num_threads == THREADS_PER_CONSUMER,
                extra > 0 ==> forall|i: int|
                    0 <= i < self.consumers@.len() ==> (#[trigger] self.consumers@[i]).num_threads
                        == THREADS_PER_CONSUMER,
                sum_threads(self.consumers@) == target - extra,
                sum_plans(plans@) == target - old(self).num_workers - extra,
                target == new_workers,
                new_workers <= self.max_workers * (THREADS_PER_CONSUMER as int),
                self.max_workers * (THREADS_PER_CONSUMER as int) + THREADS_PER_CONSUMER
                    <= u32::MAX,
                forall|k: int|
                    0 <= k < plans@.len() ==> (#[trigger] plans@[k]).consumer
                        < self.consumers@.len() && plans@[k].count <= THREADS_PER_CONSUMER,
                self.consumers@.len() >= old(self).consumers@.len(),
                forall|i: int|
                    0 <= i < old(self).consumers@.len() - 1 ==> self.consumers@[i] == old(
                        self,
                    ).consumers@[i],
                plans@.len() == 0 ==> self.consumers@ == old(self).consumers@,
                plans@.len() > 0 ==> self.consumers@.len() == plans@[plans@.len() - 1].consumer
                    + 1,
                plans@.len() > 0 ==> plans@[0].consumer == (if plans@[0].new_consumer {
                    old(self).consumers@.len() as int
                } else {
                    old(self).consumers@.len() - 1
                }),
                forall|k: int|
                    1 <= k < plans@.len() ==> (#[trigger] plans@[k]).consumer == plans@[k
                        - 1].consumer + 1 && plans@[k].new_consumer,
                forall|k: int|
                    0 <= k < plans@.len() ==> plan_pinned(
                        old(self).consumers@,
                        self.consumers@,
                        #[trigger] plans@[k],
                    ),
            decreases extra,
        {
            let id = self.consumers.len();
            let mut c = Consumer::new(id as u32);
            proof {
                assert((id as int) * (THREADS_PER_CONSUMER as int) + THREADS_PER_CONSUMER <= (
                self.max_workers as int) * (THREADS_PER_CONSUMER as int) + THREADS_PER_CONSUMER)
                    by (nonlinear_arith)
                    requires
                        0 <= id < self.max_workers,
                        THREADS_PER_CONSUMER > 0,
                ;
            }
            let (first, spawned, leftover) = c.scaleup(extra);
            let ghost before = self.consumers@;
            let ghost before_plans = plans@;
            self.consumers.push(c);
            plans.push(
                SpawnPlan { consumer: id, new_consumer: true, first_worker: first, count: spawned },
            );
            proof {
                assert(self.consumers@.drop_last() =~= before);
                assert(plans@.drop_last() =~= before_plans);
                assert(sum_threads(self.consumers@) == sum_threads(before) + c.num_threads);
                assert(sum_plans(plans@) == sum_plans(before_plans) + spawned);
                let new_plan = plans@[plans@.len() - 1];
                assert(new_plan.consumer == id);
                assert(plan_pinned(old(self).consumers@, self.consumers@, new_plan));
                assert forall|k: int| 0 <= k < plans@.len() - 1 implies plan_pinned(
                    old(self).consumers@,
                    self.consumers@,
                    #[trigger] plans@[k],
                ) by {
                    assert(plans@[k] == before_plans[k]);
                    assert(plans@[k].consumer < before.len());
                    assert(self.consumers@[plans@[k].consumer as int] == before[plans@[k].consumer
                        as int]);
                }
            }
            extra = leftover;
        }
        proof {
            if extra > 0 {
                assert(self.consumers@.len() == self.max_workers);
                lemma_sum_threads_full(self.consumers@);
                assert(sum_threads(self.consumers@) == (self.max_workers as int) * (
                THREADS_PER_CONSUMER as int));
                assert(false);
            }
        }
        self.num_workers = new_workers as usize;
        plans
    }
}

/// How many transactions a worker plans for one iteration: a tenth of its
/// live throughput estimate — about 100 ms of work — but never less than
/// one.
pub fn planned_transactions(tps_estimate: u64) -> (n: u64)
    ensures
        n == if tps_estimate / 10 < 1 {
            1int
        } else {
            tps_estimate as int / 10
        },
        n >= 1,
{
    let n = tps_estimate / 10;
    if n < 1 {
        1
    } else {
        n
    }
}

/// How long a shutdown waits for in-flight transactions to drain: about
/// 10 ms per running worker.
pub fn drain_wait_ms(num_workers: u32) -> (ms: u64)
    ensures
        ms == num_workers * 10,
{
    (num_workers as u64) * 10
}

/// The per-level stability wait: an accumulator of everything the fan-in
/// delivered at this concurrency level, and the parameters of the verdict.
pub struct Probe {
    /// Everything received at this level, merged by bucket.
    pub samples: ParallelSamples,
    /// Decision steps taken so far.
    pub iterations: u64,
    /// Largest allowed relative standard deviation, percent.
    pub spread: u64,
    /// Window length required before stability may be declared.
    pub count: usize,
    /// Hard deadline for this level, nanoseconds since the Unix epoch.
    pub deadline_ns: u64,
}

/// What one decision step concludes.
#[derive(Clone, Copy, PartialEq, Eq, Structural, Debug)]
pub enum WaitOutcome {
    /// Keep collecting.
    Pending,
    /// The level is stable; the window's mean is the level's result.
    Stable(TestResult),
    /// The deadline passed first; the best-effort mean, when the window
    /// holds anything.
    Unstable(Option<TestResult>),
}

/// The verdict window a probe sees at `now_ns`: its completed buckets, in
/// order, in a window capped one past the required length.
pub open spec fn probe_window(p: Probe, now_ns: int) -> Seq<TestResult> {
    window_tail(
        results_of(p.samples.samples@, timeslice_spec(now_ns) - 1),
        p.count as int + 1,
    )
}

impl Probe {
    /// The accumulator is well formed.
    pub open spec fn wf(self) -> bool {
        self.samples.wf()
    }

    /// A fresh wait for one concurrency level.
    pub fn new(spread: u64, count: usize, deadline_ns: u64) -> (p: Probe)
        ensures
            p.wf(),
            p.samples.samples@.len() == 0,
            p.iterations == 0,
            p.spread == spread,
            p.count == count,
            p.deadline_ns == deadline_ns,
    {
        Probe {
            samples: ParallelSamples::new(),
            iterations: 0,
            spread,
            count,
            deadline_ns,
        }
    }

    /// One decision step: merge what the fan-in delivered, rebuild the
    /// verdict window from the completed buckets, and decide — stable with
    /// the window's mean, past the deadline with the best-effort mean, or
    /// keep collecting.
    pub fn step(&mut self, batch: ParallelSamples, now_ns: u64) -> (res: WaitOutcome)
        requires
            old(self).wf(),
            batch.wf(),
            now_ns >= 200_000_000,
            old(self).iterations < u64::MAX,
            old(self).count < usize::MAX,
        ensures
            final(self).wf(),
            final(self).spread == old(self).spread,
            final(self).count == old(self).count,
            final(self).deadline_ns == old(self).deadline_ns,
            final(self).iterations == old(self).iterations + 1,
            final(self).samples.as_map() == merge_maps(
                old(self).samples.as_map(),
                batch.as_map(),
            ),
            ({
                let w = probe_window(*final(self), now_ns as int);
                let stable = stable_spec(w, old(self).count as int, old(self).spread as int);
                let expired = old(self).iterations + 1 >= old(self).count && now_ns > old(
                    self,
                ).deadline_ns;
                &&& (res is Stable) <==> stable
                &&& (res matches WaitOutcome::Stable(r) ==> r.tps == mean_tps_spec(w) && r.latency
                    == mean_latency_spec(w))
                &&& (res is Unstable) <==> (!stable && expired)
                &&& (res matches WaitOutcome::Unstable(o) ==> ((o is Some <==> w.len() > 0) && (
                o matches Some(m) ==> m.tps == mean_tps_spec(w) && m.latency == mean_latency_spec(
                    w,
                ))))
                &&& (res is Pending) <==> (!stable && !expired)
            }),
    {
        self.iterations = self.iterations + 1;
        let merged = self.samples.clone().append(batch);
        self.samples = merged;
        let current = timeslice(now_ns);
        proof {
            vstd::arithmetic::div_mod::lemma_div_is_ordered(
                200_000_000,
                now_ns as int,
                1_000_000,
            );
            vstd::arithmetic::div_mod::lemma_div_is_ordered(
                200,
                now_ns as int / 1_000_000,
                200,
            );
        }
        let results = self.samples.as_results(self.count, self.count + 1, current);
        match results.verify(self.spread) {
            Some(r) => WaitOutcome::Stable(r),
            None => {
                if self.iterations >= (self.count as u64) && now_ns > self.deadline_ns {
                    WaitOutcome::Unstable(results.mean())
                } else {
                    WaitOutcome::Pending
                }
            },
        }
    }
}

} // verus!
