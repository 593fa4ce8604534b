use pg_tps_optimizer::fibonacci::levels;
use pg_tps_optimizer::samples::ParallelSamples;
use pg_tps_optimizer::samples::Sample;
use pg_tps_optimizer::threader::Probe;
use pg_tps_optimizer::threader::THREADS_PER_CONSUMER;
use pg_tps_optimizer::threader::Threader;
use pg_tps_optimizer::threader::WaitOutcome;
use pg_tps_optimizer::threader::drain_wait_ms;
use pg_tps_optimizer::threader::planned_transactions;
use pg_tps_optimizer::dsn::Dsn;
use pg_tps_optimizer::dsn::DsnDefaults;
use pg_tps_optimizer::workload::Workload;

/// An arbitrary bucket index a scenario starts in.
const B: u64 = 8_500_000_000;

/// Nanoseconds per bucket.
const BUCKET_NS: u64 = 200_000_000;

fn plain_workload() -> Workload {
    let defaults = DsnDefaults {
        user: String::from("me"),
        dbname: String::from("db"),
        host: String::from("/tmp"),
        sslmode: String::from("disable"),
        sslcert: String::new(),
        sslkey: String::new(),
        sslrootcert: String::new(),
        sslcrl: String::new(),
    };
    Workload::new(Dsn::new(&defaults), String::new(), false, false)
}

/// One worker's sample of one bucket: `tx` transactions, each waiting
/// `wait_ns_each`, over the bucket's full 200 ms.
fn worker_sample(bucket: u64, tx: u32, wait_ns_each: u64) -> Sample {
    let start = bucket * BUCKET_NS;
    let mut s = Sample::new(start);
    for _ in 0..tx {
        s.increment(wait_ns_each);
    }
    s.end(start + BUCKET_NS);
    s
}

/// A steady fleet: every worker delivers one sample per bucket.
fn fleet_buckets(
    from_bucket: u64,
    num_buckets: u64,
    workers: u32,
    tx_per_worker: u32,
    wait_ns_each: u64,
) -> ParallelSamples {
    let mut pss = ParallelSamples::new();
    for b in from_bucket..(from_bucket + num_buckets) {
        for _ in 0..workers {
            pss.add(worker_sample(b, tx_per_worker, wait_ns_each).to_parallel_sample());
        }
    }
    pss
}

#[test]
fn test_static_latency_four_worker_cap() {
    // Static 1 ms latency, cap 4: the scan probes levels 1, 2, 3, and at
    // each level the fleet stabilizes near 1000 transactions per second per
    // worker with 1000 us latency.
    assert_eq!(levels(1, 4), vec![1, 2, 3]);
    let mut last_tps = 0;
    for &n in levels(1, 4).iter() {
        let mut probe = Probe::new(10, 5, u64::MAX);
        let batch = fleet_buckets(B, 7, n, 200, 1_000_000);
        let now = (B + 8) * BUCKET_NS;
        match probe.step(batch, now) {
            WaitOutcome::Stable(r) => {
                assert_eq!(r.tps, 1000 * n as u64);
                assert_eq!(r.latency, 1_000_000);
                last_tps = r.tps;
            }
            _ => panic!("level did not stabilize"),
        }
    }
    assert_eq!(last_tps, 3000);
}

#[test]
fn test_latency_step_at_higher_concurrency() {
    // Past four concurrent requests the stub's response time steps from
    // 1 ms to 5 ms: at level 5 each worker completes 40 transactions per
    // bucket, the fleet 1000 per second, at 5000 us.
    let mut probe = Probe::new(10, 5, u64::MAX);
    let batch = fleet_buckets(B, 7, 5, 40, 5_000_000);
    let now = (B + 8) * BUCKET_NS;
    match probe.step(batch, now) {
        WaitOutcome::Stable(r) => {
            assert_eq!(r.tps, 1000);
            assert_eq!(r.latency, 5_000_000);
        }
        _ => panic!("level did not stabilize"),
    }
}

#[test]
fn test_transient_failures_lower_tps() {
    // One query in ten fails and its sample is abandoned: the fleet
    // delivers 10% fewer transactions per bucket, the level still
    // stabilizes, and no bucket is lost.
    let mut probe = Probe::new(10, 5, u64::MAX);
    let batch = fleet_buckets(B, 7, 2, 180, 1_000_000);
    let now = (B + 8) * BUCKET_NS;
    match probe.step(batch, now) {
        WaitOutcome::Stable(r) => {
            assert_eq!(r.tps, 1800);
        }
        _ => panic!("level did not stabilize"),
    }
}

#[test]
fn test_timeout_path_returns_best_effort_mean() {
    // Jitter keeps the throughput spread above the allowed 10 percent, so
    // stability is never declared; once enough steps have passed and the
    // deadline is behind, the best-effort mean comes back instead.
    let now = (B + 8) * BUCKET_NS;
    let mut probe = Probe::new(10, 5, now - 1);
    let mut batch = ParallelSamples::new();
    for b in B..(B + 7) {
        let tx = if (b - B) % 2 == 0 { 200 } else { 260 };
        batch.add(worker_sample(b, tx, 1_000_000).to_parallel_sample());
    }
    match probe.step(batch, now) {
        WaitOutcome::Pending => {}
        _ => panic!("expected to keep collecting after the first step"),
    }
    for step in 2..5u64 {
        match probe.step(ParallelSamples::new(), now) {
            WaitOutcome::Pending => {}
            _ => panic!("expected to keep collecting at step {}", step),
        }
    }
    match probe.step(ParallelSamples::new(), now) {
        WaitOutcome::Unstable(Some(m)) => {
            // The window holds the last six buckets: 1300, 1000, 1300,
            // 1000, 1300, 1000.
            assert_eq!(m.tps, 1150);
            assert_eq!(m.latency / 1000, 1000);
        }
        _ => panic!("expected the deadline verdict"),
    }
}

#[test]
fn test_consumer_slots_round_up() {
    // One slot for every started group of ten workers, plus one.
    let t = Threader::new(15, plain_workload());
    assert_eq!(t.max_workers, 3);
    let t = Threader::new(20, plain_workload());
    assert_eq!(t.max_workers, 3);
    // A cap below 1 stands for 1000.
    let t = Threader::new(0, plain_workload());
    assert_eq!(t.max_workers, 101);
}

#[test]
fn test_scaleup_distributes_over_consumers() {
    let mut t = Threader::new(100, plain_workload());
    assert_eq!(t.max_workers, 11);
    let plans = t.scaleup(13);
    assert_eq!(t.num_workers, 13);
    let total: u32 = plans.iter().map(|p| p.count).sum();
    assert_eq!(total, 13);
    assert_eq!(plans.len(), 2);
    assert_eq!(plans[0].consumer, 0);
    assert_eq!(plans[0].first_worker, 0);
    assert_eq!(plans[0].count, THREADS_PER_CONSUMER);
    assert!(plans[0].new_consumer);
    assert_eq!(plans[1].consumer, 1);
    assert_eq!(plans[1].first_worker, 10);
    assert_eq!(plans[1].count, 3);
    // Scaling further first tops up the last consumer.
    let plans = t.scaleup(21);
    assert_eq!(t.num_workers, 21);
    let total: u32 = plans.iter().map(|p| p.count).sum();
    assert_eq!(total, 8);
    assert_eq!(plans[0].consumer, 1);
    assert!(!plans[0].new_consumer);
    assert_eq!(plans[0].first_worker, 13);
    assert_eq!(plans[0].count, 7);
}

#[test]
fn test_cancellation_drain_budget() {
    // After scaling to 13 workers the controller cancels mid-level: the
    // drain wait it grants, about 10 ms per worker, stays within the 200 ms
    // the scenario allows for the fleet to terminate.
    let mut t = Threader::new(100, plain_workload());
    t.scaleup(13);
    assert_eq!(drain_wait_ms(t.num_workers as u32), 130);
    assert!(drain_wait_ms(t.num_workers as u32) < 200);
}

#[test]
fn test_planned_transactions_floor() {
    // A throughput estimate below 10 still plans one transaction.
    assert_eq!(planned_transactions(0), 1);
    assert_eq!(planned_transactions(9), 1);
    assert_eq!(planned_transactions(10), 1);
    assert_eq!(planned_transactions(1000), 100);
}

#[test]
fn test_empty_query_iteration_still_samples() {
    // An empty query on a non-transactional workload degenerates to a
    // zero-duration loop; the sealed sample still counts its transactions.
    let w = plain_workload();
    assert_eq!(w.statement(), "update pg_tps_optimizer set id=$1 where id=$1");
    let n = planned_transactions(5);
    assert!(n >= 1);
    let start = B * BUCKET_NS;
    let mut s = Sample::new(start);
    for _ in 0..n {
        s.increment(0);
    }
    s.end(start);
    let p = s.to_parallel_sample();
    assert!(p.total_transactions > 0);
    assert_eq!(p.total_duration, 0);
    // The zero-length interval falls back to the raw transaction count.
    assert_eq!(p.tot_tps(), p.total_transactions);
}
