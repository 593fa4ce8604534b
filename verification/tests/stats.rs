use pg_tps_optimizer::samples::ParallelSample;
use pg_tps_optimizer::samples::ParallelSamples;
use pg_tps_optimizer::samples::Sample;
use pg_tps_optimizer::samples::percent_of;

const NUM_TRANSACTIONS: usize = 36;
const NUM_THREADS: usize = 88;
const TIMESLICES_PER_SECOND: usize = 5;
const NUM_TIMESLICES: usize = 10;
const WAIT_NS: u64 = 5_000_000;

/// An arbitrary instant, nanoseconds since the Unix epoch.
const T0: u64 = 1_700_000_000_000_000_000;

fn create_test_sample(num_transaction: usize, wait_ns: u64) -> Sample {
    let mut sample = Sample::new(T0);
    for _ in 1..num_transaction {
        sample.increment(wait_ns);
    }
    sample.end(T0 + 200_000_000);
    sample
}

fn create_test_parasample(sample: Sample, num_threads: usize) -> ParallelSample {
    let mut ps = sample.to_parallel_sample();
    for _ in 1..num_threads {
        ps.add(sample.to_parallel_sample()).unwrap();
    }
    ps
}

fn create_test_parasamples(
    mut ps: ParallelSample,
    from_ts: u64,
    num_ts: usize,
    increase: u64,
) -> ParallelSamples {
    let mut pps = ParallelSamples::new();
    for slice in from_ts..(from_ts + num_ts as u64) {
        ps.timeslice = slice;
        ps.num_samples += increase;
        pps.add(ps.clone());
    }
    pps
}

#[test]
fn test_percent_of() {
    assert_eq!(percent_of(0, 50), 0);
    assert_eq!(percent_of(50, 50), 100);
    assert_eq!(percent_of(100, 50), 50);
    assert_eq!(percent_of(-100, 50), -50);
    assert_eq!(percent_of(-100, -50), 50);
    assert_eq!(percent_of(-10, -50), 500);
}

#[test]
fn test_sample() {
    let sample = create_test_sample(NUM_TRANSACTIONS, WAIT_NS);
    let s_tps = sample.clone().tps();
    assert!(s_tps < 180);

    let ms = sample.to_parallel_sample();
    assert_eq!(s_tps, ms.tot_tps());
    assert_eq!(ms.avg_latency() / 1000, 5000);
}

#[test]
fn test_parallel_sample() {
    let sample = create_test_sample(NUM_TRANSACTIONS, WAIT_NS);
    let ps = create_test_parasample(sample, NUM_THREADS);
    let mut other = ps.clone();
    other.timeslice += 1;
    assert_eq!(
        other.add(ps).unwrap_err(),
        "trying to combine samples of different timeslices"
    );
    let percent = percent_of(
        ps.tot_tps() as i64,
        (NUM_TRANSACTIONS * NUM_THREADS * TIMESLICES_PER_SECOND) as i64,
    );
    assert!(90 <= percent && percent < 110);
    let avg_latency = ps.avg_latency() / 1000;
    assert!(avg_latency <= 5010 && avg_latency > 4990);
}

#[test]
fn test_parallel_samples() {
    let sample = create_test_sample(NUM_TRANSACTIONS, WAIT_NS);
    let ps = create_test_parasample(sample, NUM_THREADS);
    let mut other = ps.clone();
    other.timeslice += 1;
    let mut pss = ParallelSamples::new();
    pss.add(ps);
    let mut other_pss = ParallelSamples::new();
    other_pss.add(other);
    pss = pss.clone().append(other_pss);
    assert_eq!(pss.len(), 2);
}

#[test]
fn test_results() {
    let expected_tps = (NUM_TRANSACTIONS * NUM_THREADS * TIMESLICES_PER_SECOND) as u64;
    let expected_latency_us: u64 = WAIT_NS / 1000;
    // A synthetic "now": the bucket index the wall clock would be in.
    let current: u64 = T0 / 1_000_000 / 200;
    let sample = create_test_parasample(
        create_test_sample(NUM_TRANSACTIONS, WAIT_NS),
        NUM_THREADS,
    );
    let mut pps = create_test_parasamples(sample, current, NUM_TIMESLICES, 10);
    let mut results = pps.as_results(1, NUM_TIMESLICES, current);
    // Starting at the current timeslice, nothing is complete yet.
    assert_eq!(results.len(), 0);
    assert_eq!(results.tot_tps(), 0);
    assert_eq!(results.avg_latency(), 0);

    pps = create_test_parasamples(sample, current - 20, NUM_TIMESLICES + 1, 1);
    results = pps.as_results(100, NUM_TIMESLICES, current);
    assert_eq!(results.len(), NUM_TIMESLICES);
    let avg_tps = results.tot_tps() / results.len() as u64;
    let mut percent = percent_of(avg_tps as i64, expected_tps as i64);
    assert!(90 <= percent && percent < 110);
    percent = percent_of(
        (results.avg_latency() / 1000) as i64,
        expected_latency_us as i64,
    );
    assert!(90 <= percent && percent < 110);
    assert!(results.verify(5).is_none());
    results.min = 1;
    let mean = results.mean().unwrap();
    println!("mean: {} {}", mean.tps, mean.latency / 1_000_000);
    assert!(mean.tps > 0);
    assert!(mean.latency / 1_000_000 > 0);
    let stdev = results.std_deviation_absolute().unwrap();
    println!("stdev: {} {}", stdev.tps, stdev.latency / 1_000_000);
    assert!(results.verify(5).is_some());
    let mean = results.mean().unwrap().clone();
    percent = percent_of(mean.tps as i64, expected_tps as i64);
    assert!(90 <= percent && percent < 110);
    percent = percent_of(
        (mean.latency / 1000) as i64,
        expected_latency_us as i64,
    );
    assert!(90 <= percent && percent < 110);
}

#[test]
fn test_timeslice_of_sample() {
    // A sample lands in the bucket of its start instant: floor(start_ms / 200).
    let mut s = Sample::new(T0);
    s.increment(1_000);
    s.end(T0 + 300_000_000);
    let p = s.to_parallel_sample();
    assert_eq!(p.timeslice, (T0 / 1_000_000) / 200);
    assert_eq!(p.num_samples, 1);
    assert_eq!(p.total_transactions, 1);
}

#[test]
fn test_append_to_empty_keeps_buckets() {
    // Merging a collection into an empty one keeps every bucket as it was.
    let sample = create_test_sample(NUM_TRANSACTIONS, WAIT_NS);
    let mut pss = ParallelSamples::new();
    pss.add(sample.to_parallel_sample());
    let mut shifted = sample.to_parallel_sample();
    shifted.timeslice += 3;
    pss.add(shifted);
    let merged = ParallelSamples::new().append(pss.clone());
    assert_eq!(merged.len(), 2);
    let again = pss.clone().append(ParallelSamples::new());
    assert_eq!(again.len(), 2);
}

#[test]
fn test_merge_is_commutative_on_matching_buckets() {
    let sample = create_test_sample(NUM_TRANSACTIONS, WAIT_NS);
    let a = sample.to_parallel_sample();
    let mut b = sample.to_parallel_sample();
    b.add(sample.to_parallel_sample()).unwrap();
    let mut ab = a.clone();
    ab.add(b).unwrap();
    let mut ba = b.clone();
    ba.add(a).unwrap();
    assert_eq!(ab, ba);
    // And associative.
    let c = sample.to_parallel_sample();
    let mut ab_c = ab.clone();
    ab_c.add(c).unwrap();
    let mut bc = b.clone();
    bc.add(c).unwrap();
    let mut a_bc = a.clone();
    a_bc.add(bc).unwrap();
    assert_eq!(ab_c, a_bc);
}

#[test]
fn test_sample_counts_nonnegative() {
    let sample = create_test_sample(2, 0);
    let p = sample.to_parallel_sample();
    assert!(p.num_samples >= 1);
    assert!(p.total_transactions as i64 >= 0);
    assert!(p.total_duration as i64 >= 0);
}
