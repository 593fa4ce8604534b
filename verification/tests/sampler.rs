use pg_tps_optimizer::pg_sampler::PgSampler;
use pg_tps_optimizer::pg_sampler::TransactDataSample;

const T0: u64 = 1_700_000_000_000_000_000;

fn reading(moment_ns: u64, lsn: &str, wal_bytes: i64, num_transactions: i64) -> TransactDataSample {
    TransactDataSample {
        moment_ns,
        lsn: String::from(lsn),
        wal_bytes,
        num_transactions,
    }
}

#[test]
fn test_sampler_starts_at_origin() {
    let s = PgSampler::new(T0);
    assert_eq!(s.previous.lsn, "0/0");
    assert_eq!(s.latest.lsn, "0/0");
    assert_eq!(s.duration(), 0);
    assert_eq!(s.wal_per_sec(), 0);
    assert_eq!(s.tps(), 0);
}

#[test]
fn test_sampler_rates() {
    let mut s = PgSampler::new(T0);
    s.next(reading(T0 + 1_000_000_000, "0/1000", 500, 100));
    s.next(reading(T0 + 2_000_000_000, "0/2000", 800, 250));
    assert_eq!(s.previous.lsn, "0/1000");
    assert_eq!(s.latest.lsn, "0/2000");
    assert_eq!(s.duration(), 1_000_000_000);
    // The newest reading carries the bytes written since the previous one.
    assert_eq!(s.wal_per_sec(), 800);
    assert_eq!(s.tps(), 150);
}

#[test]
fn test_sampler_negative_wal_rate() {
    let mut s = PgSampler::new(T0);
    s.next(reading(T0 + 1_000_000_000, "0/1000", 500, 100));
    s.next(reading(T0 + 2_000_000_000, "0/2000", -5, 90));
    assert_eq!(s.wal_per_sec(), -1);
    assert_eq!(s.tps(), -10);
}

#[test]
fn test_sampler_half_second_interval() {
    let mut s = PgSampler::new(T0);
    s.next(reading(T0 + 1_000_000_000, "0/1000", 0, 0));
    s.next(reading(T0 + 1_500_000_000, "0/2000", 250, 60));
    assert_eq!(s.duration(), 500_000_000);
    assert_eq!(s.wal_per_sec(), 500);
    assert_eq!(s.tps(), 120);
}
