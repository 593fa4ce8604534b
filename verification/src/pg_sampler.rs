//! Server-side statistics between two probe readings: each reading carries
//! the server's clock, its write-ahead-log position and byte count since the
//! previous reading, and its committed-transaction counter; from two
//! successive readings follow the server-side write rate and transaction
//! rate. The probe query itself runs outside; this module holds the
//! readings and the arithmetic.

use vstd::prelude::*;
use crate::samples::clamp_i64;
use crate::samples::magnitude;

verus! {

/// One reading of the server-side sampler.
pub struct TransactDataSample {
    /// The server clock at the reading, nanoseconds since the Unix epoch.
    pub moment_ns: u64,
    /// The write-ahead-log position, in the server's textual form; handed
    /// back as the bind parameter of the next probe query.
    pub lsn: String,
    /// Write-ahead-log bytes since the previous reading.
    pub wal_bytes: i64,
    /// Server-wide committed-and-rolled-back transaction counter.
    pub num_transactions: i64,
}

impl TransactDataSample {
    /// The reading everything starts from: the log position every first
    /// probe passes, and no bytes or transactions yet.
    pub fn new(now_ns: u64) -> (s: TransactDataSample)
        ensures
            s.moment_ns == now_ns,
            s.lsn@ == "0/0"@,
            s.wal_bytes == 0,
            s.num_transactions == 0,
    {
        TransactDataSample {
            moment_ns: now_ns,
            lsn: "0/0".to_owned(),
            wal_bytes: 0,
            num_transactions: 0,
        }
    }

    /// A copy of the reading.
    pub fn clone(&self) -> (s: TransactDataSample)
        ensures
            s.moment_ns == self.moment_ns,
            s.lsn@ == self.lsn@,
            s.wal_bytes == self.wal_bytes,
            s.num_transactions == self.num_transactions,
    {
        TransactDataSample {
            moment_ns: self.moment_ns,
            lsn: self.lsn.clone(),
            wal_bytes: self.wal_bytes,
            num_transactions: self.num_transactions,
        }
    }
}

/// The last two readings of the server-side sampler.
pub struct PgSampler {
    /// The reading before the latest.
    pub previous: TransactDataSample,
    /// The latest reading.
    pub latest: TransactDataSample,
}

/// The nanoseconds between the two readings; 0 when the clocks ran
/// backwards.
pub open spec fn duration_spec(s: PgSampler) -> int {
    if s.latest.moment_ns >= s.previous.moment_ns {
        s.latest.moment_ns - s.previous.moment_ns
    } else {
        0
    }
}

/// Write-ahead-log bytes per second: the newest reading's byte count — the
/// server counts it since the position handed to it, that of the reading
/// before — over the elapsed time; -1 when the count is negative, 0 without
/// elapsed time.
pub open spec fn wal_rate_spec(s: PgSampler) -> int {
    let d = duration_spec(s);
    if d == 0 {
        0
    } else if s.latest.wal_bytes < 0 {
        -1
    } else {
        clamp_i64(s.latest.wal_bytes * 1_000_000_000 / d)
    }
}

/// Server-side transactions per second between the readings; 0 without
/// elapsed time, negative when the counter went backwards.
pub open spec fn tps_spec(s: PgSampler) -> int {
    let d = duration_spec(s);
    if d == 0 {
        0
    } else {
        let diff = s.latest.num_transactions - s.previous.num_transactions;
        let q = magnitude(diff) * 1_000_000_000 / d;
        if diff < 0 {
            clamp_i64(-q)
        } else {
            clamp_i64(q)
        }
    }
}

impl PgSampler {
    /// A sampler that has not probed yet: both readings are the starting
    /// reading.
    pub fn new(now_ns: u64) -> (s: PgSampler)
        ensures
            s.previous.moment_ns == now_ns,
            s.previous.lsn@ == "0/0"@,
            s.previous.wal_bytes == 0,
            s.previous.num_transactions == 0,
            s.latest.moment_ns == now_ns,
            s.latest.lsn@ == "0/0"@,
            s.latest.wal_bytes == 0,
            s.latest.num_transactions == 0,
    {
        PgSampler {
            previous: TransactDataSample::new(now_ns),
            latest: TransactDataSample::new(now_ns),
        }
    }

    /// Takes the next reading: the latest becomes the previous.
    pub fn next(&mut self, reading: TransactDataSample)
        ensures
            final(self).previous.moment_ns == old(self).latest.moment_ns,
            final(self).previous.lsn@ == old(self).latest.lsn@,
            final(self).previous.wal_bytes == old(self).latest.wal_bytes,
            final(self).previous.num_transactions == old(self).latest.num_transactions,
            final(self).latest == reading,
    {
        self.previous = self.latest.clone();
        self.latest = reading;
    }

    /// The nanoseconds between the two readings.
    pub fn duration(&self) -> (d: u64)
        ensures
            d == duration_spec(*self),
    {
        self.latest.moment_ns.saturating_sub(self.previous.moment_ns)
    }

    /// Write-ahead-log bytes per second between the readings.
    pub fn wal_per_sec(&self) -> (r: i64)
        ensures
            r == wal_rate_spec(*self),
    {
        let d = self.duration();
        if d == 0 {
            return 0;
        }
        if self.latest.wal_bytes < 0 {
            return -1;
        }
        let bytes: u128 = self.latest.wal_bytes as u128;
        let q: u128 = bytes * 1_000_000_000u128 / (d as u128);
        if q > i64::MAX as u128 {
            i64::MAX
        } else {
            q as i64
        }
    }

    /// Server-side transactions per second between the readings.
    pub fn tps(&self) -> (r: i64)
        ensures
            r == tps_spec(*self),
    {
        let d = self.duration();
        if d == 0 {
            return 0;
        }
        let negative = self.latest.num_transactions < self.previous.num_transactions;
        let diff: u128 = if negative {
            (self.previous.num_transactions as i128 - self.latest.num_transactions as i128) as u128
        } else {
            (self.latest.num_transactions as i128 - self.previous.num_transactions as i128) as u128
        };
        let q: u128 = diff * 1_000_000_000u128 / (d as u128);
        if negative {
            if q >= 9_223_372_036_854_775_808u128 {
                i64::MIN
            } else {
                -((q as i128) as i64)
            }
        } else {
            if q > i64::MAX as u128 {
                i64::MAX
            } else {
                q as i64
            }
        }
    }
}

} // verus!
