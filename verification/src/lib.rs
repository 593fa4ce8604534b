//! Adaptive concurrency probe for a relational database: a worker fleet emits
//! per-interval measurement samples, two aggregation stages coalesce them into
//! per-time-bucket totals, and a bounded rolling window of per-bucket results
//! decides, via relative standard deviation, when a concurrency level is
//! stable.
//!
//! This crate holds the verified core: sample accounting, time-bucket
//! aggregation, the stability detector, connection-string handling and the
//! scale-up schedule. Thread, channel and database plumbing lives outside.

pub mod cli;
pub mod dsn;
pub mod pg_sampler;
pub mod fibonacci;
pub mod samples;
pub mod text;
pub mod threader;
pub mod workload;
