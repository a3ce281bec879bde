//! A benchmark-execution and latency-measurement library for a
//! directory-protocol load-testing harness.
//!
//! The crate provides a logarithmic latency histogram, the per-worker
//! benchmark driver state, scenario request planning, and the statistics
//! report generator.  All computation here is verified; network traffic,
//! clocks and console output live with the caller.

pub mod hist;
pub mod lb;
pub mod report;
pub mod strutil;
pub mod textfmt;
pub mod entry;
pub mod rng;
pub mod bind;
pub mod search;
pub mod add;
pub mod modify;
pub mod delete;
pub mod passmod;
pub mod test;
pub mod setup;
