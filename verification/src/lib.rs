//! A small local telemetry library for sampling a network interface's
//! cumulative byte counters: parsing the kernel interface-statistics table,
//! computing reset-safe deltas against persisted totals, rendering counters
//! as decimal file content, human-readable magnitude formatting, and the
//! drift-compensating sleep arithmetic of the sampling scheduler.

pub mod ascii;
pub mod counters;
pub mod decimal;
pub mod engine;
pub mod format;
pub mod netdev;
pub mod sched;
pub mod store;
