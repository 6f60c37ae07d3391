//! A low-overhead scoped profiler: named regions are entered and exited
//! through guards, their cycles are attributed across one level of nesting
//! in a fixed table of slots, and a report aggregates the table by label.
//!
//! `attribution` states the laws of that accounting; `parser` holds the
//! byte-level grammar of the coordinate files that the profiled program reads.
pub mod metrics;
pub mod report;
pub mod attribution;
pub mod parser;
