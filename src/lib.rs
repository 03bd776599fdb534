//! A harness for comparing how concurrency backends distribute a uniform,
//! CPU-bound workload: the work kernel, workload generation, the result-slot
//! protocol that every backend writes through, chunk partitioning, trial
//! statistics and rankings.
use vstd::prelude::*;

pub mod dispatch;
pub mod kernel;
pub mod partition;
pub mod ranking;
pub mod trials;
pub mod workload;

pub use kernel::process_value;
