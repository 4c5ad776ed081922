//! The settings of an experiment.

use vstd::prelude::*;

verus! {

/// What an experiment runs.
#[derive(Debug, Clone)]
pub struct Config {
    /// Which system to test: `etcd`, `cassandra` or `antidote`.
    pub system: String,
    /// Workload type: `balanced`, `read-heavy`, `write-heavy` or `contention`.
    pub workload: String,
    /// How long to run the workload, in seconds.
    pub duration_seconds: u64,
    /// How many concurrent workers to use.
    pub concurrency: usize,
    /// Where to write metrics output; empty when not given.
    pub output_file: String,
    /// How many runs to make, one after another.
    pub num_runs: u64,
    /// Fault injection, if any.
    pub fault: Option<FaultConfig>,
}

/// When and how a fault is injected.
#[derive(Debug, Clone)]
pub struct FaultConfig {
    /// Shell script to run to inject the fault.
    pub script: String,
    /// How many seconds into the run to trigger the fault.
    pub trigger_at_seconds: u64,
    /// Shell script to run after the run to restore the cluster, if any.
    pub restore_script: Option<String>,
}

} // verus!
