//! Experiment harness logic for key-value stores: workload generation,
//! value versioning, result recording, and the AntidoteDB text protocol.

pub mod base64;
pub mod config;
pub mod dataset;
pub mod metrics;
pub mod runner;
pub mod systems;
pub mod text;
pub mod workload;

