//! Discrete-event simulation kernel for hybrid classical-quantum serverless
//! workloads: jobs alternate between processor-shared classical phases and
//! quantum iterations served one at a time per device.

pub mod classical;
pub mod config;
pub mod error;
pub mod event;
pub mod job;
pub mod kernel;
pub mod names;
pub mod output;
pub mod quantum;
pub mod random;
pub mod simulation;
pub mod task;
pub mod text;
