//! Running library learning.
pub mod config;
pub mod consistency;
pub mod exact_latency;
pub mod latency_laws;
pub mod operation;
pub mod pareto;
pub mod recalculate;
pub mod run_laws;
pub mod selection;
pub mod session;
pub mod session_laws;
pub mod widths;
