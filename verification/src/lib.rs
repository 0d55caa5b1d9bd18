//! A workflow execution engine: it validates a graph of automation steps,
//! keeps the part that can be reached from the start node, and schedules that
//! part in rounds of independent nodes. The side effects themselves are left
//! to the caller; this crate decides what is to be done and in which order.

pub mod models;
pub mod text;
pub mod error;
pub mod graph;
pub mod schedule;
pub mod scheduler;
pub mod laws;
pub mod storage;
pub mod params;
pub mod runner;
pub mod executor;
pub mod reachable_part;
