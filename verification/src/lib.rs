//! Verified PERT/CPM network scheduling.
//!
//! The library builds an event/task network from tabular rows, validates its
//! topology (single start, single end, no cycles), computes earliest- and
//! latest-occurrence times for every event, derives per-task float values,
//! and renders the result as a labeled directed-graph text description.

pub mod dot;
pub mod graph;
pub mod laws;
pub mod load;
pub mod paths;
pub mod pert;
pub mod schedule;
