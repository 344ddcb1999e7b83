//! Streaming per-column summaries of tabular text: cell classification, a
//! positional date heuristic, per-column aggregation and an exact median from
//! value frequencies.

pub mod date;
pub mod encapsulators;
pub mod aggregator;
pub mod pipeline;
pub mod median;
