//! Metrics aggregation: bounded history windows, histogram bucketing,
//! write-once metric descriptions, search and namespace grouping.

pub mod counts;
pub mod histogram;
pub mod namespace;
pub mod plots;
pub mod registry;
pub mod ring;
pub mod schedule;
