//! Span timing aggregation.
//!
//! Records how long each named span takes, keeps a bounded frequency
//! distribution of the observed durations per span name, and computes
//! summary statistics (count, total, min, average, max, percentiles)
//! on demand.
//!
//! Durations are counted in nanoseconds; percentiles are written in
//! fixed point, `PERCENTILE_SCALE` units to one percent.

pub mod distribution;
pub mod statistics;
pub mod store;
pub mod models;

pub use distribution::DurationFrequency;
pub use statistics::{statistics_of, SpanTimingsLayerStatistics, PERCENTILE_LIMIT, PERCENTILE_SCALE};
pub use store::{SpanTimingsLayer, SpanTimingsPtr};
