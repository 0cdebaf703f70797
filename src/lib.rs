//! Sets of closed integer time ranges, normalised into a canonical sorted,
//! non-overlapping, non-adjacent form and queried by binary search.

pub mod interval;
pub mod interval_set;
pub mod laws;

pub use interval::{Time, TimeInterval, TimeIntervalError};
pub use interval_set::TimeIntervals;
