//! Comparing and merging document values.

pub mod diff;
pub mod merge;
pub mod order;
