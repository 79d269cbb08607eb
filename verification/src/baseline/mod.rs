//! Baseline records: salted digests of a managed pair at its last successful sync.
//!
//! A record is a correctness-optional cache. A missing or unreadable record
//! degrades arbitration to its conservative mode; it never fails a command.

pub mod cipher;
pub mod difference;
pub mod record;
pub mod unit;

pub use cipher::CipherSummary;
pub use record::{BaselineDiff, BaselineError, BaselineRecord};
pub use unit::{unit_view, UnitView};
