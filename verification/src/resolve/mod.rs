//! Three-way merge of ciphertext files that Git left in conflict.

pub mod history;
pub mod plan;
pub mod run;
pub mod step;

pub use step::ResolveOutcome;
