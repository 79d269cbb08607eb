//! Bringing ciphertext into the local plaintext.

pub mod history;
pub mod keywise;
pub mod plan;
pub mod run;
pub mod step;

pub use plan::OpenConflict;
pub use step::OpenOutcome;
