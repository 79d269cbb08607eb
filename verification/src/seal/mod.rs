//! Bringing plaintext into incremental ciphertext.

pub mod history;
pub mod plan;
pub mod run;
pub mod step;

pub use step::SealOutcome;
