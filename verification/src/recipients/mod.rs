//! The only commands that change which recipients can decrypt managed ciphertext.
//!
//! The operator names every recipient whose access changes, and a difference between
//! manifest and envelope that the request does not explain is refused. The manifest is
//! published first: any failure after that leaves drift that data commands refuse and
//! that the same request converges.

pub mod engine;
pub mod history;
pub mod plan;
pub mod run;
pub mod step;

pub use plan::{ConvergenceAction, GrantEcho};
pub use step::RecipientFileOutcome;
