//! The boundary to SOPS.

pub mod arguments;
pub mod classify;
pub mod command;
pub mod edit;

pub use classify::SopsFailure;
pub use command::SOPS_VERSION;
