//! The boundary to Git.

pub mod command;
pub mod discovery;
pub mod ignore;
pub mod index;

pub use discovery::RepositoryDiscoveryError;
pub use ignore::{IgnoreMatch, IgnoreRule};
