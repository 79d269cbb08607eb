//! Setting up a repository and registering managed files.

pub mod ignore;
pub mod plan;
pub mod publish;
pub mod step;
