//! The private runtime: its files, the operation lock, the exchange with the editor,
//! and the programs that are started.

pub mod ipc;
pub mod lock;
pub mod process;
pub mod sidecar;
pub mod temp;

pub use sidecar::packaged_sidecar_path;
