//! Encrypted, mergeable configuration files beside their plaintext working copies.
//!
//! The library holds the rules of the tool: how documents are read and written,
//! compared and merged, how ciphertext envelopes are checked, and which action
//! each command takes. Reading files and starting programs is the caller's part.

pub mod age;
pub mod baseline;
pub mod bytes;
pub mod cli;
pub mod codec;
pub mod config;
pub mod configure;
pub mod confine;
pub mod envelope;
pub mod error;
pub mod git;
pub mod identity;
pub mod manifest;
pub mod manifest_document;
pub mod manifest_schema;
pub mod open;
pub mod pair;
pub mod path;
pub mod profile;
pub mod recipient;
pub mod recipients;
pub mod resolve;
pub mod runtime;
pub mod seal;
pub mod segment;
pub mod semantic;
pub mod shell;
pub mod sops;
pub mod source;
pub mod status;
pub mod text;
pub mod text_map;
pub mod verify;
pub mod version;
pub mod workspace;
