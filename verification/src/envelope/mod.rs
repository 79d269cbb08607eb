//! The envelope that carries a document through encryption.

pub mod ciphertext;
pub mod data;
pub mod decrypted;
pub mod encrypted;
pub mod fault;
pub mod layout_record;
pub mod metadata;
pub mod type_paths;
pub mod typed;

pub use ciphertext::CiphertextEnvelope;
pub use decrypted::DecryptedEnvelope;
pub use fault::EnvelopeError;
