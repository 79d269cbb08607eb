//! Errors of the commands, and byte strings that hold secrets.

use vstd::prelude::*;

use crate::config::SourceFormat;
use crate::path::ManagedPath;
use crate::text;

verus! {

#[derive(Clone, Copy, Debug, PartialEq, Eq, Structural)]
pub enum ErrorCategory {
    Configuration,
    Dependency,
    IdentityUnavailable,
    Integrity,
    Ciphertext,
    Source,
    Path,
    Concurrency,
    Process,
    Protocol,
    Conflict,
    Io,
}

/// An error with its category and the message that is shown for it.
#[derive(Debug)]
pub struct GitveilError {
    category: ErrorCategory,
    message: String,
}

impl View for GitveilError {
    type V = (ErrorCategory, Seq<char>);

    closed spec fn view(&self) -> (ErrorCategory, Seq<char>) {
        (self.category, self.message@)
    }
}

impl GitveilError {
    pub fn new(category: ErrorCategory, message: String) -> (r: GitveilError)
        ensures
            r@ == (category, message@),
    {
        GitveilError { category, message }
    }

    pub fn category(&self) -> (r: ErrorCategory)
        ensures
            r == self@.0,
    {
        self.category
    }

    pub fn message(&self) -> (r: &str)
        ensures
            r@ == self@.1,
    {
        self.message.as_str()
    }

    pub fn configuration(message: &str) -> (r: GitveilError)
        ensures
            r@ == (ErrorCategory::Configuration, message@),
    {
        GitveilError::new(ErrorCategory::Configuration, message.to_owned())
    }

    pub fn dependency(message: &str) -> (r: GitveilError)
        ensures
            r@ == (ErrorCategory::Dependency, message@),
    {
        GitveilError::new(ErrorCategory::Dependency, message.to_owned())
    }

    pub fn path(path: &ManagedPath, reason: &str) -> (r: GitveilError)
        ensures
            r@ == path_error(path@, reason@),
    {
        GitveilError::new(
            ErrorCategory::Path,
            text::cat4("unsafe managed path ", path.as_str(), ": ", reason),
        )
    }

    pub fn source(path: &ManagedPath, format: SourceFormat, reason: &str) -> (r: GitveilError)
        ensures
            r@ == source_error(path@, format, reason@),
    {
        let head = text::cat3("invalid ", format.as_str(), " source at ");
        GitveilError::new(
            ErrorCategory::Source,
            text::cat4(head.as_str(), path.as_str(), ": ", reason),
        )
    }

    pub fn ciphertext(path: &ManagedPath, reason: &str) -> (r: GitveilError)
        ensures
            r@ == ciphertext_error(path@, reason@),
    {
        GitveilError::new(
            ErrorCategory::Ciphertext,
            text::cat4("invalid ciphertext envelope at ", path.as_str(), ": ", reason),
        )
    }

    /// The error for a failed operation of the operating system, `kind` being the
    /// name of its kind.
    pub fn io(operation: &str, path: Option<&str>, kind: &str) -> (r: GitveilError)
        ensures
            r@ == (ErrorCategory::Io, match path {
                Some(at) => operation@ + " failed"@ + (" at "@ + at@) + ": "@ + kind@,
                None => operation@ + " failed"@ + Seq::empty() + ": "@ + kind@,
            }),
    {
        let target = match path {
            Some(at) => text::cat2(" at ", at),
            None => String::new(),
        };
        GitveilError::new(
            ErrorCategory::Io,
            text::cat5(operation, " failed", target.as_str(), ": ", kind),
        )
    }
}

pub open spec fn path_error(path: Seq<char>, reason: Seq<char>) -> (ErrorCategory, Seq<char>) {
    (ErrorCategory::Path, "unsafe managed path "@ + path + ": "@ + reason)
}

pub open spec fn source_error(path: Seq<char>, format: SourceFormat, reason: Seq<char>) -> (
    ErrorCategory,
    Seq<char>,
) {
    (
        ErrorCategory::Source,
        "invalid "@ + format.name() + " source at "@ + path + ": "@ + reason,
    )
}

pub open spec fn ciphertext_error(path: Seq<char>, reason: Seq<char>) -> (
    ErrorCategory,
    Seq<char>,
) {
    (ErrorCategory::Ciphertext, "invalid ciphertext envelope at "@ + path + ": "@ + reason)
}

/// Bytes that hold a secret. They have no textual rendering but a fixed one.
pub struct SecretBytes {
    bytes: Vec<u8>,
}

impl View for SecretBytes {
    type V = Seq<u8>;

    closed spec fn view(&self) -> Seq<u8> {
        self.bytes@
    }
}

impl SecretBytes {
    pub fn new(bytes: Vec<u8>) -> (r: SecretBytes)
        ensures
            r@ == bytes@,
    {
        SecretBytes { bytes }
    }

    pub fn as_slice(&self) -> (r: &[u8])
        ensures
            r@ == self@,
    {
        self.bytes.as_slice()
    }

    pub fn as_mut_slice(&mut self) -> (r: &mut [u8])
        ensures
            r@ == old(self)@,
            final(self)@ == final(r)@,
    {
        self.bytes.as_mut_slice()
    }

    pub fn copy_out(&self) -> (r: Vec<u8>)
        ensures
            r@ == self@,
    {
        self.bytes.clone()
    }

    /// What is shown in place of the bytes.
    pub fn describe(&self) -> (r: String)
        ensures
            r@ == "SecretBytes(<redacted>)"@,
    {
        "SecretBytes(<redacted>)".to_owned()
    }
}

impl Drop for SecretBytes {
    fn drop(&mut self)
        opens_invariants none
        no_unwind
    {
        zeroize_bytes(&mut self.bytes);
    }
}

/// `zeroize::Zeroize::zeroize` on a vector overwrites every byte, the spare
/// capacity included, and leaves the vector empty.
#[verifier::external_body]
fn zeroize_bytes(bytes: &mut Vec<u8>)
    ensures
        final(bytes)@ == Seq::<u8>::empty(),
    opens_invariants none
    no_unwind
{
    zeroize::Zeroize::zeroize(bytes);
}

} // verus!
