//! The files of the private runtime directory.

use vstd::prelude::*;

use crate::error::{ErrorCategory, GitveilError};
use crate::manifest_document::FileKind;
use crate::text;

verus! {

/// A name for a file right in the runtime directory.
pub open spec fn runtime_name(name: Seq<char>) -> bool {
    !name.contains('/') && !name.contains('\\') && name != "."@ && name != ".."@
}

pub fn check_runtime_name(name: &str) -> (r: Result<(), GitveilError>)
    ensures
        if runtime_name(name@) {
            r.is_ok()
        } else {
            r matches Err(e) && e@ == (ErrorCategory::Configuration, "invalid runtime filename"@)
        },
{
    let chars = text::chars_of(name);
    if text::has_char(chars.as_slice(), '/') || text::has_char(chars.as_slice(), '\\') || text::eq(
        name,
        ".",
    ) || text::eq(name, "..") {
        return Err(GitveilError::configuration("invalid runtime filename"));
    }
    Ok(())
}

/// A file that outlives a command: the operation lock, and the records of the last
/// sync.
pub open spec fn persistent(name: Option<Seq<char>>) -> bool {
    name == Some("operation.lock"@) || name == Some("state"@)
}

/// Whether a file of the runtime directory is kept. A name that is no text is never
/// kept.
pub fn is_persistent(name: Option<&str>) -> (r: bool)
    ensures
        r == persistent(
            match name {
                Some(name) => Some(name@),
                None => None,
            },
        ),
{
    match name {
        Some(name) => text::eq(name, "operation.lock") || text::eq(name, "state"),
        None => false,
    }
}

/// How residue is removed.
#[derive(Clone, Copy, Debug, PartialEq, Eq, Structural)]
pub enum Removal {
    File,
    Tree,
}

/// Decides how residue is removed; a link is never touched.
pub fn remove_residue(kind: FileKind, shown: &str) -> (r: Result<Removal, GitveilError>)
    ensures
        match kind {
            FileKind::Symlink => r matches Err(e) && e@ == (
                ErrorCategory::Path,
                "unsafe runtime residue at "@ + shown@,
            ),
            FileKind::Directory => r == Ok::<Removal, GitveilError>(Removal::Tree),
            _ => r == Ok::<Removal, GitveilError>(Removal::File),
        },
{
    match kind {
        FileKind::Symlink => Err(
            GitveilError::new(
                ErrorCategory::Path,
                text::cat2("unsafe runtime residue at ", shown),
            ),
        ),
        FileKind::Directory => Ok(Removal::Tree),
        _ => Ok(Removal::File),
    }
}

/// The largest piece that is overwritten at once, in bytes.
pub const WIPE_CHUNK: u64 = 8192;

/// How much of a secret file is overwritten next.
pub fn wipe_chunk(length: u64, written: u64) -> (r: Option<u64>)
    ensures
        match r {
            Some(n) => written < length && n == (if length - written < WIPE_CHUNK {
                length - written
            } else {
                WIPE_CHUNK as int
            }),
            None => written >= length,
        },
{
    if written >= length {
        None
    } else if length - written < WIPE_CHUNK {
        Some(length - written)
    } else {
        Some(WIPE_CHUNK)
    }
}

/// Overwriting a file from the start, piece after piece: what is overwritten in all.
pub open spec fn wiped(length: nat, written: nat) -> nat
    decreases length - written,
{
    if written >= length {
        written
    } else if length - written < WIPE_CHUNK {
        wiped(length, length)
    } else {
        wiped(length, written + WIPE_CHUNK as nat)
    }
}

/// Law: a secret file is overwritten to its last byte, and not beyond.
pub proof fn law_secrets_are_wiped_whole(length: nat, written: nat)
    requires
        written <= length,
    ensures
        wiped(length, written) == length,
    decreases length - written,
{
    if written < length {
        if length - written < WIPE_CHUNK {
            law_secrets_are_wiped_whole(length, length);
        } else {
            law_secrets_are_wiped_whole(length, written + WIPE_CHUNK as nat);
        }
    }
}

} // verus!
