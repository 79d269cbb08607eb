//! Pure seal policy: turns the desired document and the decrypted state of the
//! existing ciphertext into a directly executable action.
//!
//! Recipient drift never reaches this plan: sealing is a data command and fails
//! closed on any difference between policy and envelope before decrypting.

use vstd::prelude::*;
use vstd::string::StrSliceExecFns;

use crate::bytes;
use crate::source::document;
use crate::source::SourceDocument;
use crate::text;

verus! {

#[derive(Clone, Copy, Debug, PartialEq, Eq, Structural)]
pub enum SealAction {
    PreserveBaseline,
    EncryptNew,
    EditExisting,
}

/// What sealing does with a document, given what the ciphertext holds.
pub open spec fn planned(
    desired: document::DocumentModel,
    baseline: Option<document::DocumentModel>,
) -> SealAction {
    match baseline {
        // No envelope exists: encrypt directly to the policy.
        None => SealAction::EncryptNew,
        Some(existing) => if desired == existing {
            SealAction::PreserveBaseline
        } else {
            SealAction::EditExisting
        },
    }
}

pub open spec fn view_baseline(d: Option<&SourceDocument>) -> Option<document::DocumentModel> {
    match d {
        Some(d) => Some(d@),
        None => None,
    }
}

pub fn plan_seal(desired: &SourceDocument, baseline: Option<&SourceDocument>) -> (r: SealAction)
    ensures
        r == planned(desired@, view_baseline(baseline)),
{
    match baseline {
        None => SealAction::EncryptNew,
        Some(existing) => if desired.semantic_eq(existing) {
            SealAction::PreserveBaseline
        } else {
            SealAction::EditExisting
        },
    }
}

pub fn result_matches(desired: &SourceDocument, actual: &SourceDocument) -> (r: bool)
    ensures
        r == (desired@ == actual@),
{
    desired.semantic_eq(actual)
}

/// Plaintext that is really an envelope.
pub open spec fn lookalike(input: Seq<u8>) -> bool {
    text::starts_with(input, bytes::bytes_of("gitveil_v"@)) || text::contains(
        input,
        bytes::bytes_of("\nsops:"@),
    )
}

/// Detects plaintext input that is an envelope of Gitveil or SOPS, as when a
/// ciphertext file is copied over the plaintext path by mistake.
pub fn resembles_envelope(input: &[u8]) -> (r: bool)
    ensures
        r == lookalike(input@),
{
    bytes::begins(input, "gitveil_v".as_bytes_vec().as_slice()) || bytes::has(
        input,
        "\nsops:".as_bytes_vec().as_slice(),
    )
}

/// Law: sealing what the ciphertext already holds changes nothing, and only then.
pub proof fn law_only_equal_documents_are_preserved(
    desired: document::DocumentModel,
    existing: document::DocumentModel,
)
    ensures
        planned(desired, Some(existing)) == SealAction::PreserveBaseline <==> desired == existing,
        planned(desired, None) == SealAction::EncryptNew,
{
}

} // verus!
