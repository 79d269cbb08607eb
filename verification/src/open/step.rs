//! The steps of opening one managed pair, in their order: the ciphertext, the local
//! plaintext, the plan, and the check of what is written.

use vstd::prelude::*;

use crate::baseline::cipher;
use crate::baseline::record;
use crate::baseline::{BaselineRecord, CipherSummary};
use crate::config::SourceFormat;
use crate::envelope::ciphertext;
use crate::envelope::CiphertextEnvelope;
use crate::error;
use crate::error::{ErrorCategory, GitveilError};
use crate::open::plan;
use crate::open::plan::{ConflictModel, OpenConflict};
use crate::pair;
use crate::path::ManagedPath;
use crate::seal::step;
use crate::source::document;
use crate::source::node;
use crate::source::strict;
use crate::source::strict::StrictNode;
use crate::source::yaml;
use crate::source::{SourceDocument, SourceError};
use crate::text;

verus! {

#[derive(Debug, PartialEq, Eq)]
pub enum OpenOutcome {
    /// The plaintext file was written (created or merged).
    Opened,
    /// The plaintext file already held the result.
    UpToDate,
    /// Some keys could not be arbitrated; the local side was kept for them.
    Conflicts(Vec<OpenConflict>),
}

pub enum OutcomeModel {
    Opened,
    UpToDate,
    Conflicts(Seq<ConflictModel>),
}

impl View for OpenOutcome {
    type V = OutcomeModel;

    open spec fn view(&self) -> OutcomeModel {
        match self {
            OpenOutcome::Opened => OutcomeModel::Opened,
            OpenOutcome::UpToDate => OutcomeModel::UpToDate,
            OpenOutcome::Conflicts(list) => OutcomeModel::Conflicts(plan::conflict_models(list@)),
        }
    }
}

/// The envelope that is opened, or why there is none.
pub open spec fn remote_envelope(cipher: Seq<char>, format: SourceFormat, input: Option<Seq<u8>>) -> Result<
    ciphertext::CiphertextModel,
    (ErrorCategory, Seq<char>),
> {
    match input {
        None => Err(
            (
                ErrorCategory::Configuration,
                "ciphertext "@ + cipher + " is missing; run gitveil seal first"@,
            ),
        ),
        Some(bytes) => pair::envelope_at(cipher, format, bytes),
    }
}

/// Reads the ciphertext of a pair that is opened.
pub fn read_remote(cipher: &ManagedPath, format: SourceFormat, input: Option<&[u8]>) -> (r: Result<
    CiphertextEnvelope,
    GitveilError,
>)
    ensures
        pair::view_envelope(r) == remote_envelope(cipher@, format, step::view_input(input)),
{
    match input {
        Some(bytes) => pair::read_envelope(cipher, format, bytes),
        None => Err(
            GitveilError::configuration(
                text::cat3(
                    "ciphertext ",
                    cipher.as_str(),
                    " is missing; run gitveil seal first",
                ).as_str(),
            ),
        ),
    }
}

/// The local document, if there is one. Unresolved conflicts are named as such.
pub open spec fn local_of(
    path: Seq<char>,
    format: SourceFormat,
    input: Option<Seq<u8>>,
    raws: Result<Seq<node::Tree>, Seq<char>>,
) -> Result<Option<document::DocumentModel>, (ErrorCategory, Seq<char>)> {
    match input {
        None => Ok(None),
        Some(bytes) => match crate::source::format::parsed(format, bytes, raws) {
            Ok(d) => Ok(Some(d)),
            Err(document::SourceFault::ConflictMarkers { .. }) => Err(
                (
                    ErrorCategory::Conflict,
                    path
                        + " contains conflict markers; edit it and run gitveil seal to finish the resolution"@,
                ),
            ),
            Err(fault) => Err(error::source_error(path, format, fault.text())),
        },
    }
}

/// Reads the local plaintext of a pair. `raws` is what a deserializer made of it.
pub fn read_local(
    path: &ManagedPath,
    format: SourceFormat,
    input: Option<&[u8]>,
    raws: Result<Vec<StrictNode>, String>,
) -> (r: Result<Option<SourceDocument>, GitveilError>)
    ensures
        match local_of(path@, format, step::view_input(input), yaml::view_raws(raws)) {
            Ok(None) => r matches Ok(None),
            Ok(Some(model)) => r matches Ok(Some(d)) && d@ == model && (strict::all_named(
                format,
                yaml::view_raws(raws),
            ) ==> node::named_tags(model.root)),
            Err(fault) => r matches Err(e) && e@ == fault,
        },
{
    let bytes = match input {
        Some(bytes) => bytes,
        None => {
            return Ok(None);
        },
    };
    match crate::source::parse(format, bytes, raws) {
        Ok(document) => Ok(Some(document)),
        Err(SourceError::ConflictMarkers { .. }) => Err(
            GitveilError::new(
                ErrorCategory::Conflict,
                text::cat2(
                    path.as_str(),
                    " contains conflict markers; edit it and run gitveil seal to finish the resolution",
                ),
            ),
        ),
        Err(error) => Err(GitveilError::source(path, format, error.message().as_str())),
    }
}

/// The bytes of a document that is written to a plaintext file.
pub open spec fn rendered(path: Seq<char>, format: SourceFormat, d: document::DocumentModel) -> Result<
    Seq<u8>,
    (ErrorCategory, Seq<char>),
> {
    match crate::source::format::generated(d) {
        Ok(bytes) => Ok(bytes),
        Err(fault) => Err(error::source_error(path, format, fault.text())),
    }
}

/// Writes a document as the bytes of a plaintext file.
pub fn render(path: &ManagedPath, format: SourceFormat, document: &SourceDocument) -> (r: Result<
    Vec<u8>,
    GitveilError,
>)
    requires
        node::named_tags(document@.root),
    ensures
        match rendered(path@, format, document@) {
            Ok(bytes) => r matches Ok(v) && v@ == bytes,
            Err(fault) => r matches Err(e) && e@ == fault,
        },
{
    match document.generate() {
        Ok(bytes) => Ok(bytes),
        Err(error) => Err(GitveilError::source(path, format, error.message().as_str())),
    }
}

/// The document that rendered bytes hold, which must be the one that was rendered.
pub open spec fn reread(
    path: Seq<char>,
    format: SourceFormat,
    d: document::DocumentModel,
    bytes: Seq<u8>,
    raws: Result<Seq<node::Tree>, Seq<char>>,
) -> Result<document::DocumentModel, (ErrorCategory, Seq<char>)> {
    match crate::source::format::parsed(format, bytes, raws) {
        Err(fault) => Err(
            (
                ErrorCategory::Integrity,
                "rendered plaintext does not re-parse at "@ + path + ": "@ + fault.text(),
            ),
        ),
        Ok(written) => if written == d {
            Ok(written)
        } else {
            Err(
                (
                    ErrorCategory::Integrity,
                    "rendered plaintext changed semantics at "@ + path,
                ),
            )
        },
    }
}

/// Reads rendered bytes back before they are written. The baseline must describe what
/// a later command will parse from disk, so the bytes must hold the document.
pub fn check_rendered(
    path: &ManagedPath,
    format: SourceFormat,
    document: &SourceDocument,
    bytes: &[u8],
    raws: Result<Vec<StrictNode>, String>,
) -> (r: Result<SourceDocument, GitveilError>)
    ensures
        pair::view_source(r) == reread(path@, format, document@, bytes@, yaml::view_raws(raws)),
{
    match crate::source::parse(format, bytes, raws) {
        Err(error) => Err(
            GitveilError::new(
                ErrorCategory::Integrity,
                text::cat4(
                    "rendered plaintext does not re-parse at ",
                    path.as_str(),
                    ": ",
                    error.message().as_str(),
                ),
            ),
        ),
        Ok(written) => if written.semantic_eq(document) {
            Ok(written)
        } else {
            Err(
                GitveilError::new(
                    ErrorCategory::Integrity,
                    text::cat2("rendered plaintext changed semantics at ", path.as_str()),
                ),
            )
        },
    }
}

/// What is recorded as synchronized after opening: the decrypted document, unless a
/// conflict remains. Both sides agree on it as far as they agree at all; what is edited
/// in the plaintext alone is not part of it and stays a local edit.
pub open spec fn synced(
    conflicts: Seq<ConflictModel>,
    remote: document::DocumentModel,
) -> Option<document::DocumentModel> {
    if conflicts.len() > 0 {
        None
    } else {
        Some(remote)
    }
}

/// What is reported of an opened pair.
pub open spec fn outcome_of(
    conflicts: Seq<ConflictModel>,
    written: Option<document::DocumentModel>,
) -> OutcomeModel {
    if conflicts.len() > 0 {
        OutcomeModel::Conflicts(conflicts)
    } else if written is Some {
        OutcomeModel::Opened
    } else {
        OutcomeModel::UpToDate
    }
}

/// Ends the opening of a pair: what is reported, and what is recorded as synchronized,
/// which is the decrypted document, or nothing where a conflict remains.
pub fn finish_open(
    conflicts: Vec<OpenConflict>,
    written: Option<&SourceDocument>,
    remote: &SourceDocument,
    envelope: &CiphertextEnvelope,
) -> (r: (OpenOutcome, Option<BaselineRecord>))
    ensures
        r.0@ == outcome_of(plan::conflict_models(conflicts@), plan::view_local(written)),
        match synced(plan::conflict_models(conflicts@), remote@) {
            None => r.1 is None,
            Some(d) => r.1 matches Some(record) && record@.plain_diff(d).empty()
                && record@.cipher_diff(cipher::summary_of(envelope@)).empty() && exists|
                salt: [u8; 32],
            |
                record@ == #[trigger] record::captured(d, cipher::summary_of(envelope@), salt@),
        },
{
    if conflicts.len() > 0 {
        return (OpenOutcome::Conflicts(conflicts), None);
    }
    let outcome = match written {
        Some(_) => OpenOutcome::Opened,
        None => OpenOutcome::UpToDate,
    };
    let summary = CipherSummary::from_envelope(envelope);
    (outcome, Some(BaselineRecord::capture_fresh(remote, &summary)))
}

/// Law: a rendered document that is accepted is the planned one, so the bytes that
/// opening writes hold what was planned.
pub proof fn law_written_plaintext_is_the_plan(
    path: Seq<char>,
    format: SourceFormat,
    d: document::DocumentModel,
    bytes: Seq<u8>,
    raws: Result<Seq<node::Tree>, Seq<char>>,
)
    requires
        reread(path, format, d, bytes, raws) is Ok,
    ensures
        reread(path, format, d, bytes, raws) == Ok::<
            document::DocumentModel,
            (ErrorCategory, Seq<char>),
        >(d),
        crate::source::format::parsed(format, bytes, raws) == Ok::<
            document::DocumentModel,
            document::SourceFault,
        >(d),
{
}

} // verus!
