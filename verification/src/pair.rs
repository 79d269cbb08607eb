//! A managed pair of plaintext and ciphertext: the checks that every data command
//! makes of it.

use vstd::prelude::*;

use crate::bytes;
use crate::codec::yaml;
use crate::config::SourceFormat;
use crate::envelope::ciphertext;
use crate::envelope::decrypted;
use crate::envelope::{CiphertextEnvelope, DecryptedEnvelope};
use crate::error;
use crate::error::{ErrorCategory, GitveilError, SecretBytes};
use crate::path::ManagedPath;
use crate::segment;
use crate::sops::classify;
use crate::sops::SopsFailure;
use crate::source::document;
use crate::source::node;
use crate::source::SourceDocument;
use crate::text;

verus! {

/// A line that a merge leaves in a ciphertext file.
pub open spec fn conflict_line(line: Seq<char>) -> bool {
    text::starts_with(line, "<<<<<<<"@) || text::starts_with(line, "======="@)
        || text::starts_with(line, ">>>>>>>"@)
}

/// A ciphertext file that a merge left in conflict.
pub open spec fn conflicted(input: Seq<u8>) -> bool {
    vstd::utf8::valid_utf8(input) && exists|i: int|
        0 <= i < segment::lines(vstd::utf8::decode_utf8(input)).len() && conflict_line(
            #[trigger] segment::lines(vstd::utf8::decode_utf8(input))[i],
        )
}

/// Detects Git conflict markers in a ciphertext file left behind by a merge.
pub fn ciphertext_has_conflict_markers(input: &[u8]) -> (r: bool)
    ensures
        r == conflicted(input@),
{
    let s = match text::from_utf8(input) {
        Some(s) => s,
        None => {
            return false;
        },
    };
    let lines = segment::split_lines(text::chars_of(s.as_str()).as_slice());
    let ghost all = segment::lines(s@);
    let (ours, middle, theirs) = (
        text::chars_of("<<<<<<<"),
        text::chars_of("======="),
        text::chars_of(">>>>>>>"),
    );
    let mut i: usize = 0;
    while i < lines.len()
        invariant
            i <= lines.len(),
            all == text::pieces(lines@),
            all == segment::lines(vstd::utf8::decode_utf8(input@)),
            vstd::utf8::valid_utf8(input@),
            ours@ == "<<<<<<<"@,
            middle@ == "======="@,
            theirs@ == ">>>>>>>"@,
            forall|j: int| 0 <= j < i ==> !conflict_line(#[trigger] all[j]),
        decreases lines.len() - i,
    {
        let line = lines[i].as_slice();
        assert(all[i as int] == line@);
        if text::begins(line, ours.as_slice()) || text::begins(line, middle.as_slice())
            || text::begins(line, theirs.as_slice()) {
            return true;
        }
        i = i + 1;
    }
    false
}

/// The envelope that a ciphertext file holds, or why it is refused.
pub open spec fn envelope_at(cipher: Seq<char>, format: SourceFormat, input: Seq<u8>) -> Result<
    ciphertext::CiphertextModel,
    (ErrorCategory, Seq<char>),
> {
    if conflicted(input) {
        Err(
            (
                ErrorCategory::Conflict,
                cipher + " contains merge conflict markers; run gitveil resolve first"@,
            ),
        )
    } else {
        match ciphertext::format_bytes(input) {
            Err(fault) => Err(error::ciphertext_error(cipher, fault.text())),
            Ok(found) => if found != format {
                Err(
                    (
                        ErrorCategory::Configuration,
                        cipher + " carries format "@ + found.name()
                            + " but the manifest declares "@ + format.name(),
                    ),
                )
            } else {
                envelope_of(cipher, format, input)
            },
        }
    }
}

/// The envelope that bytes of a known format hold.
pub open spec fn envelope_of(path: Seq<char>, format: SourceFormat, input: Seq<u8>) -> Result<
    ciphertext::CiphertextModel,
    (ErrorCategory, Seq<char>),
> {
    match ciphertext::ciphertext_bytes(input, format) {
        Err(fault) => Err(error::ciphertext_error(path, fault.text())),
        Ok(model) => Ok(model),
    }
}

pub open spec fn view_envelope(r: Result<CiphertextEnvelope, GitveilError>) -> Result<
    ciphertext::CiphertextModel,
    (ErrorCategory, Seq<char>),
> {
    match r {
        Ok(envelope) => Ok(envelope@),
        Err(e) => Err(e@),
    }
}

/// Reads an envelope; `path` is the one that an error names.
pub fn parse_envelope(path: &ManagedPath, format: SourceFormat, input: &[u8]) -> (r: Result<
    CiphertextEnvelope,
    GitveilError,
>)
    ensures
        view_envelope(r) == envelope_of(path@, format, input@),
{
    match CiphertextEnvelope::parse(input, format) {
        Ok(envelope) => Ok(envelope),
        Err(error) => Err(GitveilError::ciphertext(path, error.message().as_str())),
    }
}

/// Reads the envelope of a ciphertext file. One with conflict markers, or of another
/// format than the manifest declares, is refused.
pub fn read_envelope(cipher: &ManagedPath, format: SourceFormat, input: &[u8]) -> (r: Result<
    CiphertextEnvelope,
    GitveilError,
>)
    ensures
        view_envelope(r) == envelope_at(cipher@, format, input@),
{
    if ciphertext_has_conflict_markers(input) {
        return Err(
            GitveilError::new(
                ErrorCategory::Conflict,
                text::cat2(
                    cipher.as_str(),
                    " contains merge conflict markers; run gitveil resolve first",
                ),
            ),
        );
    }
    let found = match CiphertextEnvelope::detect_format(input) {
        Ok(found) => found,
        Err(error) => {
            return Err(GitveilError::ciphertext(cipher, error.message().as_str()));
        },
    };
    if found != format {
        return Err(
            GitveilError::configuration(
                text::cat5(
                    cipher.as_str(),
                    " carries format ",
                    found.as_str(),
                    " but the manifest declares ",
                    format.as_str(),
                ).as_str(),
            ),
        );
    }
    parse_envelope(cipher, format, input)
}

/// The document that decryption gave, or why there is none.
pub open spec fn source_of(
    path: Seq<char>,
    format: SourceFormat,
    output: Result<Seq<u8>, SopsFailure>,
) -> Result<document::DocumentModel, (ErrorCategory, Seq<char>)> {
    match output {
        Err(failure) => Err(
            (classify::failure_category(failure), "SOPS decrypt failed at "@ + path),
        ),
        Ok(bytes) => match decrypted::envelope_bytes(bytes, format) {
            Ok(d) => Ok(d),
            Err(fault) => Err(error::ciphertext_error(path, fault.text())),
        },
    }
}

pub open spec fn view_output(output: Result<SecretBytes, SopsFailure>) -> Result<
    Seq<u8>,
    SopsFailure,
> {
    match output {
        Ok(bytes) => Ok(bytes@),
        Err(failure) => Err(failure),
    }
}

pub open spec fn view_source(r: Result<SourceDocument, GitveilError>) -> Result<
    document::DocumentModel,
    (ErrorCategory, Seq<char>),
> {
    match r {
        Ok(d) => Ok(d@),
        Err(e) => Err(e@),
    }
}

/// What a decryption call means: its output, or its failure by what it printed.
pub fn decrypt_output(success: bool, stdout: SecretBytes, stderr: &[u8]) -> (r: Result<
    SecretBytes,
    SopsFailure,
>)
    ensures
        view_output(r) == if success {
            Ok::<Seq<u8>, SopsFailure>(stdout@)
        } else {
            Err::<Seq<u8>, SopsFailure>(classify::classified(stderr@))
        },
{
    if success {
        Ok(stdout)
    } else {
        Err(classify::classify(stderr))
    }
}

/// Reads the document out of what decryption gave.
pub fn decrypt_source(
    path: &ManagedPath,
    format: SourceFormat,
    output: Result<SecretBytes, SopsFailure>,
) -> (r: Result<SourceDocument, GitveilError>)
    ensures
        view_source(r) == source_of(path@, format, view_output(output)),
        r matches Ok(source) ==> node::named_tags(source@.root),
{
    let decrypted = match output {
        Ok(bytes) => bytes,
        Err(failure) => {
            return Err(
                GitveilError::new(
                    classify::category_of(failure),
                    text::cat2("SOPS decrypt failed at ", path.as_str()),
                ),
            );
        },
    };
    match DecryptedEnvelope::from_yaml(decrypted.as_slice(), format) {
        Ok(envelope) => match envelope.into_source() {
            Ok(source) => Ok(source),
            Err(error) => Err(GitveilError::ciphertext(path, error.message().as_str())),
        },
        Err(error) => Err(GitveilError::ciphertext(path, error.message().as_str())),
    }
}

/// The envelope that is handed to encryption for a document.
pub open spec fn payload_of(path: Seq<char>, d: document::DocumentModel) -> Result<
    Seq<u8>,
    (ErrorCategory, Seq<char>),
> {
    match yaml::yaml_written(decrypted::envelope_tree(d)) {
        Ok(s) => Ok(vstd::utf8::encode_utf8(s)),
        Err(reason) => Err(
            error::ciphertext_error(
                path,
                crate::envelope::fault::EnvelopeFault::Yaml(reason).text(),
            ),
        ),
    }
}

pub open spec fn view_secret(r: Result<SecretBytes, GitveilError>) -> Result<
    Seq<u8>,
    (ErrorCategory, Seq<char>),
> {
    match r {
        Ok(bytes) => Ok(bytes@),
        Err(e) => Err(e@),
    }
}

/// Writes the envelope of a document for encryption.
pub fn desired_envelope(source: &SourceDocument, path: &ManagedPath) -> (r: Result<
    SecretBytes,
    GitveilError,
>)
    requires
        node::named_tags(source@.root),
    ensures
        view_secret(r) == payload_of(path@, source@),
{
    match DecryptedEnvelope::from_source(source) {
        Ok(envelope) => match envelope.to_yaml() {
            Ok(bytes) => Ok(SecretBytes::new(bytes)),
            Err(error) => Err(GitveilError::ciphertext(path, error.message().as_str())),
        },
        Err(error) => Err(GitveilError::ciphertext(path, error.message().as_str())),
    }
}

} // verus!
