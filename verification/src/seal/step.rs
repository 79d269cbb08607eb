//! The steps of sealing one managed pair, in their order: the plaintext, the
//! ciphertext, the recipients, the plan, and the check of what encryption gave.

use vstd::prelude::*;

use crate::baseline::cipher;
use crate::baseline::record;
use crate::baseline::{BaselineRecord, CipherSummary};
use crate::config::SourceFormat;
use crate::envelope::ciphertext;
use crate::envelope::CiphertextEnvelope;
use crate::error;
use crate::error::{ErrorCategory, GitveilError};
use crate::manifest::{EntryModel, ManifestEntry};
use crate::pair;
use crate::path;
use crate::path::ManagedPath;
use crate::recipient;
use crate::recipient::{AgeRecipientPolicy, PolicyModel, RecipientSetDiff};
use crate::seal::plan;
use crate::segment;
use crate::source::document;
use crate::source::node;
use crate::source::strict;
use crate::source::strict::StrictNode;
use crate::source::yaml;
use crate::source::SourceDocument;
use crate::text;

verus! {

#[derive(Clone, Copy, Debug, PartialEq, Eq, Structural)]
pub enum SealOutcome {
    Sealed,
    Unchanged,
}

/// The document that is to be sealed, or why there is none.
pub open spec fn desired_of(
    path: Seq<char>,
    format: SourceFormat,
    plaintext: Option<Seq<u8>>,
    raws: Result<Seq<node::Tree>, Seq<char>>,
) -> Result<document::DocumentModel, (ErrorCategory, Seq<char>)> {
    match plaintext {
        None => Err(
            (
                ErrorCategory::Configuration,
                "plaintext "@ + path
                    + " is missing; run gitveil open or remove the manifest entry"@,
            ),
        ),
        Some(input) => if plan::lookalike(input) {
            Err(
                error::source_error(
                    path,
                    format,
                    "plaintext looks like a gitveil envelope; restore the real plaintext first"@,
                ),
            )
        } else {
            match crate::source::format::parsed(format, input, raws) {
                Ok(d) => Ok(d),
                Err(fault) => Err(error::source_error(path, format, fault.text())),
            }
        },
    }
}

pub open spec fn view_input(input: Option<&[u8]>) -> Option<Seq<u8>> {
    match input {
        Some(bytes) => Some(bytes@),
        None => None,
    }
}

/// Reads the plaintext of a pair. `raws` is what a deserializer made of it.
pub fn read_desired(
    path: &ManagedPath,
    format: SourceFormat,
    plaintext: Option<&[u8]>,
    raws: Result<Vec<StrictNode>, String>,
) -> (r: Result<SourceDocument, GitveilError>)
    ensures
        pair::view_source(r) == desired_of(
            path@,
            format,
            view_input(plaintext),
            yaml::view_raws(raws),
        ),
        strict::all_named(format, yaml::view_raws(raws)) && r is Ok ==> node::named_tags(r->Ok_0@.root),
{
    let input = match plaintext {
        Some(input) => input,
        None => {
            return Err(
                GitveilError::configuration(
                    text::cat3(
                        "plaintext ",
                        path.as_str(),
                        " is missing; run gitveil open or remove the manifest entry",
                    ).as_str(),
                ),
            );
        },
    };
    if plan::resembles_envelope(input) {
        return Err(
            GitveilError::source(
                path,
                format,
                "plaintext looks like a gitveil envelope; restore the real plaintext first",
            ),
        );
    }
    match crate::source::parse(format, input, raws) {
        Ok(document) => Ok(document),
        Err(error) => Err(GitveilError::source(path, format, error.message().as_str())),
    }
}

/// How the recipients of an envelope differ from a policy.
pub open spec fn drift_of(policy: PolicyModel, recipients: Seq<Seq<char>>) -> RecipientSetDiff {
    recipient::recipient_diff(policy.recipients.to_set(), recipients.to_set())
}

pub open spec fn aligned(policy: PolicyModel, recipients: Seq<Seq<char>>) -> bool {
    policy.recipients.to_set() == recipients.to_set()
}

/// The two counts of a difference.
pub open spec fn counts(drift: RecipientSetDiff) -> Seq<char> {
    " (add "@ + segment::decimal(drift.added as nat) + ", remove "@ + segment::decimal(
        drift.removed as nat,
    ) + "); "@
}

pub open spec fn drift_error(cipher: Seq<char>, policy: PolicyModel, recipients: Seq<Seq<char>>) -> (
    ErrorCategory,
    Seq<char>,
) {
    (
        ErrorCategory::Configuration,
        cipher + " recipient set differs from policy "@ + policy.name + counts(
            drift_of(policy, recipients),
        )
            + "data commands never change authorization; run gitveil recipient add or gitveil recipient remove first"@,
    )
}

fn show_counts(drift: RecipientSetDiff) -> (r: String)
    ensures
        r@ == counts(drift),
{
    text::cat5(
        " (add ",
        segment::decimal_u64(drift.added as u64).as_str(),
        ", remove ",
        segment::decimal_u64(drift.removed as u64).as_str(),
        "); ",
    )
}

/// The envelope that is edited, if there is one, or why it must not be.
pub open spec fn existing_of(
    cipher: Seq<char>,
    format: SourceFormat,
    policy: PolicyModel,
    input: Option<Seq<u8>>,
) -> Result<Option<ciphertext::CiphertextModel>, (ErrorCategory, Seq<char>)> {
    match input {
        None => Ok(None),
        Some(bytes) => match pair::envelope_at(cipher, format, bytes) {
            Err(fault) => Err(fault),
            Ok(envelope) => if aligned(policy, envelope.recipients) {
                Ok(Some(envelope))
            } else {
                Err(drift_error(cipher, policy, envelope.recipients))
            },
        },
    }
}

/// Reads the existing envelope of a pair. Sealing is a data command and never changes
/// authorization: any recipient drift fails closed here, before any decryption.
pub fn read_existing(
    cipher: &ManagedPath,
    format: SourceFormat,
    policy: &AgeRecipientPolicy,
    input: Option<&[u8]>,
) -> (r: Result<Option<CiphertextEnvelope>, GitveilError>)
    ensures
        match existing_of(cipher@, format, policy@, view_input(input)) {
            Ok(None) => r matches Ok(None),
            Ok(Some(model)) => r matches Ok(Some(envelope)) && envelope@ == model,
            Err(fault) => r matches Err(e) && e@ == fault,
        },
{
    let bytes = match input {
        Some(bytes) => bytes,
        None => {
            return Ok(None);
        },
    };
    let envelope = match pair::read_envelope(cipher, format, bytes) {
        Ok(envelope) => envelope,
        Err(error) => {
            return Err(error);
        },
    };
    let drift = policy.diff(envelope.age_recipients());
    if drift.is_empty() {
        return Ok(Some(envelope));
    }
    let head = text::cat4(
        cipher.as_str(),
        " recipient set differs from policy ",
        policy.name().as_str(),
        show_counts(drift).as_str(),
    );
    Err(
        GitveilError::configuration(
            text::cat2(
                head.as_str(),
                "data commands never change authorization; run gitveil recipient add or gitveil recipient remove first",
            ).as_str(),
        ),
    )
}

/// Another pair under the policy of an entry.
pub open spec fn shares_policy_of(entry: EntryModel, other: EntryModel) -> bool {
    other.path != entry.path && other.policy == entry.policy
}

/// Whether another pair anchors the policy of an entry that is sealed for the first
/// time.
pub fn shares_policy(entry: &ManifestEntry, other: &ManifestEntry) -> (r: bool)
    ensures
        r == shares_policy_of(entry@, other@),
{
    !other.path().same(entry.path()) && other.recipient_policy().same(entry.recipient_policy())
}

/// What keeps a policy from being used for a new file, as one of its existing
/// ciphertexts shows.
pub open spec fn anchor_fault(
    cipher: Seq<char>,
    format: SourceFormat,
    policy: PolicyModel,
    input: Option<Seq<u8>>,
) -> Option<(ErrorCategory, Seq<char>)> {
    match input {
        None => None,
        Some(bytes) => match ciphertext::ciphertext_bytes(bytes, format) {
            Err(fault) => Some(
                error::ciphertext_error(
                    cipher,
                    "cannot verify policy alignment before a first seal: "@ + fault.text(),
                ),
            ),
            Ok(envelope) => if aligned(policy, envelope.recipients) {
                None
            } else {
                Some(
                    (
                        ErrorCategory::Configuration,
                        "policy "@ + policy.name + " has drifted ciphertext at "@ + cipher + counts(
                            drift_of(policy, envelope.recipients),
                        )
                            + "run gitveil recipient add or gitveil recipient remove before sealing new files under this policy"@,
                    ),
                )
            },
        },
    }
}

/// Checks another ciphertext of a policy before a new file is encrypted to it: drift
/// there blocks the first seal.
pub fn check_anchor(
    other: &ManifestEntry,
    policy: &AgeRecipientPolicy,
    input: Option<&[u8]>,
) -> (r: Result<(), GitveilError>)
    ensures
        match anchor_fault(
            other@.path + path::ciphertext_suffix(),
            other@.format,
            policy@,
            view_input(input),
        ) {
            None => r.is_ok(),
            Some(fault) => r matches Err(e) && e@ == fault,
        },
{
    let bytes = match input {
        Some(bytes) => bytes,
        None => {
            return Ok(());
        },
    };
    let cipher = other.ciphertext_path();
    let envelope = match CiphertextEnvelope::parse(bytes, other.format()) {
        Ok(envelope) => envelope,
        Err(error) => {
            return Err(
                GitveilError::ciphertext(
                    &cipher,
                    text::cat2(
                        "cannot verify policy alignment before a first seal: ",
                        error.message().as_str(),
                    ).as_str(),
                ),
            );
        },
    };
    let drift = policy.diff(envelope.age_recipients());
    if drift.is_empty() {
        return Ok(());
    }
    let head = text::cat5(
        "policy ",
        policy.name().as_str(),
        " has drifted ciphertext at ",
        cipher.as_str(),
        show_counts(drift).as_str(),
    );
    Err(
        GitveilError::configuration(
            text::cat2(
                head.as_str(),
                "run gitveil recipient add or gitveil recipient remove before sealing new files under this policy",
            ).as_str(),
        ),
    )
}

/// What keeps the envelope that encryption gave from being accepted.
pub open spec fn result_envelope(
    path: Seq<char>,
    format: SourceFormat,
    policy: PolicyModel,
    output: Seq<u8>,
) -> Result<ciphertext::CiphertextModel, (ErrorCategory, Seq<char>)> {
    match pair::envelope_of(path, format, output) {
        Err(fault) => Err(fault),
        Ok(envelope) => if aligned(policy, envelope.recipients) {
            Ok(envelope)
        } else {
            Err(
                (
                    ErrorCategory::Integrity,
                    "SOPS result recipients do not match policy "@ + policy.name + " at "@ + path,
                ),
            )
        },
    }
}

/// Checks the envelope that encryption gave: its form, and its recipients.
pub fn accept_envelope(
    path: &ManagedPath,
    format: SourceFormat,
    policy: &AgeRecipientPolicy,
    output: &[u8],
) -> (r: Result<CiphertextEnvelope, GitveilError>)
    ensures
        pair::view_envelope(r) == result_envelope(path@, format, policy@, output@),
{
    let envelope = match pair::parse_envelope(path, format, output) {
        Ok(envelope) => envelope,
        Err(error) => {
            return Err(error);
        },
    };
    if policy.matches(envelope.age_recipients()) {
        return Ok(envelope);
    }
    Err(
        GitveilError::new(
            ErrorCategory::Integrity,
            text::cat4(
                "SOPS result recipients do not match policy ",
                policy.name().as_str(),
                " at ",
                path.as_str(),
            ),
        ),
    )
}

/// Checks the document that the new envelope decrypts to: it must be the desired one.
pub fn accept_result(path: &ManagedPath, desired: &SourceDocument, actual: &SourceDocument) -> (r:
    Result<(), GitveilError>)
    ensures
        if desired@ == actual@ {
            r.is_ok()
        } else {
            r matches Err(e) && e@ == (
                ErrorCategory::Integrity,
                "SOPS result does not match desired source at "@ + path@,
            )
        },
{
    if plan::result_matches(desired, actual) {
        return Ok(());
    }
    Err(
        GitveilError::new(
            ErrorCategory::Integrity,
            text::cat2("SOPS result does not match desired source at ", path.as_str()),
        ),
    )
}

/// The record of a sealed pair, with fresh salt: neither side differs from it.
pub fn sealed_record(
    path: &ManagedPath,
    format: SourceFormat,
    desired: &SourceDocument,
    output: &[u8],
) -> (r: Result<BaselineRecord, GitveilError>)
    ensures
        match pair::envelope_of(path@, format, output@) {
            Ok(envelope) => r matches Ok(record) && record@.plain_diff(desired@).empty()
                && record@.cipher_diff(cipher::summary_of(envelope)).empty() && exists|
                salt: [u8; 32],
            |
                record@ == #[trigger] record::captured(
                    desired@,
                    cipher::summary_of(envelope),
                    salt@,
                ),
            Err(fault) => r matches Err(e) && e@ == fault,
        },
{
    match pair::parse_envelope(path, format, output) {
        Ok(envelope) => Ok(
            BaselineRecord::capture_fresh(desired, &CipherSummary::from_envelope(&envelope)),
        ),
        Err(error) => Err(error),
    }
}

/// Law: sealing never changes authorization. An envelope is edited only where its
/// recipients are those of the policy, and what is written has exactly these.
pub proof fn law_seal_keeps_authorization(
    cipher: Seq<char>,
    path: Seq<char>,
    format: SourceFormat,
    policy: PolicyModel,
    input: Seq<u8>,
    output: Seq<u8>,
)
    ensures
        existing_of(cipher, format, policy, Some(input)) matches Ok(Some(envelope)) ==> aligned(
            policy,
            envelope.recipients,
        ),
        existing_of(cipher, format, policy, Some(input)) != Ok::<
            Option<ciphertext::CiphertextModel>,
            (ErrorCategory, Seq<char>),
        >(None),
        result_envelope(path, format, policy, output) matches Ok(envelope) ==> aligned(
            policy,
            envelope.recipients,
        ),
{
}

/// Law: the document that is sealed is what the plaintext file holds. A missing file is
/// refused, and so is one that begins like an envelope or has the metadata of one on a line of
/// its own, whatever its format.
pub proof fn law_sealed_document_is_what_is_read(
    path: Seq<char>,
    format: SourceFormat,
    plaintext: Option<Seq<u8>>,
    raws: Result<Seq<node::Tree>, Seq<char>>,
    d: document::DocumentModel,
)
    ensures
        desired_of(path, format, plaintext, raws) == Ok::<
            document::DocumentModel,
            (ErrorCategory, Seq<char>),
        >(d) <==> (plaintext matches Some(input) && crate::source::format::parsed(
            format,
            input,
            raws,
        ) == Ok::<document::DocumentModel, document::SourceFault>(d) && !(
        text::starts_with(input, crate::bytes::bytes_of("gitveil_v"@)) || text::contains(
            input,
            crate::bytes::bytes_of("\nsops:"@),
        ))),
        plaintext is None ==> (desired_of(path, format, plaintext, raws) matches Err(e) && e.0
            == ErrorCategory::Configuration),
        plaintext is Some && desired_of(path, format, plaintext, raws) is Err ==> desired_of(
            path,
            format,
            plaintext,
            raws,
        )->Err_0.0 == ErrorCategory::Source,
{
}

/// Law: a ciphertext keeps a policy from being used for a new file exactly where it is no
/// envelope of its format, or one whose recipients are not exactly those of the policy; one
/// that is missing never does.
pub proof fn law_only_drift_stops_a_first_seal(
    cipher: Seq<char>,
    format: SourceFormat,
    policy: PolicyModel,
    input: Option<Seq<u8>>,
)
    ensures
        anchor_fault(cipher, format, policy, input) is None <==> input is None || (
        ciphertext::ciphertext_bytes(input->Some_0, format) matches Ok(envelope)
            && envelope.recipients.to_set() == policy.recipients.to_set()),
        existing_of(cipher, format, policy, input) matches Ok(None) <==> input is None,
{
}

} // verus!
