//! A read-only scan of history.
//!
//! It detects the two irreversible accidents: a managed plaintext path that ever
//! entered a commit, and a ciphertext path whose historical content is no valid
//! envelope. Both checks are structural and need no private key.

use vstd::prelude::*;

use crate::config::SourceFormat;
use crate::envelope::ciphertext;
use crate::envelope::CiphertextEnvelope;
use crate::error::{ErrorCategory, GitveilError};
use crate::git::command;
use crate::manifest::ManifestEntry;
use crate::path;
use crate::path::ManagedPath;
use crate::segment;
use crate::seal::step;
use crate::text;

verus! {

#[derive(Debug, PartialEq, Eq)]
pub enum Violation {
    /// The plaintext path was added or modified by this commit.
    PlaintextInHistory { commit: String, path: ManagedPath },
    /// The ciphertext at this commit is not a valid envelope.
    InvalidCiphertext { commit: String, path: ManagedPath, reason: String },
}

pub enum ViolationModel {
    PlaintextInHistory { commit: Seq<char>, path: Seq<char> },
    InvalidCiphertext { commit: Seq<char>, path: Seq<char>, reason: Seq<char> },
}

impl View for Violation {
    type V = ViolationModel;

    open spec fn view(&self) -> ViolationModel {
        match self {
            Violation::PlaintextInHistory { commit, path } => ViolationModel::PlaintextInHistory {
                commit: commit@,
                path: path@,
            },
            Violation::InvalidCiphertext { commit, path, reason } =>
                ViolationModel::InvalidCiphertext {
                commit: commit@,
                path: path@,
                reason: reason@,
            },
        }
    }
}

impl ViolationModel {
    pub open spec fn text(self) -> Seq<char> {
        match self {
            ViolationModel::PlaintextInHistory { commit, path } => commit + ": plaintext "@ + path
                + " entered this commit"@,
            ViolationModel::InvalidCiphertext { commit, path, reason } => commit + ": "@ + path
                + " is not a valid gitveil envelope ("@ + reason + ")"@,
        }
    }
}

impl Violation {
    pub fn describe(&self) -> (r: String)
        ensures
            r@ == self@.text(),
    {
        match self {
            Violation::PlaintextInHistory { commit, path } => text::cat4(
                commit.as_str(),
                ": plaintext ",
                path.as_str(),
                " entered this commit",
            ),
            Violation::InvalidCiphertext { commit, path, reason } => {
                let head = text::cat3(commit.as_str(), ": ", path.as_str());
                text::cat4(
                    head.as_str(),
                    " is not a valid gitveil envelope (",
                    reason.as_str(),
                    ")",
                )
            },
        }
    }
}

#[derive(Clone, Copy, Debug, PartialEq, Eq, Structural)]
pub enum VerifyPolicyError {
    InvalidRevisionRange,
}

impl VerifyPolicyError {
    pub fn message(self) -> (r: &'static str)
        ensures
            r@ == "invalid revision range"@,
    {
        "invalid revision range"
    }
}

/// A revision range that may be handed to Git.
pub open spec fn valid_range(range: Seq<char>) -> bool {
    &&& range.len() > 0
    &&& range[0] != '-'
    &&& forall|i: int|
        0 <= i < range.len() ==> !text::white(#[trigger] range[i]) && range[i] != '\0'
}

pub fn validate_revision_range(range: &str) -> (r: Result<(), VerifyPolicyError>)
    ensures
        if valid_range(range@) {
            r.is_ok()
        } else {
            r == Err::<(), VerifyPolicyError>(VerifyPolicyError::InvalidRevisionRange)
        },
{
    let chars = text::chars_of(range);
    if chars.len() == 0 || chars[0] == '-' {
        return Err(VerifyPolicyError::InvalidRevisionRange);
    }
    let mut i: usize = 0;
    while i < chars.len()
        invariant
            i <= chars.len(),
            chars@ == range@,
            chars@.len() > 0 && chars@[0] != '-',
            forall|j: int|
                0 <= j < i ==> !text::white(#[trigger] chars@[j]) && chars@[j] != '\0',
        decreases chars.len() - i,
    {
        if text::is_white(chars[i]) || chars[i] == '\0' {
            assert(text::white(range@[i as int]) || range@[i as int] == '\0');
            return Err(VerifyPolicyError::InvalidRevisionRange);
        }
        i = i + 1;
    }
    Ok(())
}

/// Checks the range of a scan.
pub fn check_range(range: Option<&str>) -> (r: Result<(), GitveilError>)
    ensures
        match range {
            Some(range) => if valid_range(range@) {
                r.is_ok()
            } else {
                r matches Err(e) && e@ == (
                    ErrorCategory::Configuration,
                    "invalid revision range"@,
                )
            },
            None => r.is_ok(),
        },
{
    match range {
        Some(range) => match validate_revision_range(range) {
            Ok(_) => Ok(()),
            Err(error) => Err(GitveilError::configuration(error.message())),
        },
        None => Ok(()),
    }
}

/// The arguments that list the commits which touch a path, in all refs or in a range.
pub fn touching_arguments(range: Option<&str>, path: &ManagedPath) -> (r: Vec<String>)
    ensures
        text::texts(r@) == seq![
            "rev-list"@,
            match range {
                Some(range) => range@,
                None => "--all"@,
            },
            "--"@,
            path@,
        ],
{
    let which = match range {
        Some(range) => range.to_owned(),
        None => "--all".to_owned(),
    };
    let ghost w = which@;
    let r = vec!["rev-list".to_owned(), which, "--".to_owned(), path.as_str().to_owned()];
    assert(text::texts(r@) =~= seq!["rev-list"@, w, "--"@, path@]);
    r
}

/// Reads the commits that touch a path.
pub fn touching_commits(output: &[u8]) -> (r: Result<Vec<String>, GitveilError>)
    ensures
        if vstd::utf8::valid_utf8(output@) {
            r matches Ok(v) && text::texts(v@) == segment::lines(vstd::utf8::decode_utf8(output@))
        } else {
            r matches Err(e) && e@ == command::protocol_fault("git rev-list output is not UTF-8"@)
        },
{
    let s = match text::from_utf8(output) {
        Some(s) => s,
        None => {
            return Err(command::protocol_error("git rev-list output is not UTF-8"));
        },
    };
    let lines = segment::split_lines(text::chars_of(s.as_str()).as_slice());
    let ghost all = text::pieces(lines@);
    let mut out: Vec<String> = Vec::new();
    let mut i: usize = 0;
    while i < lines.len()
        invariant
            i <= lines.len(),
            all == text::pieces(lines@),
            out@.len() == i,
            forall|j: int| 0 <= j < i ==> (#[trigger] out@[j])@ == all[j],
        decreases lines.len() - i,
    {
        out.push(text::string_of(lines[i].as_slice()));
        i = i + 1;
    }
    assert(text::texts(out@) =~= all);
    Ok(out)
}

#[derive(Debug, PartialEq, Eq)]
pub struct VerifyReport {
    pub scanned_blobs: u64,
    pub violations: Vec<Violation>,
}

pub struct ReportModel {
    pub scanned_blobs: int,
    pub violations: Seq<ViolationModel>,
}

pub open spec fn violation_models(v: Seq<Violation>) -> Seq<ViolationModel> {
    v.map_values(|x: Violation| x@)
}

impl View for VerifyReport {
    type V = ReportModel;

    open spec fn view(&self) -> ReportModel {
        ReportModel {
            scanned_blobs: self.scanned_blobs as int,
            violations: violation_models(self.violations@),
        }
    }
}

impl Default for VerifyReport {
    fn default() -> (r: VerifyReport)
        ensures
            r@.scanned_blobs == 0,
            r@.violations.len() == 0,
    {
        VerifyReport { scanned_blobs: 0, violations: Vec::new() }
    }
}

/// The bytes are an envelope of some format.
pub open spec fn any_envelope(input: Seq<u8>) -> bool {
    match ciphertext::format_bytes(input) {
        Ok(format) => ciphertext::ciphertext_bytes(input, format) is Ok,
        Err(_) => false,
    }
}

fn is_valid_envelope(input: &[u8]) -> (r: bool)
    ensures
        r == any_envelope(input@),
{
    match CiphertextEnvelope::detect_format(input) {
        Ok(format) => CiphertextEnvelope::parse(input, format).is_ok(),
        Err(_) => false,
    }
}

/// What a commit at a plaintext path amounts to. One that removed the path leaked
/// nothing, and an envelope at the plaintext path is ciphertext.
pub open spec fn plaintext_violation(commit: Seq<char>, path: Seq<char>, blob: Option<Seq<u8>>) -> Seq<
    ViolationModel,
> {
    match blob {
        None => Seq::empty(),
        Some(input) => if any_envelope(input) {
            Seq::empty()
        } else {
            seq![ViolationModel::PlaintextInHistory { commit, path }]
        },
    }
}

/// Takes what a commit holds at a plaintext path.
pub fn scan_plaintext(
    report: &mut VerifyReport,
    commit: &str,
    path: &ManagedPath,
    blob: Option<&[u8]>,
)
    ensures
        final(report)@ == (ReportModel {
            scanned_blobs: old(report)@.scanned_blobs,
            violations: old(report)@.violations + plaintext_violation(
                commit@,
                path@,
                step::view_input(blob),
            ),
        }),
{
    let ghost before = report.violations@;
    match blob {
        Some(input) => {
            if !is_valid_envelope(input) {
                let v = Violation::PlaintextInHistory {
                    commit: commit.to_owned(),
                    path: path.clone(),
                };
                report.violations.push(v);
                assert(violation_models(report.violations@) =~= violation_models(before).push(v@));
            }
        },
        None => {},
    }
    assert(violation_models(report.violations@) =~= violation_models(before)
        + plaintext_violation(commit@, path@, step::view_input(blob)));
}

/// Why bytes are not the envelope that the manifest declares, if they are not.
pub open spec fn envelope_reason(format: SourceFormat, input: Seq<u8>) -> Option<Seq<char>> {
    match ciphertext::format_bytes(input) {
        Err(fault) => Some(fault.text()),
        Ok(found) => if found != format {
            Some(
                "carries format "@ + found.name() + " but the manifest declares "@ + format.name(),
            )
        } else {
            match ciphertext::ciphertext_bytes(input, found) {
                Err(fault) => Some(fault.text()),
                Ok(_) => None,
            }
        },
    }
}

/// What a commit at a ciphertext path amounts to.
pub open spec fn ciphertext_violation(
    commit: Seq<char>,
    path: Seq<char>,
    format: SourceFormat,
    blob: Option<Seq<u8>>,
) -> Seq<ViolationModel> {
    match blob {
        None => Seq::empty(),
        Some(input) => match envelope_reason(format, input) {
            Some(reason) => seq![ViolationModel::InvalidCiphertext { commit, path, reason }],
            None => Seq::empty(),
        },
    }
}

fn find_reason(format: SourceFormat, input: &[u8]) -> (r: Option<String>)
    ensures
        text::view_option(r) == envelope_reason(format, input@),
{
    let found = match CiphertextEnvelope::detect_format(input) {
        Ok(found) => found,
        Err(error) => {
            return Some(error.message());
        },
    };
    if found != format {
        return Some(
            text::cat4(
                "carries format ",
                found.as_str(),
                " but the manifest declares ",
                format.as_str(),
            ),
        );
    }
    match CiphertextEnvelope::parse(input, found) {
        Ok(_) => None,
        Err(error) => Some(error.message()),
    }
}

/// Takes what a commit holds at the ciphertext path of an entry.
pub fn scan_ciphertext(
    report: &mut VerifyReport,
    commit: &str,
    entry: &ManifestEntry,
    blob: Option<&[u8]>,
)
    requires
        old(report)@.scanned_blobs < u64::MAX,
    ensures
        final(report)@ == (ReportModel {
            scanned_blobs: old(report)@.scanned_blobs + if blob is Some {
                1int
            } else {
                0
            },
            violations: old(report)@.violations + ciphertext_violation(
                commit@,
                entry@.path + path::ciphertext_suffix(),
                entry@.format,
                step::view_input(blob),
            ),
        }),
{
    let ghost before = report.violations@;
    let cipher = entry.ciphertext_path();
    match blob {
        Some(input) => {
            report.scanned_blobs = report.scanned_blobs + 1;
            match find_reason(entry.format(), input) {
                Some(reason) => {
                    let v = Violation::InvalidCiphertext {
                        commit: commit.to_owned(),
                        path: cipher,
                        reason,
                    };
                    report.violations.push(v);
                    assert(violation_models(report.violations@) =~= violation_models(before).push(
                        v@,
                    ));
                },
                None => {},
            }
        },
        None => {},
    }
    assert(violation_models(report.violations@) =~= violation_models(before)
        + ciphertext_violation(
        commit@,
        entry@.path + path::ciphertext_suffix(),
        entry@.format,
        step::view_input(blob),
    ));
}

/// Law: any commit that holds something but an envelope at a plaintext path is
/// reported, and so is any that holds no valid envelope of the declared format at a
/// ciphertext path.
pub proof fn law_leaks_are_reported(
    commit: Seq<char>,
    path: Seq<char>,
    format: SourceFormat,
    blob: Seq<u8>,
)
    ensures
        !any_envelope(blob) ==> plaintext_violation(commit, path, Some(blob)).len() == 1,
        (ciphertext::format_bytes(blob) != Ok::<
            SourceFormat,
            crate::envelope::fault::EnvelopeFault,
        >(format) || ciphertext::ciphertext_bytes(blob, format) is Err) ==> ciphertext_violation(
            commit,
            path,
            format,
            Some(blob),
        ).len() == 1,
{
}

/// Law: a blob at a plaintext path is passed over only where it is an encrypted envelope of
/// some format. Any other blob, whatever it holds, gives one violation, which names the commit
/// and the path; a commit that removed the path gives none.
pub proof fn law_only_envelopes_are_passed_over(
    commit: Seq<char>,
    path: Seq<char>,
    blob: Option<Seq<u8>>,
)
    ensures
        plaintext_violation(commit, path, blob) == (if blob matches Some(bytes) && !(exists|
            format: SourceFormat,
        | (#[trigger] ciphertext::ciphertext_bytes(bytes, format)) is Ok) {
            seq![ViolationModel::PlaintextInHistory { commit, path }]
        } else {
            Seq::empty()
        }),
{
    if blob is Some {
        let bytes = blob->Some_0;
        if exists|format: SourceFormat|
            (#[trigger] ciphertext::ciphertext_bytes(bytes, format)) is Ok {
            let format = choose|format: SourceFormat|
                (#[trigger] ciphertext::ciphertext_bytes(bytes, format)) is Ok;
            ciphertext::law_envelopes_have_one_format(bytes, format);
        }
    }
}

/// Law: a blob at a ciphertext path is accepted exactly where it is an envelope of the format
/// that the manifest declares; any other gives one violation, which names the commit and the
/// path.
pub proof fn law_only_declared_envelopes_are_accepted(
    commit: Seq<char>,
    path: Seq<char>,
    format: SourceFormat,
    blob: Option<Seq<u8>>,
)
    ensures
        ({
            let found = ciphertext_violation(commit, path, format, blob);
            if blob is None || ciphertext::ciphertext_bytes(blob->Some_0, format) is Ok {
                found.len() == 0
            } else {
                found.len() == 1 && (found[0] matches ViolationModel::InvalidCiphertext {
                    commit: c,
                    path: p,
                    ..
                } && c == commit && p == path)
            }
        }),
{
    if blob is Some && ciphertext::ciphertext_bytes(blob->Some_0, format) is Ok {
        ciphertext::law_envelopes_have_one_format(blob->Some_0, format);
    }
}

} // verus!
