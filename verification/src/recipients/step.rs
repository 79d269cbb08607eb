//! The steps of a change of recipients, in their order: the request, the envelopes of
//! the policy, the plan, the decryption before anything is published, and the check of
//! what encryption gave.

use vstd::prelude::*;

use crate::config::SourceFormat;
use crate::envelope::ciphertext;
use crate::envelope::CiphertextEnvelope;
use crate::error;
use crate::error::{ErrorCategory, GitveilError};
use crate::codec::leaf_map;
use crate::manifest;
use crate::manifest::{EntryModel, Manifest, ManifestEntry, ManifestModel};
use crate::manifest_document;
use crate::manifest_document::ManifestPreparation;
use crate::pair;
use crate::path;
use crate::path::ManagedPath;
use crate::recipient;
use crate::recipient::{AgeRecipient, AgeRecipientPolicy, PolicyModel, PolicyName};
use crate::recipients::plan;
use crate::recipients::plan::{AuthorizationPlan, FileRecipientFacts, RecipientMutation};
use crate::seal::step;
use crate::segment;
use crate::source::SourceDocument;
use crate::text;

verus! {

#[derive(Clone, Copy, Debug, PartialEq, Eq, Structural)]
pub enum RecipientFileOutcome {
    Rewrapped,
    DataKeyRotated,
    AlreadyAligned,
}

/// The first text from a position on that is no recipient.
pub open spec fn request_fault(list: Seq<Seq<char>>, from: int) -> Option<
    (ErrorCategory, Seq<char>),
>
    decreases list.len() - from,
{
    if from < 0 || from >= list.len() {
        None
    } else {
        match recipient::recipient_fault(list[from]) {
            Some(fault) => Some(
                (
                    ErrorCategory::Configuration,
                    "invalid public age recipient at index "@ + segment::decimal(from as nat)
                        + ": "@ + fault.text(),
                ),
            ),
            None => request_fault(list, from + 1),
        }
    }
}

/// Reads the recipients of a request.
pub fn parse_requested(requested: &[String]) -> (r: Result<Vec<AgeRecipient>, GitveilError>)
    ensures
        match request_fault(text::texts(requested@), 0) {
            None => r matches Ok(v) && recipient::names(v@) == text::texts(requested@),
            Some(fault) => r matches Err(e) && e@ == fault,
        },
{
    let ghost all = text::texts(requested@);
    let mut out: Vec<AgeRecipient> = Vec::new();
    let mut i: usize = 0;
    while i < requested.len()
        invariant
            i <= requested.len(),
            all == text::texts(requested@),
            request_fault(all, 0) == request_fault(all, i as int),
            out@.len() == i,
            forall|j: int| 0 <= j < i ==> (#[trigger] out@[j])@ == all[j],
        decreases requested.len() - i,
    {
        assert(all[i as int] == requested@[i as int]@);
        match AgeRecipient::new(requested[i].as_str()) {
            Ok(item) => {
                out.push(item);
            },
            Err(error) => {
                return Err(
                    GitveilError::configuration(
                        text::cat4(
                            "invalid public age recipient at index ",
                            segment::decimal_u64(i as u64).as_str(),
                            ": ",
                            error.message(),
                        ).as_str(),
                    ),
                );
            },
        }
        i = i + 1;
    }
    assert(recipient::names(out@) =~= all);
    Ok(out)
}

/// What an entry of the policy contributes: the recipients of its ciphertext, if it
/// has one that can be read.
pub open spec fn facts_for(entry: EntryModel, input: Option<Seq<u8>>) -> Result<
    plan::FactsModel,
    (ErrorCategory, Seq<char>),
> {
    match input {
        None => Ok(plan::FactsModel { path: entry.path, recipients: None }),
        Some(bytes) => match pair::envelope_of(
            entry.path + path::ciphertext_suffix(),
            entry.format,
            bytes,
        ) {
            Ok(envelope) => Ok(
                plan::FactsModel { path: entry.path, recipients: Some(envelope.recipients) },
            ),
            Err(fault) => Err(fault),
        },
    }
}

/// Whether an entry is encrypted to a policy.
pub fn uses_policy(entry: &ManifestEntry, policy: &PolicyName) -> (r: bool)
    ensures
        r == (entry@.policy == policy@),
{
    entry.recipient_policy().same(policy)
}

/// Reads the recipients of an entry's ciphertext. One that cannot be read is left out
/// of the plan; its drift stays visible to data commands.
pub fn read_facts(entry: &ManifestEntry, input: Option<&[u8]>) -> (r: Result<
    FileRecipientFacts,
    GitveilError,
>)
    ensures
        match facts_for(entry@, step::view_input(input)) {
            Ok(facts) => r matches Ok(f) && f@ == facts,
            Err(fault) => r matches Err(e) && e@ == fault,
        },
{
    match input {
        None => Ok(FileRecipientFacts { path: entry.path().clone(), envelope_recipients: None }),
        Some(bytes) => match pair::parse_envelope(&entry.ciphertext_path(), entry.format(), bytes) {
            Ok(envelope) => Ok(
                FileRecipientFacts {
                    path: entry.path().clone(),
                    envelope_recipients: Some(
                        recipient::clone_recipients(envelope.age_recipients()),
                    ),
                },
            ),
            Err(error) => Err(error),
        },
    }
}

/// An accepted change of recipients: its plan, the policy that files are encrypted to,
/// and the manifest that is published.
#[derive(Debug)]
pub struct AuthorizationChange {
    pub plan: AuthorizationPlan,
    pub policy: AgeRecipientPolicy,
    pub candidate: Vec<u8>,
}

pub struct ChangeModel {
    pub plan: plan::PlanModel,
    pub policy: PolicyModel,
    pub candidate: Seq<u8>,
}

impl View for AuthorizationChange {
    type V = ChangeModel;

    open spec fn view(&self) -> ChangeModel {
        ChangeModel { plan: self.plan@, policy: self.policy@, candidate: self.candidate@ }
    }
}

/// The change of a policy of a manifest, or why it is refused.
pub open spec fn change_of(
    m: ManifestModel,
    name: Seq<char>,
    mutation: plan::MutationModel,
    files: Seq<plan::FactsModel>,
) -> Result<ChangeModel, (ErrorCategory, Seq<char>)> {
    match manifest::policy_of(m.policies, name) {
        None => Err(
            (
                ErrorCategory::Integrity,
                "selected recipient policy disappeared from the parsed manifest"@,
            ),
        ),
        Some(policy) => match plan::authorization(policy.recipients, mutation, files) {
            Err(rejection) => Err((ErrorCategory::Configuration, rejection.text())),
            Ok(plan) => {
                let changed = ManifestModel {
                    entries: m.entries,
                    policies: manifest::with_recipients(m.policies, name, plan.desired),
                };
                match manifest_document::serialized(changed) {
                    Err(fault) => Err(fault),
                    Ok(candidate) => Ok(
                        ChangeModel {
                            plan,
                            policy: PolicyModel { name, recipients: plan.desired },
                            candidate,
                        },
                    ),
                }
            },
        },
    }
}

pub open spec fn view_change(r: Result<AuthorizationChange, GitveilError>) -> Result<
    ChangeModel,
    (ErrorCategory, Seq<char>),
> {
    match r {
        Ok(change) => Ok(change@),
        Err(e) => Err(e@),
    }
}

/// Plans a change of a policy's recipients and the manifest that goes with it. The
/// recipients of an accepted plan always are a policy.
pub fn authorize(
    document: &Manifest,
    name: &PolicyName,
    mutation: &RecipientMutation,
    files: &[FileRecipientFacts],
) -> (r: Result<AuthorizationChange, GitveilError>)
    ensures
        view_change(r) == change_of(document@, name@, mutation@, plan::facts_of(files@)),
{
    let policy = match document.recipient_policy(name) {
        Some(policy) => policy,
        None => {
            return Err(
                GitveilError::new(
                    ErrorCategory::Integrity,
                    "selected recipient policy disappeared from the parsed manifest".to_owned(),
                ),
            );
        },
    };
    let _ = policy.recipients();
    let plan = match plan::plan_authorization(policy, mutation, files) {
        Ok(plan) => plan,
        Err(rejection) => {
            return Err(GitveilError::configuration(rejection.message().as_str()));
        },
    };
    proof {
        plan::law_plan_changes_named_recipients(
            policy@.recipients,
            mutation@,
            plan::facts_of(files@),
            Seq::empty(),
        );
    }
    let desired = match AgeRecipientPolicy::new(
        name.clone(),
        recipient::clone_recipients(plan.desired_recipients.as_slice()),
    ) {
        Ok(desired) => desired,
        Err(error) => {
            return Err(
                GitveilError::new(
                    ErrorCategory::Integrity,
                    text::cat2(
                        "authorization plan produced an invalid policy: ",
                        error.message(),
                    ),
                ),
            );
        },
    };
    let mut candidate = document.clone();
    match candidate.set_policy_recipients(
        name,
        recipient::clone_recipients(plan.desired_recipients.as_slice()),
    ) {
        Ok(_) => {},
        Err(error) => {
            return Err(
                GitveilError::new(ErrorCategory::Integrity, error.message()),
            );
        },
    }
    match manifest_document::serialize_manifest(&candidate) {
        Ok(bytes) => Ok(AuthorizationChange { plan, policy: desired, candidate: bytes }),
        Err(error) => Err(error),
    }
}

/// The position of a file that the plan names.
pub fn find_file(paths: &[ManagedPath], path: &ManagedPath) -> (r: Result<usize, GitveilError>)
    ensures
        match r {
            Ok(i) => i < paths@.len() && paths@[i as int]@ == path@ && forall|j: int|
                0 <= j < i ==> (#[trigger] paths@[j])@ != path@,
            Err(e) => !path::path_texts(paths@).contains(path@) && e@ == (
                ErrorCategory::Integrity,
                "authorization plan references unknown file "@ + path@,
            ),
        },
{
    let mut i: usize = 0;
    while i < paths.len()
        invariant
            i <= paths.len(),
            forall|j: int| 0 <= j < i ==> (#[trigger] paths@[j])@ != path@,
        decreases paths.len() - i,
    {
        if paths[i].same(path) {
            return Ok(i);
        }
        i = i + 1;
    }
    assert forall|j: int| 0 <= j < paths@.len() implies path::path_texts(paths@)[j] != path@ by {
        assert(path::path_texts(paths@)[j] == paths@[j]@);
    }
    Err(
        GitveilError::new(
            ErrorCategory::Integrity,
            text::cat2("authorization plan references unknown file ", path.as_str()),
        ),
    )
}

/// Decides after the trial decryption whether anything is published: where no file can
/// be decrypted the manifest stays as it is, and the first failure is reported.
pub fn check_preflight(ready: usize, failure: Option<GitveilError>) -> (r: Result<
    (),
    GitveilError,
>)
    ensures
        if ready > 0 {
            r.is_ok()
        } else {
            match failure {
                Some(fault) => r matches Err(e) && e@ == fault@,
                None => r matches Err(e) && e@ == (
                    ErrorCategory::Integrity,
                    "recipient convergence preflight produced no result"@,
                ),
            }
        },
{
    if ready > 0 {
        return Ok(());
    }
    match failure {
        Some(error) => Err(error),
        None => Err(
            GitveilError::new(
                ErrorCategory::Integrity,
                "recipient convergence preflight produced no result".to_owned(),
            ),
        ),
    }
}

/// Decides whether the manifest is published: only where the policy changed, and never
/// over a document that changed in the meantime.
pub fn check_publication(
    changed: bool,
    preparation: &ManifestPreparation,
    current: Option<&[u8]>,
) -> (r: Result<bool, GitveilError>)
    ensures
        if !changed {
            r == Ok::<bool, GitveilError>(false)
        } else if step::view_input(current) == Some(preparation@.original) {
            r == Ok::<bool, GitveilError>(true)
        } else {
            r matches Err(e) && e@ == manifest_document::changed_fault("gitveil recipient"@)
        },
{
    if !changed {
        return Ok(false);
    }
    match manifest_document::require_fresh(preparation, current, "gitveil recipient") {
        Ok(_) => Ok(true),
        Err(error) => Err(error),
    }
}

/// An envelope whose recipients are the authorized ones.
pub open spec fn authorized_envelope(
    path: Seq<char>,
    format: SourceFormat,
    policy: PolicyModel,
    output: Seq<u8>,
) -> Result<ciphertext::CiphertextModel, (ErrorCategory, Seq<char>)> {
    match pair::envelope_of(path, format, output) {
        Err(fault) => Err(fault),
        Ok(envelope) => if step::aligned(policy, envelope.recipients) {
            Ok(envelope)
        } else {
            Err(
                (
                    ErrorCategory::Integrity,
                    "SOPS result recipients do not match the authorized set of policy "@
                        + policy.name + " at "@ + path,
                ),
            )
        },
    }
}

/// Checks the envelope that a change of recipients gave.
pub fn accept_authorized(
    path: &ManagedPath,
    format: SourceFormat,
    policy: &AgeRecipientPolicy,
    output: &[u8],
) -> (r: Result<CiphertextEnvelope, GitveilError>)
    ensures
        pair::view_envelope(r) == authorized_envelope(path@, format, policy@, output@),
{
    let envelope = match pair::parse_envelope(path, format, output) {
        Ok(envelope) => envelope,
        Err(error) => {
            return Err(error);
        },
    };
    if policy.matches(envelope.age_recipients()) {
        return Ok(envelope);
    }
    Err(
        GitveilError::new(
            ErrorCategory::Integrity,
            text::cat4(
                "SOPS result recipients do not match the authorized set of policy ",
                policy.name().as_str(),
                " at ",
                path.as_str(),
            ),
        ),
    )
}

/// What keeps a rewrapped envelope from being accepted.
pub open spec fn rewrap_fault(
    path: Seq<char>,
    format: SourceFormat,
    policy: PolicyModel,
    before: Seq<u8>,
    after: Seq<u8>,
) -> Option<(ErrorCategory, Seq<char>)> {
    match pair::envelope_of(path, format, before) {
        Err(fault) => Some(fault),
        Ok(old_envelope) => match authorized_envelope(path, format, policy, after) {
            Err(fault) => Some(fault),
            Ok(new_envelope) => if leaf_map::same_leaves(old_envelope.leaves, new_envelope.leaves)
                && old_envelope.layout == new_envelope.layout {
                None
            } else {
                Some(
                    (
                        ErrorCategory::Integrity,
                        "SOPS recipient update changed encrypted data at "@ + path,
                    ),
                )
            },
        },
    }
}

/// Checks that a rewrap changed only the wrapped data key: the recipient set is
/// exactly the desired policy and every encrypted leaf stayed byte-for-byte stable.
pub fn verify_rewrap(
    path: &ManagedPath,
    format: SourceFormat,
    policy: &AgeRecipientPolicy,
    before: &[u8],
    after: &[u8],
) -> (r: Result<(), GitveilError>)
    ensures
        match rewrap_fault(path@, format, policy@, before@, after@) {
            None => r.is_ok(),
            Some(fault) => r matches Err(e) && e@ == fault,
        },
{
    let old_envelope = match pair::parse_envelope(path, format, before) {
        Ok(envelope) => envelope,
        Err(error) => {
            return Err(error);
        },
    };
    let new_envelope = match accept_authorized(path, format, policy, after) {
        Ok(envelope) => envelope,
        Err(error) => {
            return Err(error);
        },
    };
    if old_envelope.same_ciphertext(&new_envelope) {
        return Ok(());
    }
    Err(
        GitveilError::new(
            ErrorCategory::Integrity,
            text::cat2("SOPS recipient update changed encrypted data at ", path.as_str()),
        ),
    )
}

/// Checks the document that a re-encrypted envelope decrypts to.
pub fn accept_rotated(path: &ManagedPath, document: &SourceDocument, roundtrip: &SourceDocument) -> (r:
    Result<(), GitveilError>)
    ensures
        if roundtrip@ == document@ {
            r.is_ok()
        } else {
            r matches Err(e) && e@ == (
                ErrorCategory::Integrity,
                "rotated ciphertext failed semantic verification at "@ + path@,
            )
        },
{
    if roundtrip.semantic_eq(document) {
        return Ok(());
    }
    Err(
        GitveilError::new(
            ErrorCategory::Integrity,
            text::cat2("rotated ciphertext failed semantic verification at ", path.as_str()),
        ),
    )
}

/// Law: a change of recipients publishes a manifest in which the policy has exactly
/// the planned recipients, and nothing else differs.
pub proof fn law_change_touches_one_policy(
    m: ManifestModel,
    name: Seq<char>,
    mutation: plan::MutationModel,
    files: Seq<plan::FactsModel>,
)
    requires
        change_of(m, name, mutation, files) is Ok,
    ensures
        ({
            let change = change_of(m, name, mutation, files)->Ok_0;
            &&& change.policy.name == name
            &&& change.policy.recipients == change.plan.desired
            &&& manifest::read_bytes(change.candidate) == Ok::<
                ManifestModel,
                manifest::ManifestFault,
            >(
                ManifestModel {
                    entries: m.entries,
                    policies: manifest::with_recipients(m.policies, name, change.plan.desired),
                },
            )
        }),
{
}

} // verus!
