//! The steps of resolving one managed pair, in their order: the three stages, the
//! plan with the recipients of the result, and the check of what encryption gave.

use vstd::prelude::*;

use crate::baseline::cipher;
use crate::baseline::record;
use crate::baseline::{BaselineRecord, CipherSummary};
use crate::config::SourceFormat;
use crate::envelope::ciphertext;
use crate::envelope::CiphertextEnvelope;
use crate::error;
use crate::error::{ErrorCategory, GitveilError, SecretBytes};
use crate::open::step;
use crate::pair;
use crate::path::ManagedPath;
use crate::recipient;
use crate::recipient::{AgeRecipient, AgeRecipientPolicy, PolicyModel};
use crate::resolve::plan;
use crate::resolve::plan::{MergePlan, MergePlanModel};
use crate::seal::step as seal;
use crate::semantic::order;
use crate::source::document;
use crate::source::node;
use crate::source::{NodePath, SourceDocument};
use crate::text;

verus! {

/// The size of the markers that Git writes.
pub const MARKER_SIZE: usize = 7;

#[derive(Debug, PartialEq, Eq)]
pub enum ResolveOutcome {
    /// The merge was completed; ciphertext and plaintext were rewritten.
    /// `data_key_rotated` reports that policy-removed recipients were
    /// excluded from the merged envelope under a fresh data key;
    /// `recipient_drift` reports pending additions.
    Resolved { data_key_rotated: bool, recipient_drift: bool },
    /// Same-key conflicts remain: the plaintext holds a conflict document to
    /// edit, the working ciphertext was normalized to the local (ours) side,
    /// and sealing finishes the resolution.
    ConflictWritten(NodePath),
}

/// The envelope of a stage of the index.
pub open spec fn stage_of(
    path: Seq<char>,
    format: SourceFormat,
    stage: Seq<char>,
    input: Seq<u8>,
) -> Result<ciphertext::CiphertextModel, (ErrorCategory, Seq<char>)> {
    match ciphertext::ciphertext_bytes(input, format) {
        Ok(envelope) => Ok(envelope),
        Err(fault) => Err(
            error::ciphertext_error(
                path,
                "invalid "@ + stage + " ciphertext: "@ + fault.text(),
            ),
        ),
    }
}

/// Checks the ciphertext of a stage before it is decrypted.
pub fn read_stage(path: &ManagedPath, format: SourceFormat, stage: &str, input: &[u8]) -> (r: Result<
    CiphertextEnvelope,
    GitveilError,
>)
    ensures
        pair::view_envelope(r) == stage_of(path@, format, stage@, input@),
{
    match CiphertextEnvelope::parse(input, format) {
        Ok(envelope) => Ok(envelope),
        Err(error) => Err(
            GitveilError::ciphertext(
                path,
                text::cat4(
                    "invalid ",
                    stage,
                    " ciphertext: ",
                    error.message().as_str(),
                ).as_str(),
            ),
        ),
    }
}

/// A merge that is ready for encryption. It is encrypted afresh where recipients are
/// excluded, and else edited into the ciphertext of our side.
pub struct MergeTask {
    pub merged: SourceDocument,
    pub payload: SecretBytes,
    pub target: Vec<AgeRecipient>,
    pub narrowed: Option<AgeRecipientPolicy>,
}

pub enum Resolution {
    Merged(MergeTask),
    Conflict { path: NodePath, document: SecretBytes },
}

pub enum ResolutionModel {
    Merged {
        merged: document::DocumentModel,
        payload: Seq<u8>,
        target: Seq<Seq<char>>,
        narrowed: Option<PolicyModel>,
    },
    Conflict { path: Seq<node::Step>, document: Seq<u8> },
}

pub open spec fn view_policy(p: Option<AgeRecipientPolicy>) -> Option<PolicyModel> {
    match p {
        Some(policy) => Some(policy@),
        None => None,
    }
}

impl View for Resolution {
    type V = ResolutionModel;

    open spec fn view(&self) -> ResolutionModel {
        match self {
            Resolution::Merged(task) => ResolutionModel::Merged {
                merged: task.merged@,
                payload: task.payload@,
                target: recipient::names(task.target@),
                narrowed: view_policy(task.narrowed),
            },
            Resolution::Conflict { path, document } => ResolutionModel::Conflict {
                path: path@,
                document: document@,
            },
        }
    }
}

/// The recipients that the merged content is encrypted to: those of our side that the
/// policy still holds.
pub open spec fn narrowed_target(ours: Seq<Seq<char>>, policy: Seq<Seq<char>>) -> Seq<Seq<char>> {
    order::kept(ours, policy)
}

/// How a merged document is encrypted.
pub open spec fn task_of(
    path: Seq<char>,
    cipher: Seq<char>,
    policy: PolicyModel,
    merged: document::DocumentModel,
    payload: Seq<u8>,
    recipients: Seq<Seq<char>>,
) -> Result<ResolutionModel, (ErrorCategory, Seq<char>)> {
    let target = narrowed_target(recipients, policy.recipients);
    if target.len() == 0 {
        Err(
            (
                ErrorCategory::Configuration,
                "no recipient of "@ + cipher + " remains in policy "@ + policy.name
                    + "; converge authorization with gitveil recipient before resolving"@,
            ),
        )
    } else if target.len() == recipients.len() {
        Ok(ResolutionModel::Merged { merged, payload, target, narrowed: None })
    } else {
        match recipient::policy_fault(target) {
            Some(fault) => Err(
                (
                    ErrorCategory::Integrity,
                    "narrowed recipient set is invalid at "@ + path + ": "@ + fault.text(),
                ),
            ),
            None => Ok(
                ResolutionModel::Merged {
                    merged,
                    payload,
                    target,
                    narrowed: Some(PolicyModel { name: policy.name, recipients: target }),
                },
            ),
        }
    }
}

/// What is done with three documents, given the ciphertext of our side.
pub open spec fn resolution_of(
    path: Seq<char>,
    cipher: Seq<char>,
    format: SourceFormat,
    policy: PolicyModel,
    stages: (document::DocumentModel, document::DocumentModel, document::DocumentModel),
    ours: Seq<u8>,
) -> Result<ResolutionModel, (ErrorCategory, Seq<char>)> {
    match plan::planned(stages.0, stages.1, stages.2, 7) {
        Err(fault) => Err(error::source_error(path, format, fault.text())),
        Ok(MergePlanModel::Conflict { path, document }) => Ok(
            ResolutionModel::Conflict { path, document },
        ),
        Ok(MergePlanModel::Merged(merged)) => match pair::payload_of(path, merged) {
            Err(fault) => Err(fault),
            Ok(payload) => match pair::envelope_of(path, format, ours) {
                Err(fault) => Err(fault),
                Ok(envelope) => task_of(path, cipher, policy, merged, payload, envelope.recipients),
            },
        },
    }
}

pub open spec fn view_resolution(r: Result<Resolution, GitveilError>) -> Result<
    ResolutionModel,
    (ErrorCategory, Seq<char>),
> {
    match r {
        Ok(resolution) => Ok(resolution@),
        Err(e) => Err(e@),
    }
}

fn narrow(ours: &[AgeRecipient], policy: &[AgeRecipient]) -> (r: Vec<AgeRecipient>)
    ensures
        recipient::names(r@) == narrowed_target(recipient::names(ours@), recipient::names(policy@)),
{
    let ghost all = recipient::names(ours@);
    let ghost allowed = recipient::names(policy@);
    let mut out: Vec<AgeRecipient> = Vec::new();
    let mut i: usize = 0;
    proof {
        reveal(Seq::filter);
        assert(all.take(0) =~= Seq::<Seq<char>>::empty());
        assert(recipient::names(out@) =~= Seq::<Seq<char>>::empty());
    }
    while i < ours.len()
        invariant
            i <= ours.len(),
            all == recipient::names(ours@),
            allowed == recipient::names(policy@),
            recipient::names(out@) == order::kept(all.take(i as int), allowed),
        decreases ours.len() - i,
    {
        proof {
            order::lemma_kept_step(all, allowed, i as int);
            assert(all[i as int] == ours@[i as int]@);
        }
        if recipient::contains_recipient(policy, &ours[i]) {
            let ghost before = out@;
            out.push(ours[i].clone());
            assert(recipient::names(out@) =~= recipient::names(before).push(ours@[i as int]@));
        }
        i = i + 1;
    }
    assert(all.take(i as int) =~= all);
    out
}

/// Plans the resolution of a pair. Resolving is a data command and never extends
/// access: the merged content, which has values of their side, is encrypted to the
/// recipients of our side that the policy still holds.
pub fn plan_resolution(
    path: &ManagedPath,
    cipher: &ManagedPath,
    format: SourceFormat,
    policy: &AgeRecipientPolicy,
    base: &SourceDocument,
    ours: &SourceDocument,
    theirs: &SourceDocument,
    ours_bytes: &[u8],
) -> (r: Result<Resolution, GitveilError>)
    requires
        node::named_tags(ours@.root),
        node::named_tags(theirs@.root),
    ensures
        view_resolution(r) == resolution_of(
            path@,
            cipher@,
            format,
            policy@,
            (base@, ours@, theirs@),
            ours_bytes@,
        ),
        r matches Ok(Resolution::Merged(task)) ==> node::named_tags(task.merged@.root),
{
    let merged = match plan::plan_merge(base, ours, theirs, MARKER_SIZE) {
        Err(error) => {
            return Err(GitveilError::source(path, format, error.message().as_str()));
        },
        Ok(MergePlan::Conflict { path, document }) => {
            return Ok(Resolution::Conflict { path, document });
        },
        Ok(MergePlan::Merged(merged)) => merged,
    };
    let payload = match pair::desired_envelope(&merged, path) {
        Ok(payload) => payload,
        Err(error) => {
            return Err(error);
        },
    };
    let envelope = match pair::parse_envelope(path, format, ours_bytes) {
        Ok(envelope) => envelope,
        Err(error) => {
            return Err(error);
        },
    };
    let target = narrow(envelope.age_recipients(), policy.recipients());
    if target.len() == 0 {
        return Err(
            GitveilError::configuration(
                text::cat5(
                    "no recipient of ",
                    cipher.as_str(),
                    " remains in policy ",
                    policy.name().as_str(),
                    "; converge authorization with gitveil recipient before resolving",
                ).as_str(),
            ),
        );
    }
    if target.len() == envelope.age_recipients().len() {
        return Ok(Resolution::Merged(MergeTask { merged, payload, target, narrowed: None }));
    }
    match AgeRecipientPolicy::new(
        policy.name().clone(),
        recipient::clone_recipients(target.as_slice()),
    ) {
        Ok(narrowed) => Ok(
            Resolution::Merged(MergeTask { merged, payload, target, narrowed: Some(narrowed) }),
        ),
        Err(error) => Err(
            GitveilError::new(
                ErrorCategory::Integrity,
                text::cat4(
                    "narrowed recipient set is invalid at ",
                    path.as_str(),
                    ": ",
                    error.message(),
                ),
            ),
        ),
    }
}

/// The envelope of a merge, whose recipients must be the target, each as often.
pub open spec fn merged_envelope(
    path: Seq<char>,
    format: SourceFormat,
    target: Seq<Seq<char>>,
    output: Seq<u8>,
) -> Result<ciphertext::CiphertextModel, (ErrorCategory, Seq<char>)> {
    match pair::envelope_of(path, format, output) {
        Err(fault) => Err(fault),
        Ok(envelope) => if envelope.recipients.to_multiset() == target.to_multiset() {
            Ok(envelope)
        } else {
            Err(
                (
                    ErrorCategory::Integrity,
                    "merge produced an envelope outside the narrowed recipient set at "@ + path,
                ),
            )
        },
    }
}

fn position_of(list: &Vec<AgeRecipient>, item: &AgeRecipient) -> (r: Option<usize>)
    ensures
        match r {
            Some(i) => i < list@.len() && recipient::names(list@)[i as int] == item@,
            None => !recipient::names(list@).contains(item@),
        },
{
    let mut i: usize = 0;
    while i < list.len()
        invariant
            i <= list.len(),
            forall|j: int| 0 <= j < i ==> #[trigger] recipient::names(list@)[j] != item@,
        decreases list.len() - i,
    {
        assert(recipient::names(list@)[i as int] == list@[i as int]@);
        if list[i].same(item) {
            return Some(i);
        }
        i = i + 1;
    }
    None
}

/// Whether two lists hold the same recipients, each as often.
fn same_multiset(a: &[AgeRecipient], b: &[AgeRecipient]) -> (r: bool)
    ensures
        r == (recipient::names(a@).to_multiset() == recipient::names(b@).to_multiset()),
{
    broadcast use vstd::seq_lib::group_to_multiset_ensures;

    let ghost all = recipient::names(a@);
    let ghost wanted = recipient::names(b@);
    let mut rest = recipient::clone_recipients(b);
    let mut i: usize = 0;
    assert(all.take(0).to_multiset() =~= vstd::multiset::Multiset::<Seq<char>>::empty());
    assert(recipient::names(rest@) == wanted);
    assert(all.take(0).to_multiset().add(recipient::names(rest@).to_multiset())
        =~= wanted.to_multiset());
    while i < a.len()
        invariant
            i <= a.len(),
            all == recipient::names(a@),
            wanted == recipient::names(b@),
            all.take(i as int).to_multiset().add(recipient::names(rest@).to_multiset())
                == wanted.to_multiset(),
        decreases a.len() - i,
    {
        let ghost before = recipient::names(rest@);
        let ghost held = rest@;
        let ghost x = a@[i as int]@;
        assert(all.take(i + 1) =~= all.take(i as int).push(x));
        match position_of(&rest, &a[i]) {
            Some(at) => {
                let _ = rest.remove(at);
                proof {
                    assert(recipient::names(rest@) =~= before.remove(at as int));
                    vstd::seq_lib::to_multiset_remove(before, at as int);
                    vstd::seq_lib::to_multiset_build(all.take(i as int), x);
                    vstd::seq_lib::to_multiset_contains(before, x);
                    assert(before[at as int] == x);
                    assert(before.contains(x));
                    assert(all.take(i + 1).to_multiset().add(
                        recipient::names(rest@).to_multiset(),
                    ) =~= wanted.to_multiset());
                }
            },
            None => {
                proof {
                    vstd::seq_lib::to_multiset_contains(before, x);
                    let head = all.take(i as int);
                    assert(wanted.to_multiset().count(x) == head.to_multiset().count(x));
                    vstd::seq_lib::to_multiset_build(head, x);
                    lemma_count_grows(all, i + 1, x);
                    assert(all.to_multiset().count(x) > wanted.to_multiset().count(x));
                }
                return false;
            },
        }
        i = i + 1;
    }
    assert(all.take(i as int) =~= all);
    proof {
        vstd::seq_lib::to_multiset_len(recipient::names(rest@));
        vstd::seq_lib::to_multiset_len(all);
        vstd::seq_lib::to_multiset_len(wanted);
        if rest@.len() == 0 {
            assert(recipient::names(rest@) =~= Seq::<Seq<char>>::empty());
            assert(recipient::names(rest@).to_multiset() =~= vstd::multiset::Multiset::<
                Seq<char>,
            >::empty());
            assert(all.to_multiset() =~= wanted.to_multiset());
        } else {
            let x = recipient::names(rest@)[0];
            vstd::seq_lib::to_multiset_contains(recipient::names(rest@), x);
            assert(recipient::names(rest@).contains(x));
            assert(wanted.to_multiset().count(x) > all.to_multiset().count(x));
        }
    }
    rest.len() == 0
}

/// A longer part of a list holds nothing less often.
proof fn lemma_count_grows(list: Seq<Seq<char>>, n: int, x: Seq<char>)
    requires
        0 <= n <= list.len(),
    ensures
        list.take(n).to_multiset().count(x) <= list.to_multiset().count(x),
    decreases list.len(),
{
    broadcast use vstd::seq_lib::group_to_multiset_ensures;

    if n < list.len() {
        let head = list.drop_last();
        assert(head.take(n) =~= list.take(n));
        lemma_count_grows(head, n, x);
        assert(list =~= head.push(list.last()));
        vstd::seq_lib::to_multiset_build(head, list.last());
    } else {
        assert(list.take(n) =~= list);
    }
}

/// Checks the envelope of a merge: its form, and that its recipients are the target
/// exactly.
pub fn accept_merge(
    path: &ManagedPath,
    format: SourceFormat,
    target: &[AgeRecipient],
    output: &[u8],
) -> (r: Result<CiphertextEnvelope, GitveilError>)
    ensures
        pair::view_envelope(r) == merged_envelope(
            path@,
            format,
            recipient::names(target@),
            output@,
        ),
{
    let envelope = match pair::parse_envelope(path, format, output) {
        Ok(envelope) => envelope,
        Err(error) => {
            return Err(error);
        },
    };
    if same_multiset(envelope.age_recipients(), target) {
        return Ok(envelope);
    }
    Err(
        GitveilError::new(
            ErrorCategory::Integrity,
            text::cat2(
                "merge produced an envelope outside the narrowed recipient set at ",
                path.as_str(),
            ),
        ),
    )
}

/// Checks the document that the envelope of a merge decrypts to.
pub fn accept_merged(path: &ManagedPath, merged: &SourceDocument, verified: &SourceDocument) -> (r:
    Result<(), GitveilError>)
    ensures
        if verified@ == merged@ {
            r.is_ok()
        } else {
            r matches Err(e) && e@ == (
                ErrorCategory::Integrity,
                "merge result failed semantic verification at "@ + path@,
            )
        },
{
    if verified.semantic_eq(merged) {
        return Ok(());
    }
    Err(
        GitveilError::new(
            ErrorCategory::Integrity,
            text::cat2("merge result failed semantic verification at ", path.as_str()),
        ),
    )
}

/// Ends a completed merge: what is recorded as synchronized, and what is reported.
pub fn finish_merge(
    policy: &AgeRecipientPolicy,
    merged: &SourceDocument,
    rotated: bool,
    envelope: &CiphertextEnvelope,
) -> (r: (BaselineRecord, ResolveOutcome))
    ensures
        r.0@.plain_diff(merged@).empty(),
        r.0@.cipher_diff(cipher::summary_of(envelope@)).empty(),
        exists|salt: [u8; 32]|
            r.0@ == #[trigger] record::captured(merged@, cipher::summary_of(envelope@), salt@),
        r.1 == (ResolveOutcome::Resolved {
            data_key_rotated: rotated,
            recipient_drift: !seal::aligned(policy@, envelope@.recipients),
        }),
{
    let summary = CipherSummary::from_envelope(envelope);
    let record = BaselineRecord::capture_fresh(merged, &summary);
    let drift = policy.diff(envelope.age_recipients());
    (
        record,
        ResolveOutcome::Resolved {
            data_key_rotated: rotated,
            recipient_drift: !drift.is_empty(),
        },
    )
}

/// What a command reports that found nothing in conflict.
pub fn require_conflicts(reports: usize) -> (r: Result<(), GitveilError>)
    ensures
        if reports > 0 {
            r.is_ok()
        } else {
            r matches Err(e) && e@ == (
                ErrorCategory::Conflict,
                "no conflicted managed ciphertext in the index; nothing to resolve"@,
            )
        },
{
    if reports > 0 {
        Ok(())
    } else {
        Err(
            GitveilError::new(
                ErrorCategory::Conflict,
                "no conflicted managed ciphertext in the index; nothing to resolve".to_owned(),
            ),
        )
    }
}

/// Law: resolving never extends access. Merged content is encrypted only to
/// recipients of our side that the policy holds, and a fresh data key is taken where
/// one of our side is left out.
pub proof fn law_resolve_never_extends_access(
    path: Seq<char>,
    cipher: Seq<char>,
    policy: PolicyModel,
    merged: document::DocumentModel,
    payload: Seq<u8>,
    recipients: Seq<Seq<char>>,
    x: Seq<char>,
)
    ensures
        match task_of(path, cipher, policy, merged, payload, recipients) {
            Ok(ResolutionModel::Merged { target, narrowed, .. }) => {
                &&& target.contains(x) <==> recipients.contains(x) && policy.recipients.contains(x)
                &&& narrowed matches Some(n) ==> n.recipients == target
                &&& recipients.contains(x) && !policy.recipients.contains(x) ==> narrowed is Some
            },
            Ok(ResolutionModel::Conflict { .. }) => false,
            Err(_) => true,
        },
{
    lemma_kept_members(recipients, policy.recipients, x);
}

pub proof fn lemma_kept_members(list: Seq<Seq<char>>, a: Seq<Seq<char>>, x: Seq<char>)
    ensures
        order::kept(list, a).contains(x) <==> list.contains(x) && a.contains(x),
        order::kept(list, a).len() <= list.len(),
        list.contains(x) && !a.contains(x) ==> order::kept(list, a).len() < list.len(),
    decreases list.len(),
{
    reveal(Seq::filter);
    if list.len() > 0 {
        let head = list.drop_last();
        let last = list.last();
        lemma_kept_members(head, a, x);
        let k = order::kept(head, a);
        assert(list =~= head.push(last));
        assert(head.push(last).contains(x) <==> head.contains(x) || x == last) by {
            assert(head.push(last)[head.len() as int] == last);
            if head.contains(x) {
                let i = choose|i: int| 0 <= i < head.len() && head[i] == x;
                assert(head.push(last)[i] == x);
            }
            if head.push(last).contains(x) && x != last {
                let i = choose|i: int| 0 <= i < head.push(last).len() && head.push(last)[i] == x;
                assert(head[i] == x);
            }
        }
        assert(k.push(last).contains(x) <==> k.contains(x) || x == last) by {
            assert(k.push(last)[k.len() as int] == last);
            if k.contains(x) {
                let i = choose|i: int| 0 <= i < k.len() && k[i] == x;
                assert(k.push(last)[i] == x);
            }
            if k.push(last).contains(x) && x != last {
                let i = choose|i: int| 0 <= i < k.push(last).len() && k.push(last)[i] == x;
                assert(k[i] == x);
            }
        }
    }
}

} // verus!
