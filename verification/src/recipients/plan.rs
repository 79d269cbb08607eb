//! Pure authorization planning.
//!
//! A recipient gains or loses the ability to decrypt an existing ciphertext only when
//! the operator names it explicitly. Every effective change of a file's recipients
//! must be explained by the requested mutation; an unexplained difference rejects the
//! whole request and names the offending recipient.

use vstd::prelude::*;

use crate::path::ManagedPath;
use crate::recipient;
use crate::recipient::{AgeRecipient, AgeRecipientPolicy};
use crate::text;

verus! {

/// The requested mutation, as it was given.
#[derive(Debug, PartialEq, Eq)]
pub enum RecipientMutation {
    Add(Vec<AgeRecipient>),
    Remove(Vec<AgeRecipient>),
}

pub enum MutationModel {
    Add(Seq<Seq<char>>),
    Remove(Seq<Seq<char>>),
}

impl View for RecipientMutation {
    type V = MutationModel;

    open spec fn view(&self) -> MutationModel {
        match self {
            RecipientMutation::Add(list) => MutationModel::Add(recipient::names(list@)),
            RecipientMutation::Remove(list) => MutationModel::Remove(recipient::names(list@)),
        }
    }
}

impl MutationModel {
    /// The recipients that a mutation names.
    pub open spec fn named(self) -> Seq<Seq<char>> {
        match self {
            MutationModel::Add(list) => list,
            MutationModel::Remove(list) => list,
        }
    }

    pub open spec fn additions(self) -> Seq<Seq<char>> {
        match self {
            MutationModel::Add(list) => list,
            MutationModel::Remove(_) => Seq::empty(),
        }
    }

    pub open spec fn removals(self) -> Seq<Seq<char>> {
        match self {
            MutationModel::Add(_) => Seq::empty(),
            MutationModel::Remove(list) => list,
        }
    }
}

/// Public envelope facts for one manifest entry referencing the policy.
#[derive(Debug, PartialEq, Eq)]
pub struct FileRecipientFacts {
    pub path: ManagedPath,
    /// `None` when the ciphertext sibling does not exist yet.
    pub envelope_recipients: Option<Vec<AgeRecipient>>,
}

pub struct FactsModel {
    pub path: Seq<char>,
    pub recipients: Option<Seq<Seq<char>>>,
}

impl View for FileRecipientFacts {
    type V = FactsModel;

    open spec fn view(&self) -> FactsModel {
        FactsModel {
            path: self.path@,
            recipients: match self.envelope_recipients {
                Some(list) => Some(recipient::names(list@)),
                None => None,
            },
        }
    }
}

pub open spec fn facts_of(v: Seq<FileRecipientFacts>) -> Seq<FactsModel> {
    v.map_values(|f: FileRecipientFacts| f@)
}

/// How one existing ciphertext is brought to the desired recipient set.
#[derive(Clone, Copy, Debug, PartialEq, Eq, Structural)]
pub enum ConvergenceAction {
    AlreadyAligned,
    /// Additions only: the same data key is rewrapped and every encrypted leaf stays
    /// byte-for-byte stable.
    Rewrap,
    /// A removal: exclusion is only real under a fresh data key the removed party
    /// cannot unwrap, so the envelope is re-encrypted.
    Rotate,
}

/// Echo of one requested recipient's actual effect, so that the authorization action
/// always names its subject.
#[derive(Debug, PartialEq, Eq)]
pub enum GrantEcho {
    Added(AgeRecipient),
    AlreadyAuthorized(AgeRecipient),
    Removed(AgeRecipient),
    /// Absent from the policy but present on at least one ciphertext; the removal
    /// converges that drift.
    RemovedFromCiphertext(AgeRecipient),
}

pub enum GrantModel {
    Added(Seq<char>),
    AlreadyAuthorized(Seq<char>),
    Removed(Seq<char>),
    RemovedFromCiphertext(Seq<char>),
}

impl View for GrantEcho {
    type V = GrantModel;

    open spec fn view(&self) -> GrantModel {
        match self {
            GrantEcho::Added(r) => GrantModel::Added(r@),
            GrantEcho::AlreadyAuthorized(r) => GrantModel::AlreadyAuthorized(r@),
            GrantEcho::Removed(r) => GrantModel::Removed(r@),
            GrantEcho::RemovedFromCiphertext(r) => GrantModel::RemovedFromCiphertext(r@),
        }
    }
}

pub open spec fn grants_of(v: Seq<GrantEcho>) -> Seq<GrantModel> {
    v.map_values(|g: GrantEcho| g@)
}

#[derive(Debug, PartialEq, Eq)]
pub struct AuthorizationPlan {
    /// Final ordered recipient list for the policy.
    pub desired_recipients: Vec<AgeRecipient>,
    /// Whether the manifest policy itself changes.
    pub manifest_changed: bool,
    /// Convergence action per entry with an existing ciphertext.
    pub files: Vec<(ManagedPath, ConvergenceAction)>,
    pub grants: Vec<GrantEcho>,
}

pub struct PlanModel {
    pub desired: Seq<Seq<char>>,
    pub manifest_changed: bool,
    pub files: Seq<(Seq<char>, ConvergenceAction)>,
    pub grants: Seq<GrantModel>,
}

pub open spec fn actions_of(v: Seq<(ManagedPath, ConvergenceAction)>) -> Seq<
    (Seq<char>, ConvergenceAction),
> {
    v.map_values(|f: (ManagedPath, ConvergenceAction)| (f.0@, f.1))
}

impl View for AuthorizationPlan {
    type V = PlanModel;

    open spec fn view(&self) -> PlanModel {
        PlanModel {
            desired: recipient::names(self.desired_recipients@),
            manifest_changed: self.manifest_changed,
            files: actions_of(self.files@),
            grants: grants_of(self.grants@),
        }
    }
}

#[derive(Debug, PartialEq, Eq)]
pub enum AuthorizationRejection {
    DuplicateRequest(AgeRecipient),
    RemoveNotMember(AgeRecipient),
    EmptyPolicy,
    UnexplainedAddition { path: ManagedPath, recipient: AgeRecipient },
    UnexplainedRemoval { path: ManagedPath, recipient: AgeRecipient },
}

pub enum RejectionModel {
    DuplicateRequest(Seq<char>),
    RemoveNotMember(Seq<char>),
    EmptyPolicy,
    UnexplainedAddition { path: Seq<char>, recipient: Seq<char> },
    UnexplainedRemoval { path: Seq<char>, recipient: Seq<char> },
}

impl View for AuthorizationRejection {
    type V = RejectionModel;

    open spec fn view(&self) -> RejectionModel {
        match self {
            AuthorizationRejection::DuplicateRequest(r) => RejectionModel::DuplicateRequest(r@),
            AuthorizationRejection::RemoveNotMember(r) => RejectionModel::RemoveNotMember(r@),
            AuthorizationRejection::EmptyPolicy => RejectionModel::EmptyPolicy,
            AuthorizationRejection::UnexplainedAddition { path, recipient } =>
                RejectionModel::UnexplainedAddition { path: path@, recipient: recipient@ },
            AuthorizationRejection::UnexplainedRemoval { path, recipient } =>
                RejectionModel::UnexplainedRemoval { path: path@, recipient: recipient@ },
        }
    }
}

impl RejectionModel {
    pub open spec fn text(self) -> Seq<char> {
        match self {
            RejectionModel::DuplicateRequest(r) => "recipient "@ + r
                + " is requested more than once"@,
            RejectionModel::RemoveNotMember(r) => "recipient "@ + r
                + " is neither in the policy nor on any managed ciphertext"@,
            RejectionModel::EmptyPolicy =>
                "a policy must keep at least one recipient; this removal would empty it"@,
            RejectionModel::UnexplainedAddition { path, recipient } => "the policy grants "@
                + recipient + " but "@ + path
                + ".gitveil does not include it and this command did not add it; remove it from .gitveilrc.json or name it explicitly with gitveil recipient add"@,
            RejectionModel::UnexplainedRemoval { path, recipient } => path
                + ".gitveil includes "@ + recipient
                + " but the policy does not, and this command did not remove it; restore it in .gitveilrc.json or name it explicitly with gitveil recipient remove"@,
        }
    }
}

impl AuthorizationRejection {
    pub fn message(&self) -> (r: String)
        ensures
            r@ == self@.text(),
    {
        match self {
            AuthorizationRejection::DuplicateRequest(r) => text::cat3(
                "recipient ",
                r.as_str(),
                " is requested more than once",
            ),
            AuthorizationRejection::RemoveNotMember(r) => text::cat3(
                "recipient ",
                r.as_str(),
                " is neither in the policy nor on any managed ciphertext",
            ),
            AuthorizationRejection::EmptyPolicy =>
                "a policy must keep at least one recipient; this removal would empty it".to_owned(),
            AuthorizationRejection::UnexplainedAddition { path, recipient } => text::cat5(
                "the policy grants ",
                recipient.as_str(),
                " but ",
                path.as_str(),
                ".gitveil does not include it and this command did not add it; remove it from .gitveilrc.json or name it explicitly with gitveil recipient add",
            ),
            AuthorizationRejection::UnexplainedRemoval { path, recipient } => text::cat4(
                path.as_str(),
                ".gitveil includes ",
                recipient.as_str(),
                " but the policy does not, and this command did not remove it; restore it in .gitveilrc.json or name it explicitly with gitveil recipient remove",
            ),
        }
    }
}

/// The first element from a position on that an earlier one repeats.
pub open spec fn first_repeat(list: Seq<Seq<char>>, from: int) -> Option<Seq<char>>
    decreases list.len() - from,
{
    if from < 0 || from >= list.len() {
        None
    } else if list.take(from).contains(list[from]) {
        Some(list[from])
    } else {
        first_repeat(list, from + 1)
    }
}

/// The elements of a list that another lacks, in order.
pub open spec fn without(list: Seq<Seq<char>>, other: Seq<Seq<char>>) -> Seq<Seq<char>>
    decreases list.len(),
{
    if list.len() == 0 {
        Seq::empty()
    } else {
        let head = without(list.drop_last(), other);
        if other.contains(list.last()) {
            head
        } else {
            head.push(list.last())
        }
    }
}

/// The recipients after additions, and what each addition did.
pub open spec fn added(current: Seq<Seq<char>>, additions: Seq<Seq<char>>) -> (
    Seq<Seq<char>>,
    Seq<GrantModel>,
)
    decreases additions.len(),
{
    if additions.len() == 0 {
        (current, Seq::empty())
    } else {
        let (desired, grants) = added(current, additions.drop_last());
        let x = additions.last();
        if current.contains(x) {
            (desired, grants.push(GrantModel::AlreadyAuthorized(x)))
        } else {
            (desired.push(x), grants.push(GrantModel::Added(x)))
        }
    }
}

/// Some ciphertext has a recipient.
pub open spec fn on_ciphertext(files: Seq<FactsModel>, x: Seq<char>) -> bool {
    exists|i: int|
        0 <= i < files.len() && ((#[trigger] files[i]).recipients matches Some(list)
            && list.contains(x))
}

/// What each removal does, or the first that names no one.
pub open spec fn removal_grants(
    current: Seq<Seq<char>>,
    removals: Seq<Seq<char>>,
    files: Seq<FactsModel>,
) -> Result<Seq<GrantModel>, Seq<char>>
    decreases removals.len(),
{
    if removals.len() == 0 {
        Ok(Seq::empty())
    } else {
        match removal_grants(current, removals.drop_last(), files) {
            Err(x) => Err(x),
            Ok(grants) => {
                let x = removals.last();
                if current.contains(x) {
                    Ok(grants.push(GrantModel::Removed(x)))
                } else if on_ciphertext(files, x) {
                    Ok(grants.push(GrantModel::RemovedFromCiphertext(x)))
                } else {
                    Err(x)
                }
            },
        }
    }
}

/// The recipients after a mutation, and what it did to each named one.
pub open spec fn desired_and_grants_of(
    current: Seq<Seq<char>>,
    mutation: MutationModel,
    files: Seq<FactsModel>,
) -> Result<(Seq<Seq<char>>, Seq<GrantModel>), RejectionModel> {
    match mutation {
        MutationModel::Add(additions) => Ok(added(current, additions)),
        MutationModel::Remove(removals) => match removal_grants(current, removals, files) {
            Err(x) => Err(RejectionModel::RemoveNotMember(x)),
            Ok(grants) => {
                let desired = without(current, removals);
                if desired.len() == 0 {
                    Err(RejectionModel::EmptyPolicy)
                } else {
                    Ok((desired, grants))
                }
            },
        },
    }
}

/// How a ciphertext is brought to the desired recipients.
pub open spec fn action_for(desired: Seq<Seq<char>>, envelope: Seq<Seq<char>>) -> ConvergenceAction {
    if without(envelope, desired).len() > 0 {
        ConvergenceAction::Rotate
    } else if without(desired, envelope).len() > 0 {
        ConvergenceAction::Rewrap
    } else {
        ConvergenceAction::AlreadyAligned
    }
}

/// What a file calls for, where every change of its recipients is named.
pub open spec fn file_action(
    desired: Seq<Seq<char>>,
    mutation: MutationModel,
    path: Seq<char>,
    envelope: Seq<Seq<char>>,
) -> Result<ConvergenceAction, RejectionModel> {
    let unexplained_additions = without(without(desired, envelope), mutation.additions());
    let unexplained_removals = without(without(envelope, desired), mutation.removals());
    if unexplained_additions.len() > 0 {
        Err(
            RejectionModel::UnexplainedAddition { path, recipient: unexplained_additions[0] },
        )
    } else if unexplained_removals.len() > 0 {
        Err(RejectionModel::UnexplainedRemoval { path, recipient: unexplained_removals[0] })
    } else {
        Ok(action_for(desired, envelope))
    }
}

/// What the files call for, those without ciphertext left out.
pub open spec fn file_actions(
    desired: Seq<Seq<char>>,
    mutation: MutationModel,
    files: Seq<FactsModel>,
) -> Result<Seq<(Seq<char>, ConvergenceAction)>, RejectionModel>
    decreases files.len(),
{
    if files.len() == 0 {
        Ok(Seq::empty())
    } else {
        match file_actions(desired, mutation, files.drop_last()) {
            Err(rejection) => Err(rejection),
            Ok(list) => match files.last().recipients {
                None => Ok(list),
                Some(envelope) => match file_action(
                    desired,
                    mutation,
                    files.last().path,
                    envelope,
                ) {
                    Err(rejection) => Err(rejection),
                    Ok(action) => Ok(list.push((files.last().path, action))),
                },
            },
        }
    }
}

/// The plan for a mutation of a policy, or why it is rejected.
pub open spec fn authorization(
    current: Seq<Seq<char>>,
    mutation: MutationModel,
    files: Seq<FactsModel>,
) -> Result<PlanModel, RejectionModel> {
    match first_repeat(mutation.named(), 0) {
        Some(x) => Err(RejectionModel::DuplicateRequest(x)),
        None => match desired_and_grants_of(current, mutation, files) {
            Err(rejection) => Err(rejection),
            Ok((desired, grants)) => match file_actions(desired, mutation, files) {
                Err(rejection) => Err(rejection),
                Ok(actions) => Ok(
                    PlanModel {
                        desired,
                        manifest_changed: desired != current,
                        files: actions,
                        grants,
                    },
                ),
            },
        },
    }
}

pub open spec fn view_result(r: Result<AuthorizationPlan, AuthorizationRejection>) -> Result<
    PlanModel,
    RejectionModel,
> {
    match r {
        Ok(plan) => Ok(plan@),
        Err(rejection) => Err(rejection@),
    }
}

fn find_repeat(list: &[AgeRecipient]) -> (r: Option<&AgeRecipient>)
    ensures
        match r {
            Some(x) => first_repeat(recipient::names(list@), 0) == Some(x@),
            None => first_repeat(recipient::names(list@), 0) is None,
        },
{
    let ghost all = recipient::names(list@);
    let mut i: usize = 0;
    while i < list.len()
        invariant
            i <= list.len(),
            all == recipient::names(list@),
            first_repeat(all, 0) == first_repeat(all, i as int),
        decreases list.len() - i,
    {
        let mut j: usize = 0;
        let mut seen: bool = false;
        while j < i
            invariant
                j <= i < list.len(),
                all == recipient::names(list@),
                seen == exists|k: int| 0 <= k < j && #[trigger] all[k] == list@[i as int]@,
            decreases i - j,
        {
            assert(all[j as int] == list@[j as int]@);
            if list[j].same(&list[i]) {
                seen = true;
            }
            j = j + 1;
        }
        proof {
            assert(all[i as int] == list@[i as int]@);
            if seen {
                let k = choose|k: int| 0 <= k < i && #[trigger] all[k] == all[i as int];
                assert(all.take(i as int)[k] == all[i as int]);
            } else if all.take(i as int).contains(all[i as int]) {
                let part = all.take(i as int);
                let k = choose|k: int| 0 <= k < part.len() && part[k] == all[i as int];
                assert(all[k] == all[i as int]);
            }
        }
        if seen {
            return Some(&list[i]);
        }
        i = i + 1;
    }
    None
}

fn leave_out(list: &[AgeRecipient], other: &[AgeRecipient]) -> (r: Vec<AgeRecipient>)
    ensures
        recipient::names(r@) == without(recipient::names(list@), recipient::names(other@)),
{
    let ghost all = recipient::names(list@);
    let ghost named = recipient::names(other@);
    let mut out: Vec<AgeRecipient> = Vec::new();
    let mut i: usize = 0;
    assert(recipient::names(out@) =~= without(all.take(0), named));
    while i < list.len()
        invariant
            i <= list.len(),
            all == recipient::names(list@),
            named == recipient::names(other@),
            recipient::names(out@) == without(all.take(i as int), named),
        decreases list.len() - i,
    {
        assert(all.take(i + 1).drop_last() =~= all.take(i as int));
        assert(all.take(i + 1).last() == list@[i as int]@);
        if !recipient::contains_recipient(other, &list[i]) {
            let ghost before = out@;
            out.push(list[i].clone());
            assert(recipient::names(out@) =~= recipient::names(before).push(list@[i as int]@));
        }
        i = i + 1;
    }
    assert(all.take(i as int) =~= all);
    out
}

fn add_all(current: &[AgeRecipient], additions: &[AgeRecipient]) -> (r: (
    Vec<AgeRecipient>,
    Vec<GrantEcho>,
))
    ensures
        (recipient::names(r.0@), grants_of(r.1@)) == added(
            recipient::names(current@),
            recipient::names(additions@),
        ),
{
    let ghost all = recipient::names(additions@);
    let ghost held = recipient::names(current@);
    let mut desired = recipient::clone_recipients(current);
    let mut grants: Vec<GrantEcho> = Vec::new();
    let mut i: usize = 0;
    assert(grants_of(grants@) =~= Seq::<GrantModel>::empty());
    assert(all.take(0) =~= Seq::<Seq<char>>::empty());
    while i < additions.len()
        invariant
            i <= additions.len(),
            all == recipient::names(additions@),
            held == recipient::names(current@),
            (recipient::names(desired@), grants_of(grants@)) == added(held, all.take(i as int)),
        decreases additions.len() - i,
    {
        let ghost (d, g) = (desired@, grants@);
        let x = &additions[i];
        assert(all.take(i + 1).drop_last() =~= all.take(i as int));
        assert(all.take(i + 1).last() == x@);
        if recipient::contains_recipient(current, x) {
            grants.push(GrantEcho::AlreadyAuthorized(x.clone()));
            assert(grants_of(grants@) =~= grants_of(g).push(GrantModel::AlreadyAuthorized(x@)));
        } else {
            desired.push(x.clone());
            grants.push(GrantEcho::Added(x.clone()));
            assert(grants_of(grants@) =~= grants_of(g).push(GrantModel::Added(x@)));
            assert(recipient::names(desired@) =~= recipient::names(d).push(x@));
        }
        i = i + 1;
    }
    assert(all.take(i as int) =~= all);
    (desired, grants)
}

fn any_ciphertext_has(files: &[FileRecipientFacts], x: &AgeRecipient) -> (r: bool)
    ensures
        r == on_ciphertext(facts_of(files@), x@),
{
    let ghost all = facts_of(files@);
    let mut i: usize = 0;
    while i < files.len()
        invariant
            i <= files.len(),
            all == facts_of(files@),
            forall|j: int|
                0 <= j < i ==> !((#[trigger] all[j]).recipients matches Some(list)
                    && list.contains(x@)),
        decreases files.len() - i,
    {
        assert(all[i as int] == files@[i as int]@);
        match &files[i].envelope_recipients {
            Some(list) => {
                if recipient::contains_recipient(list.as_slice(), x) {
                    return true;
                }
            },
            None => {},
        }
        i = i + 1;
    }
    false
}

proof fn lemma_removals_fail(
    current: Seq<Seq<char>>,
    removals: Seq<Seq<char>>,
    files: Seq<FactsModel>,
    k: int,
)
    requires
        0 <= k <= removals.len(),
        removal_grants(current, removals.take(k), files) is Err,
    ensures
        removal_grants(current, removals, files) == removal_grants(
            current,
            removals.take(k),
            files,
        ),
    decreases removals.len(),
{
    if k < removals.len() {
        assert(removals.drop_last().take(k) =~= removals.take(k));
        lemma_removals_fail(current, removals.drop_last(), files, k);
    } else {
        assert(removals.take(k) =~= removals);
    }
}

fn grant_removals(
    current: &[AgeRecipient],
    removals: &[AgeRecipient],
    files: &[FileRecipientFacts],
) -> (r: Result<Vec<GrantEcho>, AuthorizationRejection>)
    ensures
        match removal_grants(
            recipient::names(current@),
            recipient::names(removals@),
            facts_of(files@),
        ) {
            Ok(grants) => r matches Ok(v) && grants_of(v@) == grants,
            Err(x) => r matches Err(e) && e@ == RejectionModel::RemoveNotMember(x),
        },
{
    let ghost all = recipient::names(removals@);
    let ghost held = recipient::names(current@);
    let ghost facts = facts_of(files@);
    let mut grants: Vec<GrantEcho> = Vec::new();
    let mut i: usize = 0;
    assert(grants_of(grants@) =~= Seq::<GrantModel>::empty());
    assert(all.take(0) =~= Seq::<Seq<char>>::empty());
    while i < removals.len()
        invariant
            i <= removals.len(),
            all == recipient::names(removals@),
            held == recipient::names(current@),
            facts == facts_of(files@),
            removal_grants(held, all.take(i as int), facts) == Ok::<Seq<GrantModel>, Seq<char>>(
                grants_of(grants@),
            ),
        decreases removals.len() - i,
    {
        let ghost g = grants@;
        let x = &removals[i];
        assert(all.take(i + 1).drop_last() =~= all.take(i as int));
        assert(all.take(i + 1).last() == x@);
        if recipient::contains_recipient(current, x) {
            grants.push(GrantEcho::Removed(x.clone()));
            assert(grants_of(grants@) =~= grants_of(g).push(GrantModel::Removed(x@)));
        } else if any_ciphertext_has(files, x) {
            grants.push(GrantEcho::RemovedFromCiphertext(x.clone()));
            assert(grants_of(grants@) =~= grants_of(g).push(
                GrantModel::RemovedFromCiphertext(x@),
            ));
        } else {
            proof {
                lemma_removals_fail(held, all, facts, i + 1);
            }
            return Err(AuthorizationRejection::RemoveNotMember(x.clone()));
        }
        i = i + 1;
    }
    assert(all.take(i as int) =~= all);
    Ok(grants)
}

fn desired_and_grants(
    current: &[AgeRecipient],
    mutation: &RecipientMutation,
    files: &[FileRecipientFacts],
) -> (r: Result<(Vec<AgeRecipient>, Vec<GrantEcho>), AuthorizationRejection>)
    ensures
        match desired_and_grants_of(recipient::names(current@), mutation@, facts_of(files@)) {
            Ok((desired, grants)) => r matches Ok(v) && recipient::names(v.0@) == desired
                && grants_of(v.1@) == grants,
            Err(rejection) => r matches Err(e) && e@ == rejection,
        },
{
    match mutation {
        RecipientMutation::Add(additions) => Ok(add_all(current, additions.as_slice())),
        RecipientMutation::Remove(removals) => {
            let grants = match grant_removals(current, removals.as_slice(), files) {
                Ok(grants) => grants,
                Err(rejection) => {
                    return Err(rejection);
                },
            };
            let desired = leave_out(current, removals.as_slice());
            if desired.len() == 0 {
                return Err(AuthorizationRejection::EmptyPolicy);
            }
            Ok((desired, grants))
        },
    }
}

fn plan_file(
    desired: &[AgeRecipient],
    mutation: &RecipientMutation,
    path: &ManagedPath,
    envelope: &[AgeRecipient],
) -> (r: Result<ConvergenceAction, AuthorizationRejection>)
    ensures
        match file_action(
            recipient::names(desired@),
            mutation@,
            path@,
            recipient::names(envelope@),
        ) {
            Ok(action) => r == Ok::<ConvergenceAction, AuthorizationRejection>(action),
            Err(rejection) => r matches Err(e) && e@ == rejection,
        },
{
    let none: Vec<AgeRecipient> = Vec::new();
    assert(recipient::names(none@) =~= Seq::<Seq<char>>::empty());
    let (additions, removals) = match mutation {
        RecipientMutation::Add(list) => (list.as_slice(), none.as_slice()),
        RecipientMutation::Remove(list) => (none.as_slice(), list.as_slice()),
    };
    let additions_needed = leave_out(desired, envelope);
    let removals_needed = leave_out(envelope, desired);
    let unexplained = leave_out(additions_needed.as_slice(), additions);
    if unexplained.len() > 0 {
        assert(recipient::names(unexplained@)[0] == unexplained@[0]@);
        return Err(
            AuthorizationRejection::UnexplainedAddition {
                path: path.clone(),
                recipient: unexplained[0].clone(),
            },
        );
    }
    let unexplained = leave_out(removals_needed.as_slice(), removals);
    if unexplained.len() > 0 {
        assert(recipient::names(unexplained@)[0] == unexplained@[0]@);
        return Err(
            AuthorizationRejection::UnexplainedRemoval {
                path: path.clone(),
                recipient: unexplained[0].clone(),
            },
        );
    }
    if removals_needed.len() > 0 {
        Ok(ConvergenceAction::Rotate)
    } else if additions_needed.len() > 0 {
        Ok(ConvergenceAction::Rewrap)
    } else {
        Ok(ConvergenceAction::AlreadyAligned)
    }
}

proof fn lemma_files_fail(
    desired: Seq<Seq<char>>,
    mutation: MutationModel,
    files: Seq<FactsModel>,
    k: int,
)
    requires
        0 <= k <= files.len(),
        file_actions(desired, mutation, files.take(k)) is Err,
    ensures
        file_actions(desired, mutation, files) == file_actions(desired, mutation, files.take(k)),
    decreases files.len(),
{
    if k < files.len() {
        assert(files.drop_last().take(k) =~= files.take(k));
        lemma_files_fail(desired, mutation, files.drop_last(), k);
    } else {
        assert(files.take(k) =~= files);
    }
}

fn plan_files(
    desired: &[AgeRecipient],
    mutation: &RecipientMutation,
    files: &[FileRecipientFacts],
) -> (r: Result<Vec<(ManagedPath, ConvergenceAction)>, AuthorizationRejection>)
    ensures
        match file_actions(recipient::names(desired@), mutation@, facts_of(files@)) {
            Ok(actions) => r matches Ok(v) && actions_of(v@) == actions,
            Err(rejection) => r matches Err(e) && e@ == rejection,
        },
{
    let ghost wanted = recipient::names(desired@);
    let ghost all = facts_of(files@);
    let mut out: Vec<(ManagedPath, ConvergenceAction)> = Vec::new();
    let mut i: usize = 0;
    assert(actions_of(out@) =~= Seq::<(Seq<char>, ConvergenceAction)>::empty());
    assert(all.take(0) =~= Seq::<FactsModel>::empty());
    while i < files.len()
        invariant
            i <= files.len(),
            wanted == recipient::names(desired@),
            all == facts_of(files@),
            file_actions(wanted, mutation@, all.take(i as int)) == Ok::<
                Seq<(Seq<char>, ConvergenceAction)>,
                RejectionModel,
            >(actions_of(out@)),
        decreases files.len() - i,
    {
        assert(all.take(i + 1).drop_last() =~= all.take(i as int));
        assert(all.take(i + 1).last() == files@[i as int]@);
        match &files[i].envelope_recipients {
            None => {},
            Some(envelope) => {
                match plan_file(desired, mutation, &files[i].path, envelope.as_slice()) {
                    Ok(action) => {
                        let ghost before = out@;
                        out.push((files[i].path.clone(), action));
                        assert(actions_of(out@) =~= actions_of(before).push(
                            (files@[i as int].path@, action),
                        ));
                    },
                    Err(rejection) => {
                        proof {
                            lemma_files_fail(wanted, mutation@, all, i + 1);
                        }
                        return Err(rejection);
                    },
                }
            },
        }
        i = i + 1;
    }
    assert(all.take(i as int) =~= all);
    Ok(out)
}

fn same_list(a: &[AgeRecipient], b: &[AgeRecipient]) -> (r: bool)
    ensures
        r == (recipient::names(a@) == recipient::names(b@)),
{
    assert(recipient::names(a@).len() == a@.len() && recipient::names(b@).len() == b@.len());
    if a.len() != b.len() {
        return false;
    }
    let mut i: usize = 0;
    while i < a.len()
        invariant
            i <= a.len() == b.len(),
            forall|j: int| 0 <= j < i ==> (#[trigger] a@[j])@ == b@[j]@,
        decreases a.len() - i,
    {
        if !a[i].same(&b[i]) {
            assert(recipient::names(a@)[i as int] != recipient::names(b@)[i as int]);
            return false;
        }
        i = i + 1;
    }
    assert(recipient::names(a@) =~= recipient::names(b@));
    true
}

/// Plans a change of a policy's recipients.
pub fn plan_authorization(
    policy: &AgeRecipientPolicy,
    mutation: &RecipientMutation,
    files: &[FileRecipientFacts],
) -> (r: Result<AuthorizationPlan, AuthorizationRejection>)
    ensures
        view_result(r) == authorization(policy@.recipients, mutation@, facts_of(files@)),
{
    let requested = match mutation {
        RecipientMutation::Add(list) => list.as_slice(),
        RecipientMutation::Remove(list) => list.as_slice(),
    };
    match find_repeat(requested) {
        Some(duplicate) => {
            return Err(AuthorizationRejection::DuplicateRequest(duplicate.clone()));
        },
        None => {},
    }
    let current = policy.recipients();
    let (desired_recipients, grants) = match desired_and_grants(current, mutation, files) {
        Ok(parts) => parts,
        Err(rejection) => {
            return Err(rejection);
        },
    };
    let manifest_changed = !same_list(desired_recipients.as_slice(), current);
    match plan_files(desired_recipients.as_slice(), mutation, files) {
        Ok(files) => Ok(
            AuthorizationPlan { desired_recipients, manifest_changed, files, grants },
        ),
        Err(rejection) => Err(rejection),
    }
}

/// Membership in what is left of a list.
pub proof fn lemma_without(list: Seq<Seq<char>>, other: Seq<Seq<char>>, x: Seq<char>)
    ensures
        without(list, other).contains(x) <==> list.contains(x) && !other.contains(x),
        list.no_duplicates() ==> without(list, other).no_duplicates(),
    decreases list.len(),
{
    if list.len() > 0 {
        let head = list.drop_last();
        let last = list.last();
        let k = without(head, other);
        lemma_without(head, other, x);
        lemma_without(head, other, last);
        lemma_push_contains(head, last, x);
        lemma_push_contains(k, last, x);
        assert(list =~= head.push(last));
        if list.no_duplicates() {
            assert forall|i: int, j: int| 0 <= i < head.len() && 0 <= j < head.len() && i != j implies
                head[i] != head[j] by {
                assert(list[i] == head[i] && list[j] == head[j]);
            }
            assert(head.no_duplicates());
            if head.contains(last) {
                let i = choose|i: int| 0 <= i < head.len() && head[i] == last;
                assert(list[i] == list[list.len() - 1]);
            }
            if !other.contains(last) {
                assert forall|i: int, j: int|
                    0 <= i < k.push(last).len() && 0 <= j < k.push(last).len() && i != j implies
                    k.push(last)[i] != k.push(last)[j] by {
                    if i == k.len() {
                        assert(k.contains(k[j]));
                    } else if j == k.len() {
                        assert(k.contains(k[i]));
                    }
                }
            }
        }
    }
}

proof fn lemma_push_contains(s: Seq<Seq<char>>, a: Seq<char>, x: Seq<char>)
    ensures
        s.push(a).contains(x) <==> s.contains(x) || x == a,
{
    assert(s.push(a)[s.len() as int] == a);
    if s.contains(x) {
        let i = choose|i: int| 0 <= i < s.len() && s[i] == x;
        assert(s.push(a)[i] == x);
    }
    if s.push(a).contains(x) && x != a {
        let i = choose|i: int| 0 <= i < s.push(a).len() && s.push(a)[i] == x;
        assert(s[i] == x);
    }
}

proof fn lemma_added(current: Seq<Seq<char>>, additions: Seq<Seq<char>>, x: Seq<char>)
    ensures
        added(current, additions).0.contains(x) <==> current.contains(x) || additions.contains(x),
        current.no_duplicates() && additions.no_duplicates() ==> added(
            current,
            additions,
        ).0.no_duplicates(),
        added(current, additions).0.len() >= current.len(),
    decreases additions.len(),
{
    if additions.len() > 0 {
        let head = additions.drop_last();
        let last = additions.last();
        let d = added(current, head).0;
        lemma_added(current, head, x);
        lemma_added(current, head, last);
        lemma_push_contains(head, last, x);
        lemma_push_contains(d, last, x);
        assert(additions =~= head.push(last));
        if current.no_duplicates() && additions.no_duplicates() {
            assert forall|i: int, j: int| 0 <= i < head.len() && 0 <= j < head.len() && i != j implies
                head[i] != head[j] by {
                assert(additions[i] == head[i] && additions[j] == head[j]);
            }
            assert(head.no_duplicates());
            if head.contains(last) {
                let i = choose|i: int| 0 <= i < head.len() && head[i] == last;
                assert(additions[i] == additions[additions.len() - 1]);
            }
            if !current.contains(last) {
                assert forall|i: int, j: int|
                    0 <= i < d.push(last).len() && 0 <= j < d.push(last).len() && i != j implies
                    d.push(last)[i] != d.push(last)[j] by {
                    if i == d.len() {
                        assert(d.contains(d[j]));
                    } else if j == d.len() {
                        assert(d.contains(d[i]));
                    }
                }
            }
        }
    } else {
        assert(!additions.contains(x));
    }
}

proof fn lemma_no_repeat(list: Seq<Seq<char>>, from: int)
    requires
        0 <= from <= list.len(),
        first_repeat(list, from) is None,
    ensures
        forall|i: int, j: int| 0 <= i < j < list.len() && from <= j ==> list[i] != list[j],
    decreases list.len() - from,
{
    if from < list.len() {
        lemma_no_repeat(list, from + 1);
        assert forall|i: int, j: int| 0 <= i < j < list.len() && from <= j implies list[i]
            != list[j] by {
            if j == from {
                assert(list.take(from)[i] == list[i]);
            }
        }
    }
}

/// What an accepted plan does with a file.
proof fn lemma_file_is_planned(
    desired: Seq<Seq<char>>,
    mutation: MutationModel,
    files: Seq<FactsModel>,
    i: int,
)
    requires
        file_actions(desired, mutation, files) is Ok,
        0 <= i < files.len(),
    ensures
        files[i].recipients matches Some(envelope) ==> file_action(
            desired,
            mutation,
            files[i].path,
            envelope,
        ) is Ok,
    decreases files.len(),
{
    if i < files.len() - 1 {
        lemma_file_is_planned(desired, mutation, files.drop_last(), i);
        assert(files.drop_last()[i] == files[i]);
    }
}

/// Law: a recipient gains or loses access to an existing ciphertext only when the
/// request names it. Under an accepted plan, whoever is desired but not on a
/// ciphertext was named for addition, and whoever is on one but not desired was named
/// for removal.
pub proof fn law_access_changes_are_named(
    current: Seq<Seq<char>>,
    mutation: MutationModel,
    files: Seq<FactsModel>,
    i: int,
    x: Seq<char>,
)
    requires
        authorization(current, mutation, files) is Ok,
        0 <= i < files.len(),
        files[i].recipients is Some,
    ensures
        ({
            let desired = authorization(current, mutation, files)->Ok_0.desired;
            let envelope = files[i].recipients->Some_0;
            &&& desired.contains(x) && !envelope.contains(x) ==> mutation.additions().contains(x)
            &&& envelope.contains(x) && !desired.contains(x) ==> mutation.removals().contains(x)
        }),
{
    let desired = authorization(current, mutation, files)->Ok_0.desired;
    let envelope = files[i].recipients->Some_0;
    lemma_file_is_planned(desired, mutation, files, i);
    let more = without(desired, envelope);
    let less = without(envelope, desired);
    lemma_without(desired, envelope, x);
    lemma_without(envelope, desired, x);
    lemma_without(more, mutation.additions(), x);
    lemma_without(less, mutation.removals(), x);
    if more.contains(x) && !mutation.additions().contains(x) {
        assert(without(more, mutation.additions()).contains(x));
    }
    if less.contains(x) && !mutation.removals().contains(x) {
        assert(without(less, mutation.removals()).contains(x));
    }
}

/// Law: a removal from a ciphertext always takes a fresh data key, additions alone
/// keep the old one, and nothing is done where the recipients agree.
pub proof fn law_removal_takes_a_fresh_key(
    desired: Seq<Seq<char>>,
    envelope: Seq<Seq<char>>,
    x: Seq<char>,
)
    ensures
        envelope.contains(x) && !desired.contains(x) ==> action_for(desired, envelope)
            == ConvergenceAction::Rotate,
        action_for(desired, envelope) == ConvergenceAction::Rewrap ==> (envelope.contains(x)
            ==> desired.contains(x)),
        action_for(desired, envelope) == ConvergenceAction::AlreadyAligned ==> (envelope.contains(
            x,
        ) <==> desired.contains(x)),
{
    lemma_without(envelope, desired, x);
    lemma_without(desired, envelope, x);
}

/// Law: the recipients of an accepted plan are those of the policy with the named
/// ones added, or without them; they are a policy again.
pub proof fn law_plan_changes_named_recipients(
    current: Seq<Seq<char>>,
    mutation: MutationModel,
    files: Seq<FactsModel>,
    x: Seq<char>,
)
    requires
        recipient::policy_fault(current) is None,
        authorization(current, mutation, files) is Ok,
    ensures
        ({
            let desired = authorization(current, mutation, files)->Ok_0.desired;
            &&& recipient::policy_fault(desired) is None
            &&& desired.contains(x) <==> (current.contains(x) || mutation.additions().contains(x))
                && !mutation.removals().contains(x)
        }),
{
    lemma_no_repeat(mutation.named(), 0);
    assert(mutation.named().no_duplicates());
    match mutation {
        MutationModel::Add(list) => {
            lemma_added(current, list, x);
            assert(!mutation.removals().contains(x));
        },
        MutationModel::Remove(list) => {
            lemma_without(current, list, x);
            assert(!mutation.additions().contains(x));
        },
    }
}

/// Some element of a list is not in another.
pub open spec fn exceeds(list: Seq<Seq<char>>, other: Seq<Seq<char>>) -> bool {
    exists|x: Seq<char>| #[trigger] list.contains(x) && !other.contains(x)
}

proof fn lemma_exceeds(list: Seq<Seq<char>>, other: Seq<Seq<char>>)
    ensures
        without(list, other).len() > 0 <==> exceeds(list, other),
{
    let rest = without(list, other);
    if rest.len() > 0 {
        lemma_without(list, other, rest[0]);
        assert(rest.contains(rest[0]));
    }
    if exceeds(list, other) {
        let x = choose|x: Seq<char>| #[trigger] list.contains(x) && !other.contains(x);
        lemma_without(list, other, x);
        assert(rest.contains(x));
    }
}

/// Law: a ciphertext takes a fresh data key exactly where it has a recipient that is not
/// desired; otherwise its data key is rewrapped exactly where it lacks one that is; and
/// otherwise nothing is done.
pub proof fn law_actions_fit_the_difference(desired: Seq<Seq<char>>, envelope: Seq<Seq<char>>)
    ensures
        action_for(desired, envelope) == ConvergenceAction::Rotate <==> exceeds(envelope, desired),
        action_for(desired, envelope) == ConvergenceAction::Rewrap <==> !exceeds(envelope, desired)
            && exceeds(desired, envelope),
        action_for(desired, envelope) == ConvergenceAction::AlreadyAligned <==> forall|
            x: Seq<char>,
        | #[trigger] envelope.contains(x) <==> desired.contains(x),
{
    lemma_exceeds(envelope, desired);
    lemma_exceeds(desired, envelope);
    if forall|x: Seq<char>| #[trigger] envelope.contains(x) <==> desired.contains(x) {
        if exceeds(desired, envelope) {
            let x = choose|x: Seq<char>| #[trigger] desired.contains(x) && !envelope.contains(x);
            assert(envelope.contains(x) <==> desired.contains(x));
        }
    } else {
        let x = choose|x: Seq<char>| !(#[trigger] envelope.contains(x) <==> desired.contains(x));
        if envelope.contains(x) {
            assert(exceeds(envelope, desired));
        } else {
            assert(desired.contains(x));
            assert(exceeds(desired, envelope));
        }
    }
}

/// What a request did to one recipient that it names.
pub open spec fn echo_of(
    current: Seq<Seq<char>>,
    mutation: MutationModel,
    x: Seq<char>,
) -> GrantModel {
    match (mutation, current.contains(x)) {
        (MutationModel::Add(_), false) => GrantModel::Added(x),
        (MutationModel::Add(_), true) => GrantModel::AlreadyAuthorized(x),
        (MutationModel::Remove(_), true) => GrantModel::Removed(x),
        (MutationModel::Remove(_), false) => GrantModel::RemovedFromCiphertext(x),
    }
}

proof fn lemma_added_grants(current: Seq<Seq<char>>, additions: Seq<Seq<char>>)
    ensures
        added(current, additions).1.len() == additions.len(),
        forall|i: int|
            0 <= i < additions.len() ==> (#[trigger] added(current, additions).1[i]) == echo_of(
                current,
                MutationModel::Add(additions),
                additions[i],
            ),
    decreases additions.len(),
{
    if additions.len() > 0 {
        let head = additions.drop_last();
        lemma_added_grants(current, head);
        let before = added(current, head).1;
        let grants = added(current, additions).1;
        assert forall|i: int| 0 <= i < additions.len() implies (#[trigger] grants[i]) == echo_of(
            current,
            MutationModel::Add(additions),
            additions[i],
        ) by {
            if i < head.len() {
                assert(grants[i] == before[i]);
                assert(head[i] == additions[i]);
            }
        }
    }
}

proof fn lemma_removal_grants(
    current: Seq<Seq<char>>,
    removals: Seq<Seq<char>>,
    files: Seq<FactsModel>,
)
    ensures
        match removal_grants(current, removals, files) {
            Ok(grants) => grants.len() == removals.len() && (forall|i: int|
                0 <= i < removals.len() ==> (#[trigger] grants[i]) == echo_of(
                    current,
                    MutationModel::Remove(removals),
                    removals[i],
                ) && (current.contains(removals[i]) || on_ciphertext(files, removals[i]))),
            Err(x) => removals.contains(x) && !current.contains(x) && !on_ciphertext(files, x),
        },
    decreases removals.len(),
{
    if removals.len() > 0 {
        let head = removals.drop_last();
        lemma_removal_grants(current, head, files);
        assert(forall|i: int| 0 <= i < head.len() ==> head[i] == removals[i]);
        assert(removals.contains(removals[removals.len() - 1]));
        match removal_grants(current, head, files) {
            Err(x) => {
                let i = choose|i: int| 0 <= i < head.len() && head[i] == x;
                assert(removals[i] == x);
            },
            Ok(grants) => {
                match removal_grants(current, removals, files) {
                    Ok(all) => {
                        assert forall|i: int| 0 <= i < removals.len() implies (#[trigger] all[i])
                            == echo_of(current, MutationModel::Remove(removals), removals[i]) && (
                        current.contains(removals[i]) || on_ciphertext(files, removals[i])) by {
                            if i < head.len() {
                                assert(all[i] == grants[i]);
                            }
                        }
                    },
                    Err(_) => {},
                }
            },
        }
    }
}

/// Law: an accepted plan names the effect of the request on each recipient that it names,
/// in the order of the request; no recipient is named twice, and whoever is removed was in
/// the policy or on a ciphertext.
pub proof fn law_every_request_is_echoed(
    current: Seq<Seq<char>>,
    mutation: MutationModel,
    files: Seq<FactsModel>,
    i: int,
)
    requires
        authorization(current, mutation, files) is Ok,
        0 <= i < mutation.named().len(),
    ensures
        ({
            let grants = authorization(current, mutation, files)->Ok_0.grants;
            let x = mutation.named()[i];
            &&& grants.len() == mutation.named().len()
            &&& grants[i] == echo_of(current, mutation, x)
            &&& mutation is Remove && !current.contains(x) ==> on_ciphertext(files, x)
            &&& mutation.named().no_duplicates()
        }),
{
    lemma_no_repeat(mutation.named(), 0);
    match mutation {
        MutationModel::Add(list) => {
            lemma_added_grants(current, list);
            assert(added(current, list).1[i] == echo_of(current, mutation, list[i]));
        },
        MutationModel::Remove(list) => {
            lemma_removal_grants(current, list, files);
            let grants = removal_grants(current, list, files)->Ok_0;
            assert(grants[i] == echo_of(current, mutation, list[i]));
        },
    }
}

proof fn lemma_added_order(current: Seq<Seq<char>>, additions: Seq<Seq<char>>)
    ensures
        current.is_prefix_of(added(current, additions).0),
        added(current, additions).0 != current <==> exceeds(additions, current),
        added(current, additions).0.skip(current.len() as int) == without(additions, current),
    decreases additions.len(),
{
    if additions.len() > 0 {
        let head = additions.drop_last();
        let last = additions.last();
        lemma_added_order(current, head);
        let d = added(current, head).0;
        assert(additions.contains(additions[additions.len() - 1]));
        assert(d.push(last).skip(current.len() as int) =~= d.skip(current.len() as int).push(last));
        if exceeds(head, current) {
            let x = choose|x: Seq<char>| #[trigger] head.contains(x) && !current.contains(x);
            let i = choose|i: int| 0 <= i < head.len() && head[i] == x;
            assert(additions[i] == x);
            assert(additions.contains(x));
        }
        if exceeds(additions, current) && current.contains(last) {
            let x = choose|x: Seq<char>| #[trigger] additions.contains(x) && !current.contains(x);
            let i = choose|i: int| 0 <= i < additions.len() && additions[i] == x;
            assert(head[i] == x);
            assert(head.contains(x));
        }
        if !current.contains(last) {
            assert(d.push(last).len() > current.len());
        }
    } else {
        assert(current.skip(current.len() as int) =~= Seq::<Seq<char>>::empty());
        if exceeds(additions, current) {
            let x = choose|x: Seq<char>| #[trigger] additions.contains(x) && !current.contains(x);
            assert(false);
        }
    }
}

proof fn lemma_without_all(list: Seq<Seq<char>>, other: Seq<Seq<char>>)
    ensures
        without(list, other).len() <= list.len(),
        without(list, other) != list <==> exists|x: Seq<char>| #[trigger]
            list.contains(x) && other.contains(x),
    decreases list.len(),
{
    if list.len() > 0 {
        let head = list.drop_last();
        let last = list.last();
        lemma_without_all(head, other);
        assert(list.contains(list[list.len() - 1]));
        assert(list =~= head.push(last));
        let kept = without(head, other);
        if exists|x: Seq<char>| #[trigger] head.contains(x) && other.contains(x) {
            let x = choose|x: Seq<char>| #[trigger] head.contains(x) && other.contains(x);
            let i = choose|i: int| 0 <= i < head.len() && head[i] == x;
            assert(list[i] == x);
            assert(list.contains(x));
            if without(list, other) == list {
                assert(kept.push(last).drop_last() =~= kept);
                assert(list.drop_last() =~= head);
            }
        } else {
            assert(kept == head);
            if !other.contains(last) && exists|x: Seq<char>| #[trigger]
                list.contains(x) && other.contains(x) {
                let x = choose|x: Seq<char>| #[trigger] list.contains(x) && other.contains(x);
                let i = choose|i: int| 0 <= i < list.len() && list[i] == x;
                assert(head[i] == x);
                assert(head.contains(x));
            }
        }
    } else {
        assert forall|x: Seq<char>| !(#[trigger] list.contains(x)) by {}
        assert(without(list, other) =~= list);
    }
}

/// Law: an accepted plan keeps the order of the policy. Additions come behind it, in the
/// order of the request; the manifest changes exactly where a new recipient is added or one
/// of the policy is removed.
pub proof fn law_policy_order_is_kept(
    current: Seq<Seq<char>>,
    mutation: MutationModel,
    files: Seq<FactsModel>,
)
    requires
        authorization(current, mutation, files) is Ok,
    ensures
        ({
            let plan = authorization(current, mutation, files)->Ok_0;
            &&& plan.manifest_changed <==> plan.desired != current
            &&& mutation matches MutationModel::Add(list) ==> {
                &&& current.is_prefix_of(plan.desired)
                &&& plan.manifest_changed <==> exceeds(list, current)
            }
            &&& mutation matches MutationModel::Remove(list) ==> {
                &&& plan.desired.len() > 0
                &&& plan.manifest_changed <==> exists|x: Seq<char>| #[trigger]
                    current.contains(x) && list.contains(x)
            }
        }),
{
    match mutation {
        MutationModel::Add(list) => {
            lemma_added_order(current, list);
        },
        MutationModel::Remove(list) => {
            lemma_without_all(current, list);
        },
    }
}

/// The files with a ciphertext, in their order.
pub open spec fn with_ciphertext(files: Seq<FactsModel>) -> Seq<FactsModel> {
    files.filter(|f: FactsModel| f.recipients is Some)
}

/// Law: an accepted plan covers every file that has a ciphertext, in the order of the files,
/// and no other; each is converged as the difference between its recipients and the desired
/// ones calls for.
pub proof fn law_every_ciphertext_is_covered(
    desired: Seq<Seq<char>>,
    mutation: MutationModel,
    files: Seq<FactsModel>,
)
    requires
        file_actions(desired, mutation, files) is Ok,
    ensures
        ({
            let actions = file_actions(desired, mutation, files)->Ok_0;
            let covered = with_ciphertext(files);
            &&& actions.len() == covered.len()
            &&& forall|i: int|
                0 <= i < covered.len() ==> (#[trigger] actions[i]).0 == covered[i].path && (
                covered[i].recipients matches Some(envelope) && actions[i].1 == action_for(
                    desired,
                    envelope,
                ))
        }),
    decreases files.len(),
{
    reveal(Seq::filter);
    if files.len() > 0 {
        let head = files.drop_last();
        law_every_ciphertext_is_covered(desired, mutation, head);
        let before = file_actions(desired, mutation, head)->Ok_0;
        let actions = file_actions(desired, mutation, files)->Ok_0;
        let covered = with_ciphertext(files);
        assert forall|i: int| 0 <= i < covered.len() implies (#[trigger] actions[i]).0
            == covered[i].path && (covered[i].recipients matches Some(envelope) && actions[i].1
            == action_for(desired, envelope)) by {
            if i < before.len() {
                assert(actions[i] == before[i]);
                assert(covered[i] == with_ciphertext(head)[i]);
            }
        }
    }
}

/// The request names no one twice.
pub open spec fn distinct_request(mutation: MutationModel) -> bool {
    forall|i: int, j: int|
        0 <= i < j < mutation.named().len() ==> mutation.named()[i] != mutation.named()[j]
}

/// Law: a request is rejected for the reason that is given. A recipient is named twice; one
/// that is to be removed is nowhere; no recipient would remain; or a ciphertext lacks a
/// desired recipient that was not to be added, or has an undesired one that was not to be
/// removed.
pub proof fn law_rejections_have_their_reason(
    current: Seq<Seq<char>>,
    mutation: MutationModel,
    files: Seq<FactsModel>,
)
    ensures
        !distinct_request(mutation) ==> (authorization(current, mutation, files) matches Err(r)
            && r is DuplicateRequest),
        match authorization(current, mutation, files) {
            Ok(_) => distinct_request(mutation),
            Err(RejectionModel::DuplicateRequest(x)) => !distinct_request(mutation)
                && mutation.named().contains(x),
            Err(RejectionModel::RemoveNotMember(x)) => mutation.removals().contains(x)
                && !current.contains(x) && !on_ciphertext(files, x),
            Err(RejectionModel::EmptyPolicy) => mutation is Remove && forall|x: Seq<char>|
                #[trigger] current.contains(x) ==> mutation.removals().contains(x),
            Err(RejectionModel::UnexplainedAddition { path, recipient }) => exists|i: int|
                0 <= i < files.len() && (#[trigger] files[i]).path == path && (
                files[i].recipients matches Some(list) && !list.contains(recipient)
                    && current.contains(recipient) && !mutation.named().contains(recipient)),
            Err(RejectionModel::UnexplainedRemoval { path, recipient }) => exists|i: int|
                0 <= i < files.len() && (#[trigger] files[i]).path == path && (
                files[i].recipients matches Some(list) && list.contains(recipient)
                    && !current.contains(recipient) && !mutation.named().contains(recipient)),
        },
{
    let named = mutation.named();
    lemma_repeat(named, 0);
    if first_repeat(named, 0) is None {
        lemma_no_repeat(named, 0);
        match mutation {
            MutationModel::Remove(list) => {
                lemma_removal_grants(current, list, files);
                if without(current, list).len() == 0 {
                    assert forall|x: Seq<char>| #[trigger] current.contains(x) implies list.contains(
                        x,
                    ) by {
                        lemma_without(current, list, x);
                    }
                }
            },
            MutationModel::Add(_) => {},
        }
        match desired_and_grants_of(current, mutation, files) {
            Ok((desired, _)) => {
                lemma_unexplained(current, desired, mutation, files);
            },
            Err(_) => {},
        }
    }
}

proof fn lemma_repeat(list: Seq<Seq<char>>, from: int)
    requires
        0 <= from <= list.len(),
    ensures
        first_repeat(list, from) matches Some(x) ==> list.contains(x) && exists|i: int, j: int|
            0 <= i < j < list.len() && list[i] == list[j],
    decreases list.len() - from,
{
    if from < list.len() {
        lemma_repeat(list, from + 1);
        if list.take(from).contains(list[from]) {
            let i = choose|i: int| 0 <= i < from && list.take(from)[i] == list[from];
            assert(list[i] == list[from]);
            assert(list.contains(list[from]));
        }
    }
}

proof fn lemma_unexplained(
    current: Seq<Seq<char>>,
    desired: Seq<Seq<char>>,
    mutation: MutationModel,
    files: Seq<FactsModel>,
)
    requires
        match mutation {
            MutationModel::Add(list) => desired == added(current, list).0,
            MutationModel::Remove(list) => desired == without(current, list),
        },
    ensures
        match file_actions(desired, mutation, files) {
            Err(RejectionModel::UnexplainedAddition { path, recipient }) => exists|i: int|
                0 <= i < files.len() && (#[trigger] files[i]).path == path && (
                files[i].recipients matches Some(list) && !list.contains(recipient)
                    && current.contains(recipient) && !mutation.named().contains(recipient)),
            Err(RejectionModel::UnexplainedRemoval { path, recipient }) => exists|i: int|
                0 <= i < files.len() && (#[trigger] files[i]).path == path && (
                files[i].recipients matches Some(list) && list.contains(recipient)
                    && !current.contains(recipient) && !mutation.named().contains(recipient)),
            Err(_) => false,
            Ok(_) => true,
        },
    decreases files.len(),
{
    if files.len() > 0 {
        let head = files.drop_last();
        lemma_unexplained(current, desired, mutation, head);
        assert(forall|i: int| 0 <= i < head.len() ==> head[i] == files[i]);
        match file_actions(desired, mutation, head) {
            Err(RejectionModel::UnexplainedAddition { path, recipient }) => {
                let i = choose|i: int|
                    0 <= i < head.len() && (#[trigger] head[i]).path == path && (
                    head[i].recipients matches Some(list) && !list.contains(recipient)
                        && current.contains(recipient) && !mutation.named().contains(recipient));
                assert(files[i].path == path);
            },
            Err(RejectionModel::UnexplainedRemoval { path, recipient }) => {
                let i = choose|i: int|
                    0 <= i < head.len() && (#[trigger] head[i]).path == path && (
                    head[i].recipients matches Some(list) && list.contains(recipient)
                        && !current.contains(recipient) && !mutation.named().contains(recipient));
                assert(files[i].path == path);
            },
            Err(_) => {},
            Ok(_) => {
                let last = files[files.len() - 1];
                if last.recipients is Some {
                    lemma_unexplained_file(current, desired, mutation, last);
                    assert(files[files.len() - 1].path == last.path);
                }
            },
        }
    }
}

proof fn lemma_unexplained_file(
    current: Seq<Seq<char>>,
    desired: Seq<Seq<char>>,
    mutation: MutationModel,
    file: FactsModel,
)
    requires
        file.recipients is Some,
        match mutation {
            MutationModel::Add(list) => desired == added(current, list).0,
            MutationModel::Remove(list) => desired == without(current, list),
        },
    ensures
        match file_action(desired, mutation, file.path, file.recipients->Some_0) {
            Err(RejectionModel::UnexplainedAddition { path, recipient }) => path == file.path
                && !file.recipients->Some_0.contains(recipient) && current.contains(recipient)
                && !mutation.named().contains(recipient),
            Err(RejectionModel::UnexplainedRemoval { path, recipient }) => path == file.path
                && file.recipients->Some_0.contains(recipient) && !current.contains(recipient)
                && !mutation.named().contains(recipient),
            Err(_) => false,
            Ok(_) => true,
        },
{
    let envelope = file.recipients->Some_0;
    let more = without(without(desired, envelope), mutation.additions());
    let less = without(without(envelope, desired), mutation.removals());
    if more.len() > 0 {
        let x = more[0];
        assert(more.contains(x));
        lemma_without(without(desired, envelope), mutation.additions(), x);
        lemma_without(desired, envelope, x);
        match mutation {
            MutationModel::Add(list) => {
                lemma_added(current, list, x);
            },
            MutationModel::Remove(list) => {
                lemma_without(current, list, x);
            },
        }
    } else if less.len() > 0 {
        let x = less[0];
        assert(less.contains(x));
        lemma_without(without(envelope, desired), mutation.removals(), x);
        lemma_without(envelope, desired, x);
        match mutation {
            MutationModel::Add(list) => {
                lemma_added(current, list, x);
            },
            MutationModel::Remove(list) => {
                lemma_without(current, list, x);
            },
        }
    }
}

} // verus!
