//! The course of publishing a registration: the ignore rules come first, they are
//! evaluated, and only then the manifest is written. Whatever another writer does
//! meanwhile is noticed, and never loses the protection of a plaintext.

use vstd::prelude::*;

use crate::configure::ignore;
use crate::configure::plan;
use crate::configure::step;
use crate::configure::step::{DecisionModel, PublicationDecision};
use crate::error::{ErrorCategory, GitveilError};
use crate::git::ignore as git_ignore;
use crate::git::ignore::IgnoreMatches;
use crate::manifest::{Manifest, ManifestModel};
use crate::manifest_document;
use crate::manifest_document::{ManifestPreparation, PreparationModel};
use crate::path;
use crate::path::ManagedPath;
use crate::seal::run as seal;
use crate::seal::step as input;

verus! {

/// What is to be done outside.
pub enum PublishEffect {
    /// Ask Git which rules apply to the plaintext that exists.
    AskExisting,
    /// Ask Git which rules apply to every managed file.
    AskManaged,
    ReadManifest,
    ReadIgnore,
    WriteIgnore(Vec<u8>),
    /// Put the former `.gitignore` back.
    RestoreIgnore,
    /// Make the plaintext that exists readable by its owner alone.
    TightenPlaintext,
    WriteManifest,
    Finish(Result<(), GitveilError>),
}

/// What came of it.
pub enum PublishEvent {
    Answers(IgnoreMatches),
    Manifest(Option<Vec<u8>>),
    Ignore(Option<Vec<u8>>),
    Done,
    /// The outside work failed.
    Failed(GitveilError),
}

pub enum EffectModel {
    AskExisting,
    AskManaged,
    ReadManifest,
    ReadIgnore,
    WriteIgnore(Seq<u8>),
    RestoreIgnore,
    TightenPlaintext,
    WriteManifest,
    Finish(Result<(), (ErrorCategory, Seq<char>)>),
}

pub enum EventModel {
    Answers(Seq<(Seq<char>, Option<git_ignore::RuleModel>)>),
    Manifest(Option<Seq<u8>>),
    Ignore(Option<Seq<u8>>),
    Done,
    Failed((ErrorCategory, Seq<char>)),
}

impl View for PublishEvent {
    type V = EventModel;

    open spec fn view(&self) -> EventModel {
        match *self {
            PublishEvent::Answers(answers) => EventModel::Answers(answers@),
            PublishEvent::Manifest(bytes) => EventModel::Manifest(seal::view_bytes(bytes)),
            PublishEvent::Ignore(bytes) => EventModel::Ignore(seal::view_bytes(bytes)),
            PublishEvent::Done => EventModel::Done,
            PublishEvent::Failed(error) => EventModel::Failed(error@),
        }
    }
}

impl View for PublishEffect {
    type V = EffectModel;

    open spec fn view(&self) -> EffectModel {
        match *self {
            PublishEffect::AskExisting => EffectModel::AskExisting,
            PublishEffect::AskManaged => EffectModel::AskManaged,
            PublishEffect::ReadManifest => EffectModel::ReadManifest,
            PublishEffect::ReadIgnore => EffectModel::ReadIgnore,
            PublishEffect::WriteIgnore(bytes) => EffectModel::WriteIgnore(bytes@),
            PublishEffect::RestoreIgnore => EffectModel::RestoreIgnore,
            PublishEffect::TightenPlaintext => EffectModel::TightenPlaintext,
            PublishEffect::WriteManifest => EffectModel::WriteManifest,
            PublishEffect::Finish(Ok(_)) => EffectModel::Finish(Ok(())),
            PublishEffect::Finish(Err(error)) => EffectModel::Finish(Err(error@)),
        }
    }
}

/// What is awaited.
enum PublishState {
    Previous,
    /// The manifest, before anything is written.
    FirstManifest(IgnoreMatches),
    FirstIgnore(IgnoreMatches),
    IgnoreWritten(IgnoreMatches),
    Visibility(IgnoreMatches),
    /// The files again, after the rules were evaluated.
    SecondIgnore(IgnoreMatches, IgnoreMatches),
    SecondManifest(IgnoreMatches, IgnoreMatches),
    Tightened,
    /// The files once more, right before the manifest is written.
    LastIgnore,
    LastManifest,
    ManifestWritten,
    /// `.gitignore`, before it is put back.
    RestoredIgnore(GitveilError),
    Restored(GitveilError),
    /// The manifest of the other writer.
    LatestManifest,
    CurrentIgnore(Option<Vec<u8>>),
    RecoveredIgnore(Vec<u8>, Vec<u8>),
    Recovered,
    Finished,
}

pub enum StateModel {
    Previous,
    FirstManifest(Seq<(Seq<char>, Option<git_ignore::RuleModel>)>),
    FirstIgnore(Seq<(Seq<char>, Option<git_ignore::RuleModel>)>),
    IgnoreWritten(Seq<(Seq<char>, Option<git_ignore::RuleModel>)>),
    Visibility(Seq<(Seq<char>, Option<git_ignore::RuleModel>)>),
    SecondIgnore(
        Seq<(Seq<char>, Option<git_ignore::RuleModel>)>,
        Seq<(Seq<char>, Option<git_ignore::RuleModel>)>,
    ),
    SecondManifest(
        Seq<(Seq<char>, Option<git_ignore::RuleModel>)>,
        Seq<(Seq<char>, Option<git_ignore::RuleModel>)>,
    ),
    Tightened,
    LastIgnore,
    LastManifest,
    ManifestWritten,
    RestoredIgnore((ErrorCategory, Seq<char>)),
    Restored((ErrorCategory, Seq<char>)),
    LatestManifest,
    CurrentIgnore(Option<Seq<u8>>),
    RecoveredIgnore(Seq<u8>, Seq<u8>),
    Recovered,
    Finished,
}

spec fn view_state(s: PublishState) -> StateModel {
    match s {
        PublishState::Previous => StateModel::Previous,
        PublishState::FirstManifest(a) => StateModel::FirstManifest(a@),
        PublishState::FirstIgnore(a) => StateModel::FirstIgnore(a@),
        PublishState::IgnoreWritten(a) => StateModel::IgnoreWritten(a@),
        PublishState::Visibility(a) => StateModel::Visibility(a@),
        PublishState::SecondIgnore(a, b) => StateModel::SecondIgnore(a@, b@),
        PublishState::SecondManifest(a, b) => StateModel::SecondManifest(a@, b@),
        PublishState::Tightened => StateModel::Tightened,
        PublishState::LastIgnore => StateModel::LastIgnore,
        PublishState::LastManifest => StateModel::LastManifest,
        PublishState::ManifestWritten => StateModel::ManifestWritten,
        PublishState::RestoredIgnore(e) => StateModel::RestoredIgnore(e@),
        PublishState::Restored(e) => StateModel::Restored(e@),
        PublishState::LatestManifest => StateModel::LatestManifest,
        PublishState::CurrentIgnore(latest) => StateModel::CurrentIgnore(seal::view_bytes(latest)),
        PublishState::RecoveredIgnore(current, recovered) => StateModel::RecoveredIgnore(
            current@,
            recovered@,
        ),
        PublishState::Recovered => StateModel::Recovered,
        PublishState::Finished => StateModel::Finished,
    }
}

/// What is published.
pub struct PublicationModel {
    pub document: ManifestModel,
    /// The manifest as it was loaded.
    pub preparation: PreparationModel,
    /// `.gitignore` as it was read, and as it is to be.
    pub original: Option<Seq<u8>>,
    pub candidate: Seq<u8>,
    /// The requested plaintext that exists.
    pub existing: Seq<Seq<char>>,
}

impl PublicationModel {
    /// The state of every managed file, given the answers of Git.
    pub open spec fn states(
        self,
        answers: Seq<(Seq<char>, Option<git_ignore::RuleModel>)>,
    ) -> Seq<(Seq<char>, Option<git_ignore::RuleModel>)> {
        plan::states_from(answers, step::pair_paths(self.document.entries))
    }
}

pub open spec fn finished(r: Result<(), (ErrorCategory, Seq<char>)>) -> (StateModel, EffectModel) {
    (StateModel::Finished, EffectModel::Finish(r))
}

pub open spec fn manifest_changed() -> (ErrorCategory, Seq<char>) {
    manifest_document::changed_fault("gitveil add"@)
}

/// `.gitignore` changed while it was recovered.
pub open spec fn raced() -> (ErrorCategory, Seq<char>) {
    (ErrorCategory::Concurrency, ".gitignore changed during concurrency recovery; retry"@)
}

/// A result that no outside work was asked for.
pub open spec fn unexpected() -> (ErrorCategory, Seq<char>) {
    (ErrorCategory::Integrity, "registration received a result that it did not ask for"@)
}

/// What follows the evaluation of the rules.
pub open spec fn evaluated(
    p: PublicationModel,
    previous: Seq<(Seq<char>, Option<git_ignore::RuleModel>)>,
    answers: Seq<(Seq<char>, Option<git_ignore::RuleModel>)>,
) -> (StateModel, EffectModel) {
    match step::decision(p.document, p.states(answers), previous, p.existing) {
        Err(fault) => finished(Err(fault)),
        Ok(DecisionModel::Publish) => (StateModel::Tightened, EffectModel::TightenPlaintext),
        Ok(DecisionModel::Refuse { restore, error }) => if restore {
            (StateModel::RestoredIgnore(error), EffectModel::ReadIgnore)
        } else {
            finished(Err(error))
        },
    }
}

/// What follows where the manifest changed: the rules of both writers are kept.
pub open spec fn recovery(p: PublicationModel, latest: Option<Seq<u8>>, current: Seq<u8>) -> (
    StateModel,
    EffectModel,
) {
    match ignore::managed_ignore(current, step::recovery_paths(latest, p.document)) {
        None => finished(Err(step::malformed_ignore())),
        Some(recovered) => if recovered == current {
            finished(Err(manifest_changed()))
        } else {
            (StateModel::RecoveredIgnore(current, recovered), EffectModel::ReadIgnore)
        },
    }
}

/// One step of a publication: what is awaited next, and what is done for it.
pub open spec fn publish_step(p: PublicationModel, state: StateModel, event: EventModel) -> (
    StateModel,
    EffectModel,
) {
    match (state, event) {
        (_, EventModel::Failed(fault)) => finished(Err(fault)),
        (StateModel::Previous, EventModel::Answers(previous)) => (
            StateModel::FirstManifest(previous),
            EffectModel::ReadManifest,
        ),
        (StateModel::FirstManifest(previous), EventModel::Manifest(bytes)) => if bytes == Some(
            p.preparation.original,
        ) {
            (StateModel::FirstIgnore(previous), EffectModel::ReadIgnore)
        } else {
            finished(Err(manifest_changed()))
        },
        (StateModel::FirstIgnore(previous), EventModel::Ignore(bytes)) => if bytes == p.original {
            (StateModel::IgnoreWritten(previous), EffectModel::WriteIgnore(p.candidate))
        } else {
            finished(Err(step::ignore_changed()))
        },
        (StateModel::IgnoreWritten(previous), EventModel::Done) => (
            StateModel::Visibility(previous),
            EffectModel::AskManaged,
        ),
        (StateModel::Visibility(previous), EventModel::Answers(answers)) => (
            StateModel::SecondIgnore(previous, answers),
            EffectModel::ReadIgnore,
        ),
        (StateModel::SecondIgnore(previous, answers), EventModel::Ignore(bytes)) => if bytes
            == Some(p.candidate) {
            (StateModel::SecondManifest(previous, answers), EffectModel::ReadManifest)
        } else {
            finished(Err(step::ignore_changed()))
        },
        (StateModel::SecondManifest(previous, answers), EventModel::Manifest(bytes)) => if bytes
            == Some(p.preparation.original) {
            evaluated(p, previous, answers)
        } else {
            (StateModel::LatestManifest, EffectModel::ReadManifest)
        },
        (StateModel::Tightened, EventModel::Done) => (
            StateModel::LastIgnore,
            EffectModel::ReadIgnore,
        ),
        (StateModel::LastIgnore, EventModel::Ignore(bytes)) => if bytes == Some(p.candidate) {
            (StateModel::LastManifest, EffectModel::ReadManifest)
        } else {
            finished(Err(step::ignore_changed()))
        },
        (StateModel::LastManifest, EventModel::Manifest(bytes)) => if bytes == Some(
            p.preparation.original,
        ) {
            (StateModel::ManifestWritten, EffectModel::WriteManifest)
        } else {
            (StateModel::LatestManifest, EffectModel::ReadManifest)
        },
        (StateModel::ManifestWritten, EventModel::Done) => finished(Ok(())),
        (StateModel::RestoredIgnore(error), EventModel::Ignore(bytes)) => if bytes == Some(
            p.candidate,
        ) {
            (StateModel::Restored(error), EffectModel::RestoreIgnore)
        } else {
            finished(Err(step::ignore_changed()))
        },
        (StateModel::Restored(error), EventModel::Done) => finished(Err(error)),
        (StateModel::LatestManifest, EventModel::Manifest(latest)) => (
            StateModel::CurrentIgnore(latest),
            EffectModel::ReadIgnore,
        ),
        (StateModel::CurrentIgnore(latest), EventModel::Ignore(bytes)) => recovery(
            p,
            latest,
            match bytes {
                Some(current) => current,
                None => Seq::empty(),
            },
        ),
        (StateModel::RecoveredIgnore(current, recovered), EventModel::Ignore(bytes)) => if bytes
            == Some(current) {
            (StateModel::Recovered, EffectModel::WriteIgnore(recovered))
        } else {
            finished(Err(raced()))
        },
        (StateModel::Recovered, EventModel::Done) => finished(Err(manifest_changed())),
        _ => finished(Err(unexpected())),
    }
}

/// The publication of one registration.
pub struct Publication {
    document: Manifest,
    preparation: ManifestPreparation,
    original: Option<Vec<u8>>,
    candidate: Vec<u8>,
    existing: Vec<ManagedPath>,
    state: PublishState,
}

pub struct RunModel {
    pub publication: PublicationModel,
    pub state: StateModel,
}

impl View for Publication {
    type V = RunModel;

    closed spec fn view(&self) -> RunModel {
        RunModel {
            publication: PublicationModel {
                document: self.document@,
                preparation: self.preparation@,
                original: seal::view_bytes(self.original),
                candidate: self.candidate@,
                existing: path::path_texts(self.existing@),
            },
            state: view_state(self.state),
        }
    }
}

fn fail(error: GitveilError) -> (r: (PublishState, PublishEffect))
    ensures
        view_state(r.0) == StateModel::Finished,
        r.1@ == EffectModel::Finish(Err(error@)),
{
    (PublishState::Finished, PublishEffect::Finish(Err(error)))
}

fn as_slice(v: &Option<Vec<u8>>) -> (r: Option<&[u8]>)
    ensures
        input::view_input(r) == seal::view_bytes(*v),
{
    match v {
        Some(v) => Some(v.as_slice()),
        None => None,
    }
}

fn changed() -> (r: GitveilError)
    ensures
        r@ == manifest_changed(),
{
    manifest_document::changed_error("gitveil add")
}

impl Publication {
    /// Begins to publish a manifest and the rules that go with it. `original` is
    /// `.gitignore` as it was read.
    pub fn start(
        document: Manifest,
        preparation: ManifestPreparation,
        original: Option<Vec<u8>>,
        candidate: Vec<u8>,
        existing: Vec<ManagedPath>,
    ) -> (r: (Publication, PublishEffect))
        ensures
            r.0@ == (RunModel {
                publication: PublicationModel {
                    document: document@,
                    preparation: preparation@,
                    original: seal::view_bytes(original),
                    candidate: candidate@,
                    existing: path::path_texts(existing@),
                },
                state: StateModel::Previous,
            }),
            r.1@ == EffectModel::AskExisting,
    {
        (
            Publication {
                document,
                preparation,
                original,
                candidate,
                existing,
                state: PublishState::Previous,
            },
            PublishEffect::AskExisting,
        )
    }

    /// The files whose rules `AskExisting` asks for.
    pub fn existing(&self) -> (r: &[ManagedPath])
        ensures
            path::path_texts(r@) == self@.publication.existing,
    {
        self.existing.as_slice()
    }

    /// The files whose rules `AskManaged` asks for.
    pub fn managed(&self) -> (r: Vec<ManagedPath>)
        ensures
            path::path_texts(r@) == step::pair_paths(self@.publication.document.entries),
    {
        step::visibility_paths(&self.document)
    }

    fn judge(&self, previous: &IgnoreMatches, answers: &IgnoreMatches) -> (r: (
        PublishState,
        PublishEffect,
    ))
        ensures
            view_state(r.0) == evaluated(self@.publication, previous@, answers@).0,
            r.1@ == evaluated(self@.publication, previous@, answers@).1,
    {
        let paths = step::visibility_paths(&self.document);
        let states = plan::ignore_states(answers, paths.as_slice());
        match step::decide_publication(
            &self.document,
            &states,
            previous,
            self.existing.as_slice(),
        ) {
            Err(error) => fail(error),
            Ok(PublicationDecision::Publish) => (
                PublishState::Tightened,
                PublishEffect::TightenPlaintext,
            ),
            Ok(PublicationDecision::Refuse { restore, error }) => if restore {
                (PublishState::RestoredIgnore(error), PublishEffect::ReadIgnore)
            } else {
                fail(error)
            },
        }
    }

    fn recover(&self, latest: &Option<Vec<u8>>, found: Option<Vec<u8>>) -> (r: (
        PublishState,
        PublishEffect,
    ))
        ensures
            ({
                let current = match seal::view_bytes(found) {
                    Some(current) => current,
                    None => Seq::empty(),
                };
                let next = recovery(self@.publication, seal::view_bytes(*latest), current);
                view_state(r.0) == next.0 && r.1@ == next.1
            }),
    {
        let current = match found {
            Some(current) => current,
            None => Vec::new(),
        };
        assert(found is None ==> current@ =~= Seq::<u8>::empty());
        match step::recover_ignore(as_slice(latest), &self.document, current.as_slice()) {
            Err(error) => fail(error),
            Ok(None) => fail(changed()),
            Ok(Some(recovered)) => (
                PublishState::RecoveredIgnore(current, recovered),
                PublishEffect::ReadIgnore,
            ),
        }
    }

    fn is_candidate(&self, found: &Option<Vec<u8>>) -> (r: Result<(), GitveilError>)
        ensures
            if seal::view_bytes(*found) == Some(self@.publication.candidate) {
                r is Ok
            } else {
                r matches Err(e) && e@ == step::ignore_changed()
            },
    {
        step::require_ignore(as_slice(found), Some(self.candidate.as_slice()))
    }

    fn advance(&self, state: PublishState, event: PublishEvent) -> (r: (
        PublishState,
        PublishEffect,
    ))
        ensures
            view_state(r.0) == publish_step(self@.publication, view_state(state), event@).0,
            r.1@ == publish_step(self@.publication, view_state(state), event@).1,
    {
        match (state, event) {
            (_, PublishEvent::Failed(error)) => fail(error),
            (PublishState::Previous, PublishEvent::Answers(previous)) => (
                PublishState::FirstManifest(previous),
                PublishEffect::ReadManifest,
            ),
            (PublishState::FirstManifest(previous), PublishEvent::Manifest(bytes)) => {
                if self.preparation.is_fresh(as_slice(&bytes)) {
                    (PublishState::FirstIgnore(previous), PublishEffect::ReadIgnore)
                } else {
                    fail(changed())
                }
            },
            (PublishState::FirstIgnore(previous), PublishEvent::Ignore(bytes)) => {
                match step::require_ignore(as_slice(&bytes), as_slice(&self.original)) {
                    Err(error) => fail(error),
                    Ok(_) => (
                        PublishState::IgnoreWritten(previous),
                        PublishEffect::WriteIgnore(self.candidate.clone()),
                    ),
                }
            },
            (PublishState::IgnoreWritten(previous), PublishEvent::Done) => (
                PublishState::Visibility(previous),
                PublishEffect::AskManaged,
            ),
            (PublishState::Visibility(previous), PublishEvent::Answers(answers)) => (
                PublishState::SecondIgnore(previous, answers),
                PublishEffect::ReadIgnore,
            ),
            (PublishState::SecondIgnore(previous, answers), PublishEvent::Ignore(bytes)) => {
                match self.is_candidate(&bytes) {
                    Err(error) => fail(error),
                    Ok(_) => (
                        PublishState::SecondManifest(previous, answers),
                        PublishEffect::ReadManifest,
                    ),
                }
            },
            (PublishState::SecondManifest(previous, answers), PublishEvent::Manifest(bytes)) => {
                if self.preparation.is_fresh(as_slice(&bytes)) {
                    self.judge(&previous, &answers)
                } else {
                    (PublishState::LatestManifest, PublishEffect::ReadManifest)
                }
            },
            (PublishState::Tightened, PublishEvent::Done) => (
                PublishState::LastIgnore,
                PublishEffect::ReadIgnore,
            ),
            (PublishState::LastIgnore, PublishEvent::Ignore(bytes)) => {
                match self.is_candidate(&bytes) {
                    Err(error) => fail(error),
                    Ok(_) => (PublishState::LastManifest, PublishEffect::ReadManifest),
                }
            },
            (PublishState::LastManifest, PublishEvent::Manifest(bytes)) => {
                if self.preparation.is_fresh(as_slice(&bytes)) {
                    (PublishState::ManifestWritten, PublishEffect::WriteManifest)
                } else {
                    (PublishState::LatestManifest, PublishEffect::ReadManifest)
                }
            },
            (PublishState::ManifestWritten, PublishEvent::Done) => (
                PublishState::Finished,
                PublishEffect::Finish(Ok(())),
            ),
            (PublishState::RestoredIgnore(refusal), PublishEvent::Ignore(bytes)) => {
                match self.is_candidate(&bytes) {
                    Err(error) => fail(error),
                    Ok(_) => (PublishState::Restored(refusal), PublishEffect::RestoreIgnore),
                }
            },
            (PublishState::Restored(refusal), PublishEvent::Done) => fail(refusal),
            (PublishState::LatestManifest, PublishEvent::Manifest(latest)) => (
                PublishState::CurrentIgnore(latest),
                PublishEffect::ReadIgnore,
            ),
            (PublishState::CurrentIgnore(latest), PublishEvent::Ignore(bytes)) => self.recover(
                &latest,
                bytes,
            ),
            (
                PublishState::RecoveredIgnore(current, recovered),
                PublishEvent::Ignore(bytes),
            ) => {
                match step::require_ignore(as_slice(&bytes), Some(current.as_slice())) {
                    Err(_) => fail(step::recovery_raced()),
                    Ok(_) => (
                        PublishState::Recovered,
                        PublishEffect::WriteIgnore(recovered),
                    ),
                }
            },
            (PublishState::Recovered, PublishEvent::Done) => fail(changed()),
            _ => fail(
                GitveilError::new(
                    ErrorCategory::Integrity,
                    "registration received a result that it did not ask for".to_owned(),
                ),
            ),
        }
    }

    /// Takes what came of the last effect, and gives the next.
    pub fn next(self, event: PublishEvent) -> (r: (Publication, PublishEffect))
        ensures
            r.0@.publication == self@.publication,
            r.0@.state == publish_step(self@.publication, self@.state, event@).0,
            r.1@ == publish_step(self@.publication, self@.state, event@).1,
    {
        let Publication { document, preparation, original, candidate, existing, state } = self;
        let still = Publication {
            document,
            preparation,
            original,
            candidate,
            existing,
            state: PublishState::Finished,
        };
        let (state, effect) = still.advance(state, event);
        let Publication { document, preparation, original, candidate, existing, .. } = still;
        (Publication { document, preparation, original, candidate, existing, state }, effect)
    }
}

/// Where a publication stands after some events.
pub open spec fn course(p: PublicationModel, events: Seq<EventModel>) -> (StateModel, EffectModel)
    decreases events.len(),
{
    if events.len() == 0 {
        (StateModel::Previous, EffectModel::AskExisting)
    } else {
        publish_step(p, course(p, events.drop_last()).0, events.last())
    }
}

/// Git answered that every managed plaintext is ignored and no ciphertext is.
pub open spec fn protected(
    p: PublicationModel,
    answers: Seq<(Seq<char>, Option<git_ignore::RuleModel>)>,
) -> bool {
    plan::violations(p.states(answers), p.document.entries) matches Ok(list) && list.len() == 0
}

/// Some answer of a course shows every managed file protected.
pub open spec fn answered(p: PublicationModel, events: Seq<EventModel>) -> bool {
    exists|i: int|
        0 <= i < events.len() && (#[trigger] events[i] matches EventModel::Answers(answers)
            && protected(p, answers))
}

/// What every state of a course knows.
pub open spec fn guarded(p: PublicationModel, events: Seq<EventModel>) -> bool {
    match course(p, events).0 {
        StateModel::SecondIgnore(_, answers) => events.contains(EventModel::Answers(answers)),
        StateModel::SecondManifest(_, answers) => events.contains(EventModel::Answers(answers)),
        StateModel::Tightened => answered(p, events),
        StateModel::LastIgnore => answered(p, events),
        StateModel::LastManifest => answered(p, events) && events.last() == EventModel::Ignore(
            Some(p.candidate),
        ) && events.len() > 0,
        _ => true,
    }
}

proof fn lemma_course_is_guarded(p: PublicationModel, events: Seq<EventModel>)
    ensures
        guarded(p, events),
    decreases events.len(),
{
    if events.len() > 0 {
        let before = events.drop_last();
        lemma_course_is_guarded(p, before);
        assert forall|e: EventModel| before.contains(e) implies events.contains(e) by {
            let i = choose|i: int| 0 <= i < before.len() && before[i] == e;
            assert(events[i] == e);
        }
        if answered(p, before) {
            let i = choose|i: int|
                0 <= i < before.len() && (#[trigger] before[i] matches EventModel::Answers(answers)
                    && protected(p, answers));
            assert(events[i] == before[i]);
        }
        assert(events[events.len() - 1] == events.last());
        if course(p, events).0 is Tightened && course(p, before).0 is SecondManifest {
            let answers = course(p, before).0->SecondManifest_1;
            let i = choose|i: int| 0 <= i < events.len() && events[i] == EventModel::Answers(answers);
            assert(events[i] matches EventModel::Answers(a) && protected(p, a));
        }
    }
}

/// Law: whatever happens outside, the manifest is written only where Git answered that
/// every managed plaintext is ignored and no ciphertext is, where `.gitignore` then
/// still held the new rules, and where the manifest was still the one that was loaded.
pub proof fn law_manifest_follows_protection(p: PublicationModel, events: Seq<EventModel>)
    requires
        course(p, events).1 is WriteManifest,
    ensures
        answered(p, events),
        events.len() >= 2,
        events[events.len() - 2] == EventModel::Ignore(Some(p.candidate)),
        events.last() == EventModel::Manifest(Some(p.preparation.original)),
{
    assert(events.len() > 0);
    let before = events.drop_last();
    lemma_course_is_guarded(p, before);
    assert(course(p, before).0 is LastManifest);
    let i = choose|i: int|
        0 <= i < before.len() && (#[trigger] before[i] matches EventModel::Answers(answers)
            && protected(p, answers));
    assert(events[i] == before[i]);
    assert(before.last() == events[events.len() - 2]);
}

/// Law: whatever happens outside, the former `.gitignore` is put back only where every
/// plaintext that exists was ignored before.
pub proof fn law_restoring_exposes_nothing(p: PublicationModel, events: Seq<EventModel>)
    requires
        course(p, events).1 is RestoreIgnore,
    ensures
        exists|i: int|
            0 <= i < events.len() && (#[trigger] events[i] matches EventModel::Answers(previous)
                && step::all_ignored(previous, p.existing)),
{
    let before = events.drop_last();
    assert(course(p, before).0 is RestoredIgnore);
    lemma_refusals_were_ignored(p, before);
    let i = choose|i: int|
        0 <= i < before.len() && (#[trigger] before[i] matches EventModel::Answers(previous)
            && step::all_ignored(previous, p.existing));
    assert(events[i] == before[i]);
}

/// The first answer stays with a course until the rules are judged.
pub open spec fn remembered(p: PublicationModel, events: Seq<EventModel>) -> bool {
    match course(p, events).0 {
        StateModel::FirstManifest(previous) => events.contains(EventModel::Answers(previous)),
        StateModel::FirstIgnore(previous) => events.contains(EventModel::Answers(previous)),
        StateModel::IgnoreWritten(previous) => events.contains(EventModel::Answers(previous)),
        StateModel::Visibility(previous) => events.contains(EventModel::Answers(previous)),
        StateModel::SecondIgnore(previous, _) => events.contains(EventModel::Answers(previous)),
        StateModel::SecondManifest(previous, _) => events.contains(EventModel::Answers(previous)),
        StateModel::RestoredIgnore(_) => exists|i: int|
            0 <= i < events.len() && (#[trigger] events[i] matches EventModel::Answers(previous)
                && step::all_ignored(previous, p.existing)),
        _ => true,
    }
}

proof fn lemma_refusals_were_ignored(p: PublicationModel, events: Seq<EventModel>)
    ensures
        remembered(p, events),
    decreases events.len(),
{
    if events.len() > 0 {
        let before = events.drop_last();
        lemma_refusals_were_ignored(p, before);
        assert forall|e: EventModel| before.contains(e) implies events.contains(e) by {
            let i = choose|i: int| 0 <= i < before.len() && before[i] == e;
            assert(events[i] == e);
        }
        assert(events[events.len() - 1] == events.last());
        if course(p, events).0 is RestoredIgnore && course(p, before).0 is SecondManifest {
            let previous = course(p, before).0->SecondManifest_0;
            let i = choose|i: int| 0 <= i < events.len() && events[i] == EventModel::Answers(previous);
            assert(events[i] matches EventModel::Answers(a) && step::all_ignored(a, p.existing));
        }
    }
}

/// The first answer, which tells how things stood before anything was written, had every
/// plaintext that exists ignored.
pub open spec fn formerly_ignored(p: PublicationModel, events: Seq<EventModel>) -> bool {
    events.len() > 0 && (events[0] matches EventModel::Answers(previous) && forall|i: int|
        0 <= i < p.existing.len() ==> (git_ignore::answer_for(
            previous,
            #[trigger] p.existing[i],
        ) matches Some(Some(rule)) && rule.ignored))
}

/// The second answer, which came after the new rules were written, has every managed
/// plaintext ignored and no ciphertext.
pub open spec fn shielded(p: PublicationModel, events: Seq<EventModel>) -> bool {
    events.len() > 6 && (events[4] matches EventModel::Answers(answers) && protected(p, answers))
}

/// What a state knows of the events that led to it.
pub open spec fn timed(p: PublicationModel, events: Seq<EventModel>, s: StateModel) -> bool {
    match s {
        StateModel::Previous => events.len() == 0,
        StateModel::FirstManifest(previous) => events.len() == 1 && events[0]
            == EventModel::Answers(previous),
        StateModel::FirstIgnore(previous) => events.len() == 2 && events[0] == EventModel::Answers(
            previous,
        ) && events[1] == EventModel::Manifest(Some(p.preparation.original)),
        StateModel::IgnoreWritten(previous) => events.len() == 3 && events[0]
            == EventModel::Answers(previous),
        StateModel::Visibility(previous) => events.len() == 4 && events[0] == EventModel::Answers(
            previous,
        ),
        StateModel::SecondIgnore(previous, answers) => events.len() == 5 && events[0]
            == EventModel::Answers(previous) && events[4] == EventModel::Answers(answers),
        StateModel::SecondManifest(previous, answers) => events.len() == 6 && events[0]
            == EventModel::Answers(previous) && events[4] == EventModel::Answers(answers),
        StateModel::Tightened => shielded(p, events),
        StateModel::LastIgnore => shielded(p, events),
        StateModel::LastManifest => shielded(p, events),
        StateModel::ManifestWritten => shielded(p, events),
        StateModel::RestoredIgnore(_) => formerly_ignored(p, events),
        StateModel::Restored(_) => formerly_ignored(p, events),
        _ => true,
    }
}

/// What an effect needs of the events that led to it.
pub open spec fn due(p: PublicationModel, events: Seq<EventModel>, e: EffectModel) -> bool {
    match e {
        EffectModel::WriteIgnore(bytes) => {
            ||| bytes == p.candidate && events.len() == 3 && events[1] == EventModel::Manifest(
                Some(p.preparation.original),
            ) && events[2] == EventModel::Ignore(p.original)
            ||| course(p, events).0 is Recovered
        },
        EffectModel::RestoreIgnore => formerly_ignored(p, events) && events.last()
            == EventModel::Ignore(Some(p.candidate)),
        EffectModel::TightenPlaintext => shielded(p, events),
        EffectModel::WriteManifest => shielded(p, events),
        EffectModel::Finish(Ok(_)) => shielded(p, events) && events.last() == EventModel::Done,
        _ => true,
    }
}

proof fn lemma_evaluated(
    p: PublicationModel,
    events: Seq<EventModel>,
    previous: Seq<(Seq<char>, Option<git_ignore::RuleModel>)>,
    answers: Seq<(Seq<char>, Option<git_ignore::RuleModel>)>,
)
    requires
        events.len() == 7,
        events[0] == EventModel::Answers(previous),
        events[4] == EventModel::Answers(answers),
    ensures
        timed(p, events, evaluated(p, previous, answers).0),
        !(evaluated(p, previous, answers).1 is WriteIgnore),
        due(p, events, evaluated(p, previous, answers).1),
{
    if step::all_ignored(previous, p.existing) {
        assert forall|i: int| 0 <= i < p.existing.len() implies (git_ignore::answer_for(
            previous,
            #[trigger] p.existing[i],
        ) matches Some(Some(rule)) && rule.ignored) by {
            assert(git_ignore::answer_for(previous, p.existing[i]) matches Some(m)
                && git_ignore::ignored_by(m));
        }
        assert(formerly_ignored(p, events));
    }
}

/// Law: whatever happens outside, a publication does each thing only after what it needs.
/// The rules are written only where manifest and rules were as they had been loaded; the
/// manifest is written, and the registration ends well, only where Git answered after the
/// rules were written that every managed plaintext is ignored and no ciphertext is; and the
/// former rules are put back only where Git had answered, before anything was written, that
/// every plaintext that exists was ignored, and where the new rules still stand.
pub proof fn law_every_effect_is_due(p: PublicationModel, events: Seq<EventModel>)
    ensures
        timed(p, events, course(p, events).0),
        due(p, events, course(p, events).1),
    decreases events.len(),
{
    if events.len() > 0 {
        let before = events.drop_last();
        law_every_effect_is_due(p, before);
        assert(forall|i: int| 0 <= i < before.len() ==> #[trigger] before[i] == events[i]);
        let s = course(p, before).0;
        lemma_kept_knowledge(p, before, events);
        match (s, events.last()) {
            (StateModel::SecondManifest(previous, answers), EventModel::Manifest(bytes)) => {
                if bytes == Some(p.preparation.original) {
                    lemma_evaluated(p, events, previous, answers);
                }
            },
            (StateModel::CurrentIgnore(_), _) => {},
            _ => {},
        }
    }
}

proof fn lemma_kept_knowledge(
    p: PublicationModel,
    before: Seq<EventModel>,
    events: Seq<EventModel>,
)
    requires
        events.len() == before.len() + 1,
        forall|i: int| 0 <= i < before.len() ==> #[trigger] before[i] == events[i],
    ensures
        shielded(p, before) ==> shielded(p, events),
        formerly_ignored(p, before) ==> formerly_ignored(p, events),
        before.len() > 0 ==> before[0] == events[0],
        before.len() > 1 ==> before[1] == events[1],
        before.len() > 4 ==> before[4] == events[4],
{
    if before.len() > 6 {
        assert(before[4] == events[4]);
    }
    if before.len() > 0 {
        assert(before[0] == events[0]);
    }
}

} // verus!
