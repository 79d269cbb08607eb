//! The course of bringing one ciphertext to the recipients of a policy: which outside
//! work is done, in which order, and what each of its results leads to.

use vstd::prelude::*;

use crate::baseline::cipher;
use crate::baseline::BaselineRecord;
use crate::error::{ErrorCategory, GitveilError, SecretBytes};
use crate::manifest::{EntryModel, ManifestEntry};
use crate::pair;
use crate::recipient::{AgeRecipientPolicy, PolicyModel};
use crate::recipients::plan::ConvergenceAction;
use crate::recipients::step;
use crate::recipients::step::RecipientFileOutcome;
use crate::seal::run as seal;
use crate::seal::step as sealing;
use crate::sops::SopsFailure;
use crate::source::document;
use crate::source::node;
use crate::source::SourceDocument;

verus! {

/// What is to be done outside.
pub enum ConvergeEffect {
    /// Wrap the data key of a ciphertext for the recipients of the policy.
    Rewrap(Vec<u8>),
    /// Encrypt an envelope for the recipients of the policy, under a fresh data key.
    EncryptNew(SecretBytes),
    Decrypt(Vec<u8>),
    WriteCiphertext(Vec<u8>),
    SaveRecord(BaselineRecord),
    Finish(Result<RecipientFileOutcome, GitveilError>),
}

/// What came of it.
pub enum ConvergeEvent {
    Encrypted(Vec<u8>),
    Decrypted(Result<SecretBytes, SopsFailure>),
    /// A file was written.
    Written,
    /// The outside work failed.
    Failed(GitveilError),
}

pub enum EffectModel {
    Rewrap(Seq<u8>),
    EncryptNew(Seq<u8>),
    Decrypt(Seq<u8>),
    WriteCiphertext(Seq<u8>),
    /// Save a record of a document and the fingerprints of its ciphertext.
    SaveRecord(document::DocumentModel, cipher::CipherModel),
    Finish(Result<RecipientFileOutcome, (ErrorCategory, Seq<char>)>),
}

pub enum EventModel {
    Encrypted(Seq<u8>),
    Decrypted(Result<Seq<u8>, SopsFailure>),
    Written,
    Failed((ErrorCategory, Seq<char>)),
}

impl View for ConvergeEvent {
    type V = EventModel;

    open spec fn view(&self) -> EventModel {
        match *self {
            ConvergeEvent::Encrypted(output) => EventModel::Encrypted(output@),
            ConvergeEvent::Decrypted(output) => EventModel::Decrypted(pair::view_output(output)),
            ConvergeEvent::Written => EventModel::Written,
            ConvergeEvent::Failed(error) => EventModel::Failed(error@),
        }
    }
}

impl ConvergeEffect {
    /// An effect is the one that a model describes.
    pub open spec fn is(self, m: EffectModel) -> bool {
        match self {
            ConvergeEffect::Rewrap(bytes) => m == EffectModel::Rewrap(bytes@),
            ConvergeEffect::EncryptNew(payload) => m == EffectModel::EncryptNew(payload@),
            ConvergeEffect::Decrypt(bytes) => m == EffectModel::Decrypt(bytes@),
            ConvergeEffect::WriteCiphertext(bytes) => m == EffectModel::WriteCiphertext(bytes@),
            ConvergeEffect::SaveRecord(r) => m matches EffectModel::SaveRecord(d, c)
                && seal::records(r, d, c),
            ConvergeEffect::Finish(Ok(outcome)) => m == EffectModel::Finish(Ok(outcome)),
            ConvergeEffect::Finish(Err(e)) => m == EffectModel::Finish(Err(e@)),
        }
    }
}

/// What is awaited.
enum ConvergeState {
    Rewrapped,
    Rotated,
    Check(Vec<u8>),
    Write(Vec<u8>, RecipientFileOutcome),
    Save(RecipientFileOutcome),
    Finished,
}

pub enum StateModel {
    Rewrapped,
    Rotated,
    Check(Seq<u8>),
    Write(Seq<u8>, RecipientFileOutcome),
    Save(RecipientFileOutcome),
    Finished,
}

spec fn view_state(s: ConvergeState) -> StateModel {
    match s {
        ConvergeState::Rewrapped => StateModel::Rewrapped,
        ConvergeState::Rotated => StateModel::Rotated,
        ConvergeState::Check(bytes) => StateModel::Check(bytes@),
        ConvergeState::Write(bytes, outcome) => StateModel::Write(bytes@, outcome),
        ConvergeState::Save(outcome) => StateModel::Save(outcome),
        ConvergeState::Finished => StateModel::Finished,
    }
}

/// The ciphertext that is changed, the document that it holds, and the policy that it
/// is brought to.
pub struct FileModel {
    pub entry: EntryModel,
    pub policy: PolicyModel,
    pub bytes: Seq<u8>,
    pub document: document::DocumentModel,
}

pub open spec fn finished(r: Result<RecipientFileOutcome, (ErrorCategory, Seq<char>)>) -> (
    StateModel,
    EffectModel,
) {
    (StateModel::Finished, EffectModel::Finish(r))
}

/// A result that no outside work was asked for.
pub open spec fn unexpected() -> (ErrorCategory, Seq<char>) {
    (ErrorCategory::Integrity, "recipient convergence received a result that it did not ask for"@)
}

/// How the change of a file begins.
pub open spec fn begun(f: FileModel, action: ConvergenceAction) -> (StateModel, EffectModel) {
    match action {
        ConvergenceAction::AlreadyAligned => finished(Ok(RecipientFileOutcome::AlreadyAligned)),
        ConvergenceAction::Rewrap => (StateModel::Rewrapped, EffectModel::Rewrap(f.bytes)),
        ConvergenceAction::Rotate => match pair::payload_of(f.entry.path, f.document) {
            Err(fault) => finished(Err(fault)),
            Ok(payload) => (StateModel::Rotated, EffectModel::EncryptNew(payload)),
        },
    }
}

/// One step of the change of a file: what is awaited next, and what is done for it.
pub open spec fn converge_step(f: FileModel, state: StateModel, event: EventModel) -> (
    StateModel,
    EffectModel,
) {
    let (path, format) = (f.entry.path, f.entry.format);
    match (state, event) {
        (_, EventModel::Failed(fault)) => finished(Err(fault)),
        (StateModel::Rewrapped, EventModel::Encrypted(output)) => match step::rewrap_fault(
            path,
            format,
            f.policy,
            f.bytes,
            output,
        ) {
            Some(fault) => finished(Err(fault)),
            None => (
                StateModel::Write(output, RecipientFileOutcome::Rewrapped),
                EffectModel::WriteCiphertext(output),
            ),
        },
        (StateModel::Rotated, EventModel::Encrypted(output)) => match step::authorized_envelope(
            path,
            format,
            f.policy,
            output,
        ) {
            Err(fault) => finished(Err(fault)),
            Ok(_) => (StateModel::Check(output), EffectModel::Decrypt(output)),
        },
        (StateModel::Check(bytes), EventModel::Decrypted(output)) => match pair::source_of(
            path,
            format,
            output,
        ) {
            Err(fault) => finished(Err(fault)),
            Ok(roundtrip) => if roundtrip == f.document {
                (
                    StateModel::Write(bytes, RecipientFileOutcome::DataKeyRotated),
                    EffectModel::WriteCiphertext(bytes),
                )
            } else {
                finished(
                    Err(
                        (
                            ErrorCategory::Integrity,
                            "rotated ciphertext failed semantic verification at "@ + path,
                        ),
                    ),
                )
            },
        },
        (StateModel::Write(bytes, outcome), EventModel::Written) => match pair::envelope_of(
            path,
            format,
            bytes,
        ) {
            Err(fault) => finished(Err(fault)),
            Ok(envelope) => (
                StateModel::Save(outcome),
                EffectModel::SaveRecord(f.document, cipher::summary_of(envelope)),
            ),
        },
        (StateModel::Save(outcome), EventModel::Written) => finished(Ok(outcome)),
        _ => finished(Err(unexpected())),
    }
}

/// The change of one ciphertext.
pub struct ConvergeRun {
    entry: ManifestEntry,
    policy: AgeRecipientPolicy,
    bytes: Vec<u8>,
    document: SourceDocument,
    state: ConvergeState,
}

pub struct RunModel {
    pub file: FileModel,
    pub state: StateModel,
}

impl View for ConvergeRun {
    type V = RunModel;

    closed spec fn view(&self) -> RunModel {
        RunModel {
            file: FileModel {
                entry: self.entry@,
                policy: self.policy@,
                bytes: self.bytes@,
                document: self.document@,
            },
            state: view_state(self.state),
        }
    }
}

fn fail(error: GitveilError) -> (r: (ConvergeState, ConvergeEffect))
    ensures
        view_state(r.0) == StateModel::Finished,
        r.1.is(EffectModel::Finish(Err(error@))),
{
    (ConvergeState::Finished, ConvergeEffect::Finish(Err(error)))
}

impl ConvergeRun {
    /// Begins to bring a ciphertext, which was decrypted to a document, to the
    /// recipients of a policy.
    pub fn start(
        entry: &ManifestEntry,
        policy: &AgeRecipientPolicy,
        bytes: Vec<u8>,
        document: SourceDocument,
        action: ConvergenceAction,
    ) -> (r: (ConvergeRun, ConvergeEffect))
        requires
            node::named_tags(document@.root),
        ensures
            ({
                let file = FileModel {
                    entry: entry@,
                    policy: policy@,
                    bytes: bytes@,
                    document: document@,
                };
                &&& r.0@ == RunModel { file, state: begun(file, action).0 }
                &&& r.1.is(begun(file, action).1)
            }),
    {
        let (state, effect) = match action {
            ConvergenceAction::AlreadyAligned => (
                ConvergeState::Finished,
                ConvergeEffect::Finish(Ok(RecipientFileOutcome::AlreadyAligned)),
            ),
            ConvergenceAction::Rewrap => (
                ConvergeState::Rewrapped,
                ConvergeEffect::Rewrap(bytes.clone()),
            ),
            ConvergenceAction::Rotate => match pair::desired_envelope(&document, entry.path()) {
                Err(error) => fail(error),
                Ok(payload) => (ConvergeState::Rotated, ConvergeEffect::EncryptNew(payload)),
            },
        };
        (
            ConvergeRun { entry: entry.clone(), policy: policy.clone(), bytes, document, state },
            effect,
        )
    }

    fn advance(&self, state: ConvergeState, event: ConvergeEvent) -> (r: (
        ConvergeState,
        ConvergeEffect,
    ))
        ensures
            view_state(r.0) == converge_step(self@.file, view_state(state), event@).0,
            r.1.is(converge_step(self@.file, view_state(state), event@).1),
    {
        let path = self.entry.path();
        let format = self.entry.format();
        match (state, event) {
            (_, ConvergeEvent::Failed(error)) => fail(error),
            (ConvergeState::Rewrapped, ConvergeEvent::Encrypted(output)) =>
                match step::verify_rewrap(
                path,
                format,
                &self.policy,
                self.bytes.as_slice(),
                output.as_slice(),
            ) {
                Err(error) => fail(error),
                Ok(_) => {
                    let copy = output.clone();
                    (
                        ConvergeState::Write(output, RecipientFileOutcome::Rewrapped),
                        ConvergeEffect::WriteCiphertext(copy),
                    )
                },
            },
            (ConvergeState::Rotated, ConvergeEvent::Encrypted(output)) =>
                match step::accept_authorized(path, format, &self.policy, output.as_slice()) {
                Err(error) => fail(error),
                Ok(_) => {
                    let copy = output.clone();
                    (ConvergeState::Check(output), ConvergeEffect::Decrypt(copy))
                },
            },
            (ConvergeState::Check(bytes), ConvergeEvent::Decrypted(output)) =>
                match pair::decrypt_source(path, format, output) {
                Err(error) => fail(error),
                Ok(roundtrip) => match step::accept_rotated(path, &self.document, &roundtrip) {
                    Err(error) => fail(error),
                    Ok(_) => {
                        let copy = bytes.clone();
                        (
                            ConvergeState::Write(bytes, RecipientFileOutcome::DataKeyRotated),
                            ConvergeEffect::WriteCiphertext(copy),
                        )
                    },
                },
            },
            (ConvergeState::Write(bytes, outcome), ConvergeEvent::Written) =>
                match sealing::sealed_record(path, format, &self.document, bytes.as_slice()) {
                Err(error) => fail(error),
                Ok(record) => (ConvergeState::Save(outcome), ConvergeEffect::SaveRecord(record)),
            },
            (ConvergeState::Save(outcome), ConvergeEvent::Written) => (
                ConvergeState::Finished,
                ConvergeEffect::Finish(Ok(outcome)),
            ),
            _ => fail(
                GitveilError::new(
                    ErrorCategory::Integrity,
                    "recipient convergence received a result that it did not ask for".to_owned(),
                ),
            ),
        }
    }

    /// Takes what came of the last effect, and gives the next.
    pub fn next(self, event: ConvergeEvent) -> (r: (ConvergeRun, ConvergeEffect))
        ensures
            r.0@.file == self@.file,
            r.0@.state == converge_step(self@.file, self@.state, event@).0,
            r.1.is(converge_step(self@.file, self@.state, event@).1),
    {
        let ConvergeRun { entry, policy, bytes, document, state } = self;
        let still = ConvergeRun {
            entry,
            policy,
            bytes,
            document,
            state: ConvergeState::Finished,
        };
        let (state, effect) = still.advance(state, event);
        let ConvergeRun { entry, policy, bytes, document, .. } = still;
        (ConvergeRun { entry, policy, bytes, document, state }, effect)
    }
}

/// Where the change of a file stands after some events.
pub open spec fn course(f: FileModel, action: ConvergenceAction, events: Seq<EventModel>) -> (
    StateModel,
    EffectModel,
)
    decreases events.len(),
{
    if events.len() == 0 {
        begun(f, action)
    } else {
        converge_step(f, course(f, action, events.drop_last()).0, events.last())
    }
}

/// What every state of a course knows of the new ciphertext.
pub open spec fn authorized_state(f: FileModel, s: StateModel) -> bool {
    match s {
        StateModel::Check(bytes) => step::authorized_envelope(
            f.entry.path,
            f.entry.format,
            f.policy,
            bytes,
        ) is Ok,
        _ => true,
    }
}

proof fn lemma_course_is_authorized(
    f: FileModel,
    action: ConvergenceAction,
    events: Seq<EventModel>,
)
    ensures
        authorized_state(f, course(f, action, events).0),
        events.len() == 0 ==> !(course(f, action, events).1 is WriteCiphertext),
    decreases events.len(),
{
    if events.len() > 0 {
        lemma_course_is_authorized(f, action, events.drop_last());
    }
}

/// Law: whatever happens outside, the ciphertext that is written is a valid envelope
/// for exactly the recipients of the policy.
pub proof fn law_written_ciphertext_is_authorized(
    f: FileModel,
    action: ConvergenceAction,
    events: Seq<EventModel>,
)
    requires
        course(f, action, events).1 is WriteCiphertext,
    ensures
        step::authorized_envelope(
            f.entry.path,
            f.entry.format,
            f.policy,
            course(f, action, events).1->WriteCiphertext_0,
        ) matches Ok(envelope) && sealing::aligned(f.policy, envelope.recipients),
{
    lemma_course_is_authorized(f, action, events);
    if events.len() > 0 {
        lemma_course_is_authorized(f, action, events.drop_last());
    }
}

} // verus!
