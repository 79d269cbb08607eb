//! The course of resolving one conflicted pair: which outside work is done, in which
//! order, and what each of its results leads to.

use vstd::prelude::*;

use crate::baseline::cipher;
use crate::baseline::BaselineRecord;
use crate::envelope::ciphertext;
use crate::envelope::CiphertextEnvelope;
use crate::error::{ErrorCategory, GitveilError, SecretBytes};
use crate::manifest::{EntryModel, ManifestEntry, ResolvedManifestEntry};
use crate::open::step as render;
use crate::pair;
use crate::path;
use crate::recipient;
use crate::recipient::{AgeRecipient, AgeRecipientPolicy, PolicyModel};
use crate::resolve::step;
use crate::resolve::step::{MergeTask, Resolution, ResolutionModel, ResolveOutcome};
use crate::seal::run as seal;
use crate::seal::step as policy;
use crate::sops::command;
use crate::sops::SopsFailure;
use crate::source::document;
use crate::source::node;
use crate::source::{NodePath, SourceDocument};

verus! {

/// What is to be done outside.
pub enum ResolveEffect {
    Decrypt(Vec<u8>),
    /// Encrypt an envelope for the recipients of a policy, under a fresh data key.
    EncryptNew(SecretBytes, AgeRecipientPolicy),
    /// Edit a ciphertext so that it holds an envelope.
    Edit(Vec<u8>, SecretBytes),
    WriteCiphertext(Vec<u8>),
    WritePlaintext(Vec<u8>),
    SaveRecord(BaselineRecord),
    Finish(Result<ResolveOutcome, GitveilError>),
}

/// What came of it.
pub enum ResolveEvent {
    Decrypted(Result<SecretBytes, SopsFailure>),
    Encrypted(Vec<u8>),
    /// A file was written.
    Written,
    /// The outside work failed.
    Failed(GitveilError),
}

pub enum OutcomeModel {
    Resolved { data_key_rotated: bool, recipient_drift: bool },
    ConflictWritten(Seq<node::Step>),
}

pub open spec fn view_outcome(o: ResolveOutcome) -> OutcomeModel {
    match o {
        ResolveOutcome::Resolved { data_key_rotated, recipient_drift } => OutcomeModel::Resolved {
            data_key_rotated,
            recipient_drift,
        },
        ResolveOutcome::ConflictWritten(at) => OutcomeModel::ConflictWritten(at@),
    }
}

pub enum EffectModel {
    Decrypt(Seq<u8>),
    EncryptNew(Seq<u8>, PolicyModel),
    Edit(Seq<u8>, Seq<u8>),
    WriteCiphertext(Seq<u8>),
    WritePlaintext(Seq<u8>),
    /// Save a record of a document and the fingerprints of its ciphertext.
    SaveRecord(document::DocumentModel, cipher::CipherModel),
    Finish(Result<OutcomeModel, (ErrorCategory, Seq<char>)>),
}

pub enum EventModel {
    Decrypted(Result<Seq<u8>, SopsFailure>),
    Encrypted(Seq<u8>),
    Written,
    Failed((ErrorCategory, Seq<char>)),
}

impl View for ResolveEvent {
    type V = EventModel;

    open spec fn view(&self) -> EventModel {
        match *self {
            ResolveEvent::Decrypted(output) => EventModel::Decrypted(pair::view_output(output)),
            ResolveEvent::Encrypted(output) => EventModel::Encrypted(output@),
            ResolveEvent::Written => EventModel::Written,
            ResolveEvent::Failed(error) => EventModel::Failed(error@),
        }
    }
}

impl ResolveEffect {
    /// An effect is the one that a model describes.
    pub open spec fn is(self, m: EffectModel) -> bool {
        match self {
            ResolveEffect::Decrypt(bytes) => m == EffectModel::Decrypt(bytes@),
            ResolveEffect::EncryptNew(payload, policy) => m == EffectModel::EncryptNew(
                payload@,
                policy@,
            ),
            ResolveEffect::Edit(bytes, payload) => m == EffectModel::Edit(bytes@, payload@),
            ResolveEffect::WriteCiphertext(bytes) => m == EffectModel::WriteCiphertext(bytes@),
            ResolveEffect::WritePlaintext(bytes) => m == EffectModel::WritePlaintext(bytes@),
            ResolveEffect::SaveRecord(r) => m matches EffectModel::SaveRecord(d, c)
                && seal::records(r, d, c),
            ResolveEffect::Finish(Ok(outcome)) => m == EffectModel::Finish(
                Ok(view_outcome(outcome)),
            ),
            ResolveEffect::Finish(Err(e)) => m == EffectModel::Finish(Err(e@)),
        }
    }
}

/// A merge that is on its way into a ciphertext.
struct Merge {
    merged: SourceDocument,
    target: Vec<AgeRecipient>,
    rotated: bool,
}

pub struct MergeModel {
    pub merged: document::DocumentModel,
    pub target: Seq<Seq<char>>,
    pub rotated: bool,
}

spec fn view_merge(m: Merge) -> MergeModel {
    MergeModel { merged: m.merged@, target: recipient::names(m.target@), rotated: m.rotated }
}

/// What is awaited.
enum ResolveState {
    Base,
    Ours(SourceDocument),
    Theirs(SourceDocument, SourceDocument),
    Encryption(Merge),
    Check(Merge, CiphertextEnvelope, Vec<u8>),
    /// The ciphertext; the plaintext comes after it.
    WriteCiphertext(Merge, CiphertextEnvelope, Vec<u8>),
    WritePlaintext(Merge, CiphertextEnvelope),
    Save(ResolveOutcome),
    /// Our ciphertext; the conflict document comes after it.
    KeepOurs(NodePath, SecretBytes),
    WriteConflict(NodePath),
    Finished,
}

pub enum StateModel {
    Base,
    Ours(document::DocumentModel),
    Theirs(document::DocumentModel, document::DocumentModel),
    Encryption(MergeModel),
    Check(MergeModel, ciphertext::CiphertextModel, Seq<u8>),
    WriteCiphertext(MergeModel, ciphertext::CiphertextModel, Seq<u8>),
    WritePlaintext(MergeModel, ciphertext::CiphertextModel),
    Save(OutcomeModel),
    KeepOurs(Seq<node::Step>, Seq<u8>),
    WriteConflict(Seq<node::Step>),
    Finished,
}

spec fn view_state(s: ResolveState) -> StateModel {
    match s {
        ResolveState::Base => StateModel::Base,
        ResolveState::Ours(base) => StateModel::Ours(base@),
        ResolveState::Theirs(base, ours) => StateModel::Theirs(base@, ours@),
        ResolveState::Encryption(m) => StateModel::Encryption(view_merge(m)),
        ResolveState::Check(m, e, bytes) => StateModel::Check(view_merge(m), e@, bytes@),
        ResolveState::WriteCiphertext(m, e, plain) => StateModel::WriteCiphertext(
            view_merge(m),
            e@,
            plain@,
        ),
        ResolveState::WritePlaintext(m, e) => StateModel::WritePlaintext(view_merge(m), e@),
        ResolveState::Save(outcome) => StateModel::Save(view_outcome(outcome)),
        ResolveState::KeepOurs(at, document) => StateModel::KeepOurs(at@, document@),
        ResolveState::WriteConflict(at) => StateModel::WriteConflict(at@),
        ResolveState::Finished => StateModel::Finished,
    }
}

/// The documents of a state can be written.
spec fn named_state(s: ResolveState) -> bool {
    match s {
        ResolveState::Theirs(_, ours) => node::named_tags(ours@.root),
        ResolveState::Encryption(m) => node::named_tags(m.merged@.root),
        ResolveState::Check(m, _, _) => node::named_tags(m.merged@.root),
        _ => true,
    }
}

/// The pair that is resolved, with the stages of the index.
pub struct PairModel {
    pub entry: EntryModel,
    pub policy: PolicyModel,
    pub base: Option<Seq<u8>>,
    pub ours: Seq<u8>,
    pub theirs: Seq<u8>,
    /// Records of the last sync are kept.
    pub recorded: bool,
}

impl PairModel {
    pub open spec fn cipher(self) -> Seq<char> {
        self.entry.path + path::ciphertext_suffix()
    }
}

pub open spec fn finished(r: Result<OutcomeModel, (ErrorCategory, Seq<char>)>) -> (
    StateModel,
    EffectModel,
) {
    (StateModel::Finished, EffectModel::Finish(r))
}

/// A result that no outside work was asked for.
pub open spec fn unexpected() -> (ErrorCategory, Seq<char>) {
    (ErrorCategory::Integrity, "resolve received a result that it did not ask for"@)
}

/// A stage is decrypted once its envelope was checked.
pub open spec fn decrypt_stage(
    p: PairModel,
    stage: Seq<char>,
    bytes: Seq<u8>,
    next: StateModel,
) -> (StateModel, EffectModel) {
    match step::stage_of(p.entry.path, p.entry.format, stage, bytes) {
        Err(fault) => finished(Err(fault)),
        Ok(_) => (next, EffectModel::Decrypt(bytes)),
    }
}

/// Resolving begins with the base, if there is one.
pub open spec fn begun(p: PairModel) -> (StateModel, EffectModel) {
    match p.base {
        Some(base) => decrypt_stage(p, "base"@, base, StateModel::Base),
        None => decrypt_stage(
            p,
            "ours"@,
            p.ours,
            StateModel::Ours(command::empty_model(p.entry.format)),
        ),
    }
}

/// What is done with a resolution.
pub open spec fn carry_out(p: PairModel, r: ResolutionModel) -> (StateModel, EffectModel) {
    match r {
        ResolutionModel::Conflict { path, document } => (
            StateModel::KeepOurs(path, document),
            EffectModel::WriteCiphertext(p.ours),
        ),
        ResolutionModel::Merged { merged, payload, target, narrowed } => (
            StateModel::Encryption(MergeModel { merged, target, rotated: narrowed is Some }),
            match narrowed {
                Some(policy) => EffectModel::EncryptNew(payload, policy),
                None => EffectModel::Edit(p.ours, payload),
            },
        ),
    }
}

/// What is reported and recorded of a completed merge.
pub open spec fn conclude(
    p: PairModel,
    m: MergeModel,
    envelope: ciphertext::CiphertextModel,
) -> (StateModel, EffectModel) {
    let outcome = OutcomeModel::Resolved {
        data_key_rotated: m.rotated,
        recipient_drift: !policy::aligned(p.policy, envelope.recipients),
    };
    if p.recorded {
        (
            StateModel::Save(outcome),
            EffectModel::SaveRecord(m.merged, cipher::summary_of(envelope)),
        )
    } else {
        finished(Ok(outcome))
    }
}

/// What is done with the document that the new ciphertext was decrypted to.
pub open spec fn verified(
    p: PairModel,
    m: MergeModel,
    envelope: ciphertext::CiphertextModel,
    bytes: Seq<u8>,
    actual: document::DocumentModel,
) -> (StateModel, EffectModel) {
    if actual != m.merged {
        finished(
            Err(
                (
                    ErrorCategory::Integrity,
                    "merge result failed semantic verification at "@ + p.entry.path,
                ),
            ),
        )
    } else {
        match render::rendered(p.entry.path, p.entry.format, m.merged) {
            Err(fault) => finished(Err(fault)),
            Ok(plain) => (
                StateModel::WriteCiphertext(m, envelope, plain),
                EffectModel::WriteCiphertext(bytes),
            ),
        }
    }
}

/// One step of resolving: what is awaited next, and what is done for it.
pub open spec fn resolve_step(p: PairModel, state: StateModel, event: EventModel) -> (
    StateModel,
    EffectModel,
) {
    match (state, event) {
        (_, EventModel::Failed(fault)) => finished(Err(fault)),
        (StateModel::Base, EventModel::Decrypted(output)) => match pair::source_of(
            p.entry.path,
            p.entry.format,
            output,
        ) {
            Err(fault) => finished(Err(fault)),
            Ok(base) => decrypt_stage(p, "ours"@, p.ours, StateModel::Ours(base)),
        },
        (StateModel::Ours(base), EventModel::Decrypted(output)) => match pair::source_of(
            p.entry.path,
            p.entry.format,
            output,
        ) {
            Err(fault) => finished(Err(fault)),
            Ok(ours) => decrypt_stage(p, "theirs"@, p.theirs, StateModel::Theirs(base, ours)),
        },
        (StateModel::Theirs(base, ours), EventModel::Decrypted(output)) => match pair::source_of(
            p.entry.path,
            p.entry.format,
            output,
        ) {
            Err(fault) => finished(Err(fault)),
            Ok(theirs) => match step::resolution_of(
                p.entry.path,
                p.cipher(),
                p.entry.format,
                p.policy,
                (base, ours, theirs),
                p.ours,
            ) {
                Err(fault) => finished(Err(fault)),
                Ok(resolution) => carry_out(p, resolution),
            },
        },
        (StateModel::Encryption(m), EventModel::Encrypted(output)) => match step::merged_envelope(
            p.entry.path,
            p.entry.format,
            m.target,
            output,
        ) {
            Err(fault) => finished(Err(fault)),
            Ok(envelope) => (
                StateModel::Check(m, envelope, output),
                EffectModel::Decrypt(output),
            ),
        },
        (StateModel::Check(m, envelope, bytes), EventModel::Decrypted(output)) =>
            match pair::source_of(p.entry.path, p.entry.format, output) {
            Err(fault) => finished(Err(fault)),
            Ok(actual) => verified(p, m, envelope, bytes, actual),
        },
        (StateModel::WriteCiphertext(m, envelope, plain), EventModel::Written) => (
            StateModel::WritePlaintext(m, envelope),
            EffectModel::WritePlaintext(plain),
        ),
        (StateModel::WritePlaintext(m, envelope), EventModel::Written) => conclude(p, m, envelope),
        (StateModel::Save(outcome), EventModel::Written) => finished(Ok(outcome)),
        (StateModel::KeepOurs(at, document), EventModel::Written) => (
            StateModel::WriteConflict(at),
            EffectModel::WritePlaintext(document),
        ),
        (StateModel::WriteConflict(at), EventModel::Written) => finished(
            Ok(OutcomeModel::ConflictWritten(at)),
        ),
        _ => finished(Err(unexpected())),
    }
}

/// The resolving of one pair.
pub struct ResolveRun {
    entry: ManifestEntry,
    policy: AgeRecipientPolicy,
    base: Option<Vec<u8>>,
    ours: Vec<u8>,
    theirs: Vec<u8>,
    recorded: bool,
    state: ResolveState,
}

pub struct RunModel {
    pub pair: PairModel,
    pub state: StateModel,
}

impl View for ResolveRun {
    type V = RunModel;

    closed spec fn view(&self) -> RunModel {
        RunModel {
            pair: PairModel {
                entry: self.entry@,
                policy: self.policy@,
                base: seal::view_bytes(self.base),
                ours: self.ours@,
                theirs: self.theirs@,
                recorded: self.recorded,
            },
            state: view_state(self.state),
        }
    }
}

fn fail(error: GitveilError) -> (r: (ResolveState, ResolveEffect))
    ensures
        view_state(r.0) == StateModel::Finished,
        r.1.is(EffectModel::Finish(Err(error@))),
        named_state(r.0),
{
    (ResolveState::Finished, ResolveEffect::Finish(Err(error)))
}

impl ResolveRun {
    #[verifier::type_invariant]
    spec fn valid(self) -> bool {
        named_state(self.state)
    }

    /// Begins to resolve a pair, given the stages of the index. `recorded` tells
    /// whether records of the last sync are kept.
    pub fn start(
        pair: &ResolvedManifestEntry,
        base: Option<Vec<u8>>,
        ours: Vec<u8>,
        theirs: Vec<u8>,
        recorded: bool,
    ) -> (r: (ResolveRun, ResolveEffect))
        ensures
            ({
                let model = PairModel {
                    entry: pair@.0,
                    policy: pair@.1,
                    base: seal::view_bytes(base),
                    ours: ours@,
                    theirs: theirs@,
                    recorded,
                };
                &&& r.0@ == RunModel { pair: model, state: begun(model).0 }
                &&& r.1.is(begun(model).1)
            }),
    {
        let mut run = ResolveRun {
            entry: pair.entry().clone(),
            policy: pair.recipient_policy().clone(),
            base,
            ours,
            theirs,
            recorded,
            state: ResolveState::Finished,
        };
        let (state, effect) = match &run.base {
            Some(base) => run.decrypt("base", base, ResolveState::Base),
            None => run.decrypt(
                "ours",
                &run.ours,
                ResolveState::Ours(command::empty_document(run.entry.format())),
            ),
        };
        let ResolveRun { entry, policy, base, ours, theirs, recorded, .. } = run;
        (ResolveRun { entry, policy, base, ours, theirs, recorded, state }, effect)
    }

    fn decrypt(&self, stage: &str, bytes: &Vec<u8>, next: ResolveState) -> (r: (
        ResolveState,
        ResolveEffect,
    ))
        requires
            named_state(next),
        ensures
            view_state(r.0) == decrypt_stage(self@.pair, stage@, bytes@, view_state(next)).0,
            r.1.is(decrypt_stage(self@.pair, stage@, bytes@, view_state(next)).1),
            named_state(r.0),
    {
        match step::read_stage(self.entry.path(), self.entry.format(), stage, bytes.as_slice()) {
            Err(error) => fail(error),
            Ok(_) => (next, ResolveEffect::Decrypt(bytes.clone())),
        }
    }

    fn plan(&self, base: &SourceDocument, ours: &SourceDocument, theirs: &SourceDocument) -> (r: (
        ResolveState,
        ResolveEffect,
    ))
        requires
            node::named_tags(ours@.root),
            node::named_tags(theirs@.root),
        ensures
            ({
                let p = self@.pair;
                let next = match step::resolution_of(
                    p.entry.path,
                    p.cipher(),
                    p.entry.format,
                    p.policy,
                    (base@, ours@, theirs@),
                    p.ours,
                ) {
                    Err(fault) => finished(Err(fault)),
                    Ok(resolution) => carry_out(p, resolution),
                };
                view_state(r.0) == next.0 && r.1.is(next.1)
            }),
            named_state(r.0),
    {
        match step::plan_resolution(
            self.entry.path(),
            &self.entry.ciphertext_path(),
            self.entry.format(),
            &self.policy,
            base,
            ours,
            theirs,
            self.ours.as_slice(),
        ) {
            Err(error) => fail(error),
            Ok(Resolution::Conflict { path, document }) => (
                ResolveState::KeepOurs(path, document),
                ResolveEffect::WriteCiphertext(self.ours.clone()),
            ),
            Ok(Resolution::Merged(task)) => {
                let MergeTask { merged, payload, target, narrowed } = task;
                match narrowed {
                    Some(policy) => (
                        ResolveState::Encryption(Merge { merged, target, rotated: true }),
                        ResolveEffect::EncryptNew(payload, policy),
                    ),
                    None => (
                        ResolveState::Encryption(Merge { merged, target, rotated: false }),
                        ResolveEffect::Edit(self.ours.clone(), payload),
                    ),
                }
            },
        }
    }

    fn verify(
        &self,
        merge: Merge,
        envelope: CiphertextEnvelope,
        bytes: Vec<u8>,
        actual: &SourceDocument,
    ) -> (r: (ResolveState, ResolveEffect))
        requires
            node::named_tags(merge.merged@.root),
        ensures
            ({
                let next = verified(
                    self@.pair,
                    view_merge(merge),
                    envelope@,
                    bytes@,
                    actual@,
                );
                view_state(r.0) == next.0 && r.1.is(next.1)
            }),
            named_state(r.0),
    {
        let path = self.entry.path();
        match step::accept_merged(path, &merge.merged, actual) {
            Err(error) => fail(error),
            Ok(_) => match render::render(path, self.entry.format(), &merge.merged) {
                Err(error) => fail(error),
                Ok(plain) => (
                    ResolveState::WriteCiphertext(merge, envelope, plain),
                    ResolveEffect::WriteCiphertext(bytes),
                ),
            },
        }
    }

    fn end(&self, merge: &Merge, envelope: &CiphertextEnvelope) -> (r: (
        ResolveState,
        ResolveEffect,
    ))
        ensures
            view_state(r.0) == conclude(self@.pair, view_merge(*merge), envelope@).0,
            r.1.is(conclude(self@.pair, view_merge(*merge), envelope@).1),
            named_state(r.0),
    {
        let (record, outcome) = step::finish_merge(
            &self.policy,
            &merge.merged,
            merge.rotated,
            envelope,
        );
        if self.recorded {
            (ResolveState::Save(outcome), ResolveEffect::SaveRecord(record))
        } else {
            (ResolveState::Finished, ResolveEffect::Finish(Ok(outcome)))
        }
    }

    fn advance(&self, state: ResolveState, event: ResolveEvent) -> (r: (
        ResolveState,
        ResolveEffect,
    ))
        requires
            named_state(state),
        ensures
            view_state(r.0) == resolve_step(self@.pair, view_state(state), event@).0,
            r.1.is(resolve_step(self@.pair, view_state(state), event@).1),
            named_state(r.0),
    {
        let path = self.entry.path();
        let format = self.entry.format();
        match (state, event) {
            (_, ResolveEvent::Failed(error)) => fail(error),
            (ResolveState::Base, ResolveEvent::Decrypted(output)) => match pair::decrypt_source(
                path,
                format,
                output,
            ) {
                Err(error) => fail(error),
                Ok(base) => self.decrypt("ours", &self.ours, ResolveState::Ours(base)),
            },
            (ResolveState::Ours(base), ResolveEvent::Decrypted(output)) =>
                match pair::decrypt_source(path, format, output) {
                Err(error) => fail(error),
                Ok(ours) => self.decrypt(
                    "theirs",
                    &self.theirs,
                    ResolveState::Theirs(base, ours),
                ),
            },
            (ResolveState::Theirs(base, ours), ResolveEvent::Decrypted(output)) =>
                match pair::decrypt_source(path, format, output) {
                Err(error) => fail(error),
                Ok(theirs) => self.plan(&base, &ours, &theirs),
            },
            (ResolveState::Encryption(merge), ResolveEvent::Encrypted(output)) =>
                match step::accept_merge(
                path,
                format,
                merge.target.as_slice(),
                output.as_slice(),
            ) {
                Err(error) => fail(error),
                Ok(envelope) => {
                    let copy = output.clone();
                    (
                        ResolveState::Check(merge, envelope, output),
                        ResolveEffect::Decrypt(copy),
                    )
                },
            },
            (ResolveState::Check(merge, envelope, bytes), ResolveEvent::Decrypted(output)) =>
                match pair::decrypt_source(path, format, output) {
                Err(error) => fail(error),
                Ok(actual) => self.verify(merge, envelope, bytes, &actual),
            },
            (ResolveState::WriteCiphertext(merge, envelope, plain), ResolveEvent::Written) => (
                ResolveState::WritePlaintext(merge, envelope),
                ResolveEffect::WritePlaintext(plain),
            ),
            (ResolveState::WritePlaintext(merge, envelope), ResolveEvent::Written) => self.end(
                &merge,
                &envelope,
            ),
            (ResolveState::Save(outcome), ResolveEvent::Written) => (
                ResolveState::Finished,
                ResolveEffect::Finish(Ok(outcome)),
            ),
            (ResolveState::KeepOurs(at, document), ResolveEvent::Written) => (
                ResolveState::WriteConflict(at),
                ResolveEffect::WritePlaintext(document.copy_out()),
            ),
            (ResolveState::WriteConflict(at), ResolveEvent::Written) => (
                ResolveState::Finished,
                ResolveEffect::Finish(Ok(ResolveOutcome::ConflictWritten(at))),
            ),
            _ => fail(
                GitveilError::new(
                    ErrorCategory::Integrity,
                    "resolve received a result that it did not ask for".to_owned(),
                ),
            ),
        }
    }

    /// Takes what came of the last effect, and gives the next.
    pub fn next(self, event: ResolveEvent) -> (r: (ResolveRun, ResolveEffect))
        ensures
            r.0@.pair == self@.pair,
            r.0@.state == resolve_step(self@.pair, self@.state, event@).0,
            r.1.is(resolve_step(self@.pair, self@.state, event@).1),
    {
        proof {
            use_type_invariant(&self);
        }
        let ResolveRun { entry, policy, base, ours, theirs, recorded, state } = self;
        let still = ResolveRun {
            entry,
            policy,
            base,
            ours,
            theirs,
            recorded,
            state: ResolveState::Finished,
        };
        let (state, effect) = still.advance(state, event);
        let ResolveRun { entry, policy, base, ours, theirs, recorded, .. } = still;
        (ResolveRun { entry, policy, base, ours, theirs, recorded, state }, effect)
    }
}

/// Where resolving stands after some events.
pub open spec fn course(p: PairModel, events: Seq<EventModel>) -> (StateModel, EffectModel)
    decreases events.len(),
{
    if events.len() == 0 {
        begun(p)
    } else {
        resolve_step(p, course(p, events.drop_last()).0, events.last())
    }
}

/// The decrypted content of a stage, which an event gave.
pub open spec fn gave(
    p: PairModel,
    events: Seq<EventModel>,
    i: int,
    d: document::DocumentModel,
) -> bool {
    &&& 0 <= i < events.len()
    &&& events[i] matches EventModel::Decrypted(output) && pair::source_of(
        p.entry.path,
        p.entry.format,
        output,
    ) == Ok::<document::DocumentModel, (ErrorCategory, Seq<char>)>(d)
}

/// The event that gave our side: the first, or the second where there is a base.
pub open spec fn our_event(p: PairModel) -> int {
    if p.base is Some {
        1
    } else {
        0
    }
}

/// The base of a merge: what the first event gave, or an empty document.
pub open spec fn gave_base(
    p: PairModel,
    events: Seq<EventModel>,
    base: document::DocumentModel,
) -> bool {
    if p.base is Some {
        gave(p, events, 0, base)
    } else {
        base == command::empty_model(p.entry.format)
    }
}

/// A resolution is that of the three stages, as the first events gave them.
pub open spec fn resolved(p: PairModel, events: Seq<EventModel>, r: ResolutionModel) -> bool {
    exists|
        base: document::DocumentModel,
        ours: document::DocumentModel,
        theirs: document::DocumentModel,
    |
        #[trigger] stages(p, events, base, ours, theirs) && step::resolution_of(
            p.entry.path,
            p.cipher(),
            p.entry.format,
            p.policy,
            (base, ours, theirs),
            p.ours,
        ) == Ok::<ResolutionModel, (ErrorCategory, Seq<char>)>(r)
}

pub open spec fn stages(
    p: PairModel,
    events: Seq<EventModel>,
    base: document::DocumentModel,
    ours: document::DocumentModel,
    theirs: document::DocumentModel,
) -> bool {
    &&& gave_base(p, events, base)
    &&& gave(p, events, our_event(p), ours)
    &&& gave(p, events, our_event(p) + 1, theirs)
}

/// A merge is the one that the stages resolve into.
pub open spec fn merge_of(p: PairModel, events: Seq<EventModel>, m: MergeModel) -> bool {
    exists|payload: Seq<u8>, narrowed: Option<PolicyModel>|
        #[trigger] resolved(
            p,
            events,
            ResolutionModel::Merged { merged: m.merged, payload, target: m.target, narrowed },
        ) && m.rotated == (narrowed is Some)
}

/// What a state knows of the events that led to it.
pub open spec fn grounded(p: PairModel, events: Seq<EventModel>, s: StateModel) -> bool {
    match s {
        StateModel::Base => events.len() == 0 && p.base is Some,
        StateModel::Ours(base) => events.len() == our_event(p) && gave_base(p, events, base),
        StateModel::Theirs(base, ours) => events.len() == our_event(p) + 1 && gave_base(
            p,
            events,
            base,
        ) && gave(p, events, our_event(p), ours),
        StateModel::Encryption(m) => merge_of(p, events, m),
        StateModel::Check(m, _, _) => merge_of(p, events, m),
        StateModel::WriteCiphertext(m, _, _) => merge_of(p, events, m),
        StateModel::WritePlaintext(m, _) => merge_of(p, events, m),
        StateModel::KeepOurs(path, document) => resolved(
            p,
            events,
            ResolutionModel::Conflict { path, document },
        ),
        _ => true,
    }
}

proof fn lemma_more_events(p: PairModel, events: Seq<EventModel>, event: EventModel)
    ensures
        forall|i: int, d: document::DocumentModel|
            gave(p, events, i, d) ==> #[trigger] gave(p, events.push(event), i, d),
        forall|d: document::DocumentModel|
            gave_base(p, events, d) ==> #[trigger] gave_base(p, events.push(event), d),
        forall|r: ResolutionModel|
            resolved(p, events, r) ==> #[trigger] resolved(p, events.push(event), r),
        forall|m: MergeModel|
            merge_of(p, events, m) ==> #[trigger] merge_of(p, events.push(event), m),
{
    let more = events.push(event);
    assert(forall|i: int| 0 <= i < events.len() ==> #[trigger] more[i] == events[i]);
    assert forall|r: ResolutionModel| resolved(p, events, r) implies #[trigger] resolved(
        p,
        more,
        r,
    ) by {
        let (base, ours, theirs) = choose|
            base: document::DocumentModel,
            ours: document::DocumentModel,
            theirs: document::DocumentModel,
        |
            #[trigger] stages(p, events, base, ours, theirs) && step::resolution_of(
                p.entry.path,
                p.cipher(),
                p.entry.format,
                p.policy,
                (base, ours, theirs),
                p.ours,
            ) == Ok::<ResolutionModel, (ErrorCategory, Seq<char>)>(r);
        assert(stages(p, more, base, ours, theirs));
    }
    assert forall|m: MergeModel| merge_of(p, events, m) implies #[trigger] merge_of(p, more, m) by {
        let (payload, narrowed) = choose|payload: Seq<u8>, narrowed: Option<PolicyModel>|
            #[trigger] resolved(
                p,
                events,
                ResolutionModel::Merged { merged: m.merged, payload, target: m.target, narrowed },
            ) && m.rotated == (narrowed is Some);
        assert(resolved(
            p,
            more,
            ResolutionModel::Merged { merged: m.merged, payload, target: m.target, narrowed },
        ));
    }
}

/// The step that begins with a resolution.
proof fn lemma_resolution_is_grounded(p: PairModel, events: Seq<EventModel>, r: ResolutionModel)
    requires
        resolved(p, events, r),
    ensures
        grounded(p, events, carry_out(p, r).0),
{
    match r {
        ResolutionModel::Conflict { path, document } => {},
        ResolutionModel::Merged { merged, payload, target, narrowed } => {
            let m = MergeModel { merged, target, rotated: narrowed is Some };
            assert(merge_of(p, events, m));
        },
    }
}

#[verifier::rlimit(40)]
#[verifier::spinoff_prover]
proof fn lemma_step_is_grounded(
    p: PairModel,
    events: Seq<EventModel>,
    s: StateModel,
    event: EventModel,
)
    requires
        grounded(p, events, s),
    ensures
        grounded(p, events.push(event), resolve_step(p, s, event).0),
{
    let more = events.push(event);
    lemma_more_events(p, events, event);
    match (s, event) {
        (StateModel::Theirs(base, ours), EventModel::Decrypted(output)) => {
            match pair::source_of(p.entry.path, p.entry.format, output) {
                Ok(theirs) => {
                    assert(more[our_event(p) + 1] == event);
                    assert(stages(p, more, base, ours, theirs));
                    match step::resolution_of(
                        p.entry.path,
                        p.cipher(),
                        p.entry.format,
                        p.policy,
                        (base, ours, theirs),
                        p.ours,
                    ) {
                        Ok(r) => {
                            assert(resolved(p, more, r));
                            lemma_resolution_is_grounded(p, more, r);
                        },
                        Err(_) => {},
                    }
                },
                Err(_) => {},
            }
        },
        _ => {},
    }
}

proof fn lemma_course_is_grounded(p: PairModel, events: Seq<EventModel>)
    ensures
        grounded(p, events, course(p, events).0),
    decreases events.len(),
{
    if events.len() > 0 {
        let before = events.drop_last();
        lemma_course_is_grounded(p, before);
        lemma_step_is_grounded(p, before, course(p, before).0, events.last());
        assert(before.push(events.last()) =~= events);
    }
}

/// Law: whatever happens outside, what resolving writes is what the three stages
/// resolve into: the ciphertext of a merge was decrypted to that merge, and a conflict
/// leaves our ciphertext.
pub proof fn law_written_ciphertext_holds_the_merge(p: PairModel, events: Seq<EventModel>)
    requires
        course(p, events).1 is WriteCiphertext,
    ensures
        match course(p, events).0 {
            StateModel::WriteCiphertext(m, _, _) => merge_of(p, events, m) && gave(
                p,
                events,
                events.len() - 1,
                m.merged,
            ),
            StateModel::KeepOurs(path, document) => resolved(
                p,
                events,
                ResolutionModel::Conflict { path, document },
            ) && course(p, events).1->WriteCiphertext_0 == p.ours,
            _ => false,
        },
{
    lemma_course_is_grounded(p, events);
    assert(events.len() > 0);
}

/// A ciphertext that may be written: our own, or one for recipients of our side that
/// the policy holds, and for no others.
pub open spec fn allowed(p: PairModel, bytes: Seq<u8>) -> bool {
    ||| bytes == p.ours
    ||| pair::envelope_of(p.entry.path, p.entry.format, p.ours) matches Ok(own)
        && pair::envelope_of(p.entry.path, p.entry.format, bytes) matches Ok(new)
        && new.recipients.to_multiset() == step::narrowed_target(
        own.recipients,
        p.policy.recipients,
    ).to_multiset()
}

/// What every state of a course knows of the recipients.
pub open spec fn narrow_state(p: PairModel, s: StateModel) -> bool {
    match s {
        StateModel::Encryption(m) => pair::envelope_of(
            p.entry.path,
            p.entry.format,
            p.ours,
        ) matches Ok(own) && m.target == step::narrowed_target(
            own.recipients,
            p.policy.recipients,
        ),
        StateModel::Check(_, _, bytes) => allowed(p, bytes),
        _ => true,
    }
}

proof fn lemma_course_is_narrow(p: PairModel, events: Seq<EventModel>)
    ensures
        narrow_state(p, course(p, events).0),
    decreases events.len(),
{
    if events.len() > 0 {
        lemma_course_is_narrow(p, events.drop_last());
    }
}

/// Law: whatever happens outside, resolving writes our own ciphertext or one whose
/// recipients are those of our side that the policy still holds.
pub proof fn law_written_ciphertext_is_allowed(p: PairModel, events: Seq<EventModel>)
    requires
        course(p, events).1 is WriteCiphertext,
    ensures
        allowed(p, course(p, events).1->WriteCiphertext_0),
{
    lemma_course_is_narrow(p, events);
    if events.len() > 0 {
        lemma_course_is_narrow(p, events.drop_last());
    }
}

} // verus!
