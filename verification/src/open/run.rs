//! The course of opening one managed pair: which outside work is done, in which order,
//! and what each of its results leads to.

use vstd::prelude::*;

use crate::baseline::cipher;
use crate::baseline::record;
use crate::baseline::BaselineRecord;
use crate::envelope::ciphertext;
use crate::envelope::CiphertextEnvelope;
use crate::error::{ErrorCategory, GitveilError, SecretBytes};
use crate::manifest::{EntryModel, ManifestEntry};
use crate::open::plan;
use crate::open::plan::{ConflictModel, OpenConflict};
use crate::open::step;
use crate::open::step::{OpenOutcome, OutcomeModel};
use crate::pair;
use crate::path;
use crate::seal::run as seal;
use crate::sops::SopsFailure;
use crate::source::document;
use crate::source::node;
use crate::source::strict;
use crate::source::strict::StrictNode;
use crate::source::yaml;
use crate::source::SourceDocument;

verus! {

/// What is to be done outside.
pub enum OpenEffect {
    ReadCiphertext,
    Decrypt(Vec<u8>),
    ReadPlaintext,
    LoadRecord,
    /// Let a deserializer read what is to be written.
    Deserialize(Vec<u8>),
    WritePlaintext(Vec<u8>),
    SaveRecord(BaselineRecord),
    Finish(Result<OpenOutcome, GitveilError>),
}

/// What came of it.
pub enum OpenEvent {
    Ciphertext(Option<Vec<u8>>),
    Decrypted(Result<SecretBytes, SopsFailure>),
    /// The plaintext, if there is one, and what a deserializer made of it.
    Plaintext(Option<Vec<u8>>, Result<Vec<StrictNode>, String>),
    Record(Option<BaselineRecord>),
    Deserialized(Result<Vec<StrictNode>, String>),
    /// A file was written.
    Written,
    /// The outside work failed.
    Failed(GitveilError),
}

pub enum EffectModel {
    ReadCiphertext,
    Decrypt(Seq<u8>),
    ReadPlaintext,
    LoadRecord,
    Deserialize(Seq<u8>),
    WritePlaintext(Seq<u8>),
    /// Save a record of a document and the fingerprints of its ciphertext.
    SaveRecord(document::DocumentModel, cipher::CipherModel),
    Finish(Result<OutcomeModel, (ErrorCategory, Seq<char>)>),
}

pub enum EventModel {
    Ciphertext(Option<Seq<u8>>),
    Decrypted(Result<Seq<u8>, SopsFailure>),
    Plaintext(Option<Seq<u8>>, Result<Seq<node::Tree>, Seq<char>>),
    Record(Option<record::RecordModel>),
    Deserialized(Result<Seq<node::Tree>, Seq<char>>),
    Written,
    Failed((ErrorCategory, Seq<char>)),
}

impl View for OpenEvent {
    type V = EventModel;

    open spec fn view(&self) -> EventModel {
        match *self {
            OpenEvent::Ciphertext(input) => EventModel::Ciphertext(seal::view_bytes(input)),
            OpenEvent::Decrypted(output) => EventModel::Decrypted(pair::view_output(output)),
            OpenEvent::Plaintext(input, raws) => EventModel::Plaintext(
                seal::view_bytes(input),
                yaml::view_raws(raws),
            ),
            OpenEvent::Record(Some(r)) => EventModel::Record(Some(r@)),
            OpenEvent::Record(None) => EventModel::Record(None),
            OpenEvent::Deserialized(raws) => EventModel::Deserialized(yaml::view_raws(raws)),
            OpenEvent::Written => EventModel::Written,
            OpenEvent::Failed(error) => EventModel::Failed(error@),
        }
    }
}

impl OpenEffect {
    /// An effect is the one that a model describes.
    pub open spec fn is(self, m: EffectModel) -> bool {
        match self {
            OpenEffect::ReadCiphertext => m == EffectModel::ReadCiphertext,
            OpenEffect::Decrypt(bytes) => m == EffectModel::Decrypt(bytes@),
            OpenEffect::ReadPlaintext => m == EffectModel::ReadPlaintext,
            OpenEffect::LoadRecord => m == EffectModel::LoadRecord,
            OpenEffect::Deserialize(bytes) => m == EffectModel::Deserialize(bytes@),
            OpenEffect::WritePlaintext(bytes) => m == EffectModel::WritePlaintext(bytes@),
            OpenEffect::SaveRecord(r) => m matches EffectModel::SaveRecord(d, c) && seal::records(
                r,
                d,
                c,
            ),
            OpenEffect::Finish(Ok(outcome)) => m == EffectModel::Finish(Ok(outcome@)),
            OpenEffect::Finish(Err(e)) => m == EffectModel::Finish(Err(e@)),
        }
    }
}

/// What is awaited.
enum OpenState {
    Ciphertext,
    Remote(CiphertextEnvelope),
    Plaintext(CiphertextEnvelope, SourceDocument),
    Record(CiphertextEnvelope, SourceDocument, Option<SourceDocument>),
    Reread(CiphertextEnvelope, SourceDocument, SourceDocument, Vec<u8>, Vec<OpenConflict>),
    Write(CiphertextEnvelope, SourceDocument, SourceDocument, Vec<OpenConflict>),
    Save(OpenOutcome),
    Finished,
}

pub enum StateModel {
    Ciphertext,
    Remote(ciphertext::CiphertextModel),
    Plaintext(ciphertext::CiphertextModel, document::DocumentModel),
    Record(
        ciphertext::CiphertextModel,
        document::DocumentModel,
        Option<document::DocumentModel>,
    ),
    /// The decrypted document, the one that is written, and its bytes.
    Reread(
        ciphertext::CiphertextModel,
        document::DocumentModel,
        document::DocumentModel,
        Seq<u8>,
        Seq<ConflictModel>,
    ),
    /// The decrypted document, and the one that is written.
    Write(
        ciphertext::CiphertextModel,
        document::DocumentModel,
        document::DocumentModel,
        Seq<ConflictModel>,
    ),
    Save(OutcomeModel),
    Finished,
}

spec fn view_state(s: OpenState) -> StateModel {
    match s {
        OpenState::Ciphertext => StateModel::Ciphertext,
        OpenState::Remote(e) => StateModel::Remote(e@),
        OpenState::Plaintext(e, remote) => StateModel::Plaintext(e@, remote@),
        OpenState::Record(e, remote, local) => StateModel::Record(
            e@,
            remote@,
            plan::view_document(local),
        ),
        OpenState::Reread(e, remote, d, bytes, conflicts) => StateModel::Reread(
            e@,
            remote@,
            d@,
            bytes@,
            plan::conflict_models(conflicts@),
        ),
        OpenState::Write(e, remote, d, conflicts) => StateModel::Write(
            e@,
            remote@,
            d@,
            plan::conflict_models(conflicts@),
        ),
        OpenState::Save(outcome) => StateModel::Save(outcome@),
        OpenState::Finished => StateModel::Finished,
    }
}

/// The documents of a state can be written.
spec fn named_state(s: OpenState) -> bool {
    match s {
        OpenState::Plaintext(_, remote) => node::named_tags(remote@.root),
        OpenState::Record(_, remote, local) => node::named_tags(remote@.root) && (local matches Some(
            l,
        ) ==> node::named_tags(l@.root)),
        _ => true,
    }
}

/// The pair that is opened.
pub struct PairModel {
    pub entry: EntryModel,
    /// Records of the last sync are kept.
    pub recorded: bool,
}

impl PairModel {
    pub open spec fn cipher(self) -> Seq<char> {
        self.entry.path + path::ciphertext_suffix()
    }
}

pub open spec fn finished(r: Result<OutcomeModel, (ErrorCategory, Seq<char>)>) -> (
    StateModel,
    EffectModel,
) {
    (StateModel::Finished, EffectModel::Finish(r))
}

/// A result that no outside work was asked for.
pub open spec fn unexpected() -> (ErrorCategory, Seq<char>) {
    (ErrorCategory::Integrity, "open received a result that it did not ask for"@)
}

/// What is reported and recorded of an opened pair.
pub open spec fn conclude(
    p: PairModel,
    envelope: ciphertext::CiphertextModel,
    remote: document::DocumentModel,
    conflicts: Seq<ConflictModel>,
    written: Option<document::DocumentModel>,
) -> (StateModel, EffectModel) {
    let outcome = step::outcome_of(conflicts, written);
    match step::synced(conflicts, remote) {
        Some(d) => if p.recorded {
            (
                StateModel::Save(outcome),
                EffectModel::SaveRecord(d, cipher::summary_of(envelope)),
            )
        } else {
            finished(Ok(outcome))
        },
        None => finished(Ok(outcome)),
    }
}

/// What is done with both sides and the record of their last sync.
pub open spec fn merge(
    p: PairModel,
    envelope: ciphertext::CiphertextModel,
    remote: document::DocumentModel,
    local: Option<document::DocumentModel>,
    baseline: Option<record::RecordModel>,
) -> (StateModel, EffectModel) {
    let plan = plan::planned(local, remote, baseline);
    match plan.document {
        None => conclude(p, envelope, remote, plan.conflicts, None),
        Some(d) => match step::rendered(p.entry.path, p.entry.format, d) {
            Err(fault) => finished(Err(fault)),
            Ok(bytes) => (
                StateModel::Reread(envelope, remote, d, bytes, plan.conflicts),
                EffectModel::Deserialize(bytes),
            ),
        },
    }
}

/// One step of opening: what is awaited next, and what is done for it.
pub open spec fn open_step(p: PairModel, state: StateModel, event: EventModel) -> (
    StateModel,
    EffectModel,
) {
    match (state, event) {
        (_, EventModel::Failed(fault)) => finished(Err(fault)),
        (StateModel::Ciphertext, EventModel::Ciphertext(input)) => match step::remote_envelope(
            p.cipher(),
            p.entry.format,
            input,
        ) {
            Err(fault) => finished(Err(fault)),
            Ok(envelope) => (
                StateModel::Remote(envelope),
                EffectModel::Decrypt(input->Some_0),
            ),
        },
        (StateModel::Remote(envelope), EventModel::Decrypted(output)) => match pair::source_of(
            p.entry.path,
            p.entry.format,
            output,
        ) {
            Err(fault) => finished(Err(fault)),
            Ok(remote) => (StateModel::Plaintext(envelope, remote), EffectModel::ReadPlaintext),
        },
        (StateModel::Plaintext(envelope, remote), EventModel::Plaintext(input, raws)) =>
            match step::local_of(p.entry.path, p.entry.format, input, raws) {
            Err(fault) => finished(Err(fault)),
            Ok(local) => if p.recorded {
                (StateModel::Record(envelope, remote, local), EffectModel::LoadRecord)
            } else {
                merge(p, envelope, remote, local, None)
            },
        },
        (StateModel::Record(envelope, remote, local), EventModel::Record(baseline)) => merge(
            p,
            envelope,
            remote,
            local,
            baseline,
        ),
        (
            StateModel::Reread(envelope, remote, d, bytes, conflicts),
            EventModel::Deserialized(raws),
        ) => match step::reread(p.entry.path, p.entry.format, d, bytes, raws) {
            Err(fault) => finished(Err(fault)),
            Ok(written) => (
                StateModel::Write(envelope, remote, written, conflicts),
                EffectModel::WritePlaintext(bytes),
            ),
        },
        (StateModel::Write(envelope, remote, written, conflicts), EventModel::Written) => conclude(
            p,
            envelope,
            remote,
            conflicts,
            Some(written),
        ),
        (StateModel::Save(outcome), EventModel::Written) => finished(Ok(outcome)),
        _ => finished(Err(unexpected())),
    }
}

/// The opening of one pair.
pub struct OpenRun {
    entry: ManifestEntry,
    recorded: bool,
    state: OpenState,
}

pub struct RunModel {
    pub pair: PairModel,
    pub state: StateModel,
}

impl View for OpenRun {
    type V = RunModel;

    closed spec fn view(&self) -> RunModel {
        RunModel {
            pair: PairModel { entry: self.entry@, recorded: self.recorded },
            state: view_state(self.state),
        }
    }
}

fn fail(error: GitveilError) -> (r: (OpenState, OpenEffect))
    ensures
        view_state(r.0) == StateModel::Finished,
        r.1.is(EffectModel::Finish(Err(error@))),
        named_state(r.0),
{
    (OpenState::Finished, OpenEffect::Finish(Err(error)))
}

fn as_slice(v: &Option<Vec<u8>>) -> (r: Option<&[u8]>)
    ensures
        crate::seal::step::view_input(r) == seal::view_bytes(*v),
{
    match v {
        Some(v) => Some(v.as_slice()),
        None => None,
    }
}

impl OpenRun {
    #[verifier::type_invariant]
    spec fn valid(self) -> bool {
        named_state(self.state)
    }

    /// Begins to open a pair. `recorded` tells whether records of the last sync are
    /// kept.
    pub fn start(entry: &ManifestEntry, recorded: bool) -> (r: (OpenRun, OpenEffect))
        ensures
            r.0@ == (RunModel {
                pair: PairModel { entry: entry@, recorded },
                state: StateModel::Ciphertext,
            }),
            r.1.is(EffectModel::ReadCiphertext),
    {
        (
            OpenRun { entry: entry.clone(), recorded, state: OpenState::Ciphertext },
            OpenEffect::ReadCiphertext,
        )
    }

    fn end(
        &self,
        envelope: &CiphertextEnvelope,
        remote: &SourceDocument,
        conflicts: Vec<OpenConflict>,
        written: Option<&SourceDocument>,
    ) -> (r: (OpenState, OpenEffect))
        ensures
            ({
                let next = conclude(
                    self@.pair,
                    envelope@,
                    remote@,
                    plan::conflict_models(conflicts@),
                    plan::view_local(written),
                );
                view_state(r.0) == next.0 && r.1.is(next.1)
            }),
            named_state(r.0),
    {
        let (outcome, record) = step::finish_open(conflicts, written, remote, envelope);
        match record {
            Some(record) => if self.recorded {
                (OpenState::Save(outcome), OpenEffect::SaveRecord(record))
            } else {
                (OpenState::Finished, OpenEffect::Finish(Ok(outcome)))
            },
            None => (OpenState::Finished, OpenEffect::Finish(Ok(outcome))),
        }
    }

    fn plan(
        &self,
        envelope: CiphertextEnvelope,
        remote: SourceDocument,
        local: Option<SourceDocument>,
        baseline: Option<BaselineRecord>,
    ) -> (r: (OpenState, OpenEffect))
        requires
            node::named_tags(remote@.root),
            local matches Some(l) ==> node::named_tags(l@.root),
        ensures
            ({
                let next = merge(
                    self@.pair,
                    envelope@,
                    remote@,
                    plan::view_document(local),
                    match baseline {
                        Some(b) => Some(b@),
                        None => None,
                    },
                );
                view_state(r.0) == next.0 && r.1.is(next.1)
            }),
            named_state(r.0),
    {
        let plan = plan::plan_open(local.as_ref(), &remote, baseline.as_ref());
        match plan.document {
            None => self.end(&envelope, &remote, plan.conflicts, None),
            Some(document) => match step::render(
                self.entry.path(),
                self.entry.format(),
                &document,
            ) {
                Err(error) => fail(error),
                Ok(bytes) => {
                    let copy = bytes.clone();
                    (
                        OpenState::Reread(envelope, remote, document, bytes, plan.conflicts),
                        OpenEffect::Deserialize(copy),
                    )
                },
            },
        }
    }

    fn advance(&self, state: OpenState, event: OpenEvent) -> (r: (OpenState, OpenEffect))
        requires
            named_state(state),
            event@ matches EventModel::Plaintext(_, raws) ==> strict::all_named(
                self@.pair.entry.format,
                raws,
            ),
        ensures
            view_state(r.0) == open_step(self@.pair, view_state(state), event@).0,
            r.1.is(open_step(self@.pair, view_state(state), event@).1),
            named_state(r.0),
    {
        let path = self.entry.path();
        let format = self.entry.format();
        match (state, event) {
            (_, OpenEvent::Failed(error)) => fail(error),
            (OpenState::Ciphertext, OpenEvent::Ciphertext(input)) => match step::read_remote(
                &self.entry.ciphertext_path(),
                format,
                as_slice(&input),
            ) {
                Err(error) => fail(error),
                Ok(envelope) => match input {
                    Some(bytes) => (OpenState::Remote(envelope), OpenEffect::Decrypt(bytes)),
                    None => fail(
                        GitveilError::new(ErrorCategory::Integrity, String::new()),
                    ),
                },
            },
            (OpenState::Remote(envelope), OpenEvent::Decrypted(output)) =>
                match pair::decrypt_source(path, format, output) {
                Err(error) => fail(error),
                Ok(remote) => (
                    OpenState::Plaintext(envelope, remote),
                    OpenEffect::ReadPlaintext,
                ),
            },
            (OpenState::Plaintext(envelope, remote), OpenEvent::Plaintext(input, raws)) =>
                match step::read_local(path, format, as_slice(&input), raws) {
                Err(error) => fail(error),
                Ok(local) => if self.recorded {
                    (OpenState::Record(envelope, remote, local), OpenEffect::LoadRecord)
                } else {
                    self.plan(envelope, remote, local, None)
                },
            },
            (OpenState::Record(envelope, remote, local), OpenEvent::Record(baseline)) => self.plan(
                envelope,
                remote,
                local,
                baseline,
            ),
            (
                OpenState::Reread(envelope, remote, document, bytes, conflicts),
                OpenEvent::Deserialized(raws),
            ) => match step::check_rendered(path, format, &document, bytes.as_slice(), raws) {
                Err(error) => fail(error),
                Ok(written) => (
                    OpenState::Write(envelope, remote, written, conflicts),
                    OpenEffect::WritePlaintext(bytes),
                ),
            },
            (OpenState::Write(envelope, remote, written, conflicts), OpenEvent::Written) =>
                self.end(&envelope, &remote, conflicts, Some(&written)),
            (OpenState::Save(outcome), OpenEvent::Written) => (
                OpenState::Finished,
                OpenEffect::Finish(Ok(outcome)),
            ),
            _ => fail(
                GitveilError::new(
                    ErrorCategory::Integrity,
                    "open received a result that it did not ask for".to_owned(),
                ),
            ),
        }
    }

    /// Takes what came of the last effect, and gives the next. Every tag in JSON,
    /// which has none of its own, must have a name.
    pub fn next(self, event: OpenEvent) -> (r: (OpenRun, OpenEffect))
        requires
            event@ matches EventModel::Plaintext(_, raws) ==> strict::all_named(
                self@.pair.entry.format,
                raws,
            ),
        ensures
            r.0@.pair == self@.pair,
            r.0@.state == open_step(self@.pair, self@.state, event@).0,
            r.1.is(open_step(self@.pair, self@.state, event@).1),
    {
        proof {
            use_type_invariant(&self);
        }
        let OpenRun { entry, recorded, state } = self;
        let still = OpenRun { entry, recorded, state: OpenState::Finished };
        let (state, effect) = still.advance(state, event);
        let OpenRun { entry, recorded, .. } = still;
        (OpenRun { entry, recorded, state }, effect)
    }
}

/// Where opening stands after some events.
pub open spec fn course(p: PairModel, events: Seq<EventModel>) -> (StateModel, EffectModel)
    decreases events.len(),
{
    if events.len() == 0 {
        (StateModel::Ciphertext, EffectModel::ReadCiphertext)
    } else {
        open_step(p, course(p, events.drop_last()).0, events.last())
    }
}

/// The second and third event of a course gave both documents.
pub open spec fn sides(
    p: PairModel,
    events: Seq<EventModel>,
    remote: document::DocumentModel,
    local: Option<document::DocumentModel>,
) -> bool {
    &&& events.len() > 2
    &&& gave_remote(p, events, remote)
    &&& events[2] matches EventModel::Plaintext(input, raws) && step::local_of(
        p.entry.path,
        p.entry.format,
        input,
        raws,
    ) == Ok::<Option<document::DocumentModel>, (ErrorCategory, Seq<char>)>(local)
}

pub open spec fn gave_remote(
    p: PairModel,
    events: Seq<EventModel>,
    remote: document::DocumentModel,
) -> bool {
    &&& events.len() > 1
    &&& events[1] matches EventModel::Decrypted(output) && pair::source_of(
        p.entry.path,
        p.entry.format,
        output,
    ) == Ok::<document::DocumentModel, (ErrorCategory, Seq<char>)>(remote)
}

/// A document is the merge of both sides, under the record that the fourth event gave
/// where records are kept.
pub open spec fn merged(p: PairModel, events: Seq<EventModel>, d: document::DocumentModel) -> bool {
    exists|remote: document::DocumentModel, local: Option<document::DocumentModel>|
        #[trigger] sides(p, events, remote, local) && (if p.recorded {
            events.len() > 3 && (events[3] matches EventModel::Record(baseline) && plan::planned(
                local,
                remote,
                baseline,
            ).document == Some(d))
        } else {
            plan::planned(local, remote, None).document == Some(d)
        })
}

/// The first event of a course gave the envelope.
pub open spec fn gave_envelope(
    p: PairModel,
    events: Seq<EventModel>,
    envelope: ciphertext::CiphertextModel,
) -> bool {
    &&& events.len() > 0
    &&& events[0] matches EventModel::Ciphertext(input) && step::remote_envelope(
        p.cipher(),
        p.entry.format,
        input,
    ) == Ok::<ciphertext::CiphertextModel, (ErrorCategory, Seq<char>)>(envelope)
}

/// What a state knows of the events that led to it.
pub open spec fn grounded(p: PairModel, events: Seq<EventModel>, s: StateModel) -> bool {
    match s {
        StateModel::Ciphertext => events.len() == 0,
        StateModel::Remote(e) => events.len() == 1 && gave_envelope(p, events, e),
        StateModel::Plaintext(e, remote) => events.len() == 2 && gave_envelope(p, events, e)
            && gave_remote(p, events, remote),
        StateModel::Record(e, remote, local) => events.len() == 3 && p.recorded
            && gave_envelope(p, events, e) && sides(p, events, remote, local),
        StateModel::Reread(e, remote, d, _, _) => gave_envelope(p, events, e)
            && gave_remote(p, events, remote) && merged(p, events, d),
        StateModel::Write(e, remote, d, _) => gave_envelope(p, events, e)
            && gave_remote(p, events, remote) && merged(p, events, d),
        _ => true,
    }
}

/// What is saved is the record of what the first two events gave.
pub open spec fn founded(p: PairModel, events: Seq<EventModel>, effect: EffectModel) -> bool {
    effect matches EffectModel::SaveRecord(d, c) ==> p.recorded && gave_remote(p, events, d)
        && exists|envelope: ciphertext::CiphertextModel|
        #[trigger] gave_envelope(p, events, envelope) && c == cipher::summary_of(envelope)
}

proof fn lemma_more_events(p: PairModel, events: Seq<EventModel>, event: EventModel)
    ensures
        forall|envelope: ciphertext::CiphertextModel|
            gave_envelope(p, events, envelope) ==> #[trigger] gave_envelope(
                p,
                events.push(event),
                envelope,
            ),
        forall|remote: document::DocumentModel|
            gave_remote(p, events, remote) ==> #[trigger] gave_remote(
                p,
                events.push(event),
                remote,
            ),
        forall|remote: document::DocumentModel, local: Option<document::DocumentModel>|
            sides(p, events, remote, local) ==> #[trigger] sides(
                p,
                events.push(event),
                remote,
                local,
            ),
        forall|d: document::DocumentModel|
            merged(p, events, d) ==> #[trigger] merged(p, events.push(event), d),
{
    let more = events.push(event);
    assert(forall|i: int| 0 <= i < events.len() ==> #[trigger] more[i] == events[i]);
    assert forall|d: document::DocumentModel| merged(p, events, d) implies #[trigger] merged(
        p,
        more,
        d,
    ) by {
        let (remote, local) = choose|
            remote: document::DocumentModel,
            local: Option<document::DocumentModel>,
        |
            #[trigger] sides(p, events, remote, local) && (if p.recorded {
                events.len() > 3 && (events[3] matches EventModel::Record(baseline)
                    && plan::planned(local, remote, baseline).document == Some(d))
            } else {
                plan::planned(local, remote, None).document == Some(d)
            });
        assert(sides(p, more, remote, local));
    }
}

/// The step that merges both sides.
proof fn lemma_merge_is_grounded(
    p: PairModel,
    events: Seq<EventModel>,
    envelope: ciphertext::CiphertextModel,
    remote: document::DocumentModel,
    local: Option<document::DocumentModel>,
    baseline: Option<record::RecordModel>,
)
    requires
        gave_envelope(p, events, envelope),
        sides(p, events, remote, local),
        if p.recorded {
            events.len() > 3 && events[3] == EventModel::Record(baseline)
        } else {
            baseline is None
        },
    ensures
        grounded(p, events, merge(p, envelope, remote, local, baseline).0),
        founded(p, events, merge(p, envelope, remote, local, baseline).1),
{
    let planned = plan::planned(local, remote, baseline);
    if planned.document is Some {
        assert(merged(p, events, planned.document->Some_0));
    }
}

#[verifier::rlimit(40)]
#[verifier::spinoff_prover]
proof fn lemma_step_is_grounded(
    p: PairModel,
    events: Seq<EventModel>,
    s: StateModel,
    event: EventModel,
)
    requires
        grounded(p, events, s),
    ensures
        grounded(p, events.push(event), open_step(p, s, event).0),
        founded(p, events.push(event), open_step(p, s, event).1),
{
    let more = events.push(event);
    lemma_more_events(p, events, event);
    match (s, event) {
        (StateModel::Ciphertext, EventModel::Ciphertext(_)) => {
            assert(more[0] == event);
        },
        (StateModel::Remote(_), EventModel::Decrypted(_)) => {
            assert(more[1] == event);
        },
        (StateModel::Plaintext(envelope, remote), EventModel::Plaintext(input, raws)) => {
            match step::local_of(p.entry.path, p.entry.format, input, raws) {
                Ok(local) => {
                    assert(more[2] == event);
                    assert(sides(p, more, remote, local));
                    if !p.recorded {
                        lemma_merge_is_grounded(p, more, envelope, remote, local, None);
                    }
                },
                Err(_) => {},
            }
        },
        (StateModel::Record(envelope, remote, local), EventModel::Record(baseline)) => {
            assert(more[3] == event);
            lemma_merge_is_grounded(p, more, envelope, remote, local, baseline);
        },
        (StateModel::Write(envelope, _, _, _), EventModel::Written) => {
            assert(gave_envelope(p, more, envelope));
        },
        _ => {},
    }
}

proof fn lemma_course_is_grounded(p: PairModel, events: Seq<EventModel>)
    ensures
        grounded(p, events, course(p, events).0),
        founded(p, events, course(p, events).1),
    decreases events.len(),
{
    if events.len() > 0 {
        let before = events.drop_last();
        lemma_course_is_grounded(p, before);
        lemma_step_is_grounded(p, before, course(p, before).0, events.last());
        assert(before.push(events.last()) =~= events);
    }
}

/// Law: whatever happens outside, plaintext is written only where it is the merge of
/// the decrypted ciphertext, of the plaintext that was read and of the record that was
/// loaded, and where its bytes were read back as that document.
pub proof fn law_written_plaintext_was_read_back(p: PairModel, events: Seq<EventModel>)
    requires
        course(p, events).1 is WritePlaintext,
    ensures
        course(p, events).0 is Write,
        events.last() is Deserialized,
        ({
            let bytes = course(p, events).1->WritePlaintext_0;
            let planned = course(p, events).0->Write_2;
            &&& merged(p, events, planned)
            &&& crate::source::format::parsed(
                p.entry.format,
                bytes,
                events.last()->Deserialized_0,
            ) == Ok::<document::DocumentModel, document::SourceFault>(planned)
        }),
{
    assert(events.len() > 0);
    lemma_course_is_grounded(p, events);
}

/// Law: whatever happens outside, and whatever the plaintext holds, what is recorded as
/// synchronized is the document that was decrypted and the ciphertext that it came from.
/// An edit of the plaintext alone is never recorded.
pub proof fn law_the_decrypted_document_is_recorded(p: PairModel, events: Seq<EventModel>)
    requires
        course(p, events).1 is SaveRecord,
    ensures
        p.recorded,
        gave_remote(p, events, course(p, events).1->SaveRecord_0),
        exists|envelope: ciphertext::CiphertextModel|
            #[trigger] gave_envelope(p, events, envelope) && course(p, events).1->SaveRecord_1
                == cipher::summary_of(envelope),
{
    lemma_course_is_grounded(p, events);
}

/// Law: a pair with a conflict is never recorded as synchronized.
pub proof fn law_conflicts_are_not_recorded(
    p: PairModel,
    envelope: ciphertext::CiphertextModel,
    remote: document::DocumentModel,
    conflicts: Seq<ConflictModel>,
    written: Option<document::DocumentModel>,
)
    requires
        conflicts.len() > 0,
    ensures
        conclude(p, envelope, remote, conflicts, written) == finished(
            Ok(OutcomeModel::Conflicts(conflicts)),
        ),
{
}

/// The course of the first three events, where they gave both documents.
#[verifier::rlimit(40)]
#[verifier::spinoff_prover]
proof fn lemma_three_events(
    p: PairModel,
    events: Seq<EventModel>,
    envelope: ciphertext::CiphertextModel,
    remote: document::DocumentModel,
    local: Option<document::DocumentModel>,
)
    requires
        p.recorded,
        gave_envelope(p, events, envelope),
        sides(p, events, remote, local),
    ensures
        course(p, events.take(0)).1 == EffectModel::ReadCiphertext,
        course(p, events.take(1)).1 is Decrypt,
        course(p, events.take(2)).1 == EffectModel::ReadPlaintext,
        course(p, events.take(3)) == (
            StateModel::Record(envelope, remote, local),
            EffectModel::LoadRecord,
        ),
{
    let none = events.take(0);
    let one = events.take(1);
    let two = events.take(2);
    let three = events.take(3);
    assert(one.drop_last() =~= none);
    assert(two.drop_last() =~= one);
    assert(three.drop_last() =~= two);
    assert(one.last() == events[0] && two.last() == events[1] && three.last() == events[2]);
    assert(course(p, none) == (StateModel::Ciphertext, EffectModel::ReadCiphertext));
    assert(course(p, one).0 == StateModel::Remote(envelope));
    assert(course(p, two).0 == StateModel::Plaintext(envelope, remote));
}

/// Where nothing is planned, the record is saved and the pair is up to date.
proof fn lemma_nothing_planned(
    p: PairModel,
    envelope: ciphertext::CiphertextModel,
    remote: document::DocumentModel,
    local: Option<document::DocumentModel>,
    baseline: Option<record::RecordModel>,
)
    requires
        p.recorded,
        plan::planned(local, remote, baseline) == (plan::PlanModel {
            document: None,
            conflicts: Seq::empty(),
        }),
    ensures
        merge(p, envelope, remote, local, baseline) == (
            StateModel::Save(OutcomeModel::UpToDate),
            EffectModel::SaveRecord(remote, cipher::summary_of(envelope)),
        ),
{
}

/// Law: opening again writes nothing over a local edit. Where the record that is loaded
/// is that of the document that is decrypted again, as opening saved it, the run ends up
/// to date whatever was edited in the plaintext: it saves the record of the same document
/// again and writes nothing. So it does however often it is repeated. Both documents have
/// the lines that a reader makes, and the record must tell changed units apart.
#[verifier::rlimit(40)]
#[verifier::spinoff_prover]
pub proof fn law_opening_again_keeps_local_edits(
    p: PairModel,
    events: Seq<EventModel>,
    envelope: ciphertext::CiphertextModel,
    remote: document::DocumentModel,
    local: document::DocumentModel,
    c: cipher::CipherModel,
    salt: Seq<u8>,
)
    requires
        p.recorded,
        events.len() == 4,
        gave_envelope(p, events, envelope),
        sides(p, events, remote, Some(local)),
        events[3] == EventModel::Record(Some(record::captured(remote, c, salt))),
        node::well_keyed(local.root),
        plan::lined(local),
        plan::lined(remote),
        local.format == remote.format,
        record::told_apart(record::captured(remote, c, salt), remote, local),
    ensures
        course(p, events) == (
            StateModel::Save(OutcomeModel::UpToDate),
            EffectModel::SaveRecord(remote, cipher::summary_of(envelope)),
        ),
        course(p, events.push(EventModel::Written)) == finished(Ok(OutcomeModel::UpToDate)),
        forall|n: int|
            0 <= n <= 4 ==> !((#[trigger] course(p, events.take(n))).1 is WritePlaintext),
{
    lemma_three_events(p, events, envelope, remote, Some(local));
    let three = events.take(3);
    assert(events.drop_last() =~= three);
    assert(events.take(4) =~= events);
    plan::law_local_edits_survive_opening(local, remote, c, salt);
    lemma_nothing_planned(p, envelope, remote, Some(local), Some(record::captured(remote, c, salt)));
    assert(course(p, events) == open_step(p, course(p, three).0, events[3]));
    let more = events.push(EventModel::Written);
    assert(more.drop_last() =~= events);
    assert(more.last() == EventModel::Written);
    assert forall|n: int| 0 <= n <= 4 implies !((#[trigger] course(
        p,
        events.take(n),
    )).1 is WritePlaintext) by {
        assert(n == 0 || n == 1 || n == 2 || n == 3 || n == 4);
    }
}

/// Law: opening twice keeps a local edit. Whatever the first run found, where it saved a
/// record, and where a second run finds the same ciphertext, the same decrypted bytes and
/// that record, then the second run writes nothing, ends up to date, and saves the record
/// of the same document and ciphertext again; so a third run finds the same.
pub proof fn law_two_openings_keep_a_local_edit(
    p: PairModel,
    first: Seq<EventModel>,
    second: Seq<EventModel>,
    local: document::DocumentModel,
    salt: Seq<u8>,
)
    requires
        course(p, first).1 is SaveRecord,
        second.len() == 4,
        second[0] == first[0],
        second[1] == first[1],
        second[2] matches EventModel::Plaintext(input, raws) && step::local_of(
            p.entry.path,
            p.entry.format,
            input,
            raws,
        ) == Ok::<Option<document::DocumentModel>, (ErrorCategory, Seq<char>)>(Some(local)),
        ({
            let remote = course(p, first).1->SaveRecord_0;
            let c = course(p, first).1->SaveRecord_1;
            let saved = record::captured(remote, c, salt);
            &&& second[3] == EventModel::Record(Some(saved))
            &&& record::told_apart(saved, remote, local)
            &&& plan::lined(remote)
            &&& local.format == remote.format
        }),
        node::well_keyed(local.root),
        plan::lined(local),
    ensures
        course(p, second) == (
            StateModel::Save(OutcomeModel::UpToDate),
            EffectModel::SaveRecord(
                course(p, first).1->SaveRecord_0,
                course(p, first).1->SaveRecord_1,
            ),
        ),
        course(p, second.push(EventModel::Written)) == finished(Ok(OutcomeModel::UpToDate)),
        forall|n: int|
            0 <= n <= 4 ==> !((#[trigger] course(p, second.take(n))).1 is WritePlaintext),
{
    let remote = course(p, first).1->SaveRecord_0;
    let c = course(p, first).1->SaveRecord_1;
    law_the_decrypted_document_is_recorded(p, first);
    let envelope = choose|envelope: ciphertext::CiphertextModel|
        #[trigger] gave_envelope(p, first, envelope) && c == cipher::summary_of(envelope);
    assert(gave_envelope(p, second, envelope));
    assert(gave_remote(p, second, remote));
    assert(sides(p, second, remote, Some(local)));
    law_opening_again_keeps_local_edits(p, second, envelope, remote, local, c, salt);
}

} // verus!
