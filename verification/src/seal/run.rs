//! The course of sealing one managed pair: which outside work is done, in which order,
//! and what each of its results leads to.

use vstd::prelude::*;

use crate::baseline::cipher;
use crate::baseline::record;
use crate::baseline::BaselineRecord;
use crate::error::{ErrorCategory, GitveilError, SecretBytes};
use crate::manifest;
use crate::manifest::{EntryModel, Manifest, ManifestEntry, ResolvedManifestEntry};
use crate::pair;
use crate::path;
use crate::path::ManagedPath;
use crate::recipient::{AgeRecipientPolicy, PolicyModel};
use crate::seal::plan;
use crate::seal::plan::SealAction;
use crate::seal::step;
use crate::seal::step::SealOutcome;
use crate::sops::SopsFailure;
use crate::source::document;
use crate::source::node;
use crate::source::strict;
use crate::source::strict::StrictNode;
use crate::source::yaml;
use crate::source::SourceDocument;

verus! {

/// What is to be done outside.
pub enum SealEffect {
    ReadPlaintext,
    ReadCiphertext(ManagedPath),
    Decrypt(Vec<u8>),
    /// Encrypt an envelope for the recipients of the policy, under a fresh data key.
    EncryptNew(SecretBytes),
    /// Edit a ciphertext so that it holds an envelope.
    Edit(Vec<u8>, SecretBytes),
    WriteCiphertext(Vec<u8>),
    SaveRecord(BaselineRecord),
    Finish(Result<SealOutcome, GitveilError>),
}

/// What came of it.
pub enum SealEvent {
    /// The plaintext, if there is one, and what a deserializer made of it.
    Plaintext(Option<Vec<u8>>, Result<Vec<StrictNode>, String>),
    Ciphertext(Option<Vec<u8>>),
    Decrypted(Result<SecretBytes, SopsFailure>),
    Encrypted(Vec<u8>),
    /// A file was written.
    Written,
    /// The outside work failed.
    Failed(GitveilError),
}

pub enum EffectModel {
    ReadPlaintext,
    ReadCiphertext(Seq<char>),
    Decrypt(Seq<u8>),
    EncryptNew(Seq<u8>),
    Edit(Seq<u8>, Seq<u8>),
    WriteCiphertext(Seq<u8>),
    /// Save a record of a document and the fingerprints of its ciphertext.
    SaveRecord(document::DocumentModel, cipher::CipherModel),
    Finish(Result<SealOutcome, (ErrorCategory, Seq<char>)>),
}

pub enum EventModel {
    Plaintext(Option<Seq<u8>>, Result<Seq<node::Tree>, Seq<char>>),
    Ciphertext(Option<Seq<u8>>),
    Decrypted(Result<Seq<u8>, SopsFailure>),
    Encrypted(Seq<u8>),
    Written,
    Failed((ErrorCategory, Seq<char>)),
}

pub open spec fn view_bytes(v: Option<Vec<u8>>) -> Option<Seq<u8>> {
    match v {
        Some(v) => Some(v@),
        None => None,
    }
}

impl View for SealEvent {
    type V = EventModel;

    open spec fn view(&self) -> EventModel {
        match *self {
            SealEvent::Plaintext(input, raws) => EventModel::Plaintext(
                view_bytes(input),
                yaml::view_raws(raws),
            ),
            SealEvent::Ciphertext(input) => EventModel::Ciphertext(view_bytes(input)),
            SealEvent::Decrypted(output) => EventModel::Decrypted(pair::view_output(output)),
            SealEvent::Encrypted(output) => EventModel::Encrypted(output@),
            SealEvent::Written => EventModel::Written,
            SealEvent::Failed(error) => EventModel::Failed(error@),
        }
    }
}

/// A record of a document and its ciphertext, with some salt.
pub open spec fn records(
    r: BaselineRecord,
    d: document::DocumentModel,
    c: cipher::CipherModel,
) -> bool {
    &&& r@.plain_diff(d).empty()
    &&& r@.cipher_diff(c).empty()
    &&& exists|salt: [u8; 32]| r@ == #[trigger] record::captured(d, c, salt@)
}

impl SealEffect {
    /// An effect is the one that a model describes.
    pub open spec fn is(self, m: EffectModel) -> bool {
        match self {
            SealEffect::ReadPlaintext => m == EffectModel::ReadPlaintext,
            SealEffect::ReadCiphertext(p) => m == EffectModel::ReadCiphertext(p@),
            SealEffect::Decrypt(bytes) => m == EffectModel::Decrypt(bytes@),
            SealEffect::EncryptNew(payload) => m == EffectModel::EncryptNew(payload@),
            SealEffect::Edit(bytes, payload) => m == EffectModel::Edit(bytes@, payload@),
            SealEffect::WriteCiphertext(bytes) => m == EffectModel::WriteCiphertext(bytes@),
            SealEffect::SaveRecord(r) => m matches EffectModel::SaveRecord(d, c) && records(
                r,
                d,
                c,
            ),
            SealEffect::Finish(Ok(outcome)) => m == EffectModel::Finish(Ok(outcome)),
            SealEffect::Finish(Err(e)) => m == EffectModel::Finish(Err(e@)),
        }
    }
}

/// What is awaited.
enum SealState {
    Plaintext,
    Ciphertext(SourceDocument),
    /// Another ciphertext of the policy, before a first seal.
    Anchor(SourceDocument, usize),
    /// The document of the existing ciphertext.
    Baseline(SourceDocument, Vec<u8>),
    Encryption(SourceDocument),
    /// The document of the new ciphertext.
    Check(SourceDocument, Vec<u8>),
    Write(SourceDocument, Vec<u8>),
    Save(SealOutcome),
    Finished,
}

pub enum StateModel {
    Plaintext,
    Ciphertext(document::DocumentModel),
    Anchor(document::DocumentModel, int),
    Baseline(document::DocumentModel, Seq<u8>),
    Encryption(document::DocumentModel),
    Check(document::DocumentModel, Seq<u8>),
    Write(document::DocumentModel, Seq<u8>),
    Save(SealOutcome),
    Finished,
}

spec fn view_state(s: SealState) -> StateModel {
    match s {
        SealState::Plaintext => StateModel::Plaintext,
        SealState::Ciphertext(d) => StateModel::Ciphertext(d@),
        SealState::Anchor(d, i) => StateModel::Anchor(d@, i as int),
        SealState::Baseline(d, bytes) => StateModel::Baseline(d@, bytes@),
        SealState::Encryption(d) => StateModel::Encryption(d@),
        SealState::Check(d, bytes) => StateModel::Check(d@, bytes@),
        SealState::Write(d, bytes) => StateModel::Write(d@, bytes@),
        SealState::Save(outcome) => StateModel::Save(outcome),
        SealState::Finished => StateModel::Finished,
    }
}

/// The pair that is sealed, and what is known of its surroundings.
pub struct PairModel {
    pub entry: EntryModel,
    pub policy: PolicyModel,
    /// The other pairs under the policy.
    pub anchors: Seq<EntryModel>,
    /// Records of the last sync are kept.
    pub recorded: bool,
}

impl PairModel {
    pub open spec fn cipher(self) -> Seq<char> {
        self.entry.path + path::ciphertext_suffix()
    }
}

pub open spec fn finished(r: Result<SealOutcome, (ErrorCategory, Seq<char>)>) -> (
    StateModel,
    EffectModel,
) {
    (StateModel::Finished, EffectModel::Finish(r))
}

/// A result that no outside work was asked for.
pub open spec fn unexpected() -> (ErrorCategory, Seq<char>) {
    (ErrorCategory::Integrity, "seal plan disagrees with baseline presence"@)
}

/// Sealing for the first time.
pub open spec fn encrypt_new(p: PairModel, d: document::DocumentModel) -> (StateModel, EffectModel) {
    match pair::payload_of(p.entry.path, d) {
        Err(fault) => finished(Err(fault)),
        Ok(payload) => (StateModel::Encryption(d), EffectModel::EncryptNew(payload)),
    }
}

/// The anchors from `i` on are checked before a first seal.
pub open spec fn check_anchors(p: PairModel, d: document::DocumentModel, i: int) -> (
    StateModel,
    EffectModel,
) {
    if 0 <= i < p.anchors.len() {
        (
            StateModel::Anchor(d, i),
            EffectModel::ReadCiphertext(p.anchors[i].path + path::ciphertext_suffix()),
        )
    } else {
        encrypt_new(p, d)
    }
}

/// A pair that is in sync is recorded, where records are kept.
pub open spec fn save(
    p: PairModel,
    d: document::DocumentModel,
    bytes: Seq<u8>,
    outcome: SealOutcome,
) -> (StateModel, EffectModel) {
    if p.recorded {
        match pair::envelope_of(p.entry.path, p.entry.format, bytes) {
            Err(fault) => finished(Err(fault)),
            Ok(envelope) => (
                StateModel::Save(outcome),
                EffectModel::SaveRecord(d, cipher::summary_of(envelope)),
            ),
        }
    } else {
        finished(Ok(outcome))
    }
}

/// One step of sealing: what is awaited next, and what is done for it.
pub open spec fn seal_step(p: PairModel, state: StateModel, event: EventModel) -> (
    StateModel,
    EffectModel,
) {
    match (state, event) {
        (_, EventModel::Failed(fault)) => finished(Err(fault)),
        (StateModel::Plaintext, EventModel::Plaintext(input, raws)) => match step::desired_of(
            p.entry.path,
            p.entry.format,
            input,
            raws,
        ) {
            Err(fault) => finished(Err(fault)),
            Ok(d) => (StateModel::Ciphertext(d), EffectModel::ReadCiphertext(p.cipher())),
        },
        (StateModel::Ciphertext(d), EventModel::Ciphertext(input)) => match step::existing_of(
            p.cipher(),
            p.entry.format,
            p.policy,
            input,
        ) {
            Err(fault) => finished(Err(fault)),
            Ok(None) => check_anchors(p, d, 0),
            Ok(Some(_)) => (
                StateModel::Baseline(d, input->Some_0),
                EffectModel::Decrypt(input->Some_0),
            ),
        },
        (StateModel::Anchor(d, i), EventModel::Ciphertext(input)) => match step::anchor_fault(
            p.anchors[i].path + path::ciphertext_suffix(),
            p.anchors[i].format,
            p.policy,
            input,
        ) {
            Some(fault) => finished(Err(fault)),
            None => check_anchors(p, d, i + 1),
        },
        (StateModel::Baseline(d, bytes), EventModel::Decrypted(output)) => match pair::source_of(
            p.entry.path,
            p.entry.format,
            output,
        ) {
            Err(fault) => finished(Err(fault)),
            Ok(baseline) => if plan::planned(d, Some(baseline)) == SealAction::PreserveBaseline {
                save(p, d, bytes, SealOutcome::Unchanged)
            } else {
                match pair::payload_of(p.entry.path, d) {
                    Err(fault) => finished(Err(fault)),
                    Ok(payload) => (
                        StateModel::Encryption(d),
                        EffectModel::Edit(bytes, payload),
                    ),
                }
            },
        },
        (StateModel::Encryption(d), EventModel::Encrypted(output)) => match step::result_envelope(
            p.entry.path,
            p.entry.format,
            p.policy,
            output,
        ) {
            Err(fault) => finished(Err(fault)),
            Ok(_) => (StateModel::Check(d, output), EffectModel::Decrypt(output)),
        },
        (StateModel::Check(d, bytes), EventModel::Decrypted(output)) => match pair::source_of(
            p.entry.path,
            p.entry.format,
            output,
        ) {
            Err(fault) => finished(Err(fault)),
            Ok(actual) => if actual == d {
                (StateModel::Write(d, bytes), EffectModel::WriteCiphertext(bytes))
            } else {
                finished(
                    Err(
                        (
                            ErrorCategory::Integrity,
                            "SOPS result does not match desired source at "@ + p.entry.path,
                        ),
                    ),
                )
            },
        },
        (StateModel::Write(d, bytes), EventModel::Written) => save(
            p,
            d,
            bytes,
            SealOutcome::Sealed,
        ),
        (StateModel::Save(outcome), EventModel::Written) => finished(Ok(outcome)),
        _ => finished(Err(unexpected())),
    }
}

/// The sealing of one pair.
pub struct SealRun {
    entry: ManifestEntry,
    policy: AgeRecipientPolicy,
    anchors: Vec<ManifestEntry>,
    recorded: bool,
    state: SealState,
}

pub struct RunModel {
    pub pair: PairModel,
    pub state: StateModel,
}

impl View for SealRun {
    type V = RunModel;

    closed spec fn view(&self) -> RunModel {
        RunModel {
            pair: PairModel {
                entry: self.entry@,
                policy: self.policy@,
                anchors: manifest::entry_models(self.anchors@),
                recorded: self.recorded,
            },
            state: view_state(self.state),
        }
    }
}

/// The document of a state can be written.
spec fn named_state(s: SealState) -> bool {
    match s {
        SealState::Ciphertext(d) => node::named_tags(d@.root),
        SealState::Anchor(d, _) => node::named_tags(d@.root),
        SealState::Baseline(d, _) => node::named_tags(d@.root),
        _ => true,
    }
}

/// The pairs that share the policy of an entry.
pub open spec fn anchors_of(entries: Seq<EntryModel>, entry: EntryModel) -> Seq<EntryModel> {
    entries.filter(|other: EntryModel| step::shares_policy_of(entry, other))
}

fn find_anchors(document: &Manifest, entry: &ManifestEntry) -> (r: Vec<ManifestEntry>)
    ensures
        manifest::entry_models(r@) == anchors_of(document@.entries, entry@),
{
    let all = document.entries();
    let ghost models = document@.entries;
    let ghost keep = |other: EntryModel| step::shares_policy_of(entry@, other);
    let mut out: Vec<ManifestEntry> = Vec::new();
    let mut i: usize = 0;
    proof {
        reveal(Seq::filter);
        assert(models.take(0) =~= Seq::<EntryModel>::empty());
        assert(manifest::entry_models(out@) =~= Seq::<EntryModel>::empty());
        assert(models.take(0).filter(keep) =~= Seq::<EntryModel>::empty());
    }
    while i < all.len()
        invariant
            i <= all.len(),
            models == manifest::entry_models(all@),
            keep == (|other: EntryModel| step::shares_policy_of(entry@, other)),
            manifest::entry_models(out@) == models.take(i as int).filter(keep),
        decreases all.len() - i,
    {
        let ghost held = out@;
        proof {
            reveal(Seq::filter);
            assert(models.take(i + 1).drop_last() =~= models.take(i as int));
            assert(models.take(i + 1).last() == all@[i as int]@);
        }
        if step::shares_policy(entry, &all[i]) {
            out.push(all[i].clone());
            assert(manifest::entry_models(out@) =~= manifest::entry_models(held).push(
                all@[i as int]@,
            ));
            assert(keep(all@[i as int]@));
        } else {
            assert(!keep(all@[i as int]@));
        }
        i = i + 1;
    }
    assert(models.take(i as int) =~= models);
    out
}

fn fail(error: GitveilError) -> (r: (SealState, SealEffect))
    ensures
        view_state(r.0) == StateModel::Finished,
        r.1.is(EffectModel::Finish(Err(error@))),
        named_state(r.0),
{
    (SealState::Finished, SealEffect::Finish(Err(error)))
}

impl SealRun {
    #[verifier::type_invariant]
    spec fn valid(self) -> bool {
        &&& named_state(self.state)
        &&& self.state matches SealState::Anchor(_, i) ==> i < self.anchors@.len()
    }

    /// Begins to seal a pair of a manifest. `recorded` tells whether records of the
    /// last sync are kept.
    pub fn start(document: &Manifest, pair: &ResolvedManifestEntry, recorded: bool) -> (r: (
        SealRun,
        SealEffect,
    ))
        ensures
            r.0@ == (RunModel {
                pair: PairModel {
                    entry: pair@.0,
                    policy: pair@.1,
                    anchors: anchors_of(document@.entries, pair@.0),
                    recorded,
                },
                state: StateModel::Plaintext,
            }),
            r.1.is(EffectModel::ReadPlaintext),
    {
        let entry = pair.entry().clone();
        let anchors = find_anchors(document, &entry);
        (
            SealRun {
                entry,
                policy: pair.recipient_policy().clone(),
                anchors,
                recorded,
                state: SealState::Plaintext,
            },
            SealEffect::ReadPlaintext,
        )
    }

    fn encrypt_first(&self, desired: SourceDocument) -> (r: (SealState, SealEffect))
        requires
            node::named_tags(desired@.root),
        ensures
            view_state(r.0) == encrypt_new(self@.pair, desired@).0,
            r.1.is(encrypt_new(self@.pair, desired@).1),
            named_state(r.0),
            !(r.0 is Anchor),
    {
        match pair::desired_envelope(&desired, self.entry.path()) {
            Err(error) => fail(error),
            Ok(payload) => (SealState::Encryption(desired), SealEffect::EncryptNew(payload)),
        }
    }

    fn next_anchor(&self, desired: SourceDocument, i: usize) -> (r: (SealState, SealEffect))
        requires
            node::named_tags(desired@.root),
        ensures
            view_state(r.0) == check_anchors(self@.pair, desired@, i as int).0,
            r.1.is(check_anchors(self@.pair, desired@, i as int).1),
            named_state(r.0),
            r.0 matches SealState::Anchor(_, k) ==> k < self.anchors@.len(),
    {
        if i < self.anchors.len() {
            assert(self@.pair.anchors[i as int] == self.anchors@[i as int]@);
            let target = self.anchors[i].ciphertext_path();
            (SealState::Anchor(desired, i), SealEffect::ReadCiphertext(target))
        } else {
            self.encrypt_first(desired)
        }
    }

    fn record(&self, desired: &SourceDocument, bytes: &[u8], outcome: SealOutcome) -> (r: (
        SealState,
        SealEffect,
    ))
        ensures
            view_state(r.0) == save(self@.pair, desired@, bytes@, outcome).0,
            r.1.is(save(self@.pair, desired@, bytes@, outcome).1),
            named_state(r.0),
            !(r.0 is Anchor),
    {
        if !self.recorded {
            return (SealState::Finished, SealEffect::Finish(Ok(outcome)));
        }
        match step::sealed_record(self.entry.path(), self.entry.format(), desired, bytes) {
            Err(error) => fail(error),
            Ok(record) => (SealState::Save(outcome), SealEffect::SaveRecord(record)),
        }
    }

    fn plan(&self, desired: SourceDocument, bytes: Vec<u8>, baseline: &SourceDocument) -> (r: (
        SealState,
        SealEffect,
    ))
        requires
            node::named_tags(desired@.root),
        ensures
            ({
                let next = if plan::planned(desired@, Some(baseline@))
                    == SealAction::PreserveBaseline {
                    save(self@.pair, desired@, bytes@, SealOutcome::Unchanged)
                } else {
                    match pair::payload_of(self@.pair.entry.path, desired@) {
                        Err(fault) => finished(Err(fault)),
                        Ok(payload) => (
                            StateModel::Encryption(desired@),
                            EffectModel::Edit(bytes@, payload),
                        ),
                    }
                };
                view_state(r.0) == next.0 && r.1.is(next.1)
            }),
            named_state(r.0),
            !(r.0 is Anchor),
    {
        if plan::plan_seal(&desired, Some(baseline)) == SealAction::PreserveBaseline {
            return self.record(&desired, bytes.as_slice(), SealOutcome::Unchanged);
        }
        match pair::desired_envelope(&desired, self.entry.path()) {
            Err(error) => fail(error),
            Ok(payload) => (SealState::Encryption(desired), SealEffect::Edit(bytes, payload)),
        }
    }

    fn advance(&self, state: SealState, event: SealEvent) -> (r: (SealState, SealEffect))
        requires
            named_state(state),
            state matches SealState::Anchor(_, i) ==> i < self.anchors@.len(),
            event@ matches EventModel::Plaintext(_, raws) ==> strict::all_named(
                self@.pair.entry.format,
                raws,
            ),
        ensures
            view_state(r.0) == seal_step(self@.pair, view_state(state), event@).0,
            r.1.is(seal_step(self@.pair, view_state(state), event@).1),
            named_state(r.0),
            r.0 matches SealState::Anchor(_, k) ==> k < self.anchors@.len(),
    {
        let path = self.entry.path();
        let format = self.entry.format();
        match (state, event) {
            (_, SealEvent::Failed(error)) => fail(error),
            (SealState::Plaintext, SealEvent::Plaintext(input, raws)) => match step::read_desired(
                path,
                format,
                as_slice(&input),
                raws,
            ) {
                Err(error) => fail(error),
                Ok(desired) => (
                    SealState::Ciphertext(desired),
                    SealEffect::ReadCiphertext(self.entry.ciphertext_path()),
                ),
            },
            (SealState::Ciphertext(desired), SealEvent::Ciphertext(input)) =>
                match step::read_existing(
                &self.entry.ciphertext_path(),
                format,
                &self.policy,
                as_slice(&input),
            ) {
                Err(error) => fail(error),
                Ok(None) => self.next_anchor(desired, 0),
                Ok(Some(_)) => match input {
                    Some(bytes) => {
                        let copy = bytes.clone();
                        (SealState::Baseline(desired, bytes), SealEffect::Decrypt(copy))
                    },
                    None => self.next_anchor(desired, 0),
                },
            },
            (SealState::Anchor(desired, i), SealEvent::Ciphertext(input)) => {
                assert(self@.pair.anchors[i as int] == self.anchors@[i as int]@);
                let count: usize = self.anchors.len();
                assert(i < count);
                match step::check_anchor(&self.anchors[i], &self.policy, as_slice(&input)) {
                    Err(error) => fail(error),
                    Ok(_) => self.next_anchor(desired, i + 1),
                }
            },
            (SealState::Baseline(desired, bytes), SealEvent::Decrypted(output)) =>
                match pair::decrypt_source(path, format, output) {
                Err(error) => fail(error),
                Ok(baseline) => self.plan(desired, bytes, &baseline),
            },
            (SealState::Encryption(desired), SealEvent::Encrypted(output)) =>
                match step::accept_envelope(path, format, &self.policy, output.as_slice()) {
                Err(error) => fail(error),
                Ok(_) => {
                    let copy = output.clone();
                    (SealState::Check(desired, output), SealEffect::Decrypt(copy))
                },
            },
            (SealState::Check(desired, bytes), SealEvent::Decrypted(output)) =>
                match pair::decrypt_source(path, format, output) {
                Err(error) => fail(error),
                Ok(actual) => match step::accept_result(path, &desired, &actual) {
                    Err(error) => fail(error),
                    Ok(_) => {
                        let copy = bytes.clone();
                        (SealState::Write(desired, bytes), SealEffect::WriteCiphertext(copy))
                    },
                },
            },
            (SealState::Write(desired, bytes), SealEvent::Written) => self.record(
                &desired,
                bytes.as_slice(),
                SealOutcome::Sealed,
            ),
            (SealState::Save(outcome), SealEvent::Written) => (
                SealState::Finished,
                SealEffect::Finish(Ok(outcome)),
            ),
            _ => fail(
                GitveilError::new(
                    ErrorCategory::Integrity,
                    "seal plan disagrees with baseline presence".to_owned(),
                ),
            ),
        }
    }

    /// Takes what came of the last effect, and gives the next. Every tag in JSON,
    /// which has none of its own, must have a name.
    pub fn next(self, event: SealEvent) -> (r: (SealRun, SealEffect))
        requires
            event@ matches EventModel::Plaintext(_, raws) ==> strict::all_named(
                self@.pair.entry.format,
                raws,
            ),
        ensures
            r.0@.pair == self@.pair,
            r.0@.state == seal_step(self@.pair, self@.state, event@).0,
            r.1.is(seal_step(self@.pair, self@.state, event@).1),
    {
        proof {
            use_type_invariant(&self);
        }
        let SealRun { entry, policy, anchors, recorded, state } = self;
        let still = SealRun { entry, policy, anchors, recorded, state: SealState::Finished };
        let (state, effect) = still.advance(state, event);
        let SealRun { entry, policy, anchors, recorded, .. } = still;
        (SealRun { entry, policy, anchors, recorded, state }, effect)
    }
}

fn as_slice(v: &Option<Vec<u8>>) -> (r: Option<&[u8]>)
    ensures
        step::view_input(r) == view_bytes(*v),
{
    match v {
        Some(v) => Some(v.as_slice()),
        None => None,
    }
}

/// Where sealing stands after some events.
pub open spec fn course(p: PairModel, events: Seq<EventModel>) -> (StateModel, EffectModel)
    decreases events.len(),
{
    if events.len() == 0 {
        (StateModel::Plaintext, EffectModel::ReadPlaintext)
    } else {
        seal_step(p, course(p, events.drop_last()).0, events.last())
    }
}

/// The first event of a course gave the plaintext that holds a document.
pub open spec fn desired(p: PairModel, events: Seq<EventModel>, d: document::DocumentModel) -> bool {
    &&& events.len() > 0
    &&& events[0] matches EventModel::Plaintext(input, raws) && step::desired_of(
        p.entry.path,
        p.entry.format,
        input,
        raws,
    ) == Ok::<document::DocumentModel, (ErrorCategory, Seq<char>)>(d)
}

/// The first anchors were read, from the third event on, and none of them drifts from
/// the policy.
pub open spec fn anchored(p: PairModel, events: Seq<EventModel>, n: int) -> bool {
    &&& events.len() >= n + 2
    &&& forall|j: int|
        0 <= j < n ==> (events[j + 2] matches EventModel::Ciphertext(input) && step::anchor_fault(
            (#[trigger] p.anchors[j]).path + path::ciphertext_suffix(),
            p.anchors[j].format,
            p.policy,
            input,
        ) is None)
}

/// What a state knows of the events that led to it.
pub open spec fn checked(p: PairModel, events: Seq<EventModel>, s: StateModel) -> bool {
    match s {
        StateModel::Ciphertext(d) => desired(p, events, d) && events.len() == 1,
        StateModel::Anchor(d, i) => desired(p, events, d) && 0 <= i < p.anchors.len()
            && events.len() == i + 2 && anchored(p, events, i),
        StateModel::Baseline(d, _) => desired(p, events, d),
        StateModel::Encryption(d) => desired(p, events, d),
        StateModel::Check(d, bytes) => desired(p, events, d) && step::result_envelope(
            p.entry.path,
            p.entry.format,
            p.policy,
            bytes,
        ) is Ok,
        StateModel::Write(d, _) => desired(p, events, d),
        _ => true,
    }
}

proof fn lemma_more_events(p: PairModel, events: Seq<EventModel>, event: EventModel)
    ensures
        forall|d: document::DocumentModel|
            desired(p, events, d) ==> #[trigger] desired(p, events.push(event), d),
        forall|n: int| anchored(p, events, n) ==> #[trigger] anchored(p, events.push(event), n),
{
    let more = events.push(event);
    assert forall|n: int| anchored(p, events, n) implies #[trigger] anchored(p, more, n) by {
        assert forall|j: int| 0 <= j < n implies (more[j + 2] matches EventModel::Ciphertext(input)
            && step::anchor_fault(
            (#[trigger] p.anchors[j]).path + path::ciphertext_suffix(),
            p.anchors[j].format,
            p.policy,
            input,
        ) is None) by {
            assert(more[j + 2] == events[j + 2]);
        }
    }
}

proof fn lemma_next_anchor(
    p: PairModel,
    events: Seq<EventModel>,
    d: document::DocumentModel,
    i: int,
)
    requires
        events.len() == i + 2,
        i >= 0,
        desired(p, events, d),
        anchored(p, events, i),
        i <= p.anchors.len(),
    ensures
        checked(p, events, check_anchors(p, d, i).0),
        check_anchors(p, d, i).1 is EncryptNew ==> anchored(p, events, p.anchors.len() as int),
{
}

#[verifier::rlimit(40)]
#[verifier::spinoff_prover]
proof fn lemma_step_is_checked(
    p: PairModel,
    events: Seq<EventModel>,
    s: StateModel,
    event: EventModel,
)
    requires
        checked(p, events, s),
        s is Plaintext ==> events.len() == 0,
    ensures
        checked(p, events.push(event), seal_step(p, s, event).0),
        seal_step(p, s, event).1 is EncryptNew ==> anchored(
            p,
            events.push(event),
            p.anchors.len() as int,
        ),
        !(seal_step(p, s, event).0 is Plaintext),
{
    let more = events.push(event);
    lemma_more_events(p, events, event);
    match (s, event) {
        (StateModel::Ciphertext(d), EventModel::Ciphertext(input)) => {
            assert(anchored(p, more, 0));
            lemma_next_anchor(p, more, d, 0);
        },
        (StateModel::Anchor(d, i), EventModel::Ciphertext(input)) => {
            if step::anchor_fault(
                p.anchors[i].path + path::ciphertext_suffix(),
                p.anchors[i].format,
                p.policy,
                input,
            ) is None {
                assert(anchored(p, more, i));
                assert(more[i + 2] == event);
                assert(anchored(p, more, i + 1));
                lemma_next_anchor(p, more, d, i + 1);
            }
        },
        _ => {},
    }
}

proof fn lemma_course_is_checked(p: PairModel, events: Seq<EventModel>)
    ensures
        checked(p, events, course(p, events).0),
        course(p, events).1 is EncryptNew ==> anchored(p, events, p.anchors.len() as int),
        course(p, events).0 is Plaintext ==> events.len() == 0,
    decreases events.len(),
{
    if events.len() > 0 {
        let before = events.drop_last();
        lemma_course_is_checked(p, before);
        lemma_step_is_checked(p, before, course(p, before).0, events.last());
        assert(before.push(events.last()) =~= events);
    }
}

/// Law: whatever happens outside, a ciphertext is written only where it is a valid
/// envelope for exactly the recipients of the policy, and where it was decrypted to
/// the document of the plaintext that was read.
pub proof fn law_written_ciphertext_was_checked(p: PairModel, events: Seq<EventModel>)
    requires
        course(p, events).1 is WriteCiphertext,
    ensures
        ({
            let bytes = course(p, events).1->WriteCiphertext_0;
            &&& step::result_envelope(
                p.entry.path,
                p.entry.format,
                p.policy,
                bytes,
            ) matches Ok(envelope) && step::aligned(p.policy, envelope.recipients)
            &&& course(p, events).0 matches StateModel::Write(d, _) && desired(p, events, d) && (
            events.last() matches EventModel::Decrypted(output) && pair::source_of(
                p.entry.path,
                p.entry.format,
                output,
            ) == Ok::<document::DocumentModel, (ErrorCategory, Seq<char>)>(d))
        }),
{
    assert(events.len() > 0);
    lemma_course_is_checked(p, events);
    lemma_course_is_checked(p, events.drop_last());
}

/// Law: whatever happens outside, a pair is sealed for the first time only where every
/// other ciphertext of its policy was read and agrees with the policy.
pub proof fn law_first_seal_needs_aligned_ciphertexts(p: PairModel, events: Seq<EventModel>)
    requires
        course(p, events).1 is EncryptNew,
    ensures
        anchored(p, events, p.anchors.len() as int),
{
    lemma_course_is_checked(p, events);
}

/// Law: an unchanged pair keeps its ciphertext to the byte: sealing reports it as
/// unchanged without writing anything.
pub proof fn law_unchanged_pair_is_not_written(
    p: PairModel,
    d: document::DocumentModel,
    bytes: Seq<u8>,
    output: Result<Seq<u8>, SopsFailure>,
)
    requires
        pair::source_of(p.entry.path, p.entry.format, output) == Ok::<
            document::DocumentModel,
            (ErrorCategory, Seq<char>),
        >(d),
    ensures
        ({
            let next = seal_step(
                p,
                StateModel::Baseline(d, bytes),
                EventModel::Decrypted(output),
            );
            &&& next == save(p, d, bytes, SealOutcome::Unchanged)
            &&& !(next.1 is WriteCiphertext || next.1 is Edit || next.1 is EncryptNew)
        }),
{
}

} // verus!
