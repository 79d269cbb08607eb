//! What opening a pair reports, and what it needs to report it.

use vstd::prelude::*;

use crate::baseline::record;
use crate::config::SourceFormat;
use crate::envelope::ciphertext;
use crate::error::ErrorCategory;
use crate::open::plan;
use crate::open::plan::ConflictModel;
use crate::open::run;
use crate::open::run::{EffectModel, EventModel, PairModel, StateModel};
use crate::open::step;
use crate::open::step::OutcomeModel;
use crate::pair;
use crate::source::document;
use crate::source::node;

verus! {

/// Law: a ciphertext that is opened is there, holds no merge conflict, and is an envelope of
/// the format that the manifest declares; any such ciphertext is opened. A missing one is a
/// matter of configuration, and one in conflict a conflict.
pub proof fn law_only_envelopes_are_opened(
    cipher: Seq<char>,
    format: SourceFormat,
    input: Option<Seq<u8>>,
    envelope: ciphertext::CiphertextModel,
)
    ensures
        step::remote_envelope(cipher, format, input) == Ok::<
            ciphertext::CiphertextModel,
            (ErrorCategory, Seq<char>),
        >(envelope) <==> (input matches Some(bytes) && !pair::conflicted(bytes)
            && ciphertext::ciphertext_bytes(bytes, format) == Ok::<
            ciphertext::CiphertextModel,
            crate::envelope::fault::EnvelopeFault,
        >(envelope)),
        input is None ==> (step::remote_envelope(cipher, format, input) matches Err(e) && e.0
            == ErrorCategory::Configuration),
        input matches Some(bytes) && pair::conflicted(bytes) ==> (step::remote_envelope(
            cipher,
            format,
            input,
        ) matches Err(e) && e.0 == ErrorCategory::Conflict),
{
    if input is Some && ciphertext::ciphertext_bytes(input->Some_0, format) is Ok {
        ciphertext::law_envelopes_have_one_format(input->Some_0, format);
    }
}

/// Law: the local document is what the plaintext file holds, and there is none where there
/// is no file. A file that cannot be read is refused, and one with conflict markers is a
/// conflict.
pub proof fn law_local_document_is_what_is_read(
    path: Seq<char>,
    format: SourceFormat,
    input: Option<Seq<u8>>,
    raws: Result<Seq<node::Tree>, Seq<char>>,
)
    ensures
        match input {
            None => step::local_of(path, format, input, raws) matches Ok(None),
            Some(bytes) => match crate::source::format::parsed(format, bytes, raws) {
                Ok(d) => step::local_of(path, format, input, raws) == Ok::<
                    Option<document::DocumentModel>,
                    (ErrorCategory, Seq<char>),
                >(Some(d)),
                Err(fault) => step::local_of(path, format, input, raws) matches Err(e) && e.0
                    == if fault is ConflictMarkers {
                    ErrorCategory::Conflict
                } else {
                    ErrorCategory::Source
                },
            },
        },
{
}

/// Law: opening writes the decrypted document where there is no plaintext. Otherwise it
/// writes the merge of both sides, exactly where that differs from the plaintext and can be
/// written; where it cannot, that is reported beside the conflicts of the merge, and nothing
/// else is.
pub proof fn law_plan_writes_the_merge(
    local: Option<document::DocumentModel>,
    remote: document::DocumentModel,
    baseline: Option<record::RecordModel>,
)
    ensures
        ({
            let p = plan::planned(local, remote, baseline);
            match local {
                None => p.document == Some(remote) && p.conflicts.len() == 0,
                Some(l) => {
                    let (d, conflicts) = plan::merged(baseline, l, remote);
                    let writable = crate::source::format::generated(d) is Ok;
                    &&& p.document is Some <==> d != l && writable
                    &&& p.document is Some ==> p.document == Some(d)
                    &&& d == l || writable ==> p.conflicts == conflicts
                    &&& d != l && !writable ==> p.conflicts == conflicts.push(
                        ConflictModel::Unmergeable,
                    )
                },
            }
        }),
{
}

/// Law: sides that are no mappings are merged as a whole. What both agree on stays; with no
/// record a difference is a conflict that keeps the local side.
pub proof fn law_whole_documents_merge_as_one(
    baseline: Option<record::RecordModel>,
    local: document::DocumentModel,
    remote: document::DocumentModel,
)
    requires
        !(local.root is Mapping),
        !(remote.root is Mapping),
    ensures
        ({
            let (d, conflicts) = plan::merged(baseline, local, remote);
            let same = local.root == remote.root && local.layout == remote.layout;
            &&& d == local || d == remote
            &&& same ==> d == local && conflicts.len() == 0
            &&& !same && baseline is None ==> d == local && conflicts == seq![
                ConflictModel::Key("$"@),
            ]
            &&& conflicts.len() > 0 ==> d == local
        }),
{
}

/// Law: sides that are no mappings, under the record of a base that is none either: what
/// both agree on stays, the side that changed is taken, and where both did the local side is
/// kept and the whole document is reported.
pub proof fn law_recorded_whole_documents_merge(
    base: document::DocumentModel,
    c: crate::baseline::cipher::CipherModel,
    salt: Seq<u8>,
    local: document::DocumentModel,
    remote: document::DocumentModel,
)
    requires
        !(base.root is Mapping),
        !(local.root is Mapping),
        !(remote.root is Mapping),
        record::told_apart(record::captured(base, c, salt), base, local),
        record::told_apart(record::captured(base, c, salt), base, remote),
    ensures
        ({
            let (d, conflicts) = plan::merged(
                Some(record::captured(base, c, salt)),
                local,
                remote,
            );
            let content = |x: document::DocumentModel| (x.root, x.layout);
            let (o, l, r) = (content(base), content(local), content(remote));
            &&& l == r ==> d == local && conflicts.len() == 0
            &&& l != r && l == o ==> d == remote && conflicts.len() == 0
            &&& l != o && r == o ==> d == local && conflicts.len() == 0
            &&& l != r && l != o && r != o ==> d == local && conflicts == seq![
                ConflictModel::Key("$"@),
            ]
        }),
{
    let b = record::captured(base, c, salt);
    record::law_record_knows_its_units(base, c, salt, "$"@);
    let (o, l, r) = (
        crate::baseline::unit::unit_at(base, "$"@),
        crate::baseline::unit::unit_at(local, "$"@),
        crate::baseline::unit::unit_at(remote, "$"@),
    );
    assert(l != o ==> b.unit_match("$"@, l) != Some(true));
    assert(r != o ==> b.unit_match("$"@, r) != Some(true));
}

/// What both sides and the record gave, at the beginning of a course.
pub open spec fn inputs(
    p: PairModel,
    events: Seq<EventModel>,
    remote: document::DocumentModel,
    local: Option<document::DocumentModel>,
    baseline: Option<record::RecordModel>,
) -> bool {
    &&& run::sides(p, events, remote, local)
    &&& if p.recorded {
        events.len() > 3 && events[3] == EventModel::Record(baseline)
    } else {
        baseline is None
    }
}

/// Both sides and the record gave a plan.
pub open spec fn plans(
    p: PairModel,
    events: Seq<EventModel>,
    document: Option<document::DocumentModel>,
    conflicts: Seq<ConflictModel>,
) -> bool {
    exists|
        remote: document::DocumentModel,
        local: Option<document::DocumentModel>,
        baseline: Option<record::RecordModel>,
    | #[trigger]
        inputs(p, events, remote, local, baseline) && plan::planned(local, remote, baseline)
            == (plan::PlanModel { document, conflicts })
}

/// A plan with some conflicts was carried out: what it planned, if anything, was written.
pub open spec fn carried_out(
    p: PairModel,
    events: Seq<EventModel>,
    conflicts: Seq<ConflictModel>,
) -> bool {
    exists|document: Option<document::DocumentModel>| #[trigger]
        plans(p, events, document, conflicts) && (document is Some ==> events.contains(
            EventModel::Written,
        ))
}

/// What an outcome needs: conflicts are those of the plan, a pair is opened where a document
/// was planned and written, and up to date where none was planned.
pub open spec fn concluded(p: PairModel, events: Seq<EventModel>, outcome: OutcomeModel) -> bool {
    match outcome {
        OutcomeModel::Conflicts(list) => list.len() > 0 && carried_out(p, events, list),
        OutcomeModel::Opened => events.contains(EventModel::Written) && exists|
            d: document::DocumentModel,
        | #[trigger] plans(p, events, Some(d), Seq::empty()),
        OutcomeModel::UpToDate => plans(p, events, None, Seq::empty()),
    }
}

/// What a state knows of the events that led to it.
pub open spec fn known(p: PairModel, events: Seq<EventModel>, s: StateModel) -> bool {
    match s {
        StateModel::Ciphertext => events.len() == 0,
        StateModel::Remote(_) => events.len() == 1,
        StateModel::Plaintext(_, remote) => events.len() == 2 && run::gave_remote(
            p,
            events,
            remote,
        ),
        StateModel::Record(_, remote, local) => events.len() == 3 && p.recorded && run::sides(
            p,
            events,
            remote,
            local,
        ),
        StateModel::Reread(_, _, d, _, conflicts) => plans(p, events, Some(d), conflicts),
        StateModel::Write(_, _, d, conflicts) => plans(p, events, Some(d), conflicts),
        StateModel::Save(outcome) => p.recorded && !(outcome is Conflicts) && concluded(
            p,
            events,
            outcome,
        ),
        StateModel::Finished => true,
    }
}

/// What the end of a course needs of its events.
pub open spec fn warranted(p: PairModel, events: Seq<EventModel>, e: EffectModel) -> bool {
    e matches EffectModel::Finish(Ok(outcome)) ==> concluded(p, events, outcome)
}

proof fn lemma_more_events(p: PairModel, events: Seq<EventModel>, event: EventModel)
    ensures
        forall|
            remote: document::DocumentModel,
            local: Option<document::DocumentModel>,
            baseline: Option<record::RecordModel>,
        |
            inputs(p, events, remote, local, baseline) ==> #[trigger] inputs(
                p,
                events.push(event),
                remote,
                local,
                baseline,
            ),
        forall|document: Option<document::DocumentModel>, conflicts: Seq<ConflictModel>|
            plans(p, events, document, conflicts) ==> #[trigger] plans(
                p,
                events.push(event),
                document,
                conflicts,
            ),
        events.contains(EventModel::Written) ==> events.push(event).contains(EventModel::Written),
{
    let more = events.push(event);
    assert(forall|i: int| 0 <= i < events.len() ==> #[trigger] more[i] == events[i]);
    assert forall|document: Option<document::DocumentModel>, conflicts: Seq<ConflictModel>| plans(
        p,
        events,
        document,
        conflicts,
    ) implies #[trigger] plans(p, more, document, conflicts) by {
        let (remote, local, baseline) = choose|
            remote: document::DocumentModel,
            local: Option<document::DocumentModel>,
            baseline: Option<record::RecordModel>,
        | #[trigger]
            inputs(p, events, remote, local, baseline) && plan::planned(local, remote, baseline)
                == (plan::PlanModel { document, conflicts });
        assert(inputs(p, more, remote, local, baseline));
    }
    if events.contains(EventModel::Written) {
        let i = choose|i: int| 0 <= i < events.len() && events[i] == EventModel::Written;
        assert(more[i] == EventModel::Written);
    }
}

proof fn lemma_concluded_later(
    p: PairModel,
    events: Seq<EventModel>,
    event: EventModel,
    outcome: OutcomeModel,
)
    requires
        concluded(p, events, outcome),
    ensures
        concluded(p, events.push(event), outcome),
{
    let more = events.push(event);
    lemma_more_events(p, events, event);
    match outcome {
        OutcomeModel::Conflicts(list) => {
            let document = choose|document: Option<document::DocumentModel>|
                #[trigger] plans(p, events, document, list) && (document is Some
                    ==> events.contains(EventModel::Written));
            assert(plans(p, more, document, list));
        },
        OutcomeModel::Opened => {
            let d = choose|d: document::DocumentModel|
                #[trigger] plans(p, events, Some(d), Seq::empty());
            assert(plans(p, more, Some(d), Seq::empty()));
        },
        OutcomeModel::UpToDate => {},
    }
}

proof fn lemma_conclude(
    p: PairModel,
    events: Seq<EventModel>,
    envelope: ciphertext::CiphertextModel,
    remote: document::DocumentModel,
    conflicts: Seq<ConflictModel>,
    document: Option<document::DocumentModel>,
)
    requires
        plans(p, events, document, conflicts),
        document is Some ==> events.contains(EventModel::Written),
    ensures
        known(p, events, run::conclude(p, envelope, remote, conflicts, document).0),
        warranted(p, events, run::conclude(p, envelope, remote, conflicts, document).1),
{
    if conflicts.len() > 0 {
        assert(carried_out(p, events, conflicts));
    } else {
        assert(conflicts =~= Seq::<ConflictModel>::empty());
        if document is Some {
            assert(plans(p, events, Some(document->Some_0), Seq::empty()));
            assert(concluded(p, events, OutcomeModel::Opened));
        } else {
            assert(concluded(p, events, OutcomeModel::UpToDate));
        }
    }
}

proof fn lemma_merge(
    p: PairModel,
    events: Seq<EventModel>,
    envelope: ciphertext::CiphertextModel,
    remote: document::DocumentModel,
    local: Option<document::DocumentModel>,
    baseline: Option<record::RecordModel>,
)
    requires
        inputs(p, events, remote, local, baseline),
    ensures
        known(p, events, run::merge(p, envelope, remote, local, baseline).0),
        warranted(p, events, run::merge(p, envelope, remote, local, baseline).1),
{
    let planned = plan::planned(local, remote, baseline);
    assert(plans(p, events, planned.document, planned.conflicts));
    if planned.document is None {
        lemma_conclude(p, events, envelope, remote, planned.conflicts, None);
    }
}

proof fn lemma_known_step(p: PairModel, events: Seq<EventModel>, s: StateModel, event: EventModel)
    requires
        known(p, events, s),
    ensures
        known(p, events.push(event), run::open_step(p, s, event).0),
        warranted(p, events.push(event), run::open_step(p, s, event).1),
{
    let more = events.push(event);
    lemma_more_events(p, events, event);
    match (s, event) {
        (StateModel::Remote(_), EventModel::Decrypted(_)) => {
            assert(more[1] == event);
        },
        (StateModel::Plaintext(envelope, remote), EventModel::Plaintext(input, raws)) => {
            assert(more[1] == events[1]);
            assert(more[2] == event);
            match step::local_of(p.entry.path, p.entry.format, input, raws) {
                Ok(local) => {
                    assert(run::sides(p, more, remote, local));
                    if !p.recorded {
                        assert(inputs(p, more, remote, local, None));
                        lemma_merge(p, more, envelope, remote, local, None);
                    }
                },
                Err(_) => {},
            }
        },
        (StateModel::Record(envelope, remote, local), EventModel::Record(baseline)) => {
            assert(more[1] == events[1] && more[2] == events[2] && more[3] == event);
            assert(inputs(p, more, remote, local, baseline));
            lemma_merge(p, more, envelope, remote, local, baseline);
        },
        (StateModel::Write(envelope, remote, d, conflicts), EventModel::Written) => {
            assert(more[more.len() - 1] == EventModel::Written);
            lemma_conclude(p, more, envelope, remote, conflicts, Some(d));
        },
        (StateModel::Save(outcome), EventModel::Written) => {
            lemma_concluded_later(p, events, event, outcome);
        },
        _ => {},
    }
}

/// Law: whatever happens outside, opening reports what it did. Conflicts are reported where
/// the plan of both sides and the record has some, and they are those; a pair is reported as
/// opened where a document was planned without conflict and was written, and as up to date
/// where nothing had to be written.
pub proof fn law_every_outcome_is_warranted(p: PairModel, events: Seq<EventModel>)
    ensures
        run::course(p, events).1 matches EffectModel::Finish(Ok(outcome)) ==> concluded(
            p,
            events,
            outcome,
        ),
        known(p, events, run::course(p, events).0),
    decreases events.len(),
{
    if events.len() > 0 {
        let before = events.drop_last();
        law_every_outcome_is_warranted(p, before);
        lemma_known_step(p, before, run::course(p, before).0, events.last());
        assert(before.push(events.last()) =~= events);
    }
}

/// Law: whatever happens outside, a record is saved only of a pair without conflict.
pub proof fn law_only_settled_pairs_are_recorded(p: PairModel, events: Seq<EventModel>)
    requires
        run::course(p, events).1 is SaveRecord,
    ensures
        carried_out(p, events, Seq::empty()),
{
    law_every_outcome_is_warranted(p, events);
    let s = run::course(p, events).0;
    lemma_saving(p, events);
    match s->Save_0 {
        OutcomeModel::Opened => {
            let d = choose|d: document::DocumentModel|
                #[trigger] plans(p, events, Some(d), Seq::empty());
            assert(plans(p, events, Some(d), Seq::empty()));
        },
        _ => {
            assert(plans(p, events, None, Seq::empty()));
        },
    }
}

proof fn lemma_saving(p: PairModel, events: Seq<EventModel>)
    requires
        run::course(p, events).1 is SaveRecord,
    ensures
        run::course(p, events).0 is Save,
{
}

/// Law: whatever happens outside, opening decrypts only what it read of the pair, where that
/// holds no merge conflict and is an envelope of the declared format; and it reads the
/// plaintext only where that was decrypted to a document.
pub proof fn law_only_read_envelopes_are_decrypted(p: PairModel, events: Seq<EventModel>)
    ensures
        run::course(p, events).1 matches EffectModel::Decrypt(bytes) ==> events.len() == 1
            && events[0] == EventModel::Ciphertext(Some(bytes)) && !pair::conflicted(bytes)
            && ciphertext::ciphertext_bytes(bytes, p.entry.format) is Ok,
        run::course(p, events).1 is ReadPlaintext ==> events.len() == 2,
        run::course(p, events).1 is LoadRecord ==> p.recorded && events.len() == 3,
{
    law_every_outcome_is_warranted(p, events);
    if events.len() > 0 {
        law_every_outcome_is_warranted(p, events.drop_last());
        match (run::course(p, events.drop_last()).0, events.last()) {
            (StateModel::Ciphertext, EventModel::Ciphertext(input)) => {
                match step::remote_envelope(p.cipher(), p.entry.format, input) {
                    Ok(envelope) => {
                        law_only_envelopes_are_opened(
                            p.cipher(),
                            p.entry.format,
                            input,
                            envelope,
                        );
                    },
                    Err(_) => {},
                }
            },
            _ => {},
        }
    }
}

} // verus!
