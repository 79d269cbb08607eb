//! What must have happened before each thing that sealing does.

use vstd::prelude::*;

use crate::baseline::cipher;
use crate::config::SourceFormat;
use crate::envelope::ciphertext;
use crate::error::ErrorCategory;
use crate::manifest::EntryModel;
use crate::pair;
use crate::path;
use crate::recipient::PolicyModel;
use crate::seal::run;
use crate::seal::run::{EffectModel, EventModel, PairModel, StateModel};
use crate::seal::step;
use crate::seal::step::SealOutcome;
use crate::source::document;

verus! {

/// Law: the pairs that are read before a first seal are exactly the other entries of the
/// manifest that name the same recipient policy as the entry that is sealed.
pub proof fn law_anchors_share_the_policy(
    entries: Seq<EntryModel>,
    entry: EntryModel,
    other: EntryModel,
)
    ensures
        run::anchors_of(entries, entry).contains(other) <==> entries.contains(other) && other.path
            != entry.path && other.policy == entry.policy,
{
    let keep = |x: EntryModel| step::shares_policy_of(entry, x);
    if run::anchors_of(entries, entry).contains(other) {
        let i = choose|i: int|
            0 <= i < entries.filter(keep).len() && entries.filter(keep)[i] == other;
        entries.lemma_filter_pred(keep, i);
        entries.lemma_filter_contains_rev(keep, other);
    }
    if entries.contains(other) && keep(other) {
        let i = choose|i: int| 0 <= i < entries.len() && entries[i] == other;
        entries.lemma_filter_contains(keep, i);
    }
}

proof fn lemma_filtered_parts(a: Seq<EntryModel>, b: Seq<EntryModel>, keep: spec_fn(EntryModel) -> bool)
    ensures
        (a + b).filter(keep) == a.filter(keep) + b.filter(keep),
{
    Seq::filter_distributes_over_add(a, b, keep);
}

/// Law: an entry of another policy is never read, and never stops a first seal: sealing
/// goes the same course whether or not the manifest holds it, wherever it stands.
pub proof fn law_other_policies_do_not_matter(
    before: Seq<EntryModel>,
    after: Seq<EntryModel>,
    entry: EntryModel,
    other: EntryModel,
)
    requires
        other.policy != entry.policy,
    ensures
        run::anchors_of(before + seq![other] + after, entry) == run::anchors_of(
            before + after,
            entry,
        ),
{
    let keep = |x: EntryModel| step::shares_policy_of(entry, x);
    lemma_filtered_parts(before + seq![other], after, keep);
    lemma_filtered_parts(before, seq![other], keep);
    lemma_filtered_parts(before, after, keep);
    reveal(Seq::filter);
    assert(seq![other].drop_last() =~= Seq::<EntryModel>::empty());
    assert(!keep(other));
    assert(Seq::<EntryModel>::empty().filter(keep) =~= Seq::<EntryModel>::empty());
    assert(seq![other].last() == other);
    assert(seq![other].filter(keep) =~= Seq::<EntryModel>::empty());
    assert(before.filter(keep) + Seq::<EntryModel>::empty() =~= before.filter(keep));
}

/// Bytes are an encrypted envelope for exactly the recipients of a policy.
pub open spec fn sealed_to(policy: PolicyModel, format: SourceFormat, bytes: Seq<u8>) -> bool {
    ciphertext::ciphertext_bytes(bytes, format) matches Ok(envelope) && (forall|name: Seq<char>|
        #[trigger] envelope.recipients.contains(name) <==> policy.recipients.contains(name))
}

/// Law: a set of recipients agrees with a policy where each name is in both or in neither.
pub proof fn law_aligned_sets_have_the_same_names(policy: PolicyModel, recipients: Seq<Seq<char>>)
    ensures
        step::aligned(policy, recipients) <==> forall|name: Seq<char>|
            #[trigger] recipients.contains(name) <==> policy.recipients.contains(name),
{
    let (p, r) = (policy.recipients.to_set(), recipients.to_set());
    if step::aligned(policy, recipients) {
        assert forall|name: Seq<char>|
            #[trigger] recipients.contains(name) <==> policy.recipients.contains(name) by {
            assert(r.contains(name) <==> p.contains(name));
        }
    }
    if forall|name: Seq<char>|
        #[trigger] recipients.contains(name) <==> policy.recipients.contains(name) {
        assert forall|name: Seq<char>| p.contains(name) <==> r.contains(name) by {
            assert(recipients.contains(name) <==> policy.recipients.contains(name));
        }
        assert(p =~= r);
    }
}

/// The pair that is sealed, by its manifest.
pub open spec fn pair_in(
    entries: Seq<EntryModel>,
    entry: EntryModel,
    policy: PolicyModel,
    recorded: bool,
) -> PairModel {
    PairModel { entry, policy, anchors: run::anchors_of(entries, entry), recorded }
}

/// A first seal is due: there is no ciphertext, and the other pairs of the policy have none
/// or one for exactly its recipients.
pub open spec fn first(p: PairModel, events: Seq<EventModel>, n: int) -> bool {
    &&& events.len() == n + 2
    &&& events[1] == EventModel::Ciphertext(None)
    &&& forall|j: int|
        0 <= j < n ==> (events[j + 2] matches EventModel::Ciphertext(input) && (
        input matches Some(bytes) ==> sealed_to(
            p.policy,
            (#[trigger] p.anchors[j]).format,
            bytes,
        )))
}

/// The ciphertext was read, is for exactly the recipients of the policy, and was decrypted
/// to a document.
pub open spec fn opened(p: PairModel, events: Seq<EventModel>, d: document::DocumentModel) -> bool {
    &&& events.len() == 3
    &&& events[1] matches EventModel::Ciphertext(Some(bytes)) && sealed_to(
        p.policy,
        p.entry.format,
        bytes,
    )
    &&& events[2] matches EventModel::Decrypted(output) && pair::source_of(
        p.entry.path,
        p.entry.format,
        output,
    ) == Ok::<document::DocumentModel, (ErrorCategory, Seq<char>)>(d)
}

/// The ciphertext holds another document.
pub open spec fn outdated(p: PairModel, events: Seq<EventModel>, d: document::DocumentModel) -> bool {
    exists|old: document::DocumentModel| old != d && #[trigger] opened(p, events, old)
}

/// A document is to be encrypted, whether for the first time or not.
pub open spec fn due(p: PairModel, events: Seq<EventModel>, d: document::DocumentModel) -> bool {
    &&& run::desired(p, events, d)
    &&& first(p, events, p.anchors.len() as int) || outdated(p, events, d)
}

/// The new ciphertext is an envelope for exactly the recipients of the policy.
pub open spec fn encrypted(
    p: PairModel,
    events: Seq<EventModel>,
    d: document::DocumentModel,
    bytes: Seq<u8>,
) -> bool {
    &&& events.len() > 0
    &&& due(p, events.drop_last(), d)
    &&& events.last() == EventModel::Encrypted(bytes)
    &&& sealed_to(p.policy, p.entry.format, bytes)
}

/// It was decrypted to the document.
pub open spec fn proven(
    p: PairModel,
    events: Seq<EventModel>,
    d: document::DocumentModel,
    bytes: Seq<u8>,
) -> bool {
    &&& events.len() > 0
    &&& encrypted(p, events.drop_last(), d, bytes)
    &&& events.last() matches EventModel::Decrypted(output) && pair::source_of(
        p.entry.path,
        p.entry.format,
        output,
    ) == Ok::<document::DocumentModel, (ErrorCategory, Seq<char>)>(d)
}

/// What an outcome needs: an unchanged pair was decrypted to the document of its plaintext,
/// and a sealed one was written.
pub open spec fn settled(p: PairModel, events: Seq<EventModel>, outcome: SealOutcome) -> bool {
    match outcome {
        SealOutcome::Unchanged => exists|d: document::DocumentModel|
            run::desired(p, events, d) && #[trigger] opened(p, events, d),
        SealOutcome::Sealed => events.len() > 0 && events.last() == EventModel::Written && exists|
            d: document::DocumentModel,
            bytes: Seq<u8>,
        | #[trigger] proven(p, events.drop_last(), d, bytes),
    }
}

/// What a state knows of the events that led to it.
pub open spec fn known(p: PairModel, events: Seq<EventModel>, s: StateModel) -> bool {
    match s {
        StateModel::Plaintext => events.len() == 0,
        StateModel::Ciphertext(d) => run::desired(p, events, d) && events.len() == 1,
        StateModel::Anchor(d, i) => run::desired(p, events, d) && 0 <= i < p.anchors.len() && first(
            p,
            events,
            i,
        ),
        StateModel::Baseline(d, bytes) => run::desired(p, events, d) && events.len() == 2
            && events[1] == EventModel::Ciphertext(Some(bytes)) && sealed_to(
            p.policy,
            p.entry.format,
            bytes,
        ),
        StateModel::Encryption(d) => due(p, events, d),
        StateModel::Check(d, bytes) => encrypted(p, events, d, bytes),
        StateModel::Write(d, bytes) => proven(p, events, d, bytes),
        StateModel::Save(outcome) => p.recorded && settled(p, events, outcome),
        StateModel::Finished => true,
    }
}

/// A document and a ciphertext with its summary are in sync: the ciphertext was found to hold
/// the document, or was written.
pub open spec fn in_sync(
    p: PairModel,
    events: Seq<EventModel>,
    d: document::DocumentModel,
    c: cipher::CipherModel,
    bytes: Seq<u8>,
) -> bool {
    &&& ciphertext::ciphertext_bytes(bytes, p.entry.format) matches Ok(envelope) && c
        == cipher::summary_of(envelope)
    &&& (run::desired(p, events, d) && opened(p, events, d) && events[1] == EventModel::Ciphertext(
        Some(bytes),
    )) || (events.len() > 0 && events.last() == EventModel::Written && proven(
        p,
        events.drop_last(),
        d,
        bytes,
    ))
}

/// A ciphertext was decrypted to the document of the plaintext.
pub open spec fn writable(p: PairModel, events: Seq<EventModel>, bytes: Seq<u8>) -> bool {
    exists|d: document::DocumentModel| #[trigger] proven(p, events, d, bytes)
}

/// A document and the summary of a ciphertext are in sync.
pub open spec fn recordable(
    p: PairModel,
    events: Seq<EventModel>,
    d: document::DocumentModel,
    c: cipher::CipherModel,
) -> bool {
    exists|bytes: Seq<u8>| #[trigger] in_sync(p, events, d, c, bytes)
}

/// What an effect needs of the events that led to it.
pub open spec fn warranted(p: PairModel, events: Seq<EventModel>, e: EffectModel) -> bool {
    match e {
        EffectModel::ReadPlaintext => events.len() == 0,
        EffectModel::ReadCiphertext(target) => {
            ||| events.len() == 1 && target == p.entry.path + path::ciphertext_suffix()
            ||| exists|i: int|
                0 <= i < p.anchors.len() && #[trigger] first(p, events, i) && target
                    == p.anchors[i].path + path::ciphertext_suffix()
        },
        EffectModel::Decrypt(bytes) => sealed_to(p.policy, p.entry.format, bytes) && (
        events.last() == EventModel::Ciphertext(Some(bytes)) || events.last()
            == EventModel::Encrypted(bytes)),
        EffectModel::EncryptNew(payload) => first(p, events, p.anchors.len() as int) && exists|
            d: document::DocumentModel,
        | #[trigger]
            run::desired(p, events, d) && pair::payload_of(p.entry.path, d) == Ok::<
                Seq<u8>,
                (ErrorCategory, Seq<char>),
            >(payload),
        EffectModel::Edit(bytes, payload) => events.len() == 3 && events[1]
            == EventModel::Ciphertext(Some(bytes)) && exists|d: document::DocumentModel| #[trigger]
            run::desired(p, events, d) && outdated(p, events, d) && pair::payload_of(
                p.entry.path,
                d,
            ) == Ok::<Seq<u8>, (ErrorCategory, Seq<char>)>(payload),
        EffectModel::WriteCiphertext(bytes) => writable(p, events, bytes),
        EffectModel::SaveRecord(d, c) => p.recorded && recordable(p, events, d, c),
        EffectModel::Finish(Ok(outcome)) => settled(p, events, outcome) || (p.recorded
            && events.len() > 0 && events.last() == EventModel::Written && settled(
            p,
            events.drop_last(),
            outcome,
        )),
        EffectModel::Finish(Err(_)) => true,
    }
}

proof fn lemma_next_anchor(p: PairModel, events: Seq<EventModel>, d: document::DocumentModel, i: int)
    requires
        0 <= i <= p.anchors.len(),
        first(p, events, i),
        run::desired(p, events, d),
    ensures
        known(p, events, run::check_anchors(p, d, i).0),
        warranted(p, events, run::check_anchors(p, d, i).1),
{
}

proof fn lemma_desired_later(p: PairModel, events: Seq<EventModel>, event: EventModel)
    requires
        events.len() > 0,
    ensures
        events.push(event).drop_last() == events,
        events.push(event).last() == event,
        forall|d: document::DocumentModel|
            run::desired(p, events, d) ==> #[trigger] run::desired(p, events.push(event), d),
{
    assert(events.push(event).drop_last() =~= events);
    assert(events.push(event)[0] == events[0]);
}

proof fn lemma_read_ciphertext(
    p: PairModel,
    events: Seq<EventModel>,
    d: document::DocumentModel,
    input: Option<Seq<u8>>,
)
    requires
        known(p, events, StateModel::Ciphertext(d)),
    ensures
        ({
            let next = run::seal_step(p, StateModel::Ciphertext(d), EventModel::Ciphertext(input));
            let more = events.push(EventModel::Ciphertext(input));
            known(p, more, next.0) && warranted(p, more, next.1)
        }),
{
    let event = EventModel::Ciphertext(input);
    let more = events.push(event);
    lemma_desired_later(p, events, event);
    match input {
        None => {
            assert(first(p, more, 0));
            lemma_next_anchor(p, more, d, 0);
        },
        Some(bytes) => {
            if ciphertext::ciphertext_bytes(bytes, p.entry.format) is Ok {
                law_aligned_sets_have_the_same_names(
                    p.policy,
                    ciphertext::ciphertext_bytes(bytes, p.entry.format)->Ok_0.recipients,
                );
            }
        },
    }
}

proof fn lemma_read_anchor(
    p: PairModel,
    events: Seq<EventModel>,
    d: document::DocumentModel,
    i: int,
    input: Option<Seq<u8>>,
)
    requires
        known(p, events, StateModel::Anchor(d, i)),
    ensures
        ({
            let next = run::seal_step(p, StateModel::Anchor(d, i), EventModel::Ciphertext(input));
            let more = events.push(EventModel::Ciphertext(input));
            known(p, more, next.0) && warranted(p, more, next.1)
        }),
{
    let event = EventModel::Ciphertext(input);
    let more = events.push(event);
    lemma_desired_later(p, events, event);
    let format = p.anchors[i].format;
    if input is Some && ciphertext::ciphertext_bytes(input->Some_0, format) is Ok {
        law_aligned_sets_have_the_same_names(
            p.policy,
            ciphertext::ciphertext_bytes(input->Some_0, format)->Ok_0.recipients,
        );
    }
    if step::anchor_fault(
        p.anchors[i].path + path::ciphertext_suffix(),
        format,
        p.policy,
        input,
    ) is None {
        assert forall|j: int| 0 <= j < i + 1 implies (more[j + 2] matches EventModel::Ciphertext(
            input,
        ) && (input matches Some(bytes) ==> sealed_to(
            p.policy,
            (#[trigger] p.anchors[j]).format,
            bytes,
        ))) by {
            if j < i {
                assert(more[j + 2] == events[j + 2]);
                let q = p.anchors[j];
            } else {
                assert(more[j + 2] == event);
            }
        }
        assert(more[1] == events[1]);
        assert(first(p, more, i + 1));
        lemma_next_anchor(p, more, d, i + 1);
    }
}

proof fn lemma_unchanged(
    p: PairModel,
    events: Seq<EventModel>,
    d: document::DocumentModel,
    bytes: Seq<u8>,
)
    requires
        run::desired(p, events, d),
        opened(p, events, d),
        events[1] == EventModel::Ciphertext(Some(bytes)),
    ensures
        known(p, events, run::save(p, d, bytes, SealOutcome::Unchanged).0),
        warranted(p, events, run::save(p, d, bytes, SealOutcome::Unchanged).1),
{
    assert(settled(p, events, SealOutcome::Unchanged));
    let envelope = ciphertext::ciphertext_bytes(bytes, p.entry.format)->Ok_0;
    assert(in_sync(p, events, d, cipher::summary_of(envelope), bytes));
    assert(recordable(p, events, d, cipher::summary_of(envelope)));
}

proof fn lemma_edited(
    p: PairModel,
    events: Seq<EventModel>,
    d: document::DocumentModel,
    old: document::DocumentModel,
    bytes: Seq<u8>,
    payload: Seq<u8>,
)
    requires
        run::desired(p, events, d),
        opened(p, events, old),
        old != d,
        events[1] == EventModel::Ciphertext(Some(bytes)),
        pair::payload_of(p.entry.path, d) == Ok::<Seq<u8>, (ErrorCategory, Seq<char>)>(payload),
    ensures
        known(p, events, StateModel::Encryption(d)),
        warranted(p, events, EffectModel::Edit(bytes, payload)),
{
    assert(outdated(p, events, d));
}

proof fn lemma_read_document(
    p: PairModel,
    events: Seq<EventModel>,
    d: document::DocumentModel,
    bytes: Seq<u8>,
    output: Result<Seq<u8>, crate::sops::SopsFailure>,
)
    requires
        known(p, events, StateModel::Baseline(d, bytes)),
    ensures
        ({
            let next = run::seal_step(
                p,
                StateModel::Baseline(d, bytes),
                EventModel::Decrypted(output),
            );
            let more = events.push(EventModel::Decrypted(output));
            known(p, more, next.0) && warranted(p, more, next.1)
        }),
{
    let event = EventModel::Decrypted(output);
    let more = events.push(event);
    lemma_desired_later(p, events, event);
    assert(more[1] == events[1]);
    assert(more[2] == event);
    match pair::source_of(p.entry.path, p.entry.format, output) {
        Ok(old) => {
            assert(opened(p, more, old));
            if old == d {
                lemma_unchanged(p, more, d, bytes);
            } else {
                match pair::payload_of(p.entry.path, d) {
                    Ok(payload) => {
                        lemma_edited(p, more, d, old, bytes, payload);
                    },
                    Err(_) => {},
                }
            }
        },
        Err(_) => {},
    }
}

proof fn lemma_encrypted(
    p: PairModel,
    events: Seq<EventModel>,
    d: document::DocumentModel,
    output: Seq<u8>,
)
    requires
        due(p, events, d),
    ensures
        ({
            let next = run::seal_step(p, StateModel::Encryption(d), EventModel::Encrypted(output));
            let more = events.push(EventModel::Encrypted(output));
            known(p, more, next.0) && warranted(p, more, next.1)
        }),
{
    lemma_desired_later(p, events, EventModel::Encrypted(output));
    if ciphertext::ciphertext_bytes(output, p.entry.format) is Ok {
        law_aligned_sets_have_the_same_names(
            p.policy,
            ciphertext::ciphertext_bytes(output, p.entry.format)->Ok_0.recipients,
        );
    }
}

proof fn lemma_proven(
    p: PairModel,
    events: Seq<EventModel>,
    d: document::DocumentModel,
    bytes: Seq<u8>,
    output: Result<Seq<u8>, crate::sops::SopsFailure>,
)
    requires
        encrypted(p, events, d, bytes),
    ensures
        ({
            let next = run::seal_step(
                p,
                StateModel::Check(d, bytes),
                EventModel::Decrypted(output),
            );
            let more = events.push(EventModel::Decrypted(output));
            known(p, more, next.0) && warranted(p, more, next.1)
        }),
{
    let more = events.push(EventModel::Decrypted(output));
    lemma_desired_later(p, events, EventModel::Decrypted(output));
    if pair::source_of(p.entry.path, p.entry.format, output) == Ok::<
        document::DocumentModel,
        (ErrorCategory, Seq<char>),
    >(d) {
        assert(proven(p, more, d, bytes));
        assert(writable(p, more, bytes));
    }
}

proof fn lemma_written(
    p: PairModel,
    events: Seq<EventModel>,
    d: document::DocumentModel,
    bytes: Seq<u8>,
)
    requires
        proven(p, events, d, bytes),
    ensures
        ({
            let next = run::seal_step(p, StateModel::Write(d, bytes), EventModel::Written);
            let more = events.push(EventModel::Written);
            known(p, more, next.0) && warranted(p, more, next.1)
        }),
{
    let more = events.push(EventModel::Written);
    lemma_desired_later(p, events, EventModel::Written);
    assert(proven(p, more.drop_last(), d, bytes));
    assert(settled(p, more, SealOutcome::Sealed));
    let envelope = ciphertext::ciphertext_bytes(bytes, p.entry.format)->Ok_0;
    assert(in_sync(p, more, d, cipher::summary_of(envelope), bytes));
    assert(recordable(p, more, d, cipher::summary_of(envelope)));
}

proof fn lemma_saved(p: PairModel, events: Seq<EventModel>, outcome: SealOutcome)
    requires
        p.recorded,
        settled(p, events, outcome),
    ensures
        warranted(p, events.push(EventModel::Written), EffectModel::Finish(Ok(outcome))),
{
    assert(events.push(EventModel::Written).drop_last() =~= events);
}

proof fn lemma_known_step(p: PairModel, events: Seq<EventModel>, s: StateModel, event: EventModel)
    requires
        known(p, events, s),
    ensures
        known(p, events.push(event), run::seal_step(p, s, event).0),
        warranted(p, events.push(event), run::seal_step(p, s, event).1),
{
    match (s, event) {
        (StateModel::Plaintext, EventModel::Plaintext(input, raws)) => {
            assert(events.push(event)[0] == event);
        },
        (StateModel::Ciphertext(d), EventModel::Ciphertext(input)) => {
            lemma_read_ciphertext(p, events, d, input);
        },
        (StateModel::Anchor(d, i), EventModel::Ciphertext(input)) => {
            lemma_read_anchor(p, events, d, i, input);
        },
        (StateModel::Baseline(d, bytes), EventModel::Decrypted(output)) => {
            lemma_read_document(p, events, d, bytes, output);
        },
        (StateModel::Encryption(d), EventModel::Encrypted(output)) => {
            lemma_encrypted(p, events, d, output);
        },
        (StateModel::Check(d, bytes), EventModel::Decrypted(output)) => {
            lemma_proven(p, events, d, bytes, output);
        },
        (StateModel::Write(d, bytes), EventModel::Written) => {
            lemma_written(p, events, d, bytes);
        },
        (StateModel::Save(outcome), EventModel::Written) => {
            lemma_saved(p, events, outcome);
        },
        _ => {},
    }
}

/// Law: whatever happens outside, sealing does each thing only after what it needs. It reads
/// the pair's ciphertext and those of its policy; it decrypts only envelopes for exactly the
/// recipients of the policy; it encrypts anew only where there was no ciphertext and every
/// other ciphertext of the policy is for those recipients; it edits only a ciphertext that
/// holds another document; it writes only what was decrypted to the document of the
/// plaintext; it records only what was found equal or was written; and it reports a pair as
/// unchanged or as sealed only where it is.
pub proof fn law_every_effect_is_warranted(p: PairModel, events: Seq<EventModel>)
    ensures
        warranted(p, events, run::course(p, events).1),
        known(p, events, run::course(p, events).0),
    decreases events.len(),
{
    if events.len() > 0 {
        let before = events.drop_last();
        law_every_effect_is_warranted(p, before);
        lemma_known_step(p, before, run::course(p, before).0, events.last());
        assert(before.push(events.last()) =~= events);
    }
}

/// Law: whatever happens outside, the only ciphertexts that sealing a pair reads are its
/// own and those of other entries of the manifest with the same policy.
pub proof fn law_only_the_policy_is_read(
    entries: Seq<EntryModel>,
    entry: EntryModel,
    policy: PolicyModel,
    recorded: bool,
    events: Seq<EventModel>,
)
    ensures
        run::course(
            pair_in(entries, entry, policy, recorded),
            events,
        ).1 matches EffectModel::ReadCiphertext(target) ==> target == entry.path
            + path::ciphertext_suffix() || exists|other: EntryModel| #[trigger]
            entries.contains(other) && other.path != entry.path && other.policy == entry.policy
                && target == other.path + path::ciphertext_suffix(),
{
    let p = pair_in(entries, entry, policy, recorded);
    law_every_effect_is_warranted(p, events);
    let effect = run::course(p, events).1;
    if effect is ReadCiphertext && effect->ReadCiphertext_0 != entry.path
        + path::ciphertext_suffix() {
        let i = choose|i: int|
            0 <= i < p.anchors.len() && #[trigger] first(p, events, i)
                && effect->ReadCiphertext_0 == p.anchors[i].path + path::ciphertext_suffix();
        assert(p.anchors.contains(p.anchors[i]));
        law_anchors_share_the_policy(entries, entry, p.anchors[i]);
    }
}

/// Law: whatever happens outside, a pair is sealed for the first time only where it had no
/// ciphertext and where every other entry of the manifest with its policy was read, and has
/// no ciphertext or one for exactly the recipients of the policy.
pub proof fn law_first_seal_needs_the_whole_policy(
    entries: Seq<EntryModel>,
    entry: EntryModel,
    policy: PolicyModel,
    recorded: bool,
    events: Seq<EventModel>,
    other: EntryModel,
)
    requires
        run::course(pair_in(entries, entry, policy, recorded), events).1 is EncryptNew,
        entries.contains(other),
        other.path != entry.path,
        other.policy == entry.policy,
    ensures
        events[1] == EventModel::Ciphertext(None),
        exists|k: int|
            2 <= k < events.len() && run::course(
                pair_in(entries, entry, policy, recorded),
                #[trigger] events.take(k),
            ).1 == EffectModel::ReadCiphertext(other.path + path::ciphertext_suffix()) && (
            events[k] matches EventModel::Ciphertext(input) && (input matches Some(bytes)
                ==> sealed_to(policy, other.format, bytes))),
{
    let p = pair_in(entries, entry, policy, recorded);
    law_every_effect_is_warranted(p, events);
    law_anchors_share_the_policy(entries, entry, other);
    let i = choose|i: int| 0 <= i < p.anchors.len() && p.anchors[i] == other;
    lemma_way(p, events, i);
    assert(p.anchors[i].format == other.format);
    assert(events[i + 2] is Ciphertext);
    assert(run::course(p, events.take(i + 2)).1 == EffectModel::ReadCiphertext(
        other.path + path::ciphertext_suffix(),
    ));
}

/// On the way to a first seal each anchor was read in turn.
proof fn lemma_way(p: PairModel, events: Seq<EventModel>, i: int)
    requires
        0 <= i < p.anchors.len(),
        first(p, events, p.anchors.len() as int),
        !(run::course(p, events).0 is Finished),
    ensures
        run::course(p, events.take(i + 2)).1 == EffectModel::ReadCiphertext(
            p.anchors[i].path + path::ciphertext_suffix(),
        ),
{
    lemma_running(p, events, i + 2);
    let part = events.take(i + 2);
    let s = run::course(p, part).0;
    law_every_effect_is_warranted(p, part);
    lemma_way_state(p, events, i);
}

/// A course that goes on had not ended before.
proof fn lemma_running(p: PairModel, events: Seq<EventModel>, n: int)
    requires
        0 <= n <= events.len(),
        !(run::course(p, events).0 is Finished),
    ensures
        !(run::course(p, events.take(n)).0 is Finished),
    decreases events.len() - n,
{
    if n < events.len() {
        lemma_running(p, events, n + 1);
        assert(events.take(n + 1).drop_last() =~= events.take(n));
    } else {
        assert(events.take(n) =~= events);
    }
}

proof fn lemma_way_state(p: PairModel, events: Seq<EventModel>, i: int)
    requires
        0 <= i < p.anchors.len(),
        first(p, events, p.anchors.len() as int),
        !(run::course(p, events).0 is Finished),
    ensures
        run::course(p, events.take(i + 2)).0 matches StateModel::Anchor(_, k) && k == i,
        run::course(p, events.take(i + 2)).1 == EffectModel::ReadCiphertext(
            p.anchors[i].path + path::ciphertext_suffix(),
        ),
    decreases i,
{
    lemma_running(p, events, i + 2);
    let part = events.take(i + 2);
    assert(part.drop_last() =~= events.take(i + 1));
    assert(part.last() == events[i + 1]);
    if i > 0 {
        lemma_way_state(p, events, i - 1);
        assert(p.anchors[i - 1] == p.anchors[i - 1]);
        assert(events[i - 1 + 2] is Ciphertext);
    } else {
        lemma_running(p, events, 1);
        let one = events.take(1);
        assert(one.drop_last() =~= events.take(0));
        assert(events.take(0) =~= Seq::<EventModel>::empty());
        assert(events.take(0).len() == 0);
        assert(run::course(p, events.take(0)).0 is Plaintext);
        law_every_effect_is_warranted(p, one);
        assert(run::course(p, one) == run::seal_step(p, StateModel::Plaintext, one.last()));
        assert(run::course(p, one).0 is Ciphertext);
    }
}

/// Law: a pair with a plaintext and no ciphertext, whose policy has only ciphertexts for
/// exactly its recipients, is sealed: nothing else stops it.
pub proof fn law_aligned_policy_permits_a_first_seal(
    p: PairModel,
    events: Seq<EventModel>,
    d: document::DocumentModel,
)
    requires
        run::desired(p, events, d),
        first(p, events, p.anchors.len() as int),
        pair::payload_of(p.entry.path, d) is Ok,
    ensures
        run::course(p, events).1 == EffectModel::EncryptNew(
            pair::payload_of(p.entry.path, d)->Ok_0,
        ),
{
    lemma_permitted(p, events, d, p.anchors.len() as int);
    assert(events.take(events.len() as int) =~= events);
}

proof fn lemma_permitted(
    p: PairModel,
    events: Seq<EventModel>,
    d: document::DocumentModel,
    i: int,
)
    requires
        0 <= i <= p.anchors.len(),
        run::desired(p, events, d),
        first(p, events, p.anchors.len() as int),
    ensures
        run::course(p, events.take(i + 2)) == run::check_anchors(p, d, i),
    decreases i,
{
    let part = events.take(i + 2);
    assert(part.drop_last() =~= events.take(i + 1));
    assert(part.last() == events[i + 1]);
    if i > 0 {
        lemma_permitted(p, events, d, i - 1);
        let anchor = p.anchors[i - 1];
        assert(events[i - 1 + 2] is Ciphertext);
        let input = events[i + 1]->Ciphertext_0;
        if input is Some {
            law_aligned_sets_have_the_same_names(
                p.policy,
                ciphertext::ciphertext_bytes(input->Some_0, anchor.format)->Ok_0.recipients,
            );
        }
    } else {
        let one = events.take(1);
        assert(one.drop_last() =~= Seq::<EventModel>::empty());
        assert(run::course(p, one.drop_last()).0 is Plaintext);
        assert(one.last() == events[0]);
        assert(run::course(p, one).0 == StateModel::Ciphertext(d));
    }
}

} // verus!
