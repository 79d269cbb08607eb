//! What resolving reports, and what it needs to report it.

use vstd::prelude::*;

use crate::baseline::cipher;
use crate::envelope::ciphertext;
use crate::error::ErrorCategory;
use crate::pair;
use crate::recipient;
use crate::recipient::PolicyModel;
use crate::resolve::plan;
use crate::resolve::plan::MergePlanModel;
use crate::resolve::run;
use crate::resolve::run::{EffectModel, EventModel, MergeModel, OutcomeModel, PairModel, StateModel};
use crate::resolve::step;
use crate::resolve::step::ResolutionModel;
use crate::seal::history;
use crate::semantic::merge;
use crate::semantic::order;
use crate::source::document;
use crate::source::layout;
use crate::source::node;

verus! {

/// Law: a merge of three documents settles every place, and loses nothing. At every place it
/// has what both sides agree on, or else what the one side has that differs from the base.
/// A place at which both sides differ from the base and from each other, and that cannot be
/// merged part by part, never gives a merge.
pub proof fn law_merged_documents_lose_nothing(
    base: document::DocumentModel,
    ours: document::DocumentModel,
    theirs: document::DocumentModel,
    size: nat,
    steps: Seq<node::Step>,
)
    ensures
        plan::planned(base, ours, theirs, size) matches Ok(MergePlanModel::Merged(d)) ==> {
            &&& d.format == ours.format
            &&& merge::reconciled(
                node::tree_at(base.root, steps),
                node::tree_at(ours.root, steps),
                node::tree_at(theirs.root, steps),
                node::tree_at(d.root, steps),
            )
            &&& layout::merged_layout(base.layout, ours.layout, theirs.layout) == Some(d.layout)
        },
{
    if merge::merge_trees(base.root, ours.root, theirs.root).conflicts.len() == 0 {
        merge::law_merge_without_conflict_reconciles_every_place(
            base.root,
            ours.root,
            theirs.root,
            steps,
        );
    }
}

/// Law: three documents give a conflict only where there is one. Its place is one at which
/// base, ours and theirs all differ, or the root where the layouts cannot be merged; and its
/// document shows both sides in full, ours first.
pub proof fn law_conflicts_show_both_sides(
    base: document::DocumentModel,
    ours: document::DocumentModel,
    theirs: document::DocumentModel,
    size: nat,
)
    ensures
        plan::planned(base, ours, theirs, size) matches Ok(MergePlanModel::Conflict {
            path,
            document,
        }) ==> {
            let o = crate::source::format::generated(ours);
            let t = crate::source::format::generated(theirs);
            &&& merge::all_differ(
                node::tree_at(base.root, path),
                node::tree_at(ours.root, path),
                node::tree_at(theirs.root, path),
            ) || (path.len() == 0 && layout::merged_layout(
                base.layout,
                ours.layout,
                theirs.layout,
            ) is None)
            &&& o is Ok && t is Ok
            &&& shows(document, o->Ok_0, t->Ok_0, size)
        },
{
    let outcome = merge::merge_trees(base.root, ours.root, theirs.root);
    if outcome.conflicts.len() > 0 {
        assert(outcome.conflicts.contains(outcome.conflicts[0]));
        merge::law_reported_conflicts_are_real(
            base.root,
            ours.root,
            theirs.root,
            outcome.conflicts[0],
        );
    }
    if plan::conflict_document(ours, theirs, size) is Ok {
        let o = crate::source::format::generated(ours)->Ok_0;
        let t = crate::source::format::generated(theirs)->Ok_0;
        lemma_shows(o, t, size);
    }
}

/// A document shows two sides between markers: ours and then theirs, each in full.
pub open spec fn shows(document: Seq<u8>, ours: Seq<u8>, theirs: Seq<u8>, size: nat) -> bool {
    exists|i: int, j: int|
        size as int <= i && i + ours.len() <= j && j + theirs.len() <= document.len() - size
            && #[trigger] document.subrange(i, i + ours.len()) == ours
            && #[trigger] document.subrange(j, j + theirs.len()) == theirs && (forall|k: int|
            0 <= k < size ==> #[trigger] document[k] == 60)
}

proof fn lemma_shows(ours: Seq<u8>, theirs: Seq<u8>, size: nat)
    ensures
        shows(plan::conflict_bytes(ours, theirs, size), ours, theirs, size),
{
    let document = plan::conflict_bytes(ours, theirs, size);
    let first = crate::bytes::bytes_of(" ours\n"@);
    let last = crate::bytes::bytes_of(" theirs\n"@);
    let i = (size + first.len()) as int;
    let j = (i + plan::ended(ours).len() + size + 1) as int;
    assert(document.subrange(i, i + ours.len()) =~= ours);
    assert(document.subrange(j, j + theirs.len()) =~= theirs);
    assert(forall|k: int| 0 <= k < size ==> #[trigger] document[k] == 60);
}

/// Some recipient of a list is not in a policy.
pub open spec fn left_out(recipients: Seq<Seq<char>>, policy: PolicyModel) -> bool {
    exists|x: Seq<char>| #[trigger] recipients.contains(x) && !policy.recipients.contains(x)
}

proof fn lemma_kept_len(list: Seq<Seq<char>>, a: Seq<Seq<char>>)
    ensures
        order::kept(list, a).len() <= list.len(),
        order::kept(list, a).len() == list.len() <==> forall|x: Seq<char>|
            #[trigger] list.contains(x) ==> a.contains(x),
    decreases list.len(),
{
    reveal(Seq::filter);
    if list.len() > 0 {
        let head = list.drop_last();
        lemma_kept_len(head, a);
        assert(list.contains(list.last()));
        if order::kept(list, a).len() == list.len() {
            assert forall|x: Seq<char>| #[trigger] list.contains(x) implies a.contains(x) by {
                let i = choose|i: int| 0 <= i < list.len() && list[i] == x;
                if i < head.len() {
                    assert(head[i] == x);
                    assert(head.contains(x));
                }
            }
        }
        if forall|x: Seq<char>| #[trigger] list.contains(x) ==> a.contains(x) {
            assert forall|x: Seq<char>| #[trigger] head.contains(x) implies a.contains(x) by {
                let i = choose|i: int| 0 <= i < head.len() && head[i] == x;
                assert(list[i] == x);
                assert(list.contains(x));
            }
        }
    }
}

/// Law: a merge is encrypted under a fresh data key exactly where a recipient of our side is
/// left out, and it is refused where none of them remains. The name of the policy is kept.
pub proof fn law_fresh_key_where_a_recipient_leaves(
    path: Seq<char>,
    cipher: Seq<char>,
    policy: PolicyModel,
    merged: document::DocumentModel,
    payload: Seq<u8>,
    recipients: Seq<Seq<char>>,
)
    ensures
        match step::task_of(path, cipher, policy, merged, payload, recipients) {
            Ok(ResolutionModel::Merged { merged: d, payload: b, target, narrowed }) => {
                &&& d == merged && b == payload
                &&& narrowed is Some <==> left_out(recipients, policy)
                &&& narrowed matches Some(n) ==> n.name == policy.name && n.recipients == target
                &&& exists|x: Seq<char>| #[trigger]
                    recipients.contains(x) && policy.recipients.contains(x)
            },
            Ok(_) => false,
            Err(e) => {
                ||| e.0 == ErrorCategory::Configuration && forall|x: Seq<char>| #[trigger]
                    recipients.contains(x) ==> !policy.recipients.contains(x)
                ||| e.0 == ErrorCategory::Integrity && left_out(recipients, policy)
                    && recipient::policy_fault(
                    step::narrowed_target(recipients, policy.recipients),
                ) is Some
            },
        },
{
    let target = step::narrowed_target(recipients, policy.recipients);
    lemma_kept_len(recipients, policy.recipients);
    if target.len() > 0 {
        step::law_resolve_never_extends_access(
            path,
            cipher,
            policy,
            merged,
            payload,
            recipients,
            target[0],
        );
        step::lemma_kept_members(recipients, policy.recipients, target[0]);
        assert(target.contains(target[0]));
    } else {
        assert forall|x: Seq<char>| #[trigger]
            recipients.contains(x) implies !policy.recipients.contains(x) by {
            step::lemma_kept_members(recipients, policy.recipients, x);
        }
    }
    if target.len() != recipients.len() {
        assert(!(forall|x: Seq<char>| #[trigger]
            recipients.contains(x) ==> policy.recipients.contains(x)));
        let x = choose|x: Seq<char>| #[trigger]
            recipients.contains(x) && !policy.recipients.contains(x);
        assert(left_out(recipients, policy));
    }
}

/// What a merge keeps of our ciphertext: the recipients that the policy holds; and that its
/// data key is fresh exactly where one of them is left out.
pub open spec fn fits(p: PairModel, m: MergeModel) -> bool {
    ciphertext::ciphertext_bytes(p.ours, p.entry.format) matches Ok(own) && m.target
        == step::narrowed_target(own.recipients, p.policy.recipients) && m.rotated == left_out(
        own.recipients,
        p.policy,
    )
}

/// An envelope is for the recipients of our side that the policy holds.
pub open spec fn narrowed_to(p: PairModel, envelope: ciphertext::CiphertextModel) -> bool {
    ciphertext::ciphertext_bytes(p.ours, p.entry.format) matches Ok(own) && forall|x: Seq<char>|
        #[trigger] envelope.recipients.contains(x) <==> own.recipients.contains(x)
            && p.policy.recipients.contains(x)
}

/// What is reported of a merge: that the data key is fresh exactly where a recipient of our
/// side is no longer in the policy, and drift exactly where the policy holds one that our
/// side lacks.
pub open spec fn reported(p: PairModel, outcome: OutcomeModel) -> bool {
    outcome matches OutcomeModel::Resolved { data_key_rotated, recipient_drift } ==> (
    ciphertext::ciphertext_bytes(p.ours, p.entry.format) matches Ok(own) && {
        &&& data_key_rotated <==> left_out(own.recipients, p.policy)
        &&& recipient_drift <==> exists|x: Seq<char>| #[trigger]
            p.policy.recipients.contains(x) && !own.recipients.contains(x)
    })
}

/// What a state knows.
pub open spec fn known(p: PairModel, s: StateModel) -> bool {
    match s {
        StateModel::Encryption(m) => fits(p, m),
        StateModel::Check(m, e, bytes) => fits(p, m) && narrowed_to(p, e)
            && ciphertext::ciphertext_bytes(bytes, p.entry.format) == Ok::<
            ciphertext::CiphertextModel,
            crate::envelope::fault::EnvelopeFault,
        >(e),
        StateModel::WriteCiphertext(m, e, plain) => fits(p, m) && narrowed_to(p, e)
            && crate::source::format::generated(m.merged) == Ok::<
            Seq<u8>,
            document::SourceFault,
        >(plain),
        StateModel::WritePlaintext(m, e) => fits(p, m) && narrowed_to(p, e),
        StateModel::Save(outcome) => reported(p, outcome),
        _ => true,
    }
}

proof fn lemma_resolution_fits(
    p: PairModel,
    base: document::DocumentModel,
    ours: document::DocumentModel,
    theirs: document::DocumentModel,
)
    ensures
        step::resolution_of(
            p.entry.path,
            p.cipher(),
            p.entry.format,
            p.policy,
            (base, ours, theirs),
            p.ours,
        ) matches Ok(r) ==> known(p, run::carry_out(p, r).0) && !(run::carry_out(
            p,
            r,
        ).1 is Finish),
{
    match step::resolution_of(
        p.entry.path,
        p.cipher(),
        p.entry.format,
        p.policy,
        (base, ours, theirs),
        p.ours,
    ) {
        Ok(ResolutionModel::Merged { merged, payload, target, narrowed }) => {
            let own = ciphertext::ciphertext_bytes(p.ours, p.entry.format)->Ok_0;
            law_fresh_key_where_a_recipient_leaves(
                p.entry.path,
                p.cipher(),
                p.policy,
                merged,
                payload,
                own.recipients,
            );
        },
        _ => {},
    }
}

proof fn lemma_members(a: Seq<Seq<char>>, b: Seq<Seq<char>>, x: Seq<char>)
    requires
        a.to_multiset() == b.to_multiset(),
    ensures
        a.contains(x) <==> b.contains(x),
{
    broadcast use vstd::seq_lib::group_to_multiset_ensures;

    assert(a.contains(x) <==> a.to_multiset().count(x) > 0);
    assert(b.contains(x) <==> b.to_multiset().count(x) > 0);
}

proof fn lemma_encrypted(p: PairModel, m: MergeModel, output: Seq<u8>)
    requires
        fits(p, m),
        step::merged_envelope(p.entry.path, p.entry.format, m.target, output) is Ok,
    ensures
        narrowed_to(
            p,
            step::merged_envelope(p.entry.path, p.entry.format, m.target, output)->Ok_0,
        ),
{
    let own = ciphertext::ciphertext_bytes(p.ours, p.entry.format)->Ok_0;
    let envelope = ciphertext::ciphertext_bytes(output, p.entry.format)->Ok_0;
    assert forall|x: Seq<char>| #[trigger]
        envelope.recipients.contains(x) <==> own.recipients.contains(x)
            && p.policy.recipients.contains(x) by {
        lemma_members(envelope.recipients, m.target, x);
        step::lemma_kept_members(own.recipients, p.policy.recipients, x);
    }
}

proof fn lemma_concluded(p: PairModel, m: MergeModel, envelope: ciphertext::CiphertextModel)
    requires
        fits(p, m),
        narrowed_to(p, envelope),
    ensures
        ({
            let (s, e) = run::conclude(p, m, envelope);
            known(p, s) && (e matches EffectModel::Finish(Ok(outcome)) ==> reported(p, outcome))
        }),
{
    let own = ciphertext::ciphertext_bytes(p.ours, p.entry.format)->Ok_0;
    let drift = !crate::seal::step::aligned(p.policy, envelope.recipients);
    history::law_aligned_sets_have_the_same_names(p.policy, envelope.recipients);
    let lacking = exists|x: Seq<char>| #[trigger]
        p.policy.recipients.contains(x) && !own.recipients.contains(x);
    if lacking {
        let x = choose|x: Seq<char>| #[trigger]
            p.policy.recipients.contains(x) && !own.recipients.contains(x);
        assert(!envelope.recipients.contains(x));
    } else {
        assert forall|name: Seq<char>| #[trigger]
            envelope.recipients.contains(name) <==> p.policy.recipients.contains(name) by {}
    }
    assert(drift == lacking);
    assert(reported(
        p,
        OutcomeModel::Resolved { data_key_rotated: m.rotated, recipient_drift: drift },
    ));
}

proof fn lemma_known_step(p: PairModel, s: StateModel, event: EventModel)
    requires
        known(p, s),
    ensures
        known(p, run::resolve_step(p, s, event).0),
        run::resolve_step(p, s, event).1 matches EffectModel::Finish(Ok(outcome)) ==> reported(
            p,
            outcome,
        ),
{
    match (s, event) {
        (StateModel::Theirs(base, ours), EventModel::Decrypted(output)) => {
            match pair::source_of(p.entry.path, p.entry.format, output) {
                Ok(theirs) => {
                    lemma_resolution_fits(p, base, ours, theirs);
                },
                Err(_) => {},
            }
        },
        (StateModel::Encryption(m), EventModel::Encrypted(output)) => {
            if step::merged_envelope(p.entry.path, p.entry.format, m.target, output) is Ok {
                lemma_encrypted(p, m, output);
            }
        },
        (StateModel::WritePlaintext(m, envelope), EventModel::Written) => {
            lemma_concluded(p, m, envelope);
        },
        _ => {},
    }
}

/// Law: whatever happens outside, resolving reports a fresh data key exactly where a
/// recipient of our side is no longer in the policy, and recipient drift exactly where the
/// policy holds a recipient that our side lacks.
pub proof fn law_resolving_reports_what_it_did(p: PairModel, events: Seq<EventModel>)
    ensures
        run::course(p, events).1 matches EffectModel::Finish(Ok(outcome)) ==> reported(p, outcome),
        known(p, run::course(p, events).0),
    decreases events.len(),
{
    if events.len() > 0 {
        law_resolving_reports_what_it_did(p, events.drop_last());
        lemma_known_step(p, run::course(p, events.drop_last()).0, events.last());
    }
}

/// Law: whatever happens outside, a plaintext is written only after a ciphertext: that of the
/// merge, as a document of its format, or that of a conflict, which shows both sides.
pub proof fn law_plaintext_follows_ciphertext(p: PairModel, events: Seq<EventModel>)
    requires
        run::course(p, events).1 is WritePlaintext,
    ensures
        events.len() > 0,
        events.last() == EventModel::Written,
        run::course(p, events.drop_last()).1 is WriteCiphertext,
        match run::course(p, events.drop_last()).0 {
            StateModel::WriteCiphertext(m, _, _) => crate::source::format::generated(m.merged)
                == Ok::<Seq<u8>, document::SourceFault>(run::course(p, events).1->WritePlaintext_0),
            StateModel::KeepOurs(_, document) => run::course(p, events).1->WritePlaintext_0
                == document,
            _ => false,
        },
{
    let before = events.drop_last();
    law_resolving_reports_what_it_did(p, before);
    lemma_writing(p, before);
}

proof fn lemma_writing(p: PairModel, events: Seq<EventModel>)
    ensures
        run::course(p, events).0 is WriteCiphertext || run::course(p, events).0 is KeepOurs
            ==> run::course(p, events).1 is WriteCiphertext,
        run::course(p, events).0 is WritePlaintext ==> run::course(p, events).1 is WritePlaintext
            && events.len() > 0 && run::course(p, events.drop_last()).0 is WriteCiphertext,
{
}

/// Law: whatever happens outside, what is recorded as synchronized is the merged document and
/// the ciphertext that was written for it, after both were written; a conflict is never
/// recorded.
pub proof fn law_only_merges_are_recorded(p: PairModel, events: Seq<EventModel>)
    requires
        run::course(p, events).1 is SaveRecord,
    ensures
        p.recorded,
        events.len() > 0,
        events.last() == EventModel::Written,
        run::course(p, events.drop_last()).1 is WritePlaintext,
        run::course(p, events.drop_last()).0 matches StateModel::WritePlaintext(m, e) && run::course(
            p,
            events,
        ).1->SaveRecord_0 == m.merged && run::course(p, events).1->SaveRecord_1
            == cipher::summary_of(e),
{
    lemma_writing(p, events.drop_last());
}

/// Law: whatever happens outside, resolving encrypts anew exactly where it takes a fresh data
/// key, for the recipients that remain; otherwise it edits our own ciphertext.
pub proof fn law_edit_keeps_the_data_key(p: PairModel, events: Seq<EventModel>)
    ensures
        run::course(p, events).1 matches EffectModel::Edit(bytes, _) ==> bytes == p.ours && (
        run::course(p, events).0 matches StateModel::Encryption(m) && !m.rotated),
        run::course(p, events).1 matches EffectModel::EncryptNew(_, policy) ==> (run::course(
            p,
            events,
        ).0 matches StateModel::Encryption(m) && m.rotated && policy.recipients == m.target
            && policy.name == p.policy.name),
{
    if events.len() > 0 {
        let before = events.drop_last();
        match (run::course(p, before).0, events.last()) {
            (StateModel::Theirs(base, ours), EventModel::Decrypted(output)) => {
                match pair::source_of(p.entry.path, p.entry.format, output) {
                    Ok(theirs) => {
                        lemma_resolution_policy(p, base, ours, theirs);
                    },
                    Err(_) => {},
                }
            },
            _ => {},
        }
    }
}

proof fn lemma_resolution_policy(
    p: PairModel,
    base: document::DocumentModel,
    ours: document::DocumentModel,
    theirs: document::DocumentModel,
)
    ensures
        step::resolution_of(
            p.entry.path,
            p.cipher(),
            p.entry.format,
            p.policy,
            (base, ours, theirs),
            p.ours,
        ) matches Ok(ResolutionModel::Merged { target, narrowed: Some(n), .. }) ==> n.recipients
            == target && n.name == p.policy.name,
{
}

/// Law: whatever happens outside, resolving decrypts only envelopes of the declared format:
/// the stages of the index, the base first where there is one, then ours and then theirs, and
/// the ciphertext that was made of their merge.
pub proof fn law_only_stages_are_decrypted(p: PairModel, events: Seq<EventModel>)
    ensures
        run::course(p, events).1 matches EffectModel::Decrypt(bytes) ==> {
            &&& ciphertext::ciphertext_bytes(bytes, p.entry.format) is Ok
            &&& match run::course(p, events).0 {
                StateModel::Base => p.base == Some(bytes),
                StateModel::Ours(_) => bytes == p.ours,
                StateModel::Theirs(_, _) => bytes == p.theirs,
                StateModel::Check(_, _, written) => bytes == written && events.len() > 0
                    && events.last() == EventModel::Encrypted(bytes),
                _ => false,
            }
        },
        events.len() == 0 && p.base is Some ==> !(run::course(p, events).0 is Ours),
{
}

} // verus!
