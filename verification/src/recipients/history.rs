//! What must have happened before each thing that a change of recipients does.

use vstd::prelude::*;

use crate::baseline::cipher;
use crate::envelope::ciphertext;
use crate::error::ErrorCategory;
use crate::manifest;
use crate::pair;
use crate::recipient::PolicyModel;
use crate::recipients::engine;
use crate::recipients::engine::{EngineModel, ReportModel};
use crate::recipients::plan;
use crate::recipients::plan::ConvergenceAction;
use crate::recipients::run;
use crate::recipients::run::{EffectModel, EventModel, FileModel, StateModel};
use crate::recipients::step;
use crate::recipients::step::RecipientFileOutcome;
use crate::seal::history;
use crate::source::document;

verus! {

/// Law: to change the recipients of a policy leaves every other policy as it is, and the
/// policies in their order.
pub proof fn law_other_policies_are_kept(
    policies: Seq<PolicyModel>,
    name: Seq<char>,
    recipients: Seq<Seq<char>>,
    other: Seq<char>,
)
    ensures
        ({
            let changed = manifest::with_recipients(policies, name, recipients);
            &&& changed.len() == policies.len()
            &&& forall|i: int|
                0 <= i < policies.len() ==> (#[trigger] changed[i]).name == policies[i].name
            &&& other != name ==> manifest::policy_of(changed, other) == manifest::policy_of(
                policies,
                other,
            )
            &&& manifest::policy_of(policies, name) is Some ==> manifest::policy_of(changed, name)
                == Some(PolicyModel { name, recipients })
        }),
    decreases policies.len(),
{
    let changed = manifest::with_recipients(policies, name, recipients);
    if policies.len() > 0 {
        law_other_policies_are_kept(policies.skip(1), name, recipients, other);
        assert(changed.skip(1) =~= manifest::with_recipients(
            policies.skip(1),
            name,
            recipients,
        ));
    }
}

/// Law: a change of a policy is planned from the recipients that the policy has, and is
/// refused where the manifest lacks the policy or the plan is.
pub proof fn law_changes_follow_the_plan(
    m: manifest::ManifestModel,
    name: Seq<char>,
    mutation: plan::MutationModel,
    files: Seq<plan::FactsModel>,
)
    ensures
        match (manifest::policy_of(m.policies, name), step::change_of(m, name, mutation, files)) {
            (None, r) => r is Err,
            (Some(policy), Ok(change)) => plan::authorization(policy.recipients, mutation, files)
                == Ok::<plan::PlanModel, plan::RejectionModel>(change.plan),
            (Some(policy), Err(e)) => plan::authorization(
                policy.recipients,
                mutation,
                files,
            ) is Err ==> e.0 == ErrorCategory::Configuration,
        },
{
}

/// Law: an entry contributes the recipients of its ciphertext, and none where it has no
/// ciphertext; one that cannot be read contributes nothing.
pub proof fn law_facts_are_what_is_there(entry: manifest::EntryModel, input: Option<Seq<u8>>)
    ensures
        match step::facts_for(entry, input) {
            Ok(facts) => facts.path == entry.path && match input {
                None => facts.recipients is None,
                Some(bytes) => ciphertext::ciphertext_bytes(bytes, entry.format) matches Ok(e)
                    && facts.recipients == Some(e.recipients),
            },
            Err(_) => input matches Some(bytes) && ciphertext::ciphertext_bytes(
                bytes,
                entry.format,
            ) is Err,
        },
{
}

/// A new ciphertext has every encrypted value and the layout of the old one.
pub open spec fn same_data(f: FileModel, bytes: Seq<u8>) -> bool {
    ciphertext::ciphertext_bytes(f.bytes, f.entry.format) matches Ok(old) && (
    ciphertext::ciphertext_bytes(bytes, f.entry.format) matches Ok(new) && old.layout == new.layout
        && old.leaves.len() == new.leaves.len() && (forall|i: int|
        0 <= i < old.leaves.len() ==> new.leaves.contains(#[trigger] old.leaves[i])))
}

/// What the new ciphertext of a file must be: for exactly the recipients of the policy; with
/// the same encrypted values where it was rewrapped, and decrypted to the document of the old
/// one where it has a fresh data key.
pub open spec fn converged(
    f: FileModel,
    action: ConvergenceAction,
    events: Seq<EventModel>,
    bytes: Seq<u8>,
) -> bool {
    &&& history::sealed_to(f.policy, f.entry.format, bytes)
    &&& match action {
        ConvergenceAction::AlreadyAligned => false,
        ConvergenceAction::Rewrap => same_data(f, bytes) && events.len() > 0 && events[0]
            == EventModel::Encrypted(bytes),
        ConvergenceAction::Rotate => events.len() > 1 && events[0] == EventModel::Encrypted(bytes)
            && (events[1] matches EventModel::Decrypted(output) && pair::source_of(
            f.entry.path,
            f.entry.format,
            output,
        ) == Ok::<document::DocumentModel, (ErrorCategory, Seq<char>)>(f.document)),
    }
}

/// What is reported of each action.
pub open spec fn outcome_of(action: ConvergenceAction) -> RecipientFileOutcome {
    match action {
        ConvergenceAction::AlreadyAligned => RecipientFileOutcome::AlreadyAligned,
        ConvergenceAction::Rewrap => RecipientFileOutcome::Rewrapped,
        ConvergenceAction::Rotate => RecipientFileOutcome::DataKeyRotated,
    }
}

/// A ciphertext was converged and written.
pub open spec fn written(
    f: FileModel,
    action: ConvergenceAction,
    events: Seq<EventModel>,
) -> bool {
    &&& events.contains(EventModel::Written)
    &&& exists|bytes: Seq<u8>| #[trigger] converged(f, action, events, bytes)
}

/// What a state knows of the events that led to it.
pub open spec fn known(
    f: FileModel,
    action: ConvergenceAction,
    events: Seq<EventModel>,
    s: StateModel,
) -> bool {
    match s {
        StateModel::Rewrapped => action == ConvergenceAction::Rewrap && events.len() == 0,
        StateModel::Rotated => action == ConvergenceAction::Rotate && events.len() == 0,
        StateModel::Check(bytes) => action == ConvergenceAction::Rotate && events.len() == 1
            && events[0] == EventModel::Encrypted(bytes) && history::sealed_to(
            f.policy,
            f.entry.format,
            bytes,
        ),
        StateModel::Write(bytes, outcome) => outcome == outcome_of(action) && converged(
            f,
            action,
            events,
            bytes,
        ),
        StateModel::Save(outcome) => outcome == outcome_of(action) && written(f, action, events),
        StateModel::Finished => true,
    }
}

/// What an effect needs of the events that led to it.
pub open spec fn warranted(
    f: FileModel,
    action: ConvergenceAction,
    events: Seq<EventModel>,
    e: EffectModel,
) -> bool {
    match e {
        EffectModel::Rewrap(bytes) => action == ConvergenceAction::Rewrap && bytes == f.bytes,
        EffectModel::EncryptNew(payload) => action == ConvergenceAction::Rotate && pair::payload_of(
            f.entry.path,
            f.document,
        ) == Ok::<Seq<u8>, (ErrorCategory, Seq<char>)>(payload),
        EffectModel::Decrypt(bytes) => action == ConvergenceAction::Rotate && history::sealed_to(
            f.policy,
            f.entry.format,
            bytes,
        ),
        EffectModel::WriteCiphertext(bytes) => converged(f, action, events, bytes),
        EffectModel::SaveRecord(d, c) => d == f.document && written(f, action, events)
            && summarised(f, action, events, c),
        EffectModel::Finish(Ok(outcome)) => outcome == outcome_of(action) && (action
            == ConvergenceAction::AlreadyAligned || written(f, action, events)),
        EffectModel::Finish(Err(_)) => true,
    }
}

/// A summary is that of the ciphertext that was written.
pub open spec fn summarised(
    f: FileModel,
    action: ConvergenceAction,
    events: Seq<EventModel>,
    c: cipher::CipherModel,
) -> bool {
    exists|bytes: Seq<u8>| #[trigger]
        converged(f, action, events, bytes) && c == cipher::summary_of(
            ciphertext::ciphertext_bytes(bytes, f.entry.format)->Ok_0,
        )
}

proof fn lemma_later(
    f: FileModel,
    action: ConvergenceAction,
    events: Seq<EventModel>,
    event: EventModel,
)
    ensures
        forall|bytes: Seq<u8>|
            converged(f, action, events, bytes) ==> #[trigger] converged(
                f,
                action,
                events.push(event),
                bytes,
            ),
        written(f, action, events) ==> written(f, action, events.push(event)),
{
    let more = events.push(event);
    assert(forall|i: int| 0 <= i < events.len() ==> #[trigger] more[i] == events[i]);
    assert forall|bytes: Seq<u8>| converged(f, action, events, bytes) implies #[trigger] converged(
        f,
        action,
        more,
        bytes,
    ) by {
        if events.len() > 0 {
            assert(more[0] == events[0]);
        }
        if events.len() > 1 {
            assert(more[1] == events[1]);
        }
    }
    if written(f, action, events) {
        let i = choose|i: int| 0 <= i < events.len() && events[i] == EventModel::Written;
        assert(more[i] == EventModel::Written);
        let bytes = choose|bytes: Seq<u8>| #[trigger] converged(f, action, events, bytes);
        assert(converged(f, action, more, bytes));
    }
}

proof fn lemma_sealed(f: FileModel, bytes: Seq<u8>)
    ensures
        step::authorized_envelope(f.entry.path, f.entry.format, f.policy, bytes) is Ok
            <==> history::sealed_to(f.policy, f.entry.format, bytes),
{
    if ciphertext::ciphertext_bytes(bytes, f.entry.format) is Ok {
        history::law_aligned_sets_have_the_same_names(
            f.policy,
            ciphertext::ciphertext_bytes(bytes, f.entry.format)->Ok_0.recipients,
        );
    }
}

proof fn lemma_known_step(
    f: FileModel,
    action: ConvergenceAction,
    events: Seq<EventModel>,
    s: StateModel,
    event: EventModel,
)
    requires
        known(f, action, events, s),
    ensures
        known(f, action, events.push(event), run::converge_step(f, s, event).0),
        warranted(f, action, events.push(event), run::converge_step(f, s, event).1),
{
    let more = events.push(event);
    lemma_later(f, action, events, event);
    match (s, event) {
        (StateModel::Rewrapped, EventModel::Encrypted(output)) => {
            lemma_sealed(f, output);
            assert(more[0] == event);
        },
        (StateModel::Rotated, EventModel::Encrypted(output)) => {
            lemma_sealed(f, output);
            assert(more[0] == event);
        },
        (StateModel::Check(bytes), EventModel::Decrypted(output)) => {
            assert(more[0] == events[0]);
            assert(more[1] == event);
        },
        (StateModel::Write(bytes, outcome), EventModel::Written) => {
            assert(more[more.len() - 1] == EventModel::Written);
            assert(converged(f, action, more, bytes));
            assert(written(f, action, more));
            let envelope = ciphertext::ciphertext_bytes(bytes, f.entry.format)->Ok_0;
            assert(summarised(f, action, more, cipher::summary_of(envelope)));
        },
        _ => {},
    }
}

/// Law: whatever happens outside, a change of a file does each thing only after what it
/// needs. What is written is for exactly the recipients of the policy; a rewrapped file keeps
/// every encrypted value and its layout, and one with a fresh data key was decrypted to the
/// same document; what is recorded is that document and the ciphertext that was written; and
/// a file is reported as rewrapped, as rotated or as aligned where that is what was asked for
/// and done. An aligned file is never written.
pub proof fn law_every_effect_is_warranted(
    f: FileModel,
    action: ConvergenceAction,
    events: Seq<EventModel>,
)
    ensures
        warranted(f, action, events, run::course(f, action, events).1),
        known(f, action, events, run::course(f, action, events).0),
    decreases events.len(),
{
    if events.len() > 0 {
        let before = events.drop_last();
        law_every_effect_is_warranted(f, action, before);
        lemma_known_step(f, action, before, run::course(f, action, before).0, events.last());
        assert(before.push(events.last()) =~= events);
    }
}

/// A file was decrypted on trial.
pub open spec fn succeeded(event: engine::EventModel) -> bool {
    event matches engine::EventModel::Decrypted(Ok(_))
}

/// What the trial of the first files gave: those that could be decrypted, in order, and a
/// report of each other one.
pub open spec fn tried(
    events: Seq<engine::EventModel>,
    n: int,
    ready: Seq<int>,
    failures: Seq<ReportModel>,
) -> bool {
    &&& 0 <= n <= events.len()
    &&& n == ready.len() + failures.len()
    &&& forall|j: int|
        0 <= j < n ==> (#[trigger] events[j] matches engine::EventModel::Decrypted(r) && match r {
            Ok(_) => ready.contains(j),
            Err(fault) => failures.contains(ReportModel { file: j, result: Err(fault) }),
        })
    &&& forall|i: int| 0 <= i < ready.len() ==> 0 <= #[trigger] ready[i] < n
    &&& forall|i: int, k: int| 0 <= i < k < ready.len() ==> ready[i] < ready[k]
    &&& forall|i: int|
        0 <= i < ready.len() ==> succeeded(events[#[trigger] ready[i]])
}

/// What a state of a convergence knows of the events that led to it.
pub open spec fn informed(
    m: EngineModel,
    events: Seq<engine::EventModel>,
    s: engine::StateModel,
) -> bool {
    match s {
        engine::StateModel::Preflight { file, ready, failures } => file == events.len() && file
            < m.count && tried(events, file, ready, failures),
        engine::StateModel::Manifest { ready, failures } => tried(
            events,
            m.count as int,
            ready,
            failures,
        ),
        engine::StateModel::Publication { ready, failures } => tried(
            events,
            m.count as int,
            ready,
            failures,
        ),
        engine::StateModel::Convergence { at, ready, reports, failures } => tried(
            events,
            m.count as int,
            ready,
            failures,
        ) && 0 <= at < ready.len() && matched(at, ready, reports),
        engine::StateModel::Finished => true,
    }
}

/// There is a report of each of the first files, in their order.
pub open spec fn matched(at: int, ready: Seq<int>, reports: Seq<ReportModel>) -> bool {
    reports.len() == at && forall|i: int|
        0 <= i < at ==> (#[trigger] reports[i]).file == ready[i]
}

/// Reports that cover every file once: first those that were changed, in their order, and
/// then those that could not be decrypted.
pub open spec fn complete(
    m: EngineModel,
    events: Seq<engine::EventModel>,
    all: Seq<ReportModel>,
) -> bool {
    exists|ready: Seq<int>, reports: Seq<ReportModel>, failures: Seq<ReportModel>| #[trigger]
        tried(events, m.count as int, ready, failures) && all == reports + failures
            && #[trigger] matched(ready.len() as int, ready, reports)
}

proof fn lemma_tried_later(
    events: Seq<engine::EventModel>,
    event: engine::EventModel,
    n: int,
    ready: Seq<int>,
    failures: Seq<ReportModel>,
)
    requires
        tried(events, n, ready, failures),
    ensures
        tried(events.push(event), n, ready, failures),
{
    let more = events.push(event);
    assert forall|j: int| 0 <= j < n implies (
    #[trigger] more[j] matches engine::EventModel::Decrypted(r) && match r {
        Ok(_) => ready.contains(j),
        Err(fault) => failures.contains(ReportModel { file: j, result: Err(fault) }),
    }) by {
        assert(more[j] == events[j]);
    }
    assert forall|i: int| 0 <= i < ready.len() implies succeeded(
        more[#[trigger] ready[i]],
    ) by {
        assert(more[ready[i]] == events[ready[i]]);
    }
}

proof fn lemma_tried_more(
    events: Seq<engine::EventModel>,
    result: Result<(), (ErrorCategory, Seq<char>)>,
    n: int,
    ready: Seq<int>,
    failures: Seq<ReportModel>,
)
    requires
        n == events.len(),
        tried(events, n, ready, failures),
    ensures
        ({
            let more = events.push(engine::EventModel::Decrypted(result));
            match result {
                Ok(_) => tried(more, n + 1, ready.push(n), failures),
                Err(fault) => tried(
                    more,
                    n + 1,
                    ready,
                    failures.push(ReportModel { file: n, result: Err(fault) }),
                ),
            }
        }),
{
    let more = events.push(engine::EventModel::Decrypted(result));
    lemma_tried_later(events, engine::EventModel::Decrypted(result), n, ready, failures);
    let (now_ready, now_failures) = match result {
        Ok(_) => (ready.push(n), failures),
        Err(fault) => (ready, failures.push(ReportModel { file: n, result: Err(fault) })),
    };
    assert forall|j: int| 0 <= j < n + 1 implies (
    #[trigger] more[j] matches engine::EventModel::Decrypted(r) && match r {
        Ok(_) => now_ready.contains(j),
        Err(fault) => now_failures.contains(ReportModel { file: j, result: Err(fault) }),
    }) by {
        if j < n {
            match more[j]->Decrypted_0 {
                Ok(_) => {
                    let i = choose|i: int| 0 <= i < ready.len() && ready[i] == j;
                    assert(now_ready[i] == j);
                },
                Err(fault) => {
                    let x = ReportModel { file: j, result: Err(fault) };
                    let i = choose|i: int| 0 <= i < failures.len() && failures[i] == x;
                    assert(now_failures[i] == x);
                },
            }
        } else {
            match result {
                Ok(_) => {
                    assert(now_ready[ready.len() as int] == n);
                },
                Err(fault) => {
                    assert(now_failures[failures.len() as int] == (ReportModel {
                        file: n,
                        result: Err(fault),
                    }));
                },
            }
        }
    }
    assert forall|i: int| 0 <= i < now_ready.len() implies succeeded(
        more[#[trigger] now_ready[i]],
    ) by {
        if i < ready.len() {
            assert(now_ready[i] == ready[i]);
            assert(succeeded(more[ready[i]]));
        }
    }
    assert forall|i: int| 0 <= i < now_ready.len() implies 0 <= #[trigger] now_ready[i] < n + 1 by {
        if i < ready.len() {
            assert(now_ready[i] == ready[i]);
        }
    }
    assert forall|i: int, k: int| 0 <= i < k < now_ready.len() implies now_ready[i]
        < now_ready[k] by {
        assert(now_ready[i] == ready[i]);
        if k < ready.len() {
            assert(now_ready[k] == ready[k]);
        }
    }
}

proof fn lemma_convergence(
    m: EngineModel,
    events: Seq<engine::EventModel>,
    at: int,
    ready: Seq<int>,
    reports: Seq<ReportModel>,
    failures: Seq<ReportModel>,
)
    requires
        tried(events, m.count as int, ready, failures),
        0 <= at <= ready.len(),
        matched(at, ready, reports),
    ensures
        informed(m, events, engine::convergence(at, ready, reports, failures).0),
        engine::convergence(
            at,
            ready,
            reports,
            failures,
        ).1 matches engine::EffectModel::Finish(Ok(all)) ==> complete(m, events, all),
{
    if at == ready.len() {
        assert(matched(ready.len() as int, ready, reports));
        assert(complete(m, events, reports + failures));
    }
}

proof fn lemma_preflight(
    m: EngineModel,
    events: Seq<engine::EventModel>,
    file: int,
    ready: Seq<int>,
    failures: Seq<ReportModel>,
)
    requires
        file == events.len(),
        file <= m.count,
        tried(events, file, ready, failures),
    ensures
        informed(m, events, engine::preflight(m, file, ready, failures).0),
        engine::preflight(m, file, ready, failures).1 matches engine::EffectModel::Finish(Ok(all))
            ==> complete(m, events, all),
{
    if file == m.count && !m.changed {
        lemma_convergence(m, events, 0, ready, Seq::empty(), failures);
    }
}

proof fn lemma_informed_step(
    m: EngineModel,
    events: Seq<engine::EventModel>,
    s: engine::StateModel,
    event: engine::EventModel,
)
    requires
        informed(m, events, s),
    ensures
        informed(m, events.push(event), engine::engine_step(m, s, event).0),
        engine::engine_step(m, s, event).1 matches engine::EffectModel::Finish(Ok(all))
            ==> complete(m, events.push(event), all),
{
    let more = events.push(event);
    match (s, event) {
        (
            engine::StateModel::Preflight { file, ready, failures },
            engine::EventModel::Decrypted(result),
        ) => {
            lemma_tried_more(events, result, file, ready, failures);
            match result {
                Ok(_) => {
                    lemma_preflight(m, more, file + 1, ready.push(file), failures);
                },
                Err(fault) => {
                    lemma_preflight(
                        m,
                        more,
                        file + 1,
                        ready,
                        failures.push(ReportModel { file, result: Err(fault) }),
                    );
                },
            }
        },
        (
            engine::StateModel::Manifest { ready, failures },
            engine::EventModel::Manifest(current),
        ) => {
            lemma_tried_later(events, event, m.count as int, ready, failures);
        },
        (
            engine::StateModel::Publication { ready, failures },
            engine::EventModel::Published,
        ) => {
            lemma_tried_later(events, event, m.count as int, ready, failures);
            lemma_convergence(m, more, 0, ready, Seq::empty(), failures);
        },
        (
            engine::StateModel::Convergence { at, ready, reports, failures },
            engine::EventModel::Converged(result),
        ) => {
            lemma_tried_later(events, event, m.count as int, ready, failures);
            let now = reports.push(ReportModel { file: ready[at], result });
            assert(matched(at + 1, ready, now));
            lemma_convergence(m, more, at + 1, ready, now, failures);
        },
        _ => {},
    }
}

/// Law: whatever happens outside, a convergence that ends well reports on every file: in
/// their order on those that could be decrypted on trial, each with what its change gave, and
/// then on the others, each with why it could not be decrypted.
pub proof fn law_every_file_is_reported(m: EngineModel, events: Seq<engine::EventModel>)
    ensures
        engine::course(m, events).1 matches engine::EffectModel::Finish(Ok(all)) ==> complete(
            m,
            events,
            all,
        ),
        informed(m, events, engine::course(m, events).0),
    decreases events.len(),
{
    if events.len() > 0 {
        let before = events.drop_last();
        law_every_file_is_reported(m, before);
        lemma_informed_step(m, before, engine::course(m, before).0, events.last());
        assert(before.push(events.last()) =~= events);
    } else {
        lemma_preflight(m, events, 0, Seq::empty(), Seq::empty());
    }
}

/// Law: whatever happens outside, a file is changed only where it could be decrypted on
/// trial, and the manifest is published only where it is as it was read.
pub proof fn law_only_readable_files_are_changed(m: EngineModel, events: Seq<engine::EventModel>)
    ensures
        engine::course(m, events).1 matches engine::EffectModel::Converge(file) ==> 0 <= file
            < m.count && file < events.len() && succeeded(events[file]),
        engine::course(m, events).1 is Publish ==> m.changed && events.len() > 0 && events.last()
            == engine::EventModel::Manifest(Some(m.preparation.original)),
    decreases events.len(),
{
    law_every_file_is_reported(m, events);
    lemma_converging(m, events);
    if engine::course(m, events).1 is Converge {
        match engine::course(m, events).0 {
            engine::StateModel::Convergence { at, ready, .. } => {
                assert(0 <= ready[at] < m.count);
                assert(succeeded(events[ready[at]]));
            },
            _ => {},
        }
    }
    if engine::course(m, events).1 is Publish {
        lemma_manifest_is_read(m, events.drop_last());
    }
}

proof fn lemma_converging(m: EngineModel, events: Seq<engine::EventModel>)
    ensures
        engine::course(m, events).1 matches engine::EffectModel::Converge(file) ==> (
        engine::course(m, events).0 matches engine::StateModel::Convergence { at, ready, .. } && at
            < ready.len() && ready[at] == file),
        engine::course(m, events).1 is Publish ==> events.len() > 0 && engine::course(
            m,
            events.drop_last(),
        ).0 is Manifest && events.last() == engine::EventModel::Manifest(
            Some(m.preparation.original),
        ),
{
}

proof fn lemma_manifest_is_read(m: EngineModel, events: Seq<engine::EventModel>)
    ensures
        engine::course(m, events).0 is Manifest ==> m.changed,
{
}

} // verus!
