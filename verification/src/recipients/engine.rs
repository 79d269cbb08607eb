//! The course of a convergence: every file is decrypted on trial, the manifest is
//! published, and only then the files are changed, one after another.

use vstd::prelude::*;

use crate::error::{ErrorCategory, GitveilError};
use crate::manifest_document;
use crate::manifest_document::{ManifestPreparation, PreparationModel};
use crate::recipients::step;
use crate::recipients::step::RecipientFileOutcome;
use crate::seal::run as seal;

verus! {

/// What became of one file.
pub struct FileReport {
    pub file: usize,
    pub result: Result<RecipientFileOutcome, GitveilError>,
}

pub struct ReportModel {
    pub file: int,
    pub result: Result<RecipientFileOutcome, (ErrorCategory, Seq<char>)>,
}

impl View for FileReport {
    type V = ReportModel;

    open spec fn view(&self) -> ReportModel {
        ReportModel {
            file: self.file as int,
            result: match self.result {
                Ok(outcome) => Ok(outcome),
                Err(error) => Err(error@),
            },
        }
    }
}

pub open spec fn report_models(reports: Seq<FileReport>) -> Seq<ReportModel> {
    Seq::new(reports.len(), |i: int| reports[i]@)
}

pub open spec fn indices(files: Seq<usize>) -> Seq<int> {
    Seq::new(files.len(), |i: int| files[i] as int)
}

/// What is to be done outside.
pub enum EngineEffect {
    /// Decrypt a file on trial.
    Decrypt(usize),
    ReadManifest,
    Publish,
    Converge(usize),
    Finish(Result<Vec<FileReport>, GitveilError>),
}

/// What came of it.
pub enum EngineEvent {
    Decrypted(Result<(), GitveilError>),
    Manifest(Option<Vec<u8>>),
    Published,
    Converged(Result<RecipientFileOutcome, GitveilError>),
    /// The outside work failed.
    Failed(GitveilError),
}

pub enum EffectModel {
    Decrypt(int),
    ReadManifest,
    Publish,
    Converge(int),
    Finish(Result<Seq<ReportModel>, (ErrorCategory, Seq<char>)>),
}

pub enum EventModel {
    Decrypted(Result<(), (ErrorCategory, Seq<char>)>),
    Manifest(Option<Seq<u8>>),
    Published,
    Converged(Result<RecipientFileOutcome, (ErrorCategory, Seq<char>)>),
    Failed((ErrorCategory, Seq<char>)),
}

impl View for EngineEvent {
    type V = EventModel;

    open spec fn view(&self) -> EventModel {
        match *self {
            EngineEvent::Decrypted(Ok(_)) => EventModel::Decrypted(Ok(())),
            EngineEvent::Decrypted(Err(e)) => EventModel::Decrypted(Err(e@)),
            EngineEvent::Manifest(input) => EventModel::Manifest(seal::view_bytes(input)),
            EngineEvent::Published => EventModel::Published,
            EngineEvent::Converged(Ok(outcome)) => EventModel::Converged(Ok(outcome)),
            EngineEvent::Converged(Err(e)) => EventModel::Converged(Err(e@)),
            EngineEvent::Failed(e) => EventModel::Failed(e@),
        }
    }
}

impl View for EngineEffect {
    type V = EffectModel;

    open spec fn view(&self) -> EffectModel {
        match *self {
            EngineEffect::Decrypt(file) => EffectModel::Decrypt(file as int),
            EngineEffect::ReadManifest => EffectModel::ReadManifest,
            EngineEffect::Publish => EffectModel::Publish,
            EngineEffect::Converge(file) => EffectModel::Converge(file as int),
            EngineEffect::Finish(Ok(reports)) => EffectModel::Finish(Ok(report_models(reports@))),
            EngineEffect::Finish(Err(e)) => EffectModel::Finish(Err(e@)),
        }
    }
}

/// What is awaited. `ready` are the files that were decrypted, `failures` the reports
/// of those that were not.
enum EngineState {
    Preflight { file: usize, ready: Vec<usize>, failures: Vec<FileReport> },
    Manifest { ready: Vec<usize>, failures: Vec<FileReport> },
    Publication { ready: Vec<usize>, failures: Vec<FileReport> },
    Convergence {
        at: usize,
        ready: Vec<usize>,
        reports: Vec<FileReport>,
        failures: Vec<FileReport>,
    },
    Finished,
}

pub enum StateModel {
    Preflight { file: int, ready: Seq<int>, failures: Seq<ReportModel> },
    Manifest { ready: Seq<int>, failures: Seq<ReportModel> },
    Publication { ready: Seq<int>, failures: Seq<ReportModel> },
    Convergence {
        at: int,
        ready: Seq<int>,
        reports: Seq<ReportModel>,
        failures: Seq<ReportModel>,
    },
    Finished,
}

spec fn view_state(s: EngineState) -> StateModel {
    match s {
        EngineState::Preflight { file, ready, failures } => StateModel::Preflight {
            file: file as int,
            ready: indices(ready@),
            failures: report_models(failures@),
        },
        EngineState::Manifest { ready, failures } => StateModel::Manifest {
            ready: indices(ready@),
            failures: report_models(failures@),
        },
        EngineState::Publication { ready, failures } => StateModel::Publication {
            ready: indices(ready@),
            failures: report_models(failures@),
        },
        EngineState::Convergence { at, ready, reports, failures } => StateModel::Convergence {
            at: at as int,
            ready: indices(ready@),
            reports: report_models(reports@),
            failures: report_models(failures@),
        },
        EngineState::Finished => StateModel::Finished,
    }
}

spec fn valid_state(count: usize, s: EngineState) -> bool {
    match s {
        EngineState::Preflight { file, .. } => file < count,
        EngineState::Convergence { at, ready, .. } => at < ready@.len(),
        _ => true,
    }
}

/// What is converged: how many files, and the manifest that is published before them,
/// where it changed.
pub struct EngineModel {
    pub count: nat,
    pub preparation: PreparationModel,
    pub changed: bool,
}

pub open spec fn finished(r: Result<Seq<ReportModel>, (ErrorCategory, Seq<char>)>) -> (
    StateModel,
    EffectModel,
) {
    (StateModel::Finished, EffectModel::Finish(r))
}

/// A result that no outside work was asked for.
pub open spec fn unexpected() -> (ErrorCategory, Seq<char>) {
    (ErrorCategory::Integrity, "recipient convergence received a result that it did not ask for"@)
}

/// The next file is changed, or the reports are complete.
pub open spec fn convergence(
    at: int,
    ready: Seq<int>,
    reports: Seq<ReportModel>,
    failures: Seq<ReportModel>,
) -> (StateModel, EffectModel) {
    if at < ready.len() {
        (
            StateModel::Convergence { at, ready, reports, failures },
            EffectModel::Converge(ready[at]),
        )
    } else {
        finished(Ok(reports + failures))
    }
}

/// The manifest is published where it changed.
pub open spec fn publication(
    m: EngineModel,
    ready: Seq<int>,
    failures: Seq<ReportModel>,
) -> (StateModel, EffectModel) {
    if m.changed {
        (StateModel::Manifest { ready, failures }, EffectModel::ReadManifest)
    } else {
        convergence(0, ready, Seq::empty(), failures)
    }
}

/// The next file is decrypted on trial, or the outcome of the trial is judged.
pub open spec fn preflight(
    m: EngineModel,
    file: int,
    ready: Seq<int>,
    failures: Seq<ReportModel>,
) -> (StateModel, EffectModel) {
    if file < m.count {
        (StateModel::Preflight { file, ready, failures }, EffectModel::Decrypt(file))
    } else if ready.len() == 0 && failures.len() > 0 {
        finished(
            Err(
                match failures[0].result {
                    Err(fault) => fault,
                    Ok(_) => (
                        ErrorCategory::Integrity,
                        "recipient convergence preflight produced no result"@,
                    ),
                },
            ),
        )
    } else {
        publication(m, ready, failures)
    }
}

/// One step of a convergence: what is awaited next, and what is done for it.
pub open spec fn engine_step(m: EngineModel, state: StateModel, event: EventModel) -> (
    StateModel,
    EffectModel,
) {
    match (state, event) {
        (_, EventModel::Failed(fault)) => finished(Err(fault)),
        (
            StateModel::Preflight { file, ready, failures },
            EventModel::Decrypted(result),
        ) => match result {
            Ok(_) => preflight(m, file + 1, ready.push(file), failures),
            Err(fault) => preflight(
                m,
                file + 1,
                ready,
                failures.push(ReportModel { file, result: Err(fault) }),
            ),
        },
        (StateModel::Manifest { ready, failures }, EventModel::Manifest(current)) => if current
            == Some(m.preparation.original) {
            (StateModel::Publication { ready, failures }, EffectModel::Publish)
        } else {
            finished(Err(manifest_document::changed_fault("gitveil recipient"@)))
        },
        (StateModel::Publication { ready, failures }, EventModel::Published) => convergence(
            0,
            ready,
            Seq::empty(),
            failures,
        ),
        (
            StateModel::Convergence { at, ready, reports, failures },
            EventModel::Converged(result),
        ) => convergence(
            at + 1,
            ready,
            reports.push(ReportModel { file: ready[at], result }),
            failures,
        ),
        _ => finished(Err(unexpected())),
    }
}

/// A convergence of the files of one policy.
pub struct Engine {
    count: usize,
    preparation: ManifestPreparation,
    changed: bool,
    state: EngineState,
}

pub struct RunModel {
    pub engine: EngineModel,
    pub state: StateModel,
}

impl View for Engine {
    type V = RunModel;

    closed spec fn view(&self) -> RunModel {
        RunModel {
            engine: EngineModel {
                count: self.count as nat,
                preparation: self.preparation@,
                changed: self.changed,
            },
            state: view_state(self.state),
        }
    }
}

fn fail(error: GitveilError) -> (r: (EngineState, EngineEffect))
    ensures
        view_state(r.0) == StateModel::Finished,
        r.1@ == EffectModel::Finish(Err(error@)),
        forall|count: usize| valid_state(count, r.0),
{
    (EngineState::Finished, EngineEffect::Finish(Err(error)))
}

fn converge_next(
    at: usize,
    ready: Vec<usize>,
    reports: Vec<FileReport>,
    failures: Vec<FileReport>,
) -> (r: (EngineState, EngineEffect))
    ensures
        ({
            let next = convergence(
                at as int,
                indices(ready@),
                report_models(reports@),
                report_models(failures@),
            );
            view_state(r.0) == next.0 && r.1@ == next.1
        }),
        forall|count: usize| valid_state(count, r.0),
{
    if at < ready.len() {
        let file: usize = ready[at];
        (
            EngineState::Convergence { at, ready, reports, failures },
            EngineEffect::Converge(file),
        )
    } else {
        let mut all = reports;
        let mut rest = failures;
        all.append(&mut rest);
        assert(report_models(all@) =~= report_models(reports@) + report_models(failures@));
        (EngineState::Finished, EngineEffect::Finish(Ok(all)))
    }
}

impl Engine {
    #[verifier::type_invariant]
    spec fn valid(self) -> bool {
        valid_state(self.count, self.state)
    }

    /// Begins a convergence of so many files, none of which is aligned yet. The
    /// manifest is published where it `changed`.
    pub fn start(count: usize, preparation: ManifestPreparation, changed: bool) -> (r: (
        Engine,
        EngineEffect,
    ))
        ensures
            ({
                let m = EngineModel { count: count as nat, preparation: preparation@, changed };
                let next = preflight(m, 0, Seq::empty(), Seq::empty());
                r.0@ == RunModel { engine: m, state: next.0 } && r.1@ == next.1
            }),
    {
        let run = Engine { count, preparation, changed, state: EngineState::Finished };
        let ready: Vec<usize> = Vec::new();
        let failures: Vec<FileReport> = Vec::new();
        assert(indices(ready@) =~= Seq::empty());
        assert(report_models(failures@) =~= Seq::empty());
        let (state, effect) = run.preflight_next(0, ready, failures);
        let Engine { count, preparation, changed, .. } = run;
        (Engine { count, preparation, changed, state }, effect)
    }

    fn preflight_next(&self, file: usize, ready: Vec<usize>, failures: Vec<FileReport>) -> (r: (
        EngineState,
        EngineEffect,
    ))
        ensures
            ({
                let next = preflight(
                    self@.engine,
                    file as int,
                    indices(ready@),
                    report_models(failures@),
                );
                view_state(r.0) == next.0 && r.1@ == next.1
            }),
            valid_state(self.count, r.0),
    {
        if file < self.count {
            return (
                EngineState::Preflight { file, ready, failures },
                EngineEffect::Decrypt(file),
            );
        }
        if ready.len() == 0 && failures.len() > 0 {
            let mut failures = failures;
            let first = failures.remove(0);
            let failure = match first.result {
                Ok(_) => None,
                Err(error) => Some(error),
            };
            return match step::check_preflight(0, failure) {
                Ok(_) => fail(GitveilError::new(ErrorCategory::Integrity, String::new())),
                Err(error) => fail(error),
            };
        }
        if self.changed {
            (EngineState::Manifest { ready, failures }, EngineEffect::ReadManifest)
        } else {
            let reports: Vec<FileReport> = Vec::new();
            assert(report_models(reports@) =~= Seq::empty());
            converge_next(0, ready, reports, failures)
        }
    }

    fn advance(&self, state: EngineState, event: EngineEvent) -> (r: (EngineState, EngineEffect))
        requires
            valid_state(self.count, state),
        ensures
            view_state(r.0) == engine_step(self@.engine, view_state(state), event@).0,
            r.1@ == engine_step(self@.engine, view_state(state), event@).1,
            valid_state(self.count, r.0),
    {
        match (state, event) {
            (_, EngineEvent::Failed(error)) => fail(error),
            (EngineState::Preflight { file, ready, failures }, EngineEvent::Decrypted(result)) => {
                let mut ready = ready;
                let mut failures = failures;
                let ghost before = ready@;
                let ghost kept = failures@;
                match result {
                    Ok(_) => {
                        ready.push(file);
                        assert(indices(ready@) =~= indices(before).push(file as int));
                    },
                    Err(error) => {
                        failures.push(FileReport { file, result: Err(error) });
                        assert(report_models(failures@) =~= report_models(kept).push(
                            ReportModel { file: file as int, result: Err(error@) },
                        ));
                    },
                }
                self.preflight_next(file + 1, ready, failures)
            },
            (EngineState::Manifest { ready, failures }, EngineEvent::Manifest(current)) => {
                let input = match &current {
                    Some(bytes) => Some(bytes.as_slice()),
                    None => None,
                };
                match step::check_publication(true, &self.preparation, input) {
                    Err(error) => fail(error),
                    Ok(_) => (
                        EngineState::Publication { ready, failures },
                        EngineEffect::Publish,
                    ),
                }
            },
            (EngineState::Publication { ready, failures }, EngineEvent::Published) => {
                let reports: Vec<FileReport> = Vec::new();
                assert(report_models(reports@) =~= Seq::empty());
                converge_next(0, ready, reports, failures)
            },
            (
                EngineState::Convergence { at, ready, reports, failures },
                EngineEvent::Converged(result),
            ) => {
                let file: usize = ready[at];
                let mut reports = reports;
                let ghost before = reports@;
                let report = FileReport { file, result };
                let ghost added = report@;
                reports.push(report);
                assert(report_models(reports@) =~= report_models(before).push(added));
                let count: usize = ready.len();
                assert(at < count);
                converge_next(at + 1, ready, reports, failures)
            },
            _ => fail(
                GitveilError::new(
                    ErrorCategory::Integrity,
                    "recipient convergence received a result that it did not ask for".to_owned(),
                ),
            ),
        }
    }

    /// Takes what came of the last effect, and gives the next.
    pub fn next(self, event: EngineEvent) -> (r: (Engine, EngineEffect))
        ensures
            r.0@.engine == self@.engine,
            r.0@.state == engine_step(self@.engine, self@.state, event@).0,
            r.1@ == engine_step(self@.engine, self@.state, event@).1,
    {
        proof {
            use_type_invariant(&self);
        }
        let Engine { count, preparation, changed, state } = self;
        let still = Engine { count, preparation, changed, state: EngineState::Finished };
        let (state, effect) = still.advance(state, event);
        let Engine { count, preparation, changed, .. } = still;
        (Engine { count, preparation, changed, state }, effect)
    }
}

/// Where a convergence stands after some events.
pub open spec fn course(m: EngineModel, events: Seq<EventModel>) -> (StateModel, EffectModel)
    decreases events.len(),
{
    if events.len() == 0 {
        preflight(m, 0, Seq::empty(), Seq::empty())
    } else {
        engine_step(m, course(m, events.drop_last()).0, events.last())
    }
}

/// What every state of a course knows: after the trial some file could be decrypted,
/// where there is one, and a changed manifest was published before the first file was
/// changed.
pub open spec fn ordered(m: EngineModel, events: Seq<EventModel>) -> bool {
    match course(m, events).0 {
        StateModel::Preflight { file, ready, failures } => file == ready.len() + failures.len(),
        StateModel::Manifest { ready, .. } => m.count > 0 ==> ready.len() > 0,
        StateModel::Publication { ready, .. } => m.count > 0 ==> ready.len() > 0,
        StateModel::Convergence { ready, .. } => m.changed ==> events.contains(
            EventModel::Published,
        ),
        StateModel::Finished => true,
    }
}

proof fn lemma_course_is_ordered(m: EngineModel, events: Seq<EventModel>)
    ensures
        ordered(m, events),
        course(m, events).1 is Publish ==> course(m, events).0 is Publication,
        course(m, events).1 is Converge ==> course(m, events).0 is Convergence,
    decreases events.len(),
{
    if events.len() > 0 {
        let before = events.drop_last();
        lemma_course_is_ordered(m, before);
        if before.contains(EventModel::Published) {
            let i = choose|i: int| 0 <= i < before.len() && before[i] == EventModel::Published;
            assert(events[i] == EventModel::Published);
        }
        if events.last() == EventModel::Published {
            assert(events[events.len() - 1] == EventModel::Published);
        }
    }
}

/// Law: whatever happens outside, the manifest is published only where a file could be
/// decrypted, or none is to be changed.
pub proof fn law_publication_follows_decryption(m: EngineModel, events: Seq<EventModel>)
    requires
        course(m, events).1 is Publish,
        m.count > 0,
    ensures
        course(m, events).0 matches StateModel::Publication { ready, .. } && ready.len() > 0,
{
    lemma_course_is_ordered(m, events);
}

/// Law: whatever happens outside, a changed manifest is published before any file is
/// changed.
pub proof fn law_publication_precedes_convergence(m: EngineModel, events: Seq<EventModel>)
    requires
        course(m, events).1 is Converge,
        m.changed,
    ensures
        events.contains(EventModel::Published),
{
    lemma_course_is_ordered(m, events);
}

} // verus!
