//! Pure repository-onboarding plans.

use vstd::prelude::*;

use crate::config::SourceFormat;
use crate::git::ignore as git_ignore;
use crate::git::ignore::IgnoreMatches;
use crate::git::IgnoreMatch;
use crate::manifest;
use crate::manifest::{
    EntryModel, Manifest, ManifestEntry, ManifestEntryAddOutcome, ManifestModel,
    ManifestMutationError, MutationFault,
};
use crate::path;
use crate::path::ManagedPath;
use crate::profile::ProfileName;
use crate::recipient::PolicyName;
use crate::segment;
use crate::text;

verus! {

#[derive(Debug)]
pub struct RegistrationRequest {
    pub path: ManagedPath,
    pub format: SourceFormat,
    pub recipient_policy: PolicyName,
    pub profile: ProfileName,
}

impl View for RegistrationRequest {
    type V = EntryModel;

    open spec fn view(&self) -> EntryModel {
        EntryModel {
            path: self.path@,
            format: self.format,
            policy: self.recipient_policy@,
            profile: self.profile@,
        }
    }
}

pub open spec fn requests_of(v: Seq<RegistrationRequest>) -> Seq<EntryModel> {
    v.map_values(|r: RegistrationRequest| r@)
}

#[derive(Clone, Copy, Debug, PartialEq, Eq, Structural)]
pub enum RegistrationKind {
    Added,
    AlreadyManaged,
}

/// A manifest with the requested files, and what became of each request.
#[derive(Debug)]
pub struct RegistrationPlan {
    manifest: Manifest,
    outcomes: Vec<(ManagedPath, RegistrationKind)>,
}

pub struct RegistrationModel {
    pub manifest: ManifestModel,
    pub outcomes: Seq<(Seq<char>, RegistrationKind)>,
}

pub open spec fn outcomes_of(v: Seq<(ManagedPath, RegistrationKind)>) -> Seq<
    (Seq<char>, RegistrationKind),
> {
    v.map_values(|o: (ManagedPath, RegistrationKind)| (o.0@, o.1))
}

impl View for RegistrationPlan {
    type V = RegistrationModel;

    closed spec fn view(&self) -> RegistrationModel {
        RegistrationModel { manifest: self.manifest@, outcomes: outcomes_of(self.outcomes@) }
    }
}

impl RegistrationPlan {
    pub fn manifest(&self) -> (r: &Manifest)
        ensures
            r@ == self@.manifest,
    {
        &self.manifest
    }

    pub fn outcomes(&self) -> (r: &[(ManagedPath, RegistrationKind)])
        ensures
            outcomes_of(r@) == self@.outcomes,
    {
        self.outcomes.as_slice()
    }
}

#[derive(Debug, PartialEq, Eq)]
pub enum RegistrationPlanError {
    DuplicateRequest(ManagedPath),
    Manifest(ManifestMutationError),
}

pub enum RegistrationFault {
    DuplicateRequest(Seq<char>),
    Manifest(MutationFault),
}

impl View for RegistrationPlanError {
    type V = RegistrationFault;

    open spec fn view(&self) -> RegistrationFault {
        match self {
            RegistrationPlanError::DuplicateRequest(p) => RegistrationFault::DuplicateRequest(p@),
            RegistrationPlanError::Manifest(e) => RegistrationFault::Manifest(e@),
        }
    }
}

impl RegistrationFault {
    pub open spec fn text(self) -> Seq<char> {
        match self {
            RegistrationFault::DuplicateRequest(p) => "path "@ + p
                + " is requested more than once"@,
            RegistrationFault::Manifest(fault) => fault.text(),
        }
    }
}

impl RegistrationPlanError {
    pub fn message(&self) -> (r: String)
        ensures
            r@ == self@.text(),
    {
        match self {
            RegistrationPlanError::DuplicateRequest(p) => text::cat3(
                "path ",
                p.as_str(),
                " is requested more than once",
            ),
            RegistrationPlanError::Manifest(error) => error.message(),
        }
    }
}

/// Some path of a list collides with a path on a file system that ignores case.
pub open spec fn collides(paths: Seq<Seq<char>>, p: Seq<char>) -> bool {
    exists|i: int|
        0 <= i < paths.len() && path::collision_key(#[trigger] paths[i]) == path::collision_key(p)
}

pub open spec fn request_paths(requests: Seq<EntryModel>) -> Seq<Seq<char>> {
    requests.map_values(|e: EntryModel| e.path)
}

/// What registering some requests in their order makes of a manifest.
pub open spec fn registered(m: ManifestModel, requests: Seq<EntryModel>) -> Result<
    RegistrationModel,
    RegistrationFault,
>
    decreases requests.len(),
{
    if requests.len() == 0 {
        Ok(RegistrationModel { manifest: m, outcomes: Seq::empty() })
    } else {
        let e = requests.last();
        match registered(m, requests.drop_last()) {
            Err(fault) => Err(fault),
            Ok(plan) => if collides(request_paths(requests.drop_last()), e.path) {
                Err(RegistrationFault::DuplicateRequest(e.path))
            } else {
                match manifest::addition(plan.manifest, e) {
                    Err(fault) => Err(RegistrationFault::Manifest(fault)),
                    Ok(ManifestEntryAddOutcome::Added) => Ok(
                        RegistrationModel {
                            manifest: ManifestModel {
                                entries: plan.manifest.entries.push(e),
                                policies: plan.manifest.policies,
                            },
                            outcomes: plan.outcomes.push((e.path, RegistrationKind::Added)),
                        },
                    ),
                    Ok(ManifestEntryAddOutcome::AlreadyManaged) => Ok(
                        RegistrationModel {
                            manifest: plan.manifest,
                            outcomes: plan.outcomes.push(
                                (e.path, RegistrationKind::AlreadyManaged),
                            ),
                        },
                    ),
                }
            },
        }
    }
}

pub open spec fn view_plan(r: Result<RegistrationPlan, RegistrationPlanError>) -> Result<
    RegistrationModel,
    RegistrationFault,
> {
    match r {
        Ok(plan) => Ok(plan@),
        Err(e) => Err(e@),
    }
}

fn has_collision(paths: &Vec<ManagedPath>, p: &ManagedPath) -> (r: bool)
    ensures
        r == collides(path::path_texts(paths@), p@),
{
    let key = p.case_collision_key();
    let ghost all = path::path_texts(paths@);
    let mut i: usize = 0;
    while i < paths.len()
        invariant
            i <= paths.len(),
            all == path::path_texts(paths@),
            key@ == path::collision_key(p@),
            forall|j: int|
                0 <= j < i ==> path::collision_key(#[trigger] all[j]) != path::collision_key(p@),
        decreases paths.len() - i,
    {
        assert(all[i as int] == paths@[i as int]@);
        if text::eq(paths[i].case_collision_key().as_str(), key.as_str()) {
            return true;
        }
        i = i + 1;
    }
    false
}

proof fn lemma_registration_fails(m: ManifestModel, requests: Seq<EntryModel>, k: int)
    requires
        0 <= k <= requests.len(),
        registered(m, requests.take(k)) is Err,
    ensures
        registered(m, requests) == registered(m, requests.take(k)),
    decreases requests.len(),
{
    if k < requests.len() {
        assert(requests.drop_last().take(k) =~= requests.take(k));
        lemma_registration_fails(m, requests.drop_last(), k);
    } else {
        assert(requests.take(k) =~= requests);
    }
}

/// Registers files in the order of the requests, all or none.
#[verifier::loop_isolation(false)]
pub fn plan_registration(document: Manifest, requests: Vec<RegistrationRequest>) -> (r: Result<
    RegistrationPlan,
    RegistrationPlanError,
>)
    ensures
        view_plan(r) == registered(document@, requests_of(requests@)),
        r matches Ok(plan) ==> (manifest::valid(document@) ==> manifest::valid(plan@.manifest)),
{
    let ghost start = document@;
    let ghost all = requests_of(requests@);
    let mut manifest = document;
    let mut outcomes: Vec<(ManagedPath, RegistrationKind)> = Vec::new();
    let mut seen: Vec<ManagedPath> = Vec::new();
    let mut i: usize = 0;
    assert(outcomes_of(outcomes@) =~= Seq::<(Seq<char>, RegistrationKind)>::empty());
    assert(all.take(0) =~= Seq::<EntryModel>::empty());
    assert(path::path_texts(seen@) =~= request_paths(all.take(0)));
    while i < requests.len()
        invariant
            i <= requests.len(),
            all == requests_of(requests@),
            path::path_texts(seen@) == request_paths(all.take(i as int)),
            registered(start, all.take(i as int)) == Ok::<RegistrationModel, RegistrationFault>(
                RegistrationModel { manifest: manifest@, outcomes: outcomes_of(outcomes@) },
            ),
            manifest::valid(start) ==> manifest::valid(manifest@),
        decreases requests.len() - i,
    {
        let request = &requests[i];
        let ghost e = request@;
        assert(all.take(i + 1).drop_last() =~= all.take(i as int));
        assert(all.take(i + 1).last() == e);
        proof {
            if registered(start, all.take(i + 1)) is Err {
                lemma_registration_fails(start, all, i + 1);
            }
        }
        if has_collision(&seen, &request.path) {
            return Err(RegistrationPlanError::DuplicateRequest(request.path.clone()));
        }
        let ghost held = seen@;
        seen.push(request.path.clone());
        assert(path::path_texts(seen@) =~= path::path_texts(held).push(e.path));
        assert(request_paths(all.take(i + 1)) =~= request_paths(all.take(i as int)).push(e.path));
        let entry = ManifestEntry::new(
            request.path.clone(),
            request.format,
            request.recipient_policy.clone(),
            request.profile.clone(),
        );
        let ghost before = outcomes@;
        match manifest.add_entry(entry) {
            Ok(ManifestEntryAddOutcome::Added) => {
                outcomes.push((request.path.clone(), RegistrationKind::Added));
                assert(outcomes_of(outcomes@) =~= outcomes_of(before).push(
                    (e.path, RegistrationKind::Added),
                ));
            },
            Ok(ManifestEntryAddOutcome::AlreadyManaged) => {
                outcomes.push((request.path.clone(), RegistrationKind::AlreadyManaged));
                assert(outcomes_of(outcomes@) =~= outcomes_of(before).push(
                    (e.path, RegistrationKind::AlreadyManaged),
                ));
            },
            Err(error) => {
                return Err(RegistrationPlanError::Manifest(error));
            },
        }
        i = i + 1;
    }
    assert(all.take(i as int) =~= all);
    Ok(RegistrationPlan { manifest, outcomes })
}

/// The digits of a number in lower-case hexadecimal.
pub open spec fn hex_number(n: nat) -> Seq<char>
    decreases n,
{
    let d = hex_char((n % 16) as int);
    if n < 16 {
        seq![d]
    } else {
        hex_number(n / 16).push(d)
    }
}

pub open spec fn hex_char(d: int) -> char {
    "0123456789abcdef"@[d]
}

/// A character as it is shown in a message: no control character, nothing beyond
/// ASCII.
pub open spec fn shown_char(c: char) -> Seq<char> {
    if c == '\t' {
        seq!['\\', 't']
    } else if c == '\r' {
        seq!['\\', 'r']
    } else if c == '\n' {
        seq!['\\', 'n']
    } else if c == '\'' || c == '"' || c == '\\' {
        seq!['\\', c]
    } else if 0x20 <= c as u32 <= 0x7e {
        seq![c]
    } else {
        seq!['\\', 'u', '{'] + hex_number(c as nat) + seq!['}']
    }
}

pub open spec fn shown(s: Seq<char>) -> Seq<char>
    decreases s.len(),
{
    if s.len() == 0 {
        Seq::empty()
    } else {
        shown(s.drop_last()) + shown_char(s.last())
    }
}

fn show_hex(n: u32) -> (r: Vec<char>)
    ensures
        r@ == hex_number(n as nat),
    decreases n,
{
    let digits = text::chars_of("0123456789abcdef");
    proof {
        reveal_strlit("0123456789abcdef");
        assert("0123456789abcdef"@.len() == 16);
    }
    let d = digits[(n % 16) as usize];
    if n < 16 {
        let r = vec![d];
        assert(r@ =~= seq![d]);
        r
    } else {
        let mut r = show_hex(n / 16);
        r.push(d);
        r
    }
}

fn push_shown(out: &mut Vec<char>, c: char)
    ensures
        final(out)@ == old(out)@ + shown_char(c),
{
    let ghost before = out@;
    if c == '\t' {
        out.push('\\');
        out.push('t');
    } else if c == '\r' {
        out.push('\\');
        out.push('r');
    } else if c == '\n' {
        out.push('\\');
        out.push('n');
    } else if c == '\'' || c == '"' || c == '\\' {
        out.push('\\');
        out.push(c);
    } else if 0x20 <= c as u32 && c as u32 <= 0x7e {
        out.push(c);
    } else {
        let mut digits = show_hex(c as u32);
        out.push('\\');
        out.push('u');
        out.push('{');
        out.append(&mut digits);
        out.push('}');
    }
    assert(out@ =~= before + shown_char(c));
}

fn diagnostic_field(value: &str) -> (r: String)
    ensures
        r@ == shown(value@),
{
    let chars = text::chars_of(value);
    let ghost all = chars@;
    let mut out: Vec<char> = Vec::new();
    let mut i: usize = 0;
    assert(out@ =~= shown(all.take(0)));
    while i < chars.len()
        invariant
            i <= chars.len(),
            all == chars@,
            out@ == shown(all.take(i as int)),
        decreases chars.len() - i,
    {
        assert(all.take(i + 1).drop_last() =~= all.take(i as int));
        assert(all.take(i + 1).last() == all[i as int]);
        push_shown(&mut out, chars[i]);
        i = i + 1;
    }
    assert(all.take(i as int) =~= all);
    text::string_of(out.as_slice())
}

/// The rule that decided on a path, as evidence.
#[derive(Debug, PartialEq, Eq)]
pub struct IgnoreRuleSnapshot {
    source: String,
    line: usize,
    pattern: String,
    ignored: bool,
}

impl View for IgnoreRuleSnapshot {
    type V = git_ignore::RuleModel;

    closed spec fn view(&self) -> git_ignore::RuleModel {
        git_ignore::RuleModel {
            source: self.source@,
            line: self.line as int,
            pattern: self.pattern@,
            ignored: self.ignored,
        }
    }
}

/// A rule as it is shown in a message.
pub open spec fn rule_text(rule: git_ignore::RuleModel) -> Seq<char> {
    shown(rule.source) + ":"@ + segment::decimal(rule.line as nat) + ":"@ + shown(rule.pattern)
}

impl IgnoreRuleSnapshot {
    pub fn new(source: String, line: usize, pattern: String, ignored: bool) -> (r:
        IgnoreRuleSnapshot)
        ensures
            r@ == (git_ignore::RuleModel {
                source: source@,
                line: line as int,
                pattern: pattern@,
                ignored,
            }),
    {
        IgnoreRuleSnapshot { source, line, pattern, ignored }
    }

    pub fn is_ignored(&self) -> (r: bool)
        ensures
            r == self@.ignored,
    {
        self.ignored
    }

    pub fn description(&self) -> (r: String)
        ensures
            r@ == rule_text(self@),
    {
        text::cat5(
            diagnostic_field(self.source.as_str()).as_str(),
            ":",
            segment::decimal_u64(self.line as u64).as_str(),
            ":",
            diagnostic_field(self.pattern.as_str()).as_str(),
        )
    }
}

impl Clone for IgnoreRuleSnapshot {
    fn clone(&self) -> (r: IgnoreRuleSnapshot)
        ensures
            r@ == self@,
    {
        IgnoreRuleSnapshot {
            source: self.source.as_str().to_owned(),
            line: self.line,
            pattern: self.pattern.as_str().to_owned(),
            ignored: self.ignored,
        }
    }
}

#[derive(Debug, PartialEq, Eq)]
pub enum IgnoreState {
    Unmatched,
    Matched(IgnoreRuleSnapshot),
}

impl View for IgnoreState {
    type V = Option<git_ignore::RuleModel>;

    open spec fn view(&self) -> Option<git_ignore::RuleModel> {
        match self {
            IgnoreState::Unmatched => None,
            IgnoreState::Matched(rule) => Some(rule@),
        }
    }
}

impl IgnoreState {
    pub fn is_ignored(&self) -> (r: bool)
        ensures
            r == git_ignore::ignored_by(self@),
    {
        match self {
            IgnoreState::Unmatched => false,
            IgnoreState::Matched(rule) => rule.is_ignored(),
        }
    }

    fn evidence(&self) -> (r: Option<IgnoreRuleSnapshot>)
        ensures
            view_evidence(r) == self@,
    {
        match self {
            IgnoreState::Unmatched => None,
            IgnoreState::Matched(rule) => Some(rule.clone()),
        }
    }
}

pub open spec fn view_evidence(e: Option<IgnoreRuleSnapshot>) -> Option<git_ignore::RuleModel> {
    match e {
        Some(rule) => Some(rule@),
        None => None,
    }
}

/// The state of the ignore rules by path.
#[derive(Debug)]
pub struct IgnoreStates {
    list: Vec<(ManagedPath, IgnoreState)>,
}

pub open spec fn state_views(v: Seq<(ManagedPath, IgnoreState)>) -> Seq<
    (Seq<char>, Option<git_ignore::RuleModel>),
> {
    v.map_values(|s: (ManagedPath, IgnoreState)| (s.0@, s.1@))
}

impl View for IgnoreStates {
    type V = Seq<(Seq<char>, Option<git_ignore::RuleModel>)>;

    closed spec fn view(&self) -> Seq<(Seq<char>, Option<git_ignore::RuleModel>)> {
        state_views(self.list@)
    }
}

/// The state of a path: the last that was put in.
pub open spec fn state_of(
    list: Seq<(Seq<char>, Option<git_ignore::RuleModel>)>,
    p: Seq<char>,
) -> Option<Option<git_ignore::RuleModel>>
    decreases list.len(),
{
    if list.len() == 0 {
        None
    } else if list.last().0 == p {
        Some(list.last().1)
    } else {
        state_of(list.drop_last(), p)
    }
}

impl IgnoreStates {
    pub fn new() -> (r: IgnoreStates)
        ensures
            r@.len() == 0,
    {
        IgnoreStates { list: Vec::new() }
    }

    pub fn insert(&mut self, path: ManagedPath, state: IgnoreState)
        ensures
            final(self)@ == old(self)@.push((path@, state@)),
    {
        let ghost before = self.list@;
        self.list.push((path, state));
        assert(state_views(self.list@) =~= state_views(before).push((path@, state@)));
    }

    pub fn get(&self, path: &ManagedPath) -> (r: Option<&IgnoreState>)
        ensures
            match r {
                Some(state) => state_of(self@, path@) == Some(state@),
                None => state_of(self@, path@) is None,
            },
    {
        let ghost all = self@;
        let mut n: usize = self.list.len();
        assert(all.take(n as int) =~= all);
        while n > 0
            invariant
                n <= self.list@.len(),
                all == state_views(self.list@),
                state_of(all, path@) == state_of(all.take(n as int), path@),
            decreases n,
        {
            assert(all.take(n as int).last() == (self.list@[n - 1].0@, self.list@[n - 1].1@));
            assert(all.take(n as int).drop_last() =~= all.take(n - 1));
            if self.list[n - 1].0.same(path) {
                return Some(&self.list[n - 1].1);
            }
            n = n - 1;
        }
        None
    }
}

/// The state that an answer of Git gives for each of some paths.
pub open spec fn states_from(
    answers: Seq<(Seq<char>, Option<git_ignore::RuleModel>)>,
    paths: Seq<Seq<char>>,
) -> Seq<(Seq<char>, Option<git_ignore::RuleModel>)>
    decreases paths.len(),
{
    if paths.len() == 0 {
        Seq::empty()
    } else {
        let head = states_from(answers, paths.drop_last());
        match git_ignore::answer_for(answers, paths.last()) {
            Some(state) => head.push((paths.last(), state)),
            None => head,
        }
    }
}

/// The states of the paths that Git was asked about.
pub fn ignore_states(matches: &IgnoreMatches, paths: &[ManagedPath]) -> (r: IgnoreStates)
    ensures
        r@ == states_from(matches@, path::path_texts(paths@)),
{
    let ghost all = path::path_texts(paths@);
    let mut out = IgnoreStates::new();
    let mut i: usize = 0;
    assert(out@ =~= states_from(matches@, all.take(0)));
    while i < paths.len()
        invariant
            i <= paths.len(),
            all == path::path_texts(paths@),
            out@ == states_from(matches@, all.take(i as int)),
        decreases paths.len() - i,
    {
        assert(all.take(i + 1).drop_last() =~= all.take(i as int));
        assert(all.take(i + 1).last() == paths@[i as int]@);
        match matches.get(&paths[i]) {
            Some(IgnoreMatch::Unmatched) => {
                out.insert(paths[i].clone(), IgnoreState::Unmatched);
            },
            Some(IgnoreMatch::Rule(rule)) => {
                out.insert(
                    paths[i].clone(),
                    IgnoreState::Matched(
                        IgnoreRuleSnapshot::new(
                            rule.source().to_owned(),
                            rule.line(),
                            rule.pattern().to_owned(),
                            rule.is_ignored(),
                        ),
                    ),
                );
            },
            None => {},
        }
        i = i + 1;
    }
    assert(all.take(i as int) =~= all);
    out
}

#[derive(Clone, Copy, Debug, PartialEq, Eq, Structural)]
pub enum VisibilityExpectation {
    PlaintextIgnored,
    CiphertextVisible,
}

#[derive(Debug, PartialEq, Eq)]
pub struct VisibilityViolation {
    path: ManagedPath,
    expectation: VisibilityExpectation,
    evidence: Option<IgnoreRuleSnapshot>,
}

pub struct ViolationModel {
    pub path: Seq<char>,
    pub expectation: VisibilityExpectation,
    pub evidence: Option<git_ignore::RuleModel>,
}

impl View for VisibilityViolation {
    type V = ViolationModel;

    closed spec fn view(&self) -> ViolationModel {
        ViolationModel {
            path: self.path@,
            expectation: self.expectation,
            evidence: view_evidence(self.evidence),
        }
    }
}

impl ViolationModel {
    pub open spec fn text(self) -> Seq<char> {
        let evidence = match self.evidence {
            Some(rule) => rule_text(rule),
            None => "no matching Git ignore rule"@,
        };
        match self.expectation {
            VisibilityExpectation::PlaintextIgnored => "plaintext path "@ + self.path
                + " is not ignored ("@ + evidence + ")"@,
            VisibilityExpectation::CiphertextVisible => "ciphertext path "@ + self.path
                + " remains ignored by "@ + evidence
                + "; adjust that rule or an ignored parent directory before retrying"@,
        }
    }
}

impl VisibilityViolation {
    pub fn describe(&self) -> (r: String)
        ensures
            r@ == self@.text(),
    {
        let evidence = match &self.evidence {
            Some(rule) => rule.description(),
            None => "no matching Git ignore rule".to_owned(),
        };
        match self.expectation {
            VisibilityExpectation::PlaintextIgnored => text::cat5(
                "plaintext path ",
                self.path.as_str(),
                " is not ignored (",
                evidence.as_str(),
                ")",
            ),
            VisibilityExpectation::CiphertextVisible => text::cat5(
                "ciphertext path ",
                self.path.as_str(),
                " remains ignored by ",
                evidence.as_str(),
                "; adjust that rule or an ignored parent directory before retrying",
            ),
        }
    }
}

pub open spec fn violations_of(v: Seq<VisibilityViolation>) -> Seq<ViolationModel> {
    v.map_values(|x: VisibilityViolation| x@)
}

#[derive(Debug, PartialEq, Eq)]
pub enum VisibilityPlanError {
    MissingEvaluation(ManagedPath),
}

impl VisibilityPlanError {
    pub fn message(&self) -> (r: String)
        ensures
            self matches VisibilityPlanError::MissingEvaluation(p) ==> r@
                == "Git ignore evaluation is missing path "@ + p@,
    {
        match self {
            VisibilityPlanError::MissingEvaluation(p) => text::cat2(
                "Git ignore evaluation is missing path ",
                p.as_str(),
            ),
        }
    }
}

/// What is wrong with the visibility of one pair, or the path that was not evaluated.
pub open spec fn pair_violations(
    states: Seq<(Seq<char>, Option<git_ignore::RuleModel>)>,
    p: Seq<char>,
) -> Result<Seq<ViolationModel>, Seq<char>> {
    let c = p + path::ciphertext_suffix();
    match state_of(states, p) {
        None => Err(p),
        Some(plain) => match state_of(states, c) {
            None => Err(c),
            Some(cipher) => Ok(
                (if git_ignore::ignored_by(plain) {
                    Seq::empty()
                } else {
                    seq![
                        ViolationModel {
                            path: p,
                            expectation: VisibilityExpectation::PlaintextIgnored,
                            evidence: plain,
                        },
                    ]
                }) + (if git_ignore::ignored_by(cipher) {
                    seq![
                        ViolationModel {
                            path: c,
                            expectation: VisibilityExpectation::CiphertextVisible,
                            evidence: cipher,
                        },
                    ]
                } else {
                    Seq::empty()
                }),
            ),
        },
    }
}

/// What is wrong with the visibility of the managed files: each plaintext must be
/// ignored, each ciphertext must not.
pub open spec fn violations(
    states: Seq<(Seq<char>, Option<git_ignore::RuleModel>)>,
    entries: Seq<EntryModel>,
) -> Result<Seq<ViolationModel>, Seq<char>>
    decreases entries.len(),
{
    if entries.len() == 0 {
        Ok(Seq::empty())
    } else {
        match violations(states, entries.drop_last()) {
            Err(p) => Err(p),
            Ok(list) => match pair_violations(states, entries.last().path) {
                Err(p) => Err(p),
                Ok(more) => Ok(list + more),
            },
        }
    }
}

proof fn lemma_violations_fail(
    states: Seq<(Seq<char>, Option<git_ignore::RuleModel>)>,
    entries: Seq<EntryModel>,
    k: int,
)
    requires
        0 <= k <= entries.len(),
        violations(states, entries.take(k)) is Err,
    ensures
        violations(states, entries) == violations(states, entries.take(k)),
    decreases entries.len(),
{
    if k < entries.len() {
        assert(entries.drop_last().take(k) =~= entries.take(k));
        lemma_violations_fail(states, entries.drop_last(), k);
    } else {
        assert(entries.take(k) =~= entries);
    }
}

fn check_pair(states: &IgnoreStates, entry: &ManifestEntry, out: &mut Vec<VisibilityViolation>) -> (r:
    Result<(), VisibilityPlanError>)
    ensures
        match pair_violations(states@, entry@.path) {
            Ok(more) => r.is_ok() && violations_of(final(out)@) == violations_of(old(out)@) + more,
            Err(p) => r matches Err(VisibilityPlanError::MissingEvaluation(q)) && q@ == p,
        },
{
    let ghost before = violations_of(out@);
    let plain = match states.get(entry.path()) {
        Some(state) => state,
        None => {
            return Err(VisibilityPlanError::MissingEvaluation(entry.path().clone()));
        },
    };
    let cipher_path = entry.ciphertext_path();
    let cipher = match states.get(&cipher_path) {
        Some(state) => state,
        None => {
            return Err(VisibilityPlanError::MissingEvaluation(cipher_path));
        },
    };
    if !plain.is_ignored() {
        let ghost held = out@;
        let v = VisibilityViolation {
            path: entry.path().clone(),
            expectation: VisibilityExpectation::PlaintextIgnored,
            evidence: plain.evidence(),
        };
        out.push(v);
        assert(violations_of(out@) =~= violations_of(held).push(v@));
    }
    if cipher.is_ignored() {
        let ghost held = out@;
        let v = VisibilityViolation {
            path: cipher_path,
            expectation: VisibilityExpectation::CiphertextVisible,
            evidence: cipher.evidence(),
        };
        out.push(v);
        assert(violations_of(out@) =~= violations_of(held).push(v@));
    }
    assert(violations_of(out@) =~= before + pair_violations(states@, entry@.path)->Ok_0);
    Ok(())
}

/// Lists what is wrong with the visibility of the managed files.
pub fn visibility_violations(document: &Manifest, states: &IgnoreStates) -> (r: Result<
    Vec<VisibilityViolation>,
    VisibilityPlanError,
>)
    ensures
        match violations(states@, document@.entries) {
            Ok(list) => r matches Ok(v) && violations_of(v@) == list,
            Err(p) => r matches Err(VisibilityPlanError::MissingEvaluation(q)) && q@ == p,
        },
{
    let entries = document.entries();
    let ghost all = document@.entries;
    let mut out: Vec<VisibilityViolation> = Vec::new();
    let mut i: usize = 0;
    assert(violations_of(out@) =~= Seq::<ViolationModel>::empty());
    assert(all.take(0) =~= Seq::<EntryModel>::empty());
    while i < entries.len()
        invariant
            i <= entries.len(),
            all == document@.entries,
            all == manifest::entry_models(entries@),
            violations(states@, all.take(i as int)) == Ok::<Seq<ViolationModel>, Seq<char>>(
                violations_of(out@),
            ),
        decreases entries.len() - i,
    {
        assert(all.take(i + 1).drop_last() =~= all.take(i as int));
        assert(all.take(i + 1).last() == entries@[i as int]@);
        match check_pair(states, &entries[i], &mut out) {
            Ok(_) => {},
            Err(error) => {
                proof {
                    lemma_violations_fail(states@, all, i + 1);
                }
                return Err(error);
            },
        }
        i = i + 1;
    }
    assert(all.take(i as int) =~= all);
    Ok(out)
}

/// The paths that stay protected: those of the list, each once, those that differ in
/// case alone counting as one.
pub open spec fn protected(paths: Seq<Seq<char>>) -> Seq<Seq<char>>
    decreases paths.len(),
{
    if paths.len() == 0 {
        Seq::empty()
    } else {
        let head = protected(paths.drop_last());
        if collides(head, paths.last()) {
            head
        } else {
            head.push(paths.last())
        }
    }
}

fn protect(out: &mut Vec<ManagedPath>, paths: &[ManagedPath], Ghost(done): Ghost<Seq<Seq<char>>>)
    requires
        path::path_texts(old(out)@) == protected(done),
    ensures
        path::path_texts(final(out)@) == protected(done + path::path_texts(paths@)),
{
    let ghost all = path::path_texts(paths@);
    let mut i: usize = 0;
    assert(done + all.take(0) =~= done);
    while i < paths.len()
        invariant
            i <= paths.len(),
            all == path::path_texts(paths@),
            path::path_texts(out@) == protected(done + all.take(i as int)),
        decreases paths.len() - i,
    {
        let ghost now = done + all.take(i + 1);
        assert(now.drop_last() =~= done + all.take(i as int));
        assert(now.last() == paths@[i as int]@);
        if !has_collision(&*out, &paths[i]) {
            let ghost before = out@;
            out.push(paths[i].clone());
            assert(path::path_texts(out@) =~= path::path_texts(before).push(paths@[i as int]@));
        }
        i = i + 1;
    }
    assert(all.take(i as int) =~= all);
}

/// The paths that must stay ignored after a concurrent change: those of the
/// authoritative manifest in their order, then the others.
pub fn merge_protection_paths(authoritative: &[ManagedPath], fail_safe: &[ManagedPath]) -> (r: Vec<
    ManagedPath,
>)
    ensures
        path::path_texts(r@) == protected(
            path::path_texts(authoritative@) + path::path_texts(fail_safe@),
        ),
{
    let mut out: Vec<ManagedPath> = Vec::new();
    assert(path::path_texts(out@) =~= Seq::<Seq<char>>::empty());
    let ghost none = Seq::<Seq<char>>::empty();
    protect(&mut out, authoritative, Ghost(none));
    assert(none + path::path_texts(authoritative@) =~= path::path_texts(authoritative@));
    protect(&mut out, fail_safe, Ghost(path::path_texts(authoritative@)));
    out
}

/// Law: no path loses its protection. Each given path is protected, under its own
/// name or under one that differs in case alone.
pub proof fn law_every_path_is_protected(paths: Seq<Seq<char>>, i: int)
    requires
        0 <= i < paths.len(),
    ensures
        collides(protected(paths), paths[i]),
    decreases paths.len(),
{
    let head = protected(paths.drop_last());
    let all = protected(paths);
    if i < paths.len() - 1 {
        law_every_path_is_protected(paths.drop_last(), i);
        assert(paths.drop_last()[i] == paths[i]);
        let k = choose|k: int|
            0 <= k < head.len() && path::collision_key(#[trigger] head[k]) == path::collision_key(
                paths[i],
            );
        assert(all[k] == head[k]);
    } else if !collides(head, paths.last()) {
        assert(all[head.len() as int] == paths[i]);
    }
}

/// Law: without a violation, every managed plaintext is ignored and every ciphertext
/// is visible to Git.
pub proof fn law_no_violation_means_hidden_plaintext(
    states: Seq<(Seq<char>, Option<git_ignore::RuleModel>)>,
    entries: Seq<EntryModel>,
    i: int,
)
    requires
        violations(states, entries) == Ok::<Seq<ViolationModel>, Seq<char>>(Seq::empty()),
        0 <= i < entries.len(),
    ensures
        state_of(states, entries[i].path) matches Some(plain) && git_ignore::ignored_by(plain),
        state_of(states, entries[i].path + path::ciphertext_suffix()) matches Some(cipher)
            && !git_ignore::ignored_by(cipher),
    decreases entries.len(),
{
    let head = violations(states, entries.drop_last())->Ok_0;
    let more = pair_violations(states, entries.last().path)->Ok_0;
    assert((head + more).len() == head.len() + more.len());
    if i < entries.len() - 1 {
        assert(head =~= Seq::<ViolationModel>::empty());
        law_no_violation_means_hidden_plaintext(states, entries.drop_last(), i);
        assert(entries.drop_last()[i] == entries[i]);
    }
}

/// Law: evidence in a message holds printable ASCII alone.
pub proof fn law_evidence_is_printable(s: Seq<char>, i: int)
    requires
        0 <= i < shown(s).len(),
    ensures
        0x20 <= shown(s)[i] as u32 <= 0x7e,
    decreases s.len(),
{
    let head = shown(s.drop_last());
    if i < head.len() {
        law_evidence_is_printable(s.drop_last(), i);
    } else {
        let c = s.last();
        let part = shown_char(c);
        assert(shown(s)[i] == part[i - head.len()]);
        lemma_hex_is_printable(c as nat);
        let h = hex_number(c as nat);
        if !(0x20 <= c as u32 <= 0x7e) && c != '\t' && c != '\r' && c != '\n' {
            let j = i - head.len();
            if 3 <= j < 3 + h.len() {
                assert(part[j] == h[j - 3]);
            }
        }
    }
}

proof fn lemma_hex_is_printable(n: nat)
    ensures
        forall|i: int| 0 <= i < hex_number(n).len() ==> 0x20 <= #[trigger] hex_number(n)[i] as u32
            <= 0x7e,
    decreases n,
{
    reveal_strlit("0123456789abcdef");
    assert("0123456789abcdef"@.len() == 16);
    let d = hex_char((n % 16) as int);
    assert(0x20 <= d as u32 <= 0x7e);
    if n >= 16 {
        lemma_hex_is_printable(n / 16);
        let head = hex_number(n / 16);
        assert forall|i: int| 0 <= i < hex_number(n).len() implies 0x20 <= #[trigger] hex_number(
            n,
        )[i] as u32 <= 0x7e by {
            if i < head.len() {
                assert(hex_number(n)[i] == head[i]);
            }
        }
    }
}

/// A plaintext or a ciphertext of an entry is not as visible as it should be, by the rule
/// that was found for it.
pub open spec fn misplaced(
    states: Seq<(Seq<char>, Option<git_ignore::RuleModel>)>,
    e: EntryModel,
    v: ViolationModel,
) -> bool {
    let ignored = v.evidence matches Some(rule) && rule.ignored;
    &&& state_of(states, v.path) == Some(v.evidence)
    &&& match v.expectation {
        VisibilityExpectation::PlaintextIgnored => v.path == e.path && !ignored,
        VisibilityExpectation::CiphertextVisible => v.path == e.path + path::ciphertext_suffix()
            && ignored,
    }
}

/// Law: the violations are exactly the plaintexts of the entries that Git does not ignore
/// and the ciphertexts that it does, each with the rule that decides; and a path whose state
/// is not known is named instead.
pub proof fn law_violations_are_exact(
    states: Seq<(Seq<char>, Option<git_ignore::RuleModel>)>,
    entries: Seq<EntryModel>,
    v: ViolationModel,
)
    ensures
        match violations(states, entries) {
            Ok(list) => {
                &&& list.contains(v) <==> exists|i: int|
                    0 <= i < entries.len() && misplaced(states, #[trigger] entries[i], v)
                &&& forall|i: int|
                    0 <= i < entries.len() ==> state_of(states, (#[trigger] entries[i]).path)
                        is Some && state_of(
                        states,
                        entries[i].path + path::ciphertext_suffix(),
                    ) is Some
            },
            Err(p) => state_of(states, p) is None && exists|i: int|
                0 <= i < entries.len() && (p == (#[trigger] entries[i]).path || p == entries[i].path
                    + path::ciphertext_suffix()),
        },
    decreases entries.len(),
{
    if entries.len() > 0 {
        let before = entries.drop_last();
        law_violations_are_exact(states, before, v);
        assert(forall|i: int| 0 <= i < before.len() ==> before[i] == entries[i]);
        let last = entries[entries.len() - 1];
        match violations(states, before) {
            Err(p) => {
                let i = choose|i: int|
                    0 <= i < before.len() && (p == (#[trigger] before[i]).path || p
                        == before[i].path + path::ciphertext_suffix());
                assert(entries[i] == before[i]);
            },
            Ok(list) => match pair_violations(states, last.path) {
                Err(p) => {
                    assert(p == entries[entries.len() - 1].path || p == entries[entries.len()
                        - 1].path + path::ciphertext_suffix());
                },
                Ok(more) => {
                    lemma_pair_violations(states, last, v);
                    let all = list + more;
                    if list.contains(v) {
                        let k = choose|k: int| 0 <= k < list.len() && list[k] == v;
                        assert(all[k] == v);
                        let i = choose|i: int|
                            0 <= i < before.len() && misplaced(states, #[trigger] before[i], v);
                        assert(misplaced(states, entries[i], v));
                    }
                    if more.contains(v) {
                        let k = choose|k: int| 0 <= k < more.len() && more[k] == v;
                        assert(all[list.len() + k] == v);
                        assert(misplaced(states, entries[entries.len() - 1], v));
                    }
                    if all.contains(v) {
                        let k = choose|k: int| 0 <= k < all.len() && all[k] == v;
                        if k < list.len() {
                            assert(list[k] == v);
                        } else {
                            assert(more[k - list.len()] == v);
                        }
                    }
                    if exists|i: int|
                        0 <= i < entries.len() && misplaced(states, #[trigger] entries[i], v) {
                        let i = choose|i: int|
                            0 <= i < entries.len() && misplaced(states, #[trigger] entries[i], v);
                        if i < before.len() {
                            assert(misplaced(states, before[i], v));
                        }
                    }
                    assert forall|i: int| 0 <= i < entries.len() implies state_of(
                        states,
                        (#[trigger] entries[i]).path,
                    ) is Some && state_of(
                        states,
                        entries[i].path + path::ciphertext_suffix(),
                    ) is Some by {
                        if i < before.len() {
                            assert(before[i] == entries[i]);
                        }
                    }
                },
            },
        }
    }
}

proof fn lemma_pair_violations(
    states: Seq<(Seq<char>, Option<git_ignore::RuleModel>)>,
    e: EntryModel,
    v: ViolationModel,
)
    requires
        pair_violations(states, e.path) is Ok,
    ensures
        pair_violations(states, e.path)->Ok_0.contains(v) <==> misplaced(states, e, v),
{
    let list = pair_violations(states, e.path)->Ok_0;
    let c = e.path + path::ciphertext_suffix();
    let plain = state_of(states, e.path)->Some_0;
    let cipher = state_of(states, c)->Some_0;
    let a = ViolationModel {
        path: e.path,
        expectation: VisibilityExpectation::PlaintextIgnored,
        evidence: plain,
    };
    let b = ViolationModel {
        path: c,
        expectation: VisibilityExpectation::CiphertextVisible,
        evidence: cipher,
    };
    if misplaced(states, e, v) {
        match v.expectation {
            VisibilityExpectation::PlaintextIgnored => {
                assert(v == a);
                assert(list[0] == a);
            },
            VisibilityExpectation::CiphertextVisible => {
                assert(v == b);
                assert(list[list.len() - 1] == b);
            },
        }
    }
    if list.contains(v) {
        let k = choose|k: int| 0 <= k < list.len() && list[k] == v;
        assert(v == a || v == b);
    }
}

/// Law: registering requests keeps the manifest and adds to it, in their order, exactly the
/// requests that it did not hold; each request is told apart, and afterwards the manifest
/// holds every one. The policies stay as they are.
pub proof fn law_registration_adds_what_is_new(m: ManifestModel, requests: Seq<EntryModel>)
    requires
        registered(m, requests) is Ok,
    ensures
        ({
            let plan = registered(m, requests)->Ok_0;
            &&& plan.manifest.policies == m.policies
            &&& m.entries.is_prefix_of(plan.manifest.entries)
            &&& plan.outcomes.len() == requests.len()
            &&& forall|i: int|
                0 <= i < requests.len() ==> (#[trigger] plan.outcomes[i]).0 == requests[i].path
                    && plan.manifest.entries.contains(requests[i])
            &&& forall|i: int|
                0 <= i < requests.len() && (#[trigger] plan.outcomes[i]).1
                    == RegistrationKind::AlreadyManaged ==> m.entries.contains(requests[i])
                    || exists|j: int| 0 <= j < i && requests[j] == requests[i]
            &&& plan.manifest.entries.len() <= m.entries.len() + requests.len()
        }),
    decreases requests.len(),
{
    if requests.len() > 0 {
        let head = requests.drop_last();
        let e = requests.last();
        law_registration_adds_what_is_new(m, head);
        let before = registered(m, head)->Ok_0;
        let plan = registered(m, requests)->Ok_0;
        let (old_list, new_list) = (before.manifest.entries, plan.manifest.entries);
        manifest::lemma_added_entry(before.manifest, e);
        assert(new_list.contains(e)) by {
            if new_list != old_list {
                assert(new_list[old_list.len() as int] == e);
            }
        }
        assert forall|i: int| 0 <= i < requests.len() implies (#[trigger] plan.outcomes[i]).0
            == requests[i].path && new_list.contains(requests[i]) by {
            if i < head.len() {
                assert(plan.outcomes[i] == before.outcomes[i]);
                assert(head[i] == requests[i]);
                let k = choose|k: int| 0 <= k < old_list.len() && old_list[k] == requests[i];
                assert(new_list[k] == requests[i]);
            }
        }
        assert forall|i: int|
            0 <= i < requests.len() && (#[trigger] plan.outcomes[i]).1
                == RegistrationKind::AlreadyManaged implies m.entries.contains(requests[i])
            || exists|j: int| 0 <= j < i && requests[j] == requests[i] by {
            if i < head.len() {
                assert(plan.outcomes[i] == before.outcomes[i]);
                assert(head[i] == requests[i]);
                if !m.entries.contains(requests[i]) {
                    let j = choose|j: int| 0 <= j < i && head[j] == head[i];
                    assert(requests[j] == requests[i]);
                }
            } else {
                assert(old_list.contains(e));
                lemma_registered_from(m, head, e);
            }
        }
    } else {
        assert(m.entries.is_prefix_of(m.entries));
    }
}

/// What a registration holds was held before or requested.
proof fn lemma_registered_from(m: ManifestModel, requests: Seq<EntryModel>, e: EntryModel)
    requires
        registered(m, requests) is Ok,
        registered(m, requests)->Ok_0.manifest.entries.contains(e),
    ensures
        m.entries.contains(e) || exists|j: int| 0 <= j < requests.len() && requests[j] == e,
    decreases requests.len(),
{
    if requests.len() > 0 {
        let head = requests.drop_last();
        let before = registered(m, head)->Ok_0.manifest.entries;
        let now = registered(m, requests)->Ok_0.manifest.entries;
        let k = choose|k: int| 0 <= k < now.len() && now[k] == e;
        if k < before.len() {
            assert(before[k] == e);
            lemma_registered_from(m, head, e);
            if !m.entries.contains(e) {
                let j = choose|j: int| 0 <= j < head.len() && head[j] == e;
                assert(requests[j] == e);
            }
        } else {
            assert(requests[requests.len() - 1] == e);
        }
    }
}

/// Law: protecting paths invents none, and takes no two that collide.
pub proof fn law_protected_paths_are_given(paths: Seq<Seq<char>>)
    ensures
        forall|i: int|
            0 <= i < protected(paths).len() ==> paths.contains(#[trigger] protected(paths)[i]),
        forall|i: int, j: int|
            0 <= i < j < protected(paths).len() ==> path::collision_key(
                #[trigger] protected(paths)[i],
            ) != path::collision_key(#[trigger] protected(paths)[j]),
    decreases paths.len(),
{
    if paths.len() > 0 {
        let before = paths.drop_last();
        let head = protected(before);
        let all = protected(paths);
        law_protected_paths_are_given(before);
        assert forall|i: int| 0 <= i < all.len() implies paths.contains(#[trigger] all[i]) by {
            if i < head.len() {
                assert(before.contains(head[i]));
                let n = choose|n: int| 0 <= n < before.len() && before[n] == head[i];
                assert(paths[n] == all[i]);
            } else {
                assert(paths[paths.len() - 1] == all[i]);
            }
        }
        assert forall|i: int, j: int| 0 <= i < j < all.len() implies path::collision_key(
            #[trigger] all[i],
        ) != path::collision_key(#[trigger] all[j]) by {
            assert(all[i] == head[i]);
            if j < head.len() {
                assert(all[j] == head[j]);
            }
        }
    }
}

/// Law: the paths of the first list are protected before those of the second, and as they
/// would be without it.
pub proof fn law_first_paths_come_first(first: Seq<Seq<char>>, second: Seq<Seq<char>>)
    ensures
        protected(first).is_prefix_of(protected(first + second)),
    decreases second.len(),
{
    if second.len() > 0 {
        law_first_paths_come_first(first, second.drop_last());
        assert((first + second).drop_last() =~= first + second.drop_last());
        let head = protected(first + second.drop_last());
        let all = protected(first + second);
        assert(head.is_prefix_of(all));
        assert forall|i: int| 0 <= i < protected(first).len() implies protected(first)[i]
            == all[i] by {
            assert(head[i] == all[i]);
        }
    } else {
        assert(first + second =~= first);
    }
}

} // verus!
