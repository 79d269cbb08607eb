//! The steps of setting up a repository and of registering files.
//!
//! Files are registered in this order: the requests, the files that are there, the
//! ignore rules, their effect, and last the manifest. What fails on the way leaves
//! plaintext ignored rather than exposed.

use vstd::prelude::*;

use crate::bytes;
use crate::config;
use crate::config::SourceFormat;
use crate::configure::ignore;
use crate::configure::plan;
use crate::configure::plan::{
    IgnoreStates, RegistrationKind, RegistrationPlan, RegistrationRequest, VisibilityViolation,
};
use crate::error;
use crate::error::{ErrorCategory, GitveilError};
use crate::git::ignore as git_ignore;
use crate::git::ignore::IgnoreMatches;
use crate::manifest;
use crate::manifest::{EntryModel, Manifest, ManifestModel};
use crate::manifest_document;
use crate::pair;
use crate::path;
use crate::path::ManagedPath;
use crate::profile;
use crate::profile::ProfileName;
use crate::recipient;
use crate::recipient::{AgeRecipientPolicy, PolicyModel, PolicyName};
use crate::recipients::step as recipients;
use crate::seal::step;
use crate::segment;
use crate::source::strict;
use crate::source::strict::StrictNode;
use crate::source::yaml;
use crate::text;

verus! {

/// A repository that is set up: the policy, how many recipients it has, and the
/// manifest to write.
#[derive(Debug)]
pub struct InitOutcome {
    policy: PolicyName,
    recipient_count: usize,
    manifest: Vec<u8>,
}

pub struct InitModel {
    pub policy: Seq<char>,
    pub recipient_count: nat,
    pub manifest: Seq<u8>,
}

impl View for InitOutcome {
    type V = InitModel;

    closed spec fn view(&self) -> InitModel {
        InitModel {
            policy: self.policy@,
            recipient_count: self.recipient_count as nat,
            manifest: self.manifest@,
        }
    }
}

impl InitOutcome {
    pub fn policy(&self) -> (r: &PolicyName)
        ensures
            r@ == self@.policy,
    {
        &self.policy
    }

    pub fn recipient_count(&self) -> (r: usize)
        ensures
            r == self@.recipient_count,
    {
        self.recipient_count
    }

    pub fn manifest(&self) -> (r: &[u8])
        ensures
            r@ == self@.manifest,
    {
        self.manifest.as_slice()
    }
}

/// Refuses to set up a repository that has a manifest.
pub fn refuse_existing(present: bool) -> (r: Result<(), GitveilError>)
    ensures
        if present {
            r matches Err(e) && e@ == (
                ErrorCategory::Configuration,
                ".gitveilrc.json already exists; init never replaces or merges a manifest"@,
            )
        } else {
            r.is_ok()
        },
{
    if present {
        Err(
            GitveilError::configuration(
                ".gitveilrc.json already exists; init never replaces or merges a manifest",
            ),
        )
    } else {
        Ok(())
    }
}

/// What setting up a repository with a policy gives, or why it is refused.
pub open spec fn initialized(policy: Seq<char>, recipients: Seq<Seq<char>>) -> Result<
    InitModel,
    (ErrorCategory, Seq<char>),
> {
    if !profile::kebab_name(policy) {
        Err((ErrorCategory::Configuration, recipient::RecipientError::InvalidPolicyName.text()))
    } else {
        match recipients::request_fault(recipients, 0) {
            Some(fault) => Err(fault),
            None => match recipient::policy_fault(recipients) {
                Some(fault) => Err((ErrorCategory::Configuration, fault.text())),
                None => Ok(
                    InitModel {
                        policy,
                        recipient_count: recipients.len(),
                        manifest: manifest::manifest_bytes(
                            ManifestModel {
                                entries: Seq::empty(),
                                policies: seq![PolicyModel { name: policy, recipients }],
                            },
                        ),
                    },
                ),
            },
        }
    }
}

/// Sets up a repository with one policy and no files.
pub fn initialize(policy: &str, recipients: &[String]) -> (r: Result<InitOutcome, GitveilError>)
    ensures
        match initialized(policy@, text::texts(recipients@)) {
            Ok(model) => r matches Ok(outcome) && outcome@ == model,
            Err(fault) => r matches Err(e) && e@ == fault,
        },
{
    let policy = match PolicyName::new(policy) {
        Ok(policy) => policy,
        Err(error) => {
            return Err(GitveilError::configuration(error.message()));
        },
    };
    let parsed = match recipients::parse_requested(recipients) {
        Ok(parsed) => parsed,
        Err(error) => {
            return Err(error);
        },
    };
    assert(recipient::names(parsed@).len() == parsed@.len());
    let recipient_count: usize = parsed.len();
    let recipient_policy = match AgeRecipientPolicy::new(policy.clone(), parsed) {
        Ok(recipient_policy) => recipient_policy,
        Err(error) => {
            return Err(GitveilError::configuration(error.message()));
        },
    };
    let document = Manifest::initial(recipient_policy);
    match manifest_document::serialize_manifest(&document) {
        Ok(manifest) => Ok(InitOutcome { policy, recipient_count, manifest }),
        Err(error) => Err(error),
    }
}

/// The first path that is no managed path.
pub open spec fn paths_fault(paths: Seq<Seq<char>>, from: int) -> Option<(ErrorCategory, Seq<char>)>
    decreases paths.len() - from,
{
    if from < 0 || from >= paths.len() {
        None
    } else {
        match path::path_fault(paths[from]) {
            Some(fault) => Some((ErrorCategory::Path, fault.text())),
            None => paths_fault(paths, from + 1),
        }
    }
}

/// Reads managed paths as they were given.
pub fn read_paths(paths: &[String]) -> (r: Result<Vec<ManagedPath>, GitveilError>)
    ensures
        match paths_fault(text::texts(paths@), 0) {
            None => r matches Ok(v) && path::path_texts(v@) == text::texts(paths@),
            Some(fault) => r matches Err(e) && e@ == fault,
        },
{
    let ghost all = text::texts(paths@);
    let mut out: Vec<ManagedPath> = Vec::new();
    let mut i: usize = 0;
    while i < paths.len()
        invariant
            i <= paths.len(),
            all == text::texts(paths@),
            paths_fault(all, 0) == paths_fault(all, i as int),
            out@.len() == i,
            forall|j: int| 0 <= j < i ==> (#[trigger] out@[j])@ == all[j],
        decreases paths.len() - i,
    {
        assert(all[i as int] == paths@[i as int]@);
        match ManagedPath::new(paths[i].as_str()) {
            Ok(item) => {
                out.push(item);
            },
            Err(error) => {
                return Err(GitveilError::new(ErrorCategory::Path, error.message().to_owned()));
            },
        }
        i = i + 1;
    }
    assert(path::path_texts(out@) =~= all);
    Ok(out)
}

/// The profile that is asked for, or the default one.
pub open spec fn profile_of(requested: Option<Seq<char>>) -> Option<Seq<char>> {
    match requested {
        None => Some("default"@),
        Some(name) => if profile::kebab_name(name) {
            Some(name)
        } else {
            None
        },
    }
}

pub open spec fn profile_fault(name: Seq<char>) -> Seq<char> {
    "invalid profile name "@ + text::quoted(name) + "; expected ^[a-z][a-z0-9-]{0,63}$"@
}

fn read_profile(requested: Option<&str>) -> (r: Result<ProfileName, GitveilError>)
    ensures
        match profile_of(manifest_document::view_text(requested)) {
            Some(name) => r matches Ok(p) && p@ == name,
            None => r matches Err(e) && requested matches Some(name) && e@ == (
                ErrorCategory::Configuration,
                profile_fault(name@),
            ),
        },
{
    match requested {
        None => Ok(ProfileName::default()),
        Some(name) => match ProfileName::new(name) {
            Ok(p) => Ok(p),
            Err(error) => Err(GitveilError::configuration(error.message().as_str())),
        },
    }
}

/// The entries that are asked for.
pub open spec fn requested_entries(
    paths: Seq<Seq<char>>,
    format: SourceFormat,
    policy: Seq<char>,
    profile: Seq<char>,
) -> Seq<EntryModel> {
    paths.map_values(|p: Seq<char>| EntryModel { path: p, format, policy, profile })
}

/// What registering files makes of a manifest, or why it is refused.
pub open spec fn registration_of(
    m: ManifestModel,
    paths: Seq<Seq<char>>,
    format: Seq<char>,
    profile: Option<Seq<char>>,
    policy: Option<Seq<char>>,
) -> Result<(SourceFormat, plan::RegistrationModel), (ErrorCategory, Seq<char>)> {
    match config::format_named(format) {
        None => Err(
            (
                ErrorCategory::Configuration,
                "unsupported source format "@ + text::quoted(format),
            ),
        ),
        Some(found) => match profile_of(profile) {
            None => Err((ErrorCategory::Configuration, profile_fault(profile->Some_0))),
            Some(chosen) => match manifest_document::selected_policy(
                m,
                policy,
                "--recipient-policy"@,
            ) {
                Err(fault) => Err(fault),
                Ok(name) => match paths_fault(paths, 0) {
                    Some(fault) => Err(fault),
                    None => match plan::registered(
                        m,
                        requested_entries(paths, found, name, chosen),
                    ) {
                        Err(fault) => Err((ErrorCategory::Configuration, fault.text())),
                        Ok(model) => Ok((found, model)),
                    },
                },
            },
        },
    }
}

fn build_requests(
    paths: &Vec<ManagedPath>,
    format: SourceFormat,
    policy: &PolicyName,
    profile: &ProfileName,
) -> (r: Vec<RegistrationRequest>)
    ensures
        plan::requests_of(r@) == requested_entries(
            path::path_texts(paths@),
            format,
            policy@,
            profile@,
        ),
{
    let ghost all = requested_entries(path::path_texts(paths@), format, policy@, profile@);
    let mut out: Vec<RegistrationRequest> = Vec::new();
    let mut i: usize = 0;
    while i < paths.len()
        invariant
            i <= paths.len(),
            all == requested_entries(path::path_texts(paths@), format, policy@, profile@),
            out@.len() == i,
            forall|j: int| 0 <= j < i ==> (#[trigger] out@[j])@ == all[j],
        decreases paths.len() - i,
    {
        out.push(
            RegistrationRequest {
                path: paths[i].clone(),
                format,
                recipient_policy: policy.clone(),
                profile: profile.clone(),
            },
        );
        i = i + 1;
    }
    assert(plan::requests_of(out@) =~= all);
    out
}

/// Plans the registration of files as they were asked for.
pub fn registration_plan(
    document: Manifest,
    paths: &[String],
    format: &str,
    profile: Option<&str>,
    recipient_policy: Option<&str>,
) -> (r: Result<(SourceFormat, RegistrationPlan), GitveilError>)
    ensures
        match registration_of(
            document@,
            text::texts(paths@),
            format@,
            manifest_document::view_text(profile),
            manifest_document::view_text(recipient_policy),
        ) {
            Ok((found, model)) => r matches Ok(v) && v.0 == found && v.1@ == model && (
            manifest::valid(document@) ==> manifest::valid(v.1@.manifest)),
            Err(fault) => r matches Err(e) && e@ == fault,
        },
{
    let found = match SourceFormat::from_str(format) {
        Ok(found) => found,
        Err(error) => {
            return Err(GitveilError::configuration(error.message().as_str()));
        },
    };
    let profile = match read_profile(profile) {
        Ok(profile) => profile,
        Err(error) => {
            return Err(error);
        },
    };
    let policy = match manifest_document::select_recipient_policy(
        &document,
        recipient_policy,
        "--recipient-policy",
    ) {
        Ok(policy) => policy,
        Err(error) => {
            return Err(error);
        },
    };
    let managed = match read_paths(paths) {
        Ok(managed) => managed,
        Err(error) => {
            return Err(error);
        },
    };
    match plan::plan_registration(document, build_requests(&managed, found, &policy, &profile)) {
        Ok(plan) => Ok((found, plan)),
        Err(error) => Err(GitveilError::configuration(error.message().as_str())),
    }
}

/// The first path that Git tracks.
pub open spec fn first_tracked(paths: Seq<Seq<char>>, indexed: Seq<Seq<char>>) -> Option<Seq<char>>
    decreases paths.len(),
{
    if paths.len() == 0 {
        None
    } else if indexed.contains(paths[0]) {
        Some(paths[0])
    } else {
        first_tracked(paths.skip(1), indexed)
    }
}

/// Refuses to manage plaintext that Git tracks.
pub fn refuse_tracked(paths: &[ManagedPath], indexed: &[ManagedPath]) -> (r: Result<
    (),
    GitveilError,
>)
    ensures
        match first_tracked(path::path_texts(paths@), path::path_texts(indexed@)) {
            None => r.is_ok(),
            Some(p) => r matches Err(e) && e@ == (
                ErrorCategory::Configuration,
                "plaintext path "@ + p
                    + " is tracked by Git; remove it from the index with `git rm --cached -- PATH` and retry"@,
            ),
        },
{
    let ghost all = path::path_texts(paths@);
    let mut i: usize = 0;
    assert(all.skip(0) =~= all);
    while i < paths.len()
        invariant
            i <= paths.len(),
            all == path::path_texts(paths@),
            first_tracked(all, path::path_texts(indexed@)) == first_tracked(
                all.skip(i as int),
                path::path_texts(indexed@),
            ),
        decreases paths.len() - i,
    {
        assert(all.skip(i as int)[0] == paths@[i as int]@);
        assert(all.skip(i as int).skip(1) =~= all.skip(i + 1));
        if path::contains_path(indexed, &paths[i]) {
            return Err(
                GitveilError::configuration(
                    text::cat3(
                        "plaintext path ",
                        paths[i].as_str(),
                        " is tracked by Git; remove it from the index with `git rm --cached -- PATH` and retry",
                    ).as_str(),
                ),
            );
        }
        i = i + 1;
    }
    Ok(())
}

/// Checks the plaintext of a file that is registered, if it is there. `raws` is what a
/// deserializer made of it.
pub fn check_plaintext(
    path: &ManagedPath,
    format: SourceFormat,
    input: Option<&[u8]>,
    raws: Result<Vec<StrictNode>, String>,
) -> (r: Result<bool, GitveilError>)
    ensures
        match step::view_input(input) {
            None => r == Ok::<bool, GitveilError>(false),
            Some(bytes) => match crate::source::format::parsed(
                format,
                bytes,
                yaml::view_raws(raws),
            ) {
                Ok(_) => r == Ok::<bool, GitveilError>(true),
                Err(fault) => r matches Err(e) && e@ == error::source_error(
                    path@,
                    format,
                    fault.text(),
                ),
            },
        },
{
    match input {
        None => Ok(false),
        Some(bytes) => match crate::source::parse(format, bytes, raws) {
            Ok(_) => Ok(true),
            Err(error) => Err(GitveilError::source(path, format, error.message().as_str())),
        },
    }
}

/// Checks the ciphertext of a file that is registered, if it is there.
pub fn check_ciphertext(cipher: &ManagedPath, format: SourceFormat, input: Option<&[u8]>) -> (r:
    Result<(), GitveilError>)
    ensures
        match step::view_input(input) {
            None => r.is_ok(),
            Some(bytes) => match pair::envelope_of(cipher@, format, bytes) {
                Ok(_) => r.is_ok(),
                Err(fault) => r matches Err(e) && e@ == fault,
            },
        },
{
    match input {
        None => Ok(()),
        Some(bytes) => match pair::parse_envelope(cipher, format, bytes) {
            Ok(_) => Ok(()),
            Err(error) => Err(error),
        },
    }
}

pub open spec fn entry_paths(entries: Seq<EntryModel>) -> Seq<Seq<char>> {
    entries.map_values(|e: EntryModel| e.path)
}

/// The paths of the managed files.
pub fn manifest_paths(document: &Manifest) -> (r: Vec<ManagedPath>)
    ensures
        path::path_texts(r@) == entry_paths(document@.entries),
{
    let entries = document.entries();
    let ghost all = entry_paths(document@.entries);
    let mut out: Vec<ManagedPath> = Vec::new();
    let mut i: usize = 0;
    while i < entries.len()
        invariant
            i <= entries.len(),
            all == entry_paths(document@.entries),
            document@.entries == manifest::entry_models(entries@),
            out@.len() == i,
            forall|j: int| 0 <= j < i ==> (#[trigger] out@[j])@ == all[j],
        decreases entries.len() - i,
    {
        assert(document@.entries[i as int] == entries@[i as int]@);
        out.push(entries[i].path().clone());
        i = i + 1;
    }
    assert(path::path_texts(out@) =~= all);
    out
}

/// The paths of both files of each pair.
pub open spec fn pair_paths(entries: Seq<EntryModel>) -> Seq<Seq<char>>
    decreases entries.len(),
{
    if entries.len() == 0 {
        Seq::empty()
    } else {
        let p = entries.last().path;
        pair_paths(entries.drop_last()).push(p).push(p + path::ciphertext_suffix())
    }
}

/// The paths whose visibility is evaluated.
pub fn visibility_paths(document: &Manifest) -> (r: Vec<ManagedPath>)
    ensures
        path::path_texts(r@) == pair_paths(document@.entries),
{
    let entries = document.entries();
    let ghost all = document@.entries;
    let mut out: Vec<ManagedPath> = Vec::new();
    let mut i: usize = 0;
    assert(path::path_texts(out@) =~= pair_paths(all.take(0)));
    while i < entries.len()
        invariant
            i <= entries.len(),
            all == manifest::entry_models(entries@),
            path::path_texts(out@) == pair_paths(all.take(i as int)),
        decreases entries.len() - i,
    {
        assert(all.take(i + 1).drop_last() =~= all.take(i as int));
        assert(all.take(i + 1).last() == entries@[i as int]@);
        let ghost before = out@;
        let ghost p = entries@[i as int]@.path;
        out.push(entries[i].path().clone());
        out.push(entries[i].ciphertext_path());
        assert(path::path_texts(out@) =~= path::path_texts(before).push(p).push(
            p + path::ciphertext_suffix(),
        ));
        i = i + 1;
    }
    assert(all.take(i as int) =~= all);
    out
}

/// A `.gitignore` for the files of a manifest.
pub open spec fn ignore_for(m: ManifestModel, original: Option<Seq<u8>>) -> Option<Seq<u8>> {
    ignore::managed_ignore(
        match original {
            Some(bytes) => bytes,
            None => Seq::empty(),
        },
        entry_paths(m.entries),
    )
}

pub open spec fn malformed_ignore() -> (ErrorCategory, Seq<char>) {
    (ErrorCategory::Configuration, ".gitignore contains a malformed Gitveil managed block"@)
}

/// Renders the `.gitignore` for the files of a manifest.
pub fn prepare_ignore(document: &Manifest, original: Option<&[u8]>) -> (r: Result<
    Vec<u8>,
    GitveilError,
>)
    ensures
        match ignore_for(document@, step::view_input(original)) {
            Some(bytes) => r matches Ok(v) && v@ == bytes,
            None => r matches Err(e) && e@ == malformed_ignore(),
        },
{
    let paths = manifest_paths(document);
    let none: Vec<u8> = Vec::new();
    assert(none@ =~= Seq::<u8>::empty());
    let existing = match original {
        Some(bytes) => bytes,
        None => none.as_slice(),
    };
    match ignore::render_managed_ignore(existing, paths.as_slice()) {
        Ok(candidate) => Ok(candidate),
        Err(error) => Err(GitveilError::configuration(error.message())),
    }
}

pub open spec fn ignore_changed() -> (ErrorCategory, Seq<char>) {
    (ErrorCategory::Concurrency, ".gitignore changed while gitveil add was running; retry"@)
}

fn same_input(a: Option<&[u8]>, b: Option<&[u8]>) -> (r: bool)
    ensures
        r == (step::view_input(a) == step::view_input(b)),
{
    match (a, b) {
        (Some(x), Some(y)) => bytes::eq(x, y),
        (None, None) => true,
        _ => false,
    }
}

/// Requires that `.gitignore` is as expected: as it was read, or as it was written.
pub fn require_ignore(current: Option<&[u8]>, expected: Option<&[u8]>) -> (r: Result<
    (),
    GitveilError,
>)
    ensures
        if step::view_input(current) == step::view_input(expected) {
            r.is_ok()
        } else {
            r matches Err(e) && e@ == ignore_changed()
        },
{
    if same_input(current, expected) {
        return Ok(());
    }
    Err(
        GitveilError::new(
            ErrorCategory::Concurrency,
            ".gitignore changed while gitveil add was running; retry".to_owned(),
        ),
    )
}

/// Whether the manifest is published after the ignore rules were written.
#[derive(Debug)]
pub enum PublicationDecision {
    Publish,
    /// The rules do not hide the plaintext, or hide the ciphertext. `restore` tells
    /// whether the former `.gitignore` is put back.
    Refuse { restore: bool, error: GitveilError },
}

pub enum DecisionModel {
    Publish,
    Refuse { restore: bool, error: (ErrorCategory, Seq<char>) },
}

impl View for PublicationDecision {
    type V = DecisionModel;

    open spec fn view(&self) -> DecisionModel {
        match self {
            PublicationDecision::Publish => DecisionModel::Publish,
            PublicationDecision::Refuse { restore, error } => DecisionModel::Refuse {
                restore: *restore,
                error: error@,
            },
        }
    }
}

/// Every path was ignored already.
pub open spec fn all_ignored(
    answers: Seq<(Seq<char>, Option<git_ignore::RuleModel>)>,
    paths: Seq<Seq<char>>,
) -> bool {
    forall|i: int|
        0 <= i < paths.len() ==> (git_ignore::answer_for(answers, #[trigger] paths[i]) matches Some(
            m,
        ) && git_ignore::ignored_by(m))
}

fn were_ignored(previous: &IgnoreMatches, paths: &[ManagedPath]) -> (r: bool)
    ensures
        r == all_ignored(previous@, path::path_texts(paths@)),
{
    let ghost all = path::path_texts(paths@);
    let mut i: usize = 0;
    while i < paths.len()
        invariant
            i <= paths.len(),
            all == path::path_texts(paths@),
            forall|j: int|
                0 <= j < i ==> (git_ignore::answer_for(previous@, #[trigger] all[j]) matches Some(m)
                    && git_ignore::ignored_by(m)),
        decreases paths.len() - i,
    {
        assert(all[i as int] == paths@[i as int]@);
        let ignored: bool = match previous.get(&paths[i]) {
            Some(m) => m.is_ignored(),
            None => false,
        };
        if !ignored {
            return false;
        }
        i = i + 1;
    }
    true
}

pub open spec fn violation_texts(list: Seq<plan::ViolationModel>) -> Seq<Seq<char>> {
    list.map_values(|v: plan::ViolationModel| v.text())
}

/// What is done after the ignore rules were written and evaluated. The former file is
/// put back only where no plaintext becomes visible by that.
pub open spec fn decision(
    m: ManifestModel,
    states: Seq<(Seq<char>, Option<git_ignore::RuleModel>)>,
    previous: Seq<(Seq<char>, Option<git_ignore::RuleModel>)>,
    existing: Seq<Seq<char>>,
) -> Result<DecisionModel, (ErrorCategory, Seq<char>)> {
    match plan::violations(states, m.entries) {
        Err(p) => Err(
            (ErrorCategory::Integrity, "Git ignore evaluation is missing path "@ + p),
        ),
        Ok(list) => if list.len() == 0 {
            Ok(DecisionModel::Publish)
        } else {
            Ok(
                DecisionModel::Refuse {
                    restore: all_ignored(previous, existing),
                    error: (
                        ErrorCategory::Configuration,
                        segment::join(violation_texts(list), "\n"@),
                    ),
                },
            )
        },
    }
}

fn describe_all(list: &Vec<VisibilityViolation>) -> (r: Vec<String>)
    ensures
        text::texts(r@) == violation_texts(plan::violations_of(list@)),
{
    let ghost all = violation_texts(plan::violations_of(list@));
    let mut out: Vec<String> = Vec::new();
    let mut i: usize = 0;
    while i < list.len()
        invariant
            i <= list.len(),
            all == violation_texts(plan::violations_of(list@)),
            out@.len() == i,
            forall|j: int| 0 <= j < i ==> (#[trigger] out@[j])@ == all[j],
        decreases list.len() - i,
    {
        assert(plan::violations_of(list@)[i as int] == list@[i as int]@);
        out.push(list[i].describe());
        i = i + 1;
    }
    assert(text::texts(out@) =~= all);
    out
}

/// Decides on the publication of a manifest.
pub fn decide_publication(
    document: &Manifest,
    states: &IgnoreStates,
    previous: &IgnoreMatches,
    existing: &[ManagedPath],
) -> (r: Result<PublicationDecision, GitveilError>)
    ensures
        match decision(document@, states@, previous@, path::path_texts(existing@)) {
            Ok(model) => r matches Ok(d) && d@ == model,
            Err(fault) => r matches Err(e) && e@ == fault,
        },
{
    let violations = match plan::visibility_violations(document, states) {
        Ok(violations) => violations,
        Err(error) => {
            return Err(GitveilError::new(ErrorCategory::Integrity, error.message()));
        },
    };
    assert(plan::violations_of(violations@).len() == violations@.len());
    if violations.len() == 0 {
        return Ok(PublicationDecision::Publish);
    }
    let message = segment::joined(describe_all(&violations).as_slice(), "\n");
    Ok(
        PublicationDecision::Refuse {
            restore: were_ignored(previous, existing),
            error: GitveilError::configuration(message.as_str()),
        },
    )
}

/// The paths that must stay ignored after the manifest changed under a registration:
/// those of the latest manifest that can be read, and those of the candidate.
pub open spec fn recovery_paths(latest: Option<Seq<u8>>, candidate: ManifestModel) -> Seq<
    Seq<char>,
> {
    let newest = match latest {
        Some(bytes) => match manifest::read_bytes(bytes) {
            Ok(m) => entry_paths(m.entries),
            Err(_) => Seq::empty(),
        },
        None => Seq::empty(),
    };
    plan::protected(newest + entry_paths(candidate.entries))
}

/// The `.gitignore` that protects all of these, where it is not there already.
pub fn recover_ignore(
    latest: Option<&[u8]>,
    candidate: &Manifest,
    current: &[u8],
) -> (r: Result<Option<Vec<u8>>, GitveilError>)
    ensures
        match ignore::managed_ignore(
            current@,
            recovery_paths(step::view_input(latest), candidate@),
        ) {
            None => r matches Err(e) && e@ == malformed_ignore(),
            Some(bytes) => if bytes == current@ {
                r matches Ok(None)
            } else {
                r matches Ok(Some(v)) && v@ == bytes
            },
        },
{
    let none: Vec<ManagedPath> = Vec::new();
    assert(path::path_texts(none@) =~= Seq::<Seq<char>>::empty());
    let newest = match latest {
        Some(bytes) => match Manifest::parse(bytes) {
            Ok(document) => manifest_paths(&document),
            Err(_) => none,
        },
        None => none,
    };
    let paths = plan::merge_protection_paths(
        newest.as_slice(),
        manifest_paths(candidate).as_slice(),
    );
    match ignore::render_managed_ignore(current, paths.as_slice()) {
        Ok(recovered) => if bytes::eq(recovered.as_slice(), current) {
            Ok(None)
        } else {
            Ok(Some(recovered))
        },
        Err(error) => Err(GitveilError::configuration(error.message())),
    }
}

/// The error where `.gitignore` changed while it was being recovered.
pub fn recovery_raced() -> (r: GitveilError)
    ensures
        r@ == (
            ErrorCategory::Concurrency,
            ".gitignore changed during concurrency recovery; retry"@,
        ),
{
    GitveilError::new(
        ErrorCategory::Concurrency,
        ".gitignore changed during concurrency recovery; retry".to_owned(),
    )
}

/// The error where a plaintext file went away during its registration.
pub fn plaintext_gone(path: &ManagedPath) -> (r: GitveilError)
    ensures
        r@ == (
            ErrorCategory::Concurrency,
            "plaintext path "@ + path@ + " disappeared while gitveil add was running"@,
        ),
{
    GitveilError::new(
        ErrorCategory::Concurrency,
        text::cat3(
            "plaintext path ",
            path.as_str(),
            " disappeared while gitveil add was running",
        ),
    )
}

#[derive(Clone, Copy, Debug, PartialEq, Eq, Structural)]
pub enum AddOutcomeKind {
    AddedExisting,
    AddedMissing,
    AlreadyManaged,
}

/// What became of a requested file.
#[derive(Debug)]
pub struct AddOutcome {
    path: ManagedPath,
    kind: AddOutcomeKind,
    plaintext_exists: bool,
}

pub struct AddModel {
    pub path: Seq<char>,
    pub kind: AddOutcomeKind,
    pub plaintext_exists: bool,
}

impl View for AddOutcome {
    type V = AddModel;

    closed spec fn view(&self) -> AddModel {
        AddModel { path: self.path@, kind: self.kind, plaintext_exists: self.plaintext_exists }
    }
}

impl AddOutcome {
    pub fn path(&self) -> (r: &ManagedPath)
        ensures
            r@ == self@.path,
    {
        &self.path
    }

    pub fn kind(&self) -> (r: AddOutcomeKind)
        ensures
            r == self@.kind,
    {
        self.kind
    }

    pub fn plaintext_exists(&self) -> (r: bool)
        ensures
            r == self@.plaintext_exists,
    {
        self.plaintext_exists
    }
}

pub open spec fn add_outcome(p: Seq<char>, kind: RegistrationKind, existing: Seq<Seq<char>>) -> AddModel {
    let there = existing.contains(p);
    AddModel {
        path: p,
        plaintext_exists: there,
        kind: match kind {
            RegistrationKind::AlreadyManaged => AddOutcomeKind::AlreadyManaged,
            RegistrationKind::Added => if there {
                AddOutcomeKind::AddedExisting
            } else {
                AddOutcomeKind::AddedMissing
            },
        },
    }
}

pub open spec fn add_models(v: Seq<AddOutcome>) -> Seq<AddModel> {
    v.map_values(|o: AddOutcome| o@)
}

/// Lists what became of each requested file, in the order of the requests.
pub fn add_outcomes(plan: &RegistrationPlan, existing: &[ManagedPath]) -> (r: Vec<AddOutcome>)
    ensures
        add_models(r@) == plan@.outcomes.map_values(
            |o: (Seq<char>, RegistrationKind)|
                add_outcome(o.0, o.1, path::path_texts(existing@)),
        ),
{
    let outcomes = plan.outcomes();
    let ghost all = plan@.outcomes;
    let ghost there = path::path_texts(existing@);
    let mut out: Vec<AddOutcome> = Vec::new();
    let mut i: usize = 0;
    while i < outcomes.len()
        invariant
            i <= outcomes.len(),
            all == plan::outcomes_of(outcomes@),
            there == path::path_texts(existing@),
            out@.len() == i,
            forall|j: int|
                0 <= j < i ==> (#[trigger] out@[j])@ == add_outcome(all[j].0, all[j].1, there),
        decreases outcomes.len() - i,
    {
        assert(all[i as int] == (outcomes@[i as int].0@, outcomes@[i as int].1));
        let plaintext_exists = path::contains_path(existing, &outcomes[i].0);
        let kind = match outcomes[i].1 {
            RegistrationKind::AlreadyManaged => AddOutcomeKind::AlreadyManaged,
            RegistrationKind::Added => if plaintext_exists {
                AddOutcomeKind::AddedExisting
            } else {
                AddOutcomeKind::AddedMissing
            },
        };
        out.push(AddOutcome { path: outcomes[i].0.clone(), kind, plaintext_exists });
        i = i + 1;
    }
    assert(add_models(out@) =~= all.map_values(
        |o: (Seq<char>, RegistrationKind)| add_outcome(o.0, o.1, there),
    ));
    out
}

/// Law: a repository is set up exactly where the policy has a name of the right form and at
/// least one recipient, each valid and named once; its manifest then declares that policy and
/// no file.
pub proof fn law_setup_declares_one_policy(policy: Seq<char>, recipients: Seq<Seq<char>>)
    ensures
        initialized(policy, recipients) is Ok <==> profile::kebab_name(policy) && recipients.len()
            > 0 && recipients.no_duplicates() && forall|i: int|
            0 <= i < recipients.len() ==> recipient::recipient_fault(#[trigger] recipients[i])
                is None,
        initialized(policy, recipients) matches Ok(m) ==> m.policy == policy && m.recipient_count
            == recipients.len() && exists|t: ManifestModel| #[trigger]
            manifest::manifest_bytes(t) == m.manifest && manifest::valid(t) && t.entries.len() == 0
                && t.policies == seq![PolicyModel { name: policy, recipients }],
{
    lemma_request_fault(recipients, 0);
    if initialized(policy, recipients) is Ok {
        let m = ManifestModel {
            entries: Seq::empty(),
            policies: seq![PolicyModel { name: policy, recipients }],
        };
        assert(manifest::names_of(m.policies) =~= seq![policy]);
        assert(manifest::valid(m));
        assert(manifest::manifest_bytes(m) == initialized(policy, recipients)->Ok_0.manifest);
    }
}

proof fn lemma_request_fault(list: Seq<Seq<char>>, from: int)
    requires
        0 <= from <= list.len(),
    ensures
        recipients::request_fault(list, from) is None <==> forall|i: int|
            from <= i < list.len() ==> recipient::recipient_fault(#[trigger] list[i]) is None,
    decreases list.len() - from,
{
    if from < list.len() {
        lemma_request_fault(list, from + 1);
    }
}

/// Law: plaintext that Git tracks is refused, and only such: where a path is named it is one
/// of the requested ones that the index holds, and where none is named none is tracked.
pub proof fn law_tracked_plaintext_is_refused(paths: Seq<Seq<char>>, indexed: Seq<Seq<char>>)
    ensures
        first_tracked(paths, indexed) matches Some(p) ==> paths.contains(p) && indexed.contains(p),
        first_tracked(paths, indexed) is None ==> forall|i: int|
            0 <= i < paths.len() ==> !indexed.contains(#[trigger] paths[i]),
    decreases paths.len(),
{
    if paths.len() > 0 {
        let rest = paths.skip(1);
        law_tracked_plaintext_is_refused(rest, indexed);
        assert(forall|i: int| 0 <= i < rest.len() ==> rest[i] == paths[i + 1]);
        if indexed.contains(paths[0]) {
            assert(paths.contains(paths[0]));
        } else {
            if first_tracked(rest, indexed) is Some {
                let p = first_tracked(rest, indexed)->Some_0;
                let i = choose|i: int| 0 <= i < rest.len() && rest[i] == p;
                assert(paths[i + 1] == p);
            } else {
                assert forall|i: int| 0 <= i < paths.len() implies !indexed.contains(
                    #[trigger] paths[i],
                ) by {
                    if i > 0 {
                        assert(rest[i - 1] == paths[i]);
                    }
                }
            }
        }
    }
}

/// Law: the visibility of both files of every entry is evaluated, and of no other file.
pub proof fn law_both_files_are_evaluated(entries: Seq<EntryModel>, p: Seq<char>)
    ensures
        pair_paths(entries).contains(p) <==> exists|i: int|
            0 <= i < entries.len() && (p == (#[trigger] entries[i]).path || p == entries[i].path
                + path::ciphertext_suffix()),
        pair_paths(entries).len() == 2 * entries.len(),
    decreases entries.len(),
{
    if entries.len() > 0 {
        let before = entries.drop_last();
        law_both_files_are_evaluated(before, p);
        assert(forall|i: int| 0 <= i < before.len() ==> before[i] == entries[i]);
        let (head, all) = (pair_paths(before), pair_paths(entries));
        let last = entries[entries.len() - 1];
        assert(all[head.len() as int] == last.path);
        assert(all[head.len() as int + 1] == last.path + path::ciphertext_suffix());
        assert(forall|i: int| 0 <= i < head.len() ==> head[i] == all[i]);
        if head.contains(p) {
            let k = choose|k: int| 0 <= k < head.len() && head[k] == p;
            assert(all[k] == p);
            let i = choose|i: int|
                0 <= i < before.len() && (p == (#[trigger] before[i]).path || p == before[i].path
                    + path::ciphertext_suffix());
            assert(entries[i] == before[i]);
        }
        if all.contains(p) && !head.contains(p) {
            let k = choose|k: int| 0 <= k < all.len() && all[k] == p;
            if k < head.len() {
                assert(head[k] == p);
            }
            assert(p == entries[entries.len() - 1].path || p == entries[entries.len() - 1].path
                + path::ciphertext_suffix());
        }
        if exists|i: int|
            0 <= i < entries.len() && (p == (#[trigger] entries[i]).path || p == entries[i].path
                + path::ciphertext_suffix()) {
            let i = choose|i: int|
                0 <= i < entries.len() && (p == (#[trigger] entries[i]).path || p
                    == entries[i].path + path::ciphertext_suffix());
            if i < before.len() {
                assert(before[i] == entries[i]);
            }
        }
    }
}

/// Law: files are registered as they were requested: each path with the format that was
/// named, the policy that is selected, and the profile that was named or the default one.
pub proof fn law_requests_are_registered(
    m: ManifestModel,
    paths: Seq<Seq<char>>,
    format: Seq<char>,
    profile: Option<Seq<char>>,
    policy: Option<Seq<char>>,
    i: int,
)
    requires
        registration_of(m, paths, format, profile, policy) is Ok,
        0 <= i < paths.len(),
    ensures
        ({
            let (found, plan) = registration_of(m, paths, format, profile, policy)->Ok_0;
            let name = manifest_document::selected_policy(m, policy, "--recipient-policy"@);
            &&& found.name() == format
            &&& path::path_fault(paths[i]) is None
            &&& name is Ok
            &&& plan.outcomes[i].0 == paths[i]
            &&& plan.manifest.policies == m.policies
            &&& plan.manifest.entries.contains(
                EntryModel {
                    path: paths[i],
                    format: found,
                    policy: name->Ok_0,
                    profile: match profile {
                        Some(chosen) => chosen,
                        None => "default"@,
                    },
                },
            )
        }),
{
    let found = config::format_named(format)->Some_0;
    let name = manifest_document::selected_policy(m, policy, "--recipient-policy"@)->Ok_0;
    let chosen = profile_of(profile)->Some_0;
    let requests = requested_entries(paths, found, name, chosen);
    crate::config::law_formats_are_found_by_name(found, format);
    plan::law_registration_adds_what_is_new(m, requests);
    lemma_paths_fault(paths, 0, i);
    let outcome = plan::registered(m, requests)->Ok_0;
    assert(outcome.outcomes[i].0 == requests[i].path);
    assert(requests[i].path == paths[i]);
}

proof fn lemma_paths_fault(paths: Seq<Seq<char>>, from: int, i: int)
    requires
        0 <= from <= i < paths.len(),
        paths_fault(paths, from) is None,
    ensures
        path::path_fault(paths[i]) is None,
    decreases i - from,
{
    if from < i {
        lemma_paths_fault(paths, from + 1, i);
    }
}

/// Law: a manifest is published exactly where every plaintext of it is ignored and no
/// ciphertext is. Otherwise the former ignore file is put back exactly where each plaintext
/// that exists was ignored by it, so that nothing becomes visible.
pub proof fn law_nothing_visible_is_published(
    m: ManifestModel,
    states: Seq<(Seq<char>, Option<git_ignore::RuleModel>)>,
    previous: Seq<(Seq<char>, Option<git_ignore::RuleModel>)>,
    existing: Seq<Seq<char>>,
)
    ensures
        match decision(m, states, previous, existing) {
            Ok(DecisionModel::Publish) => forall|i: int|
                0 <= i < m.entries.len() ==> (plan::state_of(
                    states,
                    (#[trigger] m.entries[i]).path,
                ) matches Some(Some(rule)) && rule.ignored) && (plan::state_of(
                    states,
                    m.entries[i].path + path::ciphertext_suffix(),
                ) matches Some(found) && !(found matches Some(rule) && rule.ignored)),
            Ok(DecisionModel::Refuse { restore, error }) => {
                &&& error.0 == ErrorCategory::Configuration
                &&& restore <==> forall|i: int|
                    0 <= i < existing.len() ==> (git_ignore::answer_for(
                        previous,
                        #[trigger] existing[i],
                    ) matches Some(Some(rule)) && rule.ignored)
                &&& exists|i: int, v: plan::ViolationModel|
                    0 <= i < m.entries.len() && #[trigger] plan::misplaced(states, m.entries[i], v)
            },
            Err(e) => e.0 == ErrorCategory::Integrity,
        },
{
    match plan::violations(states, m.entries) {
        Ok(list) => {
            if list.len() == 0 {
                assert(list =~= Seq::<plan::ViolationModel>::empty());
                assert forall|i: int| 0 <= i < m.entries.len() implies (plan::state_of(
                    states,
                    (#[trigger] m.entries[i]).path,
                ) matches Some(Some(rule)) && rule.ignored) && (plan::state_of(
                    states,
                    m.entries[i].path + path::ciphertext_suffix(),
                ) matches Some(found) && !(found matches Some(rule) && rule.ignored)) by {
                    plan::law_no_violation_means_hidden_plaintext(states, m.entries, i);
                }
            } else {
                let v = list[0];
                plan::law_violations_are_exact(states, m.entries, v);
                assert(list.contains(v));
                let i = choose|i: int|
                    0 <= i < m.entries.len() && plan::misplaced(
                        states,
                        #[trigger] m.entries[i],
                        v,
                    );
                assert(plan::misplaced(states, m.entries[i], v));
                lemma_all_ignored(previous, existing);
            }
        },
        Err(_) => {},
    }
}

proof fn lemma_all_ignored(
    previous: Seq<(Seq<char>, Option<git_ignore::RuleModel>)>,
    existing: Seq<Seq<char>>,
)
    ensures
        all_ignored(previous, existing) <==> forall|i: int|
            0 <= i < existing.len() ==> (git_ignore::answer_for(
                previous,
                #[trigger] existing[i],
            ) matches Some(Some(rule)) && rule.ignored),
{
}

/// Law: what is reported of a requested file is whether it was new to the manifest and
/// whether its plaintext exists.
pub proof fn law_additions_are_reported(p: Seq<char>, kind: RegistrationKind, existing: Seq<Seq<char>>)
    ensures
        ({
            let r = add_outcome(p, kind, existing);
            &&& r.path == p
            &&& r.plaintext_exists <==> existing.contains(p)
            &&& r.kind == AddOutcomeKind::AlreadyManaged <==> kind
                == RegistrationKind::AlreadyManaged
            &&& r.kind == AddOutcomeKind::AddedExisting <==> kind == RegistrationKind::Added
                && existing.contains(p)
        }),
{
}

} // verus!
