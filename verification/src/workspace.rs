//! Workspace rules shared by every command.
//!
//! A workspace is anchored by `.gitveilrc.json`. Inside a Git repository the
//! manifest must live at the repository root; outside a repository it is looked
//! for in the working directory and its parents.

use vstd::prelude::*;

use crate::configure::step;
use crate::error::{ErrorCategory, GitveilError};
use crate::manifest;
use crate::manifest::{EntryModel, Manifest, ManifestModel, ResolvedManifestEntry};
use crate::profile;
use crate::profile::ProfileName;
use crate::recipient::PolicyModel;
use crate::text;

verus! {

/// The mode of plaintext files: for the owner alone.
pub const PLAINTEXT_MODE: u32 = 384;

/// The mode of ciphertext files.
pub const CIPHERTEXT_MODE: u32 = 420;

/// Entries together with the policies that they name; the first that names none fails.
pub open spec fn resolutions(policies: Seq<PolicyModel>, list: Seq<EntryModel>) -> Result<
    Seq<(EntryModel, PolicyModel)>,
    (ErrorCategory, Seq<char>),
>
    decreases list.len(),
{
    if list.len() == 0 {
        Ok(Seq::empty())
    } else {
        match resolutions(policies, list.drop_last()) {
            Err(fault) => Err(fault),
            Ok(head) => match manifest::policy_of(policies, list.last().policy) {
                Some(policy) => Ok(head.push((list.last(), policy))),
                None => Err(lost_policy(list.last())),
            },
        }
    }
}

pub open spec fn lost_policy(e: EntryModel) -> (ErrorCategory, Seq<char>) {
    (
        ErrorCategory::Integrity,
        "validated manifest entry "@ + e.path + " lost recipient policy "@ + e.policy,
    )
}

/// The entries that paths and a profile, as they were given, select.
pub open spec fn entries_of(
    m: ManifestModel,
    paths: Seq<Seq<char>>,
    wanted: Option<Seq<char>>,
) -> Result<Seq<(EntryModel, PolicyModel)>, (ErrorCategory, Seq<char>)> {
    match step::paths_fault(paths, 0) {
        Some(fault) => Err(fault),
        None => if wanted matches Some(name) && !profile::kebab_name(name) {
            Err(
                (
                    ErrorCategory::Configuration,
                    "invalid profile name "@ + text::quoted(wanted->Some_0)
                        + "; expected ^[a-z][a-z0-9-]{0,63}$"@,
                ),
            )
        } else {
            match manifest::selection(m.entries, paths, wanted) {
                Err(fault) => Err((ErrorCategory::Configuration, fault.text())),
                Ok(list) => resolutions(m.policies, list),
            }
        },
    }
}

pub open spec fn resolved_models(v: Seq<ResolvedManifestEntry>) -> Seq<(EntryModel, PolicyModel)> {
    v.map_values(|e: ResolvedManifestEntry| e@)
}

proof fn lemma_resolutions_fail(policies: Seq<PolicyModel>, list: Seq<EntryModel>, n: int)
    requires
        0 <= n <= list.len(),
        resolutions(policies, list.take(n)) is Err,
    ensures
        resolutions(policies, list) == resolutions(policies, list.take(n)),
    decreases list.len() - n,
{
    if n < list.len() {
        assert(list.take(n + 1).drop_last() =~= list.take(n));
        lemma_resolutions_fail(policies, list, n + 1);
    } else {
        assert(list.take(n) =~= list);
    }
}

pub open spec fn view_text_option(v: Option<&str>) -> Option<Seq<char>> {
    match v {
        Some(s) => Some(s@),
        None => None,
    }
}

fn resolve_all<'a>(document: &'a Manifest, list: &Vec<&'a manifest::ManifestEntry>) -> (r: Result<
    Vec<ResolvedManifestEntry<'a>>,
    GitveilError,
>)
    ensures
        match resolutions(document@.policies, manifest::selected_models(list@)) {
            Ok(models) => r matches Ok(v) && resolved_models(v@) == models,
            Err(fault) => r matches Err(e) && e@ == fault,
        },
{
    let ghost all = manifest::selected_models(list@);
    let ghost policies = document@.policies;
    let mut out: Vec<ResolvedManifestEntry<'a>> = Vec::new();
    let mut i: usize = 0;
    assert(all.take(0) =~= Seq::<EntryModel>::empty());
    assert(resolved_models(out@) =~= Seq::<(EntryModel, PolicyModel)>::empty());
    while i < list.len()
        invariant
            i <= list.len(),
            all == manifest::selected_models(list@),
            policies == document@.policies,
            resolutions(policies, all.take(i as int)) == Ok::<
                Seq<(EntryModel, PolicyModel)>,
                (ErrorCategory, Seq<char>),
            >(resolved_models(out@)),
        decreases list.len() - i,
    {
        assert(all.take(i + 1).drop_last() =~= all.take(i as int));
        assert(all.take(i + 1).last() == list@[i as int]@);
        match document.resolve_entry(list[i]) {
            Some(entry) => {
                let ghost held = out@;
                out.push(entry);
                assert(resolved_models(out@) =~= resolved_models(held).push(entry@));
            },
            None => {
                proof {
                    lemma_resolutions_fail(policies, all, i + 1);
                }
                let head = text::cat2("validated manifest entry ", list[i].path().as_str());
                return Err(
                    GitveilError::new(
                        ErrorCategory::Integrity,
                        text::cat3(
                            head.as_str(),
                            " lost recipient policy ",
                            list[i].recipient_policy().as_str(),
                        ),
                    ),
                );
            },
        }
        i = i + 1;
    }
    assert(all.take(i as int) =~= all);
    Ok(out)
}

/// Resolves entries selected by managed paths and an optional profile.
///
/// No selectors means every manifest entry. Paths and profile compose as
/// a constrained intersection: every requested path must belong to the
/// profile, and the complete selection is validated before effects begin.
pub fn select_entries<'a>(
    document: &'a Manifest,
    paths: &[String],
    profile: Option<&str>,
) -> (r: Result<Vec<ResolvedManifestEntry<'a>>, GitveilError>)
    ensures
        match entries_of(document@, text::texts(paths@), view_text_option(profile)) {
            Ok(models) => r matches Ok(v) && resolved_models(v@) == models,
            Err(fault) => r matches Err(e) && e@ == fault,
        },
{
    let managed = match step::read_paths(paths) {
        Ok(managed) => managed,
        Err(error) => {
            return Err(error);
        },
    };
    let wanted: Option<ProfileName> = match profile {
        Some(name) => match ProfileName::new(name) {
            Ok(wanted) => Some(wanted),
            Err(error) => {
                return Err(GitveilError::configuration(error.message().as_str()));
            },
        },
        None => None,
    };
    match document.select(managed.as_slice(), wanted.as_ref()) {
        Ok(list) => resolve_all(document, &list),
        Err(error) => Err(GitveilError::configuration(error.message().as_str())),
    }
}

/// Refuses a repository without a manifest at its root.
pub fn require_manifest(present: bool) -> (r: Result<(), GitveilError>)
    ensures
        if present {
            r.is_ok()
        } else {
            r matches Err(e) && e@ == (
                ErrorCategory::Configuration,
                ".gitveilrc.json not found at the repository root; create it to declare managed files"@,
            )
        },
{
    if present {
        return Ok(());
    }
    Err(
        GitveilError::configuration(
            ".gitveilrc.json not found at the repository root; create it to declare managed files",
        ),
    )
}

/// The nearest directory that holds a manifest, given which of the working directory
/// and its parents, nearest first, do.
pub fn nearest_manifest(present: &[bool]) -> (r: Result<usize, GitveilError>)
    ensures
        match r {
            Ok(i) => i < present@.len() && present@[i as int] && forall|j: int|
                0 <= j < i ==> !present@[j],
            Err(e) => (forall|j: int| 0 <= j < present@.len() ==> !present@[j]) && e@ == (
                ErrorCategory::Configuration,
                ".gitveilrc.json not found in this directory or any parent; create it to declare managed files"@,
            ),
        },
{
    let mut i: usize = 0;
    while i < present.len()
        invariant
            i <= present.len(),
            forall|j: int| 0 <= j < i ==> !present@[j],
        decreases present.len() - i,
    {
        if present[i] {
            return Ok(i);
        }
        i = i + 1;
    }
    Err(
        GitveilError::configuration(
            ".gitveilrc.json not found in this directory or any parent; create it to declare managed files",
        ),
    )
}

/// Refuses a command that needs a repository where there is none.
pub fn require_repository(present: bool) -> (r: Result<(), GitveilError>)
    ensures
        if present {
            r.is_ok()
        } else {
            r matches Err(e) && e@ == (
                ErrorCategory::Configuration,
                "this command requires a Git repository"@,
            )
        },
{
    if present {
        Ok(())
    } else {
        Err(GitveilError::configuration("this command requires a Git repository"))
    }
}

/// Law: in a manifest that was read, every selected entry has its policy: whatever is
/// selected is resolved in whole.
pub proof fn law_selected_entries_have_policies(
    m: ManifestModel,
    paths: Seq<Seq<char>>,
    wanted: Option<Seq<char>>,
)
    requires
        manifest::valid(m),
    ensures
        entries_of(m, paths, wanted) matches Err(fault) ==> fault.0 != ErrorCategory::Integrity,
        entries_of(m, paths, wanted) matches Ok(list) ==> {
            let selected = manifest::selection(m.entries, paths, wanted)->Ok_0;
            &&& list.len() == selected.len()
            &&& forall|i: int|
                0 <= i < list.len() ==> (#[trigger] list[i]).0 == selected[i] && list[i].1.name
                    == selected[i].policy
        },
{
    lemma_paths_fault(paths, 0);
    if step::paths_fault(paths, 0) is None && manifest::selection(m.entries, paths, wanted) is Ok {
        let selected = manifest::selection(m.entries, paths, wanted)->Ok_0;
        manifest::law_selection_takes_entries(m.entries, paths, wanted);
        assert forall|i: int| 0 <= i < selected.len() implies manifest::policy_of(
            m.policies,
            (#[trigger] selected[i]).policy,
        ) is Some by {
            let k = choose|k: int| 0 <= k < m.entries.len() && m.entries[k] == selected[i];
            assert(manifest::valid_entry(m.entries[k], m.policies));
        }
        lemma_resolutions(m.policies, selected);
    }
}

proof fn lemma_paths_fault(paths: Seq<Seq<char>>, from: int)
    ensures
        step::paths_fault(paths, from) matches Some(fault) ==> fault.0 == ErrorCategory::Path,
    decreases paths.len() - from,
{
    if 0 <= from < paths.len() {
        lemma_paths_fault(paths, from + 1);
    }
}

proof fn lemma_resolutions(policies: Seq<PolicyModel>, list: Seq<EntryModel>)
    requires
        forall|i: int|
            0 <= i < list.len() ==> manifest::policy_of(policies, (#[trigger] list[i]).policy)
                is Some,
    ensures
        resolutions(policies, list) matches Ok(out) && out.len() == list.len() && forall|i: int|
            0 <= i < list.len() ==> (#[trigger] out[i]).0 == list[i] && out[i].1.name
                == list[i].policy,
    decreases list.len(),
{
    if list.len() > 0 {
        let head = list.drop_last();
        assert forall|i: int| 0 <= i < head.len() implies manifest::policy_of(
            policies,
            (#[trigger] head[i]).policy,
        ) is Some by {
            assert(head[i] == list[i]);
        }
        lemma_resolutions(policies, head);
        assert(list[list.len() - 1] == list.last());
        manifest::lemma_policy_of(policies, list.last().policy);
        let out = resolutions(policies, list)->Ok_0;
        assert forall|i: int| 0 <= i < list.len() implies (#[trigger] out[i]).0 == list[i]
            && out[i].1.name == list[i].policy by {
            if i < head.len() {
                assert(out[i] == resolutions(policies, head)->Ok_0[i]);
                assert(head[i] == list[i]);
            }
        }
    }
}

} // verus!
