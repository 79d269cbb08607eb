//! Safe read-modify-republish of the manifest document.
//!
//! Commands that change the configuration share these rules: they run at the root of
//! the repository, they retain the original bytes of the manifest for freshness
//! checks, and they never overwrite a document that changed in the meantime.

use vstd::prelude::*;

use crate::bytes;
use crate::error::{ErrorCategory, GitveilError};
use crate::manifest;
use crate::manifest::{Manifest, ManifestModel};
use crate::path::ManagedPath;
use crate::recipient;
use crate::recipient::PolicyName;
use crate::seal::step;
use crate::segment;
use crate::text;

verus! {

/// The permissions of a configuration file that is new.
pub const DEFAULT_MODE: u32 = 0o644;

/// A loaded manifest document: the original bytes and the mode that are needed to
/// republish it without clobbering concurrent writes.
#[derive(Debug)]
pub struct ManifestPreparation {
    path: ManagedPath,
    original: Vec<u8>,
    mode: u32,
}

pub struct PreparationModel {
    pub path: Seq<char>,
    pub original: Seq<u8>,
    pub mode: u32,
}

impl View for ManifestPreparation {
    type V = PreparationModel;

    closed spec fn view(&self) -> PreparationModel {
        PreparationModel { path: self.path@, original: self.original@, mode: self.mode }
    }
}

impl ManifestPreparation {
    pub fn new(path: ManagedPath, original: Vec<u8>, mode: u32) -> (r: ManifestPreparation)
        ensures
            r@ == (PreparationModel { path: path@, original: original@, mode }),
    {
        ManifestPreparation { path, original, mode }
    }

    pub fn path(&self) -> (r: &ManagedPath)
        ensures
            r@ == self@.path,
    {
        &self.path
    }

    pub fn original(&self) -> (r: &[u8])
        ensures
            r@ == self@.original,
    {
        self.original.as_slice()
    }

    pub fn mode(&self) -> (r: u32)
        ensures
            r == self@.mode,
    {
        self.mode
    }

    /// Whether the document on disk still carries the loaded bytes.
    pub fn is_fresh(&self, current: Option<&[u8]>) -> (r: bool)
        ensures
            r == (step::view_input(current) == Some(self@.original)),
    {
        match current {
            Some(current) => bytes::eq(current, self.original.as_slice()),
            None => false,
        }
    }
}

/// The manifest that a document holds, or why it cannot be used.
pub open spec fn loaded(input: Option<Seq<u8>>) -> Result<ManifestModel, (ErrorCategory, Seq<char>)> {
    match input {
        None => Err(
            (
                ErrorCategory::Configuration,
                ".gitveilrc.json not found at the repository root; run gitveil init first"@,
            ),
        ),
        Some(bytes) => match manifest::read_bytes(bytes) {
            Ok(m) => Ok(m),
            Err(fault) => Err((ErrorCategory::Configuration, fault.text())),
        },
    }
}

/// Reads the manifest document of a repository that is to be changed.
pub fn load_manifest(input: Option<&[u8]>) -> (r: Result<Manifest, GitveilError>)
    ensures
        match loaded(step::view_input(input)) {
            Ok(m) => r matches Ok(document) && document@ == m && manifest::valid(m),
            Err(fault) => r matches Err(e) && e@ == fault,
        },
{
    match input {
        None => Err(
            GitveilError::configuration(
                ".gitveilrc.json not found at the repository root; run gitveil init first",
            ),
        ),
        Some(bytes) => match Manifest::parse(bytes) {
            Ok(document) => Ok(document),
            Err(error) => Err(GitveilError::configuration(error.message().as_str())),
        },
    }
}

/// The bytes of a manifest, where its own reader takes them for it.
pub open spec fn serialized(m: ManifestModel) -> Result<Seq<u8>, (ErrorCategory, Seq<char>)> {
    if manifest::read_bytes(manifest::manifest_bytes(m)) == Ok::<
        ManifestModel,
        manifest::ManifestFault,
    >(m) {
        Ok(manifest::manifest_bytes(m))
    } else {
        Err(
            (
                ErrorCategory::Integrity,
                "Gitveil manifest writer violated its internal reader contract"@,
            ),
        )
    }
}

pub fn serialize_manifest(document: &Manifest) -> (r: Result<Vec<u8>, GitveilError>)
    ensures
        match serialized(document@) {
            Ok(bytes) => r matches Ok(v) && v@ == bytes,
            Err(fault) => r matches Err(e) && e@ == fault,
        },
        manifest::valid(document@) ==> r.is_ok(),
{
    match document.to_json_bytes() {
        Ok(bytes) => Ok(bytes),
        Err(_) => Err(
            GitveilError::new(
                ErrorCategory::Integrity,
                "Gitveil manifest writer violated its internal reader contract".to_owned(),
            ),
        ),
    }
}

pub open spec fn changed_fault(command: Seq<char>) -> (ErrorCategory, Seq<char>) {
    (
        ErrorCategory::Concurrency,
        ".gitveilrc.json changed while "@ + command + " was running; retry"@,
    )
}

/// The error where the document changed since it was loaded.
pub fn changed_error(command: &str) -> (r: GitveilError)
    ensures
        r@ == changed_fault(command@),
{
    GitveilError::new(
        ErrorCategory::Concurrency,
        text::cat3(".gitveilrc.json changed while ", command, " was running; retry"),
    )
}

/// Refuses to publish where the document changed since it was loaded.
pub fn require_fresh(
    preparation: &ManifestPreparation,
    current: Option<&[u8]>,
    command: &str,
) -> (r: Result<(), GitveilError>)
    ensures
        if step::view_input(current) == Some(preparation@.original) {
            r.is_ok()
        } else {
            r matches Err(e) && e@ == changed_fault(command@)
        },
{
    if preparation.is_fresh(current) {
        return Ok(());
    }
    Err(changed_error(command))
}

/// The policy that a command works on: the requested one, or the only one.
pub open spec fn selected_policy(
    m: ManifestModel,
    requested: Option<Seq<char>>,
    flag: Seq<char>,
) -> Result<Seq<char>, (ErrorCategory, Seq<char>)> {
    match requested {
        Some(name) => if !crate::profile::kebab_name(name) {
            Err((ErrorCategory::Configuration, recipient::RecipientError::InvalidPolicyName.text()))
        } else if manifest::policy_of(m.policies, name) is None {
            Err(
                (
                    ErrorCategory::Configuration,
                    "recipient policy "@ + name + " is not declared in .gitveilrc.json"@,
                ),
            )
        } else {
            Ok(name)
        },
        None => if m.policies.len() == 1 {
            Ok(m.policies[0].name)
        } else {
            let names = segment::join(manifest::names_of(m.policies), ", "@);
            if names.len() == 0 {
                Err(
                    (
                        ErrorCategory::Configuration,
                        ".gitveilrc.json has no recipient policy; declare one before adding files"@,
                    ),
                )
            } else {
                Err(
                    (
                        ErrorCategory::Configuration,
                        "multiple recipient policies are declared ("@ + names + "); pass "@ + flag,
                    ),
                )
            }
        },
    }
}

pub open spec fn view_text(s: Option<&str>) -> Option<Seq<char>> {
    match s {
        Some(s) => Some(s@),
        None => None,
    }
}

pub fn select_recipient_policy(document: &Manifest, requested: Option<&str>, flag: &str) -> (r: Result<
    PolicyName,
    GitveilError,
>)
    ensures
        match selected_policy(document@, view_text(requested), flag@) {
            Ok(name) => r matches Ok(policy) && policy@ == name,
            Err(fault) => r matches Err(e) && e@ == fault,
        },
{
    match requested {
        Some(requested) => {
            let name = match PolicyName::new(requested) {
                Ok(name) => name,
                Err(error) => {
                    return Err(GitveilError::configuration(error.message()));
                },
            };
            if document.recipient_policy(&name).is_none() {
                return Err(
                    GitveilError::configuration(
                        text::cat3(
                            "recipient policy ",
                            requested,
                            " is not declared in .gitveilrc.json",
                        ).as_str(),
                    ),
                );
            }
            return Ok(name);
        },
        None => {},
    }
    match document.only_policy_name() {
        Some(only) => {
            return Ok(only.clone());
        },
        None => {},
    }
    let names = segment::joined(document.policy_names().as_slice(), ", ");
    if text::chars_of(names.as_str()).len() == 0 {
        Err(
            GitveilError::configuration(
                ".gitveilrc.json has no recipient policy; declare one before adding files",
            ),
        )
    } else {
        Err(
            GitveilError::configuration(
                text::cat4(
                    "multiple recipient policies are declared (",
                    names.as_str(),
                    "); pass ",
                    flag,
                ).as_str(),
            ),
        )
    }
}

/// The error of a command that found no repository; the metadata may still be there.
pub fn no_repository(metadata_exists: bool) -> (r: GitveilError)
    ensures
        r@ == if metadata_exists {
            (ErrorCategory::Process, "Git repository metadata exists but could not be read"@)
        } else {
            (
                ErrorCategory::Configuration,
                "no Git repository metadata found in the current directory; run this command from a Git repository root"@,
            )
        },
{
    if metadata_exists {
        GitveilError::new(
            ErrorCategory::Process,
            "Git repository metadata exists but could not be read".to_owned(),
        )
    } else {
        GitveilError::configuration(
            "no Git repository metadata found in the current directory; run this command from a Git repository root",
        )
    }
}

/// Refuses a command that changes the configuration anywhere but at the root.
pub fn require_root(at_root: bool, root: &str) -> (r: Result<(), GitveilError>)
    ensures
        if at_root {
            r.is_ok()
        } else {
            r matches Err(e) && e@ == (
                ErrorCategory::Configuration,
                "configuration commands must be run from the Git repository root: "@ + root@,
            )
        },
{
    if at_root {
        return Ok(());
    }
    Err(
        GitveilError::configuration(
            text::cat2(
                "configuration commands must be run from the Git repository root: ",
                root,
            ).as_str(),
        ),
    )
}

/// What is found at a path, without following links.
#[derive(Clone, Copy, Debug, PartialEq, Eq, Structural)]
pub enum FileKind {
    Regular,
    Directory,
    Symlink,
    Other,
}

/// Checks the metadata of a repository: a regular file or a directory.
pub fn check_metadata(found: Option<FileKind>) -> (r: Result<(), GitveilError>)
    ensures
        match found {
            None => r matches Err(e) && e@ == (
                ErrorCategory::Configuration,
                "no Git repository metadata found in the current directory; expected .git"@,
            ),
            Some(kind) => if kind == FileKind::Regular || kind == FileKind::Directory {
                r.is_ok()
            } else {
                r matches Err(e) && e@ == (
                    ErrorCategory::Configuration,
                    "Git repository metadata .git must be a regular file or directory"@,
                )
            },
        },
{
    match found {
        None => Err(
            GitveilError::configuration(
                "no Git repository metadata found in the current directory; expected .git",
            ),
        ),
        Some(kind) => match kind {
            FileKind::Regular => Ok(()),
            FileKind::Directory => Ok(()),
            _ => Err(
                GitveilError::configuration(
                    "Git repository metadata .git must be a regular file or directory",
                ),
            ),
        },
    }
}

/// The error where a document that must be new exists.
pub fn exists_error(path: &ManagedPath) -> (r: GitveilError)
    ensures
        r@ == (
            ErrorCategory::Configuration,
            path@ + " already exists; init never replaces a manifest"@,
        ),
{
    GitveilError::configuration(
        text::cat2(path.as_str(), " already exists; init never replaces a manifest").as_str(),
    )
}

/// Law: a command works on the policy that was named, where the manifest declares it, or on
/// the only one where none was named; in every other case it is refused.
pub proof fn law_the_policy_is_never_guessed(
    m: ManifestModel,
    requested: Option<Seq<char>>,
    flag: Seq<char>,
    name: Seq<char>,
)
    ensures
        selected_policy(m, requested, flag) == Ok::<Seq<char>, (ErrorCategory, Seq<char>)>(
            name,
        ) <==> match requested {
            Some(asked) => asked == name && crate::profile::kebab_name(name) && (exists|i: int|
                0 <= i < m.policies.len() && (#[trigger] m.policies[i]).name == name),
            None => m.policies.len() == 1 && m.policies[0].name == name,
        },
        selected_policy(m, requested, flag) matches Err(e) ==> e.0 == ErrorCategory::Configuration,
{
    if requested is Some {
        manifest::law_policies_are_found_by_name(m.policies, requested->Some_0, 0);
    }
}

/// Law: a manifest is loaded exactly where there is one that can be read, and then as it was
/// read; without one, or with one that cannot be read, the configuration is at fault.
pub proof fn law_only_readable_manifests_are_loaded(input: Option<Seq<u8>>, m: ManifestModel)
    ensures
        loaded(input) == Ok::<ManifestModel, (ErrorCategory, Seq<char>)>(m) <==> (
        input matches Some(bytes) && manifest::read_bytes(bytes) == Ok::<
            ManifestModel,
            manifest::ManifestFault,
        >(m)),
        loaded(input) matches Err(e) ==> e.0 == ErrorCategory::Configuration,
{
}

} // verus!
