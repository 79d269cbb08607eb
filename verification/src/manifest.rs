//! `.gitveilrc.json` manifest: the authoritative declaration of managed pairs and recipients.
//!
//! The manifest lives at the workspace root, is tracked by Git as an ordinary
//! file, and declares every managed plaintext path, source format, profile,
//! and named age recipient policy. Repository SOPS configuration is not read.

use vstd::prelude::*;
use vstd::string::StrSliceExecFns;

use crate::codec::integer;
use crate::codec::json;
use crate::codec::json::JsonValue;
use crate::codec::json_fields;
use crate::config;
use crate::config::SourceFormat;
use crate::manifest_schema;
use crate::manifest_schema::{RawEntry, RawManifest};
use crate::path;
use crate::path::{ManagedPath, PathError};
use crate::profile;
use crate::profile::{ProfileError, ProfileName};
use crate::recipient;
use crate::recipient::{
    AgeRecipient, AgeRecipientPolicy, PolicyModel, PolicyName, RecipientError,
};
use crate::segment;
use crate::text;

verus! {

pub const MANIFEST_FILE_NAME: &'static str = ".gitveilrc.json";

pub const GITIGNORE_FILE_NAME: &'static str = ".gitignore";

pub const CIPHERTEXT_SUFFIX: &'static str = ".gitveil";

pub const MANIFEST_VERSION: u64 = 1;

/// A managed file.
#[derive(Debug, PartialEq, Eq)]
pub struct ManifestEntry {
    path: ManagedPath,
    format: SourceFormat,
    recipient_policy: PolicyName,
    profile: ProfileName,
}

pub struct EntryModel {
    pub path: Seq<char>,
    pub format: SourceFormat,
    pub policy: Seq<char>,
    pub profile: Seq<char>,
}

impl View for ManifestEntry {
    type V = EntryModel;

    closed spec fn view(&self) -> EntryModel {
        EntryModel {
            path: self.path@,
            format: self.format,
            policy: self.recipient_policy@,
            profile: self.profile@,
        }
    }
}

impl Clone for ManifestEntry {
    fn clone(&self) -> (r: ManifestEntry)
        ensures
            r@ == self@,
    {
        ManifestEntry {
            path: self.path.clone(),
            format: self.format,
            recipient_policy: self.recipient_policy.clone(),
            profile: self.profile.clone(),
        }
    }
}

impl ManifestEntry {
    pub fn new(
        path: ManagedPath,
        format: SourceFormat,
        recipient_policy: PolicyName,
        profile: ProfileName,
    ) -> (r: ManifestEntry)
        ensures
            r@ == (EntryModel {
                path: path@,
                format,
                policy: recipient_policy@,
                profile: profile@,
            }),
    {
        ManifestEntry { path, format, recipient_policy, profile }
    }

    pub fn path(&self) -> (r: &ManagedPath)
        ensures
            r@ == self@.path,
    {
        &self.path
    }

    pub fn format(&self) -> (r: SourceFormat)
        ensures
            r == self@.format,
    {
        self.format
    }

    pub fn recipient_policy(&self) -> (r: &PolicyName)
        ensures
            r@ == self@.policy,
    {
        &self.recipient_policy
    }

    pub fn profile(&self) -> (r: &ProfileName)
        ensures
            r@ == self@.profile,
    {
        &self.profile
    }

    /// The sibling ciphertext path (`<path>.gitveil`).
    pub fn ciphertext_path(&self) -> (r: ManagedPath)
        ensures
            r@ == self@.path + path::ciphertext_suffix(),
    {
        let plain = self.path.as_str();
        proof {
            path::law_ciphertext_path_is_valid(plain@);
        }
        match ManagedPath::new(text::cat2(plain, CIPHERTEXT_SUFFIX).as_str()) {
            Ok(path) => path,
            Err(_) => self.path.clone(),
        }
    }

    pub fn same(&self, other: &ManifestEntry) -> (r: bool)
        ensures
            r == (self@ == other@),
    {
        self.path.same(&other.path) && self.format == other.format && self.recipient_policy.same(
            &other.recipient_policy,
        ) && text::eq(self.profile.as_str(), other.profile.as_str())
    }
}

pub open spec fn entry_models(v: Seq<ManifestEntry>) -> Seq<EntryModel> {
    v.map_values(|e: ManifestEntry| e@)
}

pub open spec fn policy_models(v: Seq<AgeRecipientPolicy>) -> Seq<PolicyModel> {
    v.map_values(|p: AgeRecipientPolicy| p@)
}

/// Policies with distinct names, in the order of the manifest.
#[derive(Debug, PartialEq, Eq)]
pub struct PolicyMap {
    list: Vec<AgeRecipientPolicy>,
}

impl View for PolicyMap {
    type V = Seq<PolicyModel>;

    closed spec fn view(&self) -> Seq<PolicyModel> {
        policy_models(self.list@)
    }
}

impl PolicyMap {
    #[verifier::type_invariant]
    spec fn valid(self) -> bool {
        valid_policies(policy_models(self.list@))
    }

    fn new(list: Vec<AgeRecipientPolicy>) -> (r: PolicyMap)
        requires
            valid_policies(policy_models(list@)),
        ensures
            r@ == policy_models(list@),
    {
        PolicyMap { list }
    }

    pub fn as_list(&self) -> (r: &Vec<AgeRecipientPolicy>)
        ensures
            policy_models(r@) == self@,
            valid_policies(self@),
    {
        proof {
            use_type_invariant(self);
        }
        &self.list
    }

    fn into_list(self) -> (r: Vec<AgeRecipientPolicy>)
        ensures
            policy_models(r@) == self@,
            valid_policies(self@),
    {
        proof {
            use_type_invariant(&self);
        }
        self.list
    }
}

impl Clone for PolicyMap {
    fn clone(&self) -> (r: PolicyMap)
        ensures
            r@ == self@,
    {
        let list = self.as_list();
        let mut out: Vec<AgeRecipientPolicy> = Vec::new();
        let mut i: usize = 0;
        while i < list.len()
            invariant
                i <= list.len(),
                out@.len() == i,
                forall|j: int| 0 <= j < i ==> (#[trigger] out@[j])@ == list@[j]@,
            decreases list.len() - i,
        {
            out.push(list[i].clone());
            i = i + 1;
        }
        assert(policy_models(out@) =~= policy_models(list@));
        PolicyMap::new(out)
    }
}

/// The managed files and the recipient policies of a repository.
#[derive(Debug, PartialEq, Eq)]
pub struct Manifest {
    pub entries: Vec<ManifestEntry>,
    recipient_policies: PolicyMap,
}

pub struct ManifestModel {
    pub entries: Seq<EntryModel>,
    pub policies: Seq<PolicyModel>,
}

impl View for Manifest {
    type V = ManifestModel;

    closed spec fn view(&self) -> ManifestModel {
        ManifestModel {
            entries: entry_models(self.entries@),
            policies: self.recipient_policies@,
        }
    }
}

impl Clone for Manifest {
    fn clone(&self) -> (r: Manifest)
        ensures
            r@ == self@,
    {
        let mut entries: Vec<ManifestEntry> = Vec::new();
        let mut i: usize = 0;
        while i < self.entries.len()
            invariant
                i <= self.entries.len(),
                entries@.len() == i,
                forall|j: int| 0 <= j < i ==> (#[trigger] entries@[j])@ == self.entries@[j]@,
            decreases self.entries.len() - i,
        {
            entries.push(self.entries[i].clone());
            i = i + 1;
        }
        assert(entry_models(entries@) =~= entry_models(self.entries@));
        Manifest { entries, recipient_policies: self.recipient_policies.clone() }
    }
}

/// The policy of a name.
pub open spec fn policy_of(policies: Seq<PolicyModel>, name: Seq<char>) -> Option<PolicyModel>
    decreases policies.len(),
{
    if policies.len() == 0 {
        None
    } else if policies[0].name == name {
        Some(policies[0])
    } else {
        policy_of(policies.skip(1), name)
    }
}

pub open spec fn names_of(policies: Seq<PolicyModel>) -> Seq<Seq<char>> {
    policies.map_values(|p: PolicyModel| p.name)
}

/// A path that holds the configuration of the repository itself.
pub open spec fn reserved(p: Seq<char>) -> bool {
    p == ".gitveilrc.json"@ || p == ".gitignore"@
}

/// A path that the manifest can declare.
pub open spec fn declarable(p: Seq<char>) -> bool {
    path::valid_path(p) && !text::ends_with(p, ".gitveil"@) && !reserved(p)
}

/// A policy as the reader accepts it.
pub open spec fn valid_policy(p: PolicyModel) -> bool {
    &&& profile::kebab_name(p.name)
    &&& recipient::policy_fault(p.recipients) is None
    &&& recipient::all_recipients(p.recipients)
}

/// Policies as the reader accepts them.
pub open spec fn valid_policies(policies: Seq<PolicyModel>) -> bool {
    &&& names_of(policies).no_duplicates()
    &&& forall|i: int| 0 <= i < policies.len() ==> valid_policy(#[trigger] policies[i])
}

/// An entry as the reader accepts it beside the given policies.
pub open spec fn valid_entry(e: EntryModel, policies: Seq<PolicyModel>) -> bool {
    &&& declarable(e.path)
    &&& profile::kebab_name(e.policy)
    &&& profile::kebab_name(e.profile)
    &&& policy_of(policies, e.policy) is Some
}

/// No two paths are the same file where case and normalization do not count.
pub open spec fn distinct_files(entries: Seq<EntryModel>) -> bool {
    forall|i: int, j: int|
        0 <= i < j < entries.len() ==> path::collision_key((#[trigger] entries[i]).path)
            != path::collision_key((#[trigger] entries[j]).path)
}

/// A manifest as the reader accepts it.
pub open spec fn valid(m: ManifestModel) -> bool {
    &&& valid_policies(m.policies)
    &&& forall|i: int|
        0 <= i < m.entries.len() ==> valid_entry(#[trigger] m.entries[i], m.policies)
    &&& distinct_files(m.entries)
}

#[allow(inconsistent_fields)]
#[derive(Debug, PartialEq, Eq)]
pub enum ManifestError {
    Json(String),
    LegacySchema,
    Version(u64),
    Policy(String, RecipientError),
    Recipient { policy: String, index: usize, source: RecipientError },
    MissingPolicy { path: String, policy: String },
    Profile { path: String, profile: String, source: ProfileError },
    Path(String, PathError),
    CiphertextSuffix(String),
    ReservedPath(String),
    Format(String),
    Duplicate(String),
}

pub enum ManifestFault {
    Json(Seq<char>),
    LegacySchema,
    Version(int),
    Policy(Seq<char>, RecipientError),
    Recipient { policy: Seq<char>, index: int, source: RecipientError },
    MissingPolicy { path: Seq<char>, policy: Seq<char> },
    /// The name that `source` refused stands last.
    Profile { path: Seq<char>, profile: Seq<char>, refused: Seq<char> },
    Path(Seq<char>, PathError),
    CiphertextSuffix(Seq<char>),
    ReservedPath(Seq<char>),
    Format(Seq<char>),
    Duplicate(Seq<char>),
}

impl View for ManifestError {
    type V = ManifestFault;

    open spec fn view(&self) -> ManifestFault {
        match self {
            ManifestError::Json(reason) => ManifestFault::Json(reason@),
            ManifestError::LegacySchema => ManifestFault::LegacySchema,
            ManifestError::Version(n) => ManifestFault::Version(*n as int),
            ManifestError::Policy(name, source) => ManifestFault::Policy(name@, *source),
            ManifestError::Recipient { policy, index, source } => ManifestFault::Recipient {
                policy: policy@,
                index: *index as int,
                source: *source,
            },
            ManifestError::MissingPolicy { path, policy } => ManifestFault::MissingPolicy {
                path: path@,
                policy: policy@,
            },
            ManifestError::Profile { path, profile, source } => ManifestFault::Profile {
                path: path@,
                profile: profile@,
                refused: match source {
                    ProfileError::InvalidName(name) => name@,
                },
            },
            ManifestError::Path(path, source) => ManifestFault::Path(path@, *source),
            ManifestError::CiphertextSuffix(path) => ManifestFault::CiphertextSuffix(path@),
            ManifestError::ReservedPath(path) => ManifestFault::ReservedPath(path@),
            ManifestError::Format(format) => ManifestFault::Format(format@),
            ManifestError::Duplicate(path) => ManifestFault::Duplicate(path@),
        }
    }
}

impl ManifestFault {
    pub open spec fn text(self) -> Seq<char> {
        match self {
            ManifestFault::Json(reason) => "invalid .gitveilrc.json: "@ + reason,
            ManifestFault::LegacySchema =>
                "legacy .gitveilrc.json schema is unsupported; add version, recipientPolicies, and recipientPolicy fields"@,
            ManifestFault::Version(n) => "unsupported .gitveilrc.json version "@ + segment::decimal(
                n as nat,
            ) + "; expected 1"@,
            ManifestFault::Policy(name, source) => "invalid recipient policy "@ + text::quoted(name)
                + ": "@ + source.text(),
            ManifestFault::Recipient { policy, index, source } =>
                "invalid age recipient at policy "@ + text::quoted(policy) + " index "@
                    + segment::decimal(index as nat) + ": "@ + source.text(),
            ManifestFault::MissingPolicy { path, policy } => "manifest path "@ + text::quoted(path)
                + " references missing recipient policy "@ + text::quoted(policy),
            ManifestFault::Profile { path, profile, refused } => "manifest path "@ + text::quoted(
                path,
            ) + " has invalid profile "@ + text::quoted(profile) + ": "@ + (
            "invalid profile name "@ + text::quoted(refused)
                + "; expected ^[a-z][a-z0-9-]{0,63}$"@),
            ManifestFault::Path(path, source) => "invalid manifest path "@ + text::quoted(path)
                + ": "@ + source.text(),
            ManifestFault::CiphertextSuffix(path) => "manifest path "@ + text::quoted(path)
                + " must not carry the .gitveil suffix"@,
            ManifestFault::ReservedPath(path) => "manifest path "@ + text::quoted(path)
                + " is reserved for Gitveil repository configuration"@,
            ManifestFault::Format(format) => "unsupported manifest format "@ + text::quoted(format)
                + "; expected dotenv, json, yaml, or toml"@,
            ManifestFault::Duplicate(path) => "duplicate manifest path "@ + text::quoted(path),
        }
    }
}

impl ManifestError {
    pub fn message(&self) -> (r: String)
        ensures
            r@ == self@.text(),
    {
        match self {
            ManifestError::Json(reason) => text::cat2(
                "invalid .gitveilrc.json: ",
                reason.as_str(),
            ),
            ManifestError::LegacySchema =>
                "legacy .gitveilrc.json schema is unsupported; add version, recipientPolicies, and recipientPolicy fields".to_owned(),
            ManifestError::Version(n) => text::cat3(
                "unsupported .gitveilrc.json version ",
                segment::decimal_u64(*n).as_str(),
                "; expected 1",
            ),
            ManifestError::Policy(name, source) => text::cat4(
                "invalid recipient policy ",
                text::debug_quoted(name.as_str()).as_str(),
                ": ",
                source.message(),
            ),
            ManifestError::Recipient { policy, index, source } => {
                let head = text::cat4(
                    "invalid age recipient at policy ",
                    text::debug_quoted(policy.as_str()).as_str(),
                    " index ",
                    segment::decimal_of(*index).as_str(),
                );
                text::cat3(head.as_str(), ": ", source.message())
            },
            ManifestError::MissingPolicy { path, policy } => text::cat4(
                "manifest path ",
                text::debug_quoted(path.as_str()).as_str(),
                " references missing recipient policy ",
                text::debug_quoted(policy.as_str()).as_str(),
            ),
            ManifestError::Profile { path, profile, source } => {
                let head = text::cat4(
                    "manifest path ",
                    text::debug_quoted(path.as_str()).as_str(),
                    " has invalid profile ",
                    text::debug_quoted(profile.as_str()).as_str(),
                );
                text::cat3(head.as_str(), ": ", source.message().as_str())
            },
            ManifestError::Path(path, source) => text::cat4(
                "invalid manifest path ",
                text::debug_quoted(path.as_str()).as_str(),
                ": ",
                source.message(),
            ),
            ManifestError::CiphertextSuffix(path) => text::cat3(
                "manifest path ",
                text::debug_quoted(path.as_str()).as_str(),
                " must not carry the .gitveil suffix",
            ),
            ManifestError::ReservedPath(path) => text::cat3(
                "manifest path ",
                text::debug_quoted(path.as_str()).as_str(),
                " is reserved for Gitveil repository configuration",
            ),
            ManifestError::Format(format) => text::cat3(
                "unsupported manifest format ",
                text::debug_quoted(format.as_str()).as_str(),
                "; expected dotenv, json, yaml, or toml",
            ),
            ManifestError::Duplicate(path) => text::cat2(
                "duplicate manifest path ",
                text::debug_quoted(path.as_str()).as_str(),
            ),
        }
    }
}

/// The first recipient from `i` on that is none, with its fault.
pub open spec fn bad_recipient(list: Seq<Seq<char>>, i: int) -> Option<(int, RecipientError)>
    decreases list.len() - i,
{
    if i < 0 || i >= list.len() {
        None
    } else {
        match recipient::recipient_fault(list[i]) {
            Some(fault) => Some((i, fault)),
            None => bad_recipient(list, i + 1),
        }
    }
}

/// A policy record as the reader checks it.
pub open spec fn checked_policy(name: Seq<char>, list: Seq<Seq<char>>) -> Result<
    PolicyModel,
    ManifestFault,
> {
    if !profile::kebab_name(name) {
        Err(ManifestFault::Policy(name, RecipientError::InvalidPolicyName))
    } else {
        match bad_recipient(list, 0) {
            Some((index, source)) => Err(ManifestFault::Recipient { policy: name, index, source }),
            None => match recipient::policy_fault(list) {
                Some(source) => Err(ManifestFault::Policy(name, source)),
                None => Ok(PolicyModel { name, recipients: list }),
            },
        }
    }
}

pub open spec fn checked_policies(raw: Seq<(Seq<char>, Seq<Seq<char>>)>) -> Result<
    Seq<PolicyModel>,
    ManifestFault,
>
    decreases raw.len(),
{
    if raw.len() == 0 {
        Ok(Seq::empty())
    } else {
        match checked_policies(raw.drop_last()) {
            Err(fault) => Err(fault),
            Ok(head) => match checked_policy(raw.last().0, raw.last().1) {
                Err(fault) => Err(fault),
                Ok(policy) => Ok(head.push(policy)),
            },
        }
    }
}

/// One of the entries is the same file as a path, where case and normalization do
/// not count.
pub open spec fn collides(entries: Seq<EntryModel>, p: Seq<char>) -> bool {
    exists|i: int|
        0 <= i < entries.len() && path::collision_key((#[trigger] entries[i]).path)
            == path::collision_key(p)
}

/// A file record as the reader checks it after the given entries.
pub open spec fn checked_file(
    raw: manifest_schema::RawEntryModel,
    head: Seq<EntryModel>,
    policies: Seq<PolicyModel>,
) -> Result<EntryModel, ManifestFault> {
    if path::path_fault(raw.path) is Some {
        Err(ManifestFault::Path(raw.path, path::path_fault(raw.path)->Some_0))
    } else if text::ends_with(raw.path, ".gitveil"@) {
        Err(ManifestFault::CiphertextSuffix(raw.path))
    } else if reserved(raw.path) {
        Err(ManifestFault::ReservedPath(raw.path))
    } else if config::format_named(raw.format) is None {
        Err(ManifestFault::Format(raw.format))
    } else if collides(head, raw.path) {
        Err(ManifestFault::Duplicate(raw.path))
    } else if !profile::kebab_name(raw.policy) {
        Err(ManifestFault::Policy(raw.policy, RecipientError::InvalidPolicyName))
    } else if policy_of(policies, raw.policy) is None {
        Err(ManifestFault::MissingPolicy { path: raw.path, policy: raw.policy })
    } else if !profile::kebab_name(raw.profile) {
        Err(
            ManifestFault::Profile {
                path: raw.path,
                profile: raw.profile,
                refused: raw.profile,
            },
        )
    } else {
        Ok(
            EntryModel {
                path: raw.path,
                format: config::format_named(raw.format)->Some_0,
                policy: raw.policy,
                profile: raw.profile,
            },
        )
    }
}

pub open spec fn checked_files(
    raw: Seq<manifest_schema::RawEntryModel>,
    policies: Seq<PolicyModel>,
) -> Result<Seq<EntryModel>, ManifestFault>
    decreases raw.len(),
{
    if raw.len() == 0 {
        Ok(Seq::empty())
    } else {
        match checked_files(raw.drop_last(), policies) {
            Err(fault) => Err(fault),
            Ok(head) => match checked_file(raw.last(), head, policies) {
                Err(fault) => Err(fault),
                Ok(entry) => Ok(head.push(entry)),
            },
        }
    }
}

/// A manifest record as the reader checks it.
pub open spec fn checked(raw: manifest_schema::RawManifestModel) -> Result<
    ManifestModel,
    ManifestFault,
> {
    if raw.version != MANIFEST_VERSION {
        Err(ManifestFault::Version(raw.version))
    } else {
        match checked_policies(raw.policies) {
            Err(fault) => Err(fault),
            Ok(policies) => match checked_files(raw.files, policies) {
                Err(fault) => Err(fault),
                Ok(entries) => Ok(ManifestModel { entries, policies }),
            },
        }
    }
}

/// The schema that had neither versions nor policies.
pub open spec fn legacy(t: json::JsonTree) -> bool {
    t matches json::JsonTree::Object(m) && json::member(m, "files"@) is Some && json::member(
        m,
        "version"@,
    ) is None
}

/// What a JSON value says as a manifest.
pub open spec fn read_value(t: json::JsonTree) -> Result<ManifestModel, ManifestFault> {
    if legacy(t) {
        Err(ManifestFault::LegacySchema)
    } else {
        match manifest_schema::manifest_record(t) {
            Err(reason) => Err(ManifestFault::Json(reason)),
            Ok(raw) => checked(raw),
        }
    }
}

/// What the bytes of a manifest say.
pub open spec fn read_bytes(bytes: Seq<u8>) -> Result<ManifestModel, ManifestFault> {
    match json::json_parsed(bytes) {
        Err(reason) => Err(ManifestFault::Json(reason)),
        Ok(t) => read_value(t),
    }
}

pub open spec fn view_manifest(r: Result<Manifest, ManifestError>) -> Result<
    ManifestModel,
    ManifestFault,
> {
    match r {
        Ok(m) => Ok(m@),
        Err(e) => Err(e@),
    }
}

fn check_recipients(policy: &str, list: &Vec<String>) -> (r: Result<
    Vec<AgeRecipient>,
    ManifestError,
>)
    ensures
        match bad_recipient(text::texts(list@), 0) {
            Some((index, source)) => r matches Err(e) && e@ == (ManifestFault::Recipient {
                policy: policy@,
                index,
                source,
            }),
            None => r matches Ok(v) && recipient::names(v@) == text::texts(list@),
        },
{
    let ghost all = text::texts(list@);
    let mut out: Vec<AgeRecipient> = Vec::new();
    let mut i: usize = 0;
    while i < list.len()
        invariant
            all == text::texts(list@),
            i <= list.len(),
            out@.len() == i,
            bad_recipient(all, i as int) == bad_recipient(all, 0),
            forall|j: int| 0 <= j < i ==> (#[trigger] out@[j])@ == all[j],
        decreases list.len() - i,
    {
        assert(all[i as int] == list@[i as int]@);
        match AgeRecipient::new(list[i].as_str()) {
            Ok(recipient) => {
                out.push(recipient);
            },
            Err(source) => {
                return Err(
                    ManifestError::Recipient { policy: policy.to_owned(), index: i, source },
                );
            },
        }
        i = i + 1;
    }
    assert(recipient::names(out@) =~= all);
    Ok(out)
}

fn check_policy(name: &str, list: &Vec<String>) -> (r: Result<AgeRecipientPolicy, ManifestError>)
    ensures
        match checked_policy(name@, text::texts(list@)) {
            Ok(policy) => r matches Ok(p) && p@ == policy,
            Err(fault) => r matches Err(e) && e@ == fault,
        },
{
    let policy_name = match PolicyName::new(name) {
        Ok(n) => n,
        Err(source) => {
            return Err(ManifestError::Policy(name.to_owned(), source));
        },
    };
    match check_recipients(name, list) {
        Err(error) => Err(error),
        Ok(recipients) => match AgeRecipientPolicy::new(policy_name, recipients) {
            Ok(policy) => Ok(policy),
            Err(source) => Err(ManifestError::Policy(name.to_owned(), source)),
        },
    }
}

fn check_policies(raw: &Vec<(String, Vec<String>)>) -> (r: Result<
    Vec<AgeRecipientPolicy>,
    ManifestError,
>)
    ensures
        match checked_policies(manifest_schema::policy_views(raw@)) {
            Ok(policies) => r matches Ok(v) && policy_models(v@) == policies,
            Err(fault) => r matches Err(e) && e@ == fault,
        },
{
    let ghost all = manifest_schema::policy_views(raw@);
    let mut out: Vec<AgeRecipientPolicy> = Vec::new();
    let mut i: usize = 0;
    assert(policy_models(out@) =~= Seq::<PolicyModel>::empty());
    while i < raw.len()
        invariant
            all == manifest_schema::policy_views(raw@),
            i <= raw.len(),
            checked_policies(all.take(i as int)) == Ok::<Seq<PolicyModel>, ManifestFault>(
                policy_models(out@),
            ),
        decreases raw.len() - i,
    {
        assert(all.take(i + 1).drop_last() =~= all.take(i as int));
        assert(all.take(i + 1).last() == (raw@[i as int].0@, text::texts(raw@[i as int].1@)));
        match check_policy(raw[i].0.as_str(), &raw[i].1) {
            Ok(policy) => {
                let ghost before = out@;
                out.push(policy);
                assert(policy_models(out@) =~= policy_models(before).push(policy@));
            },
            Err(error) => {
                proof {
                    lemma_policies_fail(all, i + 1);
                }
                return Err(error);
            },
        }
        i = i + 1;
    }
    assert(all.take(i as int) =~= all);
    Ok(out)
}

proof fn lemma_policies_fail(raw: Seq<(Seq<char>, Seq<Seq<char>>)>, n: int)
    requires
        0 <= n <= raw.len(),
        checked_policies(raw.take(n)) is Err,
    ensures
        checked_policies(raw) == checked_policies(raw.take(n)),
    decreases raw.len() - n,
{
    if n < raw.len() {
        assert(raw.take(n + 1).drop_last() =~= raw.take(n));
        lemma_policies_fail(raw, n + 1);
    } else {
        assert(raw.take(n) =~= raw);
    }
}

pub open spec fn view_policy(p: Option<&AgeRecipientPolicy>) -> Option<PolicyModel> {
    match p {
        Some(policy) => Some(policy@),
        None => None,
    }
}

fn find_policy<'a>(v: &'a Vec<AgeRecipientPolicy>, name: &str) -> (r: Option<
    &'a AgeRecipientPolicy,
>)
    ensures
        view_policy(r) == policy_of(policy_models(v@), name@),
{
    match find_policy_index(v, name) {
        Some(i) => Some(&v[i]),
        None => None,
    }
}

fn find_policy_index(v: &Vec<AgeRecipientPolicy>, name: &str) -> (r: Option<usize>)
    ensures
        match r {
            Some(i) => i < v@.len() && policy_of(policy_models(v@), name@) == Some(v@[i as int]@)
                && v@[i as int]@.name == name@ && forall|j: int|
                0 <= j < i ==> (#[trigger] v@[j])@.name != name@,
            None => policy_of(policy_models(v@), name@) is None && forall|j: int|
                0 <= j < v@.len() ==> (#[trigger] v@[j])@.name != name@,
        },
{
    let ghost all = policy_models(v@);
    let mut i: usize = 0;
    assert(all.skip(0) =~= all);
    while i < v.len()
        invariant
            all == policy_models(v@),
            i <= v.len(),
            policy_of(all.skip(i as int), name@) == policy_of(all, name@),
            forall|j: int| 0 <= j < i ==> (#[trigger] v@[j])@.name != name@,
        decreases v.len() - i,
    {
        assert(all.skip(i as int)[0] == v@[i as int]@);
        if text::eq(v[i].name().as_str(), name) {
            return Some(i);
        }
        assert(all.skip(i as int).skip(1) =~= all.skip(i + 1));
        i = i + 1;
    }
    None
}

fn is_repository_configuration_path(p: &ManagedPath) -> (r: bool)
    ensures
        r == reserved(p@),
{
    text::eq(p.as_str(), MANIFEST_FILE_NAME) || text::eq(p.as_str(), GITIGNORE_FILE_NAME)
}

fn has_collision(entries: &Vec<ManifestEntry>, p: &ManagedPath) -> (r: bool)
    ensures
        r == collides(entry_models(entries@), p@),
{
    let key = p.case_collision_key();
    let ghost all = entry_models(entries@);
    let mut i: usize = 0;
    while i < entries.len()
        invariant
            key@ == path::collision_key(p@),
            all == entry_models(entries@),
            i <= entries.len(),
            forall|j: int|
                0 <= j < i ==> path::collision_key((#[trigger] all[j]).path) != key@,
        decreases entries.len() - i,
    {
        assert(all[i as int] == entries@[i as int]@);
        if text::eq(entries[i].path().case_collision_key().as_str(), key.as_str()) {
            assert(path::collision_key(all[i as int].path) == path::collision_key(p@));
            return true;
        }
        i = i + 1;
    }
    false
}

fn check_file(
    raw: &RawEntry,
    head: &Vec<ManifestEntry>,
    policies: &Vec<AgeRecipientPolicy>,
) -> (r: Result<ManifestEntry, ManifestError>)
    ensures
        match checked_file(raw@, entry_models(head@), policy_models(policies@)) {
            Ok(entry) => r matches Ok(e) && e@ == entry,
            Err(fault) => r matches Err(e) && e@ == fault,
        },
{
    let managed = match ManagedPath::new(raw.path.as_str()) {
        Ok(p) => p,
        Err(error) => {
            return Err(ManifestError::Path(raw.path.clone(), error));
        },
    };
    if text::finishes_str(raw.path.as_str(), CIPHERTEXT_SUFFIX) {
        return Err(ManifestError::CiphertextSuffix(raw.path.clone()));
    }
    if is_repository_configuration_path(&managed) {
        return Err(ManifestError::ReservedPath(raw.path.clone()));
    }
    let format = match SourceFormat::from_str(raw.format.as_str()) {
        Ok(format) => format,
        Err(_) => {
            return Err(ManifestError::Format(raw.format.clone()));
        },
    };
    if has_collision(head, &managed) {
        return Err(ManifestError::Duplicate(raw.path.clone()));
    }
    let policy = match PolicyName::new(raw.policy.as_str()) {
        Ok(name) => name,
        Err(source) => {
            return Err(ManifestError::Policy(raw.policy.clone(), source));
        },
    };
    if find_policy(policies, raw.policy.as_str()).is_none() {
        return Err(
            ManifestError::MissingPolicy { path: raw.path.clone(), policy: raw.policy.clone() },
        );
    }
    match ProfileName::new(raw.profile.as_str()) {
        Ok(profile) => Ok(ManifestEntry::new(managed, format, policy, profile)),
        Err(source) => Err(
            ManifestError::Profile {
                path: raw.path.clone(),
                profile: raw.profile.clone(),
                source,
            },
        ),
    }
}

fn check_files(raw: &Vec<RawEntry>, policies: &Vec<AgeRecipientPolicy>) -> (r: Result<
    Vec<ManifestEntry>,
    ManifestError,
>)
    ensures
        match checked_files(manifest_schema::entry_views(raw@), policy_models(policies@)) {
            Ok(entries) => r matches Ok(v) && entry_models(v@) == entries,
            Err(fault) => r matches Err(e) && e@ == fault,
        },
{
    let ghost all = manifest_schema::entry_views(raw@);
    let ghost p = policy_models(policies@);
    let mut out: Vec<ManifestEntry> = Vec::new();
    let mut i: usize = 0;
    assert(entry_models(out@) =~= Seq::<EntryModel>::empty());
    while i < raw.len()
        invariant
            all == manifest_schema::entry_views(raw@),
            p == policy_models(policies@),
            i <= raw.len(),
            checked_files(all.take(i as int), p) == Ok::<Seq<EntryModel>, ManifestFault>(
                entry_models(out@),
            ),
        decreases raw.len() - i,
    {
        assert(all.take(i + 1).drop_last() =~= all.take(i as int));
        assert(all.take(i + 1).last() == raw@[i as int]@);
        match check_file(&raw[i], &out, policies) {
            Ok(entry) => {
                let ghost before = out@;
                out.push(entry);
                assert(entry_models(out@) =~= entry_models(before).push(entry@));
            },
            Err(error) => {
                proof {
                    lemma_files_fail(all, p, i + 1);
                }
                return Err(error);
            },
        }
        i = i + 1;
    }
    assert(all.take(i as int) =~= all);
    Ok(out)
}

proof fn lemma_files_fail(
    raw: Seq<manifest_schema::RawEntryModel>,
    policies: Seq<PolicyModel>,
    n: int,
)
    requires
        0 <= n <= raw.len(),
        checked_files(raw.take(n), policies) is Err,
    ensures
        checked_files(raw, policies) == checked_files(raw.take(n), policies),
    decreases raw.len() - n,
{
    if n < raw.len() {
        assert(raw.take(n + 1).drop_last() =~= raw.take(n));
        lemma_files_fail(raw, policies, n + 1);
    } else {
        assert(raw.take(n) =~= raw);
    }
}

proof fn lemma_no_bad_recipient(list: Seq<Seq<char>>, from: int)
    requires
        0 <= from,
    ensures
        bad_recipient(list, from) is None <==> forall|i: int|
            from <= i < list.len() ==> recipient::recipient_fault(#[trigger] list[i]) is None,
    decreases list.len() - from,
{
    if from < list.len() {
        lemma_no_bad_recipient(list, from + 1);
    }
}

proof fn lemma_checked_policies(raw: Seq<(Seq<char>, Seq<Seq<char>>)>)
    requires
        checked_policies(raw) is Ok,
    ensures
        ({
            let p = checked_policies(raw)->Ok_0;
            &&& names_of(p) == manifest_schema::policy_names(raw)
            &&& forall|i: int| 0 <= i < p.len() ==> valid_policy(#[trigger] p[i])
        }),
    decreases raw.len(),
{
    let p = checked_policies(raw)->Ok_0;
    if raw.len() > 0 {
        lemma_checked_policies(raw.drop_last());
        lemma_no_bad_recipient(raw.last().1, 0);
        let head = checked_policies(raw.drop_last())->Ok_0;
        assert(names_of(p) =~= names_of(head).push(raw.last().0));
        assert(manifest_schema::policy_names(raw) =~= manifest_schema::policy_names(
            raw.drop_last(),
        ).push(raw.last().0));
        assert forall|i: int| 0 <= i < p.len() implies valid_policy(#[trigger] p[i]) by {
            if i < head.len() {
                assert(p[i] == head[i]);
            }
        }
    } else {
        assert(names_of(p) =~= manifest_schema::policy_names(raw));
    }
}

proof fn lemma_checked_files(
    raw: Seq<manifest_schema::RawEntryModel>,
    policies: Seq<PolicyModel>,
)
    requires
        checked_files(raw, policies) is Ok,
    ensures
        ({
            let e = checked_files(raw, policies)->Ok_0;
            &&& forall|i: int| 0 <= i < e.len() ==> valid_entry(#[trigger] e[i], policies)
            &&& distinct_files(e)
        }),
    decreases raw.len(),
{
    let e = checked_files(raw, policies)->Ok_0;
    if raw.len() > 0 {
        lemma_checked_files(raw.drop_last(), policies);
        let head = checked_files(raw.drop_last(), policies)->Ok_0;
        assert forall|i: int| 0 <= i < e.len() implies valid_entry(#[trigger] e[i], policies) by {
            if i < head.len() {
                assert(e[i] == head[i]);
            }
        }
        assert forall|i: int, j: int| 0 <= i < j < e.len() implies path::collision_key(
            (#[trigger] e[i]).path,
        ) != path::collision_key((#[trigger] e[j]).path) by {
            assert(e[i] == head[i]);
            if j < head.len() {
                assert(e[j] == head[j]);
            } else {
                assert(!collides(head, raw.last().path));
            }
        }
    }
}

/// Law: what the reader accepts is a valid manifest.
pub proof fn law_read_manifest_is_valid(raw: manifest_schema::RawManifestModel)
    requires
        manifest_schema::policy_names(raw.policies).no_duplicates(),
        checked(raw) is Ok,
    ensures
        valid(checked(raw)->Ok_0),
{
    lemma_checked_policies(raw.policies);
    lemma_checked_files(raw.files, checked_policies(raw.policies)->Ok_0);
}

/// Checks a manifest record.
fn check(raw: &RawManifest) -> (r: Result<Manifest, ManifestError>)
    requires
        manifest_schema::policy_names(raw@.policies).no_duplicates(),
    ensures
        view_manifest(r) == checked(raw@),
{
    if raw.version != MANIFEST_VERSION {
        return Err(ManifestError::Version(raw.version));
    }
    let policies = match check_policies(&raw.policies) {
        Ok(policies) => policies,
        Err(error) => {
            return Err(error);
        },
    };
    proof {
        lemma_checked_policies(raw@.policies);
    }
    match check_files(&raw.files, &policies) {
        Ok(entries) => Ok(Manifest { entries, recipient_policies: PolicyMap::new(policies) }),
        Err(error) => Err(error),
    }
}

impl Manifest {
    /// Reads a manifest. What it accepts is valid.
    pub fn parse(bytes: &[u8]) -> (r: Result<Manifest, ManifestError>)
        ensures
            view_manifest(r) == read_bytes(bytes@),
            r matches Ok(m) ==> valid(m@),
    {
        let value = match json::parse(bytes) {
            Ok(value) => value,
            Err(reason) => {
                return Err(ManifestError::Json(reason));
            },
        };
        if value.get("files").is_some() && value.get("version").is_none() {
            return Err(ManifestError::LegacySchema);
        }
        match manifest_schema::read(&value) {
            Err(reason) => Err(ManifestError::Json(reason)),
            Ok(raw) => {
                proof {
                    if checked(raw@) is Ok {
                        law_read_manifest_is_valid(raw@);
                    }
                }
                check(&raw)
            },
        }
    }

    /// A manifest with one policy and no files.
    pub fn initial(policy: AgeRecipientPolicy) -> (r: Manifest)
        ensures
            r@ == (ManifestModel { entries: Seq::empty(), policies: seq![policy@] }),
            valid(r@),
    {
        let _ = policy.recipients();
        let _ = policy.name().as_str();
        let mut list: Vec<AgeRecipientPolicy> = Vec::new();
        let ghost model = policy@;
        list.push(policy);
        assert(policy_models(list@) =~= seq![model]);
        let r = Manifest { entries: Vec::new(), recipient_policies: PolicyMap::new(list) };
        assert(r@.entries =~= Seq::<EntryModel>::empty());
        r
    }

    pub fn entries(&self) -> (r: &[ManifestEntry])
        ensures
            entry_models(r@) == self@.entries,
    {
        self.entries.as_slice()
    }

    pub fn recipient_policy(&self, name: &PolicyName) -> (r: Option<&AgeRecipientPolicy>)
        ensures
            view_policy(r) == policy_of(self@.policies, name@),
    {
        find_policy(self.recipient_policies.as_list(), name.as_str())
    }

    /// The names of the policies in order.
    pub fn policy_names(&self) -> (r: Vec<String>)
        ensures
            text::texts(r@) == names_of(self@.policies),
    {
        let list = self.recipient_policies.as_list();
        let mut out: Vec<String> = Vec::new();
        let mut i: usize = 0;
        while i < list.len()
            invariant
                i <= list.len(),
                out@.len() == i,
                forall|j: int| 0 <= j < i ==> (#[trigger] out@[j])@ == list@[j]@.name,
            decreases list.len() - i,
        {
            out.push(list[i].name().as_str().to_owned());
            i = i + 1;
        }
        assert(text::texts(out@) =~= names_of(policy_models(list@)));
        out
    }

    /// The name of the policy where there is just one.
    pub fn only_policy_name(&self) -> (r: Option<&PolicyName>)
        ensures
            match r {
                Some(name) => self@.policies.len() == 1 && name@ == self@.policies[0].name,
                None => self@.policies.len() != 1,
            },
    {
        let list = self.recipient_policies.as_list();
        if list.len() == 1 {
            assert(policy_models(list@)[0] == list@[0]@);
            Some(list[0].name())
        } else {
            None
        }
    }

    /// Adds a managed file. A refused entry, or one that is there already, leaves
    /// the manifest as it was; a valid manifest stays valid.
    pub fn add_entry(&mut self, entry: ManifestEntry) -> (r: Result<
        ManifestEntryAddOutcome,
        ManifestMutationError,
    >)
        ensures
            match addition(old(self)@, entry@) {
                Ok(ManifestEntryAddOutcome::Added) => r == Ok::<_, ManifestMutationError>(
                    ManifestEntryAddOutcome::Added,
                ) && final(self)@ == (ManifestModel {
                    entries: old(self)@.entries.push(entry@),
                    policies: old(self)@.policies,
                }),
                Ok(ManifestEntryAddOutcome::AlreadyManaged) => r == Ok::<_, ManifestMutationError>(
                    ManifestEntryAddOutcome::AlreadyManaged,
                ) && final(self)@ == old(self)@,
                Err(fault) => r matches Err(e) && e@ == fault && final(self)@ == old(self)@,
            },
            valid(old(self)@) ==> valid(final(self)@),
    {
        let ghost before = self@;
        let path_text = entry.path().as_str();
        let policy_text = entry.recipient_policy().as_str();
        let profile_text = entry.profile().as_str();
        assert(path::valid_path(entry@.path));
        assert(profile::kebab_name(entry@.policy));
        assert(profile::kebab_name(entry@.profile));
        if text::finishes_str(path_text, CIPHERTEXT_SUFFIX) {
            return Err(ManifestMutationError::CiphertextSuffix(entry.path().clone()));
        }
        if is_repository_configuration_path(entry.path()) {
            return Err(ManifestMutationError::ReservedPath(entry.path().clone()));
        }
        if self.recipient_policy(entry.recipient_policy()).is_none() {
            return Err(ManifestMutationError::MissingPolicy(entry.recipient_policy().clone()));
        }
        match self.find(entry.path()) {
            Some(existing) => {
                proof {
                    lemma_entry_at(self@.entries, entry@.path);
                }
                if existing.format() == entry.format() && existing.recipient_policy().same(
                    entry.recipient_policy(),
                ) && text::eq(existing.profile().as_str(), profile_text) {
                    return Ok(ManifestEntryAddOutcome::AlreadyManaged);
                }
                return Err(ManifestMutationError::ConflictingEntry(entry.path().clone()));
            },
            None => {},
        }
        if has_collision(&self.entries, entry.path()) {
            return Err(ManifestMutationError::CaseCollision(entry.path().clone()));
        }
        let ghost given = self.entries@;
        let ghost added = entry@;
        self.entries.push(entry);
        assert(entry_models(self.entries@) =~= entry_models(given).push(added));
        proof {
            if valid(before) {
                let m = self@;
                assert forall|i: int| 0 <= i < m.entries.len() implies valid_entry(
                    #[trigger] m.entries[i],
                    m.policies,
                ) by {
                    if i < before.entries.len() {
                        assert(m.entries[i] == before.entries[i]);
                    }
                }
                assert forall|i: int, j: int| 0 <= i < j < m.entries.len() implies path::collision_key(
                    (#[trigger] m.entries[i]).path,
                ) != path::collision_key((#[trigger] m.entries[j]).path) by {
                    assert(m.entries[i] == before.entries[i]);
                    if j < before.entries.len() {
                        assert(m.entries[j] == before.entries[j]);
                    } else {
                        assert(!collides(before.entries, added.path));
                    }
                }
            }
        }
        Ok(ManifestEntryAddOutcome::Added)
    }

    /// Replaces the recipients of a policy. A refused list leaves the manifest as it
    /// was; a valid manifest stays valid.
    pub fn set_policy_recipients(&mut self, name: &PolicyName, recipients: Vec<AgeRecipient>) -> (r:
        Result<(), ManifestMutationError>)
        ensures
            match replacement(old(self)@, name@, recipient::names(recipients@)) {
                Ok(m) => r.is_ok() && final(self)@ == m,
                Err(fault) => r matches Err(e) && e@ == fault && final(self)@ == old(self)@,
            },
            valid(old(self)@) ==> valid(final(self)@),
    {
        let ghost before = self@;
        let _ = name.as_str();
        let list = self.recipient_policies.as_list();
        let slot = match find_policy_index(list, name.as_str()) {
            Some(i) => i,
            None => {
                return Err(ManifestMutationError::MissingPolicy(name.clone()));
            },
        };
        let policy = match AgeRecipientPolicy::new(name.clone(), recipients) {
            Ok(policy) => policy,
            Err(source) => {
                return Err(ManifestMutationError::Policy { policy: name.clone(), source });
            },
        };
        let _ = policy.recipients();
        let ghost model = policy@;
        let ghost given = policy_models(list@);
        let mut policies = self.recipient_policies.clone().into_list();
        assert(policy_models(policies@) == given);
        assert(policies@.len() == given.len());
        policies.set(slot, policy);
        assert(policy_models(policies@) =~= given.update(slot as int, model));
        proof {
            assert(given[slot as int] == list@[slot as int]@);
            assert forall|j: int| 0 <= j < slot implies (#[trigger] given[j]).name != name@ by {
                assert(given[j] == list@[j]@);
            }
            lemma_policy_at(given, name@, slot as int);
            lemma_replaced(before, given.update(slot as int, model));
        }
        self.recipient_policies = PolicyMap::new(policies);
        assert(self@ == (ManifestModel {
            entries: before.entries,
            policies: given.update(slot as int, model),
        }));
        Ok(())
    }

    /// The entry of a path.
    pub fn find(&self, path: &ManagedPath) -> (r: Option<&ManifestEntry>)
        ensures
            view_entry(r) == entry_at(self@.entries, path@),
    {
        let ghost all = self@.entries;
        let mut i: usize = 0;
        assert(all.skip(0) =~= all);
        while i < self.entries.len()
            invariant
                all == entry_models(self.entries@),
                i <= self.entries.len(),
                entry_at(all.skip(i as int), path@) == entry_at(all, path@),
            decreases self.entries.len() - i,
        {
            assert(all.skip(i as int)[0] == self.entries@[i as int]@);
            if self.entries[i].path().same(path) {
                return Some(&self.entries[i]);
            }
            assert(all.skip(i as int).skip(1) =~= all.skip(i + 1));
            i = i + 1;
        }
        None
    }

    /// An entry together with the policy that it names.
    pub fn resolve_entry<'a>(&'a self, entry: &'a ManifestEntry) -> (r: Option<
        ResolvedManifestEntry<'a>,
    >)
        ensures
            match policy_of(self@.policies, entry@.policy) {
                Some(policy) => r matches Some(e) && e@ == (entry@, policy),
                None => r.is_none(),
            },
    {
        match self.recipient_policy(entry.recipient_policy()) {
            Some(policy) => Some(ResolvedManifestEntry::new(entry, policy)),
            None => None,
        }
    }

    /// Selects entries by optional managed paths and profile.
    ///
    /// An empty path list means all entries. When both selectors are present,
    /// every requested path must belong to the selected profile; mismatches
    /// fail instead of silently broadening or narrowing the operation.
    #[verifier::loop_isolation(false)]
    pub fn select<'a>(&'a self, paths: &[ManagedPath], profile: Option<&ProfileName>) -> (r: Result<
        Vec<&'a ManifestEntry>,
        ManifestSelectionError,
    >)
        ensures
            match selection(self@.entries, path::path_texts(paths@), view_profile(profile)) {
                Ok(list) => r matches Ok(v) && selected_models(v@) == list,
                Err(fault) => r matches Err(e) && e@ == fault,
            },
    {
        let ghost all = self@.entries;
        match profile {
            Some(wanted) => {
                if !self.uses_profile(wanted) {
                    return Err(ManifestSelectionError::UnknownProfile(wanted.clone()));
                }
                if paths.len() == 0 {
                    return Ok(self.entries_of_profile(wanted));
                }
                let list = match self.select_paths(paths) {
                    Ok(list) => list,
                    Err(error) => {
                        return Err(error);
                    },
                };
                let ghost models = selected_models(list@);
                let mut i: usize = 0;
                while i < list.len()
                    invariant
                        i <= list.len(),
                        models == selected_models(list@),
                        mismatch(models, wanted@, i as int) == mismatch(models, wanted@, 0),
                    decreases list.len() - i,
                {
                    assert(models[i as int] == list@[i as int]@);
                    if !text::eq(list[i].profile().as_str(), wanted.as_str()) {
                        return Err(
                            ManifestSelectionError::ProfileMismatch {
                                path: list[i].path().clone(),
                                expected: wanted.clone(),
                                actual: list[i].profile().clone(),
                            },
                        );
                    }
                    i = i + 1;
                }
                Ok(list)
            },
            None => if paths.len() == 0 {
                let mut out: Vec<&'a ManifestEntry> = Vec::new();
                let mut i: usize = 0;
                while i < self.entries.len()
                    invariant
                        i <= self.entries.len(),
                        out@.len() == i,
                        forall|j: int| 0 <= j < i ==> (#[trigger] out@[j])@ == self.entries@[j]@,
                    decreases self.entries.len() - i,
                {
                    out.push(&self.entries[i]);
                    i = i + 1;
                }
                assert(selected_models(out@) =~= all);
                Ok(out)
            } else {
                self.select_paths(paths)
            },
        }
    }

    fn uses_profile(&self, profile: &ProfileName) -> (r: bool)
        ensures
            r == profile_used(self@.entries, profile@),
    {
        let mut i: usize = 0;
        while i < self.entries.len()
            invariant
                i <= self.entries.len(),
                forall|j: int|
                    0 <= j < i ==> (#[trigger] self@.entries[j]).profile != profile@,
            decreases self.entries.len() - i,
        {
            assert(self@.entries[i as int] == self.entries@[i as int]@);
            if text::eq(self.entries[i].profile().as_str(), profile.as_str()) {
                return true;
            }
            i = i + 1;
        }
        false
    }

    fn entries_of_profile<'a>(&'a self, profile: &ProfileName) -> (r: Vec<&'a ManifestEntry>)
        ensures
            selected_models(r@) == of_profile(self@.entries, profile@),
    {
        let ghost all = self@.entries;
        let mut out: Vec<&'a ManifestEntry> = Vec::new();
        let mut i: usize = 0;
        assert(selected_models(out@) =~= Seq::<EntryModel>::empty());
        while i < self.entries.len()
            invariant
                all == entry_models(self.entries@),
                i <= self.entries.len(),
                selected_models(out@) == of_profile(all.take(i as int), profile@),
            decreases self.entries.len() - i,
        {
            assert(all.take(i + 1).drop_last() =~= all.take(i as int));
            assert(all.take(i + 1).last() == self.entries@[i as int]@);
            if text::eq(self.entries[i].profile().as_str(), profile.as_str()) {
                let ghost before = out@;
                out.push(&self.entries[i]);
                assert(selected_models(out@) =~= selected_models(before).push(
                    self.entries@[i as int]@,
                ));
            }
            i = i + 1;
        }
        assert(all.take(i as int) =~= all);
        out
    }

    fn select_paths<'a>(&'a self, paths: &[ManagedPath]) -> (r: Result<
        Vec<&'a ManifestEntry>,
        ManifestSelectionError,
    >)
        ensures
            match requested(self@.entries, path::path_texts(paths@)) {
                Ok(list) => r matches Ok(v) && selected_models(v@) == list,
                Err(fault) => r matches Err(e) && e@ == fault,
            },
    {
        let ghost all = self@.entries;
        let ghost wanted = path::path_texts(paths@);
        let mut out: Vec<&'a ManifestEntry> = Vec::new();
        let mut i: usize = 0;
        assert(selected_models(out@) =~= Seq::<EntryModel>::empty());
        while i < paths.len()
            invariant
                all == self@.entries,
                wanted == path::path_texts(paths@),
                i <= paths.len(),
                requested(all, wanted.take(i as int)) == Ok::<Seq<EntryModel>, SelectionFault>(
                    selected_models(out@),
                ),
            decreases paths.len() - i,
        {
            assert(wanted.take(i + 1).drop_last() =~= wanted.take(i as int));
            assert(wanted.take(i + 1).last() == paths@[i as int]@);
            match self.find(&paths[i]) {
                Some(entry) => {
                    let ghost before = out@;
                    out.push(entry);
                    assert(selected_models(out@) =~= selected_models(before).push(entry@));
                },
                None => {
                    proof {
                        lemma_requested_fails(all, wanted, i + 1);
                    }
                    return Err(ManifestSelectionError::UndeclaredPath(paths[i].clone()));
                },
            }
            i = i + 1;
        }
        assert(wanted.take(i as int) =~= wanted);
        Ok(out)
    }

    /// Equal entries and equal policies in the same order.
    pub fn same(&self, other: &Manifest) -> (r: bool)
        ensures
            r == (self@ == other@),
    {
        let (a, b) = (self.recipient_policies.as_list(), other.recipient_policies.as_list());
        if self.entries.len() != other.entries.len() || a.len() != b.len() {
            assert(self@.entries.len() != other@.entries.len() || self@.policies.len()
                != other@.policies.len());
            return false;
        }
        let mut i: usize = 0;
        while i < self.entries.len()
            invariant
                i <= self.entries.len(),
                self.entries@.len() == other.entries@.len(),
                forall|j: int| 0 <= j < i ==> self@.entries[j] == #[trigger] other@.entries[j],
            decreases self.entries.len() - i,
        {
            assert(self@.entries[i as int] == self.entries@[i as int]@);
            assert(other@.entries[i as int] == other.entries@[i as int]@);
            if !self.entries[i].same(&other.entries[i]) {
                return false;
            }
            i = i + 1;
        }
        let mut k: usize = 0;
        while k < a.len()
            invariant
                k <= a.len(),
                a@.len() == b@.len(),
                self@.policies == policy_models(a@),
                other@.policies == policy_models(b@),
                forall|j: int| 0 <= j < k ==> self@.policies[j] == #[trigger] other@.policies[j],
            decreases a.len() - k,
        {
            assert(self@.policies[k as int] == a@[k as int]@);
            assert(other@.policies[k as int] == b@[k as int]@);
            if !same_policy(&a[k], &b[k]) {
                return false;
            }
            k = k + 1;
        }
        assert(self@.entries =~= other@.entries);
        assert(self@.policies =~= other@.policies);
        true
    }
}

fn same_policy(a: &AgeRecipientPolicy, b: &AgeRecipientPolicy) -> (r: bool)
    ensures
        r == (a@ == b@),
{
    if !a.name().same(b.name()) {
        return false;
    }
    let (x, y) = (a.recipients(), b.recipients());
    if x.len() != y.len() {
        assert(a@.recipients.len() != b@.recipients.len());
        return false;
    }
    let mut i: usize = 0;
    while i < x.len()
        invariant
            i <= x.len(),
            x@.len() == y@.len(),
            recipient::names(x@) == a@.recipients,
            recipient::names(y@) == b@.recipients,
            forall|j: int| 0 <= j < i ==> a@.recipients[j] == #[trigger] b@.recipients[j],
        decreases x.len() - i,
    {
        assert(a@.recipients[i as int] == x@[i as int]@);
        assert(b@.recipients[i as int] == y@[i as int]@);
        if !x[i].same(&y[i]) {
            return false;
        }
        i = i + 1;
    }
    assert(a@.recipients =~= b@.recipients);
    true
}

/// The record of a policy.
pub open spec fn policy_json(p: PolicyModel) -> (Seq<char>, json::JsonTree) {
    (p.name, json::JsonTree::Object(seq![("age"@, json_fields::strings_json(p.recipients))]))
}

/// The record of a file.
pub open spec fn entry_json(e: EntryModel) -> json::JsonTree {
    json::JsonTree::Object(
        seq![
            ("path"@, json::JsonTree::String(e.path)),
            ("format"@, json::JsonTree::String(e.format.name())),
            ("recipientPolicy"@, json::JsonTree::String(e.policy)),
            ("profile"@, json::JsonTree::String(e.profile)),
        ],
    )
}

pub open spec fn policies_json(policies: Seq<PolicyModel>) -> Seq<(Seq<char>, json::JsonTree)> {
    policies.map_values(|p: PolicyModel| policy_json(p))
}

pub open spec fn files_json(entries: Seq<EntryModel>) -> Seq<json::JsonTree> {
    entries.map_values(|e: EntryModel| entry_json(e))
}

/// The record of a manifest.
pub open spec fn manifest_json(m: ManifestModel) -> json::JsonTree {
    json::JsonTree::Object(
        seq![
            ("version"@, json::JsonTree::Number(segment::decimal(MANIFEST_VERSION as nat))),
            ("recipientPolicies"@, json::JsonTree::Object(policies_json(m.policies))),
            ("files"@, json::JsonTree::Array(files_json(m.entries))),
        ],
    )
}

/// The bytes of a manifest.
pub open spec fn manifest_bytes(m: ManifestModel) -> Seq<u8> {
    vstd::utf8::encode_utf8(json::json_pretty(manifest_json(m)).push('\n'))
}

/// The record of an entry, before its values are checked.
pub open spec fn raw_entry(e: EntryModel) -> manifest_schema::RawEntryModel {
    manifest_schema::RawEntryModel {
        path: e.path,
        format: e.format.name(),
        policy: e.policy,
        profile: e.profile,
    }
}

/// The record of a manifest, before its values are checked.
pub open spec fn raw_manifest(m: ManifestModel) -> manifest_schema::RawManifestModel {
    manifest_schema::RawManifestModel {
        version: MANIFEST_VERSION as int,
        policies: m.policies.map_values(|p: PolicyModel| (p.name, p.recipients)),
        files: m.entries.map_values(|e: EntryModel| raw_entry(e)),
    }
}

proof fn lemma_strings_json(list: Seq<Seq<char>>)
    ensures
        manifest_schema::string_list(json_fields::strings_json(list)) == Ok::<
            Seq<Seq<char>>,
            Seq<char>,
        >(list),
    decreases list.len(),
{
    let a = json_fields::strings_json(list)->Array_0;
    if list.len() > 0 {
        let head = list.drop_last();
        lemma_strings_json(head);
        assert(a.drop_last() =~= json_fields::strings_json(head)->Array_0);
        assert(a.last() == json::JsonTree::String(list.last()));
        assert(head.push(list.last()) =~= list);
    } else {
        assert(list =~= Seq::<Seq<char>>::empty());
        assert(a =~= Seq::<json::JsonTree>::empty());
    }
}

proof fn lemma_policy_json(p: PolicyModel)
    ensures
        manifest_schema::policy_record(policy_json(p).1) == Ok::<Seq<Seq<char>>, Seq<char>>(
            p.recipients,
        ),
{
    let m = policy_json(p).1->Object_0;
    assert(m.drop_last() =~= Seq::<(Seq<char>, json::JsonTree)>::empty());
    reveal_with_fuel(manifest_schema::policy_members, 2);
    lemma_strings_json(p.recipients);
}

proof fn lemma_policies_json(policies: Seq<PolicyModel>)
    ensures
        manifest_schema::policies_in(policies_json(policies)) == Ok::<
            Seq<(Seq<char>, Seq<Seq<char>>)>,
            Seq<char>,
        >(policies.map_values(|p: PolicyModel| (p.name, p.recipients))),
    decreases policies.len(),
{
    let m = policies_json(policies);
    let all = policies.map_values(|p: PolicyModel| (p.name, p.recipients));
    if policies.len() > 0 {
        let head = policies.drop_last();
        lemma_policies_json(head);
        lemma_policy_json(policies.last());
        assert(m.drop_last() =~= policies_json(head));
        assert(head.map_values(|p: PolicyModel| (p.name, p.recipients)).push(
            (policies.last().name, policies.last().recipients),
        ) =~= all);
    } else {
        assert(all =~= Seq::empty());
    }
}

proof fn lemma_entry_json(e: EntryModel)
    ensures
        manifest_schema::file_record(entry_json(e)) == Ok::<
            manifest_schema::RawEntryModel,
            Seq<char>,
        >(raw_entry(e)),
{
    reveal_strlit("path");
    reveal_strlit("format");
    reveal_strlit("recipientPolicy");
    reveal_strlit("profile");
    let m = entry_json(e)->Object_0;
    assert("path"@.len() == 4 && "format"@.len() == 6 && "recipientPolicy"@.len() == 15
        && "profile"@.len() == 7);
    let (a, b, c, d) = (m.take(3), m.take(2), m.take(1), m.take(0));
    assert(m.drop_last() =~= a);
    assert(a.drop_last() =~= b);
    assert(b.drop_last() =~= c);
    assert(c.drop_last() =~= d);
    reveal_with_fuel(manifest_schema::file_members, 5);
}

proof fn lemma_files_json(entries: Seq<EntryModel>)
    ensures
        manifest_schema::files_in(files_json(entries)) == Ok::<
            Seq<manifest_schema::RawEntryModel>,
            Seq<char>,
        >(entries.map_values(|e: EntryModel| raw_entry(e))),
    decreases entries.len(),
{
    let a = files_json(entries);
    let all = entries.map_values(|e: EntryModel| raw_entry(e));
    if entries.len() > 0 {
        let head = entries.drop_last();
        lemma_files_json(head);
        lemma_entry_json(entries.last());
        assert(a.drop_last() =~= files_json(head));
        assert(head.map_values(|e: EntryModel| raw_entry(e)).push(raw_entry(entries.last()))
            =~= all);
    } else {
        assert(all =~= Seq::empty());
    }
}

proof fn lemma_manifest_json(m: ManifestModel)
    ensures
        manifest_schema::manifest_record(manifest_json(m)) == Ok::<
            manifest_schema::RawManifestModel,
            Seq<char>,
        >(raw_manifest(m)),
        !legacy(manifest_json(m)),
{
    reveal_strlit("version");
    reveal_strlit("recipientPolicies");
    reveal_strlit("files");
    let o = manifest_json(m)->Object_0;
    assert("version"@.len() == 7 && "recipientPolicies"@.len() == 17 && "files"@.len() == 5);
    let (a, b, c) = (o.take(2), o.take(1), o.take(0));
    assert(o.drop_last() =~= a);
    assert(a.drop_last() =~= b);
    assert(b.drop_last() =~= c);
    reveal_with_fuel(manifest_schema::manifest_members, 4);
    lemma_policies_json(m.policies);
    lemma_files_json(m.entries);
    integer::lemma_decimal(MANIFEST_VERSION as nat);
}

proof fn lemma_policies_check(policies: Seq<PolicyModel>)
    requires
        forall|i: int| 0 <= i < policies.len() ==> valid_policy(#[trigger] policies[i]),
    ensures
        checked_policies(policies.map_values(|p: PolicyModel| (p.name, p.recipients))) == Ok::<
            Seq<PolicyModel>,
            ManifestFault,
        >(policies),
    decreases policies.len(),
{
    let raw = policies.map_values(|p: PolicyModel| (p.name, p.recipients));
    if policies.len() > 0 {
        let head = policies.drop_last();
        assert forall|i: int| 0 <= i < head.len() implies valid_policy(#[trigger] head[i]) by {
            assert(head[i] == policies[i]);
        }
        lemma_policies_check(head);
        assert(raw.drop_last() =~= head.map_values(|p: PolicyModel| (p.name, p.recipients)));
        assert(valid_policy(policies[policies.len() - 1]));
        lemma_no_bad_recipient(policies.last().recipients, 0);
        assert(head.push(policies.last()) =~= policies);
    } else {
        assert(policies =~= Seq::<PolicyModel>::empty());
    }
}

proof fn lemma_files_check(entries: Seq<EntryModel>, policies: Seq<PolicyModel>)
    requires
        forall|i: int| 0 <= i < entries.len() ==> valid_entry(#[trigger] entries[i], policies),
        distinct_files(entries),
    ensures
        checked_files(entries.map_values(|e: EntryModel| raw_entry(e)), policies) == Ok::<
            Seq<EntryModel>,
            ManifestFault,
        >(entries),
    decreases entries.len(),
{
    let raw = entries.map_values(|e: EntryModel| raw_entry(e));
    if entries.len() > 0 {
        let head = entries.drop_last();
        let e = entries.last();
        assert forall|i: int| 0 <= i < head.len() implies valid_entry(
            #[trigger] head[i],
            policies,
        ) by {
            assert(head[i] == entries[i]);
        }
        assert forall|i: int, j: int| 0 <= i < j < head.len() implies path::collision_key(
            (#[trigger] head[i]).path,
        ) != path::collision_key((#[trigger] head[j]).path) by {
            assert(head[i] == entries[i] && head[j] == entries[j]);
        }
        lemma_files_check(head, policies);
        assert(raw.drop_last() =~= head.map_values(|e: EntryModel| raw_entry(e)));
        assert(valid_entry(entries[entries.len() - 1], policies));
        config::law_formats_are_found_by_name(e.format, e.format.name());
        if collides(head, e.path) {
            let i = choose|i: int|
                0 <= i < head.len() && path::collision_key((#[trigger] head[i]).path)
                    == path::collision_key(e.path);
            assert(head[i] == entries[i]);
            assert(entries[entries.len() - 1] == e);
        }
        assert(head.push(e) =~= entries);
    } else {
        assert(entries =~= Seq::<EntryModel>::empty());
    }
}

/// Law: the record of a valid manifest is read as that manifest.
pub proof fn law_manifest_record_is_read_back(m: ManifestModel)
    requires
        valid(m),
    ensures
        read_value(manifest_json(m)) == Ok::<ManifestModel, ManifestFault>(m),
{
    lemma_manifest_json(m);
    lemma_policies_check(m.policies);
    lemma_files_check(m.entries, m.policies);
}

/// The record of a manifest is plain: not deep, with distinct names.
proof fn lemma_manifest_plain(m: ManifestModel)
    requires
        valid_policies(m.policies),
    ensures
        json::plain(manifest_json(m), 100),
{
    reveal_strlit("$serde_json::private::Number");
    reveal_strlit("version");
    reveal_strlit("recipientPolicies");
    reveal_strlit("files");
    reveal_strlit("path");
    reveal_strlit("format");
    reveal_strlit("recipientPolicy");
    reveal_strlit("profile");
    reveal_strlit("age");
    let mark = "$serde_json::private::Number"@;
    assert(mark.len() == 28 && mark[0] == '$');
    reveal_strlit("$serde_json::private::RawValue");
    let raw = "$serde_json::private::RawValue"@;
    assert(raw.len() == 30 && raw[0] == '$');
    let o = manifest_json(m)->Object_0;
    assert("version"@.len() == 7 && "recipientPolicies"@.len() == 17 && "files"@.len() == 5);
    assert("path"@.len() == 4 && "format"@.len() == 6 && "recipientPolicy"@.len() == 15
        && "profile"@.len() == 7);
    assert("age"@.len() == 3);
    assert(json::names(o) =~= seq!["version"@, "recipientPolicies"@, "files"@]);
    assert(json::names(o).no_duplicates());
    assert(json::decimal_integer(segment::decimal(MANIFEST_VERSION as nat)));
    let p = policies_json(m.policies);
    assert(json::names(p) =~= names_of(m.policies));
    assert forall|i: int| 0 <= i < p.len() implies !json::reader_mark((#[trigger] p[i]).0)
        && json::plain(p[i].1, 98) by {
        let policy = m.policies[i];
        assert(p[i] == policy_json(policy));
        assert(valid_policy(policy));
        assert(text::lowercase_letter(policy.name[0]));
        let inner = p[i].1->Object_0;
        assert(json::names(inner) =~= seq!["age"@]);
        json_fields::lemma_strings_plain(policy.recipients, 97);
        assert(inner[0] == ("age"@, json_fields::strings_json(policy.recipients)));
        assert(json::plain(inner[0].1, 97));
    }
    assert(json::plain(json::JsonTree::Object(p), 99));
    let f = files_json(m.entries);
    assert forall|i: int| 0 <= i < f.len() implies json::plain(#[trigger] f[i], 98) by {
        let e = m.entries[i];
        assert(f[i] == entry_json(e));
        let inner = f[i]->Object_0;
        assert(json::names(inner) =~= seq!["path"@, "format"@, "recipientPolicy"@, "profile"@]);
        assert(json::names(inner).no_duplicates());
        assert forall|k: int| 0 <= k < inner.len() implies (#[trigger] inner[k]).0 != mark
            && json::plain(inner[k].1, 97) by {}
    }
    assert(json::plain(json::JsonTree::Array(f), 99));
    assert forall|k: int| 0 <= k < o.len() implies (#[trigger] o[k]).0 != mark && json::plain(
        o[k].1,
        99,
    ) by {}
}

fn strings_value(list: &[AgeRecipient]) -> (r: JsonValue)
    ensures
        r@ == json_fields::strings_json(recipient::names(list@)),
{
    let mut out: Vec<JsonValue> = Vec::new();
    let mut i: usize = 0;
    while i < list.len()
        invariant
            i <= list.len(),
            out@.len() == i,
            forall|j: int|
                0 <= j < i ==> (#[trigger] out@[j])@ == json::JsonTree::String(list@[j]@),
        decreases list.len() - i,
    {
        out.push(JsonValue::String(list[i].as_str().to_owned()));
        i = i + 1;
    }
    let r = JsonValue::Array(out);
    proof {
        json::lemma_view(r);
        assert(json::items(out@) =~= json_fields::strings_json(recipient::names(list@))->Array_0);
    }
    r
}

fn policies_value(list: &Vec<AgeRecipientPolicy>) -> (r: JsonValue)
    ensures
        r@ == json::JsonTree::Object(policies_json(policy_models(list@))),
{
    let mut out: Vec<(String, JsonValue)> = Vec::new();
    let mut i: usize = 0;
    while i < list.len()
        invariant
            i <= list.len(),
            out@.len() == i,
            forall|j: int|
                0 <= j < i ==> ((#[trigger] out@[j]).0@, out@[j].1@) == policy_json(list@[j]@),
        decreases list.len() - i,
    {
        let mut inner: Vec<(String, JsonValue)> = Vec::new();
        inner.push(json_fields::member_of("age", strings_value(list[i].recipients())));
        let record = JsonValue::Object(inner);
        proof {
            json::lemma_view(record);
            assert(json::members(inner@) =~= policy_json(list@[i as int]@).1->Object_0);
        }
        out.push(json_fields::member_of(list[i].name().as_str(), record));
        i = i + 1;
    }
    let r = JsonValue::Object(out);
    proof {
        json::lemma_view(r);
        assert(json::members(out@) =~= policies_json(policy_models(list@)));
    }
    r
}

fn files_value(list: &Vec<ManifestEntry>) -> (r: JsonValue)
    ensures
        r@ == json::JsonTree::Array(files_json(entry_models(list@))),
{
    let mut out: Vec<JsonValue> = Vec::new();
    let mut i: usize = 0;
    while i < list.len()
        invariant
            i <= list.len(),
            out@.len() == i,
            forall|j: int| 0 <= j < i ==> (#[trigger] out@[j])@ == entry_json(list@[j]@),
        decreases list.len() - i,
    {
        let entry = &list[i];
        let mut inner: Vec<(String, JsonValue)> = Vec::new();
        inner.push(json_fields::member_of("path", JsonValue::String(entry.path().as_str().to_owned())));
        inner.push(json_fields::member_of("format", JsonValue::String(entry.format().as_str().to_owned())));
        inner.push(
            json_fields::member_of(
                "recipientPolicy",
                JsonValue::String(entry.recipient_policy().as_str().to_owned()),
            ),
        );
        inner.push(json_fields::member_of("profile", JsonValue::String(entry.profile().as_str().to_owned())));
        let record = JsonValue::Object(inner);
        proof {
            json::lemma_view(record);
            assert(json::members(inner@) =~= entry_json(entry@)->Object_0);
        }
        out.push(record);
        i = i + 1;
    }
    let r = JsonValue::Array(out);
    proof {
        json::lemma_view(r);
        assert(json::items(out@) =~= files_json(entry_models(list@)));
    }
    r
}

impl Manifest {
    fn to_json(&self) -> (r: JsonValue)
        ensures
            r@ == manifest_json(self@),
    {
        let mut out: Vec<(String, JsonValue)> = Vec::new();
        out.push(json_fields::member_of("version", JsonValue::Number(segment::decimal_u64(MANIFEST_VERSION))));
        out.push(
            json_fields::member_of("recipientPolicies", policies_value(self.recipient_policies.as_list())),
        );
        out.push(json_fields::member_of("files", files_value(&self.entries)));
        let r = JsonValue::Object(out);
        proof {
            json::lemma_view(r);
            assert(json::members(out@) =~= manifest_json(self@)->Object_0);
        }
        r
    }

    /// Writes the manifest in its canonical form. What would not be read back as
    /// this manifest is refused; a valid manifest is always written.
    pub fn to_json_bytes(&self) -> (r: Result<Vec<u8>, ManifestWriteError>)
        ensures
            match r {
                Ok(bytes) => bytes@ == manifest_bytes(self@) && read_bytes(bytes@) == Ok::<
                    ManifestModel,
                    ManifestFault,
                >(self@),
                Err(error) => error == ManifestWriteError::Invariant && read_bytes(
                    manifest_bytes(self@),
                ) != Ok::<ManifestModel, ManifestFault>(self@),
            },
            valid(self@) ==> r.is_ok(),
    {
        let value = self.to_json();
        let _ = self.recipient_policies.as_list();
        proof {
            lemma_manifest_plain(self@);
            json::lemma_plain(value@, 100);
            vstd::utf8::encode_utf8_decode_utf8(json::json_pretty(value@).push('\n'));
            vstd::utf8::encode_utf8_valid_utf8(json::json_pretty(value@).push('\n'));
            if valid(self@) {
                law_manifest_record_is_read_back(self@);
            }
        }
        let mut text = match json::write_pretty(&value) {
            Ok(text) => text,
            Err(_) => {
                return Err(ManifestWriteError::Serialization);
            },
        };
        text.push('\n');
        let bytes = text.as_str().as_bytes_vec();
        match Manifest::parse(bytes.as_slice()) {
            Ok(reparsed) => if reparsed.same(self) {
                Ok(bytes)
            } else {
                Err(ManifestWriteError::Invariant)
            },
            Err(_) => Err(ManifestWriteError::Invariant),
        }
    }
}

#[derive(Clone, Copy, Debug, PartialEq, Eq, Structural)]
pub enum ManifestWriteError {
    Serialization,
    Invariant,
}

impl ManifestWriteError {
    pub open spec fn text(self) -> Seq<char> {
        match self {
            ManifestWriteError::Serialization => "manifest serialization failed"@,
            ManifestWriteError::Invariant =>
                "serialized manifest violated the manifest reader contract"@,
        }
    }

    pub fn message(self) -> (r: &'static str)
        ensures
            r@ == self.text(),
    {
        match self {
            ManifestWriteError::Serialization => "manifest serialization failed",
            ManifestWriteError::Invariant =>
                "serialized manifest violated the manifest reader contract",
        }
    }
}

/// An entry with the policy that it names.
pub struct ResolvedManifestEntry<'a> {
    entry: &'a ManifestEntry,
    recipient_policy: &'a AgeRecipientPolicy,
}

impl<'a> View for ResolvedManifestEntry<'a> {
    type V = (EntryModel, PolicyModel);

    closed spec fn view(&self) -> (EntryModel, PolicyModel) {
        (self.entry@, self.recipient_policy@)
    }
}

impl<'a> ResolvedManifestEntry<'a> {
    pub fn new(entry: &'a ManifestEntry, recipient_policy: &'a AgeRecipientPolicy) -> (r:
        ResolvedManifestEntry<'a>)
        ensures
            r@ == (entry@, recipient_policy@),
    {
        ResolvedManifestEntry { entry, recipient_policy }
    }

    pub fn entry(&self) -> (r: &'a ManifestEntry)
        ensures
            r@ == self@.0,
    {
        self.entry
    }

    pub fn recipient_policy(&self) -> (r: &'a AgeRecipientPolicy)
        ensures
            r@ == self@.1,
    {
        self.recipient_policy
    }

    pub fn path(&self) -> (r: &'a ManagedPath)
        ensures
            r@ == self@.0.path,
    {
        self.entry.path()
    }

    pub fn format(&self) -> (r: SourceFormat)
        ensures
            r == self@.0.format,
    {
        self.entry.format()
    }

    pub fn ciphertext_path(&self) -> (r: ManagedPath)
        ensures
            r@ == self@.0.path + path::ciphertext_suffix(),
    {
        self.entry.ciphertext_path()
    }
}

#[derive(Clone, Copy, Debug, PartialEq, Eq, Structural)]
pub enum ManifestEntryAddOutcome {
    Added,
    AlreadyManaged,
}

/// The first entry of a path.
pub open spec fn entry_at(entries: Seq<EntryModel>, p: Seq<char>) -> Option<EntryModel>
    decreases entries.len(),
{
    if entries.len() == 0 {
        None
    } else if entries[0].path == p {
        Some(entries[0])
    } else {
        entry_at(entries.skip(1), p)
    }
}

pub open spec fn view_entry(e: Option<&ManifestEntry>) -> Option<EntryModel> {
    match e {
        Some(entry) => Some(entry@),
        None => None,
    }
}

pub open spec fn view_profile(p: Option<&ProfileName>) -> Option<Seq<char>> {
    match p {
        Some(profile) => Some(profile@),
        None => None,
    }
}

pub open spec fn selected_models(v: Seq<&ManifestEntry>) -> Seq<EntryModel> {
    v.map_values(|e: &ManifestEntry| e@)
}

/// What becomes of an entry that is added.
pub open spec fn addition(m: ManifestModel, e: EntryModel) -> Result<
    ManifestEntryAddOutcome,
    MutationFault,
> {
    if text::ends_with(e.path, ".gitveil"@) {
        Err(MutationFault::CiphertextSuffix(e.path))
    } else if reserved(e.path) {
        Err(MutationFault::ReservedPath(e.path))
    } else if policy_of(m.policies, e.policy) is None {
        Err(MutationFault::MissingPolicy(e.policy))
    } else {
        match entry_at(m.entries, e.path) {
            Some(existing) => if existing == e {
                Ok(ManifestEntryAddOutcome::AlreadyManaged)
            } else {
                Err(MutationFault::ConflictingEntry(e.path))
            },
            None => if collides(m.entries, e.path) {
                Err(MutationFault::CaseCollision(e.path))
            } else {
                Ok(ManifestEntryAddOutcome::Added)
            },
        }
    }
}

proof fn lemma_entry_at(entries: Seq<EntryModel>, p: Seq<char>)
    ensures
        entry_at(entries, p) matches Some(e) ==> e.path == p && entries.contains(e),
    decreases entries.len(),
{
    if entries.len() > 0 {
        if entries[0].path == p {
            assert(entries.contains(entries[0]));
        } else {
            let rest = entries.skip(1);
            lemma_entry_at(rest, p);
            if entry_at(rest, p) is Some {
                let e = entry_at(rest, p)->Some_0;
                let k = choose|k: int| 0 <= k < rest.len() && rest[k] == e;
                assert(entries[k + 1] == e);
            }
        }
    }
}

/// The policies with other recipients for the policy of a name.
pub open spec fn with_recipients(
    policies: Seq<PolicyModel>,
    name: Seq<char>,
    recipients: Seq<Seq<char>>,
) -> Seq<PolicyModel> {
    policies.map_values(
        |p: PolicyModel|
            if p.name == name {
                PolicyModel { name, recipients }
            } else {
                p
            },
    )
}

/// What becomes of a manifest whose policy gets other recipients.
pub open spec fn replacement(
    m: ManifestModel,
    name: Seq<char>,
    recipients: Seq<Seq<char>>,
) -> Result<ManifestModel, MutationFault> {
    if policy_of(m.policies, name) is None {
        Err(MutationFault::MissingPolicy(name))
    } else {
        match recipient::policy_fault(recipients) {
            Some(source) => Err(MutationFault::Policy { policy: name, source }),
            None => Ok(
                ManifestModel {
                    entries: m.entries,
                    policies: with_recipients(m.policies, name, recipients),
                },
            ),
        }
    }
}

proof fn lemma_policy_at(policies: Seq<PolicyModel>, name: Seq<char>, at: int)
    requires
        names_of(policies).no_duplicates(),
        0 <= at < policies.len(),
        policies[at].name == name,
    ensures
        forall|r: Seq<Seq<char>>|
            policies.update(at, PolicyModel { name, recipients: r }) == #[trigger] with_recipients(
                policies,
                name,
                r,
            ),
{
    assert forall|r: Seq<Seq<char>>|
        policies.update(at, PolicyModel { name, recipients: r }) == #[trigger] with_recipients(
            policies,
            name,
            r,
        ) by {
        assert forall|i: int| 0 <= i < policies.len() && i != at implies (
        #[trigger] policies[i]).name != name by {
            assert(names_of(policies)[i] == policies[i].name);
            assert(names_of(policies)[at] == policies[at].name);
        }
        assert(policies.update(at, PolicyModel { name, recipients: r }) =~= with_recipients(
            policies,
            name,
            r,
        ));
    }
}

/// A policy is found where one has the name.
pub proof fn lemma_policy_of(policies: Seq<PolicyModel>, name: Seq<char>)
    ensures
        policy_of(policies, name) is Some <==> names_of(policies).contains(name),
        policy_of(policies, name) matches Some(p) ==> p.name == name && policies.contains(p),
    decreases policies.len(),
{
    if policies.len() > 0 {
        let rest = policies.skip(1);
        lemma_policy_of(rest, name);
        if policies[0].name == name {
            assert(names_of(policies)[0] == name);
        } else {
            if names_of(rest).contains(name) {
                let i = choose|i: int| 0 <= i < rest.len() && names_of(rest)[i] == name;
                assert(names_of(policies)[i + 1] == name);
            }
            if names_of(policies).contains(name) {
                let i = choose|i: int| 0 <= i < policies.len() && names_of(policies)[i] == name;
                assert(names_of(rest)[i - 1] == name);
            }
            if policy_of(rest, name) is Some {
                let p = policy_of(rest, name)->Some_0;
                let i = choose|i: int| 0 <= i < rest.len() && rest[i] == p;
                assert(policies[i + 1] == p);
            }
        }
    }
}

/// New recipients under the same names keep a manifest valid.
proof fn lemma_replaced(m: ManifestModel, policies: Seq<PolicyModel>)
    requires
        valid_policies(m.policies),
        names_of(policies) =~= names_of(m.policies),
        forall|i: int| 0 <= i < policies.len() ==> valid_policy(#[trigger] policies[i]),
    ensures
        valid_policies(policies),
        valid(m) ==> valid(ManifestModel { entries: m.entries, policies }),
{
    if valid(m) {
        assert forall|i: int| 0 <= i < m.entries.len() implies valid_entry(
            #[trigger] m.entries[i],
            policies,
        ) by {
            lemma_policy_of(policies, m.entries[i].policy);
            lemma_policy_of(m.policies, m.entries[i].policy);
        }
    }
}

/// Some entry belongs to a profile.
pub open spec fn profile_used(entries: Seq<EntryModel>, profile: Seq<char>) -> bool {
    exists|i: int| 0 <= i < entries.len() && (#[trigger] entries[i]).profile == profile
}

/// The entries of a profile in order.
pub open spec fn of_profile(entries: Seq<EntryModel>, profile: Seq<char>) -> Seq<EntryModel>
    decreases entries.len(),
{
    if entries.len() == 0 {
        Seq::empty()
    } else if entries.last().profile == profile {
        of_profile(entries.drop_last(), profile).push(entries.last())
    } else {
        of_profile(entries.drop_last(), profile)
    }
}

/// The entries of the requested paths in order; the first path without one fails.
pub open spec fn requested(entries: Seq<EntryModel>, paths: Seq<Seq<char>>) -> Result<
    Seq<EntryModel>,
    SelectionFault,
>
    decreases paths.len(),
{
    if paths.len() == 0 {
        Ok(Seq::empty())
    } else {
        match requested(entries, paths.drop_last()) {
            Err(fault) => Err(fault),
            Ok(head) => match entry_at(entries, paths.last()) {
                None => Err(SelectionFault::UndeclaredPath(paths.last())),
                Some(entry) => Ok(head.push(entry)),
            },
        }
    }
}

proof fn lemma_requested_fails(entries: Seq<EntryModel>, paths: Seq<Seq<char>>, n: int)
    requires
        0 <= n <= paths.len(),
        requested(entries, paths.take(n)) is Err,
    ensures
        requested(entries, paths) == requested(entries, paths.take(n)),
    decreases paths.len() - n,
{
    if n < paths.len() {
        assert(paths.take(n + 1).drop_last() =~= paths.take(n));
        lemma_requested_fails(entries, paths, n + 1);
    } else {
        assert(paths.take(n) =~= paths);
    }
}

/// The first entry from `i` on that is not of the profile.
pub open spec fn mismatch(list: Seq<EntryModel>, profile: Seq<char>, i: int) -> Option<EntryModel>
    decreases list.len() - i,
{
    if i < 0 || i >= list.len() {
        None
    } else if list[i].profile != profile {
        Some(list[i])
    } else {
        mismatch(list, profile, i + 1)
    }
}

/// The entries that paths and a profile select.
pub open spec fn selection(
    entries: Seq<EntryModel>,
    paths: Seq<Seq<char>>,
    profile: Option<Seq<char>>,
) -> Result<Seq<EntryModel>, SelectionFault> {
    match profile {
        Some(profile) => if !profile_used(entries, profile) {
            Err(SelectionFault::UnknownProfile(profile))
        } else if paths.len() == 0 {
            Ok(of_profile(entries, profile))
        } else {
            match requested(entries, paths) {
                Err(fault) => Err(fault),
                Ok(list) => match mismatch(list, profile, 0) {
                    Some(e) => Err(
                        SelectionFault::ProfileMismatch {
                            path: e.path,
                            expected: profile,
                            actual: e.profile,
                        },
                    ),
                    None => Ok(list),
                },
            }
        },
        None => if paths.len() == 0 {
            Ok(entries)
        } else {
            requested(entries, paths)
        },
    }
}

proof fn lemma_no_mismatch(list: Seq<EntryModel>, profile: Seq<char>, i: int)
    requires
        0 <= i,
        mismatch(list, profile, i) is None,
    ensures
        forall|j: int| i <= j < list.len() ==> (#[trigger] list[j]).profile == profile,
    decreases list.len() - i,
{
    if i < list.len() {
        lemma_no_mismatch(list, profile, i + 1);
    }
}

proof fn lemma_of_profile(entries: Seq<EntryModel>, profile: Seq<char>)
    ensures
        ({
            let list = of_profile(entries, profile);
            forall|j: int|
                0 <= j < list.len() ==> (#[trigger] list[j]).profile == profile && entries.contains(
                    list[j],
                )
        }),
    decreases entries.len(),
{
    if entries.len() > 0 {
        let rest = entries.drop_last();
        lemma_of_profile(rest, profile);
        let list = of_profile(entries, profile);
        assert forall|j: int| 0 <= j < list.len() implies (#[trigger] list[j]).profile == profile
            && entries.contains(list[j]) by {
            let head = of_profile(rest, profile);
            if j < head.len() {
                assert(list[j] == head[j]);
                let k = choose|k: int| 0 <= k < rest.len() && rest[k] == head[j];
                assert(entries[k] == list[j]);
            } else {
                assert(entries[entries.len() - 1] == list[j]);
            }
        }
    }
}

/// Law: a selection by profile holds entries of that profile only, also where
/// paths are given.
pub proof fn law_selection_keeps_to_profile(
    entries: Seq<EntryModel>,
    paths: Seq<Seq<char>>,
    profile: Seq<char>,
)
    requires
        selection(entries, paths, Some(profile)) is Ok,
    ensures
        ({
            let list = selection(entries, paths, Some(profile))->Ok_0;
            forall|j: int| 0 <= j < list.len() ==> (#[trigger] list[j]).profile == profile
        }),
{
    if paths.len() == 0 {
        lemma_of_profile(entries, profile);
    } else {
        lemma_no_mismatch(requested(entries, paths)->Ok_0, profile, 0);
    }
}

/// Law: a selection by paths holds one entry for each path, in the order of the
/// paths.
pub proof fn law_selection_follows_paths(
    entries: Seq<EntryModel>,
    paths: Seq<Seq<char>>,
    profile: Option<Seq<char>>,
)
    requires
        paths.len() > 0,
        selection(entries, paths, profile) is Ok,
    ensures
        ({
            let list = selection(entries, paths, profile)->Ok_0;
            &&& list.len() == paths.len()
            &&& forall|j: int| 0 <= j < list.len() ==> (#[trigger] list[j]).path == paths[j]
        }),
{
    lemma_requested(entries, paths);
}

/// Law: whatever is selected is an entry of the manifest.
pub proof fn law_selection_takes_entries(
    entries: Seq<EntryModel>,
    paths: Seq<Seq<char>>,
    profile: Option<Seq<char>>,
)
    requires
        selection(entries, paths, profile) is Ok,
    ensures
        ({
            let list = selection(entries, paths, profile)->Ok_0;
            forall|j: int| 0 <= j < list.len() ==> entries.contains(#[trigger] list[j])
        }),
{
    let list = selection(entries, paths, profile)->Ok_0;
    if paths.len() > 0 {
        lemma_requested_are_entries(entries, paths);
    } else {
        match profile {
            Some(profile) => {
                lemma_of_profile(entries, profile);
            },
            None => {
                assert forall|j: int| 0 <= j < list.len() implies entries.contains(
                    #[trigger] list[j],
                ) by {
                    assert(entries[j] == list[j]);
                }
            },
        }
    }
}

proof fn lemma_requested_are_entries(entries: Seq<EntryModel>, paths: Seq<Seq<char>>)
    requires
        requested(entries, paths) is Ok,
    ensures
        ({
            let list = requested(entries, paths)->Ok_0;
            forall|j: int| 0 <= j < list.len() ==> entries.contains(#[trigger] list[j])
        }),
    decreases paths.len(),
{
    if paths.len() > 0 {
        lemma_requested_are_entries(entries, paths.drop_last());
        lemma_entry_at(entries, paths.last());
        let head = requested(entries, paths.drop_last())->Ok_0;
        let list = requested(entries, paths)->Ok_0;
        assert forall|j: int| 0 <= j < list.len() implies entries.contains(#[trigger] list[j]) by {
            if j < head.len() {
                assert(list[j] == head[j]);
            }
        }
    }
}

proof fn lemma_requested(entries: Seq<EntryModel>, paths: Seq<Seq<char>>)
    requires
        requested(entries, paths) is Ok,
    ensures
        ({
            let list = requested(entries, paths)->Ok_0;
            &&& list.len() == paths.len()
            &&& forall|j: int| 0 <= j < list.len() ==> (#[trigger] list[j]).path == paths[j]
        }),
    decreases paths.len(),
{
    if paths.len() > 0 {
        lemma_requested(entries, paths.drop_last());
        lemma_entry_at(entries, paths.last());
    }
}

#[derive(Debug, PartialEq, Eq)]
pub enum ManifestMutationError {
    CiphertextSuffix(ManagedPath),
    ReservedPath(ManagedPath),
    ConflictingEntry(ManagedPath),
    CaseCollision(ManagedPath),
    MissingPolicy(PolicyName),
    Policy { policy: PolicyName, source: RecipientError },
}

pub enum MutationFault {
    CiphertextSuffix(Seq<char>),
    ReservedPath(Seq<char>),
    ConflictingEntry(Seq<char>),
    CaseCollision(Seq<char>),
    MissingPolicy(Seq<char>),
    Policy { policy: Seq<char>, source: RecipientError },
}

impl View for ManifestMutationError {
    type V = MutationFault;

    open spec fn view(&self) -> MutationFault {
        match self {
            ManifestMutationError::CiphertextSuffix(path) => MutationFault::CiphertextSuffix(path@),
            ManifestMutationError::ReservedPath(path) => MutationFault::ReservedPath(path@),
            ManifestMutationError::ConflictingEntry(path) => MutationFault::ConflictingEntry(path@),
            ManifestMutationError::CaseCollision(path) => MutationFault::CaseCollision(path@),
            ManifestMutationError::MissingPolicy(name) => MutationFault::MissingPolicy(name@),
            ManifestMutationError::Policy { policy, source } => MutationFault::Policy {
                policy: policy@,
                source: *source,
            },
        }
    }
}

impl MutationFault {
    pub open spec fn text(self) -> Seq<char> {
        match self {
            MutationFault::CiphertextSuffix(path) => "plaintext path "@ + path
                + " must not carry the .gitveil suffix"@,
            MutationFault::ReservedPath(path) => "path "@ + path
                + " is reserved for Gitveil repository configuration"@,
            MutationFault::ConflictingEntry(path) => "path "@ + path
                + " is already managed with different format, profile, or recipient policy"@,
            MutationFault::CaseCollision(path) => "path "@ + path
                + " collides case-insensitively with an existing managed path"@,
            MutationFault::MissingPolicy(name) => "recipient policy "@ + name
                + " is not declared in .gitveilrc.json"@,
            MutationFault::Policy { policy, source } => "invalid recipient policy "@ + policy + ": "@
                + source.text(),
        }
    }
}

impl ManifestMutationError {
    pub fn message(&self) -> (r: String)
        ensures
            r@ == self@.text(),
    {
        match self {
            ManifestMutationError::CiphertextSuffix(path) => text::cat3(
                "plaintext path ",
                path.as_str(),
                " must not carry the .gitveil suffix",
            ),
            ManifestMutationError::ReservedPath(path) => text::cat3(
                "path ",
                path.as_str(),
                " is reserved for Gitveil repository configuration",
            ),
            ManifestMutationError::ConflictingEntry(path) => text::cat3(
                "path ",
                path.as_str(),
                " is already managed with different format, profile, or recipient policy",
            ),
            ManifestMutationError::CaseCollision(path) => text::cat3(
                "path ",
                path.as_str(),
                " collides case-insensitively with an existing managed path",
            ),
            ManifestMutationError::MissingPolicy(name) => text::cat3(
                "recipient policy ",
                name.as_str(),
                " is not declared in .gitveilrc.json",
            ),
            ManifestMutationError::Policy { policy, source } => text::cat4(
                "invalid recipient policy ",
                policy.as_str(),
                ": ",
                source.message(),
            ),
        }
    }
}

#[derive(Debug, PartialEq, Eq)]
pub enum ManifestSelectionError {
    UndeclaredPath(ManagedPath),
    UnknownProfile(ProfileName),
    ProfileMismatch { path: ManagedPath, expected: ProfileName, actual: ProfileName },
}

pub enum SelectionFault {
    UndeclaredPath(Seq<char>),
    UnknownProfile(Seq<char>),
    ProfileMismatch { path: Seq<char>, expected: Seq<char>, actual: Seq<char> },
}

impl View for ManifestSelectionError {
    type V = SelectionFault;

    open spec fn view(&self) -> SelectionFault {
        match self {
            ManifestSelectionError::UndeclaredPath(path) => SelectionFault::UndeclaredPath(path@),
            ManifestSelectionError::UnknownProfile(name) => SelectionFault::UnknownProfile(name@),
            ManifestSelectionError::ProfileMismatch { path, expected, actual } =>
                SelectionFault::ProfileMismatch {
                    path: path@,
                    expected: expected@,
                    actual: actual@,
                },
        }
    }
}

impl SelectionFault {
    pub open spec fn text(self) -> Seq<char> {
        match self {
            SelectionFault::UndeclaredPath(path) => "path "@ + path
                + " is not declared in .gitveilrc.json"@,
            SelectionFault::UnknownProfile(name) => "profile "@ + name
                + " is not used by any file in .gitveilrc.json"@,
            SelectionFault::ProfileMismatch { path, expected, actual } => "path "@ + path
                + " belongs to profile "@ + actual + ", not requested profile "@ + expected,
        }
    }
}

impl ManifestSelectionError {
    pub fn message(&self) -> (r: String)
        ensures
            r@ == self@.text(),
    {
        match self {
            ManifestSelectionError::UndeclaredPath(path) => text::cat3(
                "path ",
                path.as_str(),
                " is not declared in .gitveilrc.json",
            ),
            ManifestSelectionError::UnknownProfile(name) => text::cat3(
                "profile ",
                name.as_str(),
                " is not used by any file in .gitveilrc.json",
            ),
            ManifestSelectionError::ProfileMismatch { path, expected, actual } => {
                let head = text::cat4(
                    "path ",
                    path.as_str(),
                    " belongs to profile ",
                    actual.as_str(),
                );
                text::cat3(head.as_str(), ", not requested profile ", expected.as_str())
            },
        }
    }
}

/// Some policy has a name.
pub open spec fn names_policy(policies: Seq<PolicyModel>, name: Seq<char>) -> bool {
    exists|i: int| 0 <= i < policies.len() && (#[trigger] policies[i]).name == name
}

/// Law: a policy is found by its name exactly where there is one of that name, and what is
/// found is such a policy, the only one where names are distinct.
pub proof fn law_policies_are_found_by_name(policies: Seq<PolicyModel>, name: Seq<char>, i: int)
    ensures
        policy_of(policies, name) is Some <==> names_policy(policies, name),
        policy_of(policies, name) matches Some(p) ==> p.name == name && policies.contains(p),
        names_of(policies).no_duplicates() && 0 <= i < policies.len() && policies[i].name == name
            ==> policy_of(policies, name) == Some(policies[i]),
    decreases policies.len(),
{
    if policies.len() > 0 {
        let rest = policies.skip(1);
        assert(forall|k: int| 0 <= k < rest.len() ==> rest[k] == policies[k + 1]);
        law_policies_are_found_by_name(rest, name, i - 1);
        if policies[0].name == name {
            assert(policies.contains(policies[0]));
            if names_of(policies).no_duplicates() && 0 < i < policies.len() && policies[i].name
                == name {
                assert(names_of(policies)[0] == names_of(policies)[i]);
            }
        } else {
            if names_policy(rest, name) {
                let k = choose|k: int| 0 <= k < rest.len() && (#[trigger] rest[k]).name == name;
                assert(policies[k + 1].name == name);
            }
            if names_policy(policies, name) {
                let k = choose|k: int|
                    0 <= k < policies.len() && (#[trigger] policies[k]).name == name;
                assert(rest[k - 1].name == name);
            }
            if policy_of(rest, name) is Some {
                let p = policy_of(rest, name)->Some_0;
                let k = choose|k: int| 0 <= k < rest.len() && rest[k] == p;
                assert(policies[k + 1] == p);
            }
            if names_of(policies).no_duplicates() {
                assert forall|a: int, b: int| 0 <= a < rest.len() && 0 <= b < rest.len() && a
                    != b implies names_of(rest)[a] != names_of(rest)[b] by {
                    assert(names_of(policies)[a + 1] != names_of(policies)[b + 1]);
                }
            }
        }
    }
}

/// A text ends with another.
pub open spec fn has_suffix(s: Seq<char>, end: Seq<char>) -> bool {
    exists|head: Seq<char>| s == #[trigger] (head + end)
}

/// Law: a path can be managed exactly where it is a valid path, is neither the manifest nor
/// the ignore file at the root of the repository, and does not have the suffix of a
/// ciphertext.
pub proof fn law_managed_files_are_plaintext(p: Seq<char>)
    ensures
        declarable(p) <==> path::valid_path(p) && p != ".gitveilrc.json"@ && p != ".gitignore"@
            && !has_suffix(p, ".gitveil"@),
{
    let end = ".gitveil"@;
    if text::ends_with(p, end) {
        assert(p =~= p.take(p.len() - end.len()) + end);
    }
    if has_suffix(p, end) {
        let head = choose|head: Seq<char>| p == #[trigger] (head + end);
        assert(p.subrange(p.len() - end.len(), p.len() as int) =~= end);
        assert(p.skip(p.len() - end.len()) =~= end);
        assert(text::ends_with(p, end));
    }
}

proof fn lemma_entry_found(entries: Seq<EntryModel>, p: Seq<char>)
    ensures
        entry_at(entries, p) is Some <==> exists|i: int|
            0 <= i < entries.len() && (#[trigger] entries[i]).path == p,
    decreases entries.len(),
{
    if entries.len() > 0 {
        let rest = entries.skip(1);
        assert(forall|k: int| 0 <= k < rest.len() ==> rest[k] == entries[k + 1]);
        lemma_entry_found(rest, p);
        if entries[0].path != p {
            if entry_at(rest, p) is Some {
                let k = choose|k: int| 0 <= k < rest.len() && (#[trigger] rest[k]).path == p;
                assert(entries[k + 1].path == p);
            }
            if exists|i: int| 0 <= i < entries.len() && (#[trigger] entries[i]).path == p {
                let k = choose|k: int| 0 <= k < entries.len() && (#[trigger] entries[k]).path == p;
                assert(rest[k - 1].path == p);
            }
        }
    }
}

/// Law: an entry is added exactly where its path can be managed, its policy exists and no
/// entry is the same file; it is found to be managed already exactly where the manifest holds
/// it as it is. Any other entry for a file that is managed is refused.
pub proof fn law_additions_are_exact(m: ManifestModel, e: EntryModel)
    requires
        distinct_files(m.entries),
        path::valid_path(e.path),
    ensures
        ({
            let fit = declarable(e.path) && names_policy(m.policies, e.policy);
            &&& addition(m, e) == Ok::<ManifestEntryAddOutcome, MutationFault>(
                ManifestEntryAddOutcome::Added,
            ) <==> fit && forall|i: int|
                0 <= i < m.entries.len() ==> path::collision_key((#[trigger] m.entries[i]).path)
                    != path::collision_key(e.path)
            &&& addition(m, e) == Ok::<ManifestEntryAddOutcome, MutationFault>(
                ManifestEntryAddOutcome::AlreadyManaged,
            ) <==> fit && m.entries.contains(e)
            &&& !names_policy(m.policies, e.policy) && declarable(e.path) ==> addition(m, e)
                == Err::<ManifestEntryAddOutcome, MutationFault>(
                MutationFault::MissingPolicy(e.policy),
            )
            &&& fit && (exists|i: int|
                0 <= i < m.entries.len() && (#[trigger] m.entries[i]).path == e.path
                    && m.entries[i] != e) ==> addition(m, e) == Err::<
                ManifestEntryAddOutcome,
                MutationFault,
            >(MutationFault::ConflictingEntry(e.path))
        }),
{
    law_policies_are_found_by_name(m.policies, e.policy, 0);
    lemma_entry_found(m.entries, e.path);
    lemma_entry_at(m.entries, e.path);
    if entry_at(m.entries, e.path) is Some {
        let found = entry_at(m.entries, e.path)->Some_0;
        let k = choose|k: int| 0 <= k < m.entries.len() && m.entries[k] == found;
        assert(path::collision_key(m.entries[k].path) == path::collision_key(e.path));
        assert forall|i: int|
            0 <= i < m.entries.len() && (#[trigger] m.entries[i]).path == e.path implies m.entries[i]
            == found by {
            if i < k {
                assert(path::collision_key(m.entries[i].path) != path::collision_key(
                    m.entries[k].path,
                ));
            }
            if k < i {
                assert(path::collision_key(m.entries[k].path) != path::collision_key(
                    m.entries[i].path,
                ));
            }
        }
    }
    if m.entries.contains(e) {
        let i = choose|i: int| 0 <= i < m.entries.len() && m.entries[i] == e;
        assert(m.entries[i].path == e.path);
    }
}

/// Law: what is added to a valid manifest leaves it valid.
pub proof fn law_additions_keep_the_manifest_valid(m: ManifestModel, e: EntryModel)
    requires
        valid(m),
        path::valid_path(e.path),
        profile::kebab_name(e.policy),
        profile::kebab_name(e.profile),
        addition(m, e) == Ok::<ManifestEntryAddOutcome, MutationFault>(
            ManifestEntryAddOutcome::Added,
        ),
    ensures
        valid(ManifestModel { entries: m.entries.push(e), policies: m.policies }),
{
    let more = m.entries.push(e);
    assert forall|i: int| 0 <= i < more.len() implies valid_entry(#[trigger] more[i], m.policies) by {
        if i < m.entries.len() {
            assert(more[i] == m.entries[i]);
        }
    }
    assert forall|i: int, j: int| 0 <= i < j < more.len() implies path::collision_key(
        (#[trigger] more[i]).path,
    ) != path::collision_key((#[trigger] more[j]).path) by {
        assert(more[i] == m.entries[i]);
        if j < m.entries.len() {
            assert(more[j] == m.entries[j]);
        }
    }
}

/// Law: a selection without paths takes every entry, or every entry of the profile, in the
/// order of the manifest; a profile that no entry has is refused, and so is a path that no
/// entry has, and an entry of another profile.
pub proof fn law_selections_are_exact(
    entries: Seq<EntryModel>,
    paths: Seq<Seq<char>>,
    profile: Option<Seq<char>>,
)
    ensures
        paths.len() == 0 && profile is None ==> selection(entries, paths, profile) == Ok::<
            Seq<EntryModel>,
            SelectionFault,
        >(entries),
        paths.len() == 0 && profile is Some && (exists|i: int|
            0 <= i < entries.len() && (#[trigger] entries[i]).profile == profile->Some_0)
            ==> selection(entries, paths, profile) == Ok::<Seq<EntryModel>, SelectionFault>(
            entries.filter(|e: EntryModel| e.profile == profile->Some_0),
        ),
        profile is Some && !(exists|i: int|
            0 <= i < entries.len() && (#[trigger] entries[i]).profile == profile->Some_0)
            ==> selection(entries, paths, profile) == Err::<Seq<EntryModel>, SelectionFault>(
            SelectionFault::UnknownProfile(profile->Some_0),
        ),
        selection(entries, paths, profile) matches Err(SelectionFault::UndeclaredPath(p))
            ==> paths.contains(p) && !(exists|i: int|
            0 <= i < entries.len() && (#[trigger] entries[i]).path == p),
        selection(entries, paths, profile) matches Err(SelectionFault::ProfileMismatch {
            path,
            expected,
            actual,
        }) ==> profile == Some(expected) && actual != expected && paths.contains(path) && (exists|
            i: int,
        |
            0 <= i < entries.len() && (#[trigger] entries[i]).path == path && entries[i].profile
                == actual),
        selection(entries, paths, profile) is Ok ==> forall|j: int|
            0 <= j < paths.len() ==> exists|i: int|
                0 <= i < entries.len() && (#[trigger] entries[i]).path == #[trigger] paths[j],
{
    if paths.len() > 0 {
        lemma_undeclared(entries, paths);
        if requested(entries, paths) is Ok {
            let list = requested(entries, paths)->Ok_0;
            lemma_requested(entries, paths);
            lemma_requested_are_entries(entries, paths);
            if profile is Some {
                lemma_mismatch(list, profile->Some_0, 0);
                if mismatch(list, profile->Some_0, 0) is Some {
                    let e = mismatch(list, profile->Some_0, 0)->Some_0;
                    let k = choose|k: int| 0 <= k < list.len() && list[k] == e;
                    assert(paths[k] == e.path);
                    assert(entries.contains(list[k]));
                    let i = choose|i: int| 0 <= i < entries.len() && entries[i] == list[k];
                    assert(entries[i].path == e.path);
                }
            }
            assert forall|j: int| 0 <= j < paths.len() implies exists|i: int|
                0 <= i < entries.len() && (#[trigger] entries[i]).path == #[trigger] paths[j] by {
                assert(entries.contains(list[j]));
                let i = choose|i: int| 0 <= i < entries.len() && entries[i] == list[j];
                assert(entries[i].path == paths[j]);
            }
        }
    } else if profile is Some {
        lemma_profile_filter(entries, profile->Some_0);
    }
}

proof fn lemma_profile_filter(entries: Seq<EntryModel>, profile: Seq<char>)
    ensures
        of_profile(entries, profile) == entries.filter(|e: EntryModel| e.profile == profile),
    decreases entries.len(),
{
    reveal(Seq::filter);
    if entries.len() > 0 {
        lemma_profile_filter(entries.drop_last(), profile);
    }
}

proof fn lemma_undeclared(entries: Seq<EntryModel>, paths: Seq<Seq<char>>)
    ensures
        match requested(entries, paths) {
            Ok(_) => true,
            Err(SelectionFault::UndeclaredPath(p)) => paths.contains(p) && !(exists|i: int|
                0 <= i < entries.len() && (#[trigger] entries[i]).path == p),
            Err(_) => false,
        },
    decreases paths.len(),
{
    if paths.len() > 0 {
        let head = paths.drop_last();
        lemma_undeclared(entries, head);
        lemma_entry_found(entries, paths.last());
        match requested(entries, head) {
            Err(SelectionFault::UndeclaredPath(p)) => {
                let k = choose|k: int| 0 <= k < head.len() && head[k] == p;
                assert(paths[k] == p);
            },
            _ => {
                assert(paths.contains(paths[paths.len() - 1]));
            },
        }
    }
}

proof fn lemma_mismatch(list: Seq<EntryModel>, profile: Seq<char>, i: int)
    requires
        0 <= i,
    ensures
        mismatch(list, profile, i) matches Some(e) ==> list.contains(e) && e.profile != profile,
    decreases list.len() - i,
{
    if i < list.len() {
        lemma_mismatch(list, profile, i + 1);
        assert(list.contains(list[i]));
    }
}

/// An entry that is already managed is one of the manifest.
pub proof fn lemma_added_entry(m: ManifestModel, e: EntryModel)
    ensures
        addition(m, e) == Ok::<ManifestEntryAddOutcome, MutationFault>(
            ManifestEntryAddOutcome::AlreadyManaged,
        ) ==> m.entries.contains(e),
{
    lemma_entry_at(m.entries, e.path);
}

} // verus!
