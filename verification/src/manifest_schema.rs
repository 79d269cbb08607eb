//! The JSON schema of the manifest, before its values are checked.
//!
//! Each record is an object of exactly its fields, or an array of the fields in order.
//! A value that does not follow the schema is refused at its first fault, in the order of
//! the text, with the reason that serde gives.

use vstd::prelude::*;

use crate::codec::integer;
use crate::codec::json;
use crate::codec::json::{JsonTree, JsonValue};
use crate::segment;
use crate::text;

verus! {

pub struct RawEntryModel {
    pub path: Seq<char>,
    pub format: Seq<char>,
    pub policy: Seq<char>,
    pub profile: Seq<char>,
}

pub struct RawManifestModel {
    pub version: int,
    pub policies: Seq<(Seq<char>, Seq<Seq<char>>)>,
    pub files: Seq<RawEntryModel>,
}

pub struct RawEntry {
    pub path: String,
    pub format: String,
    pub policy: String,
    pub profile: String,
}

impl View for RawEntry {
    type V = RawEntryModel;

    open spec fn view(&self) -> RawEntryModel {
        RawEntryModel {
            path: self.path@,
            format: self.format@,
            policy: self.policy@,
            profile: self.profile@,
        }
    }
}

pub struct RawManifest {
    pub version: u64,
    pub policies: Vec<(String, Vec<String>)>,
    pub files: Vec<RawEntry>,
}

pub open spec fn policy_views(v: Seq<(String, Vec<String>)>) -> Seq<(Seq<char>, Seq<Seq<char>>)> {
    v.map_values(|p: (String, Vec<String>)| (p.0@, text::texts(p.1@)))
}

pub open spec fn entry_views(v: Seq<RawEntry>) -> Seq<RawEntryModel> {
    v.map_values(|e: RawEntry| e@)
}

impl View for RawManifest {
    type V = RawManifestModel;

    open spec fn view(&self) -> RawManifestModel {
        RawManifestModel {
            version: self.version as int,
            policies: policy_views(self.policies@),
            files: entry_views(self.files@),
        }
    }
}

/// What a value is called where another was expected.
pub open spec fn called(t: JsonTree) -> Seq<char> {
    match t {
        JsonTree::Null => "null"@,
        JsonTree::Bool(true) => "boolean `true`"@,
        JsonTree::Bool(false) => "boolean `false`"@,
        JsonTree::Number(_) => "number"@,
        JsonTree::String(s) => "string "@ + text::quoted(s),
        JsonTree::Array(_) => "sequence"@,
        JsonTree::Object(_) => "map"@,
    }
}

pub open spec fn mistyped(t: JsonTree, expected: Seq<char>) -> Seq<char> {
    "invalid type: "@ + called(t) + ", expected "@ + expected
}

pub open spec fn unknown_field(name: Seq<char>, expected: Seq<char>) -> Seq<char> {
    "unknown field `"@ + name + "`, expected "@ + expected
}

pub open spec fn missing_field(name: Seq<char>) -> Seq<char> {
    "missing field `"@ + name + "`"@
}

pub open spec fn wrong_length(n: nat, expected: Seq<char>) -> Seq<char> {
    "invalid length "@ + segment::decimal(n) + ", expected "@ + expected
}

/// Why an array of more than the fields is refused.
pub open spec fn too_long(n: nat) -> Seq<char> {
    wrong_length(n, "fewer elements in array"@)
}

pub open spec fn string_value(t: JsonTree) -> Result<Seq<char>, Seq<char>> {
    match t {
        JsonTree::String(s) => Ok(s),
        _ => Err(mistyped(t, "a string"@)),
    }
}

pub open spec fn string_values(a: Seq<JsonTree>) -> Result<Seq<Seq<char>>, Seq<char>>
    decreases a.len(),
{
    if a.len() == 0 {
        Ok(Seq::empty())
    } else {
        match string_values(a.drop_last()) {
            Err(reason) => Err(reason),
            Ok(head) => match string_value(a.last()) {
                Err(reason) => Err(reason),
                Ok(s) => Ok(head.push(s)),
            },
        }
    }
}

pub open spec fn string_list(t: JsonTree) -> Result<Seq<Seq<char>>, Seq<char>> {
    match t {
        JsonTree::Array(a) => string_values(a),
        _ => Err(mistyped(t, "a sequence"@)),
    }
}

/// The recipients that the members of a policy record name.
pub open spec fn policy_members(m: Seq<(Seq<char>, JsonTree)>) -> Result<
    Option<Seq<Seq<char>>>,
    Seq<char>,
>
    decreases m.len(),
{
    if m.len() == 0 {
        Ok(None)
    } else {
        match policy_members(m.drop_last()) {
            Err(reason) => Err(reason),
            Ok(_) => if m.last().0 == "age"@ {
                match string_list(m.last().1) {
                    Err(reason) => Err(reason),
                    Ok(list) => Ok(Some(list)),
                }
            } else {
                Err(unknown_field(m.last().0, "`age`"@))
            },
        }
    }
}

/// The recipients of a policy record.
pub open spec fn policy_record(t: JsonTree) -> Result<Seq<Seq<char>>, Seq<char>> {
    match t {
        JsonTree::Object(m) => match policy_members(m) {
            Err(reason) => Err(reason),
            Ok(None) => Err(missing_field("age"@)),
            Ok(Some(list)) => Ok(list),
        },
        JsonTree::Array(a) => if a.len() == 0 {
            Err(wrong_length(0, "struct RawPolicy with 1 element"@))
        } else {
            match string_list(a[0]) {
                Err(reason) => Err(reason),
                Ok(list) => if a.len() > 1 {
                    Err(too_long(a.len()))
                } else {
                    Ok(list)
                },
            }
        },
        _ => Err(mistyped(t, "struct RawPolicy"@)),
    }
}

/// The policies of a manifest in order.
pub open spec fn policies_in(m: Seq<(Seq<char>, JsonTree)>) -> Result<
    Seq<(Seq<char>, Seq<Seq<char>>)>,
    Seq<char>,
>
    decreases m.len(),
{
    if m.len() == 0 {
        Ok(Seq::empty())
    } else {
        match policies_in(m.drop_last()) {
            Err(reason) => Err(reason),
            Ok(head) => match policy_record(m.last().1) {
                Err(reason) => Err(reason),
                Ok(recipients) => Ok(head.push((m.last().0, recipients))),
            },
        }
    }
}

pub open spec fn policies_value(t: JsonTree) -> Result<
    Seq<(Seq<char>, Seq<Seq<char>>)>,
    Seq<char>,
> {
    match t {
        JsonTree::Object(m) => policies_in(m),
        _ => Err(mistyped(t, "a map"@)),
    }
}

/// The fields of a file record that were read so far.
pub struct FilePartsModel {
    pub path: Option<Seq<char>>,
    pub format: Option<Seq<char>>,
    pub policy: Option<Seq<char>>,
    pub profile: Option<Seq<char>>,
}

/// The fields of a file record with one more.
pub open spec fn file_member(p: FilePartsModel, name: Seq<char>, value: JsonTree) -> Result<
    FilePartsModel,
    Seq<char>,
> {
    if name == "path"@ {
        match string_value(value) {
            Err(reason) => Err(reason),
            Ok(s) => Ok(FilePartsModel { path: Some(s), ..p }),
        }
    } else if name == "format"@ {
        match string_value(value) {
            Err(reason) => Err(reason),
            Ok(s) => Ok(FilePartsModel { format: Some(s), ..p }),
        }
    } else if name == "recipientPolicy"@ {
        match string_value(value) {
            Err(reason) => Err(reason),
            Ok(s) => Ok(FilePartsModel { policy: Some(s), ..p }),
        }
    } else if name == "profile"@ {
        match string_value(value) {
            Err(reason) => Err(reason),
            Ok(s) => Ok(FilePartsModel { profile: Some(s), ..p }),
        }
    } else {
        Err(
            unknown_field(name, "one of `path`, `format`, `recipientPolicy`, `profile`"@),
        )
    }
}

pub open spec fn file_members(m: Seq<(Seq<char>, JsonTree)>) -> Result<FilePartsModel, Seq<char>>
    decreases m.len(),
{
    if m.len() == 0 {
        Ok(FilePartsModel { path: None, format: None, policy: None, profile: None })
    } else {
        match file_members(m.drop_last()) {
            Err(reason) => Err(reason),
            Ok(p) => file_member(p, m.last().0, m.last().1),
        }
    }
}

/// The file record of its fields. One that names no profile is of the default one.
pub open spec fn file_of(p: FilePartsModel) -> Result<RawEntryModel, Seq<char>> {
    match (p.path, p.format, p.policy) {
        (None, _, _) => Err(missing_field("path"@)),
        (_, None, _) => Err(missing_field("format"@)),
        (_, _, None) => Err(missing_field("recipientPolicy"@)),
        (Some(path), Some(format), Some(policy)) => Ok(
            RawEntryModel {
                path,
                format,
                policy,
                profile: match p.profile {
                    Some(profile) => profile,
                    None => "default"@,
                },
            },
        ),
    }
}

/// A field of a file record that is an array.
pub open spec fn file_field(a: Seq<JsonTree>, i: nat) -> Result<Seq<char>, Seq<char>> {
    if i >= a.len() {
        Err(wrong_length(i, "struct RawEntry with 4 elements"@))
    } else {
        string_value(a[i as int])
    }
}

pub open spec fn file_profile(a: Seq<JsonTree>) -> Result<Seq<char>, Seq<char>> {
    if a.len() > 3 {
        string_value(a[3])
    } else {
        Ok("default"@)
    }
}

/// A file record.
pub open spec fn file_record(t: JsonTree) -> Result<RawEntryModel, Seq<char>> {
    match t {
        JsonTree::Object(m) => match file_members(m) {
            Err(reason) => Err(reason),
            Ok(p) => file_of(p),
        },
        JsonTree::Array(a) => match (
            file_field(a, 0),
            file_field(a, 1),
            file_field(a, 2),
            file_profile(a),
        ) {
            (Err(reason), _, _, _) => Err(reason),
            (_, Err(reason), _, _) => Err(reason),
            (_, _, Err(reason), _) => Err(reason),
            (_, _, _, Err(reason)) => Err(reason),
            (Ok(path), Ok(format), Ok(policy), Ok(profile)) => if a.len() > 4 {
                Err(too_long(a.len()))
            } else {
                Ok(RawEntryModel { path, format, policy, profile })
            },
        },
        _ => Err(mistyped(t, "struct RawEntry"@)),
    }
}

/// The files of a manifest in order.
pub open spec fn files_in(a: Seq<JsonTree>) -> Result<Seq<RawEntryModel>, Seq<char>>
    decreases a.len(),
{
    if a.len() == 0 {
        Ok(Seq::empty())
    } else {
        match files_in(a.drop_last()) {
            Err(reason) => Err(reason),
            Ok(head) => match file_record(a.last()) {
                Err(reason) => Err(reason),
                Ok(entry) => Ok(head.push(entry)),
            },
        }
    }
}

pub open spec fn files_value(t: JsonTree) -> Result<Seq<RawEntryModel>, Seq<char>> {
    match t {
        JsonTree::Array(a) => files_in(a),
        _ => Err(mistyped(t, "a sequence"@)),
    }
}

/// An unsigned 64-bit number.
pub open spec fn version_value(t: JsonTree) -> Result<int, Seq<char>> {
    match t {
        JsonTree::Number(s) => match integer::unsigned_value(s, u64::MAX as int) {
            Some(n) => Ok(n),
            None => Err("invalid number"@),
        },
        _ => Err(mistyped(t, "u64"@)),
    }
}

/// The fields of a manifest record that were read so far.
pub struct ManifestPartsModel {
    pub version: Option<int>,
    pub policies: Option<Seq<(Seq<char>, Seq<Seq<char>>)>>,
    pub files: Option<Seq<RawEntryModel>>,
}

/// The fields of a manifest record with one more.
pub open spec fn manifest_member(
    p: ManifestPartsModel,
    name: Seq<char>,
    value: JsonTree,
) -> Result<ManifestPartsModel, Seq<char>> {
    if name == "version"@ {
        match version_value(value) {
            Err(reason) => Err(reason),
            Ok(n) => Ok(ManifestPartsModel { version: Some(n), ..p }),
        }
    } else if name == "recipientPolicies"@ {
        match policies_value(value) {
            Err(reason) => Err(reason),
            Ok(list) => Ok(ManifestPartsModel { policies: Some(list), ..p }),
        }
    } else if name == "files"@ {
        match files_value(value) {
            Err(reason) => Err(reason),
            Ok(list) => Ok(ManifestPartsModel { files: Some(list), ..p }),
        }
    } else {
        Err(unknown_field(name, "one of `version`, `recipientPolicies`, `files`"@))
    }
}

pub open spec fn manifest_members(m: Seq<(Seq<char>, JsonTree)>) -> Result<
    ManifestPartsModel,
    Seq<char>,
>
    decreases m.len(),
{
    if m.len() == 0 {
        Ok(ManifestPartsModel { version: None, policies: None, files: None })
    } else {
        match manifest_members(m.drop_last()) {
            Err(reason) => Err(reason),
            Ok(p) => manifest_member(p, m.last().0, m.last().1),
        }
    }
}

pub open spec fn manifest_of(p: ManifestPartsModel) -> Result<RawManifestModel, Seq<char>> {
    match (p.version, p.policies, p.files) {
        (None, _, _) => Err(missing_field("version"@)),
        (_, None, _) => Err(missing_field("recipientPolicies"@)),
        (_, _, None) => Err(missing_field("files"@)),
        (Some(version), Some(policies), Some(files)) => Ok(
            RawManifestModel { version, policies, files },
        ),
    }
}

/// The manifest record of an array of its fields.
pub open spec fn manifest_array(a: Seq<JsonTree>) -> Result<RawManifestModel, Seq<char>> {
    let expected = "struct RawManifest with 3 elements"@;
    if a.len() == 0 {
        Err(wrong_length(0, expected))
    } else {
        match version_value(a[0]) {
            Err(reason) => Err(reason),
            Ok(version) => if a.len() == 1 {
                Err(wrong_length(1, expected))
            } else {
                match policies_value(a[1]) {
                    Err(reason) => Err(reason),
                    Ok(policies) => if a.len() == 2 {
                        Err(wrong_length(2, expected))
                    } else {
                        match files_value(a[2]) {
                            Err(reason) => Err(reason),
                            Ok(files) => if a.len() > 3 {
                                Err(too_long(a.len()))
                            } else {
                                Ok(RawManifestModel { version, policies, files })
                            },
                        }
                    },
                }
            },
        }
    }
}

/// The manifest record.
pub open spec fn manifest_record(t: JsonTree) -> Result<RawManifestModel, Seq<char>> {
    match t {
        JsonTree::Object(m) => match manifest_members(m) {
            Err(reason) => Err(reason),
            Ok(p) => manifest_of(p),
        },
        JsonTree::Array(a) => manifest_array(a),
        _ => Err(mistyped(t, "struct RawManifest"@)),
    }
}

fn call_value(t: &JsonValue) -> (r: String)
    ensures
        r@ == called(t@),
{
    match t {
        JsonValue::Null => "null".to_owned(),
        JsonValue::Bool(b) => if *b {
            "boolean `true`".to_owned()
        } else {
            "boolean `false`".to_owned()
        },
        JsonValue::Number(_) => "number".to_owned(),
        JsonValue::String(s) => text::cat2("string ", text::debug_quoted(s.as_str()).as_str()),
        JsonValue::Array(_) => "sequence".to_owned(),
        JsonValue::Object(_) => "map".to_owned(),
    }
}

fn type_reason(t: &JsonValue, expected: &str) -> (r: String)
    ensures
        r@ == mistyped(t@, expected@),
{
    text::cat4("invalid type: ", call_value(t).as_str(), ", expected ", expected)
}

fn field_reason(name: &str, expected: &str) -> (r: String)
    ensures
        r@ == unknown_field(name@, expected@),
{
    text::cat4("unknown field `", name, "`, expected ", expected)
}

fn missing_reason(name: &str) -> (r: String)
    ensures
        r@ == missing_field(name@),
{
    text::cat3("missing field `", name, "`")
}

fn length_reason(n: usize, expected: &str) -> (r: String)
    ensures
        r@ == wrong_length(n as nat, expected@),
{
    text::cat4("invalid length ", segment::decimal_of(n).as_str(), ", expected ", expected)
}

/// A reading of a text.
pub open spec fn view_text(r: Result<String, String>) -> Result<Seq<char>, Seq<char>> {
    match r {
        Ok(s) => Ok(s@),
        Err(reason) => Err(reason@),
    }
}

/// A reading of a list of texts.
pub open spec fn view_list(r: Result<Vec<String>, String>) -> Result<Seq<Seq<char>>, Seq<char>> {
    match r {
        Ok(v) => Ok(text::texts(v@)),
        Err(reason) => Err(reason@),
    }
}

fn read_string(t: &JsonValue) -> (r: Result<String, String>)
    ensures
        view_text(r) == string_value(t@),
{
    match t {
        JsonValue::String(s) => Ok(s.clone()),
        _ => Err(type_reason(t, "a string")),
    }
}

proof fn lemma_no_strings(a: Seq<JsonTree>, n: int)
    requires
        0 <= n <= a.len(),
        string_values(a.take(n)) is Err,
    ensures
        string_values(a) == string_values(a.take(n)),
    decreases a.len() - n,
{
    if n < a.len() {
        assert(a.take(n + 1).drop_last() =~= a.take(n));
        lemma_no_strings(a, n + 1);
    } else {
        assert(a.take(n) =~= a);
    }
}

fn read_string_list(t: &JsonValue) -> (r: Result<Vec<String>, String>)
    ensures
        view_list(r) == string_list(t@),
{
    proof {
        json::lemma_view(*t);
    }
    let v = match t {
        JsonValue::Array(v) => v,
        _ => {
            return Err(type_reason(t, "a sequence"));
        },
    };
    let ghost a = json::items(v@);
    let mut out: Vec<String> = Vec::new();
    let mut i: usize = 0;
    assert(text::texts(out@) =~= Seq::<Seq<char>>::empty());
    while i < v.len()
        invariant
            a == json::items(v@),
            t@ == JsonTree::Array(a),
            i <= v.len(),
            string_values(a.take(i as int)) == Ok::<Seq<Seq<char>>, Seq<char>>(text::texts(out@)),
        decreases v.len() - i,
    {
        assert(a.take(i + 1).drop_last() =~= a.take(i as int));
        assert(a.take(i + 1).last() == v@[i as int]@);
        match read_string(&v[i]) {
            Ok(s) => {
                let ghost before = out@;
                out.push(s);
                assert(text::texts(out@) =~= text::texts(before).push(s@));
            },
            Err(reason) => {
                proof {
                    lemma_no_strings(a, i + 1);
                }
                return Err(reason);
            },
        }
        i = i + 1;
    }
    assert(a.take(i as int) =~= a);
    Ok(out)
}

proof fn lemma_no_policy(m: Seq<(Seq<char>, JsonTree)>, n: int)
    requires
        0 <= n <= m.len(),
        policy_members(m.take(n)) is Err,
    ensures
        policy_members(m) == policy_members(m.take(n)),
    decreases m.len() - n,
{
    if n < m.len() {
        assert(m.take(n + 1).drop_last() =~= m.take(n));
        lemma_no_policy(m, n + 1);
    } else {
        assert(m.take(n) =~= m);
    }
}

fn read_policy_members(v: &Vec<(String, JsonValue)>) -> (r: Result<Vec<String>, String>)
    ensures
        view_list(r) == policy_record(JsonTree::Object(json::members(v@))),
{
    let ghost m = json::members(v@);
    let mut found: Option<Vec<String>> = None;
    let mut i: usize = 0;
    while i < v.len()
        invariant
            m == json::members(v@),
            i <= v.len(),
            policy_members(m.take(i as int)) == Ok::<Option<Seq<Seq<char>>>, Seq<char>>(
                match found {
                    Some(list) => Some(text::texts(list@)),
                    None => None,
                },
            ),
        decreases v.len() - i,
    {
        assert(m.take(i + 1).drop_last() =~= m.take(i as int));
        assert(m.take(i + 1).last() == (v@[i as int].0@, v@[i as int].1@));
        let read = if text::eq(v[i].0.as_str(), "age") {
            read_string_list(&v[i].1)
        } else {
            Err(field_reason(v[i].0.as_str(), "`age`"))
        };
        match read {
            Ok(list) => {
                found = Some(list);
            },
            Err(reason) => {
                proof {
                    lemma_no_policy(m, i + 1);
                }
                return Err(reason);
            },
        }
        i = i + 1;
    }
    assert(m.take(i as int) =~= m);
    match found {
        Some(list) => Ok(list),
        None => Err(missing_reason("age")),
    }
}

fn read_policy(value: &JsonValue) -> (r: Result<Vec<String>, String>)
    ensures
        view_list(r) == policy_record(value@),
{
    proof {
        json::lemma_view(*value);
    }
    match value {
        JsonValue::Object(v) => read_policy_members(v),
        JsonValue::Array(v) => {
            if v.len() == 0 {
                return Err(length_reason(0, "struct RawPolicy with 1 element"));
            }
            assert(json::items(v@)[0] == v@[0]@);
            match read_string_list(&v[0]) {
                Err(reason) => Err(reason),
                Ok(list) => if v.len() > 1 {
                    Err(length_reason(v.len(), "fewer elements in array"))
                } else {
                    Ok(list)
                },
            }
        },
        _ => Err(type_reason(value, "struct RawPolicy")),
    }
}

/// A reading of the policies.
pub open spec fn view_policies(r: Result<Vec<(String, Vec<String>)>, String>) -> Result<
    Seq<(Seq<char>, Seq<Seq<char>>)>,
    Seq<char>,
> {
    match r {
        Ok(v) => Ok(policy_views(v@)),
        Err(reason) => Err(reason@),
    }
}

proof fn lemma_no_policies(m: Seq<(Seq<char>, JsonTree)>, n: int)
    requires
        0 <= n <= m.len(),
        policies_in(m.take(n)) is Err,
    ensures
        policies_in(m) == policies_in(m.take(n)),
    decreases m.len() - n,
{
    if n < m.len() {
        assert(m.take(n + 1).drop_last() =~= m.take(n));
        lemma_no_policies(m, n + 1);
    } else {
        assert(m.take(n) =~= m);
    }
}

fn read_policies(t: &JsonValue) -> (r: Result<Vec<(String, Vec<String>)>, String>)
    ensures
        view_policies(r) == policies_value(t@),
{
    proof {
        json::lemma_view(*t);
    }
    let v = match t {
        JsonValue::Object(v) => v,
        _ => {
            return Err(type_reason(t, "a map"));
        },
    };
    let ghost m = json::members(v@);
    let mut out: Vec<(String, Vec<String>)> = Vec::new();
    let mut i: usize = 0;
    assert(policy_views(out@) =~= Seq::<(Seq<char>, Seq<Seq<char>>)>::empty());
    while i < v.len()
        invariant
            m == json::members(v@),
            t@ == JsonTree::Object(m),
            i <= v.len(),
            policies_in(m.take(i as int)) == Ok::<Seq<(Seq<char>, Seq<Seq<char>>)>, Seq<char>>(
                policy_views(out@),
            ),
        decreases v.len() - i,
    {
        assert(m.take(i + 1).drop_last() =~= m.take(i as int));
        assert(m.take(i + 1).last() == (v@[i as int].0@, v@[i as int].1@));
        match read_policy(&v[i].1) {
            Ok(recipients) => {
                let ghost before = out@;
                out.push((v[i].0.clone(), recipients));
                assert(policy_views(out@) =~= policy_views(before).push(
                    (v@[i as int].0@, text::texts(recipients@)),
                ));
            },
            Err(reason) => {
                proof {
                    lemma_no_policies(m, i + 1);
                }
                return Err(reason);
            },
        }
        i = i + 1;
    }
    assert(m.take(i as int) =~= m);
    Ok(out)
}

struct FileParts {
    path: Option<String>,
    format: Option<String>,
    policy: Option<String>,
    profile: Option<String>,
}

spec fn view_file_parts(p: FileParts) -> FilePartsModel {
    FilePartsModel {
        path: text::view_option(p.path),
        format: text::view_option(p.format),
        policy: text::view_option(p.policy),
        profile: text::view_option(p.profile),
    }
}

fn add_file_member(parts: FileParts, name: &str, value: &JsonValue) -> (r: Result<
    FileParts,
    String,
>)
    ensures
        match r {
            Ok(p) => file_member(view_file_parts(parts), name@, value@) == Ok::<
                FilePartsModel,
                Seq<char>,
            >(view_file_parts(p)),
            Err(reason) => file_member(view_file_parts(parts), name@, value@) == Err::<
                FilePartsModel,
                Seq<char>,
            >(reason@),
        },
{
    let path = text::eq(name, "path");
    let format = text::eq(name, "format");
    let policy = text::eq(name, "recipientPolicy");
    if !path && !format && !policy && !text::eq(name, "profile") {
        return Err(
            field_reason(name, "one of `path`, `format`, `recipientPolicy`, `profile`"),
        );
    }
    let s = match read_string(value) {
        Ok(s) => s,
        Err(reason) => {
            return Err(reason);
        },
    };
    Ok(
        if path {
            FileParts { path: Some(s), ..parts }
        } else if format {
            FileParts { format: Some(s), ..parts }
        } else if policy {
            FileParts { policy: Some(s), ..parts }
        } else {
            FileParts { profile: Some(s), ..parts }
        },
    )
}

proof fn lemma_no_file(m: Seq<(Seq<char>, JsonTree)>, n: int)
    requires
        0 <= n <= m.len(),
        file_members(m.take(n)) is Err,
    ensures
        file_members(m) == file_members(m.take(n)),
    decreases m.len() - n,
{
    if n < m.len() {
        assert(m.take(n + 1).drop_last() =~= m.take(n));
        lemma_no_file(m, n + 1);
    } else {
        assert(m.take(n) =~= m);
    }
}

/// A reading of a file record.
pub open spec fn view_file(r: Result<RawEntry, String>) -> Result<RawEntryModel, Seq<char>> {
    match r {
        Ok(e) => Ok(e@),
        Err(reason) => Err(reason@),
    }
}

fn finish_file(parts: FileParts) -> (r: Result<RawEntry, String>)
    ensures
        view_file(r) == file_of(view_file_parts(parts)),
{
    match (parts.path, parts.format, parts.policy) {
        (None, _, _) => Err(missing_reason("path")),
        (_, None, _) => Err(missing_reason("format")),
        (_, _, None) => Err(missing_reason("recipientPolicy")),
        (Some(path), Some(format), Some(policy)) => {
            let profile = match parts.profile {
                Some(profile) => profile,
                None => "default".to_owned(),
            };
            Ok(RawEntry { path, format, policy, profile })
        },
    }
}

fn read_file_members(v: &Vec<(String, JsonValue)>) -> (r: Result<RawEntry, String>)
    ensures
        view_file(r) == file_record(JsonTree::Object(json::members(v@))),
{
    let ghost m = json::members(v@);
    let mut parts = FileParts { path: None, format: None, policy: None, profile: None };
    let mut i: usize = 0;
    while i < v.len()
        invariant
            m == json::members(v@),
            i <= v.len(),
            file_members(m.take(i as int)) == Ok::<FilePartsModel, Seq<char>>(
                view_file_parts(parts),
            ),
        decreases v.len() - i,
    {
        assert(m.take(i + 1).drop_last() =~= m.take(i as int));
        assert(m.take(i + 1).last() == (v@[i as int].0@, v@[i as int].1@));
        match add_file_member(parts, v[i].0.as_str(), &v[i].1) {
            Ok(next) => {
                parts = next;
            },
            Err(reason) => {
                proof {
                    lemma_no_file(m, i + 1);
                }
                return Err(reason);
            },
        }
        i = i + 1;
    }
    assert(m.take(i as int) =~= m);
    finish_file(parts)
}

fn read_file_field(v: &Vec<JsonValue>, i: usize) -> (r: Result<String, String>)
    ensures
        view_text(r) == file_field(json::items(v@), i as nat),
{
    if i >= v.len() {
        return Err(length_reason(i, "struct RawEntry with 4 elements"));
    }
    assert(json::items(v@)[i as int] == v@[i as int]@);
    read_string(&v[i])
}

fn read_file_array(v: &Vec<JsonValue>) -> (r: Result<RawEntry, String>)
    ensures
        view_file(r) == file_record(JsonTree::Array(json::items(v@))),
{
    let path = match read_file_field(v, 0) {
        Ok(s) => s,
        Err(reason) => {
            return Err(reason);
        },
    };
    let format = match read_file_field(v, 1) {
        Ok(s) => s,
        Err(reason) => {
            return Err(reason);
        },
    };
    let policy = match read_file_field(v, 2) {
        Ok(s) => s,
        Err(reason) => {
            return Err(reason);
        },
    };
    let profile = if v.len() > 3 {
        assert(json::items(v@)[3] == v@[3]@);
        match read_string(&v[3]) {
            Ok(s) => s,
            Err(reason) => {
                return Err(reason);
            },
        }
    } else {
        "default".to_owned()
    };
    if v.len() > 4 {
        return Err(length_reason(v.len(), "fewer elements in array"));
    }
    Ok(RawEntry { path, format, policy, profile })
}

fn read_file(value: &JsonValue) -> (r: Result<RawEntry, String>)
    ensures
        view_file(r) == file_record(value@),
{
    proof {
        json::lemma_view(*value);
    }
    match value {
        JsonValue::Object(v) => read_file_members(v),
        JsonValue::Array(v) => read_file_array(v),
        _ => Err(type_reason(value, "struct RawEntry")),
    }
}

/// A reading of the files.
pub open spec fn view_files(r: Result<Vec<RawEntry>, String>) -> Result<
    Seq<RawEntryModel>,
    Seq<char>,
> {
    match r {
        Ok(v) => Ok(entry_views(v@)),
        Err(reason) => Err(reason@),
    }
}

proof fn lemma_no_files(a: Seq<JsonTree>, n: int)
    requires
        0 <= n <= a.len(),
        files_in(a.take(n)) is Err,
    ensures
        files_in(a) == files_in(a.take(n)),
    decreases a.len() - n,
{
    if n < a.len() {
        assert(a.take(n + 1).drop_last() =~= a.take(n));
        lemma_no_files(a, n + 1);
    } else {
        assert(a.take(n) =~= a);
    }
}

fn read_files(t: &JsonValue) -> (r: Result<Vec<RawEntry>, String>)
    ensures
        view_files(r) == files_value(t@),
{
    proof {
        json::lemma_view(*t);
    }
    let v = match t {
        JsonValue::Array(v) => v,
        _ => {
            return Err(type_reason(t, "a sequence"));
        },
    };
    let ghost a = json::items(v@);
    let mut out: Vec<RawEntry> = Vec::new();
    let mut i: usize = 0;
    assert(entry_views(out@) =~= Seq::<RawEntryModel>::empty());
    while i < v.len()
        invariant
            a == json::items(v@),
            t@ == JsonTree::Array(a),
            i <= v.len(),
            files_in(a.take(i as int)) == Ok::<Seq<RawEntryModel>, Seq<char>>(entry_views(out@)),
        decreases v.len() - i,
    {
        assert(a.take(i + 1).drop_last() =~= a.take(i as int));
        assert(a.take(i + 1).last() == v@[i as int]@);
        match read_file(&v[i]) {
            Ok(entry) => {
                let ghost before = out@;
                out.push(entry);
                assert(entry_views(out@) =~= entry_views(before).push(entry@));
            },
            Err(reason) => {
                proof {
                    lemma_no_files(a, i + 1);
                }
                return Err(reason);
            },
        }
        i = i + 1;
    }
    assert(a.take(i as int) =~= a);
    Ok(out)
}

fn read_version(t: &JsonValue) -> (r: Result<u64, String>)
    ensures
        match r {
            Ok(n) => version_value(t@) == Ok::<int, Seq<char>>(n as int),
            Err(reason) => version_value(t@) == Err::<int, Seq<char>>(reason@),
        },
{
    match t {
        JsonValue::Number(s) => match integer::parse_unsigned(s.as_str(), u64::MAX) {
            Some(n) => Ok(n),
            None => Err("invalid number".to_owned()),
        },
        _ => Err(type_reason(t, "u64")),
    }
}

struct ManifestParts {
    version: Option<u64>,
    policies: Option<Vec<(String, Vec<String>)>>,
    files: Option<Vec<RawEntry>>,
}

spec fn view_parts(p: ManifestParts) -> ManifestPartsModel {
    ManifestPartsModel {
        version: match p.version {
            Some(n) => Some(n as int),
            None => None,
        },
        policies: match p.policies {
            Some(v) => Some(policy_views(v@)),
            None => None,
        },
        files: match p.files {
            Some(v) => Some(entry_views(v@)),
            None => None,
        },
    }
}

fn add_member(parts: ManifestParts, name: &str, value: &JsonValue) -> (r: Result<
    ManifestParts,
    String,
>)
    ensures
        match r {
            Ok(p) => manifest_member(view_parts(parts), name@, value@) == Ok::<
                ManifestPartsModel,
                Seq<char>,
            >(view_parts(p)),
            Err(reason) => manifest_member(view_parts(parts), name@, value@) == Err::<
                ManifestPartsModel,
                Seq<char>,
            >(reason@),
        },
{
    if text::eq(name, "version") {
        match read_version(value) {
            Ok(n) => Ok(ManifestParts { version: Some(n), ..parts }),
            Err(reason) => Err(reason),
        }
    } else if text::eq(name, "recipientPolicies") {
        match read_policies(value) {
            Ok(list) => Ok(ManifestParts { policies: Some(list), ..parts }),
            Err(reason) => Err(reason),
        }
    } else if text::eq(name, "files") {
        match read_files(value) {
            Ok(list) => Ok(ManifestParts { files: Some(list), ..parts }),
            Err(reason) => Err(reason),
        }
    } else {
        Err(field_reason(name, "one of `version`, `recipientPolicies`, `files`"))
    }
}

proof fn lemma_no_members(m: Seq<(Seq<char>, JsonTree)>, n: int)
    requires
        0 <= n <= m.len(),
        manifest_members(m.take(n)) is Err,
    ensures
        manifest_members(m) == manifest_members(m.take(n)),
    decreases m.len() - n,
{
    if n < m.len() {
        assert(m.take(n + 1).drop_last() =~= m.take(n));
        lemma_no_members(m, n + 1);
    } else {
        assert(m.take(n) =~= m);
    }
}

/// A reading of the manifest record.
pub open spec fn view_manifest(r: Result<RawManifest, String>) -> Result<
    RawManifestModel,
    Seq<char>,
> {
    match r {
        Ok(m) => Ok(m@),
        Err(reason) => Err(reason@),
    }
}

fn read_members(v: &Vec<(String, JsonValue)>) -> (r: Result<RawManifest, String>)
    ensures
        view_manifest(r) == manifest_record(JsonTree::Object(json::members(v@))),
{
    let ghost m = json::members(v@);
    let mut parts = ManifestParts { version: None, policies: None, files: None };
    let mut i: usize = 0;
    while i < v.len()
        invariant
            m == json::members(v@),
            i <= v.len(),
            manifest_members(m.take(i as int)) == Ok::<ManifestPartsModel, Seq<char>>(
                view_parts(parts),
            ),
        decreases v.len() - i,
    {
        assert(m.take(i + 1).drop_last() =~= m.take(i as int));
        assert(m.take(i + 1).last() == (v@[i as int].0@, v@[i as int].1@));
        match add_member(parts, v[i].0.as_str(), &v[i].1) {
            Ok(next) => {
                parts = next;
            },
            Err(reason) => {
                proof {
                    lemma_no_members(m, i + 1);
                }
                return Err(reason);
            },
        }
        i = i + 1;
    }
    assert(m.take(i as int) =~= m);
    match (parts.version, parts.policies, parts.files) {
        (None, _, _) => Err(missing_reason("version")),
        (_, None, _) => Err(missing_reason("recipientPolicies")),
        (_, _, None) => Err(missing_reason("files")),
        (Some(version), Some(policies), Some(files)) => Ok(
            RawManifest { version, policies, files },
        ),
    }
}

fn read_array(v: &Vec<JsonValue>) -> (r: Result<RawManifest, String>)
    ensures
        view_manifest(r) == manifest_array(json::items(v@)),
{
    let ghost a = json::items(v@);
    if v.len() == 0 {
        return Err(length_reason(0, "struct RawManifest with 3 elements"));
    }
    assert(a[0] == v@[0]@);
    let version: u64 = match read_version(&v[0]) {
        Ok(n) => n,
        Err(reason) => {
            return Err(reason);
        },
    };
    if v.len() == 1 {
        return Err(length_reason(1, "struct RawManifest with 3 elements"));
    }
    assert(a[1] == v@[1]@);
    let policies = match read_policies(&v[1]) {
        Ok(list) => list,
        Err(reason) => {
            return Err(reason);
        },
    };
    if v.len() == 2 {
        return Err(length_reason(2, "struct RawManifest with 3 elements"));
    }
    assert(a[2] == v@[2]@);
    let files = match read_files(&v[2]) {
        Ok(list) => list,
        Err(reason) => {
            return Err(reason);
        },
    };
    if v.len() > 3 {
        return Err(length_reason(v.len(), "fewer elements in array"));
    }
    Ok(RawManifest { version, policies, files })
}

/// The names of the policies of a record.
pub open spec fn policy_names(p: Seq<(Seq<char>, Seq<Seq<char>>)>) -> Seq<Seq<char>> {
    p.map_values(|x: (Seq<char>, Seq<Seq<char>>)| x.0)
}

proof fn lemma_policy_names(m: Seq<(Seq<char>, JsonTree)>)
    requires
        policies_in(m) is Ok,
    ensures
        policy_names(policies_in(m)->Ok_0) == json::names(m),
    decreases m.len(),
{
    if m.len() > 0 {
        lemma_policy_names(m.drop_last());
        let list = policies_in(m)->Ok_0;
        let head = policies_in(m.drop_last())->Ok_0;
        assert(policy_names(list) =~= policy_names(head).push(m.last().0));
        assert(json::names(m) =~= json::names(m.drop_last()).push(m.last().0));
    } else {
        assert(policy_names(policies_in(m)->Ok_0) =~= json::names(m));
    }
}

/// The policies that are read from members have distinct names.
proof fn lemma_members_policies(m: Seq<(Seq<char>, JsonTree)>)
    requires
        forall|i: int| 0 <= i < m.len() ==> json::well_named(#[trigger] m[i].1),
        manifest_members(m) is Ok,
    ensures
        manifest_members(m)->Ok_0.policies matches Some(list) ==> policy_names(
            list,
        ).no_duplicates(),
    decreases m.len(),
{
    if m.len() > 0 {
        let head = m.drop_last();
        assert forall|i: int| 0 <= i < head.len() implies json::well_named(
            #[trigger] head[i].1,
        ) by {
            assert(json::well_named(m[i].1));
        }
        lemma_members_policies(head);
        assert(json::well_named(m[m.len() - 1].1));
        match m.last().1 {
            JsonTree::Object(inner) => {
                if policies_in(inner) is Ok {
                    lemma_policy_names(inner);
                }
            },
            _ => {},
        }
    }
}

/// A record without names that stand twice has distinct policies.
proof fn lemma_distinct_policies(t: JsonTree)
    requires
        json::well_named(t),
        manifest_record(t) is Ok,
    ensures
        policy_names(manifest_record(t)->Ok_0.policies).no_duplicates(),
{
    match t {
        JsonTree::Object(m) => {
            lemma_members_policies(m);
        },
        JsonTree::Array(a) => {
            assert(json::well_named(a[1]));
            match a[1] {
                JsonTree::Object(inner) => {
                    lemma_policy_names(inner);
                },
                _ => {},
            }
        },
        _ => {},
    }
}

/// Reads the manifest record.
pub fn read(value: &JsonValue) -> (r: Result<RawManifest, String>)
    ensures
        view_manifest(r) == manifest_record(value@),
        r matches Ok(m) ==> json::well_named(value@) ==> policy_names(
            m@.policies,
        ).no_duplicates(),
{
    proof {
        json::lemma_view(*value);
        if json::well_named(value@) && manifest_record(value@) is Ok {
            lemma_distinct_policies(value@);
        }
    }
    match value {
        JsonValue::Object(v) => read_members(v),
        JsonValue::Array(v) => read_array(v),
        _ => Err(type_reason(value, "struct RawManifest")),
    }
}

} // verus!
