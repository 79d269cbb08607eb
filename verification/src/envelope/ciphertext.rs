//! An encrypted envelope as it stands in the repository.

use vstd::prelude::*;

use crate::codec::leaf_map;
use crate::codec::yaml;
use crate::codec::yaml::{YamlTree, YamlValue};
use crate::config::SourceFormat;
use crate::envelope::encrypted;
use crate::envelope::fault::{EnvelopeError, EnvelopeFault};
use crate::envelope::metadata;
use crate::envelope::type_paths;
use crate::recipient;
use crate::recipient::AgeRecipient;
use crate::source::node;
use crate::source::NodePath;
use crate::text;

verus! {

/// The root key of an envelope names the format of the source.
pub open spec fn discriminator_of(format: SourceFormat) -> Seq<char> {
    "gitveil_v1_"@ + format.name()
}

pub fn discriminator(format: SourceFormat) -> (r: String)
    ensures
        r@ == discriminator_of(format),
{
    text::cat2("gitveil_v1_", format.as_str())
}

/// Law: no two formats share a discriminator, and none is the key of the metadata.
pub proof fn law_discriminators_are_distinct(a: SourceFormat, b: SourceFormat)
    ensures
        discriminator_of(a) == discriminator_of(b) ==> a == b,
        discriminator_of(a) != "sops"@,
{
    reveal_strlit("gitveil_v1_");
    reveal_strlit("sops");
    assert("gitveil_v1_"@.len() == 11 && "sops"@.len() == 4);
    assert(a.name() =~= discriminator_of(a).skip(11));
    assert(b.name() =~= discriminator_of(b).skip(11));
    crate::config::law_formats_are_found_by_name(a, a.name());
    crate::config::law_formats_are_found_by_name(b, b.name());
}

/// The key paths and the leaves of the data.
pub struct DataModel {
    pub key_paths: Seq<Seq<char>>,
    pub leaves: Seq<(Seq<char>, Seq<char>)>,
}

/// What the data adds to the key paths and the leaves; a leaf that is not encrypted
/// is refused.
pub open spec fn data_leaves(t: YamlTree, path: Seq<node::Step>, d: DataModel) -> Result<
    DataModel,
    EnvelopeFault,
>
    decreases t, 0nat,
{
    match t {
        YamlTree::Mapping(m) => entry_leaves(m, m.len(), path, d),
        YamlTree::Sequence(s) => item_leaves(s, s.len(), path, d),
        YamlTree::String(s) => if encrypted::encrypted_scalar(s) {
            Ok(
                DataModel {
                    key_paths: d.key_paths,
                    leaves: leaf_map::with_leaf(d.leaves, node::path_text(path), s),
                },
            )
        } else {
            Err(EnvelopeFault::PlaintextLeaf(path))
        },
        YamlTree::Tagged(_, v) => data_leaves(*v, path, d),
        _ => Err(EnvelopeFault::PlaintextLeaf(path)),
    }
}

pub open spec fn entry_leaves(
    m: Seq<(YamlTree, YamlTree)>,
    n: nat,
    path: Seq<node::Step>,
    d: DataModel,
) -> Result<DataModel, EnvelopeFault>
    decreases m, n,
{
    if n == 0 || n > m.len() {
        Ok(d)
    } else {
        match entry_leaves(m, (n - 1) as nat, path, d) {
            Err(fault) => Err(fault),
            Ok(head) => match yaml::text_of(m[n - 1].0) {
                None => Err(
                    EnvelopeFault::InvalidStructure("data mapping key must be a string"@),
                ),
                Some(key) => {
                    let child = path.push(node::Step::Key(key));
                    data_leaves(
                        m[n - 1].1,
                        child,
                        DataModel {
                            key_paths: head.key_paths.push(node::path_text(child)),
                            leaves: head.leaves,
                        },
                    )
                },
            },
        }
    }
}

pub open spec fn item_leaves(
    s: Seq<YamlTree>,
    n: nat,
    path: Seq<node::Step>,
    d: DataModel,
) -> Result<DataModel, EnvelopeFault>
    decreases s, n,
{
    if n == 0 || n > s.len() {
        Ok(d)
    } else {
        match item_leaves(s, (n - 1) as nat, path, d) {
            Err(fault) => Err(fault),
            Ok(head) => data_leaves(s[n - 1], path.push(node::Step::Index(n - 1)), head),
        }
    }
}

/// Every leaf of the data is an encrypted scalar.
pub open spec fn all_encrypted(t: YamlTree) -> bool
    decreases t,
{
    match t {
        YamlTree::Mapping(m) => forall|i: int| 0 <= i < m.len() ==> all_encrypted(#[trigger] m[i].1),
        YamlTree::Sequence(s) => forall|i: int| 0 <= i < s.len() ==> all_encrypted(#[trigger] s[i]),
        YamlTree::String(s) => encrypted::encrypted_scalar(s),
        YamlTree::Tagged(_, v) => all_encrypted(*v),
        _ => false,
    }
}

/// Law: data that is accepted holds encrypted scalars only.
pub proof fn law_accepted_data_is_encrypted(t: YamlTree, path: Seq<node::Step>, d: DataModel)
    requires
        data_leaves(t, path, d) is Ok,
    ensures
        all_encrypted(t),
    decreases t, 0nat,
{
    match t {
        YamlTree::Mapping(m) => {
            lemma_entries_encrypted(m, m.len(), path, d);
        },
        YamlTree::Sequence(s) => {
            lemma_items_encrypted(s, s.len(), path, d);
        },
        YamlTree::Tagged(_, v) => {
            law_accepted_data_is_encrypted(*v, path, d);
        },
        _ => {},
    }
}

proof fn lemma_entries_encrypted(
    m: Seq<(YamlTree, YamlTree)>,
    n: nat,
    path: Seq<node::Step>,
    d: DataModel,
)
    requires
        n <= m.len(),
        entry_leaves(m, n, path, d) is Ok,
    ensures
        forall|i: int| 0 <= i < n ==> all_encrypted(#[trigger] m[i].1),
    decreases m, n,
{
    if n > 0 {
        lemma_entries_encrypted(m, (n - 1) as nat, path, d);
        let head = entry_leaves(m, (n - 1) as nat, path, d)->Ok_0;
        let key = yaml::text_of(m[n - 1].0)->Some_0;
        let child = path.push(node::Step::Key(key));
        law_accepted_data_is_encrypted(
            m[n - 1].1,
            child,
            DataModel {
                key_paths: head.key_paths.push(node::path_text(child)),
                leaves: head.leaves,
            },
        );
    }
}

proof fn lemma_items_encrypted(s: Seq<YamlTree>, n: nat, path: Seq<node::Step>, d: DataModel)
    requires
        n <= s.len(),
        item_leaves(s, n, path, d) is Ok,
    ensures
        forall|i: int| 0 <= i < n ==> all_encrypted(#[trigger] s[i]),
    decreases s, n,
{
    if n > 0 {
        lemma_items_encrypted(s, (n - 1) as nat, path, d);
        let head = item_leaves(s, (n - 1) as nat, path, d)->Ok_0;
        law_accepted_data_is_encrypted(s[n - 1], path.push(node::Step::Index(n - 1)), head);
    }
}

proof fn lemma_entries_fail(
    m: Seq<(YamlTree, YamlTree)>,
    n: nat,
    k: nat,
    path: Seq<node::Step>,
    d: DataModel,
)
    requires
        n <= k <= m.len(),
        entry_leaves(m, n, path, d) is Err,
    ensures
        entry_leaves(m, k, path, d) == entry_leaves(m, n, path, d),
    decreases k,
{
    if n < k {
        lemma_entries_fail(m, n, (k - 1) as nat, path, d);
    }
}

proof fn lemma_items_fail(s: Seq<YamlTree>, n: nat, k: nat, path: Seq<node::Step>, d: DataModel)
    requires
        n <= k <= s.len(),
        item_leaves(s, n, path, d) is Err,
    ensures
        item_leaves(s, k, path, d) == item_leaves(s, n, path, d),
    decreases k,
{
    if n < k {
        lemma_items_fail(s, n, (k - 1) as nat, path, d);
    }
}

/// What a list of paths and a map of leaves hold.
pub open spec fn data_model(
    key_paths: Seq<String>,
    leaves: indexmap::IndexMap<String, String>,
) -> DataModel {
    DataModel { key_paths: text::texts(key_paths), leaves: leaf_map::leaf_entries(leaves) }
}

fn validate_encrypted_tree(
    t: &YamlValue,
    path: &NodePath,
    key_paths: &mut Vec<String>,
    leaves: &mut indexmap::IndexMap<String, String>,
) -> (r: Result<(), EnvelopeError>)
    ensures
        match data_leaves(t@, path@, data_model(old(key_paths)@, *old(leaves))) {
            Ok(d) => r.is_ok() && data_model(final(key_paths)@, *final(leaves)) == d,
            Err(fault) => r matches Err(e) && e@ == fault,
        },
    decreases t,
{
    let ghost start = data_model(key_paths@, *leaves);
    proof {
        yaml::lemma_view(*t);
    }
    match t {
        YamlValue::Mapping(v) => {
            let ghost m = yaml::pairs(v@);
            let mut i: usize = 0;
            while i < v.len()
                invariant
                    decreases_to!(t => v@),
                    m == yaml::pairs(v@),
                    t@ == YamlTree::Mapping(m),
                    i <= v.len(),
                    start == data_model(old(key_paths)@, *old(leaves)),
                    entry_leaves(m, i as nat, path@, start) == Ok::<DataModel, EnvelopeFault>(
                        data_model(key_paths@, *leaves),
                    ),
                decreases v.len() - i,
            {
                assert(decreases_to!(v@ => v@[i as int]));
                assert(m[i as int] == (v@[i as int].0@, v@[i as int].1@));
                proof {
                    if entry_leaves(m, (i + 1) as nat, path@, start) is Err {
                        lemma_entries_fail(m, (i + 1) as nat, m.len(), path@, start);
                    }
                }
                let key = match v[i].0.as_text() {
                    Some(key) => key,
                    None => {
                        return Err(
                            EnvelopeError::InvalidStructure("data mapping key must be a string"),
                        );
                    },
                };
                let child = path.child_key(key.as_str());
                let ghost before = key_paths@;
                key_paths.push(child.to_text());
                assert(text::texts(key_paths@) =~= text::texts(before).push(
                    node::path_text(child@),
                ));
                match validate_encrypted_tree(&v[i].1, &child, key_paths, leaves) {
                    Ok(_) => {},
                    Err(error) => {
                        return Err(error);
                    },
                }
                i = i + 1;
            }
            Ok(())
        },
        YamlValue::Sequence(v) => {
            let ghost s = yaml::items(v@);
            let mut i: usize = 0;
            while i < v.len()
                invariant
                    decreases_to!(t => v@),
                    s == yaml::items(v@),
                    t@ == YamlTree::Sequence(s),
                    i <= v.len(),
                    start == data_model(old(key_paths)@, *old(leaves)),
                    item_leaves(s, i as nat, path@, start) == Ok::<DataModel, EnvelopeFault>(
                        data_model(key_paths@, *leaves),
                    ),
                decreases v.len() - i,
            {
                assert(decreases_to!(v@ => v@[i as int]));
                assert(s[i as int] == v@[i as int]@);
                proof {
                    if item_leaves(s, (i + 1) as nat, path@, start) is Err {
                        lemma_items_fail(s, (i + 1) as nat, s.len(), path@, start);
                    }
                }
                let child = path.child_index(i);
                match validate_encrypted_tree(&v[i], &child, key_paths, leaves) {
                    Ok(_) => {},
                    Err(error) => {
                        return Err(error);
                    },
                }
                i = i + 1;
            }
            Ok(())
        },
        YamlValue::String(s) => if encrypted::is_encrypted_scalar(s.as_str()) {
            leaf_map::insert_leaf(leaves, path.to_text(), s.clone());
            Ok(())
        } else {
            Err(EnvelopeError::PlaintextLeaf(path.clone()))
        },
        YamlValue::Tagged(_, v) => validate_encrypted_tree(v, path, key_paths, leaves),
        _ => Err(EnvelopeError::PlaintextLeaf(path.clone())),
    }
}

/// What an envelope says without being decrypted.
pub struct CiphertextModel {
    pub format: SourceFormat,
    pub key_paths: Seq<Seq<char>>,
    pub leaves: Seq<(Seq<char>, Seq<char>)>,
    pub layout: Seq<char>,
    pub recipients: Seq<Seq<char>>,
}

/// Each key of the body is one of its fields.
pub open spec fn body_fault(m: Seq<(YamlTree, YamlTree)>, i: int) -> Option<EnvelopeFault>
    decreases m.len() - i,
{
    if i < 0 || i >= m.len() {
        None
    } else {
        match yaml::text_of(m[i].0) {
            None => Some(EnvelopeFault::InvalidStructure("envelope body key must be a string"@)),
            Some(key) => if key == "data"@ || key == "layout"@ || key == "types"@ {
                body_fault(m, i + 1)
            } else {
                Some(
                    EnvelopeFault::InvalidStructure("envelope body contains an unknown field"@),
                )
            },
        }
    }
}

/// Each key of the root is the discriminator or that of the metadata.
pub open spec fn root_fault(m: Seq<(YamlTree, YamlTree)>, format: SourceFormat, i: int) -> Option<
    EnvelopeFault,
>
    decreases m.len() - i,
{
    if i < 0 || i >= m.len() {
        None
    } else {
        match yaml::text_of(m[i].0) {
            None => Some(EnvelopeFault::InvalidStructure("root key must be a string"@)),
            Some(key) => if key == "sops"@ || key == discriminator_of(format) {
                root_fault(m, format, i + 1)
            } else {
                Some(EnvelopeFault::UnsupportedVersion)
            },
        }
    }
}

/// The mapping of an entry.
pub open spec fn mapping_at(m: Seq<(YamlTree, YamlTree)>, key: Seq<char>) -> Option<
    Seq<(YamlTree, YamlTree)>,
> {
    match yaml::entry_of(m, key) {
        Some(v) => yaml::mapping_of(v),
        None => None,
    }
}

/// The body of an envelope: its layout and its data.
pub open spec fn body_read(body: Seq<(YamlTree, YamlTree)>) -> Result<
    (Seq<char>, DataModel),
    EnvelopeFault,
> {
    if !(2 <= body.len() <= 3) {
        Err(
            EnvelopeFault::InvalidStructure(
                "envelope body must contain data, layout, and optional types"@,
            ),
        )
    } else if body_fault(body, 0) is Some {
        Err(body_fault(body, 0)->Some_0)
    } else {
        match yaml::entry_of(body, "data"@) {
            None => Err(EnvelopeFault::MissingField("data"@)),
            Some(data) => match metadata::text_at(body, "layout"@) {
                None => Err(EnvelopeFault::MissingField("layout"@)),
                Some(layout) => if !encrypted::encrypted_scalar(layout) {
                    Err(EnvelopeFault::PlaintextLeaf(seq![node::Step::Key("layout"@)]))
                } else {
                    match yaml::entry_of(body, "types"@) {
                        Some(types) => match type_paths::types_in(types) {
                            Err(fault) => Err(fault),
                            Ok(_) => data_read(layout, data),
                        },
                        None => data_read(layout, data),
                    }
                },
            },
        }
    }
}

pub open spec fn data_read(layout: Seq<char>, data: YamlTree) -> Result<
    (Seq<char>, DataModel),
    EnvelopeFault,
> {
    match data_leaves(
        data,
        Seq::empty(),
        DataModel { key_paths: Seq::empty(), leaves: Seq::empty() },
    ) {
        Ok(d) => Ok((layout, d)),
        Err(fault) => Err(fault),
    }
}

/// What an encrypted envelope says.
pub open spec fn ciphertext_of(t: YamlTree, format: SourceFormat) -> Result<
    CiphertextModel,
    EnvelopeFault,
> {
    match yaml::mapping_of(t) {
        None => Err(EnvelopeFault::InvalidStructure("root must be a mapping"@)),
        Some(root) => if root.len() != 2 {
            Err(
                EnvelopeFault::InvalidStructure(
                    "ciphertext envelope must contain discriminator and sops metadata"@,
                ),
            )
        } else {
            match mapping_at(root, discriminator_of(format)) {
                None => Err(EnvelopeFault::FormatMismatch),
                Some(body) => match body_read(body) {
                    Err(fault) => Err(fault),
                    Ok((layout, d)) => match mapping_at(root, "sops"@) {
                        None => Err(EnvelopeFault::MissingField("sops"@)),
                        Some(m) => match metadata::metadata_recipients(m) {
                            Err(fault) => Err(fault),
                            Ok(recipients) => match root_fault(root, format, 0) {
                                Some(fault) => Err(fault),
                                None => Ok(
                                    CiphertextModel {
                                        format,
                                        key_paths: d.key_paths,
                                        leaves: d.leaves,
                                        layout,
                                        recipients,
                                    },
                                ),
                            },
                        },
                    },
                },
            }
        },
    }
}

/// The YAML value that bytes hold.
pub open spec fn yaml_bytes(bytes: Seq<u8>) -> Result<YamlTree, EnvelopeFault> {
    if !vstd::utf8::valid_utf8(bytes) {
        Err(EnvelopeFault::NonUtf8)
    } else {
        match yaml::yaml_parsed(vstd::utf8::decode_utf8(bytes)) {
            Err(reason) => Err(EnvelopeFault::Yaml(reason)),
            Ok(t) => Ok(t),
        }
    }
}

/// What the bytes of an encrypted envelope say.
pub open spec fn ciphertext_bytes(bytes: Seq<u8>, format: SourceFormat) -> Result<
    CiphertextModel,
    EnvelopeFault,
> {
    match yaml_bytes(bytes) {
        Err(fault) => Err(fault),
        Ok(t) => ciphertext_of(t, format),
    }
}

/// The format that the root key of an envelope names.
pub open spec fn format_of(t: YamlTree) -> Result<SourceFormat, EnvelopeFault> {
    match yaml::mapping_of(t) {
        None => Err(EnvelopeFault::InvalidStructure("root must be a mapping"@)),
        Some(m) => if metadata::held(m, discriminator_of(SourceFormat::Dotenv)) {
            Ok(SourceFormat::Dotenv)
        } else if metadata::held(m, discriminator_of(SourceFormat::Json)) {
            Ok(SourceFormat::Json)
        } else if metadata::held(m, discriminator_of(SourceFormat::Yaml)) {
            Ok(SourceFormat::Yaml)
        } else if metadata::held(m, discriminator_of(SourceFormat::Toml)) {
            Ok(SourceFormat::Toml)
        } else {
            Err(EnvelopeFault::FormatMismatch)
        },
    }
}

pub open spec fn format_bytes(bytes: Seq<u8>) -> Result<SourceFormat, EnvelopeFault> {
    match yaml_bytes(bytes) {
        Err(fault) => Err(fault),
        Ok(t) => format_of(t),
    }
}

/// Reads the YAML value that bytes hold.
pub fn read_yaml(input: &[u8]) -> (r: Result<YamlValue, EnvelopeError>)
    ensures
        match yaml_bytes(input@) {
            Ok(t) => r matches Ok(v) && v@ == t && yaml::named(t),
            Err(fault) => r matches Err(e) && e@ == fault,
        },
{
    match text::from_utf8(input) {
        None => Err(EnvelopeError::NonUtf8),
        Some(s) => match yaml::parse(s.as_str()) {
            Ok(value) => Ok(value),
            Err(reason) => Err(EnvelopeError::Yaml(reason)),
        },
    }
}

fn check_body_keys(m: &Vec<(YamlValue, YamlValue)>) -> (r: Result<(), EnvelopeError>)
    ensures
        match body_fault(yaml::pairs(m@), 0) {
            Some(fault) => r matches Err(e) && e@ == fault,
            None => r.is_ok(),
        },
{
    let ghost p = yaml::pairs(m@);
    let mut i: usize = 0;
    while i < m.len()
        invariant
            p == yaml::pairs(m@),
            i <= m.len(),
            body_fault(p, i as int) == body_fault(p, 0),
        decreases m.len() - i,
    {
        assert(p[i as int] == (m@[i as int].0@, m@[i as int].1@));
        match m[i].0.as_text() {
            None => {
                return Err(EnvelopeError::InvalidStructure("envelope body key must be a string"));
            },
            Some(key) => {
                if !text::eq(key.as_str(), "data") && !text::eq(key.as_str(), "layout")
                    && !text::eq(key.as_str(), "types") {
                    return Err(
                        EnvelopeError::InvalidStructure("envelope body contains an unknown field"),
                    );
                }
            },
        }
        i = i + 1;
    }
    Ok(())
}

fn check_root_keys(m: &Vec<(YamlValue, YamlValue)>, format: SourceFormat) -> (r: Result<
    (),
    EnvelopeError,
>)
    ensures
        match root_fault(yaml::pairs(m@), format, 0) {
            Some(fault) => r matches Err(e) && e@ == fault,
            None => r.is_ok(),
        },
{
    let ghost p = yaml::pairs(m@);
    let own = discriminator(format);
    let mut i: usize = 0;
    while i < m.len()
        invariant
            p == yaml::pairs(m@),
            own@ == discriminator_of(format),
            i <= m.len(),
            root_fault(p, format, i as int) == root_fault(p, format, 0),
        decreases m.len() - i,
    {
        assert(p[i as int] == (m@[i as int].0@, m@[i as int].1@));
        match m[i].0.as_text() {
            None => {
                return Err(EnvelopeError::InvalidStructure("root key must be a string"));
            },
            Some(key) => {
                if !text::eq(key.as_str(), "sops") && !text::eq(key.as_str(), own.as_str()) {
                    return Err(EnvelopeError::UnsupportedVersion);
                }
            },
        }
        i = i + 1;
    }
    Ok(())
}

pub fn get_mapping<'a>(m: &'a Vec<(YamlValue, YamlValue)>, key: &str) -> (r: Option<
    &'a Vec<(YamlValue, YamlValue)>,
>)
    ensures
        match r {
            Some(v) => mapping_at(yaml::pairs(m@), key@) == Some(yaml::pairs(v@)),
            None => mapping_at(yaml::pairs(m@), key@) is None,
        },
{
    match yaml::get(m, key) {
        Some(v) => v.as_mapping(),
        None => None,
    }
}

/// An encrypted envelope. Nothing in it is plaintext but keys, paths of typed
/// scalars, and SOPS metadata.
pub struct CiphertextEnvelope {
    format: SourceFormat,
    key_paths: Vec<String>,
    leaves: indexmap::IndexMap<String, String>,
    layout_ciphertext: String,
    age_recipients: Vec<AgeRecipient>,
}

impl View for CiphertextEnvelope {
    type V = CiphertextModel;

    closed spec fn view(&self) -> CiphertextModel {
        CiphertextModel {
            format: self.format,
            key_paths: text::texts(self.key_paths@),
            leaves: leaf_map::leaf_entries(self.leaves),
            layout: self.layout_ciphertext@,
            recipients: recipient::names(self.age_recipients@),
        }
    }
}

impl CiphertextEnvelope {
    /// Detects the source format carried by an envelope's discriminator.
    ///
    /// Ciphertext files are self-describing: the `gitveil_v1_<format>` root
    /// key names the source format, so read paths never depend on external
    /// declarations.
    pub fn detect_format(input: &[u8]) -> (r: Result<SourceFormat, EnvelopeError>)
        ensures
            match format_bytes(input@) {
                Ok(format) => r == Ok::<_, EnvelopeError>(format),
                Err(fault) => r matches Err(e) && e@ == fault,
            },
    {
        let value = match read_yaml(input) {
            Ok(value) => value,
            Err(error) => {
                return Err(error);
            },
        };
        let root = match value.as_mapping() {
            Some(root) => root,
            None => {
                return Err(EnvelopeError::InvalidStructure("root must be a mapping"));
            },
        };
        if yaml::get(root, discriminator(SourceFormat::Dotenv).as_str()).is_some() {
            return Ok(SourceFormat::Dotenv);
        }
        if yaml::get(root, discriminator(SourceFormat::Json).as_str()).is_some() {
            return Ok(SourceFormat::Json);
        }
        if yaml::get(root, discriminator(SourceFormat::Yaml).as_str()).is_some() {
            return Ok(SourceFormat::Yaml);
        }
        if yaml::get(root, discriminator(SourceFormat::Toml).as_str()).is_some() {
            return Ok(SourceFormat::Toml);
        }
        Err(EnvelopeError::FormatMismatch)
    }

    /// Reads an encrypted envelope.
    pub fn parse(input: &[u8], expected_format: SourceFormat) -> (r: Result<
        CiphertextEnvelope,
        EnvelopeError,
    >)
        ensures
            match ciphertext_bytes(input@, expected_format) {
                Ok(model) => r matches Ok(envelope) && envelope@ == model,
                Err(fault) => r matches Err(e) && e@ == fault,
            },
    {
        let value = match read_yaml(input) {
            Ok(value) => value,
            Err(error) => {
                return Err(error);
            },
        };
        let root = match value.as_mapping() {
            Some(root) => root,
            None => {
                return Err(EnvelopeError::InvalidStructure("root must be a mapping"));
            },
        };
        if root.len() != 2 {
            return Err(
                EnvelopeError::InvalidStructure(
                    "ciphertext envelope must contain discriminator and sops metadata",
                ),
            );
        }
        let body = match get_mapping(root, discriminator(expected_format).as_str()) {
            Some(body) => body,
            None => {
                return Err(EnvelopeError::FormatMismatch);
            },
        };
        if body.len() < 2 || body.len() > 3 {
            return Err(
                EnvelopeError::InvalidStructure(
                    "envelope body must contain data, layout, and optional types",
                ),
            );
        }
        match check_body_keys(body) {
            Ok(_) => {},
            Err(error) => {
                return Err(error);
            },
        }
        let data = match yaml::get(body, "data") {
            Some(data) => data,
            None => {
                return Err(EnvelopeError::MissingField("data"));
            },
        };
        let layout = match metadata::get_text(body, "layout") {
            Some(layout) => layout,
            None => {
                return Err(EnvelopeError::MissingField("layout"));
            },
        };
        if !encrypted::is_encrypted_scalar(layout.as_str()) {
            let at = NodePath::root().child_key("layout");
            assert(at@ =~= seq![node::Step::Key("layout"@)]);
            return Err(EnvelopeError::PlaintextLeaf(at));
        }
        match yaml::get(body, "types") {
            Some(types) => match type_paths::parse_type_paths(types) {
                Ok(_) => {},
                Err(error) => {
                    return Err(error);
                },
            },
            None => {},
        }
        let mut key_paths: Vec<String> = Vec::new();
        let mut leaves = leaf_map::leaf_map();
        assert(text::texts(key_paths@) =~= Seq::<Seq<char>>::empty());
        match validate_encrypted_tree(data, &NodePath::root(), &mut key_paths, &mut leaves) {
            Ok(_) => {},
            Err(error) => {
                return Err(error);
            },
        }
        let metadata = match get_mapping(root, "sops") {
            Some(metadata) => metadata,
            None => {
                return Err(EnvelopeError::MissingField("sops"));
            },
        };
        let age_recipients = match metadata::validate_metadata(metadata) {
            Ok(recipients) => recipients,
            Err(error) => {
                return Err(error);
            },
        };
        match check_root_keys(root, expected_format) {
            Ok(_) => {},
            Err(error) => {
                return Err(error);
            },
        }
        Ok(
            CiphertextEnvelope {
                format: expected_format,
                key_paths,
                leaves,
                layout_ciphertext: layout.clone(),
                age_recipients,
            },
        )
    }

    pub fn format(&self) -> (r: SourceFormat)
        ensures
            r == self@.format,
    {
        self.format
    }

    pub fn key_paths(&self) -> (r: &[String])
        ensures
            text::texts(r@) == self@.key_paths,
    {
        self.key_paths.as_slice()
    }

    /// The encrypted leaves by path.
    pub fn leaf_ciphertexts(&self) -> (r: &indexmap::IndexMap<String, String>)
        ensures
            leaf_map::leaf_entries(*r) == self@.leaves,
    {
        &self.leaves
    }

    pub fn layout_ciphertext(&self) -> (r: &str)
        ensures
            r@ == self@.layout,
    {
        self.layout_ciphertext.as_str()
    }

    pub fn age_recipients(&self) -> (r: &[AgeRecipient])
        ensures
            recipient::names(r@) == self@.recipients,
    {
        self.age_recipients.as_slice()
    }

    /// Whether two envelopes hold the same encrypted values and the same layout,
    /// whatever their recipients.
    pub fn same_ciphertext(&self, other: &CiphertextEnvelope) -> (r: bool)
        ensures
            r == (leaf_map::same_leaves(self@.leaves, other@.leaves) && self@.layout
                == other@.layout),
    {
        leaf_map::equal_leaves(&self.leaves, &other.leaves) && text::eq(
            self.layout_ciphertext.as_str(),
            other.layout_ciphertext.as_str(),
        )
    }
}

proof fn lemma_root_keys(m: Seq<(YamlTree, YamlTree)>, format: SourceFormat, i: int)
    requires
        0 <= i <= m.len(),
    ensures
        root_fault(m, format, i) is None <==> forall|j: int|
            i <= j < m.len() ==> ((yaml::text_of((#[trigger] m[j]).0) == Some("sops"@))
                || yaml::text_of(m[j].0) == Some(discriminator_of(format))),
    decreases m.len() - i,
{
    if i < m.len() {
        lemma_root_keys(m, format, i + 1);
    }
}

proof fn lemma_body_keys(m: Seq<(YamlTree, YamlTree)>, i: int)
    requires
        0 <= i <= m.len(),
    ensures
        body_fault(m, i) is None <==> forall|j: int|
            i <= j < m.len() ==> (yaml::text_of((#[trigger] m[j]).0) == Some("data"@)
                || yaml::text_of(m[j].0) == Some("layout"@) || yaml::text_of(m[j].0) == Some(
                "types"@,
            )),
    decreases m.len() - i,
{
    if i < m.len() {
        lemma_body_keys(m, i + 1);
    }
}

/// Every mapping of the data has strings for keys.
pub open spec fn text_keyed(t: YamlTree) -> bool
    decreases t,
{
    match t {
        YamlTree::Mapping(m) => forall|i: int|
            0 <= i < m.len() ==> yaml::text_of((#[trigger] m[i]).0) is Some && text_keyed(m[i].1),
        YamlTree::Sequence(s) => forall|i: int| 0 <= i < s.len() ==> text_keyed(#[trigger] s[i]),
        YamlTree::Tagged(_, v) => text_keyed(*v),
        _ => true,
    }
}

/// Law: data is accepted exactly where every leaf is an encrypted scalar and every key is
/// a string.
pub proof fn law_encrypted_data_is_accepted(t: YamlTree, path: Seq<node::Step>, d: DataModel)
    ensures
        data_leaves(t, path, d) is Ok <==> all_encrypted(t) && text_keyed(t),
    decreases t, 0nat,
{
    match t {
        YamlTree::Mapping(m) => {
            lemma_entries_accepted(m, m.len(), path, d);
        },
        YamlTree::Sequence(s) => {
            lemma_items_accepted(s, s.len(), path, d);
        },
        YamlTree::Tagged(_, v) => {
            law_encrypted_data_is_accepted(*v, path, d);
        },
        _ => {},
    }
}

proof fn lemma_entries_accepted(
    m: Seq<(YamlTree, YamlTree)>,
    n: nat,
    path: Seq<node::Step>,
    d: DataModel,
)
    requires
        n <= m.len(),
    ensures
        entry_leaves(m, n, path, d) is Ok <==> forall|i: int|
            0 <= i < n ==> all_encrypted((#[trigger] m[i]).1) && yaml::text_of(m[i].0) is Some
                && text_keyed(m[i].1),
    decreases m, n,
{
    if n > 0 {
        lemma_entries_accepted(m, (n - 1) as nat, path, d);
        let last = m[n - 1];
        if entry_leaves(m, (n - 1) as nat, path, d) is Ok && yaml::text_of(last.0) is Some {
            let head = entry_leaves(m, (n - 1) as nat, path, d)->Ok_0;
            let child = path.push(node::Step::Key(yaml::text_of(last.0)->Some_0));
            assert(decreases_to!(m => m[n - 1]));
            law_encrypted_data_is_accepted(
                m[n - 1].1,
                child,
                DataModel {
                    key_paths: head.key_paths.push(node::path_text(child)),
                    leaves: head.leaves,
                },
            );
        }
    }
}

proof fn lemma_items_accepted(s: Seq<YamlTree>, n: nat, path: Seq<node::Step>, d: DataModel)
    requires
        n <= s.len(),
    ensures
        item_leaves(s, n, path, d) is Ok <==> forall|i: int|
            0 <= i < n ==> all_encrypted(#[trigger] s[i]) && text_keyed(s[i]),
    decreases s, n,
{
    if n > 0 {
        lemma_items_accepted(s, (n - 1) as nat, path, d);
        if item_leaves(s, (n - 1) as nat, path, d) is Ok {
            let head = item_leaves(s, (n - 1) as nat, path, d)->Ok_0;
            law_encrypted_data_is_accepted(s[n - 1], path.push(node::Step::Index(n - 1)), head);
        }
    }
}

/// A body whose data and layout are encrypted, and that holds nothing else but the types.
pub open spec fn sealed_body(body: Seq<(YamlTree, YamlTree)>) -> bool {
    &&& 2 <= body.len() <= 3
    &&& forall|j: int|
        0 <= j < body.len() ==> (yaml::text_of((#[trigger] body[j]).0) == Some("data"@)
            || yaml::text_of(body[j].0) == Some("layout"@) || yaml::text_of(body[j].0) == Some(
            "types"@,
        ))
    &&& yaml::entry_of(body, "data"@) matches Some(data) && all_encrypted(data) && text_keyed(data)
    &&& metadata::text_at(body, "layout"@) matches Some(layout) && encrypted::encrypted_scalar(
        layout,
    )
    &&& yaml::entry_of(body, "types"@) matches Some(types) ==> type_paths::types_in(types) is Ok
}

/// Law: bytes are an envelope of a format exactly where they are a YAML mapping of the
/// discriminator of that format and the metadata, and of nothing else, where the body is
/// encrypted throughout and the metadata is accepted. The envelope then has the layout of
/// the body and the recipients of the metadata.
pub proof fn law_accepted_envelope(bytes: Seq<u8>, format: SourceFormat)
    ensures
        ciphertext_bytes(bytes, format) is Ok <==> {
            &&& yaml_bytes(bytes) matches Ok(t) && (yaml::mapping_of(t) matches Some(root) && {
                &&& root.len() == 2
                &&& forall|j: int|
                    0 <= j < root.len() ==> (yaml::text_of((#[trigger] root[j]).0) == Some("sops"@)
                        || yaml::text_of(root[j].0) == Some(discriminator_of(format)))
                &&& mapping_at(root, discriminator_of(format)) matches Some(body) && sealed_body(
                    body,
                )
                &&& mapping_at(root, "sops"@) matches Some(m) && metadata::metadata_recipients(
                    m,
                ) is Ok
            })
        },
        ciphertext_bytes(bytes, format) matches Ok(model) ==> {
            let root = yaml::mapping_of(yaml_bytes(bytes)->Ok_0)->Some_0;
            &&& model.format == format
            &&& metadata::text_at(
                mapping_at(root, discriminator_of(format))->Some_0,
                "layout"@,
            ) == Some(model.layout)
            &&& metadata::metadata_recipients(mapping_at(root, "sops"@)->Some_0) == Ok::<
                Seq<Seq<char>>,
                EnvelopeFault,
            >(model.recipients)
        },
{
    if yaml_bytes(bytes) is Ok {
        let t = yaml_bytes(bytes)->Ok_0;
        if yaml::mapping_of(t) is Some {
            let root = yaml::mapping_of(t)->Some_0;
            lemma_root_keys(root, format, 0);
            if mapping_at(root, discriminator_of(format)) is Some {
                let body = mapping_at(root, discriminator_of(format))->Some_0;
                lemma_body_keys(body, 0);
                if yaml::entry_of(body, "data"@) is Some {
                    law_encrypted_data_is_accepted(
                        yaml::entry_of(body, "data"@)->Some_0,
                        Seq::empty(),
                        DataModel { key_paths: Seq::empty(), leaves: Seq::empty() },
                    );
                }
            }
        }
    }
}

/// Law: an envelope is of one format only, which is the one that it is detected as.
pub proof fn law_envelopes_have_one_format(bytes: Seq<u8>, format: SourceFormat)
    requires
        ciphertext_bytes(bytes, format) is Ok,
    ensures
        format_bytes(bytes) == Ok::<SourceFormat, EnvelopeFault>(format),
        forall|other: SourceFormat|
            (#[trigger] ciphertext_bytes(bytes, other)) is Ok ==> other == format,
{
    law_accepted_envelope(bytes, format);
    let root = yaml::mapping_of(yaml_bytes(bytes)->Ok_0)->Some_0;
    assert forall|other: SourceFormat| metadata::held(
        root,
        #[trigger] discriminator_of(other),
    ) implies other == format by {
        law_discriminators_are_distinct(other, format);
        yaml::lemma_entry_of(root, discriminator_of(other));
        let j = choose|j: int|
            0 <= j < root.len() && (#[trigger] root[j]).0 == YamlTree::String(
                discriminator_of(other),
            );
        assert(yaml::text_of(root[j].0) == Some(discriminator_of(other)));
    }
    assert(metadata::held(root, discriminator_of(format)));
    assert forall|other: SourceFormat| (#[trigger] ciphertext_bytes(bytes, other)) is Ok implies other
        == format by {
        law_accepted_envelope(bytes, other);
        assert(metadata::held(root, discriminator_of(other)));
    }
}

} // verus!
