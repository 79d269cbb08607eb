//! An envelope in plaintext: what is handed to encryption and comes back from it.

use vstd::prelude::*;
use vstd::string::StrSliceExecFns;

use crate::codec::yaml;
use crate::codec::yaml::{YamlParts, YamlTree};
use crate::config::SourceFormat;
use crate::envelope::ciphertext;
use crate::envelope::data;
use crate::envelope::fault::{EnvelopeError, EnvelopeFault};
use crate::envelope::layout_record;
use crate::envelope::metadata;
use crate::envelope::type_paths;
use crate::envelope::type_paths::InternalScalarType;
use crate::envelope::typed;
use crate::source::document;
use crate::source::node;
use crate::source::{Layout, Node, NodePath, SourceDocument};
use crate::text;

verus! {

/// The fields of an envelope's body.
pub open spec fn body_tree(d: document::DocumentModel) -> Seq<(YamlTree, YamlTree)> {
    let fields = seq![
        (YamlTree::String("data"@), data::data_tree(d.root)),
        (
            YamlTree::String("layout"@),
            YamlTree::String(layout_record::layout_text(d.layout)),
        ),
    ];
    let types = typed::listed(d.root);
    if types.len() == 0 {
        fields
    } else {
        fields.push((YamlTree::String("types"@), type_paths::types_tree(types)))
    }
}

/// The envelope of a document.
pub open spec fn envelope_tree(d: document::DocumentModel) -> YamlTree {
    YamlTree::Mapping(
        seq![
            (
                YamlTree::String(ciphertext::discriminator_of(d.format)),
                YamlTree::Mapping(body_tree(d)),
            ),
        ],
    )
}

/// The types that the body of an envelope lists.
pub open spec fn body_types(body: Seq<(YamlTree, YamlTree)>) -> Result<
    Seq<(Seq<char>, InternalScalarType)>,
    EnvelopeFault,
> {
    match yaml::entry_of(body, "types"@) {
        None => Ok(Seq::empty()),
        Some(types) => type_paths::types_in(types),
    }
}

/// The document that the body of an envelope holds.
pub open spec fn body_document(body: Seq<(YamlTree, YamlTree)>, format: SourceFormat) -> Result<
    document::DocumentModel,
    EnvelopeFault,
> {
    match yaml::entry_of(body, "data"@) {
        None => Err(EnvelopeFault::MissingField("data"@)),
        Some(data) => match metadata::text_at(body, "layout"@) {
            None => Err(EnvelopeFault::MissingField("layout"@)),
            Some(text) => match layout_record::layout_text_read(text) {
                Err(reason) => Err(EnvelopeFault::Layout(reason)),
                Ok(layout) => match body_types(body) {
                    Err(fault) => Err(fault),
                    Ok(types) => match data::data_of(data, Seq::empty(), types) {
                        Err(fault) => Err(fault),
                        Ok(root) => Ok(document::DocumentModel { format, root, layout }),
                    },
                },
            },
        },
    }
}

/// The document that an envelope holds.
pub open spec fn envelope_document(t: YamlTree, format: SourceFormat) -> Result<
    document::DocumentModel,
    EnvelopeFault,
> {
    match yaml::mapping_of(t) {
        None => Err(EnvelopeFault::InvalidStructure("root must be a mapping"@)),
        Some(m) => if m.len() != 1 {
            Err(
                EnvelopeFault::InvalidStructure(
                    "decrypted envelope must contain one discriminator"@,
                ),
            )
        } else {
            match ciphertext::mapping_at(m, ciphertext::discriminator_of(format)) {
                None => Err(EnvelopeFault::FormatMismatch),
                Some(body) => body_document(body, format),
            }
        },
    }
}

/// The document that the bytes of an envelope hold.
pub open spec fn envelope_bytes(bytes: Seq<u8>, format: SourceFormat) -> Result<
    document::DocumentModel,
    EnvelopeFault,
> {
    match ciphertext::yaml_bytes(bytes) {
        Err(fault) => Err(fault),
        Ok(t) => envelope_document(t, format),
    }
}

/// Law: the envelope of a document holds that document, where its tags are written
/// as YAML shows them.
pub proof fn law_envelope_holds_the_document(d: document::DocumentModel)
    requires
        node::well_keyed(d.root),
        typed::shown_tags(d.root),
        data::decodable(d.root),
        layout_record::layout_text_read(layout_record::layout_text(d.layout)) == Ok::<
            crate::source::layout::LayoutModel,
            Seq<char>,
        >(d.layout),
    ensures
        envelope_document(envelope_tree(d), d.format) == Ok::<
            document::DocumentModel,
            EnvelopeFault,
        >(d),
{
    reveal_strlit("data");
    reveal_strlit("layout");
    reveal_strlit("types");
    assert("data"@.len() == 4 && "layout"@.len() == 6 && "types"@.len() == 5);
    let types = typed::listed(d.root);
    let body = body_tree(d);
    typed::law_listed_types_agree(d.root);
    type_paths::law_types_are_read_back(types, types.len() as int);
    assert(types.take(types.len() as int) =~= types);
    assert(body.skip(1).skip(1) =~= body.skip(2));
    if types.len() > 0 {
        assert(body.skip(2).skip(1) =~= body.skip(3));
    }
    reveal_with_fuel(yaml::entry_of, 4);
    assert(yaml::entry_of(body, "data"@) == Some(data::data_tree(d.root)));
    assert(body_types(body) == Ok::<Seq<(Seq<char>, InternalScalarType)>, EnvelopeFault>(types)) by {
        if types.len() == 0 {
            assert(types =~= Seq::<(Seq<char>, InternalScalarType)>::empty());
        }
    }
    typed::law_data_is_restored(d.root, Seq::empty(), types);
}

fn types_value(types: &Vec<(String, InternalScalarType)>) -> (r: yaml_serde::Value)
    requires
        type_paths::type_names(type_paths::view_types(types@)).no_duplicates(),
    ensures
        yaml::yaml_tree(r) == type_paths::types_tree(type_paths::view_types(types@)),
{
    let mut out: Vec<(String, yaml_serde::Value)> = Vec::new();
    let mut i: usize = 0;
    while i < types.len()
        invariant
            i <= types.len(),
            out@.len() == i,
            forall|j: int|
                0 <= j < i ==> (#[trigger] out@[j]).0@ == types@[j].0@ && yaml::yaml_tree(out@[j].1)
                    == type_paths::marker_tree(types@[j].1),
        decreases types.len() - i,
    {
        let nothing: Vec<(String, yaml_serde::Value)> = Vec::new();
        assert(yaml::keyed(nothing@) =~= Seq::<(YamlTree, YamlTree)>::empty());
        let empty = yaml::yaml_build(YamlParts::Mapping(nothing));
        let mut marker: Vec<(String, yaml_serde::Value)> = Vec::new();
        marker.push((types[i].1.as_str().to_owned(), empty));
        assert(yaml::keyed(marker@) =~= type_paths::marker_tree(types@[i as int].1)->Mapping_0);
        out.push((types[i].0.clone(), yaml::yaml_build(YamlParts::Mapping(marker))));
        i = i + 1;
    }
    let ghost all = type_paths::view_types(types@);
    assert(yaml::key_texts(out@) =~= type_paths::type_names(all));
    assert(yaml::keyed(out@) =~= type_paths::types_tree(all)->Mapping_0);
    yaml::yaml_build(YamlParts::Mapping(out))
}

/// A document on its way to or from encryption.
pub struct DecryptedEnvelope {
    format: SourceFormat,
    data: Node,
    layout: Layout,
}

impl View for DecryptedEnvelope {
    type V = document::DocumentModel;

    closed spec fn view(&self) -> document::DocumentModel {
        document::DocumentModel { format: self.format, root: self.data@, layout: self.layout@ }
    }
}

impl Clone for DecryptedEnvelope {
    fn clone(&self) -> (r: DecryptedEnvelope)
        ensures
            r@ == self@,
    {
        proof {
            use_type_invariant(self);
        }
        DecryptedEnvelope {
            format: self.format,
            data: self.data.clone(),
            layout: self.layout.clone(),
        }
    }
}

pub open spec fn view_envelope(r: Result<DecryptedEnvelope, EnvelopeError>) -> Result<
    document::DocumentModel,
    EnvelopeFault,
> {
    match r {
        Ok(envelope) => Ok(envelope@),
        Err(e) => Err(e@),
    }
}

impl DecryptedEnvelope {
    #[verifier::type_invariant]
    spec fn valid(self) -> bool {
        node::well_keyed(self.data@)
    }

    pub fn from_source(source: &SourceDocument) -> (r: Result<DecryptedEnvelope, EnvelopeError>)
        ensures
            r matches Ok(envelope) && envelope@ == source@,
    {
        Ok(
            DecryptedEnvelope {
                format: source.format(),
                data: source.root().clone(),
                layout: source.layout().clone(),
            },
        )
    }

    pub fn from_yaml(input: &[u8], expected_format: SourceFormat) -> (r: Result<
        DecryptedEnvelope,
        EnvelopeError,
    >)
        ensures
            view_envelope(r) == envelope_bytes(input@, expected_format),
            r matches Ok(envelope) ==> node::named_tags(envelope@.root),
    {
        let value = match ciphertext::read_yaml(input) {
            Ok(value) => value,
            Err(error) => {
                return Err(error);
            },
        };
        let mapping = match value.as_mapping() {
            Some(mapping) => mapping,
            None => {
                return Err(EnvelopeError::InvalidStructure("root must be a mapping"));
            },
        };
        if mapping.len() != 1 {
            return Err(
                EnvelopeError::InvalidStructure(
                    "decrypted envelope must contain one discriminator",
                ),
            );
        }
        let own = ciphertext::discriminator(expected_format);
        let body = match ciphertext::get_mapping(mapping, own.as_str()) {
            Some(body) => body,
            None => {
                return Err(EnvelopeError::FormatMismatch);
            },
        };
        let data = match yaml::get(body, "data") {
            Some(data) => data,
            None => {
                return Err(EnvelopeError::MissingField("data"));
            },
        };
        let layout = match metadata::get_text(body, "layout") {
            Some(layout) => layout,
            None => {
                return Err(EnvelopeError::MissingField("layout"));
            },
        };
        let layout = match layout_record::parse(layout.as_str()) {
            Ok(layout) => layout,
            Err(reason) => {
                return Err(EnvelopeError::Layout(reason));
            },
        };
        let types = match yaml::get(body, "types") {
            Some(types) => match type_paths::parse_type_paths(types) {
                Ok(types) => types,
                Err(error) => {
                    return Err(error);
                },
            },
            None => {
                let none: Vec<(String, InternalScalarType)> = Vec::new();
                assert(type_paths::view_types(none@) =~= Seq::<
                    (Seq<char>, InternalScalarType),
                >::empty());
                none
            },
        };
        proof {
            yaml::lemma_named_mapping(value@);
            yaml::lemma_named_entry(yaml::pairs(mapping@), own@);
            yaml::lemma_named_mapping(yaml::entry_of(yaml::pairs(mapping@), own@)->Some_0);
            yaml::lemma_named_entry(yaml::pairs(body@), "data"@);
            data::lemma_tags_stay_named(data@, Seq::empty(), type_paths::view_types(types@));
        }
        match data::node_from_yaml(data, &NodePath::root(), &types) {
            Ok(data) => Ok(DecryptedEnvelope { format: expected_format, data, layout }),
            Err(error) => Err(error),
        }
    }

    /// Whether every tag of the data has a name, as YAML asks of it.
    pub fn has_named_tags(&self) -> (r: bool)
        ensures
            r == node::named_tags(self@.root),
    {
        self.data.has_named_tags()
    }

    /// Writes the envelope. Where YAML reads the text as what was written, the
    /// envelope is read back from it.
    pub fn to_yaml(&self) -> (r: Result<Vec<u8>, EnvelopeError>)
        requires
            node::named_tags(self@.root),
        ensures
            match yaml::yaml_written(envelope_tree(self@)) {
                Ok(s) => r matches Ok(bytes) && bytes@ == vstd::utf8::encode_utf8(s),
                Err(reason) => r matches Err(e) && e@ == EnvelopeFault::Yaml(reason),
            },
            r matches Ok(bytes) ==> typed::shown_tags(self@.root) && ciphertext::yaml_bytes(bytes@)
                == Ok::<YamlTree, EnvelopeFault>(envelope_tree(self@)) ==> envelope_bytes(
                bytes@,
                self@.format,
            ) == Ok::<document::DocumentModel, EnvelopeFault>(self@),
    {
        proof {
            use_type_invariant(self);
            typed::law_listed_types_agree(self.data@);
            reveal_strlit("data");
            reveal_strlit("layout");
            reveal_strlit("types");
            assert("data"@.len() == 4 && "layout"@.len() == 6 && "types"@.len() == 5);
        }
        let mut body: Vec<(String, yaml_serde::Value)> = Vec::new();
        body.push(("data".to_owned(), data::node_to_yaml(&self.data)));
        let layout = match layout_record::write(&self.layout) {
            Ok(layout) => layout,
            Err(reason) => {
                return Err(EnvelopeError::Layout(reason));
            },
        };
        body.push(("layout".to_owned(), yaml::yaml_build(YamlParts::String(layout))));
        let types = typed::collect_type_paths(&self.data);
        if types.len() > 0 {
            body.push(("types".to_owned(), types_value(&types)));
        }
        assert(yaml::keyed(body@) =~= body_tree(self@));
        assert(yaml::key_texts(body@).no_duplicates());
        let mut root: Vec<(String, yaml_serde::Value)> = Vec::new();
        root.push(
            (ciphertext::discriminator(self.format), yaml::yaml_build(YamlParts::Mapping(body))),
        );
        assert(yaml::keyed(root@) =~= envelope_tree(self@)->Mapping_0);
        let value = yaml::yaml_build(YamlParts::Mapping(root));
        match yaml::yaml_write(&value) {
            Ok(s) => {
                proof {
                    if typed::shown_tags(self@.root) {
                        law_envelope_holds_the_document(self@);
                    }
                }
                Ok(s.as_str().as_bytes_vec())
            },
            Err(reason) => Err(EnvelopeError::Yaml(reason)),
        }
    }

    pub fn into_source(self) -> (r: Result<SourceDocument, EnvelopeError>)
        ensures
            r matches Ok(source) && source@ == self@,
    {
        proof {
            use_type_invariant(&self);
        }
        Ok(SourceDocument::new(self.format, self.data, self.layout))
    }
}

} // verus!
