//! Values as a deserializer delivers them, read strictly while it delivers them: no key
//! twice in a mapping, no infinite number.
//!
//! The builders answer at once, so that a refusal stands at the place of the text where
//! the deserializer is.

use vstd::prelude::*;

use crate::config::SourceFormat;
use crate::source::document;
use crate::source::document::SourceError;
use crate::source::dotenv;
use crate::source::node;
use crate::source::{Node, NodePath, Scalar};
use crate::text;

verus! {

/// The key under which the JSON deserializer delivers the text of a number.
pub open spec fn number_mark() -> Seq<char> {
    "$serde_json::private::Number"@
}

/// The scalar that the text of a JSON number denotes.
pub open spec fn number_scalar(s: Seq<char>) -> node::ScalarModel {
    if s.contains('.') || s.contains('e') || s.contains('E') {
        node::ScalarModel::Float(s)
    } else {
        node::ScalarModel::Integer(s)
    }
}

pub open spec fn parse_fault(format: SourceFormat, reason: Seq<char>) -> document::SourceFault {
    document::SourceFault::Parse { format, reason }
}

fn classify_number(s: &str) -> (r: Scalar)
    ensures
        r@ == number_scalar(s@),
{
    let chars = text::chars_of(s);
    if text::has_char(chars.as_slice(), '.') || text::has_char(chars.as_slice(), 'e')
        || text::has_char(chars.as_slice(), 'E') {
        Scalar::Float(s.to_owned())
    } else {
        Scalar::Integer(s.to_owned())
    }
}

/// A value that was read strictly. No key stands twice in any of its mappings.
pub struct StrictNode {
    node: Node,
}

impl View for StrictNode {
    type V = node::Tree;

    closed spec fn view(&self) -> node::Tree {
        self.node@
    }
}

pub open spec fn items(v: Seq<StrictNode>) -> Seq<node::Tree> {
    v.map_values(|x: StrictNode| x@)
}

/// Every tag that stays in a document has a name. Tags of YAML do not stay, and the
/// formats without a deserializer have none.
pub open spec fn all_named(format: SourceFormat, raws: Result<Seq<node::Tree>, Seq<char>>) -> bool {
    match raws {
        Ok(list) => format == SourceFormat::Json ==> forall|i: int|
            0 <= i < list.len() ==> node::named_tags(#[trigger] list[i]),
        Err(_) => true,
    }
}

/// Why a number is refused; `None` where it is finite.
pub open spec fn float_refusal(finite: bool) -> Option<Seq<char>> {
    if finite {
        None
    } else {
        Some("non-finite floats are not supported"@)
    }
}

/// Why the number of a JSON text is refused: its mapping goes on behind its text.
pub open spec fn number_refusal(goes_on: bool) -> Option<Seq<char>> {
    if goes_on {
        Some("invalid JSON number representation"@)
    } else {
        None
    }
}

impl StrictNode {
    #[verifier::type_invariant]
    spec fn valid(self) -> bool {
        node::well_keyed(self.node@)
    }

    pub fn null() -> (r: StrictNode)
        ensures
            r@ == node::Tree::Scalar(node::ScalarModel::Null),
    {
        StrictNode { node: Node::Scalar(Scalar::Null) }
    }

    pub fn boolean(value: bool) -> (r: StrictNode)
        ensures
            r@ == node::Tree::Scalar(node::ScalarModel::Bool(value)),
    {
        StrictNode { node: Node::Scalar(Scalar::Bool(value)) }
    }

    pub fn integer(text: String) -> (r: StrictNode)
        ensures
            r@ == node::Tree::Scalar(node::ScalarModel::Integer(text@)),
    {
        StrictNode { node: Node::Scalar(Scalar::Integer(text)) }
    }

    pub fn text(value: String) -> (r: StrictNode)
        ensures
            r@ == node::Tree::Scalar(node::ScalarModel::String(value@)),
    {
        StrictNode { node: Node::Scalar(Scalar::String(value)) }
    }

    /// A floating-point number by its text, which must be finite.
    pub fn float(text: String, finite: bool) -> (r: Result<StrictNode, String>)
        ensures
            match float_refusal(finite) {
                None => r matches Ok(v) && v@ == node::Tree::Scalar(
                    node::ScalarModel::Float(text@),
                ),
                Some(reason) => r matches Err(e) && e@ == reason,
            },
    {
        if finite {
            Ok(StrictNode { node: Node::Scalar(Scalar::Float(text)) })
        } else {
            Err("non-finite floats are not supported".to_owned())
        }
    }

    /// A number of JSON by its text. `goes_on` tells whether the mapping in which the
    /// deserializer delivers it has another key.
    pub fn number(text: &str, goes_on: bool) -> (r: Result<StrictNode, String>)
        ensures
            match number_refusal(goes_on) {
                None => r matches Ok(v) && v@ == node::Tree::Scalar(number_scalar(text@)),
                Some(reason) => r matches Err(e) && e@ == reason,
            },
    {
        if goes_on {
            Err("invalid JSON number representation".to_owned())
        } else {
            Ok(StrictNode { node: Node::Scalar(classify_number(text)) })
        }
    }

    pub fn tagged(tag: String, value: StrictNode) -> (r: StrictNode)
        ensures
            r@ == node::Tree::Tagged(tag@, Box::new(value@)),
    {
        proof {
            use_type_invariant(&value);
        }
        StrictNode { node: Node::Tagged { tag, value: Box::new(value.node) } }
    }

    pub fn into_node(self) -> (r: Node)
        ensures
            r@ == self@,
            node::well_keyed(r@),
    {
        proof {
            use_type_invariant(&self);
        }
        self.node
    }
}

/// A sequence that is being read.
pub struct StrictSequence {
    path: NodePath,
    values: Vec<Node>,
}

/// Where a sequence stands, and the values that it has so far.
pub struct SequenceModel {
    pub path: Seq<node::Step>,
    pub values: Seq<node::Tree>,
}

impl View for StrictSequence {
    type V = SequenceModel;

    closed spec fn view(&self) -> SequenceModel {
        SequenceModel { path: self.path@, values: node::trees(self.values@) }
    }
}

impl StrictSequence {
    #[verifier::type_invariant]
    spec fn valid(self) -> bool {
        forall|i: int|
            0 <= i < self.values@.len() ==> node::well_keyed((#[trigger] self.values@[i])@)
    }

    pub fn new(path: &NodePath) -> (r: StrictSequence)
        ensures
            r@ == (SequenceModel { path: path@, values: Seq::empty() }),
    {
        let r = StrictSequence { path: path.clone(), values: Vec::new() };
        assert(r@.values =~= Seq::<node::Tree>::empty());
        r
    }

    /// The path of the next value.
    pub fn next_path(&self) -> (r: NodePath)
        ensures
            r@ == self@.path.push(node::Step::Index(self@.values.len() as int)),
    {
        self.path.child_index(self.values.len())
    }

    pub fn push(self, value: StrictNode) -> (r: StrictSequence)
        ensures
            r@ == (SequenceModel { values: self@.values.push(value@), ..self@ }),
    {
        proof {
            use_type_invariant(&self);
            use_type_invariant(&value);
        }
        let StrictSequence { path, mut values } = self;
        let ghost before = values@;
        values.push(value.node);
        assert(node::trees(values@) =~= node::trees(before).push(value@));
        assert forall|i: int| 0 <= i < values@.len() implies node::well_keyed(
            (#[trigger] values@[i])@,
        ) by {
            if i < before.len() {
                assert(values@[i] == before[i]);
            }
        }
        StrictSequence { path, values }
    }

    pub fn finish(self) -> (r: StrictNode)
        ensures
            r@ == node::Tree::Sequence(self@.values),
    {
        proof {
            use_type_invariant(&self);
        }
        let node = Node::Sequence(self.values);
        proof {
            node::lemma_view(node);
            assert forall|i: int| 0 <= i < self.values@.len() implies node::well_keyed(
                #[trigger] node::trees(self.values@)[i],
            ) by {
                assert(node::trees(self.values@)[i] == self.values@[i]@);
            }
        }
        StrictNode { node }
    }
}

/// A mapping that is being read.
pub struct StrictMapping {
    format: SourceFormat,
    path: NodePath,
    values: Vec<(String, Node)>,
}

/// Where a mapping stands, and the entries that it has so far.
pub struct MappingModel {
    pub format: SourceFormat,
    pub path: Seq<node::Step>,
    pub values: Seq<(Seq<char>, node::Tree)>,
}

impl View for StrictMapping {
    type V = MappingModel;

    closed spec fn view(&self) -> MappingModel {
        MappingModel {
            format: self.format,
            path: self.path@,
            values: node::entries(self.values@),
        }
    }
}

impl MappingModel {
    /// The path of the value of a key.
    pub open spec fn child(self, key: Seq<char>) -> Seq<node::Step> {
        self.path.push(node::Step::Key(key))
    }

    /// Why a key is refused: the mapping has it.
    pub open spec fn refusal(self, key: Seq<char>) -> Option<Seq<char>> {
        if node::keys(self.values).contains(key) {
            Some(
                document::SourceFault::DuplicateKey {
                    format: self.format,
                    path: self.child(key),
                }.text(),
            )
        } else {
            None
        }
    }

    /// The text of a JSON number follows: the first key is the mark of one.
    pub open spec fn number_follows(self, key: Seq<char>) -> bool {
        self.format == SourceFormat::Json && self.values.len() == 0 && key == number_mark()
    }
}

impl StrictMapping {
    #[verifier::type_invariant]
    spec fn valid(self) -> bool {
        &&& node::keys(node::entries(self.values@)).no_duplicates()
        &&& forall|i: int|
            0 <= i < self.values@.len() ==> node::well_keyed((#[trigger] self.values@[i]).1@)
    }

    pub fn new(format: SourceFormat, path: &NodePath) -> (r: StrictMapping)
        ensures
            r@ == (MappingModel { format, path: path@, values: Seq::empty() }),
    {
        let r = StrictMapping { format, path: path.clone(), values: Vec::new() };
        assert(r@.values =~= Seq::<(Seq<char>, node::Tree)>::empty());
        r
    }

    /// Whether the text of a JSON number follows in place of a value.
    pub fn number_follows(&self, key: &str) -> (r: bool)
        ensures
            r == self@.number_follows(key@),
    {
        self.format == SourceFormat::Json && self.values.len() == 0 && text::eq(
            key,
            "$serde_json::private::Number",
        )
    }

    /// Takes a key before its value is read: gives the path of the value, or why the key
    /// is refused.
    pub fn enter_key(&self, key: &str) -> (r: Result<NodePath, String>)
        ensures
            match self@.refusal(key@) {
                None => r matches Ok(path) && path@ == self@.child(key@),
                Some(reason) => r matches Err(e) && e@ == reason,
            },
    {
        let path = self.path.child_key(key);
        proof {
            node::lemma_position(node::entries(self.values@), key@);
        }
        if node::find_key(&self.values, key).is_some() {
            Err(SourceError::DuplicateKey { format: self.format, path }.message())
        } else {
            Ok(path)
        }
    }

    /// Puts the value of a key in.
    pub fn put(self, key: String, value: StrictNode) -> (r: Result<StrictMapping, String>)
        ensures
            match self@.refusal(key@) {
                None => r matches Ok(m) && m@ == (MappingModel {
                    values: self@.values.push((key@, value@)),
                    ..self@
                }),
                Some(reason) => r matches Err(e) && e@ == reason,
            },
    {
        proof {
            use_type_invariant(&self);
            use_type_invariant(&value);
        }
        match self.enter_key(key.as_str()) {
            Err(reason) => {
                return Err(reason);
            },
            Ok(_) => {},
        }
        let StrictMapping { format, path, mut values } = self;
        let ghost before = values@;
        values.push((key, value.node));
        proof {
            assert(node::entries(values@) =~= node::entries(before).push((key@, value@)));
            dotenv::lemma_keys_push(node::entries(before), key@, value@);
        }
        assert forall|i: int| 0 <= i < values@.len() implies node::well_keyed(
            (#[trigger] values@[i]).1@,
        ) by {
            if i < before.len() {
                assert(values@[i] == before[i]);
            }
        }
        Ok(StrictMapping { format, path, values })
    }

    pub fn finish(self) -> (r: StrictNode)
        ensures
            r@ == node::Tree::Mapping(self@.values),
    {
        proof {
            use_type_invariant(&self);
        }
        let node = Node::Mapping(self.values);
        proof {
            node::lemma_view(node);
            let e = node::entries(self.values@);
            assert forall|i: int| 0 <= i < e.len() implies node::well_keyed(#[trigger] e[i].1) by {
                assert(e[i] == (self.values@[i].0@, self.values@[i].1@));
            }
        }
        StrictNode { node }
    }
}

} // verus!
