//! Sync units: a top-level key together with the layout that travels with it.
//!
//! The residual layout holds only what no key owns: line ending, trailing
//! newline, and trailing file comments. A root that is no mapping is one unit
//! covering the whole document including its layout.

use vstd::prelude::*;
use vstd::string::StrSliceExecFns;

use crate::codec::hash;
use crate::codec::json;
use crate::codec::json::{JsonTree, JsonValue};
use crate::codec::json_fields;
use crate::config::SourceFormat;
use crate::envelope::layout_record;
use crate::source::document;
use crate::source::layout;
use crate::source::node;
use crate::source::{DotenvLayout, Layout, Node, Scalar, SourceDocument};
use crate::text;

verus! {

/// The name of the unit that is a whole document.
pub const ROOT_UNIT: &'static str = "$";

/// The record of a scalar.
pub open spec fn scalar_json(s: node::ScalarModel) -> JsonTree {
    match s {
        node::ScalarModel::String(v) => tagged_json("type"@, "string"@, JsonTree::String(v)),
        node::ScalarModel::Integer(v) => tagged_json("type"@, "integer"@, JsonTree::String(v)),
        node::ScalarModel::Float(v) => tagged_json("type"@, "float"@, JsonTree::String(v)),
        node::ScalarModel::Bool(b) => tagged_json("type"@, "bool"@, JsonTree::Bool(b)),
        node::ScalarModel::Null => JsonTree::Object(
            seq![("type"@, JsonTree::String("null"@))],
        ),
        node::ScalarModel::DateTime(v) => tagged_json("type"@, "date_time"@, JsonTree::String(v)),
    }
}

/// A value beside the name of its kind.
pub open spec fn tagged_json(tag: Seq<char>, kind: Seq<char>, value: JsonTree) -> JsonTree {
    JsonTree::Object(seq![(tag, JsonTree::String(kind)), ("value"@, value)])
}

/// The record of a value.
pub open spec fn node_json(t: node::Tree) -> JsonTree
    decreases t,
{
    match t {
        node::Tree::Mapping(e) => tagged_json(
            "node"@,
            "mapping"@,
            JsonTree::Object(
                Seq::new(
                    e.len(),
                    |i: int|
                        if 0 <= i < e.len() {
                            (e[i].0, node_json(e[i].1))
                        } else {
                            arbitrary()
                        },
                ),
            ),
        ),
        node::Tree::Sequence(s) => tagged_json(
            "node"@,
            "sequence"@,
            JsonTree::Array(
                Seq::new(
                    s.len(),
                    |i: int|
                        if 0 <= i < s.len() {
                            node_json(s[i])
                        } else {
                            arbitrary()
                        },
                ),
            ),
        ),
        node::Tree::Scalar(s) => tagged_json("node"@, "scalar"@, scalar_json(s)),
        node::Tree::Tagged(tag, v) => tagged_json(
            "node"@,
            "tagged"@,
            JsonTree::Object(seq![("tag"@, JsonTree::String(tag)), ("value"@, node_json(*v))]),
        ),
    }
}

proof fn lemma_names()
    ensures
        "type"@ != "value"@,
        "node"@ != "value"@,
        "tag"@ != "value"@,
{
    reveal_strlit("type");
    reveal_strlit("value");
    reveal_strlit("node");
    reveal_strlit("tag");
    assert("type"@.len() == 4 && "value"@.len() == 5 && "node"@.len() == 4 && "tag"@.len() == 3);
}

proof fn lemma_tagged(tag: Seq<char>, kind: Seq<char>, value: JsonTree)
    requires
        tag != "value"@,
        json::well_named(value),
        json::decimals(value),
    ensures
        json::well_named(tagged_json(tag, kind, value)),
        json::decimals(tagged_json(tag, kind, value)),
{
    let m = tagged_json(tag, kind, value)->Object_0;
    assert(json::names(m) =~= seq![tag, "value"@]);
    assert(json::names(m).no_duplicates());
    assert forall|i: int| 0 <= i < m.len() implies json::well_named(#[trigger] m[i].1)
        && json::decimals(m[i].1) by {}
}

/// The record of a value holds no name twice, and no number.
proof fn lemma_node_json(t: node::Tree)
    requires
        node::well_keyed(t),
    ensures
        json::well_named(node_json(t)),
        json::decimals(node_json(t)),
    decreases t,
{
    lemma_names();
    match t {
        node::Tree::Mapping(e) => {
            let inner = node_json(t)->Object_0[1].1;
            let m = inner->Object_0;
            assert(json::names(m) =~= node::keys(e));
            assert forall|i: int| 0 <= i < m.len() implies json::well_named(#[trigger] m[i].1)
                && json::decimals(m[i].1) by {
                assert(m[i] == (e[i].0, node_json(e[i].1)));
                assert(node::well_keyed(e[i].1));
                assert(decreases_to!(e => e[i]));
                lemma_node_json(e[i].1);
            }
            lemma_tagged("node"@, "mapping"@, inner);
        },
        node::Tree::Sequence(s) => {
            let inner = node_json(t)->Object_0[1].1;
            let a = inner->Array_0;
            assert forall|i: int| 0 <= i < a.len() implies json::well_named(#[trigger] a[i])
                && json::decimals(a[i]) by {
                assert(a[i] == node_json(s[i]));
                assert(node::well_keyed(t->Sequence_0[i]));
                assert(decreases_to!(s => s[i]));
                lemma_node_json(s[i]);
            }
            lemma_tagged("node"@, "sequence"@, inner);
        },
        node::Tree::Scalar(s) => {
            match s {
                node::ScalarModel::String(v) => {
                    lemma_tagged("type"@, "string"@, JsonTree::String(v));
                },
                node::ScalarModel::Integer(v) => {
                    lemma_tagged("type"@, "integer"@, JsonTree::String(v));
                },
                node::ScalarModel::Float(v) => {
                    lemma_tagged("type"@, "float"@, JsonTree::String(v));
                },
                node::ScalarModel::Bool(b) => {
                    lemma_tagged("type"@, "bool"@, JsonTree::Bool(b));
                },
                node::ScalarModel::DateTime(v) => {
                    lemma_tagged("type"@, "date_time"@, JsonTree::String(v));
                },
                node::ScalarModel::Null => {
                    let m = scalar_json(s)->Object_0;
                    assert(json::names(m) =~= seq!["type"@]);
                    assert forall|i: int| 0 <= i < m.len() implies json::well_named(
                        #[trigger] m[i].1,
                    ) && json::decimals(m[i].1) by {}
                    assert(json::well_named(JsonTree::Object(m)));
                },
            }
            lemma_tagged("node"@, "scalar"@, scalar_json(s));
        },
        node::Tree::Tagged(tag, v) => {
            lemma_node_json(*v);
            let inner = node_json(t)->Object_0[1].1;
            let m = inner->Object_0;
            assert(json::names(m) =~= seq!["tag"@, "value"@]);
            assert(json::names(m).no_duplicates());
            assert forall|i: int| 0 <= i < m.len() implies json::well_named(#[trigger] m[i].1)
                && json::decimals(m[i].1) by {}
            lemma_tagged("node"@, "tagged"@, inner);
        },
    }
}

fn tagged_value(tag: &str, kind: &str, value: JsonValue) -> (r: JsonValue)
    ensures
        r@ == tagged_json(tag@, kind@, value@),
{
    let ghost v = value@;
    let mut out: Vec<(String, JsonValue)> = Vec::new();
    out.push(json_fields::member_of(tag, JsonValue::String(kind.to_owned())));
    out.push(json_fields::member_of("value", value));
    let r = JsonValue::Object(out);
    proof {
        json::lemma_view(r);
        assert(json::members(out@) =~= tagged_json(tag@, kind@, v)->Object_0);
    }
    r
}

fn scalar_value(s: &Scalar) -> (r: JsonValue)
    ensures
        r@ == scalar_json(s@),
{
    match s {
        Scalar::String(v) => tagged_value("type", "string", JsonValue::String(v.clone())),
        Scalar::Integer(v) => tagged_value("type", "integer", JsonValue::String(v.clone())),
        Scalar::Float(v) => tagged_value("type", "float", JsonValue::String(v.clone())),
        Scalar::Bool(b) => tagged_value("type", "bool", JsonValue::Bool(*b)),
        Scalar::Null => {
            let mut out: Vec<(String, JsonValue)> = Vec::new();
            out.push(json_fields::member_of("type", JsonValue::String("null".to_owned())));
            let r = JsonValue::Object(out);
            proof {
                json::lemma_view(r);
                assert(json::members(out@) =~= scalar_json(s@)->Object_0);
            }
            r
        },
        Scalar::DateTime(v) => tagged_value("type", "date_time", JsonValue::String(v.clone())),
    }
}

fn node_value(n: &Node) -> (r: JsonValue)
    ensures
        r@ == node_json(n@),
    decreases n,
{
    proof {
        node::lemma_view(*n);
    }
    match n {
        Node::Mapping(v) => {
            let ghost e = node::entries(v@);
            let mut out: Vec<(String, JsonValue)> = Vec::new();
            let mut i: usize = 0;
            while i < v.len()
                invariant
                    decreases_to!(n => v@),
                    e == node::entries(v@),
                    i <= v.len(),
                    out@.len() == i,
                    forall|j: int|
                        0 <= j < i ==> (#[trigger] out@[j]).0@ == e[j].0 && out@[j].1@ == node_json(
                            e[j].1,
                        ),
                decreases v.len() - i,
            {
                assert(decreases_to!(v@ => v@[i as int]));
                assert(e[i as int] == (v@[i as int].0@, v@[i as int].1@));
                out.push((v[i].0.clone(), node_value(&v[i].1)));
                i = i + 1;
            }
            let inner = JsonValue::Object(out);
            proof {
                json::lemma_view(inner);
                assert(json::members(out@) =~= node_json(n@)->Object_0[1].1->Object_0);
            }
            tagged_value("node", "mapping", inner)
        },
        Node::Sequence(v) => {
            let ghost s = node::trees(v@);
            let mut out: Vec<JsonValue> = Vec::new();
            let mut i: usize = 0;
            while i < v.len()
                invariant
                    decreases_to!(n => v@),
                    s == node::trees(v@),
                    i <= v.len(),
                    out@.len() == i,
                    forall|j: int| 0 <= j < i ==> (#[trigger] out@[j])@ == node_json(s[j]),
                decreases v.len() - i,
            {
                assert(decreases_to!(v@ => v@[i as int]));
                assert(s[i as int] == v@[i as int]@);
                out.push(node_value(&v[i]));
                i = i + 1;
            }
            let inner = JsonValue::Array(out);
            proof {
                json::lemma_view(inner);
                assert(json::items(out@) =~= node_json(n@)->Object_0[1].1->Array_0);
            }
            tagged_value("node", "sequence", inner)
        },
        Node::Scalar(s) => tagged_value("node", "scalar", scalar_value(s)),
        Node::Tagged { tag, value } => {
            let mut out: Vec<(String, JsonValue)> = Vec::new();
            out.push(json_fields::member_of("tag", JsonValue::String(tag.clone())));
            out.push(json_fields::member_of("value", node_value(value)));
            let inner = JsonValue::Object(out);
            proof {
                json::lemma_view(inner);
                assert(json::members(out@) =~= node_json(n@)->Object_0[1].1->Object_0);
            }
            tagged_value("node", "tagged", inner)
        },
    }
}

/// The text of a JSON record.
fn record_text(value: &JsonValue) -> (r: String)
    requires
        json::well_named(value@),
        json::decimals(value@),
    ensures
        r@ == json::json_written(value@),
{
    match json::write(value) {
        Ok(s) => s,
        Err(_) => {
            assert(false);
            String::new()
        },
    }
}

/// One side's view of a sync unit.
pub struct UnitModel {
    pub node: node::Tree,
    pub entry: Option<layout::DotenvModel>,
    pub layout: Option<layout::LayoutModel>,
}

pub struct UnitView<'a> {
    node: &'a Node,
    entry: Option<&'a DotenvLayout>,
    layout: Option<&'a Layout>,
}

pub open spec fn view_layout(l: Option<&Layout>) -> Option<layout::LayoutModel> {
    match l {
        Some(layout) => Some(layout@),
        None => None,
    }
}

impl<'a> View for UnitView<'a> {
    type V = UnitModel;

    closed spec fn view(&self) -> UnitModel {
        UnitModel {
            node: self.node@,
            entry: layout::view_assignment(self.entry),
            layout: view_layout(self.layout),
        }
    }
}

impl<'a> UnitView<'a> {
    pub fn node(&self) -> (r: &'a Node)
        ensures
            r@ == self@.node,
    {
        self.node
    }

    pub fn same(&self, other: &UnitView<'a>) -> (r: bool)
        ensures
            r == (self@ == other@),
    {
        if !self.node.same(other.node) {
            return false;
        }
        let entries: bool = match (self.entry, other.entry) {
            (Some(a), Some(b)) => a.same(b),
            (None, None) => true,
            _ => false,
        };
        let layouts: bool = match (self.layout, other.layout) {
            (Some(a), Some(b)) => a.same(b),
            (None, None) => true,
            _ => false,
        };
        entries && layouts
    }

    #[verifier::type_invariant]
    spec fn valid(self) -> bool {
        node::well_keyed(self.node@)
    }
}

/// The unit of a key, where the document has one.
pub open spec fn unit_at(d: document::DocumentModel, key: Seq<char>) -> Option<UnitModel> {
    match d.root {
        node::Tree::Mapping(e) => match node::lookup(e, key) {
            Some(node) => Some(
                UnitModel {
                    node,
                    entry: layout::assignment_of(d.layout.dotenv, key),
                    layout: None,
                },
            ),
            None => None,
        },
        _ => if key == "$"@ {
            Some(UnitModel { node: d.root, entry: None, layout: Some(d.layout) })
        } else {
            None
        },
    }
}

pub open spec fn view_unit(u: Option<UnitView>) -> Option<UnitModel> {
    match u {
        Some(unit) => Some(unit@),
        None => None,
    }
}

/// The view of one sync unit of a document, when present.
pub fn unit_view<'a>(document: &'a SourceDocument, key: &str) -> (r: Option<UnitView<'a>>)
    ensures
        view_unit(r) == unit_at(document@, key@),
{
    let root = document.root();
    proof {
        node::lemma_view(*root);
    }
    match root {
        Node::Mapping(v) => match node::find_key(v, key) {
            Some(i) => {
                assert(node::entries(v@)[i as int] == (v@[i as int].0@, v@[i as int].1@));
                assert(node::well_keyed(node::entries(v@)[i as int].1));
                Some(
                    UnitView {
                        node: &v[i].1,
                        entry: layout::find_assignment(document.layout().dotenv(), key),
                        layout: None,
                    },
                )
            },
            None => None,
        },
        _ => if text::eq(key, ROOT_UNIT) {
            Some(UnitView { node: root, entry: None, layout: Some(document.layout()) })
        } else {
            None
        },
    }
}

/// The names of the sync units of a document.
pub open spec fn unit_names(d: document::DocumentModel) -> Seq<Seq<char>> {
    match d.root {
        node::Tree::Mapping(e) => node::keys(e),
        _ => seq!["$"@],
    }
}

pub fn list_units(document: &SourceDocument) -> (r: Vec<String>)
    ensures
        text::texts(r@) == unit_names(document@),
{
    let root = document.root();
    proof {
        node::lemma_view(*root);
    }
    match root {
        Node::Mapping(v) => {
            let mut out: Vec<String> = Vec::new();
            let mut i: usize = 0;
            while i < v.len()
                invariant
                    i <= v.len(),
                    out@.len() == i,
                    forall|j: int| 0 <= j < i ==> (#[trigger] out@[j])@ == v@[j].0@,
                decreases v.len() - i,
            {
                out.push(v[i].0.clone());
                i = i + 1;
            }
            assert(text::texts(out@) =~= node::keys(node::entries(v@)));
            out
        },
        _ => {
            let mut out: Vec<String> = Vec::new();
            out.push(ROOT_UNIT.to_owned());
            assert(text::texts(out@) =~= seq!["$"@]);
            out
        },
    }
}

/// The layout no key owns: line ending, trailing newline, and trailing file
/// comments. For formats other than dotenv the whole layout is residual.
pub open spec fn residual(d: document::DocumentModel) -> layout::LayoutModel {
    if d.format == SourceFormat::Dotenv {
        layout::LayoutModel {
            line_ending: d.layout.line_ending,
            trailing_newline: d.layout.trailing_newline,
            preamble_comments: d.layout.preamble_comments,
            dotenv: Seq::empty(),
            template: None,
        }
    } else {
        d.layout
    }
}

pub fn residual_layout(document: &SourceDocument) -> (r: Layout)
    ensures
        r@ == residual(document@),
{
    let layout = document.layout();
    if document.format() == SourceFormat::Dotenv {
        let mut r = Layout::new(layout.line_ending(), layout.trailing_newline());
        r.set_preamble_comments(text::clone_texts(layout.preamble_comments()));
        r
    } else {
        layout.clone()
    }
}

/// The bytes of a JSON record.
pub open spec fn record_bytes(t: JsonTree) -> Seq<u8> {
    vstd::utf8::encode_utf8(json::json_written(t))
}

/// What is hashed of a unit.
pub open spec fn unit_bytes(u: UnitModel) -> Seq<u8> {
    let node = record_bytes(node_json(u.node)).push(0);
    let entry = match u.entry {
        Some(entry) => record_bytes(layout_record::assignment_json(entry)),
        None => Seq::empty(),
    };
    let layout = match u.layout {
        Some(layout) => record_bytes(layout_record::layout_json(layout)),
        None => Seq::empty(),
    };
    (node + entry).push(0) + layout
}

pub fn bytes_of_unit(u: &UnitView) -> (r: Vec<u8>)
    ensures
        r@ == unit_bytes(u@),
{
    proof {
        use_type_invariant(u);
        lemma_node_json(u.node@);
    }
    let mut out = record_text(&node_value(u.node)).as_str().as_bytes_vec();
    out.push(0);
    match u.entry {
        Some(entry) => {
            hash::append_bytes(&mut out, bytes_of_entry(entry).as_slice());
        },
        None => {},
    }
    out.push(0);
    match u.layout {
        Some(layout) => {
            hash::append_bytes(&mut out, bytes_of_layout(layout).as_slice());
        },
        None => {},
    }
    assert(out@ =~= unit_bytes(u@));
    out
}

fn bytes_of_entry(entry: &DotenvLayout) -> (r: Vec<u8>)
    ensures
        r@ == record_bytes(layout_record::assignment_json(entry@)),
{
    let value = layout_record::put_assignment(entry);
    proof {
        layout_record::lemma_assignment(entry@);
        json::lemma_plain(value@, 98);
    }
    record_text(&value).as_str().as_bytes_vec()
}

pub fn bytes_of_layout(layout: &Layout) -> (r: Vec<u8>)
    ensures
        r@ == record_bytes(layout_record::layout_json(layout@)),
{
    let value = layout_record::record_of(layout);
    proof {
        layout::lemma_indexed_layout(*layout);
        layout_record::law_layout_record_is_read_back(layout@);
        json::lemma_plain(value@, 100);
    }
    record_text(&value).as_str().as_bytes_vec()
}

proof fn lemma_tagged_apart(
    tag: Seq<char>,
    kind: Seq<char>,
    value: JsonTree,
    other: Seq<char>,
    second: JsonTree,
)
    requires
        tagged_json(tag, kind, value) == tagged_json(tag, other, second),
    ensures
        kind == other,
        value == second,
{
    let a = seq![(tag, JsonTree::String(kind)), ("value"@, value)];
    let b = seq![(tag, JsonTree::String(other)), ("value"@, second)];
    assert(a == b);
    assert(a[0] == b[0]);
    assert(a[1] == b[1]);
}

proof fn lemma_kinds_apart()
    ensures
        "mapping"@ != "sequence"@ && "mapping"@ != "scalar"@ && "mapping"@ != "tagged"@,
        "sequence"@ != "scalar"@ && "sequence"@ != "tagged"@ && "scalar"@ != "tagged"@,
        "string"@ != "integer"@ && "string"@ != "float"@ && "string"@ != "bool"@ && "string"@
            != "date_time"@,
        "integer"@ != "float"@ && "integer"@ != "bool"@ && "integer"@ != "date_time"@,
        "float"@ != "bool"@ && "float"@ != "date_time"@ && "bool"@ != "date_time"@,
{
    reveal_strlit("mapping");
    reveal_strlit("sequence");
    reveal_strlit("scalar");
    reveal_strlit("tagged");
    reveal_strlit("string");
    reveal_strlit("integer");
    reveal_strlit("float");
    reveal_strlit("bool");
    reveal_strlit("date_time");
    assert("mapping"@[0] == 'm' && "sequence"@[0] == 's' && "scalar"@[1] == 'c');
    assert("sequence"@[1] == 'e' && "scalar"@[0] == 's' && "tagged"@[0] == 't');
    assert("string"@[0] == 's' && "integer"@[0] == 'i' && "float"@[0] == 'f');
    assert("bool"@[0] == 'b' && "date_time"@[0] == 'd');
}

proof fn lemma_scalars_apart(a: node::ScalarModel, b: node::ScalarModel)
    requires
        scalar_json(a) == scalar_json(b),
    ensures
        a == b,
{
    lemma_kinds_apart();
    let (x, y) = (scalar_json(a)->Object_0, scalar_json(b)->Object_0);
    assert(x.len() == y.len());
    assert(x[0] == y[0]);
    if x.len() == 2 {
        assert(x[1] == y[1]);
    }
}

/// Law: the record of a value tells it from every other: two values with one record are the
/// same, in their kinds, keys, tags and scalars.
pub proof fn law_records_tell_values_apart(a: node::Tree, b: node::Tree)
    requires
        node_json(a) == node_json(b),
    ensures
        a == b,
    decreases a,
{
    lemma_kinds_apart();
    let (x, y) = (node_json(a)->Object_0, node_json(b)->Object_0);
    assert(x[0] == y[0]);
    assert(x[1] == y[1]);
    match (a, b) {
        (node::Tree::Mapping(e), node::Tree::Mapping(f)) => {
            let (p, q) = (x[1].1->Object_0, y[1].1->Object_0);
            assert(p.len() == e.len() && q.len() == f.len());
            assert forall|i: int| 0 <= i < e.len() implies e[i] == f[i] by {
                assert(p[i] == q[i]);
                assert(p[i] == (e[i].0, node_json(e[i].1)));
                assert(q[i] == (f[i].0, node_json(f[i].1)));
                assert(decreases_to!(e => e[i]));
                law_records_tell_values_apart(e[i].1, f[i].1);
            }
            assert(e =~= f);
        },
        (node::Tree::Sequence(s), node::Tree::Sequence(t)) => {
            let (p, q) = (x[1].1->Array_0, y[1].1->Array_0);
            assert(p.len() == s.len() && q.len() == t.len());
            assert forall|i: int| 0 <= i < s.len() implies s[i] == t[i] by {
                assert(p[i] == q[i]);
                assert(p[i] == node_json(s[i]));
                assert(q[i] == node_json(t[i]));
                law_records_tell_values_apart(s[i], t[i]);
            }
            assert(s =~= t);
        },
        (node::Tree::Scalar(s), node::Tree::Scalar(t)) => {
            lemma_scalars_apart(s, t);
        },
        (node::Tree::Tagged(tag, v), node::Tree::Tagged(other, w)) => {
            let (p, q) = (x[1].1->Object_0, y[1].1->Object_0);
            assert(p[0] == q[0]);
            assert(p[1] == q[1]);
            law_records_tell_values_apart(*v, *w);
        },
        _ => {},
    }
}

/// The writer of the records tells two records apart, and gives each some bytes, none of them
/// zero.
pub open spec fn written_apart(s: JsonTree, t: JsonTree) -> bool {
    &&& record_bytes(s) == record_bytes(t) ==> s == t
    &&& record_bytes(s).len() > 0 && !record_bytes(s).contains(0)
    &&& record_bytes(t).len() > 0 && !record_bytes(t).contains(0)
}

/// The record of a line, or of an empty one where there is none.
pub open spec fn line_json(x: Option<layout::DotenvModel>) -> JsonTree {
    match x {
        Some(entry) => layout_record::assignment_json(entry),
        None => JsonTree::Null,
    }
}

/// The record of a layout, or an empty one where there is none.
pub open spec fn whole_json(x: Option<layout::LayoutModel>) -> JsonTree {
    match x {
        Some(layout) => layout_record::layout_json(layout),
        None => JsonTree::Null,
    }
}

proof fn lemma_first_zero(a: Seq<u8>, b: Seq<u8>, p: Seq<u8>, q: Seq<u8>)
    requires
        !a.contains(0),
        !b.contains(0),
        a.push(0) + p == b.push(0) + q,
    ensures
        a == b,
        p == q,
{
    let (x, y) = (a.push(0) + p, b.push(0) + q);
    if a.len() < b.len() {
        assert(x[a.len() as int] == 0);
        assert(y[a.len() as int] == b[a.len() as int]);
        assert(b.contains(b[a.len() as int]));
    }
    if b.len() < a.len() {
        assert(y[b.len() as int] == 0);
        assert(x[b.len() as int] == a[b.len() as int]);
        assert(a.contains(a[b.len() as int]));
    }
    assert(x.take(a.len() as int) =~= a);
    assert(y.take(b.len() as int) =~= b);
    assert(x.skip(a.len() as int + 1) =~= p);
    assert(y.skip(b.len() as int + 1) =~= q);
}

/// Law: what is hashed of a unit tells it from every other: its value, the line that it is
/// written with, and the layout of a whole document. The writer of the records must tell
/// values apart.
pub proof fn law_hashed_bytes_tell_units_apart(u: UnitModel, v: UnitModel)
    requires
        written_apart(node_json(u.node), node_json(v.node)),
        written_apart(line_json(u.entry), line_json(v.entry)),
        written_apart(whole_json(u.layout), whole_json(v.layout)),
        unit_bytes(u) == unit_bytes(v),
        u.layout matches Some(l) ==> layout::indexed_layout(l),
        v.layout matches Some(l) ==> layout::indexed_layout(l),
    ensures
        u == v,
{
    let part = |x: Option<layout::DotenvModel>|
        match x {
            Some(entry) => record_bytes(layout_record::assignment_json(entry)),
            None => Seq::<u8>::empty(),
        };
    let rest = |x: Option<layout::LayoutModel>|
        match x {
            Some(layout) => record_bytes(layout_record::layout_json(layout)),
            None => Seq::<u8>::empty(),
        };
    let (a, b) = (record_bytes(node_json(u.node)), record_bytes(node_json(v.node)));
    let (p, q) = (part(u.entry), part(v.entry));
    assert(!p.contains(0) && !q.contains(0));
    assert(unit_bytes(u) =~= a.push(0) + (p.push(0) + rest(u.layout)));
    assert(unit_bytes(v) =~= b.push(0) + (q.push(0) + rest(v.layout)));
    lemma_first_zero(a, b, p.push(0) + rest(u.layout), q.push(0) + rest(v.layout));
    lemma_first_zero(p, q, rest(u.layout), rest(v.layout));
    law_records_tell_values_apart(u.node, v.node);
    match (u.entry, v.entry) {
        (Some(x), Some(y)) => {
            layout_record::lemma_assignment(x);
            layout_record::lemma_assignment(y);
        },
        (Some(x), None) => {
            assert(record_bytes(layout_record::assignment_json(x)).len() > 0);
        },
        (None, Some(y)) => {
            assert(record_bytes(layout_record::assignment_json(y)).len() > 0);
        },
        (None, None) => {},
    }
    match (u.layout, v.layout) {
        (Some(x), Some(y)) => {
            layout_record::law_layout_record_is_read_back(x);
            layout_record::law_layout_record_is_read_back(y);
        },
        (Some(x), None) => {
            assert(record_bytes(layout_record::layout_json(x)).len() > 0);
        },
        (None, Some(y)) => {
            assert(record_bytes(layout_record::layout_json(y)).len() > 0);
        },
        (None, None) => {},
    }
}

} // verus!
