//! The JSON format.

use vstd::prelude::*;
use vstd::string::StrSliceExecFns;

use crate::codec::json;
use crate::codec::json::JsonTree;
use crate::config::SourceFormat;
use crate::source::document;
use crate::source::document::{SourceDocument, SourceError};
use crate::source::layout;
use crate::source::node;
use crate::source::strict;
use crate::source::strict::StrictNode;
use crate::source::{Layout, LineEnding, Node, Scalar};
use crate::text;

verus! {

pub open spec fn generate_fault(reason: Seq<char>) -> document::SourceFault {
    document::SourceFault::Generate { format: SourceFormat::Json, reason }
}

/// What a deserializer made of a text: a raw value, or the reason why there is none.
pub open spec fn view_raw(r: Result<StrictNode, String>) -> Result<node::Tree, Seq<char>> {
    match r {
        Ok(raw) => Ok(raw@),
        Err(reason) => Err(reason@),
    }
}

/// The layout of a document that is written afresh.
pub open spec fn plain_layout(input: Seq<char>) -> layout::LayoutModel {
    layout::LayoutModel {
        line_ending: LineEnding::of(input),
        trailing_newline: input.len() > 0 && input.last() == '\n',
        preamble_comments: Seq::empty(),
        dotenv: Seq::empty(),
        template: None,
    }
}

/// The document that a JSON text holds, given what the deserializer made of it.
pub open spec fn parsed(input: Seq<char>, raw: Result<node::Tree, Seq<char>>) -> Result<
    document::DocumentModel,
    document::SourceFault,
> {
    match raw {
        Err(reason) => Err(strict::parse_fault(SourceFormat::Json, reason)),
        Ok(root) => Ok(
            document::DocumentModel {
                format: SourceFormat::Json,
                root,
                layout: plain_layout(input),
            },
        ),
    }
}

pub fn ends_with_newline(input: &str) -> (r: bool)
    ensures
        r == (input@.len() > 0 && input@.last() == '\n'),
{
    let chars = text::chars_of(input);
    chars.len() > 0 && chars[chars.len() - 1] == '\n'
}

/// Reads a JSON text, given what the deserializer made of it.
pub fn parse(input: &str, raw: Result<StrictNode, String>) -> (r: Result<SourceDocument, SourceError>)
    ensures
        document::view_document(r) == parsed(input@, view_raw(raw)),
{
    match raw {
        Err(reason) => Err(SourceError::Parse { format: SourceFormat::Json, reason }),
        Ok(raw) => Ok(
            SourceDocument::new(
                SourceFormat::Json,
                raw.into_node(),
                Layout::new(LineEnding::detect(input), ends_with_newline(input)),
            ),
        ),
    }
}

/// The JSON value of a document value, or the first reason, in document order, why
/// it has none: a number that JSON does not take, or a value that it lacks.
pub open spec fn json_value(t: node::Tree) -> Result<JsonTree, Seq<char>>
    decreases t, 0nat,
{
    match t {
        node::Tree::Mapping(e) => match json_members(e, e.len()) {
            Ok(list) => Ok(JsonTree::Object(list)),
            Err(reason) => Err(reason),
        },
        node::Tree::Sequence(s) => match json_items(s, s.len()) {
            Ok(list) => Ok(JsonTree::Array(list)),
            Err(reason) => Err(reason),
        },
        node::Tree::Scalar(s) => match s {
            node::ScalarModel::String(v) => Ok(JsonTree::String(v)),
            node::ScalarModel::Integer(v) => number_value(v),
            node::ScalarModel::Float(v) => number_value(v),
            node::ScalarModel::Bool(b) => Ok(JsonTree::Bool(b)),
            node::ScalarModel::Null => Ok(JsonTree::Null),
            node::ScalarModel::DateTime(_) => Err("unsupported JSON node type"@),
        },
        node::Tree::Tagged(_, _) => Err("unsupported JSON node type"@),
    }
}

pub open spec fn number_value(s: Seq<char>) -> Result<JsonTree, Seq<char>> {
    match json::json_number(s) {
        Ok(number) => Ok(JsonTree::Number(number)),
        Err(reason) => Err(reason),
    }
}

pub open spec fn json_items(s: Seq<node::Tree>, n: nat) -> Result<Seq<JsonTree>, Seq<char>>
    decreases s, n,
{
    if n == 0 || n > s.len() {
        Ok(Seq::empty())
    } else {
        match json_items(s, (n - 1) as nat) {
            Err(reason) => Err(reason),
            Ok(head) => match json_value(s[n - 1]) {
                Err(reason) => Err(reason),
                Ok(item) => Ok(head.push(item)),
            },
        }
    }
}

pub open spec fn json_members(e: Seq<(Seq<char>, node::Tree)>, n: nat) -> Result<
    Seq<(Seq<char>, JsonTree)>,
    Seq<char>,
>
    decreases e, n,
{
    if n == 0 || n > e.len() {
        Ok(Seq::empty())
    } else {
        match json_members(e, (n - 1) as nat) {
            Err(reason) => Err(reason),
            Ok(head) => match json_value(e[n - 1].1) {
                Err(reason) => Err(reason),
                Ok(item) => Ok(head.push((e[n - 1].0, item))),
            },
        }
    }
}

proof fn lemma_items_fail(s: Seq<node::Tree>, n: nat, k: nat)
    requires
        n <= k <= s.len(),
        json_items(s, n) is Err,
    ensures
        json_items(s, k) == json_items(s, n),
    decreases k,
{
    if n < k {
        lemma_items_fail(s, n, (k - 1) as nat);
    }
}

proof fn lemma_members_fail(e: Seq<(Seq<char>, node::Tree)>, n: nat, k: nat)
    requires
        n <= k <= e.len(),
        json_members(e, n) is Err,
    ensures
        json_members(e, k) == json_members(e, n),
    decreases k,
{
    if n < k {
        lemma_members_fail(e, n, (k - 1) as nat);
    }
}

fn to_value(value: &Node) -> (r: Result<serde_json::Value, String>)
    requires
        node::well_keyed(value@),
    ensures
        match r {
            Ok(v) => json_value(value@) == Ok::<JsonTree, Seq<char>>(json::json_tree(v)),
            Err(reason) => json_value(value@) == Err::<JsonTree, Seq<char>>(reason@),
        },
    decreases value,
{
    proof {
        node::lemma_view(*value);
    }
    match value {
        Node::Mapping(v) => {
            let ghost e = node::entries(v@);
            let mut out: Vec<(String, serde_json::Value)> = Vec::new();
            let mut i: usize = 0;
            assert(json::outside_members(out@) =~= Seq::<(Seq<char>, JsonTree)>::empty());
            while i < v.len()
                invariant
                    decreases_to!(value => v@),
                    e == node::entries(v@),
                    value@ == node::Tree::Mapping(e),
                    node::well_keyed(value@),
                    i <= v.len(),
                    out@.len() == i,
                    json_members(e, i as nat) == Ok::<Seq<(Seq<char>, JsonTree)>, Seq<char>>(
                        json::outside_members(out@),
                    ),
                    forall|j: int| 0 <= j < i ==> (#[trigger] out@[j]).0@ == e[j].0,
                decreases v.len() - i,
            {
                assert(decreases_to!(v@ => v@[i as int]));
                assert(e[i as int] == (v@[i as int].0@, v@[i as int].1@));
                assert(node::well_keyed(e[i as int].1));
                match to_value(&v[i].1) {
                    Ok(item) => {
                        let ghost before = out@;
                        out.push((v[i].0.clone(), item));
                        assert(json::outside_members(out@) =~= json::outside_members(before).push(
                            (e[i as int].0, json::json_tree(item)),
                        ));
                    },
                    Err(reason) => {
                        proof {
                            lemma_members_fail(e, (i + 1) as nat, e.len());
                        }
                        return Err(reason);
                    },
                }
                i = i + 1;
            }
            assert(json::names(json::outside_members(out@)) =~= node::keys(e));
            Ok(json::json_build(json::JsonParts::Object(out)))
        },
        Node::Sequence(v) => {
            let ghost s = node::trees(v@);
            let mut out: Vec<serde_json::Value> = Vec::new();
            let mut i: usize = 0;
            assert(json::outside_items(out@) =~= Seq::<JsonTree>::empty());
            while i < v.len()
                invariant
                    decreases_to!(value => v@),
                    s == node::trees(v@),
                    value@ == node::Tree::Sequence(s),
                    node::well_keyed(value@),
                    i <= v.len(),
                    json_items(s, i as nat) == Ok::<Seq<JsonTree>, Seq<char>>(
                        json::outside_items(out@),
                    ),
                decreases v.len() - i,
            {
                assert(decreases_to!(v@ => v@[i as int]));
                assert(s[i as int] == v@[i as int]@);
                match to_value(&v[i]) {
                    Ok(item) => {
                        let ghost before = out@;
                        out.push(item);
                        assert(json::outside_items(out@) =~= json::outside_items(before).push(
                            json::json_tree(item),
                        ));
                    },
                    Err(reason) => {
                        proof {
                            lemma_items_fail(s, (i + 1) as nat, s.len());
                        }
                        return Err(reason);
                    },
                }
                i = i + 1;
            }
            Ok(json::json_build(json::JsonParts::Array(out)))
        },
        Node::Scalar(scalar) => match scalar {
            Scalar::String(s) => Ok(json::json_build(json::JsonParts::String(s.clone()))),
            Scalar::Integer(s) => json::parse_number(s.as_str()),
            Scalar::Float(s) => json::parse_number(s.as_str()),
            Scalar::Bool(b) => Ok(json::json_build(json::JsonParts::Bool(*b))),
            Scalar::Null => Ok(json::json_build(json::JsonParts::Null)),
            Scalar::DateTime(_) => Err("unsupported JSON node type".to_owned()),
        },
        Node::Tagged { tag: _, value: _ } => Err("unsupported JSON node type".to_owned()),
    }
}

/// The bytes of a document.
pub open spec fn generated(d: document::DocumentModel) -> Result<Seq<u8>, document::SourceFault> {
    match json_value(d.root) {
        Err(reason) => Err(generate_fault(reason)),
        Ok(value) => {
            let body = json::json_pretty(value);
            let whole = if d.layout.trailing_newline {
                body + seq!['\n']
            } else {
                body
            };
            Ok(vstd::utf8::encode_utf8(d.layout.line_ending.on(whole)))
        },
    }
}

/// Writes a document as indented JSON.
pub fn generate(document: &SourceDocument) -> (r: Result<Vec<u8>, SourceError>)
    ensures
        document::view_bytes(r) == generated(document@),
{
    match to_value(document.root()) {
        Err(reason) => Err(SourceError::Generate { format: SourceFormat::Json, reason }),
        Ok(value) => {
            let mut whole = json::json_write_pretty(&value);
            if document.layout().trailing_newline() {
                let ghost body = whole@;
                whole.push('\n');
                assert(whole@ =~= body + seq!['\n']);
            }
            let applied = document.layout().line_ending().apply(whole.as_str());
            Ok(applied.as_str().as_bytes_vec())
        },
    }
}

proof fn lemma_items_are_kept(s: Seq<node::Tree>, n: nat)
    requires
        n <= s.len(),
        json_items(s, n) is Ok,
    ensures
        json_items(s, n)->Ok_0.len() == n,
        forall|i: int|
            0 <= i < n ==> json_value(s[i]) == Ok::<JsonTree, Seq<char>>(
                #[trigger] json_items(s, n)->Ok_0[i],
            ),
    decreases n,
{
    if n > 0 {
        lemma_items_are_kept(s, (n - 1) as nat);
        let head = json_items(s, (n - 1) as nat)->Ok_0;
        let all = json_items(s, n)->Ok_0;
        assert forall|i: int| 0 <= i < n implies json_value(s[i]) == Ok::<JsonTree, Seq<char>>(
            #[trigger] all[i],
        ) by {
            if i < n - 1 {
                assert(all[i] == head[i]);
            }
        }
    }
}

proof fn lemma_members_are_kept(e: Seq<(Seq<char>, node::Tree)>, n: nat)
    requires
        n <= e.len(),
        json_members(e, n) is Ok,
    ensures
        json_members(e, n)->Ok_0.len() == n,
        forall|i: int|
            0 <= i < n ==> (#[trigger] json_members(e, n)->Ok_0[i]).0 == e[i].0 && json_value(
                e[i].1,
            ) == Ok::<JsonTree, Seq<char>>(json_members(e, n)->Ok_0[i].1),
    decreases n,
{
    if n > 0 {
        lemma_members_are_kept(e, (n - 1) as nat);
        let head = json_members(e, (n - 1) as nat)->Ok_0;
        let all = json_members(e, n)->Ok_0;
        assert forall|i: int| 0 <= i < n implies (#[trigger] all[i]).0 == e[i].0 && json_value(
            e[i].1,
        ) == Ok::<JsonTree, Seq<char>>(all[i].1) by {
            if i < n - 1 {
                assert(all[i] == head[i]);
            }
        }
    }
}

/// Law: the JSON value of a document value has every member under its key and every item, in
/// their order, and each scalar as what it is; only what JSON lacks has no value.
pub proof fn law_json_keeps_every_value(t: node::Tree)
    ensures
        match (t, json_value(t)) {
            (node::Tree::Mapping(e), Ok(j)) => j matches JsonTree::Object(list) && list.len()
                == e.len() && forall|i: int|
                0 <= i < e.len() ==> (#[trigger] list[i]).0 == e[i].0 && json_value(e[i].1)
                    == Ok::<JsonTree, Seq<char>>(list[i].1),
            (node::Tree::Sequence(s), Ok(j)) => j matches JsonTree::Array(list) && list.len()
                == s.len() && forall|i: int|
                0 <= i < s.len() ==> json_value(s[i]) == Ok::<JsonTree, Seq<char>>(
                    #[trigger] list[i],
                ),
            (node::Tree::Scalar(node::ScalarModel::String(v)), r) => r == Ok::<
                JsonTree,
                Seq<char>,
            >(JsonTree::String(v)),
            (node::Tree::Scalar(node::ScalarModel::Bool(b)), r) => r == Ok::<JsonTree, Seq<char>>(
                JsonTree::Bool(b),
            ),
            (node::Tree::Scalar(node::ScalarModel::Null), r) => r == Ok::<JsonTree, Seq<char>>(
                JsonTree::Null,
            ),
            (node::Tree::Scalar(node::ScalarModel::DateTime(_)), r) => r is Err,
            (node::Tree::Tagged(_, _), r) => r is Err,
            (node::Tree::Scalar(_), Ok(j)) => j is Number,
            (_, Err(_)) => true,
        },
{
    match t {
        node::Tree::Mapping(e) => {
            if json_members(e, e.len()) is Ok {
                lemma_members_are_kept(e, e.len());
            }
        },
        node::Tree::Sequence(s) => {
            if json_items(s, s.len()) is Ok {
                lemma_items_are_kept(s, s.len());
            }
        },
        _ => {},
    }
}

} // verus!
