//! The YAML format.
//!
//! A document keeps its text as a template in which tokens stand for the scalars;
//! writing puts the scalars back in.

use vstd::prelude::*;
use vstd::string::StrSliceExecFns;

use crate::codec::integer;
use crate::codec::yaml;
use crate::codec::yaml::YamlTree;
use crate::codec::yaml_syntax;
use crate::codec::yaml_syntax::{SyntaxNode, SyntaxTree};
use crate::config::SourceFormat;
use crate::segment;
use crate::source::document;
use crate::source::document::{SourceDocument, SourceError};
use crate::source::json;
use crate::source::layout;
use crate::source::node;
use crate::source::strict;
use crate::source::strict::StrictNode;
use crate::source::{Layout, LineEnding, Node, NodePath, Placeholder, Scalar, Template};
use crate::text;

verus! {

pub open spec fn parse_fault(reason: Seq<char>) -> document::SourceFault {
    document::SourceFault::Parse { format: SourceFormat::Yaml, reason }
}

pub open spec fn generate_fault(reason: Seq<char>) -> document::SourceFault {
    document::SourceFault::Generate { format: SourceFormat::Yaml, reason }
}

fn parse_error(reason: &str) -> (r: SourceError)
    ensures
        r@ == parse_fault(reason@),
{
    SourceError::Parse { format: SourceFormat::Yaml, reason: reason.to_owned() }
}

/// A tree without its tags.
pub open spec fn stripped(t: node::Tree) -> node::Tree
    decreases t,
{
    match t {
        node::Tree::Mapping(e) => node::Tree::Mapping(
            Seq::new(
                e.len(),
                |i: int|
                    if 0 <= i < e.len() {
                        (e[i].0, stripped(e[i].1))
                    } else {
                        arbitrary()
                    },
            ),
        ),
        node::Tree::Sequence(s) => node::Tree::Sequence(
            Seq::new(
                s.len(),
                |i: int|
                    if 0 <= i < s.len() {
                        stripped(s[i])
                    } else {
                        arbitrary()
                    },
            ),
        ),
        node::Tree::Tagged(_, v) => stripped(*v),
        node::Tree::Scalar(_) => t,
    }
}

/// Stripping tags leaves the keys of every mapping distinct, and no tag.
pub proof fn lemma_stripped(t: node::Tree)
    ensures
        node::well_keyed(t) ==> node::well_keyed(stripped(t)),
        node::named_tags(stripped(t)),
    decreases t,
{
    match t {
        node::Tree::Mapping(e) => {
            let left = stripped(t)->Mapping_0;
            assert(node::keys(left) =~= node::keys(e));
            assert forall|i: int| 0 <= i < e.len() implies node::named_tags(#[trigger] left[i].1) && (
            node::well_keyed(t) ==> node::well_keyed(left[i].1)) by {
                assert(decreases_to!(e => e[i]));
                lemma_stripped(e[i].1);
                if node::well_keyed(t) {
                    assert(node::well_keyed(e[i].1));
                }
            }
        },
        node::Tree::Sequence(s) => {
            let left = stripped(t)->Sequence_0;
            assert forall|i: int| 0 <= i < s.len() implies node::named_tags(#[trigger] left[i]) && (
            node::well_keyed(t) ==> node::well_keyed(left[i])) by {
                assert(decreases_to!(s => s[i]));
                lemma_stripped(s[i]);
                if node::well_keyed(t) {
                    assert(node::well_keyed(s[i]));
                }
            }
        },
        node::Tree::Tagged(_, v) => {
            lemma_stripped(*v);
        },
        node::Tree::Scalar(_) => {},
    }
}

fn strip_tags(value: &Node) -> (r: Node)
    ensures
        r@ == stripped(value@),
    decreases value,
{
    proof {
        node::lemma_view(*value);
    }
    match value {
        Node::Mapping(v) => {
            let mut out: Vec<(String, Node)> = Vec::new();
            let mut i: usize = 0;
            while i < v.len()
                invariant
                    decreases_to!(value => v@),
                    i <= v.len(),
                    out@.len() == i,
                    forall|j: int|
                        0 <= j < i ==> (#[trigger] out@[j]).0@ == v@[j].0@ && out@[j].1@
                            == stripped(v@[j].1@),
                decreases v.len() - i,
            {
                assert(decreases_to!(v@ => v@[i as int]));
                out.push((v[i].0.clone(), strip_tags(&v[i].1)));
                i = i + 1;
            }
            let r = Node::Mapping(out);
            proof {
                node::lemma_view(r);
                assert(node::entries(out@) =~= stripped(value@)->Mapping_0);
            }
            r
        },
        Node::Sequence(v) => {
            let mut out: Vec<Node> = Vec::new();
            let mut i: usize = 0;
            while i < v.len()
                invariant
                    decreases_to!(value => v@),
                    i <= v.len(),
                    out@.len() == i,
                    forall|j: int| 0 <= j < i ==> (#[trigger] out@[j])@ == stripped(v@[j]@),
                decreases v.len() - i,
            {
                assert(decreases_to!(v@ => v@[i as int]));
                out.push(strip_tags(&v[i]));
                i = i + 1;
            }
            let r = Node::Sequence(out);
            proof {
                node::lemma_view(r);
                assert(node::trees(out@) =~= stripped(value@)->Sequence_0);
            }
            r
        },
        Node::Tagged { tag: _, value: inner } => strip_tags(inner),
        Node::Scalar(_) => value.clone(),
    }
}

/// A scalar of the text, the token that stands for it, and the value it holds.
pub struct ReplacementModel {
    pub start: int,
    pub end: int,
    pub token: Seq<char>,
    pub path: Seq<node::Step>,
}

/// What was found so far: scalars, and the places of aliases.
pub struct WalkModel {
    pub replacements: Seq<ReplacementModel>,
    pub references: Seq<Seq<node::Step>>,
}

/// The token for the scalar with the given number.
pub open spec fn token(n: nat) -> Seq<char> {
    seq!['\u{1f}'] + "GITVEIL_VALUE_"@ + segment::zero_padded(segment::decimal(n), 4) + seq![
        '\u{1f}',
    ]
}

pub open spec fn with_scalar(state: WalkModel, start: int, end: int, path: Seq<node::Step>) -> WalkModel {
    WalkModel {
        replacements: state.replacements.push(
            ReplacementModel { start, end, token: token(state.replacements.len()), path },
        ),
        ..state
    }
}

pub open spec fn with_reference(state: WalkModel, path: Seq<node::Step>) -> WalkModel {
    WalkModel { references: state.references.push(path), ..state }
}

/// A key that is no string.
pub open spec fn typed_key(key: yaml_syntax::KeyModel) -> bool {
    key.integer || key.float || key.boolean || key.null
}

/// Collects the scalars and aliases below a value.
pub open spec fn walked(t: SyntaxTree, path: Seq<node::Step>, state: WalkModel) -> Result<
    WalkModel,
    document::SourceFault,
>
    decreases t, 0nat,
{
    match t {
        SyntaxTree::Alias => Ok(with_reference(state, path)),
        SyntaxTree::Scalar(start, end) => Ok(with_scalar(state, start, end, path)),
        SyntaxTree::Mapping(e) => walked_entries(e, path, state, e.len()),
        SyntaxTree::Sequence(s) => walked_items(s, path, state, 0, s.len()),
        SyntaxTree::Tagged(Some((start, end))) => Ok(with_scalar(state, start, end, path)),
        SyntaxTree::Tagged(None) => Err(
            parse_fault("tagged non-scalar values are unsupported"@),
        ),
    }
}

/// The last `left` entries of a mapping.
pub open spec fn walked_entries(
    e: Seq<(Option<yaml_syntax::KeyModel>, Option<SyntaxTree>)>,
    path: Seq<node::Step>,
    state: WalkModel,
    left: nat,
) -> Result<WalkModel, document::SourceFault>
    decreases e, left,
{
    if left == 0 || left > e.len() {
        Ok(state)
    } else {
        let i = e.len() - left;
        match e[i].0 {
            None => Err(
                document::SourceFault::UnsupportedKey { format: SourceFormat::Yaml, path },
            ),
            Some(key) => if typed_key(key) {
                Err(document::SourceFault::UnsupportedKey { format: SourceFormat::Yaml, path })
            } else {
                match e[i].1 {
                    None => walked_entries(e, path, state, (left - 1) as nat),
                    Some(value) => match walked(
                        e[i].1->Some_0,
                        path.push(node::Step::Key(key.text)),
                        state,
                    ) {
                        Err(fault) => Err(fault),
                        Ok(next) => walked_entries(e, path, next, (left - 1) as nat),
                    },
                }
            },
        }
    }
}

/// The last `left` items of a sequence, the next of which has the given index in
/// the value. Aliases have no index of their own.
pub open spec fn walked_items(
    s: Seq<SyntaxTree>,
    path: Seq<node::Step>,
    state: WalkModel,
    index: int,
    left: nat,
) -> Result<WalkModel, document::SourceFault>
    decreases s, left,
{
    if left == 0 || left > s.len() {
        Ok(state)
    } else {
        let i = s.len() - left;
        let here = path.push(node::Step::Index(index));
        if s[i] is Alias {
            walked_items(s, path, with_reference(state, here), index, (left - 1) as nat)
        } else {
            match walked(s[i], here, state) {
                Err(fault) => Err(fault),
                Ok(next) => walked_items(s, path, next, index + 1, (left - 1) as nat),
            }
        }
    }
}

/// Collects the scalars and aliases of the documents from `i` on.
pub open spec fn walked_roots(
    roots: Seq<Option<SyntaxTree>>,
    several: bool,
    state: WalkModel,
    i: int,
) -> Result<WalkModel, document::SourceFault>
    decreases roots.len() - i,
{
    if i < 0 || i >= roots.len() {
        Ok(state)
    } else {
        let path = if several {
            seq![node::Step::Index(i)]
        } else {
            Seq::empty()
        };
        match roots[i] {
            None => walked_roots(roots, several, state, i + 1),
            Some(root) => match walked(root, path, state) {
                Err(fault) => Err(fault),
                Ok(next) => walked_roots(roots, several, next, i + 1),
            },
        }
    }
}

/// A replacement put behind the last one that does not start before it.
pub open spec fn inserted(list: Seq<ReplacementModel>, r: ReplacementModel) -> Seq<ReplacementModel>
    decreases list.len(),
{
    if list.len() > 0 && list.last().start < r.start {
        inserted(list.drop_last(), r).push(list.last())
    } else {
        list.push(r)
    }
}

/// The replacements from the last of the text to the first.
pub open spec fn from_the_end(list: Seq<ReplacementModel>) -> Seq<ReplacementModel>
    decreases list.len(),
{
    if list.len() == 0 {
        Seq::empty()
    } else {
        inserted(from_the_end(list.drop_last()), list.last())
    }
}

/// A character starts, or the text ends, at byte `i`.
pub open spec fn boundary(b: Seq<u8>, i: int) -> bool {
    0 <= i <= b.len() && (i == 0 || i == b.len() || !(0x80 <= b[i] <= 0xbf))
}

/// The line break at the end of a range of bytes.
pub open spec fn break_of(b: Seq<u8>) -> Seq<u8> {
    if b.len() >= 2 && b[b.len() - 2] == 13 && b[b.len() - 1] == 10 {
        seq![13u8, 10u8]
    } else if b.len() >= 1 && b[b.len() - 1] == 10 {
        seq![10u8]
    } else {
        Seq::empty()
    }
}

/// The body with the replacements from `i` on put in; `None` where a range does not
/// lie in the text.
pub open spec fn spliced(
    body: Seq<u8>,
    input: Seq<u8>,
    list: Seq<ReplacementModel>,
    i: int,
) -> Option<Seq<u8>>
    decreases list.len() - i,
{
    if i < 0 || i >= list.len() {
        Some(body)
    } else {
        let r = list[i];
        if !(0 <= r.start <= r.end <= body.len()) || r.end > input.len() || !boundary(body, r.start)
            || !boundary(body, r.end) {
            None
        } else {
            spliced(
                body.take(r.start) + vstd::utf8::encode_utf8(r.token) + break_of(
                    input.subrange(r.start, r.end),
                ) + body.skip(r.end),
                input,
                list,
                i + 1,
            )
        }
    }
}

pub open spec fn placeholder_of(r: ReplacementModel) -> layout::PlaceholderModel {
    layout::PlaceholderModel { token: r.token, path: r.path }
}

/// The template of a text and the places of its aliases.
pub open spec fn scrubbed(
    input: Seq<char>,
    roots: Seq<Option<SyntaxTree>>,
    count: nat,
) -> Result<(layout::TemplateModel, Seq<Seq<node::Step>>), document::SourceFault> {
    let start = WalkModel { replacements: Seq::empty(), references: Seq::empty() };
    match walked_roots(roots, count > 1, start, 0) {
        Err(fault) => Err(fault),
        Ok(state) => {
            let list = from_the_end(state.replacements);
            let bytes = vstd::utf8::encode_utf8(input);
            match spliced(bytes, bytes, list, 0) {
                Some(body) => if vstd::utf8::valid_utf8(body) {
                    Ok(
                        (
                            layout::TemplateModel {
                                body: vstd::utf8::decode_utf8(body),
                                placeholders: list.reverse().map_values(
                                    |r: ReplacementModel| placeholder_of(r),
                                ),
                            },
                            state.references,
                        ),
                    )
                } else {
                    Err(parse_fault("invalid YAML scalar range"@))
                },
                None => Err(parse_fault("invalid YAML scalar range"@)),
            }
        },
    }
}

struct Replacement {
    start: usize,
    end: usize,
    token: String,
    path: NodePath,
}

spec fn view_replacement(r: Replacement) -> ReplacementModel {
    ReplacementModel {
        start: r.start as int,
        end: r.end as int,
        token: r.token@,
        path: r.path@,
    }
}

spec fn replacements_of(v: Seq<Replacement>) -> Seq<ReplacementModel> {
    v.map_values(|r: Replacement| view_replacement(r))
}

pub open spec fn paths_of(v: Seq<NodePath>) -> Seq<Seq<node::Step>> {
    v.map_values(|p: NodePath| p@)
}

struct Walk {
    replacements: Vec<Replacement>,
    references: Vec<NodePath>,
}

spec fn view_walk(w: Walk) -> WalkModel {
    WalkModel {
        replacements: replacements_of(w.replacements@),
        references: paths_of(w.references@),
    }
}

fn make_token(n: usize) -> (r: String)
    ensures
        r@ == token(n as nat),
{
    let mark: Vec<char> = vec!['\u{1f}'];
    assert(mark@ =~= seq!['\u{1f}']);
    let edge = text::string_of(mark.as_slice());
    text::cat4(
        edge.as_str(),
        "GITVEIL_VALUE_",
        segment::padded_decimal(n, 4).as_str(),
        edge.as_str(),
    )
}

fn add_scalar(walk: &mut Walk, start: usize, end: usize, path: &NodePath)
    ensures
        view_walk(*final(walk)) == with_scalar(
            view_walk(*old(walk)),
            start as int,
            end as int,
            path@,
        ),
{
    let ghost before = walk.replacements@;
    let token = make_token(walk.replacements.len());
    walk.replacements.push(Replacement { start, end, token, path: path.clone() });
    assert(replacements_of(walk.replacements@) =~= replacements_of(before).push(
        view_replacement(walk.replacements@.last()),
    ));
}

fn add_reference(walk: &mut Walk, path: &NodePath)
    ensures
        view_walk(*final(walk)) == with_reference(view_walk(*old(walk)), path@),
{
    let ghost before = walk.references@;
    walk.references.push(path.clone());
    assert(paths_of(walk.references@) =~= paths_of(before).push(path@));
}

fn walk_value(value: &SyntaxNode, path: &NodePath, walk: &mut Walk) -> (r: Option<SourceError>)
    ensures
        match walked(value@, path@, view_walk(*old(walk))) {
            Ok(state) => r is None && view_walk(*final(walk)) == state,
            Err(fault) => r matches Some(e) && e@ == fault,
        },
    decreases value,
{
    proof {
        yaml_syntax::lemma_view(*value);
    }
    match value {
        SyntaxNode::Alias => {
            add_reference(walk, path);
            None
        },
        SyntaxNode::Scalar(start, end) => {
            add_scalar(walk, *start, *end, path);
            None
        },
        SyntaxNode::Tagged(Some(range)) => {
            add_scalar(walk, range.0, range.1, path);
            None
        },
        SyntaxNode::Tagged(None) => Some(parse_error("tagged non-scalar values are unsupported")),
        SyntaxNode::Mapping(v) => {
            let ghost e = yaml_syntax::entries(v@);
            let ghost start = view_walk(*walk);
            let mut i: usize = 0;
            while i < v.len()
                invariant
                    decreases_to!(value => v@),
                    e == yaml_syntax::entries(v@),
                    i <= v.len(),
                    walked(value@, path@, view_walk(*old(walk))) == walked_entries(
                        e,
                        path@,
                        view_walk(*walk),
                        (e.len() - i) as nat,
                    ),
                decreases v.len() - i,
            {
                assert(decreases_to!(v@ => v@[i as int]));
                assert(e[i as int] == (
                    yaml_syntax::view_key(v@[i as int].0),
                    yaml_syntax::view_node(v@[i as int].1),
                ));
                let key = match &v[i].0 {
                    Some(key) => key,
                    None => {
                        return Some(
                            SourceError::UnsupportedKey {
                                format: SourceFormat::Yaml,
                                path: path.clone(),
                            },
                        );
                    },
                };
                if key.integer || key.float || key.boolean || key.null {
                    return Some(
                        SourceError::UnsupportedKey {
                            format: SourceFormat::Yaml,
                            path: path.clone(),
                        },
                    );
                }
                match &v[i].1 {
                    None => {},
                    Some(child) => {
                        assert(decreases_to!(v@[i as int] => v@[i as int].1));
                        let failed = walk_value(child, &path.child_key(key.text.as_str()), walk);
                        if failed.is_some() {
                            return failed;
                        }
                    },
                }
                i = i + 1;
            }
            None
        },
        SyntaxNode::Sequence(v) => {
            let ghost s = yaml_syntax::items(v@);
            let mut index: usize = 0;
            let mut i: usize = 0;
            while i < v.len()
                invariant
                    decreases_to!(value => v@),
                    s == yaml_syntax::items(v@),
                    index <= i <= v.len(),
                    walked(value@, path@, view_walk(*old(walk))) == walked_items(
                        s,
                        path@,
                        view_walk(*walk),
                        index as int,
                        (s.len() - i) as nat,
                    ),
                decreases v.len() - i,
            {
                assert(decreases_to!(v@ => v@[i as int]));
                assert(s[i as int] == v@[i as int]@);
                proof {
                    yaml_syntax::lemma_view(v@[i as int]);
                }
                let here = path.child_index(index);
                match &v[i] {
                    SyntaxNode::Alias => {
                        add_reference(walk, &here);
                    },
                    _ => {
                        let failed = walk_value(&v[i], &here, walk);
                        if failed.is_some() {
                            return failed;
                        }
                        index = index + 1;
                    },
                }
                i = i + 1;
            }
            None
        },
    }
}

fn insert_replacement(list: &mut Vec<Replacement>, r: Replacement)
    ensures
        replacements_of(final(list)@) == inserted(
            replacements_of(old(list)@),
            view_replacement(r),
        ),
{
    let ghost all = replacements_of(list@);
    let ghost m = view_replacement(r);
    let mut n: usize = list.len();
    assert(all.take(n as int) =~= all);
    assert(all.skip(n as int) =~= Seq::<ReplacementModel>::empty());
    assert(inserted(all.take(n as int), m) + all.skip(n as int) =~= inserted(all, m));
    while n > 0 && list[n - 1].start < r.start
        invariant
            n <= list@.len(),
            all == replacements_of(list@),
            m == view_replacement(r),
            inserted(all.take(n as int), m) + all.skip(n as int) == inserted(all, m),
        decreases n,
    {
        assert(all[n - 1] == view_replacement(list@[n - 1]));
        assert(all.take(n as int).drop_last() =~= all.take(n - 1));
        assert(all.take(n as int).last() == all[n - 1]);
        assert(inserted(all.take(n - 1), m) + all.skip(n - 1) =~= inserted(all.take(n as int), m)
            + all.skip(n as int));
        n = n - 1;
    }
    proof {
        if n > 0 {
            assert(all[n - 1] == view_replacement(list@[n - 1]));
            assert(all.take(n as int).last() == all[n - 1]);
        }
        assert(inserted(all.take(n as int), m) == all.take(n as int).push(m));
    }
    list.insert(n, r);
    assert(replacements_of(list@) =~= all.take(n as int).push(m) + all.skip(n as int));
}

fn sort_from_the_end(list: Vec<Replacement>) -> (r: Vec<Replacement>)
    ensures
        replacements_of(r@) == from_the_end(replacements_of(list@)),
{
    let ghost all = replacements_of(list@);
    let ghost given = list@;
    let ghost mut done: int = 0;
    let mut out: Vec<Replacement> = Vec::new();
    let mut rest = list;
    assert(all.take(0) =~= Seq::<ReplacementModel>::empty());
    assert(replacements_of(out@) =~= Seq::<ReplacementModel>::empty());
    assert(given.skip(0) =~= given);
    while rest.len() > 0
        invariant
            all == replacements_of(given),
            0 <= done <= given.len(),
            rest@ == given.skip(done),
            replacements_of(out@) == from_the_end(all.take(done)),
        decreases rest@.len(),
    {
        let item = rest.remove(0);
        assert(item == given[done]);
        assert(all.take(done + 1).drop_last() =~= all.take(done));
        assert(all.take(done + 1).last() == view_replacement(item));
        assert(rest@ =~= given.skip(done + 1));
        insert_replacement(&mut out, item);
        proof {
            done = done + 1;
        }
    }
    assert(all.take(done) =~= all);
    out
}

fn is_boundary(b: &Vec<u8>, i: usize) -> (r: bool)
    ensures
        r == boundary(b@, i as int),
{
    i <= b.len() && (i == 0 || i == b.len() || !(0x80 <= b[i] && b[i] <= 0xbf))
}

fn push_bytes(out: &mut Vec<u8>, b: &Vec<u8>, from: usize, to: usize)
    requires
        from <= to <= b@.len(),
    ensures
        final(out)@ == old(out)@ + b@.subrange(from as int, to as int),
{
    let ghost start = out@;
    let mut i: usize = from;
    while i < to
        invariant
            from <= i <= to <= b@.len(),
            out@ == start + b@.subrange(from as int, i as int),
        decreases to - i,
    {
        out.push(b[i]);
        i = i + 1;
    }
}

fn splice(body: &Vec<u8>, input: &Vec<u8>, r: &Replacement) -> (next: Option<Vec<u8>>)
    ensures
        ({
            let m = view_replacement(*r);
            if !(0 <= m.start <= m.end <= body@.len()) || m.end > input@.len() || !boundary(
                body@,
                m.start,
            ) || !boundary(body@, m.end) {
                next is None
            } else {
                next matches Some(b) && b@ == body@.take(m.start) + vstd::utf8::encode_utf8(m.token)
                    + break_of(input@.subrange(m.start, m.end)) + body@.skip(m.end)
            }
        }),
{
    if r.start > r.end || r.end > body.len() || r.end > input.len() || !is_boundary(body, r.start)
        || !is_boundary(body, r.end) {
        return None;
    }
    let mut out: Vec<u8> = Vec::new();
    push_bytes(&mut out, body, 0, r.start);
    assert(out@ =~= body@.take(r.start as int));
    let token = r.token.as_str().as_bytes_vec();
    push_bytes(&mut out, &token, 0, token.len());
    assert(token@.subrange(0, token@.len() as int) =~= token@);
    let ghost range = input@.subrange(r.start as int, r.end as int);
    let size: usize = r.end - r.start;
    if size >= 2 && input[r.end - 2] == 13 && input[r.end - 1] == 10 {
        out.push(13);
        out.push(10);
    } else if size >= 1 && input[r.end - 1] == 10 {
        out.push(10);
    }
    assert(out@ =~= body@.take(r.start as int) + vstd::utf8::encode_utf8(r.token@) + break_of(
        range,
    ));
    push_bytes(&mut out, body, r.end, body.len());
    assert(body@.subrange(r.end as int, body@.len() as int) =~= body@.skip(r.end as int));
    Some(out)
}

spec fn view_scrub(r: Result<(Template, Vec<NodePath>), SourceError>) -> Result<
    (layout::TemplateModel, Seq<Seq<node::Step>>),
    document::SourceFault,
> {
    match r {
        Ok((template, references)) => Ok((template@, paths_of(references@))),
        Err(error) => Err(error@),
    }
}

fn walk_roots(roots: &Vec<Option<SyntaxNode>>, several: bool) -> (r: Result<Walk, SourceError>)
    ensures
        ({
            let start = WalkModel { replacements: Seq::empty(), references: Seq::empty() };
            match walked_roots(yaml_syntax::roots(roots@), several, start, 0) {
                Ok(state) => r matches Ok(w) && view_walk(w) == state,
                Err(fault) => r matches Err(e) && e@ == fault,
            }
        }),
{
    let ghost all = yaml_syntax::roots(roots@);
    let ghost start = WalkModel { replacements: Seq::empty(), references: Seq::empty() };
    let mut walk = Walk { replacements: Vec::new(), references: Vec::new() };
    let mut i: usize = 0;
    proof {
        assert(view_walk(walk).replacements =~= start.replacements);
        assert(view_walk(walk).references =~= start.references);
    }
    while i < roots.len()
        invariant
            all == yaml_syntax::roots(roots@),
            start == (WalkModel { replacements: Seq::empty(), references: Seq::empty() }),
            i <= roots.len(),
            walked_roots(all, several, view_walk(walk), i as int) == walked_roots(
                all,
                several,
                start,
                0,
            ),
        decreases roots.len() - i,
    {
        assert(all[i as int] == yaml_syntax::view_node(roots@[i as int]));
        let path = if several {
            NodePath::root().child_index(i)
        } else {
            NodePath::root()
        };
        assert(several ==> path@ =~= seq![node::Step::Index(i as int)]);
        match &roots[i] {
            None => {},
            Some(root) => {
                match walk_value(root, &path, &mut walk) {
                    Some(error) => {
                        return Err(error);
                    },
                    None => {},
                }
            },
        }
        i = i + 1;
    }
    Ok(walk)
}

fn scrub(input: &str, roots: &Vec<Option<SyntaxNode>>, count: usize) -> (r: Result<
    (Template, Vec<NodePath>),
    SourceError,
>)
    ensures
        view_scrub(r) == scrubbed(input@, yaml_syntax::roots(roots@), count as nat),
{
    let walk = match walk_roots(roots, count > 1) {
        Ok(walk) => walk,
        Err(error) => {
            return Err(error);
        },
    };
    let Walk { replacements, references } = walk;
    let list = sort_from_the_end(replacements);
    let ghost models = replacements_of(list@);
    let bytes = input.as_bytes_vec();
    let mut body = input.as_bytes_vec();
    let mut i: usize = 0;
    while i < list.len()
        invariant
            models == replacements_of(list@),
            bytes@ == vstd::utf8::encode_utf8(input@),
            i <= list.len(),
            spliced(body@, bytes@, models, i as int) == spliced(bytes@, bytes@, models, 0),
            models == from_the_end(replacements_of(replacements@)),
            walked_roots(
                yaml_syntax::roots(roots@),
                count > 1,
                WalkModel { replacements: Seq::empty(), references: Seq::empty() },
                0,
            ) == Ok::<WalkModel, document::SourceFault>(
                WalkModel {
                    replacements: replacements_of(replacements@),
                    references: paths_of(references@),
                },
            ),
        decreases list.len() - i,
    {
        assert(models[i as int] == view_replacement(list@[i as int]));
        match splice(&body, &bytes, &list[i]) {
            None => {
                return Err(parse_error("invalid YAML scalar range"));
            },
            Some(next) => {
                body = next;
            },
        }
        i = i + 1;
    }
    let body_text = match text::from_utf8(body.as_slice()) {
        Some(s) => s,
        None => {
            return Err(parse_error("invalid YAML scalar range"));
        },
    };
    let mut placeholders: Vec<Placeholder> = Vec::new();
    let ghost wanted = models.reverse().map_values(|r: ReplacementModel| placeholder_of(r));
    let mut k: usize = list.len();
    while k > 0
        invariant
            k <= list.len(),
            models == replacements_of(list@),
            wanted == models.reverse().map_values(|r: ReplacementModel| placeholder_of(r)),
            placeholders@.len() == list@.len() - k,
            forall|j: int| 0 <= j < placeholders@.len() ==> (#[trigger] placeholders@[j])@ == wanted[j],
        decreases k,
    {
        k = k - 1;
        assert(models[k as int] == view_replacement(list@[k as int]));
        assert(wanted[list@.len() - 1 - k] == placeholder_of(models[k as int]));
        placeholders.push(Placeholder::new(list[k].token.clone(), list[k].path.clone()));
    }
    assert(layout::marks(placeholders@) =~= wanted);
    Ok((Template::new(body_text, placeholders), references))
}

/// The lines of a text that are comments.
pub open spec fn comment_line(s: Seq<char>) -> bool {
    let t = segment::trim_start(s);
    t.len() > 0 && t[0] == '#'
}

pub open spec fn comment_lines(lines: Seq<Seq<char>>) -> Seq<Seq<char>>
    decreases lines.len(),
{
    if lines.len() == 0 {
        Seq::empty()
    } else if comment_line(lines.last()) {
        comment_lines(lines.drop_last()).push(lines.last())
    } else {
        comment_lines(lines.drop_last())
    }
}

fn collect_comments(input: &str) -> (r: Vec<String>)
    ensures
        text::texts(r@) == comment_lines(segment::lines(layout::unix_lines(input@))),
{
    let unix = LineEnding::Lf.apply(input);
    let lines = segment::split_lines(text::chars_of(unix.as_str()).as_slice());
    let ghost all = text::pieces(lines@);
    let mut out: Vec<String> = Vec::new();
    let mut i: usize = 0;
    assert(text::texts(out@) =~= Seq::<Seq<char>>::empty());
    while i < lines.len()
        invariant
            all == text::pieces(lines@),
            i <= lines.len(),
            text::texts(out@) == comment_lines(all.take(i as int)),
        decreases lines.len() - i,
    {
        assert(all.take(i + 1).drop_last() =~= all.take(i as int));
        assert(all.take(i + 1).last() == lines@[i as int]@);
        let trimmed = segment::trimmed_start(lines[i].as_slice());
        if trimmed.len() > 0 && trimmed[0] == '#' {
            let ghost before = out@;
            out.push(text::string_of(lines[i].as_slice()));
            assert(text::texts(out@) =~= text::texts(before).push(lines@[i as int]@));
        }
        i = i + 1;
    }
    assert(all.take(i as int) =~= all);
    out
}

/// The value of a file: null without a document, the value of the only one, or the
/// sequence of the values of several.
pub open spec fn root_of(documents: Seq<node::Tree>) -> node::Tree {
    if documents.len() == 0 {
        node::Tree::Scalar(node::ScalarModel::Null)
    } else if documents.len() == 1 {
        documents[0]
    } else {
        node::Tree::Sequence(documents)
    }
}

/// A tree without the entries that the paths from `i` on lead to; the first path
/// that leads nowhere otherwise.
pub open spec fn without_all(t: node::Tree, paths: Seq<Seq<node::Step>>, i: int) -> Result<
    node::Tree,
    document::SourceFault,
>
    decreases paths.len() - i,
{
    if i < 0 || i >= paths.len() {
        Ok(t)
    } else {
        match node::tree_without(t, paths[i]) {
            Some(next) => without_all(next, paths, i + 1),
            None => Err(document::SourceFault::LayoutMismatch(paths[i])),
        }
    }
}

proof fn lemma_without_all_is_named(t: node::Tree, paths: Seq<Seq<node::Step>>, i: int)
    requires
        node::named_tags(t),
    ensures
        without_all(t, paths, i) matches Ok(left) ==> node::named_tags(left),
    decreases paths.len() - i,
{
    if 0 <= i < paths.len() {
        node::lemma_without_is_named(t, paths[i]);
        if node::tree_without(t, paths[i]) is Some {
            lemma_without_all_is_named(node::tree_without(t, paths[i])->Some_0, paths, i + 1);
        }
    }
}

/// A document that was read has no tags.
pub proof fn lemma_parsed_is_named(
    input: Seq<char>,
    syntax: Result<(Seq<Option<SyntaxTree>>, Seq<char>), Seq<char>>,
    raws: Result<Seq<node::Tree>, Seq<char>>,
)
    ensures
        parsed(input, syntax, raws) matches Ok(d) ==> node::named_tags(d.root),
{
    if parsed(input, syntax, raws) is Ok {
        let documents = raws->Ok_0;
        let references = scrubbed(input, (syntax->Ok_0).0, documents.len())->Ok_0.1;
        lemma_stripped(root_of(documents));
        lemma_without_all_is_named(stripped(root_of(documents)), references, 0);
    }
}

/// What the deserializer made of the documents of a text.
pub open spec fn view_raws(r: Result<Vec<StrictNode>, String>) -> Result<
    Seq<node::Tree>,
    Seq<char>,
> {
    match r {
        Ok(v) => Ok(strict::items(v@)),
        Err(reason) => Err(reason@),
    }
}

/// What the syntax parser made of a text.
pub open spec fn view_syntax(r: Result<(Vec<Option<SyntaxNode>>, String), String>) -> Result<
    (Seq<Option<SyntaxTree>>, Seq<char>),
    Seq<char>,
> {
    match r {
        Ok((roots, printed)) => Ok((yaml_syntax::roots(roots@), printed@)),
        Err(reason) => Err(reason@),
    }
}

/// The document that a YAML text holds, given its syntax and what the deserializer
/// made of it.
pub open spec fn parsed(
    input: Seq<char>,
    syntax: Result<(Seq<Option<SyntaxTree>>, Seq<char>), Seq<char>>,
    raws: Result<Seq<node::Tree>, Seq<char>>,
) -> Result<document::DocumentModel, document::SourceFault> {
    match syntax {
        Err(reason) => Err(parse_fault(reason)),
        Ok((roots, printed)) => if printed != input {
            Err(parse_fault("YAML syntax could not be represented losslessly"@))
        } else {
            match raws {
                Err(reason) => Err(parse_fault(reason)),
                Ok(documents) => match scrubbed(input, roots, documents.len()) {
                    Err(fault) => Err(fault),
                    Ok((template, references)) => match without_all(
                        stripped(root_of(documents)),
                        references,
                        0,
                    ) {
                        Err(fault) => Err(fault),
                        Ok(root) => Ok(
                            document::DocumentModel {
                                format: SourceFormat::Yaml,
                                root,
                                layout: layout::LayoutModel {
                                    preamble_comments: comment_lines(
                                        segment::lines(layout::unix_lines(input)),
                                    ),
                                    template: Some(template),
                                    ..json::plain_layout(input)
                                },
                            },
                        ),
                    },
                },
            }
        },
    }
}

fn take_documents(raws: Vec<StrictNode>) -> (r: Vec<Node>)
    ensures
        node::trees(r@) == strict::items(raws@),
        forall|j: int| 0 <= j < r@.len() ==> node::well_keyed((#[trigger] r@[j])@),
{
    let ghost given = raws@;
    let mut rest = raws;
    let mut out: Vec<Node> = Vec::new();
    assert(given.skip(0) =~= given);
    while rest.len() > 0
        invariant
            out@.len() <= given.len(),
            rest@ == given.skip(out@.len() as int),
            forall|j: int|
                0 <= j < out@.len() ==> (#[trigger] out@[j])@ == given[j]@ && node::well_keyed(
                    out@[j]@,
                ),
        decreases rest@.len(),
    {
        let ghost k = out@.len() as int;
        let item = rest.remove(0);
        assert(item == given[k]);
        assert(rest@ =~= given.skip(k + 1));
        out.push(item.into_node());
    }
    assert(node::trees(out@) =~= strict::items(given));
    out
}

fn make_root(documents: Vec<Node>) -> (r: Node)
    requires
        forall|j: int| 0 <= j < documents@.len() ==> node::well_keyed((#[trigger] documents@[j])@),
    ensures
        r@ == root_of(node::trees(documents@)),
        node::well_keyed(r@),
{
    if documents.len() == 0 {
        Node::Scalar(Scalar::Null)
    } else if documents.len() == 1 {
        assert(node::trees(documents@)[0] == documents@[0]@);
        documents[0].clone()
    } else {
        let r = Node::Sequence(documents);
        proof {
            node::lemma_view(r);
            assert forall|j: int| 0 <= j < documents@.len() implies node::well_keyed(
                #[trigger] node::trees(documents@)[j],
            ) by {
                assert(node::trees(documents@)[j] == documents@[j]@);
            }
        }
        r
    }
}

/// Reads a YAML text, given its syntax and what the deserializer made of it.
pub fn parse_with_syntax(
    input: &str,
    syntax: Result<(Vec<Option<SyntaxNode>>, String), String>,
    raws: Result<Vec<StrictNode>, String>,
) -> (r: Result<SourceDocument, SourceError>)
    ensures
        document::view_document(r) == parsed(input@, view_syntax(syntax), view_raws(raws)),
{
    let (roots, printed) = match syntax {
        Ok(parsed) => parsed,
        Err(reason) => {
            return Err(SourceError::Parse { format: SourceFormat::Yaml, reason });
        },
    };
    if !text::eq(printed.as_str(), input) {
        return Err(parse_error("YAML syntax could not be represented losslessly"));
    }
    let values = match raws {
        Ok(values) => values,
        Err(reason) => {
            return Err(SourceError::Parse { format: SourceFormat::Yaml, reason });
        },
    };
    let documents = take_documents(values);
    let count: usize = documents.len();
    let tagged = make_root(documents);
    let mut root = strip_tags(&tagged);
    proof {
        lemma_stripped(tagged@);
    }
    let (template, references) = match scrub(input, &roots, count) {
        Ok(found) => found,
        Err(error) => {
            return Err(error);
        },
    };
    let ghost start = root@;
    let ghost paths = paths_of(references@);
    let mut i: usize = 0;
    while i < references.len()
        invariant
            paths == paths_of(references@),
            i <= references.len(),
            node::well_keyed(root@),
            without_all(root@, paths, i as int) == without_all(start, paths, 0),
            without_all(start, paths, 0) is Err ==> parsed(
                input@,
                view_syntax(syntax),
                view_raws(raws),
            ) == Err::<document::DocumentModel, document::SourceFault>(
                without_all(start, paths, 0)->Err_0,
            ),
        decreases references.len() - i,
    {
        let ghost before = root@;
        assert(paths[i as int] == references@[i as int]@);
        if !root.remove_at_path(&references[i]) {
            return Err(SourceError::LayoutMismatch(references[i].clone()));
        }
        proof {
            node::lemma_tree_without(before, paths[i as int]);
        }
        i = i + 1;
    }
    let mut layout = Layout::new(LineEnding::detect(input), json::ends_with_newline(input));
    layout.set_preamble_comments(collect_comments(input));
    layout.set_template(template);
    Ok(SourceDocument::new(SourceFormat::Yaml, root, layout))
}

/// Reads a YAML text, given what the deserializer made of it.
pub fn parse(input: &str, raws: Result<Vec<StrictNode>, String>) -> (r: Result<
    SourceDocument,
    SourceError,
>)
    ensures
        document::view_document(r) == parsed(
            input@,
            yaml_syntax::yaml_file_syntax(input@),
            view_raws(raws),
        ),
{
    let syntax = yaml_syntax::parse(input);
    parse_with_syntax(input, syntax, raws)
}

/// The YAML value of a document value, or the first reason, in document order, why
/// it has none: a number out of range.
pub open spec fn yaml_value(t: node::Tree) -> Result<YamlTree, Seq<char>>
    decreases t, 0nat,
{
    match t {
        node::Tree::Mapping(e) => match yaml_entries(e, e.len()) {
            Ok(list) => Ok(YamlTree::Mapping(list)),
            Err(reason) => Err(reason),
        },
        node::Tree::Sequence(s) => match yaml_items(s, s.len()) {
            Ok(list) => Ok(YamlTree::Sequence(list)),
            Err(reason) => Err(reason),
        },
        node::Tree::Scalar(s) => match s {
            node::ScalarModel::String(v) => Ok(YamlTree::String(v)),
            node::ScalarModel::DateTime(v) => Ok(YamlTree::String(v)),
            node::ScalarModel::Integer(v) => match integer::signed_64(v) {
                Some(n) => Ok(YamlTree::Number(integer::integer_text(n))),
                None => Err(integer::integer_reason(v)),
            },
            node::ScalarModel::Float(v) => match yaml::yaml_float_text(v) {
                Ok(number) => Ok(YamlTree::Number(number)),
                Err(reason) => Err(reason),
            },
            node::ScalarModel::Bool(b) => Ok(YamlTree::Bool(b)),
            node::ScalarModel::Null => Ok(YamlTree::Null),
        },
        node::Tree::Tagged(tag, v) => match yaml_value(*v) {
            Ok(value) => Ok(YamlTree::Tagged(yaml::shown_tag(tag), Box::new(value))),
            Err(reason) => Err(reason),
        },
    }
}

pub open spec fn yaml_items(s: Seq<node::Tree>, n: nat) -> Result<Seq<YamlTree>, Seq<char>>
    decreases s, n,
{
    if n == 0 || n > s.len() {
        Ok(Seq::empty())
    } else {
        match yaml_items(s, (n - 1) as nat) {
            Err(reason) => Err(reason),
            Ok(head) => match yaml_value(s[n - 1]) {
                Err(reason) => Err(reason),
                Ok(item) => Ok(head.push(item)),
            },
        }
    }
}

pub open spec fn yaml_entries(e: Seq<(Seq<char>, node::Tree)>, n: nat) -> Result<
    Seq<(YamlTree, YamlTree)>,
    Seq<char>,
>
    decreases e, n,
{
    if n == 0 || n > e.len() {
        Ok(Seq::empty())
    } else {
        match yaml_entries(e, (n - 1) as nat) {
            Err(reason) => Err(reason),
            Ok(head) => match yaml_value(e[n - 1].1) {
                Err(reason) => Err(reason),
                Ok(item) => Ok(head.push((YamlTree::String(e[n - 1].0), item))),
            },
        }
    }
}

proof fn lemma_items_fail(s: Seq<node::Tree>, n: nat, k: nat)
    requires
        n <= k <= s.len(),
        yaml_items(s, n) is Err,
    ensures
        yaml_items(s, k) == yaml_items(s, n),
    decreases k,
{
    if n < k {
        lemma_items_fail(s, n, (k - 1) as nat);
    }
}

proof fn lemma_entries_fail(e: Seq<(Seq<char>, node::Tree)>, n: nat, k: nat)
    requires
        n <= k <= e.len(),
        yaml_entries(e, n) is Err,
    ensures
        yaml_entries(e, k) == yaml_entries(e, n),
    decreases k,
{
    if n < k {
        lemma_entries_fail(e, n, (k - 1) as nat);
    }
}

fn to_yaml_value(value: &Node) -> (r: Result<yaml_serde::Value, String>)
    requires
        node::well_keyed(value@),
        node::named_tags(value@),
    ensures
        match r {
            Ok(v) => yaml_value(value@) == Ok::<YamlTree, Seq<char>>(yaml::yaml_tree(v)),
            Err(reason) => yaml_value(value@) == Err::<YamlTree, Seq<char>>(reason@),
        },
    decreases value,
{
    proof {
        node::lemma_view(*value);
    }
    match value {
        Node::Mapping(v) => {
            let ghost e = node::entries(v@);
            let mut out: Vec<(String, yaml_serde::Value)> = Vec::new();
            let mut i: usize = 0;
            assert(yaml::keyed(out@) =~= Seq::<(YamlTree, YamlTree)>::empty());
            while i < v.len()
                invariant
                    decreases_to!(value => v@),
                    e == node::entries(v@),
                    value@ == node::Tree::Mapping(e),
                    node::well_keyed(value@),
                    node::named_tags(value@),
                    i <= v.len(),
                    out@.len() == i,
                    yaml_entries(e, i as nat) == Ok::<Seq<(YamlTree, YamlTree)>, Seq<char>>(
                        yaml::keyed(out@),
                    ),
                    forall|j: int| 0 <= j < i ==> (#[trigger] out@[j]).0@ == e[j].0,
                decreases v.len() - i,
            {
                assert(decreases_to!(v@ => v@[i as int]));
                assert(e[i as int] == (v@[i as int].0@, v@[i as int].1@));
                assert(node::well_keyed(e[i as int].1));
                assert(node::named_tags(e[i as int].1));
                match to_yaml_value(&v[i].1) {
                    Ok(item) => {
                        let ghost before = out@;
                        out.push((v[i].0.clone(), item));
                        assert(yaml::keyed(out@) =~= yaml::keyed(before).push(
                            (YamlTree::String(e[i as int].0), yaml::yaml_tree(item)),
                        ));
                    },
                    Err(reason) => {
                        proof {
                            lemma_entries_fail(e, (i + 1) as nat, e.len());
                        }
                        return Err(reason);
                    },
                }
                i = i + 1;
            }
            assert(yaml::key_texts(out@) =~= node::keys(e));
            Ok(yaml::yaml_build(yaml::YamlParts::Mapping(out)))
        },
        Node::Sequence(v) => {
            let ghost s = node::trees(v@);
            let mut out: Vec<yaml_serde::Value> = Vec::new();
            let mut i: usize = 0;
            assert(yaml::outside_items(out@) =~= Seq::<YamlTree>::empty());
            while i < v.len()
                invariant
                    decreases_to!(value => v@),
                    s == node::trees(v@),
                    value@ == node::Tree::Sequence(s),
                    node::well_keyed(value@),
                    node::named_tags(value@),
                    i <= v.len(),
                    yaml_items(s, i as nat) == Ok::<Seq<YamlTree>, Seq<char>>(
                        yaml::outside_items(out@),
                    ),
                decreases v.len() - i,
            {
                assert(decreases_to!(v@ => v@[i as int]));
                assert(s[i as int] == v@[i as int]@);
                match to_yaml_value(&v[i]) {
                    Ok(item) => {
                        let ghost before = out@;
                        out.push(item);
                        assert(yaml::outside_items(out@) =~= yaml::outside_items(before).push(
                            yaml::yaml_tree(item),
                        ));
                    },
                    Err(reason) => {
                        proof {
                            lemma_items_fail(s, (i + 1) as nat, s.len());
                        }
                        return Err(reason);
                    },
                }
                i = i + 1;
            }
            Ok(yaml::yaml_build(yaml::YamlParts::Sequence(out)))
        },
        Node::Scalar(scalar) => match scalar {
            Scalar::String(s) => Ok(yaml::yaml_build(yaml::YamlParts::String(s.clone()))),
            Scalar::DateTime(s) => Ok(yaml::yaml_build(yaml::YamlParts::String(s.clone()))),
            Scalar::Integer(s) => match integer::parse_i64(s.as_str()) {
                Ok(n) => Ok(yaml::yaml_integer(n)),
                Err(reason) => Err(reason),
            },
            Scalar::Float(s) => yaml::yaml_float(s.as_str()),
            Scalar::Bool(b) => Ok(yaml::yaml_build(yaml::YamlParts::Bool(*b))),
            Scalar::Null => Ok(yaml::yaml_build(yaml::YamlParts::Null)),
        },
        Node::Tagged { tag, value: inner } => match to_yaml_value(inner) {
            Ok(v) => Ok(yaml::yaml_build(yaml::YamlParts::Tagged(tag.clone(), v))),
            Err(reason) => Err(reason),
        },
    }
}

/// A value as it stands in the text: written as YAML, without line feeds at the end.
pub open spec fn rendered(t: node::Tree) -> Result<Seq<char>, Seq<char>> {
    match yaml_value(t) {
        Err(reason) => Err(reason),
        Ok(value) => match yaml::yaml_written(value) {
            Err(reason) => Err(reason),
            Ok(s) => Ok(segment::trim_end_by(s, |c: char| c == '\n')),
        },
    }
}

fn render_scalar(value: &Node) -> (r: Result<Vec<char>, String>)
    requires
        node::well_keyed(value@),
        node::named_tags(value@),
    ensures
        match r {
            Ok(v) => rendered(value@) == Ok::<Seq<char>, Seq<char>>(v@),
            Err(reason) => rendered(value@) == Err::<Seq<char>, Seq<char>>(reason@),
        },
{
    let outside = match to_yaml_value(value) {
        Ok(v) => v,
        Err(reason) => {
            return Err(reason);
        },
    };
    match yaml::yaml_write(&outside) {
        Err(reason) => Err(reason),
        Ok(s) => {
            let chars = text::chars_of(s.as_str());
            let ghost p = |c: char| c == '\n';
            let mut n: usize = chars.len();
            assert(chars@.take(n as int) =~= chars@);
            while n > 0 && chars[n - 1] == '\n'
                invariant
                    n <= chars.len(),
                    p == (|c: char| c == '\n'),
                    segment::trim_end_by(chars@.take(n as int), p) == segment::trim_end_by(
                        chars@,
                        p,
                    ),
                decreases n,
            {
                assert(p(chars@[n - 1]));
                assert(chars@.take(n as int).drop_last() =~= chars@.take(n - 1));
                n = n - 1;
            }
            Ok(segment::slice_to_vec(chars.as_slice(), 0, n))
        },
    }
}

/// The template with the values of the placeholders from `i` on put in.
pub open spec fn filled(
    body: Seq<char>,
    root: node::Tree,
    marks: Seq<layout::PlaceholderModel>,
    i: int,
) -> Result<Seq<char>, document::SourceFault>
    decreases marks.len() - i,
{
    if i < 0 || i >= marks.len() {
        Ok(body)
    } else {
        match node::tree_at(root, marks[i].path) {
            None => Err(document::SourceFault::LayoutMismatch(marks[i].path)),
            Some(t) => match rendered(t) {
                Err(reason) => Err(generate_fault(reason)),
                Ok(s) => filled(segment::replace(body, marks[i].token, s), root, marks, i + 1),
            },
        }
    }
}

/// The bytes of a document.
pub open spec fn generated(d: document::DocumentModel) -> Result<Seq<u8>, document::SourceFault> {
    match d.layout.template {
        None => Err(generate_fault("YAML layout template is missing"@)),
        Some(template) => match filled(template.body, d.root, template.placeholders, 0) {
            Err(fault) => Err(fault),
            Ok(s) => Ok(vstd::utf8::encode_utf8(d.layout.line_ending.on(s))),
        },
    }
}

/// Writes a document by its template.
///
/// Every product path (parse, envelope restore, three-way layout merge) carries a
/// template; without one the call fails instead of falling back to a lossy writer.
pub fn generate(document: &SourceDocument) -> (r: Result<Vec<u8>, SourceError>)
    requires
        node::named_tags(document@.root),
    ensures
        document::view_bytes(r) == generated(document@),
{
    let template = match document.layout().template() {
        Some(template) => template,
        None => {
            return Err(
                SourceError::Generate {
                    format: SourceFormat::Yaml,
                    reason: "YAML layout template is missing".to_owned(),
                },
            );
        },
    };
    let root = document.root();
    let placeholders = template.placeholders();
    let ghost marks = layout::marks(placeholders@);
    let mut output = text::chars_of(template.body());
    let ghost start = output@;
    let mut i: usize = 0;
    while i < placeholders.len()
        invariant
            marks == layout::marks(placeholders@),
            document@.layout.template == Some(
                layout::TemplateModel { body: start, placeholders: marks },
            ),
            root@ == document@.root,
            node::well_keyed(root@),
            node::named_tags(root@),
            i <= placeholders.len(),
            filled(output@, root@, marks, i as int) == filled(start, root@, marks, 0),
        decreases placeholders.len() - i,
    {
        assert(marks[i as int] == placeholders@[i as int]@);
        match root.at_path(placeholders[i].path()) {
            None => {
                return Err(SourceError::LayoutMismatch(placeholders[i].path().clone()));
            },
            Some(node) => {
                proof {
                    node::lemma_tree_at(root@, marks[i as int].path);
                }
                match render_scalar(node) {
                    Err(reason) => {
                        return Err(SourceError::Generate { format: SourceFormat::Yaml, reason });
                    },
                    Ok(s) => {
                        output = segment::replaced(
                            output.as_slice(),
                            text::chars_of(placeholders[i].token()).as_slice(),
                            s.as_slice(),
                        );
                    },
                }
            },
        }
        i = i + 1;
    }
    let whole = text::string_of(output.as_slice());
    Ok(document.layout().line_ending().apply(whole.as_str()).as_str().as_bytes_vec())
}

proof fn lemma_items_are_kept(s: Seq<node::Tree>, n: nat)
    requires
        n <= s.len(),
        yaml_items(s, n) is Ok,
    ensures
        yaml_items(s, n)->Ok_0.len() == n,
        forall|i: int|
            0 <= i < n ==> yaml_value(s[i]) == Ok::<YamlTree, Seq<char>>(
                #[trigger] yaml_items(s, n)->Ok_0[i],
            ),
    decreases n,
{
    if n > 0 {
        lemma_items_are_kept(s, (n - 1) as nat);
        let head = yaml_items(s, (n - 1) as nat)->Ok_0;
        let all = yaml_items(s, n)->Ok_0;
        assert forall|i: int| 0 <= i < n implies yaml_value(s[i]) == Ok::<YamlTree, Seq<char>>(
            #[trigger] all[i],
        ) by {
            if i < n - 1 {
                assert(all[i] == head[i]);
            }
        }
    }
}

proof fn lemma_entries_are_kept(e: Seq<(Seq<char>, node::Tree)>, n: nat)
    requires
        n <= e.len(),
        yaml_entries(e, n) is Ok,
    ensures
        yaml_entries(e, n)->Ok_0.len() == n,
        forall|i: int|
            0 <= i < n ==> (#[trigger] yaml_entries(e, n)->Ok_0[i]).0 == YamlTree::String(e[i].0)
                && yaml_value(e[i].1) == Ok::<YamlTree, Seq<char>>(yaml_entries(e, n)->Ok_0[i].1),
    decreases n,
{
    if n > 0 {
        lemma_entries_are_kept(e, (n - 1) as nat);
        let head = yaml_entries(e, (n - 1) as nat)->Ok_0;
        let all = yaml_entries(e, n)->Ok_0;
        assert forall|i: int| 0 <= i < n implies (#[trigger] all[i]).0 == YamlTree::String(e[i].0)
            && yaml_value(e[i].1) == Ok::<YamlTree, Seq<char>>(all[i].1) by {
            if i < n - 1 {
                assert(all[i] == head[i]);
            }
        }
    }
}

/// Law: the YAML value of a document value has every entry under its key and every item, in
/// their order, each scalar as what it is, and each tag around what it holds.
pub proof fn law_yaml_keeps_every_value(t: node::Tree)
    ensures
        match (t, yaml_value(t)) {
            (node::Tree::Mapping(e), Ok(y)) => y matches YamlTree::Mapping(list) && list.len()
                == e.len() && forall|i: int|
                0 <= i < e.len() ==> (#[trigger] list[i]).0 == YamlTree::String(e[i].0)
                    && yaml_value(e[i].1) == Ok::<YamlTree, Seq<char>>(list[i].1),
            (node::Tree::Sequence(s), Ok(y)) => y matches YamlTree::Sequence(list) && list.len()
                == s.len() && forall|i: int|
                0 <= i < s.len() ==> yaml_value(s[i]) == Ok::<YamlTree, Seq<char>>(
                    #[trigger] list[i],
                ),
            (node::Tree::Scalar(node::ScalarModel::String(v)), r) => r == Ok::<
                YamlTree,
                Seq<char>,
            >(YamlTree::String(v)),
            (node::Tree::Scalar(node::ScalarModel::Bool(b)), r) => r == Ok::<YamlTree, Seq<char>>(
                YamlTree::Bool(b),
            ),
            (node::Tree::Scalar(node::ScalarModel::Null), r) => r == Ok::<YamlTree, Seq<char>>(
                YamlTree::Null,
            ),
            (node::Tree::Scalar(node::ScalarModel::Integer(_)), Ok(y)) => y is Number,
            (node::Tree::Scalar(node::ScalarModel::Float(_)), Ok(y)) => y is Number,
            (node::Tree::Tagged(_, v), r) => r is Ok <==> yaml_value(*v) is Ok,
            _ => true,
        },
{
    match t {
        node::Tree::Mapping(e) => {
            if yaml_entries(e, e.len()) is Ok {
                lemma_entries_are_kept(e, e.len());
            }
        },
        node::Tree::Sequence(s) => {
            if yaml_items(s, s.len()) is Ok {
                lemma_items_are_kept(s, s.len());
            }
        },
        _ => {},
    }
}

/// Law: a file without a document is null, one with a single document is that document, and
/// one with several is their sequence.
pub proof fn law_documents_make_up_the_file(documents: Seq<node::Tree>)
    ensures
        documents.len() == 0 ==> root_of(documents) == node::Tree::Scalar(node::ScalarModel::Null),
        documents.len() == 1 ==> root_of(documents) == documents[0],
        documents.len() > 1 ==> root_of(documents) == node::Tree::Sequence(documents),
{
}

/// Law: a document is written only where every placeholder of its template leads to a value.
pub proof fn law_every_placeholder_is_filled(
    body: Seq<char>,
    root: node::Tree,
    marks: Seq<layout::PlaceholderModel>,
    i: int,
    k: int,
)
    requires
        0 <= i <= k < marks.len(),
        filled(body, root, marks, i) is Ok,
    ensures
        node::tree_at(root, marks[k].path) matches Some(t) && rendered(t) is Ok,
    decreases k - i,
{
    if i < k {
        let s = rendered(node::tree_at(root, marks[i].path)->Some_0)->Ok_0;
        law_every_placeholder_is_filled(
            segment::replace(body, marks[i].token, s),
            root,
            marks,
            i + 1,
            k,
        );
    }
}

/// Each replacement has the token of its number.
pub open spec fn numbered(list: Seq<ReplacementModel>) -> bool {
    forall|i: int| 0 <= i < list.len() ==> (#[trigger] list[i]).token == token(i as nat)
}

/// What a walk adds stands behind what it found before.
pub open spec fn grown(before: WalkModel, after: WalkModel) -> bool {
    &&& before.replacements.is_prefix_of(after.replacements)
    &&& before.references.is_prefix_of(after.references)
    &&& numbered(before.replacements) ==> numbered(after.replacements)
}

proof fn lemma_grown_further(a: WalkModel, b: WalkModel, c: WalkModel)
    requires
        grown(a, b),
        grown(b, c),
    ensures
        grown(a, c),
{
    assert forall|i: int| 0 <= i < a.replacements.len() implies a.replacements[i]
        == c.replacements[i] by {
        assert(a.replacements[i] == b.replacements[i]);
        assert(b.replacements[i] == c.replacements[i]);
    }
    assert forall|i: int| 0 <= i < a.references.len() implies a.references[i]
        == c.references[i] by {
        assert(a.references[i] == b.references[i]);
        assert(b.references[i] == c.references[i]);
    }
}

/// Law: every scalar of a text gets the token of its number, in the order in which they are
/// found, and what was found before stays.
pub proof fn law_tokens_are_numbered(t: SyntaxTree, path: Seq<node::Step>, state: WalkModel)
    requires
        walked(t, path, state) is Ok,
    ensures
        grown(state, walked(t, path, state)->Ok_0),
    decreases t, 0nat,
{
    match t {
        SyntaxTree::Mapping(e) => {
            lemma_entries_grow(e, path, state, e.len());
        },
        SyntaxTree::Sequence(s) => {
            lemma_items_grow(s, path, state, 0, s.len());
        },
        _ => {},
    }
}

proof fn lemma_entries_grow(
    e: Seq<(Option<yaml_syntax::KeyModel>, Option<SyntaxTree>)>,
    path: Seq<node::Step>,
    state: WalkModel,
    left: nat,
)
    requires
        walked_entries(e, path, state, left) is Ok,
    ensures
        grown(state, walked_entries(e, path, state, left)->Ok_0),
    decreases e, left,
{
    if 0 < left <= e.len() {
        let i = e.len() - left;
        match e[i].1 {
            None => {
                lemma_entries_grow(e, path, state, (left - 1) as nat);
            },
            Some(value) => {
                let here = path.push(node::Step::Key(e[i].0->Some_0.text));
                assert(decreases_to!(e => e[i]));
                law_tokens_are_numbered(e[i].1->Some_0, here, state);
                let next = walked(e[i].1->Some_0, here, state)->Ok_0;
                lemma_entries_grow(e, path, next, (left - 1) as nat);
                lemma_grown_further(
                    state,
                    next,
                    walked_entries(e, path, next, (left - 1) as nat)->Ok_0,
                );
            },
        }
    }
}

proof fn lemma_items_grow(
    s: Seq<SyntaxTree>,
    path: Seq<node::Step>,
    state: WalkModel,
    index: int,
    left: nat,
)
    requires
        walked_items(s, path, state, index, left) is Ok,
    ensures
        grown(state, walked_items(s, path, state, index, left)->Ok_0),
    decreases s, left,
{
    if 0 < left <= s.len() {
        let i = s.len() - left;
        let here = path.push(node::Step::Index(index));
        if s[i] is Alias {
            let next = with_reference(state, here);
            lemma_items_grow(s, path, next, index, (left - 1) as nat);
            lemma_grown_further(
                state,
                next,
                walked_items(s, path, next, index, (left - 1) as nat)->Ok_0,
            );
        } else {
            law_tokens_are_numbered(s[i], here, state);
            let next = walked(s[i], here, state)->Ok_0;
            lemma_items_grow(s, path, next, index + 1, (left - 1) as nat);
            lemma_grown_further(
                state,
                next,
                walked_items(s, path, next, index + 1, (left - 1) as nat)->Ok_0,
            );
        }
    }
}

/// Replacements from the last of the text to the first.
pub open spec fn descending(list: Seq<ReplacementModel>) -> bool {
    forall|i: int, j: int|
        0 <= i < j < list.len() ==> (#[trigger] list[i]).start >= (#[trigger] list[j]).start
}

proof fn lemma_low_end(list: Seq<ReplacementModel>, r: ReplacementModel, low: int, i: int)
    requires
        forall|k: int| 0 <= k < list.len() ==> (#[trigger] list[k]).start >= low,
        r.start >= low,
        0 <= i < inserted(list, r).len(),
    ensures
        inserted(list, r)[i].start >= low,
    decreases list.len(),
{
    if list.len() > 0 && list.last().start < r.start {
        let head = list.drop_last();
        assert forall|k: int| 0 <= k < head.len() implies (#[trigger] head[k]).start >= low by {
            assert(head[k] == list[k]);
        }
        let front = inserted(head, r);
        if i < front.len() {
            lemma_low_end(head, r, low, i);
            assert(inserted(list, r)[i] == front[i]);
        } else {
            assert(inserted(list, r)[i] == list[list.len() - 1]);
        }
    } else if i < list.len() {
        assert(inserted(list, r)[i] == list[i]);
    }
}

proof fn lemma_inserted_replacement(list: Seq<ReplacementModel>, r: ReplacementModel)
    ensures
        inserted(list, r).to_multiset() == list.to_multiset().insert(r),
        descending(list) ==> descending(inserted(list, r)),
        inserted(list, r).len() == list.len() + 1,
    decreases list.len(),
{
    broadcast use vstd::seq_lib::group_to_multiset_ensures;

    let now = inserted(list, r);
    if list.len() > 0 && list.last().start < r.start {
        let head = list.drop_last();
        lemma_inserted_replacement(head, r);
        assert(list =~= head.push(list.last()));
        assert(now.to_multiset() =~= list.to_multiset().insert(r));
        if descending(list) {
            assert forall|i: int, j: int| 0 <= i < j < head.len() implies (
            #[trigger] head[i]).start >= (#[trigger] head[j]).start by {
                assert(list[i] == head[i] && list[j] == head[j]);
            }
            let front = inserted(head, r);
            assert forall|i: int, j: int| 0 <= i < j < now.len() implies (#[trigger] now[i]).start
                >= (#[trigger] now[j]).start by {
                assert(now[i] == front[i]);
                if j < front.len() {
                    assert(now[j] == front[j]);
                } else {
                    lemma_low_end(head, r, list.last().start, i);
                }
            }
        }
    } else {
        assert(now.to_multiset() =~= list.to_multiset().insert(r));
        if descending(list) {
            assert forall|i: int, j: int| 0 <= i < j < now.len() implies (#[trigger] now[i]).start
                >= (#[trigger] now[j]).start by {
                assert(now[i] == list[i]);
                if j < list.len() {
                    assert(now[j] == list[j]);
                } else if i < list.len() - 1 {
                    assert(list[i].start >= list[list.len() - 1].start);
                }
            }
        }
    }
}

/// Law: scalars are replaced from the end of the text to its beginning, each as often as it
/// was found, so that no replacement moves the place of another.
pub proof fn law_scalars_are_replaced_from_the_end(list: Seq<ReplacementModel>)
    ensures
        descending(from_the_end(list)),
        from_the_end(list).to_multiset() == list.to_multiset(),
    decreases list.len(),
{
    broadcast use vstd::seq_lib::group_to_multiset_ensures;

    if list.len() > 0 {
        let head = list.drop_last();
        law_scalars_are_replaced_from_the_end(head);
        lemma_inserted_replacement(from_the_end(head), list.last());
        assert(list =~= head.push(list.last()));
        assert(from_the_end(list).to_multiset() =~= list.to_multiset());
    } else {
        assert(from_the_end(list) =~= list);
    }
}

} // verus!
