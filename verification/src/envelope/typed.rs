//! The scalars of a document that an envelope lists with their types.

use vstd::prelude::*;

use crate::codec::base64_codec;
use crate::codec::yaml;
use crate::codec::yaml::YamlTree;
use crate::envelope::data;
use crate::envelope::fault::EnvelopeFault;
use crate::envelope::type_paths;
use crate::envelope::type_paths::InternalScalarType;
use crate::source::node;
use crate::source::{Node, NodePath, Scalar};

verus! {

/// The type of a scalar that a marked string stands for.
pub open spec fn kind_of(s: node::ScalarModel) -> Option<InternalScalarType> {
    match s {
        node::ScalarModel::DateTime(_) => Some(InternalScalarType::DateTime),
        node::ScalarModel::Integer(_) => Some(InternalScalarType::Integer),
        node::ScalarModel::Float(_) => Some(InternalScalarType::Float),
        node::ScalarModel::Null => Some(InternalScalarType::Null),
        _ => None,
    }
}

/// The paths of the typed scalars below a path, in order.
pub open spec fn typed(t: node::Tree, path: Seq<node::Step>) -> Seq<
    (Seq<node::Step>, InternalScalarType),
>
    decreases t, 0nat,
{
    match t {
        node::Tree::Mapping(e) => typed_entries(e, e.len(), path),
        node::Tree::Sequence(s) => typed_items(s, s.len(), path),
        node::Tree::Scalar(s) => match kind_of(s) {
            Some(kind) => seq![(path, kind)],
            None => Seq::empty(),
        },
        node::Tree::Tagged(_, v) => typed(*v, path),
    }
}

pub open spec fn typed_entries(
    e: Seq<(Seq<char>, node::Tree)>,
    n: nat,
    path: Seq<node::Step>,
) -> Seq<(Seq<node::Step>, InternalScalarType)>
    decreases e, n,
{
    if n == 0 || n > e.len() {
        Seq::empty()
    } else {
        typed_entries(e, (n - 1) as nat, path) + typed(
            e[n - 1].1,
            path.push(node::Step::Key(e[n - 1].0)),
        )
    }
}

pub open spec fn typed_items(s: Seq<node::Tree>, n: nat, path: Seq<node::Step>) -> Seq<
    (Seq<node::Step>, InternalScalarType),
>
    decreases s, n,
{
    if n == 0 || n > s.len() {
        Seq::empty()
    } else {
        typed_items(s, (n - 1) as nat, path) + typed(s[n - 1], path.push(node::Step::Index(n - 1)))
    }
}

/// The paths under their names.
pub open spec fn named(list: Seq<(Seq<node::Step>, InternalScalarType)>) -> Seq<
    (Seq<char>, InternalScalarType),
> {
    list.map_values(
        |x: (Seq<node::Step>, InternalScalarType)| (type_paths::encoded(x.0), x.1),
    )
}

/// The list of types of a document.
pub open spec fn listed(t: node::Tree) -> Seq<(Seq<char>, InternalScalarType)> {
    named(typed(t, Seq::empty()))
}

fn collect(n: &Node, path: &NodePath, out: &mut Vec<(String, InternalScalarType)>)
    ensures
        type_paths::view_types(final(out)@) == type_paths::view_types(old(out)@) + named(
            typed(n@, path@),
        ),
    decreases n,
{
    let ghost start = type_paths::view_types(out@);
    proof {
        node::lemma_view(*n);
    }
    match n {
        Node::Mapping(v) => {
            let ghost e = node::entries(v@);
            let mut i: usize = 0;
            assert(start + named(typed_entries(e, 0, path@)) =~= start);
            while i < v.len()
                invariant
                    decreases_to!(n => v@),
                    e == node::entries(v@),
                    n@ == node::Tree::Mapping(e),
                    i <= v.len(),
                    type_paths::view_types(out@) == start + named(
                        typed_entries(e, i as nat, path@),
                    ),
                decreases v.len() - i,
            {
                assert(decreases_to!(v@ => v@[i as int]));
                assert(e[i as int] == (v@[i as int].0@, v@[i as int].1@));
                let child = path.child_key(v[i].0.as_str());
                let ghost head = typed_entries(e, i as nat, path@);
                let ghost more = typed(v@[i as int].1@, child@);
                collect(&v[i].1, &child, out);
                assert(named(head + more) =~= named(head) + named(more));
                assert(start + (named(head) + named(more)) =~= (start + named(head)) + named(more));
                i = i + 1;
            }
        },
        Node::Sequence(v) => {
            let ghost s = node::trees(v@);
            let mut i: usize = 0;
            assert(start + named(typed_items(s, 0, path@)) =~= start);
            while i < v.len()
                invariant
                    decreases_to!(n => v@),
                    s == node::trees(v@),
                    n@ == node::Tree::Sequence(s),
                    i <= v.len(),
                    type_paths::view_types(out@) == start + named(
                        typed_items(s, i as nat, path@),
                    ),
                decreases v.len() - i,
            {
                assert(decreases_to!(v@ => v@[i as int]));
                assert(s[i as int] == v@[i as int]@);
                let child = path.child_index(i);
                let ghost head = typed_items(s, i as nat, path@);
                let ghost more = typed(v@[i as int]@, child@);
                collect(&v[i], &child, out);
                assert(named(head + more) =~= named(head) + named(more));
                assert(start + (named(head) + named(more)) =~= (start + named(head)) + named(more));
                i = i + 1;
            }
        },
        Node::Scalar(s) => {
            let kind = match s {
                Scalar::DateTime(_) => InternalScalarType::DateTime,
                Scalar::Integer(_) => InternalScalarType::Integer,
                Scalar::Float(_) => InternalScalarType::Float,
                Scalar::Null => InternalScalarType::Null,
                _ => {
                    assert(start + named(typed(n@, path@)) =~= start);
                    return;
                },
            };
            let ghost before = out@;
            out.push((type_paths::encode_path(path), kind));
            assert(type_paths::view_types(out@) =~= start + named(typed(n@, path@)));
        },
        Node::Tagged { tag: _, value } => {
            collect(value, path, out);
        },
    }
}

/// Lists the typed scalars of a document.
pub fn collect_type_paths(n: &Node) -> (r: Vec<(String, InternalScalarType)>)
    ensures
        type_paths::view_types(r@) == listed(n@),
{
    let mut out: Vec<(String, InternalScalarType)> = Vec::new();
    collect(n, &NodePath::root(), &mut out);
    assert(type_paths::view_types(out@) =~= listed(n@));
    out
}

/// A path goes through another.
pub open spec fn under(p: Seq<node::Step>, prefix: Seq<node::Step>) -> bool {
    p.len() >= prefix.len() && p.take(prefix.len() as int) == prefix
}

proof fn lemma_under_child(p: Seq<node::Step>, path: Seq<node::Step>, step: node::Step)
    ensures
        under(p, path.push(step)) <==> p.len() > path.len() && under(p, path) && p[path.len() as int]
            == step,
{
    let child = path.push(step);
    if under(p, child) {
        assert(p.take(path.len() as int) =~= child.take(path.len() as int));
        assert(child.take(path.len() as int) =~= path);
        assert(p.take(child.len() as int)[path.len() as int] == step);
    }
    if p.len() > path.len() && under(p, path) && p[path.len() as int] == step {
        assert(p.take(child.len() as int) =~= p.take(path.len() as int).push(step));
    }
}

/// Every listed path goes through the path that the listing started from.
proof fn lemma_typed_under(t: node::Tree, path: Seq<node::Step>, k: int)
    requires
        0 <= k < typed(t, path).len(),
    ensures
        under(typed(t, path)[k].0, path),
    decreases t, 0nat,
{
    match t {
        node::Tree::Mapping(e) => {
            lemma_entries_under(e, e.len(), path, k);
        },
        node::Tree::Sequence(s) => {
            lemma_items_under(s, s.len(), path, k);
        },
        node::Tree::Scalar(s) => {
            assert(path.take(path.len() as int) =~= path);
        },
        node::Tree::Tagged(_, v) => {
            lemma_typed_under(*v, path, k);
        },
    }
}

proof fn lemma_entries_under(
    e: Seq<(Seq<char>, node::Tree)>,
    n: nat,
    path: Seq<node::Step>,
    k: int,
)
    requires
        n <= e.len(),
        0 <= k < typed_entries(e, n, path).len(),
    ensures
        ({
            let p = typed_entries(e, n, path)[k].0;
            &&& under(p, path)
            &&& p.len() > path.len()
            &&& exists|j: int|
                0 <= j < n && p[path.len() as int] == node::Step::Key((#[trigger] e[j]).0)
                    && exists|i: int|
                    0 <= i < typed(e[j].1, path.push(node::Step::Key(e[j].0))).len()
                        && #[trigger] typed(e[j].1, path.push(node::Step::Key(e[j].0)))[i]
                        == typed_entries(e, n, path)[k]
        }),
    decreases e, n,
{
    let head = typed_entries(e, (n - 1) as nat, path);
    if k < head.len() {
        lemma_entries_under(e, (n - 1) as nat, path, k);
        assert(typed_entries(e, n, path)[k] == head[k]);
    } else {
        let step = node::Step::Key(e[n - 1].0);
        let more = typed(e[n - 1].1, path.push(step));
        lemma_typed_under(e[n - 1].1, path.push(step), k - head.len());
        assert(typed_entries(e, n, path)[k] == more[k - head.len()]);
        lemma_under_child(more[k - head.len()].0, path, step);
    }
}

proof fn lemma_items_under(s: Seq<node::Tree>, n: nat, path: Seq<node::Step>, k: int)
    requires
        n <= s.len(),
        0 <= k < typed_items(s, n, path).len(),
    ensures
        ({
            let p = typed_items(s, n, path)[k].0;
            &&& under(p, path)
            &&& p.len() > path.len()
            &&& exists|j: int|
                0 <= j < n && p[path.len() as int] == node::Step::Index(j)
                    && exists|i: int|
                    0 <= i < typed(#[trigger] s[j], path.push(node::Step::Index(j))).len()
                        && #[trigger] typed(s[j], path.push(node::Step::Index(j)))[i]
                        == typed_items(s, n, path)[k]
        }),
    decreases s, n,
{
    let head = typed_items(s, (n - 1) as nat, path);
    if k < head.len() {
        lemma_items_under(s, (n - 1) as nat, path, k);
        assert(typed_items(s, n, path)[k] == head[k]);
    } else {
        let step = node::Step::Index(n - 1);
        let more = typed(s[n - 1], path.push(step));
        lemma_typed_under(s[n - 1], path.push(step), k - head.len());
        assert(typed_items(s, n, path)[k] == more[k - head.len()]);
        lemma_under_child(more[k - head.len()].0, path, step);
    }
}

/// No path is listed twice.
pub open spec fn distinct_paths(list: Seq<(Seq<node::Step>, InternalScalarType)>) -> bool {
    forall|i: int, j: int|
        0 <= i < j < list.len() ==> (#[trigger] list[i]).0 != (#[trigger] list[j]).0
}

proof fn lemma_typed_distinct(t: node::Tree, path: Seq<node::Step>)
    requires
        node::well_keyed(t),
    ensures
        distinct_paths(typed(t, path)),
    decreases t, 0nat,
{
    match t {
        node::Tree::Mapping(e) => {
            lemma_entries_distinct(e, e.len(), path);
        },
        node::Tree::Sequence(s) => {
            lemma_items_distinct(s, s.len(), path);
        },
        node::Tree::Scalar(_) => {},
        node::Tree::Tagged(_, v) => {
            lemma_typed_distinct(*v, path);
        },
    }
}

proof fn lemma_entries_distinct(e: Seq<(Seq<char>, node::Tree)>, n: nat, path: Seq<node::Step>)
    requires
        n <= e.len(),
        node::well_keyed(node::Tree::Mapping(e)),
    ensures
        distinct_paths(typed_entries(e, n, path)),
    decreases e, n,
{
    if n > 0 {
        let head = typed_entries(e, (n - 1) as nat, path);
        let step = node::Step::Key(e[n - 1].0);
        let more = typed(e[n - 1].1, path.push(step));
        lemma_entries_distinct(e, (n - 1) as nat, path);
        assert(node::well_keyed(e[n - 1].1));
        lemma_typed_distinct(e[n - 1].1, path.push(step));
        let all = head + more;
        assert forall|i: int, j: int| 0 <= i < j < all.len() implies (#[trigger] all[i]).0 != (
        #[trigger] all[j]).0 by {
            if i < head.len() && j >= head.len() {
                lemma_entries_under(e, (n - 1) as nat, path, i);
                lemma_typed_under(e[n - 1].1, path.push(step), j - head.len());
                lemma_under_child(more[j - head.len()].0, path, step);
                let k = choose|k: int|
                    0 <= k < n - 1 && head[i].0[path.len() as int] == node::Step::Key(
                        (#[trigger] e[k]).0,
                    );
                assert(node::keys(e)[k] == e[k].0);
                assert(node::keys(e)[n - 1] == e[n - 1].0);
            }
        }
    }
}

proof fn lemma_items_distinct(s: Seq<node::Tree>, n: nat, path: Seq<node::Step>)
    requires
        n <= s.len(),
        node::well_keyed(node::Tree::Sequence(s)),
    ensures
        distinct_paths(typed_items(s, n, path)),
    decreases s, n,
{
    if n > 0 {
        let head = typed_items(s, (n - 1) as nat, path);
        let step = node::Step::Index(n - 1);
        let more = typed(s[n - 1], path.push(step));
        lemma_items_distinct(s, (n - 1) as nat, path);
        let whole = node::Tree::Sequence(s);
        assert(node::well_keyed(whole->Sequence_0[n - 1]));
        lemma_typed_distinct(s[n - 1], path.push(step));
        let all = head + more;
        assert forall|i: int, j: int| 0 <= i < j < all.len() implies (#[trigger] all[i]).0 != (
        #[trigger] all[j]).0 by {
            if i < head.len() && j >= head.len() {
                lemma_items_under(s, (n - 1) as nat, path, i);
                lemma_typed_under(s[n - 1], path.push(step), j - head.len());
                lemma_under_child(more[j - head.len()].0, path, step);
            }
        }
    }
}

/// Types that tell the typed scalars of a document from its strings.
pub open spec fn agrees(
    t: node::Tree,
    path: Seq<node::Step>,
    types: Seq<(Seq<char>, InternalScalarType)>,
) -> bool
    decreases t,
{
    match t {
        node::Tree::Mapping(e) => forall|i: int|
            0 <= i < e.len() ==> agrees(
                (#[trigger] e[i]).1,
                path.push(node::Step::Key(e[i].0)),
                types,
            ),
        node::Tree::Sequence(s) => forall|i: int|
            0 <= i < s.len() ==> agrees(
                #[trigger] s[i],
                path.push(node::Step::Index(i)),
                types,
            ),
        node::Tree::Scalar(s) => s is Bool || type_paths::type_at(types, type_paths::encoded(path))
            == kind_of(s),
        node::Tree::Tagged(_, v) => agrees(*v, path, types),
    }
}

/// Every tag is written as YAML shows it.
pub open spec fn shown_tags(t: node::Tree) -> bool
    decreases t,
{
    match t {
        node::Tree::Mapping(e) => forall|i: int| 0 <= i < e.len() ==> shown_tags(#[trigger] e[i].1),
        node::Tree::Sequence(s) => forall|i: int| 0 <= i < s.len() ==> shown_tags(#[trigger] s[i]),
        node::Tree::Scalar(_) => true,
        node::Tree::Tagged(tag, v) => yaml::shown_tag(tag) == tag && shown_tags(*v),
    }
}

proof fn lemma_unmarked(prefix: Seq<char>, value: Seq<char>)
    requires
        data::decodes(value),
    ensures
        data::unmarked(prefix, data::marked(prefix, value)) == Some(value),
{
    let s = data::marked(prefix, value);
    let body = base64_codec::base64_text(vstd::utf8::encode_utf8(value));
    assert(s.skip(prefix.len() as int) =~= body);
    assert(s.subrange(0, prefix.len() as int) =~= prefix);
    vstd::utf8::encode_utf8_decode_utf8(value);
    vstd::utf8::encode_utf8_valid_utf8(value);
}

/// Law: the data of an envelope holds the value that it was made of, where the list
/// of types tells the typed scalars from the strings.
pub proof fn law_data_is_restored(
    t: node::Tree,
    path: Seq<node::Step>,
    types: Seq<(Seq<char>, InternalScalarType)>,
)
    requires
        node::well_keyed(t),
        shown_tags(t),
        data::decodable(t),
        agrees(t, path, types),
    ensures
        data::data_of(data::data_tree(t), path, types) == Ok::<node::Tree, EnvelopeFault>(t),
    decreases t, 0nat,
{
    match t {
        node::Tree::Mapping(e) => {
            lemma_entries_restored(e, e.len(), path, types);
            assert(e.take(e.len() as int) =~= e);
        },
        node::Tree::Sequence(s) => {
            lemma_items_restored(s, s.len(), path, types);
            assert(s.take(s.len() as int) =~= s);
        },
        node::Tree::Scalar(s) => match s {
            node::ScalarModel::DateTime(v) => {
                lemma_unmarked("gitveil:datetime:"@, v);
            },
            node::ScalarModel::Integer(v) => {
                lemma_unmarked("gitveil:integer:"@, v);
            },
            node::ScalarModel::Float(v) => {
                lemma_unmarked("gitveil:float:"@, v);
            },
            _ => {},
        },
        node::Tree::Tagged(_, v) => {
            law_data_is_restored(*v, path, types);
        },
    }
}

proof fn lemma_entries_restored(
    e: Seq<(Seq<char>, node::Tree)>,
    n: nat,
    path: Seq<node::Step>,
    types: Seq<(Seq<char>, InternalScalarType)>,
)
    requires
        n <= e.len(),
        node::well_keyed(node::Tree::Mapping(e)),
        shown_tags(node::Tree::Mapping(e)),
        data::decodable(node::Tree::Mapping(e)),
        agrees(node::Tree::Mapping(e), path, types),
    ensures
        data::entries_of(data::data_tree(node::Tree::Mapping(e))->Mapping_0, n, path, types) == Ok::<
            Seq<(Seq<char>, node::Tree)>,
            EnvelopeFault,
        >(e.take(n as int)),
    decreases e, n,
{
    let m = data::data_tree(node::Tree::Mapping(e))->Mapping_0;
    if n > 0 {
        lemma_entries_restored(e, (n - 1) as nat, path, types);
        let head = e.take(n - 1);
        assert(m[n - 1] == (YamlTree::String(e[n - 1].0), data::data_tree(e[n - 1].1)));
        assert(!node::keys(head).contains(e[n - 1].0)) by {
            if node::keys(head).contains(e[n - 1].0) {
                let k = choose|k: int|
                    0 <= k < node::keys(head).len() && node::keys(head)[k] == e[n - 1].0;
                assert(node::keys(e)[k] == node::keys(head)[k]);
                assert(node::keys(e)[n - 1] == e[n - 1].0);
            }
        }
        assert(node::well_keyed(e[n - 1].1));
        assert(shown_tags(e[n - 1].1));
        assert(data::decodable(e[n - 1].1));
        assert(agrees(e[n - 1].1, path.push(node::Step::Key(e[n - 1].0)), types));
        law_data_is_restored(e[n - 1].1, path.push(node::Step::Key(e[n - 1].0)), types);
        assert(head.push((e[n - 1].0, e[n - 1].1)) =~= e.take(n as int));
    } else {
        assert(e.take(0) =~= Seq::<(Seq<char>, node::Tree)>::empty());
    }
}

proof fn lemma_items_restored(
    s: Seq<node::Tree>,
    n: nat,
    path: Seq<node::Step>,
    types: Seq<(Seq<char>, InternalScalarType)>,
)
    requires
        n <= s.len(),
        node::well_keyed(node::Tree::Sequence(s)),
        shown_tags(node::Tree::Sequence(s)),
        data::decodable(node::Tree::Sequence(s)),
        agrees(node::Tree::Sequence(s), path, types),
    ensures
        data::items_of(data::data_tree(node::Tree::Sequence(s))->Sequence_0, n, path, types) == Ok::<
            Seq<node::Tree>,
            EnvelopeFault,
        >(s.take(n as int)),
    decreases s, n,
{
    let whole = node::Tree::Sequence(s);
    let list = data::data_tree(whole)->Sequence_0;
    if n > 0 {
        lemma_items_restored(s, (n - 1) as nat, path, types);
        assert(list[n - 1] == data::data_tree(s[n - 1]));
        assert(node::well_keyed(whole->Sequence_0[n - 1]));
        assert(shown_tags(whole->Sequence_0[n - 1]));
        assert(data::decodable(whole->Sequence_0[n - 1]));
        assert(agrees(whole->Sequence_0[n - 1], path.push(node::Step::Index(n - 1)), types));
        law_data_is_restored(s[n - 1], path.push(node::Step::Index(n - 1)), types);
        assert(s.take(n - 1).push(s[n - 1]) =~= s.take(n as int));
    } else {
        assert(s.take(0) =~= Seq::<node::Tree>::empty());
    }
}

pub open spec fn natural_paths(list: Seq<(Seq<node::Step>, InternalScalarType)>) -> bool {
    forall|i: int| 0 <= i < list.len() ==> type_paths::natural((#[trigger] list[i]).0)
}

/// The type of a listed path is found by its name.
proof fn lemma_named(
    list: Seq<(Seq<node::Step>, InternalScalarType)>,
    p: Seq<node::Step>,
)
    requires
        natural_paths(list),
        distinct_paths(list),
        type_paths::natural(p),
    ensures
        forall|k: int|
            0 <= k < list.len() && (#[trigger] list[k]).0 == p ==> type_paths::type_at(
                named(list),
                type_paths::encoded(p),
            ) == Some(list[k].1),
        (forall|k: int| 0 <= k < list.len() ==> (#[trigger] list[k]).0 != p) ==> type_paths::type_at(
            named(list),
            type_paths::encoded(p),
        ) is None,
    decreases list.len(),
{
    if list.len() > 0 {
        let rest = list.skip(1);
        assert forall|i: int| 0 <= i < rest.len() implies type_paths::natural(
            (#[trigger] rest[i]).0,
        ) by {
            assert(rest[i] == list[i + 1]);
        }
        assert forall|i: int, j: int| 0 <= i < j < rest.len() implies (#[trigger] rest[i]).0 != (
        #[trigger] rest[j]).0 by {
            assert(rest[i] == list[i + 1] && rest[j] == list[j + 1]);
        }
        lemma_named(rest, p);
        assert(named(list).skip(1) =~= named(rest));
        assert(named(list)[0] == (type_paths::encoded(list[0].0), list[0].1));
        if type_paths::encoded(list[0].0) == type_paths::encoded(p) {
            assert(type_paths::natural(list[0].0));
            type_paths::law_encoded_paths_are_distinct(list[0].0, p);
        }
        assert forall|k: int| 0 <= k < list.len() && (#[trigger] list[k]).0 == p implies
            type_paths::type_at(named(list), type_paths::encoded(p)) == Some(list[k].1) by {
            if k > 0 {
                assert(rest[k - 1] == list[k]);
                assert(list[0].0 != list[k].0);
            }
        }
        if forall|k: int| 0 <= k < list.len() ==> (#[trigger] list[k]).0 != p {
            assert forall|k: int| 0 <= k < rest.len() implies (#[trigger] rest[k]).0 != p by {
                assert(rest[k] == list[k + 1]);
            }
        }
    }
}

/// What a listing holds below a path is what it lists of the value there.
pub open spec fn lists(
    list: Seq<(Seq<node::Step>, InternalScalarType)>,
    t: node::Tree,
    path: Seq<node::Step>,
) -> bool {
    &&& forall|k: int|
        0 <= k < typed(t, path).len() ==> list.contains(#[trigger] typed(t, path)[k])
    &&& forall|k: int|
        0 <= k < list.len() && under((#[trigger] list[k]).0, path) ==> typed(t, path).contains(
            list[k],
        )
}

proof fn lemma_entries_contain(e: Seq<(Seq<char>, node::Tree)>, n: nat, path: Seq<node::Step>, i: int)
    requires
        0 <= i < n <= e.len(),
    ensures
        forall|k: int|
            0 <= k < typed(e[i].1, path.push(node::Step::Key(e[i].0))).len() ==> typed_entries(
                e,
                n,
                path,
            ).contains(#[trigger] typed(e[i].1, path.push(node::Step::Key(e[i].0)))[k]),
    decreases n,
{
    let part = typed(e[i].1, path.push(node::Step::Key(e[i].0)));
    let head = typed_entries(e, (n - 1) as nat, path);
    let last = typed(e[n - 1].1, path.push(node::Step::Key(e[n - 1].0)));
    let all = typed_entries(e, n, path);
    if i < n - 1 {
        lemma_entries_contain(e, (n - 1) as nat, path, i);
    }
    assert forall|k: int| 0 <= k < part.len() implies all.contains(#[trigger] part[k]) by {
        if i < n - 1 {
            let j = choose|j: int| 0 <= j < head.len() && head[j] == part[k];
            assert(all[j] == part[k]);
        } else {
            assert(all[head.len() + k] == part[k]);
        }
    }
}

proof fn lemma_items_contain(s: Seq<node::Tree>, n: nat, path: Seq<node::Step>, i: int)
    requires
        0 <= i < n <= s.len(),
    ensures
        forall|k: int|
            0 <= k < typed(s[i], path.push(node::Step::Index(i))).len() ==> typed_items(
                s,
                n,
                path,
            ).contains(#[trigger] typed(s[i], path.push(node::Step::Index(i)))[k]),
    decreases n,
{
    let part = typed(s[i], path.push(node::Step::Index(i)));
    let head = typed_items(s, (n - 1) as nat, path);
    let all = typed_items(s, n, path);
    if i < n - 1 {
        lemma_items_contain(s, (n - 1) as nat, path, i);
    }
    assert forall|k: int| 0 <= k < part.len() implies all.contains(#[trigger] part[k]) by {
        if i < n - 1 {
            let j = choose|j: int| 0 <= j < head.len() && head[j] == part[k];
            assert(all[j] == part[k]);
        } else {
            assert(all[head.len() + k] == part[k]);
        }
    }
}

/// A listing tells the typed scalars below a path from the strings there.
proof fn lemma_agrees(
    t: node::Tree,
    path: Seq<node::Step>,
    list: Seq<(Seq<node::Step>, InternalScalarType)>,
)
    requires
        node::well_keyed(t),
        type_paths::natural(path),
        natural_paths(list),
        distinct_paths(list),
        lists(list, t, path),
    ensures
        agrees(t, path, named(list)),
    decreases t,
{
    match t {
        node::Tree::Mapping(e) => {
            assert forall|i: int| 0 <= i < e.len() implies agrees(
                (#[trigger] e[i]).1,
                path.push(node::Step::Key(e[i].0)),
                named(list),
            ) by {
                let step = node::Step::Key(e[i].0);
                let child = path.push(step);
                let part = typed(e[i].1, child);
                assert(node::well_keyed(e[i].1));
                lemma_entries_contain(e, e.len(), path, i);
                assert forall|k: int| 0 <= k < part.len() implies list.contains(
                    #[trigger] part[k],
                ) by {
                    let all = typed(t, path);
                    let j = choose|j: int| 0 <= j < all.len() && all[j] == part[k];
                    assert(list.contains(all[j]));
                }
                assert forall|k: int|
                    0 <= k < list.len() && under((#[trigger] list[k]).0, child) implies part.contains(
                    list[k],
                ) by {
                    lemma_under_child(list[k].0, path, step);
                    let all = typed(t, path);
                    assert(all.contains(list[k]));
                    let j = choose|j: int| 0 <= j < all.len() && all[j] == list[k];
                    lemma_entries_under(e, e.len(), path, j);
                    let x = choose|x: int|
                        0 <= x < e.len() && all[j].0[path.len() as int] == node::Step::Key(
                            (#[trigger] e[x]).0,
                        ) && exists|y: int|
                            0 <= y < typed(e[x].1, path.push(node::Step::Key(e[x].0))).len()
                                && #[trigger] typed(e[x].1, path.push(node::Step::Key(e[x].0)))[y]
                                == all[j];
                    assert(node::keys(e)[x] == e[x].0);
                    assert(node::keys(e)[i] == e[i].0);
                    assert(x == i);
                }
                assert forall|k: int| 0 <= k < child.len() implies ((
                #[trigger] child[k]) matches node::Step::Index(n) ==> 0 <= n) by {
                    if k < path.len() {
                        assert(child[k] == path[k]);
                    }
                }
                assert(decreases_to!(e => e[i]));
                lemma_agrees(e[i].1, child, list);
            }
        },
        node::Tree::Sequence(s) => {
            assert forall|i: int| 0 <= i < s.len() implies agrees(
                #[trigger] s[i],
                path.push(node::Step::Index(i)),
                named(list),
            ) by {
                let step = node::Step::Index(i);
                let child = path.push(step);
                let part = typed(s[i], child);
                assert(node::well_keyed(t->Sequence_0[i]));
                lemma_items_contain(s, s.len(), path, i);
                assert forall|k: int| 0 <= k < part.len() implies list.contains(
                    #[trigger] part[k],
                ) by {
                    let all = typed(t, path);
                    let j = choose|j: int| 0 <= j < all.len() && all[j] == part[k];
                    assert(list.contains(all[j]));
                }
                assert forall|k: int|
                    0 <= k < list.len() && under((#[trigger] list[k]).0, child) implies part.contains(
                    list[k],
                ) by {
                    lemma_under_child(list[k].0, path, step);
                    let all = typed(t, path);
                    assert(all.contains(list[k]));
                    let j = choose|j: int| 0 <= j < all.len() && all[j] == list[k];
                    lemma_items_under(s, s.len(), path, j);
                }
                assert forall|k: int| 0 <= k < child.len() implies ((
                #[trigger] child[k]) matches node::Step::Index(n) ==> 0 <= n) by {
                    if k < path.len() {
                        assert(child[k] == path[k]);
                    }
                }
                assert(decreases_to!(s => s[i]));
                lemma_agrees(s[i], child, list);
            }
        },
        node::Tree::Scalar(s) => {
            lemma_named(list, path);
            let own = typed(t, path);
            assert(under(path, path)) by {
                assert(path.take(path.len() as int) =~= path);
            }
            match kind_of(s) {
                Some(kind) => {
                    assert(own[0] == (path, kind));
                    assert(list.contains(own[0]));
                    let k = choose|k: int| 0 <= k < list.len() && list[k] == own[0];
                    assert(list[k].0 == path);
                },
                None => {
                    assert forall|k: int| 0 <= k < list.len() implies (#[trigger] list[k]).0
                        != path by {
                        if list[k].0 == path {
                            assert(own.contains(list[k]));
                        }
                    }
                },
            }
        },
        node::Tree::Tagged(_, v) => {
            assert(typed(*v, path) == typed(t, path));
            assert forall|k: int| 0 <= k < typed(*v, path).len() implies list.contains(
                #[trigger] typed(*v, path)[k],
            ) by {
                assert(list.contains(typed(t, path)[k]));
            }
            lemma_agrees(*v, path, list);
        },
    }
}

proof fn lemma_typed_natural(t: node::Tree, path: Seq<node::Step>)
    requires
        type_paths::natural(path),
    ensures
        natural_paths(typed(t, path)),
    decreases t, 0nat,
{
    match t {
        node::Tree::Mapping(e) => {
            lemma_entries_natural(e, e.len(), path);
        },
        node::Tree::Sequence(s) => {
            lemma_items_natural(s, s.len(), path);
        },
        node::Tree::Scalar(_) => {},
        node::Tree::Tagged(_, v) => {
            lemma_typed_natural(*v, path);
        },
    }
}

proof fn lemma_entries_natural(e: Seq<(Seq<char>, node::Tree)>, n: nat, path: Seq<node::Step>)
    requires
        n <= e.len(),
        type_paths::natural(path),
    ensures
        natural_paths(typed_entries(e, n, path)),
    decreases e, n,
{
    if n > 0 {
        let head = typed_entries(e, (n - 1) as nat, path);
        let child = path.push(node::Step::Key(e[n - 1].0));
        assert forall|k: int| 0 <= k < child.len() implies ((
        #[trigger] child[k]) matches node::Step::Index(i) ==> 0 <= i) by {
            if k < path.len() {
                assert(child[k] == path[k]);
            }
        }
        lemma_entries_natural(e, (n - 1) as nat, path);
        lemma_typed_natural(e[n - 1].1, child);
        let more = typed(e[n - 1].1, child);
        let all = head + more;
        assert forall|k: int| 0 <= k < all.len() implies type_paths::natural(
            (#[trigger] all[k]).0,
        ) by {
            if k < head.len() {
                assert(all[k] == head[k]);
            } else {
                assert(all[k] == more[k - head.len()]);
            }
        }
    }
}

proof fn lemma_items_natural(s: Seq<node::Tree>, n: nat, path: Seq<node::Step>)
    requires
        n <= s.len(),
        type_paths::natural(path),
    ensures
        natural_paths(typed_items(s, n, path)),
    decreases s, n,
{
    if n > 0 {
        let head = typed_items(s, (n - 1) as nat, path);
        let child = path.push(node::Step::Index(n - 1));
        assert forall|k: int| 0 <= k < child.len() implies ((
        #[trigger] child[k]) matches node::Step::Index(i) ==> 0 <= i) by {
            if k < path.len() {
                assert(child[k] == path[k]);
            }
        }
        lemma_items_natural(s, (n - 1) as nat, path);
        lemma_typed_natural(s[n - 1], child);
        let more = typed(s[n - 1], child);
        let all = head + more;
        assert forall|k: int| 0 <= k < all.len() implies type_paths::natural(
            (#[trigger] all[k]).0,
        ) by {
            if k < head.len() {
                assert(all[k] == head[k]);
            } else {
                assert(all[k] == more[k - head.len()]);
            }
        }
    }
}

/// Law: the list of types of a document tells its typed scalars from its strings,
/// and lists no name twice.
pub proof fn law_listed_types_agree(t: node::Tree)
    requires
        node::well_keyed(t),
    ensures
        agrees(t, Seq::empty(), listed(t)),
        type_paths::type_names(listed(t)).no_duplicates(),
        forall|i: int|
            0 <= i < listed(t).len() ==> type_paths::valid_name((#[trigger] listed(t)[i]).0),
{
    let root = Seq::<node::Step>::empty();
    let list = typed(t, root);
    lemma_typed_distinct(t, root);
    lemma_typed_natural(t, root);
    lemma_agrees(t, root, list);
    let names = type_paths::type_names(listed(t));
    assert forall|i: int, j: int| 0 <= i < j < names.len() implies names[i] != names[j] by {
        assert(names[i] == type_paths::encoded(list[i].0));
        assert(names[j] == type_paths::encoded(list[j].0));
        if names[i] == names[j] {
            type_paths::law_encoded_paths_are_distinct(list[i].0, list[j].0);
        }
    }
    assert forall|i: int| 0 <= i < listed(t).len() implies type_paths::valid_name(
        (#[trigger] listed(t)[i]).0,
    ) by {
        assert(listed(t)[i].0 == type_paths::encoded(list[i].0));
        type_paths::lemma_encoded_name(list[i].0);
    }
}

} // verus!
