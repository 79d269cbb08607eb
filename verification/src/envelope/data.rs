//! The data of an envelope: a document's value as YAML, and back.

use vstd::prelude::*;
use vstd::string::StrSliceExecFns;

use crate::codec::base64_codec;
use crate::codec::yaml;
use crate::codec::yaml::{YamlParts, YamlTree, YamlValue};
use crate::envelope::fault::{EnvelopeError, EnvelopeFault};
use crate::envelope::type_paths;
use crate::envelope::type_paths::InternalScalarType;
use crate::segment;
use crate::source::node;
use crate::source::{Node, NodePath, Scalar};
use crate::text;

verus! {

/// A text that stands for another, in Base64 behind a prefix.
pub open spec fn marked(prefix: Seq<char>, value: Seq<char>) -> Seq<char> {
    prefix + base64_codec::base64_text(vstd::utf8::encode_utf8(value))
}

/// The string or flag that stands for a scalar.
pub open spec fn scalar_tree(s: node::ScalarModel) -> YamlTree {
    match s {
        node::ScalarModel::String(v) => YamlTree::String(v),
        node::ScalarModel::DateTime(v) => YamlTree::String(marked("gitveil:datetime:"@, v)),
        node::ScalarModel::Integer(v) => YamlTree::String(marked("gitveil:integer:"@, v)),
        node::ScalarModel::Float(v) => YamlTree::String(marked("gitveil:float:"@, v)),
        node::ScalarModel::Bool(b) => YamlTree::Bool(b),
        node::ScalarModel::Null => YamlTree::String("gitveil:null"@),
    }
}

/// The data of an envelope for a document's value.
pub open spec fn data_tree(t: node::Tree) -> YamlTree
    decreases t,
{
    match t {
        node::Tree::Mapping(e) => YamlTree::Mapping(
            Seq::new(
                e.len(),
                |i: int|
                    if 0 <= i < e.len() {
                        (YamlTree::String(e[i].0), data_tree(e[i].1))
                    } else {
                        arbitrary()
                    },
            ),
        ),
        node::Tree::Sequence(s) => YamlTree::Sequence(
            Seq::new(
                s.len(),
                |i: int|
                    if 0 <= i < s.len() {
                        data_tree(s[i])
                    } else {
                        arbitrary()
                    },
            ),
        ),
        node::Tree::Scalar(s) => scalar_tree(s),
        node::Tree::Tagged(tag, v) => YamlTree::Tagged(
            yaml::shown_tag(tag),
            Box::new(data_tree(*v)),
        ),
    }
}

/// The Base64 text of a text is decoded to its bytes.
pub open spec fn decodes(value: Seq<char>) -> bool {
    base64_codec::base64_bytes(base64_codec::base64_text(vstd::utf8::encode_utf8(value))) == Some(
        vstd::utf8::encode_utf8(value),
    )
}

/// Every Base64 text of the data is decoded to its bytes.
pub open spec fn decodable(t: node::Tree) -> bool
    decreases t,
{
    match t {
        node::Tree::Mapping(e) => forall|i: int| 0 <= i < e.len() ==> decodable(#[trigger] e[i].1),
        node::Tree::Sequence(s) => forall|i: int| 0 <= i < s.len() ==> decodable(#[trigger] s[i]),
        node::Tree::Scalar(s) => match s {
            node::ScalarModel::DateTime(v) => decodes(v),
            node::ScalarModel::Integer(v) => decodes(v),
            node::ScalarModel::Float(v) => decodes(v),
            _ => true,
        },
        node::Tree::Tagged(_, v) => decodable(*v),
    }
}

fn mark(prefix: &str, value: &str) -> (r: String)
    ensures
        r@ == marked(prefix@, value@),
        decodes(value@),
{
    let encoded = base64_codec::encode(value.as_bytes_vec().as_slice());
    text::cat2(prefix, encoded.as_str())
}

/// Makes the data of an envelope.
pub(crate) fn node_to_yaml(n: &Node) -> (r: yaml_serde::Value)
    requires
        node::well_keyed(n@),
        node::named_tags(n@),
    ensures
        yaml::yaml_tree(r) == data_tree(n@),
        decodable(n@),
    decreases n,
{
    proof {
        node::lemma_view(*n);
    }
    match n {
        Node::Mapping(v) => {
            let ghost e = node::entries(v@);
            let mut out: Vec<(String, yaml_serde::Value)> = Vec::new();
            let mut i: usize = 0;
            while i < v.len()
                invariant
                    decreases_to!(n => v@),
                    e == node::entries(v@),
                    n@ == node::Tree::Mapping(e),
                    node::well_keyed(n@),
                    node::named_tags(n@),
                    i <= v.len(),
                    out@.len() == i,
                    forall|j: int|
                        0 <= j < i ==> (#[trigger] out@[j]).0@ == e[j].0 && yaml::yaml_tree(
                            out@[j].1,
                        ) == data_tree(e[j].1),
                    forall|j: int| 0 <= j < i ==> decodable(#[trigger] e[j].1),
                decreases v.len() - i,
            {
                assert(decreases_to!(v@ => v@[i as int]));
                assert(e[i as int] == (v@[i as int].0@, v@[i as int].1@));
                assert(node::well_keyed(e[i as int].1));
                assert(node::named_tags(e[i as int].1));
                out.push((v[i].0.clone(), node_to_yaml(&v[i].1)));
                i = i + 1;
            }
            assert(yaml::key_texts(out@) =~= node::keys(e));
            assert(yaml::keyed(out@) =~= data_tree(n@)->Mapping_0);
            yaml::yaml_build(YamlParts::Mapping(out))
        },
        Node::Sequence(v) => {
            let ghost s = node::trees(v@);
            let mut out: Vec<yaml_serde::Value> = Vec::new();
            let mut i: usize = 0;
            while i < v.len()
                invariant
                    decreases_to!(n => v@),
                    s == node::trees(v@),
                    n@ == node::Tree::Sequence(s),
                    node::well_keyed(n@),
                    node::named_tags(n@),
                    i <= v.len(),
                    out@.len() == i,
                    forall|j: int|
                        0 <= j < i ==> yaml::yaml_tree(#[trigger] out@[j]) == data_tree(s[j]),
                    forall|j: int| 0 <= j < i ==> decodable(#[trigger] s[j]),
                decreases v.len() - i,
            {
                assert(decreases_to!(v@ => v@[i as int]));
                assert(s[i as int] == v@[i as int]@);
                assert(node::well_keyed(n@->Sequence_0[i as int]));
                assert(node::named_tags(n@->Sequence_0[i as int]));
                out.push(node_to_yaml(&v[i]));
                i = i + 1;
            }
            assert(yaml::outside_items(out@) =~= data_tree(n@)->Sequence_0);
            yaml::yaml_build(YamlParts::Sequence(out))
        },
        Node::Scalar(s) => match s {
            Scalar::String(v) => yaml::yaml_build(YamlParts::String(v.clone())),
            Scalar::DateTime(v) => yaml::yaml_build(
                YamlParts::String(mark("gitveil:datetime:", v.as_str())),
            ),
            Scalar::Integer(v) => yaml::yaml_build(
                YamlParts::String(mark("gitveil:integer:", v.as_str())),
            ),
            Scalar::Float(v) => yaml::yaml_build(
                YamlParts::String(mark("gitveil:float:", v.as_str())),
            ),
            Scalar::Bool(b) => yaml::yaml_build(YamlParts::Bool(*b)),
            Scalar::Null => yaml::yaml_build(YamlParts::String("gitveil:null".to_owned())),
        },
        Node::Tagged { tag, value } => yaml::yaml_build(
            YamlParts::Tagged(tag.clone(), node_to_yaml(value)),
        ),
    }
}

/// The text that a marked string stands for.
pub open spec fn unmarked(prefix: Seq<char>, s: Seq<char>) -> Option<Seq<char>> {
    if !text::starts_with(s, prefix) {
        None
    } else {
        match base64_codec::base64_bytes(s.skip(prefix.len() as int)) {
            None => None,
            Some(bytes) => if vstd::utf8::valid_utf8(bytes) {
                Some(vstd::utf8::decode_utf8(bytes))
            } else {
                None
            },
        }
    }
}

/// The scalar that a string stands for.
pub open spec fn scalar_of(s: Seq<char>, kind: Option<InternalScalarType>) -> Option<
    node::ScalarModel,
> {
    match kind {
        None => Some(node::ScalarModel::String(s)),
        Some(InternalScalarType::DateTime) => match unmarked("gitveil:datetime:"@, s) {
            Some(v) => Some(node::ScalarModel::DateTime(v)),
            None => None,
        },
        Some(InternalScalarType::Integer) => match unmarked("gitveil:integer:"@, s) {
            Some(v) => Some(node::ScalarModel::Integer(v)),
            None => None,
        },
        Some(InternalScalarType::Float) => match unmarked("gitveil:float:"@, s) {
            Some(v) => Some(node::ScalarModel::Float(v)),
            None => None,
        },
        Some(InternalScalarType::Null) => if s == "gitveil:null"@ {
            Some(node::ScalarModel::Null)
        } else {
            None
        },
    }
}

/// A number with a point or an exponent.
pub open spec fn fractional(s: Seq<char>) -> bool {
    exists|i: int|
        0 <= i < s.len() && (#[trigger] s[i] == '.' || s[i] == 'e' || s[i] == 'E')
}

/// The value that the data of an envelope holds.
pub open spec fn data_of(
    t: YamlTree,
    path: Seq<node::Step>,
    types: Seq<(Seq<char>, InternalScalarType)>,
) -> Result<node::Tree, EnvelopeFault>
    decreases t, 0nat,
{
    match t {
        YamlTree::Mapping(m) => match entries_of(m, m.len(), path, types) {
            Ok(e) => Ok(node::Tree::Mapping(e)),
            Err(fault) => Err(fault),
        },
        YamlTree::Sequence(s) => match items_of(s, s.len(), path, types) {
            Ok(list) => Ok(node::Tree::Sequence(list)),
            Err(fault) => Err(fault),
        },
        YamlTree::String(s) => match scalar_of(
            s,
            type_paths::type_at(types, type_paths::encoded(path)),
        ) {
            Some(v) => Ok(node::Tree::Scalar(v)),
            None => Err(EnvelopeFault::InvalidScalar),
        },
        YamlTree::Number(s) => if fractional(s) {
            Ok(node::Tree::Scalar(node::ScalarModel::Float(s)))
        } else {
            Ok(node::Tree::Scalar(node::ScalarModel::Integer(s)))
        },
        YamlTree::Bool(b) => Ok(node::Tree::Scalar(node::ScalarModel::Bool(b))),
        YamlTree::Null => Ok(node::Tree::Scalar(node::ScalarModel::Null)),
        YamlTree::Tagged(tag, v) => match data_of(*v, path, types) {
            Ok(value) => Ok(node::Tree::Tagged(tag, Box::new(value))),
            Err(fault) => Err(fault),
        },
    }
}

/// The first `n` entries of a mapping.
pub open spec fn entries_of(
    m: Seq<(YamlTree, YamlTree)>,
    n: nat,
    path: Seq<node::Step>,
    types: Seq<(Seq<char>, InternalScalarType)>,
) -> Result<Seq<(Seq<char>, node::Tree)>, EnvelopeFault>
    decreases m, n,
{
    if n == 0 || n > m.len() {
        Ok(Seq::empty())
    } else {
        match entries_of(m, (n - 1) as nat, path, types) {
            Err(fault) => Err(fault),
            Ok(head) => match yaml::text_of(m[n - 1].0) {
                None => Err(EnvelopeFault::UnsupportedKey(path)),
                Some(key) => if node::keys(head).contains(key) {
                    Err(EnvelopeFault::DuplicateKey(path.push(node::Step::Key(key))))
                } else {
                    match data_of(m[n - 1].1, path.push(node::Step::Key(key)), types) {
                        Err(fault) => Err(fault),
                        Ok(value) => Ok(head.push((key, value))),
                    }
                },
            },
        }
    }
}

/// The first `n` items of a sequence.
pub open spec fn items_of(
    s: Seq<YamlTree>,
    n: nat,
    path: Seq<node::Step>,
    types: Seq<(Seq<char>, InternalScalarType)>,
) -> Result<Seq<node::Tree>, EnvelopeFault>
    decreases s, n,
{
    if n == 0 || n > s.len() {
        Ok(Seq::empty())
    } else {
        match items_of(s, (n - 1) as nat, path, types) {
            Err(fault) => Err(fault),
            Ok(head) => match data_of(s[n - 1], path.push(node::Step::Index(n - 1)), types) {
                Err(fault) => Err(fault),
                Ok(value) => Ok(head.push(value)),
            },
        }
    }
}

/// Where every tag of the data has a name, so has every tag of the value.
pub proof fn lemma_tags_stay_named(
    t: YamlTree,
    path: Seq<node::Step>,
    types: Seq<(Seq<char>, InternalScalarType)>,
)
    requires
        yaml::named(t),
    ensures
        data_of(t, path, types) matches Ok(tree) ==> node::named_tags(tree),
    decreases t, 0nat,
{
    match t {
        YamlTree::Mapping(m) => {
            lemma_entries_stay_named(m, m.len(), path, types);
        },
        YamlTree::Sequence(s) => {
            lemma_items_stay_named(s, s.len(), path, types);
        },
        YamlTree::Tagged(_, v) => {
            lemma_tags_stay_named(*v, path, types);
        },
        _ => {},
    }
}

proof fn lemma_entries_stay_named(
    m: Seq<(YamlTree, YamlTree)>,
    n: nat,
    path: Seq<node::Step>,
    types: Seq<(Seq<char>, InternalScalarType)>,
)
    requires
        yaml::named(YamlTree::Mapping(m)),
        n <= m.len(),
    ensures
        entries_of(m, n, path, types) matches Ok(e) ==> node::named_tags(node::Tree::Mapping(e)),
    decreases m, n,
{
    if n > 0 {
        lemma_entries_stay_named(m, (n - 1) as nat, path, types);
        assert(yaml::named(YamlTree::Mapping(m)->Mapping_0[n - 1].1));
        assert(decreases_to!(m => m[n - 1].1));
        if entries_of(m, n, path, types) is Ok {
            let key = yaml::text_of(m[n - 1].0)->Some_0;
            lemma_tags_stay_named(m[n - 1].1, path.push(node::Step::Key(key)), types);
            let head = entries_of(m, (n - 1) as nat, path, types)->Ok_0;
            let e = entries_of(m, n, path, types)->Ok_0;
            assert forall|i: int| 0 <= i < e.len() implies node::named_tags(
                #[trigger] e[i].1,
            ) by {
                if i < head.len() {
                    assert(e[i] == head[i]);
                    assert(node::named_tags(node::Tree::Mapping(head)->Mapping_0[i].1));
                }
            }
        }
    }
}

proof fn lemma_items_stay_named(
    s: Seq<YamlTree>,
    n: nat,
    path: Seq<node::Step>,
    types: Seq<(Seq<char>, InternalScalarType)>,
)
    requires
        yaml::named(YamlTree::Sequence(s)),
        n <= s.len(),
    ensures
        items_of(s, n, path, types) matches Ok(list) ==> node::named_tags(
            node::Tree::Sequence(list),
        ),
    decreases s, n,
{
    if n > 0 {
        lemma_items_stay_named(s, (n - 1) as nat, path, types);
        assert(yaml::named(YamlTree::Sequence(s)->Sequence_0[n - 1]));
        assert(decreases_to!(s => s[n - 1]));
        if items_of(s, n, path, types) is Ok {
            lemma_tags_stay_named(s[n - 1], path.push(node::Step::Index(n - 1)), types);
            let head = items_of(s, (n - 1) as nat, path, types)->Ok_0;
            let list = items_of(s, n, path, types)->Ok_0;
            assert forall|i: int| 0 <= i < list.len() implies node::named_tags(
                #[trigger] list[i],
            ) by {
                if i < head.len() {
                    assert(list[i] == head[i]);
                    assert(node::named_tags(node::Tree::Sequence(head)->Sequence_0[i]));
                }
            }
        }
    }
}

proof fn lemma_entries_fail(
    m: Seq<(YamlTree, YamlTree)>,
    n: nat,
    k: nat,
    path: Seq<node::Step>,
    types: Seq<(Seq<char>, InternalScalarType)>,
)
    requires
        n <= k <= m.len(),
        entries_of(m, n, path, types) is Err,
    ensures
        entries_of(m, k, path, types) == entries_of(m, n, path, types),
    decreases k,
{
    if n < k {
        lemma_entries_fail(m, n, (k - 1) as nat, path, types);
    }
}

proof fn lemma_items_fail(
    s: Seq<YamlTree>,
    n: nat,
    k: nat,
    path: Seq<node::Step>,
    types: Seq<(Seq<char>, InternalScalarType)>,
)
    requires
        n <= k <= s.len(),
        items_of(s, n, path, types) is Err,
    ensures
        items_of(s, k, path, types) == items_of(s, n, path, types),
    decreases k,
{
    if n < k {
        lemma_items_fail(s, n, (k - 1) as nat, path, types);
    }
}

fn unmark(prefix: &str, s: &str) -> (r: Option<String>)
    ensures
        text::view_option(r) == unmarked(prefix@, s@),
{
    let chars = text::chars_of(s);
    let head = text::chars_of(prefix);
    if !text::begins(chars.as_slice(), head.as_slice()) {
        return None;
    }
    let rest = text::string_of(
        segment::slice_to_vec(chars.as_slice(), head.len(), chars.len()).as_slice(),
    );
    assert(rest@ =~= s@.skip(prefix@.len() as int));
    match base64_codec::decode(rest.as_str()) {
        Some(bytes) => text::from_utf8(bytes.as_slice()),
        None => None,
    }
}

pub open spec fn view_scalar(s: Option<Scalar>) -> Option<node::ScalarModel> {
    match s {
        Some(s) => Some(s@),
        None => None,
    }
}

fn restore_scalar(s: &str, kind: Option<InternalScalarType>) -> (r: Option<Scalar>)
    ensures
        view_scalar(r) == scalar_of(s@, kind),
{
    match kind {
        None => Some(Scalar::String(s.to_owned())),
        Some(InternalScalarType::DateTime) => match unmark("gitveil:datetime:", s) {
            Some(v) => Some(Scalar::DateTime(v)),
            None => None,
        },
        Some(InternalScalarType::Integer) => match unmark("gitveil:integer:", s) {
            Some(v) => Some(Scalar::Integer(v)),
            None => None,
        },
        Some(InternalScalarType::Float) => match unmark("gitveil:float:", s) {
            Some(v) => Some(Scalar::Float(v)),
            None => None,
        },
        Some(InternalScalarType::Null) => if text::eq(s, "gitveil:null") {
            Some(Scalar::Null)
        } else {
            None
        },
    }
}

fn is_fractional(s: &str) -> (r: bool)
    ensures
        r == fractional(s@),
{
    let chars = text::chars_of(s);
    let mut i: usize = 0;
    while i < chars.len()
        invariant
            i <= chars.len(),
            chars@ == s@,
            forall|j: int|
                0 <= j < i ==> #[trigger] s@[j] != '.' && s@[j] != 'e' && s@[j] != 'E',
        decreases chars.len() - i,
    {
        let c = chars[i];
        assert(s@[i as int] == c);
        if c == '.' || c == 'e' || c == 'E' {
            return true;
        }
        i = i + 1;
    }
    false
}

/// Reads the data of an envelope. No mapping of the value holds a key twice.
pub fn node_from_yaml(
    t: &YamlValue,
    path: &NodePath,
    types: &Vec<(String, InternalScalarType)>,
) -> (r: Result<Node, EnvelopeError>)
    ensures
        match data_of(t@, path@, type_paths::view_types(types@)) {
            Ok(tree) => r matches Ok(n) && n@ == tree && node::well_keyed(tree),
            Err(fault) => r matches Err(e) && e@ == fault,
        },
    decreases t,
{
    let ghost all = type_paths::view_types(types@);
    proof {
        yaml::lemma_view(*t);
    }
    match t {
        YamlValue::Mapping(v) => {
            let ghost m = yaml::pairs(v@);
            let mut out: Vec<(String, Node)> = Vec::new();
            let mut i: usize = 0;
            assert(node::entries(out@) =~= Seq::<(Seq<char>, node::Tree)>::empty());
            while i < v.len()
                invariant
                    decreases_to!(t => v@),
                    all == type_paths::view_types(types@),
                    m == yaml::pairs(v@),
                    t@ == YamlTree::Mapping(m),
                    i <= v.len(),
                    entries_of(m, i as nat, path@, all) == Ok::<
                        Seq<(Seq<char>, node::Tree)>,
                        EnvelopeFault,
                    >(node::entries(out@)),
                    node::well_keyed(node::Tree::Mapping(node::entries(out@))),
                decreases v.len() - i,
            {
                assert(decreases_to!(v@ => v@[i as int]));
                assert(m[i as int] == (v@[i as int].0@, v@[i as int].1@));
                proof {
                    if entries_of(m, (i + 1) as nat, path@, all) is Err {
                        lemma_entries_fail(m, (i + 1) as nat, m.len(), path@, all);
                    }
                }
                let key = match v[i].0.as_text() {
                    Some(key) => key,
                    None => {
                        return Err(EnvelopeError::UnsupportedKey(path.clone()));
                    },
                };
                let child = path.child_key(key.as_str());
                let ghost before = out@;
                if node::find_key(&out, key.as_str()).is_some() {
                    return Err(EnvelopeError::DuplicateKey(child));
                }
                match node_from_yaml(&v[i].1, &child, types) {
                    Ok(value) => {
                        out.push((key.clone(), value));
                        proof {
                            let (a, b) = (node::entries(before), node::entries(out@));
                            assert(b =~= a.push((key@, value@)));
                            assert(node::keys(b) =~= node::keys(a).push(key@));
                            assert forall|k: int| 0 <= k < b.len() implies node::well_keyed(
                                #[trigger] b[k].1,
                            ) by {
                                if k < a.len() {
                                    assert(b[k] == a[k]);
                                    assert(node::well_keyed(a[k].1));
                                }
                            }
                        }
                    },
                    Err(error) => {
                        return Err(error);
                    },
                }
                i = i + 1;
            }
            let r = Node::Mapping(out);
            proof {
                node::lemma_view(r);
            }
            Ok(r)
        },
        YamlValue::Sequence(v) => {
            let ghost s = yaml::items(v@);
            let mut out: Vec<Node> = Vec::new();
            let mut i: usize = 0;
            assert(node::trees(out@) =~= Seq::<node::Tree>::empty());
            while i < v.len()
                invariant
                    decreases_to!(t => v@),
                    all == type_paths::view_types(types@),
                    s == yaml::items(v@),
                    t@ == YamlTree::Sequence(s),
                    i <= v.len(),
                    items_of(s, i as nat, path@, all) == Ok::<Seq<node::Tree>, EnvelopeFault>(
                        node::trees(out@),
                    ),
                    node::well_keyed(node::Tree::Sequence(node::trees(out@))),
                decreases v.len() - i,
            {
                assert(decreases_to!(v@ => v@[i as int]));
                assert(s[i as int] == v@[i as int]@);
                proof {
                    if items_of(s, (i + 1) as nat, path@, all) is Err {
                        lemma_items_fail(s, (i + 1) as nat, s.len(), path@, all);
                    }
                }
                let child = path.child_index(i);
                match node_from_yaml(&v[i], &child, types) {
                    Ok(value) => {
                        let ghost before = out@;
                        out.push(value);
                        proof {
                            let (a, b) = (node::trees(before), node::trees(out@));
                            assert(b =~= a.push(value@));
                            assert forall|k: int| 0 <= k < b.len() implies node::well_keyed(
                                #[trigger] b[k],
                            ) by {
                                if k < a.len() {
                                    assert(b[k] == a[k]);
                                    assert(node::well_keyed(
                                        node::Tree::Sequence(a)->Sequence_0[k],
                                    ));
                                }
                            }
                        }
                    },
                    Err(error) => {
                        return Err(error);
                    },
                }
                i = i + 1;
            }
            let r = Node::Sequence(out);
            proof {
                node::lemma_view(r);
            }
            Ok(r)
        },
        YamlValue::String(s) => {
            let kind = type_paths::find_type(types, type_paths::encode_path(path).as_str());
            match restore_scalar(s.as_str(), kind) {
                Some(scalar) => Ok(Node::Scalar(scalar)),
                None => Err(EnvelopeError::InvalidScalar),
            }
        },
        YamlValue::Number(s) => if is_fractional(s.as_str()) {
            Ok(Node::Scalar(Scalar::Float(s.clone())))
        } else {
            Ok(Node::Scalar(Scalar::Integer(s.clone())))
        },
        YamlValue::Bool(b) => Ok(Node::Scalar(Scalar::Bool(*b))),
        YamlValue::Null => Ok(Node::Scalar(Scalar::Null)),
        YamlValue::Tagged(tag, v) => match node_from_yaml(v, path, types) {
            Ok(value) => Ok(Node::Tagged { tag: tag.clone(), value: Box::new(value) }),
            Err(error) => Err(error),
        },
    }
}

} // verus!
