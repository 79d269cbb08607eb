//! The values of a document and the paths that lead to them.

use vstd::prelude::*;

use crate::segment;
use crate::text;

verus! {

pub enum ScalarModel {
    String(Seq<char>),
    Integer(Seq<char>),
    Float(Seq<char>),
    Bool(bool),
    Null,
    DateTime(Seq<char>),
}

/// The value of a document, as mathematics sees it.
pub enum Tree {
    Mapping(Seq<(Seq<char>, Tree)>),
    Sequence(Seq<Tree>),
    Scalar(ScalarModel),
    Tagged(Seq<char>, Box<Tree>),
}

/// One step of a path into a tree.
pub enum Step {
    Key(Seq<char>),
    Index(int),
}

/// A leaf value. Numbers and times are kept as they are written.
#[derive(PartialEq, Eq)]
pub enum Scalar {
    String(String),
    Integer(String),
    Float(String),
    Bool(bool),
    Null,
    DateTime(String),
}

impl Drop for Scalar {
    fn drop(&mut self)
        opens_invariants none
        no_unwind
    {
        match self {
            Scalar::String(value) => zeroize_text(value),
            Scalar::Integer(value) => zeroize_text(value),
            Scalar::Float(value) => zeroize_text(value),
            Scalar::DateTime(value) => zeroize_text(value),
            Scalar::Bool(value) => {
                *value = false;
            },
            Scalar::Null => {},
        }
    }
}

/// `zeroize::Zeroize::zeroize` on a string overwrites every byte, the spare
/// capacity included, and leaves the string empty.
#[verifier::external_body]
pub(crate) fn zeroize_text(text: &mut String)
    ensures
        final(text)@ == Seq::<char>::empty(),
    opens_invariants none
    no_unwind
{
    zeroize::Zeroize::zeroize(text);
}

impl View for Scalar {
    type V = ScalarModel;

    open spec fn view(&self) -> ScalarModel {
        match self {
            Scalar::String(s) => ScalarModel::String(s@),
            Scalar::Integer(s) => ScalarModel::Integer(s@),
            Scalar::Float(s) => ScalarModel::Float(s@),
            Scalar::Bool(b) => ScalarModel::Bool(*b),
            Scalar::Null => ScalarModel::Null,
            Scalar::DateTime(s) => ScalarModel::DateTime(s@),
        }
    }
}

impl Clone for Scalar {
    fn clone(&self) -> (r: Scalar)
        ensures
            r@ == self@,
    {
        match self {
            Scalar::String(s) => Scalar::String(s.clone()),
            Scalar::Integer(s) => Scalar::Integer(s.clone()),
            Scalar::Float(s) => Scalar::Float(s.clone()),
            Scalar::Bool(b) => Scalar::Bool(*b),
            Scalar::Null => Scalar::Null,
            Scalar::DateTime(s) => Scalar::DateTime(s.clone()),
        }
    }
}

impl ScalarModel {
    pub open spec fn kind(self) -> Seq<char> {
        match self {
            ScalarModel::String(_) => "string"@,
            ScalarModel::Integer(_) => "integer"@,
            ScalarModel::Float(_) => "float"@,
            ScalarModel::Bool(_) => "bool"@,
            ScalarModel::Null => "null"@,
            ScalarModel::DateTime(_) => "datetime"@,
        }
    }
}

impl Scalar {
    pub fn same(&self, other: &Scalar) -> (r: bool)
        ensures
            r == (self@ == other@),
    {
        match (self, other) {
            (Scalar::String(a), Scalar::String(b)) => text::eq(a.as_str(), b.as_str()),
            (Scalar::Integer(a), Scalar::Integer(b)) => text::eq(a.as_str(), b.as_str()),
            (Scalar::Float(a), Scalar::Float(b)) => text::eq(a.as_str(), b.as_str()),
            (Scalar::Bool(a), Scalar::Bool(b)) => *a == *b,
            (Scalar::Null, Scalar::Null) => true,
            (Scalar::DateTime(a), Scalar::DateTime(b)) => text::eq(a.as_str(), b.as_str()),
            _ => false,
        }
    }

    /// What is shown of a value: its kind and nothing else.
    pub fn redacted(&self) -> (r: String)
        ensures
            r@ == "<redacted:"@ + self@.kind() + ">"@,
    {
        let kind = match self {
            Scalar::String(_) => "string",
            Scalar::Integer(_) => "integer",
            Scalar::Float(_) => "float",
            Scalar::Bool(_) => "bool",
            Scalar::Null => "null",
            Scalar::DateTime(_) => "datetime",
        };
        text::cat3("<redacted:", kind, ">")
    }
}

/// The value of a document. The entries of a mapping keep the order in which they were
/// written. They are a list of pairs, since a map of another crate is opaque and cannot
/// hold the type that it is a part of.
#[derive(PartialEq, Eq)]
pub enum Node {
    Mapping(Vec<(String, Node)>),
    Sequence(Vec<Node>),
    Scalar(Scalar),
    Tagged { tag: String, value: Box<Node> },
}

impl Node {
    pub open spec fn view(&self) -> Tree
        decreases self,
    {
        match self {
            Node::Mapping(v) => Tree::Mapping(
                Seq::new(
                    v@.len(),
                    |i: int|
                        if 0 <= i < v@.len() {
                            (v@[i].0@, v@[i].1.view())
                        } else {
                            arbitrary()
                        },
                ),
            ),
            Node::Sequence(v) => Tree::Sequence(
                Seq::new(
                    v@.len(),
                    |i: int|
                        if 0 <= i < v@.len() {
                            v@[i].view()
                        } else {
                            arbitrary()
                        },
                ),
            ),
            Node::Scalar(s) => Tree::Scalar(s@),
            Node::Tagged { tag, value } => Tree::Tagged(tag@, Box::new(value.view())),
        }
    }
}

/// The entries of a mapping, seen as trees.
pub open spec fn entries(v: Seq<(String, Node)>) -> Seq<(Seq<char>, Tree)> {
    v.map_values(|e: (String, Node)| (e.0@, e.1@))
}

/// The items of a sequence, seen as trees.
pub open spec fn trees(v: Seq<Node>) -> Seq<Tree> {
    v.map_values(|n: Node| n@)
}

pub proof fn lemma_view(n: Node)
    ensures
        n matches Node::Mapping(v) ==> n@ == Tree::Mapping(entries(v@)),
        n matches Node::Sequence(v) ==> n@ == Tree::Sequence(trees(v@)),
{
    match n {
        Node::Mapping(v) => {
            assert(n@->Mapping_0 =~= entries(v@));
        },
        Node::Sequence(v) => {
            assert(n@->Sequence_0 =~= trees(v@));
        },
        _ => {},
    }
}

/// The keys of a mapping in order.
pub open spec fn keys(e: Seq<(Seq<char>, Tree)>) -> Seq<Seq<char>> {
    e.map_values(|p: (Seq<char>, Tree)| p.0)
}

/// The first position of a key among the entries, or their number.
pub open spec fn position(e: Seq<(Seq<char>, Tree)>, key: Seq<char>) -> nat
    decreases e.len(),
{
    if e.len() == 0 || e[0].0 == key {
        0
    } else {
        1 + position(e.skip(1), key)
    }
}

/// The value of a key.
pub open spec fn lookup(e: Seq<(Seq<char>, Tree)>, key: Seq<char>) -> Option<Tree> {
    if position(e, key) < e.len() {
        Some(e[position(e, key) as int].1)
    } else {
        None
    }
}

pub proof fn lemma_position(e: Seq<(Seq<char>, Tree)>, key: Seq<char>)
    ensures
        position(e, key) <= e.len(),
        position(e, key) < e.len() ==> e[position(e, key) as int].0 == key,
        forall|j: int| 0 <= j < position(e, key) ==> (#[trigger] e[j]).0 != key,
        position(e, key) < e.len() <==> keys(e).contains(key),
    decreases e.len(),
{
    if e.len() > 0 && e[0].0 != key {
        lemma_position(e.skip(1), key);
        assert forall|j: int| 0 <= j < position(e, key) implies (#[trigger] e[j]).0 != key by {
            if j > 0 {
                assert(e.skip(1)[j - 1] == e[j]);
            }
        }
    }
    if position(e, key) < e.len() {
        assert(keys(e)[position(e, key) as int] == key);
    } else if keys(e).contains(key) {
        let k = choose|k: int| 0 <= k < keys(e).len() && keys(e)[k] == key;
        assert(e[k].0 != key);
    }
}

pub proof fn lemma_position_is(e: Seq<(Seq<char>, Tree)>, key: Seq<char>, n: int)
    requires
        0 <= n <= e.len(),
        n < e.len() ==> e[n].0 == key,
        forall|j: int| 0 <= j < n ==> (#[trigger] e[j]).0 != key,
    ensures
        position(e, key) == n,
    decreases e.len(),
{
    if n > 0 {
        assert(e[0].0 != key);
        assert forall|j: int| 0 <= j < n - 1 implies (#[trigger] e.skip(1)[j]).0 != key by {
            assert(e[j + 1].0 != key);
        }
        lemma_position_is(e.skip(1), key, n - 1);
    }
}

/// No key stands twice in any mapping of the tree.
pub open spec fn well_keyed(t: Tree) -> bool
    decreases t,
{
    match t {
        Tree::Mapping(e) => {
            &&& keys(e).no_duplicates()
            &&& forall|i: int| 0 <= i < e.len() ==> well_keyed(#[trigger] e[i].1)
        },
        Tree::Sequence(s) => forall|i: int| 0 <= i < s.len() ==> well_keyed(#[trigger] s[i]),
        Tree::Scalar(_) => true,
        Tree::Tagged(_, v) => well_keyed(*v),
    }
}

/// Every tag of the tree has a name.
pub open spec fn named_tags(t: Tree) -> bool
    decreases t,
{
    match t {
        Tree::Mapping(e) => forall|i: int| 0 <= i < e.len() ==> named_tags(#[trigger] e[i].1),
        Tree::Sequence(s) => forall|i: int| 0 <= i < s.len() ==> named_tags(#[trigger] s[i]),
        Tree::Scalar(_) => true,
        Tree::Tagged(tag, v) => tag.len() > 0 && named_tags(*v),
    }
}

proof fn lemma_untagged(t: Tree)
    ensures
        named_tags(t) ==> named_tags(untagged(t)),
        well_keyed(t) ==> well_keyed(untagged(t)),
    decreases t,
{
    match t {
        Tree::Tagged(_, v) => {
            lemma_untagged(*v);
        },
        _ => {},
    }
}

/// What a path leads to is as well formed as the tree it starts in.
pub proof fn lemma_tree_at(t: Tree, path: Seq<Step>)
    requires
        tree_at(t, path) is Some,
    ensures
        named_tags(t) ==> named_tags(tree_at(t, path)->Some_0),
        well_keyed(t) ==> well_keyed(tree_at(t, path)->Some_0),
    decreases path.len(),
{
    if path.len() > 0 {
        lemma_untagged(t);
        match (path[0], untagged(t)) {
            (Step::Key(key), Tree::Mapping(e)) => {
                lemma_position(e, key);
                lemma_tree_at(e[position(e, key) as int].1, path.skip(1));
            },
            (Step::Index(i), Tree::Sequence(s)) => {
                lemma_tree_at(s[i], path.skip(1));
            },
            _ => {},
        }
    }
}

/// Removing an entry leaves the keys of every mapping distinct.
pub proof fn lemma_tree_without(t: Tree, path: Seq<Step>)
    requires
        well_keyed(t),
        tree_without(t, path) is Some,
    ensures
        well_keyed(tree_without(t, path)->Some_0),
    decreases path.len(), t,
{
    match (t, path[0]) {
        (Tree::Mapping(e), Step::Key(key)) => {
            let i = position(e, key) as int;
            lemma_position(e, key);
            if path.len() == 1 {
                let left = e.remove(i);
                assert forall|a: int, b: int| 0 <= a < b < left.len() implies keys(left)[a]
                    != keys(left)[b] by {
                    let x = if a < i { a } else { a + 1 };
                    let y = if b < i { b } else { b + 1 };
                    assert(keys(e)[x] == keys(left)[a]);
                    assert(keys(e)[y] == keys(left)[b]);
                }
                assert forall|a: int| 0 <= a < left.len() implies well_keyed(
                    #[trigger] left[a].1,
                ) by {
                    let x = if a < i { a } else { a + 1 };
                    assert(left[a] == e[x]);
                    assert(well_keyed(e[x].1));
                }
            } else {
                assert(well_keyed(e[i].1));
                lemma_tree_without(e[i].1, path.skip(1));
                let child = tree_without(e[i].1, path.skip(1))->Some_0;
                let left = e.update(i, (e[i].0, child));
                assert(keys(left) =~= keys(e));
                assert forall|a: int| 0 <= a < left.len() implies well_keyed(
                    #[trigger] left[a].1,
                ) by {
                    assert(well_keyed(e[a].1));
                }
            }
        },
        (Tree::Sequence(s), Step::Index(i)) => {
            if path.len() == 1 {
                let left = s.remove(i);
                assert forall|a: int| 0 <= a < left.len() implies well_keyed(#[trigger] left[a]) by {
                    let x = if a < i { a } else { a + 1 };
                    assert(left[a] == s[x]);
                }
            } else {
                assert(well_keyed(s[i]));
                lemma_tree_without(s[i], path.skip(1));
            }
        },
        (Tree::Tagged(_, v), _) => {
            lemma_tree_without(*v, path);
        },
        _ => {},
    }
}

/// The tree below the tags.
pub open spec fn untagged(t: Tree) -> Tree
    decreases t,
{
    match t {
        Tree::Tagged(_, v) => untagged(*v),
        _ => t,
    }
}

/// The tree that a path leads to. Tags on the way are looked through.
pub open spec fn tree_at(t: Tree, path: Seq<Step>) -> Option<Tree>
    decreases path.len(),
{
    if path.len() == 0 {
        Some(t)
    } else {
        match (path[0], untagged(t)) {
            (Step::Key(key), Tree::Mapping(e)) => match lookup(e, key) {
                Some(child) => tree_at(child, path.skip(1)),
                None => None,
            },
            (Step::Index(i), Tree::Sequence(s)) => if 0 <= i < s.len() {
                tree_at(s[i], path.skip(1))
            } else {
                None
            },
            _ => None,
        }
    }
}

/// The tree without the entry that a path leads to; `None` where there is none.
pub open spec fn tree_without(t: Tree, path: Seq<Step>) -> Option<Tree>
    decreases path.len(), t,
{
    if path.len() == 0 {
        None
    } else {
        match (t, path[0]) {
            (Tree::Mapping(e), Step::Key(key)) => {
                let i = position(e, key) as int;
                if i >= e.len() {
                    None
                } else if path.len() == 1 {
                    Some(Tree::Mapping(e.remove(i)))
                } else {
                    match tree_without(e[i].1, path.skip(1)) {
                        Some(child) => Some(Tree::Mapping(e.update(i, (e[i].0, child)))),
                        None => None,
                    }
                }
            },
            (Tree::Sequence(s), Step::Index(i)) => if !(0 <= i < s.len()) {
                None
            } else if path.len() == 1 {
                Some(Tree::Sequence(s.remove(i)))
            } else {
                match tree_without(s[i], path.skip(1)) {
                    Some(child) => Some(Tree::Sequence(s.update(i, child))),
                    None => None,
                }
            },
            (Tree::Tagged(tag, v), _) => if path.len() == 1 {
                None
            } else {
                match tree_without(*v, path) {
                    Some(child) => Some(Tree::Tagged(tag, Box::new(child))),
                    None => None,
                }
            },
            _ => None,
        }
    }
}

/// Without an entry, tags keep their names.
pub proof fn lemma_without_is_named(t: Tree, path: Seq<Step>)
    requires
        named_tags(t),
    ensures
        tree_without(t, path) matches Some(left) ==> named_tags(left),
    decreases path.len(), t,
{
    if path.len() > 0 && tree_without(t, path) is Some {
        let left = tree_without(t, path)->Some_0;
        match (t, path[0]) {
            (Tree::Mapping(e), Step::Key(key)) => {
                let i = position(e, key) as int;
                let other = left->Mapping_0;
                if path.len() > 1 {
                    assert(named_tags(t->Mapping_0[i].1));
                    lemma_without_is_named(e[i].1, path.skip(1));
                }
                assert forall|j: int| 0 <= j < other.len() implies named_tags(
                    #[trigger] other[j].1,
                ) by {
                    if path.len() == 1 {
                        if j < i {
                            assert(named_tags(t->Mapping_0[j].1));
                        } else {
                            assert(named_tags(t->Mapping_0[j + 1].1));
                        }
                    } else if j != i {
                        assert(named_tags(t->Mapping_0[j].1));
                    }
                }
            },
            (Tree::Sequence(s), Step::Index(i)) => {
                let other = left->Sequence_0;
                if path.len() > 1 {
                    assert(named_tags(t->Sequence_0[i]));
                    lemma_without_is_named(s[i], path.skip(1));
                }
                assert forall|j: int| 0 <= j < other.len() implies named_tags(
                    #[trigger] other[j],
                ) by {
                    if path.len() == 1 {
                        if j < i {
                            assert(named_tags(t->Sequence_0[j]));
                        } else {
                            assert(named_tags(t->Sequence_0[j + 1]));
                        }
                    } else if j != i {
                        assert(named_tags(t->Sequence_0[j]));
                    }
                }
            },
            (Tree::Tagged(tag, v), _) => {
                lemma_without_is_named(*v, path);
            },
            _ => {},
        }
    }
}

/// The scalar of a tree, below its tags.
pub open spec fn scalar_of(t: Tree) -> Option<ScalarModel> {
    match untagged(t) {
        Tree::Scalar(s) => Some(s),
        _ => None,
    }
}

/// The position of a key, if it stands among the entries.
pub fn find_key(v: &Vec<(String, Node)>, key: &str) -> (r: Option<usize>)
    ensures
        r matches Some(i) ==> i == position(entries(v@), key@) && i < v@.len() && v@[i as int].0@
            == key@,
        r is None ==> position(entries(v@), key@) == v@.len(),
        r.is_some() == keys(entries(v@)).contains(key@),
{
    let ghost e = entries(v@);
    let mut i: usize = 0;
    while i < v.len()
        invariant
            e == entries(v@),
            i <= v.len(),
            forall|j: int| 0 <= j < i ==> (#[trigger] e[j]).0 != key@,
        decreases v.len() - i,
    {
        assert(e[i as int] == (v@[i as int].0@, v@[i as int].1@));
        if text::eq(v[i].0.as_str(), key) {
            proof {
                lemma_position_is(e, key@, i as int);
                lemma_position(e, key@);
            }
            return Some(i);
        }
        i = i + 1;
    }
    proof {
        lemma_position_is(e, key@, i as int);
        lemma_position(e, key@);
    }
    None
}

impl Clone for Node {
    fn clone(&self) -> (r: Node)
        ensures
            r@ == self@,
        decreases self,
    {
        proof {
            lemma_view(*self);
        }
        match self {
            Node::Mapping(v) => {
                let mut out: Vec<(String, Node)> = Vec::new();
                let mut i: usize = 0;
                while i < v.len()
                    invariant
                        i <= v.len(),
                        decreases_to!(self => v@),
                        forall|j: int|
                            0 <= j < i ==> (#[trigger] out@[j]).0@ == v@[j].0@ && out@[j].1@ == v@[j].1@,
                        out@.len() == i,
                    decreases v.len() - i,
                {
                    assert(decreases_to!(v@ => v@[i as int]));
                    let key = v[i].0.clone();
                    let value = v[i].1.clone();
                    out.push((key, value));
                    i = i + 1;
                }
                assert(entries(out@) =~= entries(v@));
                let r = Node::Mapping(out);
                proof {
                    lemma_view(r);
                }
                r
            },
            Node::Sequence(v) => {
                let mut out: Vec<Node> = Vec::new();
                let mut i: usize = 0;
                while i < v.len()
                    invariant
                        i <= v.len(),
                        decreases_to!(self => v@),
                        forall|j: int| 0 <= j < i ==> (#[trigger] out@[j])@ == v@[j]@,
                        out@.len() == i,
                    decreases v.len() - i,
                {
                    assert(decreases_to!(v@ => v@[i as int]));
                    let value = v[i].clone();
                    out.push(value);
                    i = i + 1;
                }
                assert(trees(out@) =~= trees(v@));
                let r = Node::Sequence(out);
                proof {
                    lemma_view(r);
                }
                r
            },
            Node::Scalar(s) => Node::Scalar(s.clone()),
            Node::Tagged { tag, value } => Node::Tagged {
                tag: tag.clone(),
                value: Box::new((&**value).clone()),
            },
        }
    }
}

impl Node {
    /// Whether two values are equal; the order of the entries counts.
    pub fn same(&self, other: &Node) -> (r: bool)
        ensures
            r == (self@ == other@),
        decreases self,
    {
        proof {
            lemma_view(*self);
            lemma_view(*other);
        }
        match (self, other) {
            (Node::Mapping(a), Node::Mapping(b)) => {
                if a.len() != b.len() {
                    assert(entries(a@).len() != entries(b@).len());
                    return false;
                }
                let mut i: usize = 0;
                while i < a.len()
                    invariant
                        a@.len() == b@.len(),
                        i <= a.len(),
                        decreases_to!(self => a@),
                        self@ == Tree::Mapping(entries(a@)),
                        other@ == Tree::Mapping(entries(b@)),
                        forall|j: int| 0 <= j < i ==> entries(a@)[j] == entries(b@)[j],
                    decreases a.len() - i,
                {
                    assert(decreases_to!(a@ => a@[i as int]));
                    assert(entries(a@)[i as int] == (a@[i as int].0@, a@[i as int].1@));
                    assert(entries(b@)[i as int] == (b@[i as int].0@, b@[i as int].1@));
                    if !text::eq(a[i].0.as_str(), b[i].0.as_str()) || !a[i].1.same(&b[i].1) {
                        return false;
                    }
                    i = i + 1;
                }
                assert(entries(a@) =~= entries(b@));
                true
            },
            (Node::Sequence(a), Node::Sequence(b)) => {
                if a.len() != b.len() {
                    assert(trees(a@).len() != trees(b@).len());
                    return false;
                }
                let mut i: usize = 0;
                while i < a.len()
                    invariant
                        a@.len() == b@.len(),
                        i <= a.len(),
                        decreases_to!(self => a@),
                        self@ == Tree::Sequence(trees(a@)),
                        other@ == Tree::Sequence(trees(b@)),
                        forall|j: int| 0 <= j < i ==> trees(a@)[j] == trees(b@)[j],
                    decreases a.len() - i,
                {
                    assert(decreases_to!(a@ => a@[i as int]));
                    assert(trees(a@)[i as int] == a@[i as int]@);
                    assert(trees(b@)[i as int] == b@[i as int]@);
                    if !a[i].same(&b[i]) {
                        return false;
                    }
                    i = i + 1;
                }
                assert(trees(a@) =~= trees(b@));
                true
            },
            (Node::Scalar(a), Node::Scalar(b)) => a.same(b),
            (Node::Tagged { tag: a, value: x }, Node::Tagged { tag: b, value: y }) => text::eq(
                a.as_str(),
                b.as_str(),
            ) && x.same(y),
            _ => false,
        }
    }

    /// The keys of a mapping in order; `None` for any other value.
    pub fn mapping_keys(&self) -> (r: Option<Vec<&str>>)
        ensures
            r.is_some() == (self@ is Mapping),
            r matches Some(list) ==> list@.map_values(|s: &str| s@) == keys(self@->Mapping_0),
    {
        proof {
            lemma_view(*self);
        }
        match self {
            Node::Mapping(v) => {
                let mut out: Vec<&str> = Vec::new();
                let mut i: usize = 0;
                while i < v.len()
                    invariant
                        i <= v.len(),
                        out@.len() == i,
                        forall|j: int| 0 <= j < i ==> (#[trigger] out@[j])@ == v@[j].0@,
                    decreases v.len() - i,
                {
                    out.push(v[i].0.as_str());
                    i = i + 1;
                }
                assert(out@.map_values(|s: &str| s@) =~= keys(entries(v@)));
                Some(out)
            },
            _ => None,
        }
    }

    pub fn get(&self, key: &str) -> (r: Option<&Node>)
        ensures
            r.is_some() == (self@ is Mapping && lookup(self@->Mapping_0, key@) is Some),
            r matches Some(node) ==> lookup(self@->Mapping_0, key@) == Some(node@),
    {
        proof {
            lemma_view(*self);
        }
        match self {
            Node::Mapping(v) => match find_key(v, key) {
                Some(i) => {
                    assert(entries(v@)[i as int] == (v@[i as int].0@, v@[i as int].1@));
                    Some(&v[i].1)
                },
                None => None,
            },
            _ => None,
        }
    }

    fn below_tags(&self) -> (r: &Node)
        ensures
            r@ == untagged(self@),
            r@ !is Tagged,
        decreases self,
    {
        proof {
            lemma_view(*self);
        }
        match self {
            Node::Tagged { tag: _, value } => value.below_tags(),
            _ => self,
        }
    }

    pub fn scalar(&self) -> (r: Option<&Scalar>)
        ensures
            r.is_some() == (scalar_of(self@) is Some),
            r matches Some(s) ==> scalar_of(self@) == Some(s@),
    {
        let node = self.below_tags();
        proof {
            lemma_view(*node);
        }
        match node {
            Node::Scalar(s) => Some(s),
            _ => None,
        }
    }

    /// Whether every tag has a name.
    pub fn has_named_tags(&self) -> (r: bool)
        ensures
            r == named_tags(self@),
        decreases self,
    {
        proof {
            lemma_view(*self);
        }
        match self {
            Node::Mapping(v) => {
                let mut i: usize = 0;
                while i < v.len()
                    invariant
                        decreases_to!(self => v@),
                        self@ == Tree::Mapping(entries(v@)),
                        i <= v.len(),
                        forall|j: int| 0 <= j < i ==> named_tags(#[trigger] entries(v@)[j].1),
                    decreases v.len() - i,
                {
                    assert(decreases_to!(v@ => v@[i as int]));
                    assert(entries(v@)[i as int] == (v@[i as int].0@, v@[i as int].1@));
                    if !v[i].1.has_named_tags() {
                        proof {
                            let e = self@->Mapping_0;
                            assert(0 <= i < e.len());
                            assert(!named_tags(e[i as int].1));
                        }
                        return false;
                    }
                    i = i + 1;
                }
                true
            },
            Node::Sequence(v) => {
                let mut i: usize = 0;
                while i < v.len()
                    invariant
                        decreases_to!(self => v@),
                        self@ == Tree::Sequence(trees(v@)),
                        i <= v.len(),
                        forall|j: int| 0 <= j < i ==> named_tags(#[trigger] trees(v@)[j]),
                    decreases v.len() - i,
                {
                    assert(decreases_to!(v@ => v@[i as int]));
                    assert(trees(v@)[i as int] == v@[i as int]@);
                    if !v[i].has_named_tags() {
                        proof {
                            let s = self@->Sequence_0;
                            assert(0 <= i < s.len());
                            assert(!named_tags(s[i as int]));
                        }
                        return false;
                    }
                    i = i + 1;
                }
                true
            },
            Node::Scalar(_) => true,
            Node::Tagged { tag, value } => text::chars_of(tag.as_str()).len() > 0
                && value.has_named_tags(),
        }
    }

    /// The value that a path leads to.
    pub fn at_path(&self, path: &NodePath) -> (r: Option<&Node>)
        ensures
            r.is_some() == (tree_at(self@, path@) is Some),
            r matches Some(node) ==> tree_at(self@, path@) == Some(node@),
    {
        let mut current: &Node = self;
        let mut i: usize = 0;
        let ghost whole = path@;
        assert(whole.skip(0) =~= whole);
        while i < path.segments.len()
            invariant
                whole == path@,
                i <= path.segments@.len(),
                tree_at(current@, whole.skip(i as int)) == tree_at(self@, whole),
            decreases path.segments.len() - i,
        {
            let node = current.below_tags();
            let ghost rest = whole.skip(i as int);
            proof {
                lemma_view(*node);
                assert(rest[0] == path.segments@[i as int]@);
                assert(rest.skip(1) =~= whole.skip(i + 1));
            }
            match (&path.segments[i], node) {
                (PathSegment::Key(key), Node::Mapping(v)) => match find_key(v, key.as_str()) {
                    Some(k) => {
                        assert(entries(v@)[k as int] == (v@[k as int].0@, v@[k as int].1@));
                        current = &v[k].1;
                    },
                    None => {
                        return None;
                    },
                },
                (PathSegment::Index(k), Node::Sequence(v)) => {
                    if *k >= v.len() {
                        return None;
                    }
                    assert(trees(v@)[*k as int] == v@[*k as int]@);
                    current = &v[*k];
                },
                _ => {
                    return None;
                },
            }
            i = i + 1;
        }
        Some(current)
    }

    /// Removes the entry that a path leads to and says whether there was one.
    pub fn remove_at_path(&mut self, path: &NodePath) -> (r: bool)
        ensures
            r == (tree_without(old(self)@, path@) is Some),
            final(self)@ == match tree_without(old(self)@, path@) {
                Some(t) => t,
                None => old(self)@,
            },
    {
        assert(path@.skip(0) =~= path@);
        match self.removed(path, 0) {
            Some(node) => {
                *self = node;
                true
            },
            None => false,
        }
    }

    /// The value without the entry that the rest of a path leads to.
    fn removed(&self, path: &NodePath, from: usize) -> (r: Option<Node>)
        requires
            from <= path@.len(),
        ensures
            r.is_some() == (tree_without(self@, path@.skip(from as int)) is Some),
            r matches Some(node) ==> tree_without(self@, path@.skip(from as int)) == Some(node@),
        decreases path@.len() - from, self,
    {
        let ghost rest = path@.skip(from as int);
        proof {
            lemma_view(*self);
        }
        if from >= path.segments.len() {
            return None;
        }
        proof {
            assert(rest[0] == path.segments@[from as int]@);
            assert(rest.skip(1) =~= path@.skip(from + 1));
        }
        let last: bool = from + 1 == path.segments.len();
        match (self, &path.segments[from]) {
            (Node::Mapping(v), PathSegment::Key(key)) => match find_key(v, key.as_str()) {
                None => None,
                Some(i) => {
                    assert(entries(v@)[i as int] == (v@[i as int].0@, v@[i as int].1@));
                    if last {
                        let mut out = clone_entries(v);
                        let _ = out.remove(i);
                        assert(entries(out@) =~= entries(v@).remove(i as int));
                        let r = Node::Mapping(out);
                        proof {
                            lemma_view(r);
                        }
                        Some(r)
                    } else {
                        match v[i].1.removed(path, from + 1) {
                            None => None,
                            Some(child) => {
                                let mut out = clone_entries(v);
                                let _ = out.remove(i);
                                out.insert(i, (v[i].0.clone(), child));
                                assert(entries(out@) =~= entries(v@).update(
                                    i as int,
                                    (v@[i as int].0@, child@),
                                ));
                                let r = Node::Mapping(out);
                                proof {
                                    lemma_view(r);
                                }
                                Some(r)
                            },
                        }
                    }
                },
            },
            (Node::Sequence(v), PathSegment::Index(k)) => {
                let i: usize = *k;
                if i >= v.len() {
                    return None;
                }
                assert(trees(v@)[i as int] == v@[i as int]@);
                if last {
                    let mut out = clone_nodes(v);
                    let _ = out.remove(i);
                    assert(trees(out@) =~= trees(v@).remove(i as int));
                    let r = Node::Sequence(out);
                    proof {
                        lemma_view(r);
                    }
                    Some(r)
                } else {
                    match v[i].removed(path, from + 1) {
                        None => None,
                        Some(child) => {
                            let mut out = clone_nodes(v);
                            let _ = out.remove(i);
                            out.insert(i, child);
                            assert(trees(out@) =~= trees(v@).update(i as int, child@));
                            let r = Node::Sequence(out);
                            proof {
                                lemma_view(r);
                            }
                            Some(r)
                        },
                    }
                }
            },
            (Node::Tagged { tag, value }, _) => {
                if last {
                    None
                } else {
                    match value.removed(path, from) {
                        None => None,
                        Some(child) => Some(
                            Node::Tagged { tag: tag.clone(), value: Box::new(child) },
                        ),
                    }
                }
            },
            _ => None,
        }
    }
}

pub fn clone_entries(v: &Vec<(String, Node)>) -> (r: Vec<(String, Node)>)
    ensures
        entries(r@) == entries(v@),
        r@.len() == v@.len(),
{
    let mut out: Vec<(String, Node)> = Vec::new();
    let mut i: usize = 0;
    while i < v.len()
        invariant
            i <= v.len(),
            forall|j: int|
                            0 <= j < i ==> (#[trigger] out@[j]).0@ == v@[j].0@ && out@[j].1@ == v@[j].1@,
            out@.len() == i,
        decreases v.len() - i,
    {
        out.push((v[i].0.clone(), v[i].1.clone()));
        i = i + 1;
    }
    assert(entries(out@) =~= entries(v@));
    out
}

pub fn clone_nodes(v: &Vec<Node>) -> (r: Vec<Node>)
    ensures
        trees(r@) == trees(v@),
        r@.len() == v@.len(),
{
    let mut out: Vec<Node> = Vec::new();
    let mut i: usize = 0;
    while i < v.len()
        invariant
            i <= v.len(),
            forall|j: int| 0 <= j < i ==> (#[trigger] out@[j])@ == v@[j]@,
            out@.len() == i,
        decreases v.len() - i,
    {
        out.push(v[i].clone());
        i = i + 1;
    }
    assert(trees(out@) =~= trees(v@));
    out
}

/// One step of a path into a document.
#[derive(Debug, PartialEq, Eq, Hash)]
pub enum PathSegment {
    Key(String),
    Index(usize),
}

impl View for PathSegment {
    type V = Step;

    open spec fn view(&self) -> Step {
        match self {
            PathSegment::Key(key) => Step::Key(key@),
            PathSegment::Index(i) => Step::Index(*i as int),
        }
    }
}

impl Clone for PathSegment {
    fn clone(&self) -> (r: PathSegment)
        ensures
            r@ == self@,
    {
        match self {
            PathSegment::Key(key) => PathSegment::Key(key.clone()),
            PathSegment::Index(i) => PathSegment::Index(*i),
        }
    }
}

impl PathSegment {
    pub fn same(&self, other: &PathSegment) -> (r: bool)
        ensures
            r == (self@ == other@),
    {
        match (self, other) {
            (PathSegment::Key(a), PathSegment::Key(b)) => text::eq(a.as_str(), b.as_str()),
            (PathSegment::Index(a), PathSegment::Index(b)) => *a == *b,
            _ => false,
        }
    }
}

/// A path from the root of a document to one of its values.
#[derive(Debug, PartialEq, Eq, Hash)]
pub struct NodePath {
    pub segments: Vec<PathSegment>,
}

/// The steps of a list of segments.
pub open spec fn steps(v: Seq<PathSegment>) -> Seq<Step> {
    v.map_values(|s: PathSegment| s@)
}

/// Every index of the path is one that a sequence can have.
pub open spec fn indexed(path: Seq<Step>) -> bool {
    forall|i: int|
        0 <= i < path.len() ==> ((#[trigger] path[i]) matches Step::Index(k) ==> 0 <= k
            <= usize::MAX)
}

pub proof fn lemma_indexed(path: NodePath)
    ensures
        indexed(path@),
{
    assert forall|i: int| 0 <= i < path@.len() implies ((#[trigger] path@[i]) matches Step::Index(
        k,
    ) ==> 0 <= k <= usize::MAX) by {
        assert(path@[i] == path.segments@[i]@);
    }
}

impl View for NodePath {
    type V = Seq<Step>;

    open spec fn view(&self) -> Seq<Step> {
        steps(self.segments@)
    }
}

impl Clone for NodePath {
    fn clone(&self) -> (r: NodePath)
        ensures
            r@ == self@,
    {
        let mut out: Vec<PathSegment> = Vec::new();
        let mut i: usize = 0;
        while i < self.segments.len()
            invariant
                i <= self.segments.len(),
                forall|j: int| 0 <= j < i ==> (#[trigger] out@[j])@ == self.segments@[j]@,
                out@.len() == i,
            decreases self.segments.len() - i,
        {
            out.push(self.segments[i].clone());
            i = i + 1;
        }
        assert(steps(out@) =~= steps(self.segments@));
        NodePath { segments: out }
    }
}

impl Default for NodePath {
    fn default() -> (r: NodePath)
        ensures
            r@ == Seq::<Step>::empty(),
    {
        NodePath::root()
    }
}

/// The text of the steps of a path; keys after the first step follow a dot.
pub open spec fn steps_text(path: Seq<Step>) -> Seq<char>
    decreases path.len(),
{
    if path.len() == 0 {
        Seq::empty()
    } else {
        let head = steps_text(path.drop_last());
        match path.last() {
            Step::Key(key) => if path.len() > 1 {
                head + "."@ + key
            } else {
                head + key
            },
            Step::Index(i) => head + "["@ + segment::decimal(i as nat) + "]"@,
        }
    }
}

/// How a path is shown.
pub open spec fn path_text(path: Seq<Step>) -> Seq<char> {
    if path.len() == 0 {
        "$"@
    } else {
        steps_text(path)
    }
}

impl NodePath {
    pub fn root() -> (r: NodePath)
        ensures
            r@ == Seq::<Step>::empty(),
    {
        let r = NodePath { segments: Vec::new() };
        assert(r@ =~= Seq::<Step>::empty());
        r
    }

    pub fn child_key(&self, key: &str) -> (r: NodePath)
        ensures
            r@ == self@.push(Step::Key(key@)),
    {
        let mut r = self.clone();
        r.segments.push(PathSegment::Key(key.to_owned()));
        assert(r@ =~= self@.push(Step::Key(key@)));
        r
    }

    pub fn child_index(&self, index: usize) -> (r: NodePath)
        ensures
            r@ == self@.push(Step::Index(index as int)),
    {
        let mut r = self.clone();
        r.segments.push(PathSegment::Index(index));
        assert(r@ =~= self@.push(Step::Index(index as int)));
        r
    }

    pub fn segments(&self) -> (r: &[PathSegment])
        ensures
            steps(r@) == self@,
    {
        self.segments.as_slice()
    }

    pub fn same(&self, other: &NodePath) -> (r: bool)
        ensures
            r == (self@ == other@),
    {
        if self.segments.len() != other.segments.len() {
            assert(self@.len() != other@.len());
            return false;
        }
        let mut i: usize = 0;
        while i < self.segments.len()
            invariant
                self.segments@.len() == other.segments@.len(),
                i <= self.segments.len(),
                forall|j: int| 0 <= j < i ==> self@[j] == other@[j],
            decreases self.segments.len() - i,
        {
            if !self.segments[i].same(&other.segments[i]) {
                assert(self@[i as int] != other@[i as int]);
                return false;
            }
            i = i + 1;
        }
        assert(self@ =~= other@);
        true
    }

    /// The path as it is shown in messages and reports.
    pub fn to_text(&self) -> (r: String)
        ensures
            r@ == path_text(self@),
    {
        if self.segments.len() == 0 {
            return "$".to_owned();
        }
        let mut out = String::new();
        let mut i: usize = 0;
        while i < self.segments.len()
            invariant
                i <= self.segments.len(),
                out@ == steps_text(self@.take(i as int)),
            decreases self.segments.len() - i,
        {
            let ghost now = self@.take(i + 1);
            assert(now.drop_last() =~= self@.take(i as int));
            assert(now.last() == self.segments@[i as int]@);
            match &self.segments[i] {
                PathSegment::Key(key) => {
                    if i > 0 {
                        out.append(".");
                    }
                    out.append(key.as_str());
                },
                PathSegment::Index(k) => {
                    out.append("[");
                    out.append(segment::decimal_of(*k).as_str());
                    out.append("]");
                },
            }
            i = i + 1;
        }
        assert(self@.take(i as int) =~= self@);
        out
    }
}

} // verus!
