//! The changes between two document values.

use vstd::prelude::*;

use crate::semantic::order;
use crate::source::node;
use crate::source::{Node, NodePath};
use crate::text;

verus! {

#[derive(Clone, Copy, Debug, PartialEq, Eq, Structural)]
pub enum ChangeKind {
    Added,
    Deleted,
    Modified,
    OrderChanged,
}

impl ChangeKind {
    pub open spec fn mark(self) -> Seq<char> {
        match self {
            ChangeKind::Added => "+"@,
            ChangeKind::Deleted => "-"@,
            ChangeKind::Modified | ChangeKind::OrderChanged => "~"@,
        }
    }

    fn symbol(self) -> (r: &'static str)
        ensures
            r@ == self.mark(),
    {
        match self {
            ChangeKind::Added => "+",
            ChangeKind::Deleted => "-",
            ChangeKind::Modified | ChangeKind::OrderChanged => "~",
        }
    }
}

/// A change at one place of a document. It never holds a value.
#[derive(Debug, PartialEq, Eq)]
pub struct Change {
    path: NodePath,
    kind: ChangeKind,
}

pub struct ChangeModel {
    pub path: Seq<node::Step>,
    pub kind: ChangeKind,
}

impl View for Change {
    type V = ChangeModel;

    closed spec fn view(&self) -> ChangeModel {
        ChangeModel { path: self.path@, kind: self.kind }
    }
}

pub open spec fn changes_of(v: Seq<Change>) -> Seq<ChangeModel> {
    v.map_values(|c: Change| c@)
}

impl Change {
    pub fn new(path: NodePath, kind: ChangeKind) -> (r: Change)
        ensures
            r@ == (ChangeModel { path: path@, kind }),
    {
        Change { path, kind }
    }

    pub fn path(&self) -> (r: &NodePath)
        ensures
            r@ == self@.path,
    {
        &self.path
    }

    pub fn kind(&self) -> (r: ChangeKind)
        ensures
            r == self@.kind,
    {
        self.kind
    }

    /// How the change is listed.
    pub fn to_text(&self) -> (r: String)
        ensures
            r@ == if self@.kind == ChangeKind::OrderChanged {
                "~"@ + " "@ + node::path_text(self@.path) + " [order]"@
            } else {
                self@.kind.mark() + " "@ + node::path_text(self@.path)
            },
    {
        let shown = self.path.to_text();
        if self.kind == ChangeKind::OrderChanged {
            text::cat4(self.kind.symbol(), " ", shown.as_str(), " [order]")
        } else {
            text::cat3(self.kind.symbol(), " ", shown.as_str())
        }
    }
}

/// One change.
pub open spec fn one(path: Seq<node::Step>, kind: ChangeKind) -> Seq<ChangeModel> {
    seq![ChangeModel { path, kind }]
}

/// The changes from `b` to `a`, both standing at `path`.
pub open spec fn tree_changes(path: Seq<node::Step>, b: node::Tree, a: node::Tree) -> Seq<
    ChangeModel,
>
    decreases b, 0nat,
{
    if b == a {
        Seq::empty()
    } else {
        match (b, a) {
            (node::Tree::Mapping(be), node::Tree::Mapping(ae)) => {
                order_change(path, be, ae) + entry_changes(path, be, ae, be.len())
                    + additions(path, be, ae)
            },
            (node::Tree::Tagged(bt, bv), node::Tree::Tagged(at, av)) => if bt == at {
                tree_changes(path, *bv, *av)
            } else {
                one(path, ChangeKind::Modified)
            },
            _ => one(path, ChangeKind::Modified),
        }
    }
}

/// The keys that both sides have stand in another order.
pub open spec fn order_change(
    path: Seq<node::Step>,
    be: Seq<(Seq<char>, node::Tree)>,
    ae: Seq<(Seq<char>, node::Tree)>,
) -> Seq<ChangeModel> {
    if order::kept(node::keys(be), node::keys(ae)) != order::kept(node::keys(ae), node::keys(be)) {
        one(path, ChangeKind::OrderChanged)
    } else {
        Seq::empty()
    }
}

/// The changes of the first `n` entries of `be`.
pub open spec fn entry_changes(
    path: Seq<node::Step>,
    be: Seq<(Seq<char>, node::Tree)>,
    ae: Seq<(Seq<char>, node::Tree)>,
    n: nat,
) -> Seq<ChangeModel>
    decreases be, n,
{
    if n == 0 || n > be.len() {
        Seq::empty()
    } else {
        let (key, value) = be[n - 1];
        let here = path.push(node::Step::Key(key));
        entry_changes(path, be, ae, (n - 1) as nat) + match node::lookup(ae, key) {
            Some(other) => tree_changes(here, be[n - 1].1, other),
            None => one(here, ChangeKind::Deleted),
        }
    }
}

/// The entries of `ae` whose keys `be` lacks.
pub open spec fn additions(
    path: Seq<node::Step>,
    be: Seq<(Seq<char>, node::Tree)>,
    ae: Seq<(Seq<char>, node::Tree)>,
) -> Seq<ChangeModel>
    decreases ae.len(),
{
    if ae.len() == 0 {
        Seq::empty()
    } else {
        let head = additions(path, be, ae.drop_last());
        let key = ae.last().0;
        if node::keys(be).contains(key) {
            head
        } else {
            head + one(path.push(node::Step::Key(key)), ChangeKind::Added)
        }
    }
}

/// The changes that lead from one value to another, in document order.
pub fn diff(before: &Node, after: &Node) -> (r: Vec<Change>)
    ensures
        changes_of(r@) == tree_changes(Seq::empty(), before@, after@),
{
    let mut changes: Vec<Change> = Vec::new();
    diff_at(&NodePath::root(), before, after, &mut changes);
    assert(changes_of(changes@) =~= tree_changes(Seq::empty(), before@, after@));
    changes
}

fn push_change(changes: &mut Vec<Change>, path: NodePath, kind: ChangeKind)
    ensures
        changes_of(final(changes)@) == changes_of(old(changes)@) + one(path@, kind),
{
    let ghost before = changes@;
    changes.push(Change { path, kind });
    assert(changes_of(changes@) =~= changes_of(before) + one(path@, kind));
}

/// The keys of a mapping, copied out.
pub fn key_list(v: &Vec<(String, Node)>) -> (r: Vec<String>)
    ensures
        text::texts(r@) == node::keys(node::entries(v@)),
{
    let mut out: Vec<String> = Vec::new();
    let mut i: usize = 0;
    while i < v.len()
        invariant
            i <= v.len(),
            out@.len() == i,
            forall|j: int| 0 <= j < i ==> (#[trigger] out@[j])@ == v@[j].0@,
        decreases v.len() - i,
    {
        out.push(v[i].0.clone());
        i = i + 1;
    }
    assert(text::texts(out@) =~= node::keys(node::entries(v@)));
    out
}

#[verifier::loop_isolation(false)]
fn diff_at(path: &NodePath, before: &Node, after: &Node, changes: &mut Vec<Change>)
    ensures
        changes_of(final(changes)@) == changes_of(old(changes)@) + tree_changes(
            path@,
            before@,
            after@,
        ),
    decreases before,
{
    proof {
        node::lemma_view(*before);
        node::lemma_view(*after);
    }
    if before.same(after) {
        assert(changes_of(changes@) + Seq::<ChangeModel>::empty() =~= changes_of(changes@));
        return ;
    }
    match (before, after) {
        (Node::Mapping(b), Node::Mapping(a)) => {
            let ghost start = changes_of(changes@);
            let ghost be = node::entries(b@);
            let ghost ae = node::entries(a@);
            let before_keys = key_list(b);
            let after_keys = key_list(a);
            let common_before = order::keep(&before_keys, &after_keys);
            let common_after = order::keep(&after_keys, &before_keys);
            if !text::eq_texts(common_before.as_slice(), common_after.as_slice()) {
                push_change(changes, path.clone(), ChangeKind::OrderChanged);
            }
            let ghost ordered = start + order_change(path@, be, ae);
            assert(changes_of(changes@) =~= ordered);
            let mut i: usize = 0;
            while i < b.len()
                invariant
                    i <= b.len(),
                    changes_of(changes@) == ordered + entry_changes(path@, be, ae, i as nat),
                decreases b.len() - i,
            {
                assert(decreases_to!(b@ => b@[i as int]));
                assert(be[i as int] == (b@[i as int].0@, b@[i as int].1@));
                let ghost so_far = changes_of(changes@);
                let here = path.child_key(b[i].0.as_str());
                match node::find_key(a, b[i].0.as_str()) {
                    Some(k) => {
                        assert(ae[k as int] == (a@[k as int].0@, a@[k as int].1@));
                        diff_at(&here, &b[i].1, &a[k].1, changes);
                    },
                    None => {
                        push_change(changes, here, ChangeKind::Deleted);
                    },
                }
                i = i + 1;
                assert(changes_of(changes@) =~= ordered + entry_changes(path@, be, ae, i as nat));
            }
            let ghost entered = changes_of(changes@);
            let mut j: usize = 0;
            assert(changes_of(changes@) =~= entered + additions(path@, be, ae.take(0)));
            while j < a.len()
                invariant
                    j <= a.len(),
                    changes_of(changes@) == entered + additions(path@, be, ae.take(j as int)),
                decreases a.len() - j,
            {
                assert(ae[j as int] == (a@[j as int].0@, a@[j as int].1@));
                assert(ae.take(j + 1).drop_last() =~= ae.take(j as int));
                if node::find_key(b, a[j].0.as_str()).is_none() {
                    let here = path.child_key(a[j].0.as_str());
                    push_change(changes, here, ChangeKind::Added);
                }
                j = j + 1;
                assert(changes_of(changes@) =~= entered + additions(path@, be, ae.take(j as int)));
            }
            assert(ae.take(j as int) =~= ae);
            assert(changes_of(changes@) =~= start + tree_changes(path@, before@, after@));
        },
        (Node::Tagged { tag: bt, value: bv }, Node::Tagged { tag: at, value: av }) => {
            if text::eq(bt.as_str(), at.as_str()) {
                diff_at(path, bv, av, changes);
            } else {
                push_change(changes, path.clone(), ChangeKind::Modified);
            }
        },
        _ => {
            push_change(changes, path.clone(), ChangeKind::Modified);
        },
    }
}

/// Law: two well-keyed values are equal exactly if nothing changed between them.
pub proof fn law_no_change_means_equal(path: Seq<node::Step>, b: node::Tree, a: node::Tree)
    requires
        node::well_keyed(b),
        node::well_keyed(a),
    ensures
        tree_changes(path, b, a).len() == 0 <==> a == b,
    decreases b,
{
    if b != a && tree_changes(path, b, a).len() == 0 {
        match (b, a) {
            (node::Tree::Mapping(be), node::Tree::Mapping(ae)) => {
                let n = be.len();
                assert(order_change(path, be, ae).len() == 0);
                assert(entry_changes(path, be, ae, n).len() == 0);
                assert(additions(path, be, ae).len() == 0);
                lemma_no_additions(path, be, ae);
                assert forall|i: int| 0 <= i < n implies node::lookup(ae, be[i].0) == Some(
                    #[trigger] be[i].1,
                ) by {
                    lemma_no_entry_change(path, be, ae, n, i);
                    assert(decreases_to!(be => be[i]));
                    let other = node::lookup(ae, be[i].0)->Some_0;
                    node::lemma_position(ae, be[i].0);
                    let k = node::position(ae, be[i].0) as int;
                    assert(node::well_keyed(ae[k].1));
                    law_no_change_means_equal(
                        path.push(node::Step::Key(be[i].0)),
                        be[i].1,
                        other,
                    );
                }
                assert forall|i: int| 0 <= i < n implies node::keys(ae).contains(
                    #[trigger] node::keys(be)[i],
                ) by {
                    assert(node::lookup(ae, be[i].0) == Some(be[i].1));
                    node::lemma_position(ae, be[i].0);
                }
                order::lemma_kept_all(node::keys(be), node::keys(ae));
                order::lemma_kept_all(node::keys(ae), node::keys(be));
                assert(node::keys(be) == node::keys(ae));
                assert forall|i: int| 0 <= i < n implies be[i] == ae[i] by {
                    assert(node::keys(be)[i] == be[i].0);
                    assert(node::keys(ae)[i] == ae[i].0);
                    assert(node::lookup(ae, be[i].0) == Some(be[i].1));
                    node::lemma_position(ae, be[i].0);
                    let k = node::position(ae, be[i].0) as int;
                    assert(node::keys(ae)[k] == ae[k].0);
                    assert(k == i);
                }
                assert(node::keys(be).len() == node::keys(ae).len());
                assert(be =~= ae);
            },
            (node::Tree::Tagged(bt, bv), node::Tree::Tagged(at, av)) => {
                if bt == at {
                    law_no_change_means_equal(path, *bv, *av);
                }
            },
            _ => {},
        }
    }
}

proof fn lemma_no_additions(
    path: Seq<node::Step>,
    be: Seq<(Seq<char>, node::Tree)>,
    ae: Seq<(Seq<char>, node::Tree)>,
)
    requires
        additions(path, be, ae).len() == 0,
    ensures
        forall|i: int|
            0 <= i < ae.len() ==> node::keys(be).contains(#[trigger] node::keys(ae)[i]),
    decreases ae.len(),
{
    if ae.len() > 0 {
        lemma_no_additions(path, be, ae.drop_last());
        assert forall|i: int| 0 <= i < ae.len() implies node::keys(be).contains(
            #[trigger] node::keys(ae)[i],
        ) by {
            if i < ae.len() - 1 {
                assert(node::keys(ae.drop_last())[i] == node::keys(ae)[i]);
            } else {
                assert(node::keys(ae)[i] == ae.last().0);
            }
        }
    }
}

proof fn lemma_no_entry_change(
    path: Seq<node::Step>,
    be: Seq<(Seq<char>, node::Tree)>,
    ae: Seq<(Seq<char>, node::Tree)>,
    n: nat,
    i: int,
)
    requires
        entry_changes(path, be, ae, n).len() == 0,
        0 <= i < n <= be.len(),
    ensures
        node::lookup(ae, be[i].0) is Some,
        tree_changes(
            path.push(node::Step::Key(be[i].0)),
            be[i].1,
            node::lookup(ae, be[i].0)->Some_0,
        ).len() == 0,
    decreases n,
{
    if i < n - 1 {
        lemma_no_entry_change(path, be, ae, (n - 1) as nat, i);
    }
}

/// A change seen from the other side.
pub open spec fn mirrored(c: ChangeModel) -> ChangeModel {
    ChangeModel {
        path: c.path,
        kind: match c.kind {
            ChangeKind::Added => ChangeKind::Deleted,
            ChangeKind::Deleted => ChangeKind::Added,
            kind => kind,
        },
    }
}

/// The changes of an entry.
pub open spec fn entry_change(
    path: Seq<node::Step>,
    be: Seq<(Seq<char>, node::Tree)>,
    ae: Seq<(Seq<char>, node::Tree)>,
    i: int,
) -> Seq<ChangeModel> {
    let here = path.push(node::Step::Key(be[i].0));
    match node::lookup(ae, be[i].0) {
        Some(other) => tree_changes(here, be[i].1, other),
        None => one(here, ChangeKind::Deleted),
    }
}

proof fn lemma_in_sum(a: Seq<ChangeModel>, b: Seq<ChangeModel>, c: ChangeModel)
    ensures
        (a + b).contains(c) <==> a.contains(c) || b.contains(c),
{
    let s = a + b;
    if a.contains(c) {
        let k = choose|k: int| 0 <= k < a.len() && a[k] == c;
        assert(s[k] == c);
    }
    if b.contains(c) {
        let k = choose|k: int| 0 <= k < b.len() && b[k] == c;
        assert(s[a.len() + k] == c);
    }
    if s.contains(c) {
        let k = choose|k: int| 0 <= k < s.len() && s[k] == c;
        if k < a.len() {
            assert(a[k] == c);
        } else {
            assert(b[k - a.len()] == c);
        }
    }
}

proof fn lemma_in_entries(
    path: Seq<node::Step>,
    be: Seq<(Seq<char>, node::Tree)>,
    ae: Seq<(Seq<char>, node::Tree)>,
    n: nat,
    c: ChangeModel,
)
    requires
        n <= be.len(),
    ensures
        entry_changes(path, be, ae, n).contains(c) <==> exists|i: int|
            0 <= i < n && #[trigger] entry_change(path, be, ae, i).contains(c),
    decreases n,
{
    if n > 0 {
        lemma_in_entries(path, be, ae, (n - 1) as nat, c);
        lemma_in_sum(
            entry_changes(path, be, ae, (n - 1) as nat),
            entry_change(path, be, ae, n - 1),
            c,
        );
    }
}

proof fn lemma_in_additions(
    path: Seq<node::Step>,
    be: Seq<(Seq<char>, node::Tree)>,
    ae: Seq<(Seq<char>, node::Tree)>,
    c: ChangeModel,
)
    ensures
        additions(path, be, ae).contains(c) <==> exists|i: int|
            0 <= i < ae.len() && !node::keys(be).contains((#[trigger] ae[i]).0) && c
                == (ChangeModel {
                path: path.push(node::Step::Key(ae[i].0)),
                kind: ChangeKind::Added,
            }),
    decreases ae.len(),
{
    if ae.len() > 0 {
        let head = ae.drop_last();
        let n = ae.len() - 1;
        lemma_in_additions(path, be, head, c);
        let last = one(path.push(node::Step::Key(ae.last().0)), ChangeKind::Added);
        lemma_in_sum(additions(path, be, head), last, c);
        assert(last.contains(c) <==> c == last[0]) by {
            assert(last[0] == last[0]);
        }
        if additions(path, be, head).contains(c) {
            let i = choose|i: int|
                0 <= i < head.len() && !node::keys(be).contains((#[trigger] head[i]).0) && c
                    == (ChangeModel {
                    path: path.push(node::Step::Key(head[i].0)),
                    kind: ChangeKind::Added,
                });
            assert(ae[i] == head[i]);
        }
        if exists|i: int|
            0 <= i < ae.len() && !node::keys(be).contains((#[trigger] ae[i]).0) && c
                == (ChangeModel {
                path: path.push(node::Step::Key(ae[i].0)),
                kind: ChangeKind::Added,
            }) {
            let i = choose|i: int|
                0 <= i < ae.len() && !node::keys(be).contains((#[trigger] ae[i]).0) && c
                    == (ChangeModel {
                    path: path.push(node::Step::Key(ae[i].0)),
                    kind: ChangeKind::Added,
                });
            if i < n {
                assert(head[i] == ae[i]);
            } else {
                assert(ae[n] == ae.last());
            }
        }
    }
}

/// The entry that a key is found at.
proof fn lemma_entry_of(e: Seq<(Seq<char>, node::Tree)>, i: int)
    requires
        node::keys(e).no_duplicates(),
        0 <= i < e.len(),
    ensures
        node::lookup(e, e[i].0) == Some(e[i].1),
        node::keys(e).contains(e[i].0),
{
    node::lemma_position(e, e[i].0);
    assert(node::keys(e)[i] == e[i].0);
    let k = node::position(e, e[i].0) as int;
    assert(node::keys(e)[k] == e[k].0);
}

proof fn lemma_mirrored(path: Seq<node::Step>, b: node::Tree, a: node::Tree, c: ChangeModel)
    requires
        node::well_keyed(b),
        node::well_keyed(a),
        tree_changes(path, b, a).contains(c),
    ensures
        tree_changes(path, a, b).contains(mirrored(c)),
    decreases b,
{
    let m = mirrored(c);
    if b != a {
        match (b, a) {
            (node::Tree::Mapping(be), node::Tree::Mapping(ae)) => {
                let n = be.len();
                let order = order_change(path, be, ae);
                let back = order_change(path, ae, be);
                let inner = entry_changes(path, be, ae, n);
                lemma_in_sum(order + inner, additions(path, be, ae), c);
                lemma_in_sum(order, inner, c);
                lemma_in_entries(path, be, ae, n, c);
                lemma_in_additions(path, be, ae, c);
                let entries = entry_changes(path, ae, be, ae.len());
                lemma_in_sum(back + entries, additions(path, ae, be), m);
                lemma_in_sum(back, entries, m);
                lemma_in_entries(path, ae, be, ae.len(), m);
                lemma_in_additions(path, ae, be, m);
                if order.contains(c) {
                    assert(back[0] == m);
                } else if inner.contains(c) {
                    let i = choose|i: int|
                        0 <= i < n && #[trigger] entry_change(path, be, ae, i).contains(c);
                    let key = be[i].0;
                    node::lemma_position(ae, key);
                    lemma_entry_of(be, i);
                    match node::lookup(ae, key) {
                        Some(other) => {
                            let k = node::position(ae, key) as int;
                            assert(ae[k] == (key, other));
                            assert(decreases_to!(be => be[i]));
                            assert(node::well_keyed(be[i].1) && node::well_keyed(ae[k].1));
                            lemma_mirrored(path.push(node::Step::Key(key)), be[i].1, other, c);
                            assert(entry_change(path, ae, be, k).contains(m));
                        },
                        None => {
                            assert(m == (ChangeModel {
                                path: path.push(node::Step::Key(be[i].0)),
                                kind: ChangeKind::Added,
                            }));
                        },
                    }
                } else {
                    let i = choose|i: int|
                        0 <= i < ae.len() && !node::keys(be).contains((#[trigger] ae[i]).0) && c
                            == (ChangeModel {
                            path: path.push(node::Step::Key(ae[i].0)),
                            kind: ChangeKind::Added,
                        });
                    node::lemma_position(be, ae[i].0);
                    let own = entry_change(path, ae, be, i);
                    assert(own[0] == m);
                    assert(own.contains(m));
                }
            },
            (node::Tree::Tagged(bt, bv), node::Tree::Tagged(at, av)) => {
                if bt == at {
                    lemma_mirrored(path, *bv, *av, c);
                } else {
                    assert(one(path, ChangeKind::Modified)[0] == m);
                }
            },
            _ => {
                assert(one(path, ChangeKind::Modified)[0] == m);
            },
        }
    }
}

/// Law: the changes back are the changes there, each seen from the other side: what was
/// added is deleted, what was deleted is added, and what was modified or reordered is so
/// again, at the same places.
pub proof fn law_changes_are_mirrored(
    path: Seq<node::Step>,
    b: node::Tree,
    a: node::Tree,
    c: ChangeModel,
)
    requires
        node::well_keyed(b),
        node::well_keyed(a),
    ensures
        tree_changes(path, b, a).contains(c) <==> tree_changes(path, a, b).contains(mirrored(c)),
{
    if tree_changes(path, b, a).contains(c) {
        lemma_mirrored(path, b, a, c);
    }
    if tree_changes(path, a, b).contains(mirrored(c)) {
        lemma_mirrored(path, a, b, mirrored(c));
        assert(mirrored(mirrored(c)) == c);
    }
}

/// What a change at a place says of both values.
pub open spec fn change_holds(
    kind: ChangeKind,
    before: Option<node::Tree>,
    after: Option<node::Tree>,
) -> bool {
    match kind {
        ChangeKind::Added => before is None && after is Some,
        ChangeKind::Deleted => before is Some && after is None,
        ChangeKind::Modified | ChangeKind::OrderChanged => before is Some && after is Some && before
            != after,
    }
}

/// Law: every change is what its kind says. Its place lies below the place that is
/// compared; a value was added where there was none and is one, deleted where there was
/// one and is none, and modified or reordered where both sides have a value and the
/// values differ.
pub proof fn law_changes_are_what_they_say(
    path: Seq<node::Step>,
    b: node::Tree,
    a: node::Tree,
    c: ChangeModel,
)
    requires
        node::well_keyed(b),
        node::well_keyed(a),
        tree_changes(path, b, a).contains(c),
    ensures
        path.is_prefix_of(c.path),
        change_holds(
            c.kind,
            node::tree_at(b, c.path.skip(path.len() as int)),
            node::tree_at(a, c.path.skip(path.len() as int)),
        ),
    decreases b,
{
    let rest = c.path.skip(path.len() as int);
    match (b, a) {
        (node::Tree::Mapping(be), node::Tree::Mapping(ae)) => {
            let n = be.len();
            let order = order_change(path, be, ae);
            let inner = entry_changes(path, be, ae, n);
            lemma_in_sum(order + inner, additions(path, be, ae), c);
            lemma_in_sum(order, inner, c);
            lemma_in_entries(path, be, ae, n, c);
            lemma_in_additions(path, be, ae, c);
            if order.contains(c) {
                assert(c.path == path);
            } else if inner.contains(c) {
                let i = choose|i: int|
                    0 <= i < n && #[trigger] entry_change(path, be, ae, i).contains(c);
                let key = be[i].0;
                let here = path.push(node::Step::Key(key));
                node::lemma_position(ae, key);
                lemma_entry_of(be, i);
                match node::lookup(ae, key) {
                    Some(other) => {
                        let k = node::position(ae, key) as int;
                        assert(ae[k] == (key, other));
                        assert(decreases_to!(be => be[i]));
                        assert(node::well_keyed(be[i].1) && node::well_keyed(ae[k].1));
                        law_changes_are_what_they_say(here, be[i].1, other, c);
                        lemma_below(path, key, c.path);
                    },
                    None => {
                        assert(c.path == here);
                        lemma_below(path, key, c.path);
                        assert(node::tree_at(be[i].1, rest.skip(1)) is Some);
                    },
                }
            } else {
                let i = choose|i: int|
                    0 <= i < ae.len() && !node::keys(be).contains((#[trigger] ae[i]).0) && c
                        == (ChangeModel {
                        path: path.push(node::Step::Key(ae[i].0)),
                        kind: ChangeKind::Added,
                    });
                node::lemma_position(be, ae[i].0);
                lemma_entry_of(ae, i);
                lemma_below(path, ae[i].0, c.path);
                assert(node::tree_at(ae[i].1, rest.skip(1)) is Some);
            }
        },
        (node::Tree::Tagged(bt, bv), node::Tree::Tagged(at, av)) => {
            if bt == at {
                law_changes_are_what_they_say(path, *bv, *av, c);
                if rest.len() == 0 {
                    assert(c.path.len() == path.len());
                }
            } else {
                assert(c.path == path);
            }
        },
        _ => {
            assert(c.path == path);
        },
    }
}

/// A place below a key is below the mapping, a step further.
proof fn lemma_below(path: Seq<node::Step>, key: Seq<char>, place: Seq<node::Step>)
    requires
        path.push(node::Step::Key(key)).is_prefix_of(place),
    ensures
        path.is_prefix_of(place),
        ({
            let rest = place.skip(path.len() as int);
            &&& rest.len() > 0
            &&& rest[0] == node::Step::Key(key)
            &&& rest.skip(1) == place.skip(path.len() as int + 1)
        }),
{
    let here = path.push(node::Step::Key(key));
    assert forall|i: int| 0 <= i < here.len() implies place[i] == here[i] by {
        assert(place.subrange(0, here.len() as int)[i] == here[i]);
    }
    assert(path =~= place.subrange(0, path.len() as int));
    assert(place.skip(path.len() as int).skip(1) =~= place.skip(path.len() as int + 1));
}

proof fn lemma_distinct_sum(a: Seq<ChangeModel>, b: Seq<ChangeModel>)
    requires
        a.no_duplicates(),
        b.no_duplicates(),
        forall|c: ChangeModel| #[trigger] a.contains(c) ==> !b.contains(c),
    ensures
        (a + b).no_duplicates(),
{
    let s = a + b;
    assert forall|i: int, j: int| 0 <= i < j < s.len() implies s[i] != s[j] by {
        if i < a.len() && j >= a.len() {
            assert(a.contains(a[i]));
            assert(b[j - a.len()] == s[j]);
        }
    }
}

/// The changes of an entry all lie below its key.
proof fn lemma_entry_place(
    path: Seq<node::Step>,
    be: Seq<(Seq<char>, node::Tree)>,
    ae: Seq<(Seq<char>, node::Tree)>,
    i: int,
    c: ChangeModel,
)
    requires
        0 <= i < be.len(),
        node::well_keyed(node::Tree::Mapping(be)),
        node::well_keyed(node::Tree::Mapping(ae)),
        entry_change(path, be, ae, i).contains(c),
    ensures
        c.path.len() > path.len(),
        c.path[path.len() as int] == node::Step::Key(be[i].0),
        node::lookup(ae, be[i].0) is None ==> c.kind == ChangeKind::Deleted,
{
    let here = path.push(node::Step::Key(be[i].0));
    node::lemma_position(ae, be[i].0);
    assert(node::well_keyed(be[i].1));
    match node::lookup(ae, be[i].0) {
        Some(other) => {
            let k = node::position(ae, be[i].0) as int;
            assert(node::well_keyed(ae[k].1));
            law_changes_are_what_they_say(here, be[i].1, other, c);
            lemma_below(path, be[i].0, c.path);
            assert(c.path.skip(path.len() as int)[0] == c.path[path.len() as int]);
        },
        None => {
            assert(c.path == here);
        },
    }
}

proof fn lemma_distinct_entries(
    path: Seq<node::Step>,
    be: Seq<(Seq<char>, node::Tree)>,
    ae: Seq<(Seq<char>, node::Tree)>,
    n: nat,
)
    requires
        n <= be.len(),
        node::well_keyed(node::Tree::Mapping(be)),
        node::well_keyed(node::Tree::Mapping(ae)),
    ensures
        entry_changes(path, be, ae, n).no_duplicates(),
    decreases be, n,
{
    if n > 0 {
        let m = (n - 1) as nat;
        let head = entry_changes(path, be, ae, m);
        let last = entry_change(path, be, ae, n - 1);
        lemma_distinct_entries(path, be, ae, m);
        node::lemma_position(ae, be[n - 1].0);
        assert(node::well_keyed(be[n - 1].1));
        if node::lookup(ae, be[n - 1].0) is Some {
            let k = node::position(ae, be[n - 1].0) as int;
            assert(node::well_keyed(ae[k].1));
            assert(decreases_to!(be => be[n - 1]));
            law_changes_are_listed_once(
                path.push(node::Step::Key(be[n - 1].0)),
                be[n - 1].1,
                ae[k].1,
            );
        }
        assert forall|c: ChangeModel| #[trigger] head.contains(c) implies !last.contains(c) by {
            if last.contains(c) {
                lemma_in_entries(path, be, ae, m, c);
                let i = choose|i: int|
                    0 <= i < m && #[trigger] entry_change(path, be, ae, i).contains(c);
                lemma_entry_place(path, be, ae, i, c);
                lemma_entry_place(path, be, ae, n - 1, c);
                assert(node::keys(be)[i] == be[i].0 && node::keys(be)[n - 1] == be[n - 1].0);
            }
        }
        lemma_distinct_sum(head, last);
    }
}

proof fn lemma_distinct_additions(
    path: Seq<node::Step>,
    be: Seq<(Seq<char>, node::Tree)>,
    ae: Seq<(Seq<char>, node::Tree)>,
)
    requires
        node::keys(ae).no_duplicates(),
    ensures
        additions(path, be, ae).no_duplicates(),
    decreases ae.len(),
{
    if ae.len() > 0 {
        let head = ae.drop_last();
        assert forall|i: int, j: int| 0 <= i < j < head.len() implies node::keys(head)[i]
            != node::keys(head)[j] by {
            assert(node::keys(head)[i] == node::keys(ae)[i]);
            assert(node::keys(head)[j] == node::keys(ae)[j]);
        }
        lemma_distinct_additions(path, be, head);
        let key = ae.last().0;
        let last = one(path.push(node::Step::Key(key)), ChangeKind::Added);
        assert forall|c: ChangeModel| #[trigger] additions(path, be, head).contains(
            c,
        ) implies !last.contains(c) by {
            lemma_in_additions(path, be, head, c);
            let i = choose|i: int|
                0 <= i < head.len() && !node::keys(be).contains((#[trigger] head[i]).0) && c
                    == (ChangeModel {
                    path: path.push(node::Step::Key(head[i].0)),
                    kind: ChangeKind::Added,
                });
            assert(c.path[path.len() as int] == node::Step::Key(head[i].0));
            assert(last[0].path[path.len() as int] == node::Step::Key(key));
            assert(node::keys(ae)[i] == head[i].0);
            assert(node::keys(ae)[ae.len() - 1] == key);
        }
        lemma_distinct_sum(additions(path, be, head), last);
    }
}

/// Law: no change is listed twice. Together with the mirrored changes: the changes back
/// are as many as the changes there.
pub proof fn law_changes_are_listed_once(path: Seq<node::Step>, b: node::Tree, a: node::Tree)
    requires
        node::well_keyed(b),
        node::well_keyed(a),
    ensures
        tree_changes(path, b, a).no_duplicates(),
    decreases b,
{
    if b != a {
        match (b, a) {
            (node::Tree::Mapping(be), node::Tree::Mapping(ae)) => {
                let n = be.len();
                let order = order_change(path, be, ae);
                let inner = entry_changes(path, be, ae, n);
                let added = additions(path, be, ae);
                assert(decreases_to!(b => be));
                lemma_distinct_entries(path, be, ae, n);
                lemma_distinct_additions(path, be, ae);
                assert forall|c: ChangeModel| #[trigger] order.contains(
                    c,
                ) implies !inner.contains(c) by {
                    if inner.contains(c) {
                        lemma_in_entries(path, be, ae, n, c);
                        let i = choose|i: int|
                            0 <= i < n && #[trigger] entry_change(path, be, ae, i).contains(c);
                        lemma_entry_place(path, be, ae, i, c);
                    }
                }
                lemma_distinct_sum(order, inner);
                assert forall|c: ChangeModel| #[trigger] (order + inner).contains(
                    c,
                ) implies !added.contains(c) by {
                    if added.contains(c) {
                        lemma_in_sum(order, inner, c);
                        lemma_in_additions(path, be, ae, c);
                        lemma_in_entries(path, be, ae, n, c);
                        let k = choose|k: int|
                            0 <= k < ae.len() && !node::keys(be).contains((#[trigger] ae[k]).0) && c
                                == (ChangeModel {
                                path: path.push(node::Step::Key(ae[k].0)),
                                kind: ChangeKind::Added,
                            });
                        if inner.contains(c) {
                            let i = choose|i: int|
                                0 <= i < n && #[trigger] entry_change(path, be, ae, i).contains(c);
                            lemma_entry_place(path, be, ae, i, c);
                            assert(c.path[path.len() as int] == node::Step::Key(ae[k].0));
                            assert(node::keys(be)[i] == be[i].0);
                        }
                    }
                }
                lemma_distinct_sum(order + inner, added);
            },
            (node::Tree::Tagged(bt, bv), node::Tree::Tagged(at, av)) => {
                if bt == at {
                    law_changes_are_listed_once(path, *bv, *av);
                }
            },
            _ => {},
        }
    }
}

/// Law: each change from one document value to another tells by its kind what both
/// values have at its path: exactly what was added is missing before and there after,
/// exactly what was deleted is there before and missing after, and what was modified or
/// reordered is there on both sides and differs.
pub proof fn law_kinds_tell_what_changed(b: node::Tree, a: node::Tree, c: ChangeModel)
    requires
        node::well_keyed(b),
        node::well_keyed(a),
        tree_changes(Seq::empty(), b, a).contains(c),
    ensures
        ({
            let (before, after) = (node::tree_at(b, c.path), node::tree_at(a, c.path));
            &&& c.kind == ChangeKind::Added <==> before is None && after is Some
            &&& c.kind == ChangeKind::Deleted <==> before is Some && after is None
            &&& c.kind == ChangeKind::Modified || c.kind == ChangeKind::OrderChanged <==> before
                is Some && after is Some
            &&& before != after
        }),
{
    law_changes_are_what_they_say(Seq::empty(), b, a, c);
    assert(c.path.skip(0) =~= c.path);
}

/// Law: the changes back are, counted with their repetitions, the changes there with
/// additions and deletions exchanged.
pub proof fn law_exchanged_sides_exchange_the_changes(
    path: Seq<node::Step>,
    b: node::Tree,
    a: node::Tree,
)
    requires
        node::well_keyed(b),
        node::well_keyed(a),
    ensures
        tree_changes(path, a, b).to_multiset() =~= tree_changes(path, b, a).map_values(
            |c: ChangeModel| mirrored(c),
        ).to_multiset(),
{
    let there = tree_changes(path, b, a);
    let back = tree_changes(path, a, b);
    let turned = there.map_values(|c: ChangeModel| mirrored(c));
    law_changes_are_listed_once(path, b, a);
    law_changes_are_listed_once(path, a, b);
    assert forall|i: int, j: int| 0 <= i < j < turned.len() implies turned[i] != turned[j] by {
        assert(mirrored(turned[i]) == there[i] && mirrored(turned[j]) == there[j]);
    }
    back.lemma_multiset_has_no_duplicates();
    turned.lemma_multiset_has_no_duplicates();
    assert forall|c: ChangeModel| #[trigger] back.to_multiset().count(c)
        == turned.to_multiset().count(c) by {
        back.to_multiset_ensures();
        turned.to_multiset_ensures();
        let m = mirrored(c);
        law_changes_are_mirrored(path, b, a, m);
        assert(mirrored(m) == c);
        if there.contains(m) {
            let i = choose|i: int| 0 <= i < there.len() && there[i] == m;
            assert(turned[i] == c);
        }
        if turned.contains(c) {
            let i = choose|i: int| 0 <= i < turned.len() && turned[i] == c;
            assert(there[i] == m);
        }
        assert(back.contains(c) <==> turned.contains(c));
        if back.to_multiset().count(c) > 0 {
            assert(back.to_multiset().contains(c));
        }
        if turned.to_multiset().count(c) > 0 {
            assert(turned.to_multiset().contains(c));
        }
    }
}

} // verus!
