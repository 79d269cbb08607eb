//! Three-way merge of document values.

use vstd::prelude::*;

use crate::semantic::diff;
use crate::semantic::order;
use crate::source::node;
use crate::source::{Node, NodePath};
use crate::text;

verus! {

pub enum MergeResult {
    Merged(Node),
    Conflict(Vec<Conflict>),
}

/// A place that both sides changed differently.
#[derive(Debug, PartialEq, Eq)]
pub struct Conflict {
    path: NodePath,
}

impl View for Conflict {
    type V = Seq<node::Step>;

    closed spec fn view(&self) -> Seq<node::Step> {
        self.path@
    }
}

/// The places of a list of conflicts.
pub open spec fn places(v: Seq<Conflict>) -> Seq<Seq<node::Step>> {
    v.map_values(|c: Conflict| c@)
}

impl Conflict {
    pub fn path(&self) -> (r: &NodePath)
        ensures
            r@ == self@,
    {
        &self.path
    }
}

/// What a merge yields: the merged value, if any is left, and the conflicts.
pub struct Outcome {
    pub value: Option<node::Tree>,
    pub conflicts: Seq<Seq<node::Step>>,
}

pub open spec fn settled(value: Option<node::Tree>) -> Outcome {
    Outcome { value, conflicts: Seq::empty() }
}

/// The merge of a place that the base has.
pub open spec fn merge_some(
    path: Seq<node::Step>,
    b: node::Tree,
    o: Option<node::Tree>,
    t: Option<node::Tree>,
) -> Outcome
    decreases b, 0nat,
{
    if o == t {
        settled(o)
    } else if o == Some(b) {
        settled(t)
    } else if t == Some(b) {
        settled(o)
    } else {
        match (b, o, t) {
            (
                node::Tree::Mapping(be),
                Some(node::Tree::Mapping(oe)),
                Some(node::Tree::Mapping(te)),
            ) => {
                let side = order::leading_side(node::keys(be), node::keys(oe), node::keys(te));
                let list = order::all_keys(
                    node::keys(be),
                    node::keys(oe),
                    node::keys(te),
                    side != Some(false),
                );
                let (merged, conflicts) = merge_keys(path, be, oe, te, list, list.len());
                Outcome {
                    value: Some(node::Tree::Mapping(merged)),
                    conflicts: (if side is None {
                        seq![path]
                    } else {
                        Seq::empty()
                    }) + conflicts,
                }
            },
            (
                node::Tree::Tagged(bt, bv),
                Some(node::Tree::Tagged(ot, ov)),
                Some(node::Tree::Tagged(tt, tv)),
            ) => if bt == ot && bt == tt {
                let inner = merge_some(path, *bv, Some(*ov), Some(*tv));
                Outcome {
                    value: match inner.value {
                        Some(v) => Some(node::Tree::Tagged(bt, Box::new(v))),
                        None => None,
                    },
                    conflicts: inner.conflicts,
                }
            } else {
                Outcome { value: o, conflicts: seq![path] }
            },
            _ => Outcome { value: o, conflicts: seq![path] },
        }
    }
}

/// The merge of a place that the base lacks.
pub open spec fn merge_none(
    path: Seq<node::Step>,
    o: Option<node::Tree>,
    t: Option<node::Tree>,
) -> Outcome {
    if o == t {
        settled(o)
    } else if o is None {
        settled(t)
    } else if t is None {
        settled(o)
    } else {
        Outcome { value: o, conflicts: seq![path] }
    }
}

/// The merge of one key of three mappings.
pub open spec fn merge_key(
    path: Seq<node::Step>,
    be: Seq<(Seq<char>, node::Tree)>,
    oe: Seq<(Seq<char>, node::Tree)>,
    te: Seq<(Seq<char>, node::Tree)>,
    key: Seq<char>,
) -> Outcome
    decreases be, 0nat,
{
    let here = path.push(node::Step::Key(key));
    let i = node::position(be, key) as int;
    if i < be.len() {
        merge_some(here, be[i].1, node::lookup(oe, key), node::lookup(te, key))
    } else {
        merge_none(here, node::lookup(oe, key), node::lookup(te, key))
    }
}

/// The merge of the first `n` keys of a list.
pub open spec fn merge_keys(
    path: Seq<node::Step>,
    be: Seq<(Seq<char>, node::Tree)>,
    oe: Seq<(Seq<char>, node::Tree)>,
    te: Seq<(Seq<char>, node::Tree)>,
    list: Seq<Seq<char>>,
    n: nat,
) -> (Seq<(Seq<char>, node::Tree)>, Seq<Seq<node::Step>>)
    decreases be, n + 1,
{
    if n == 0 || n > list.len() {
        (Seq::empty(), Seq::empty())
    } else {
        let (head, conflicts) = merge_keys(path, be, oe, te, list, (n - 1) as nat);
        let key = list[n - 1];
        let outcome = merge_key(path, be, oe, te, key);
        (
            match outcome.value {
                Some(v) => head.push((key, v)),
                None => head,
            },
            conflicts + outcome.conflicts,
        )
    }
}

/// The merge of three documents.
pub open spec fn merge_trees(b: node::Tree, o: node::Tree, t: node::Tree) -> Outcome {
    merge_some(Seq::empty(), b, Some(o), Some(t))
}

/// Merges two values that both stem from a base. The conflicts are listed in
/// document order; without one the merged value is handed back.
pub fn merge(base: &Node, ours: &Node, theirs: &Node) -> (r: MergeResult)
    ensures
        ({
            let outcome = merge_trees(base@, ours@, theirs@);
            match r {
                MergeResult::Merged(node) => outcome.conflicts.len() == 0 && outcome.value == Some(
                    node@,
                ),
                MergeResult::Conflict(list) => outcome.conflicts.len() > 0 && places(list@)
                    == outcome.conflicts,
            }
        }),
{
    let mut conflicts: Vec<Conflict> = Vec::new();
    let merged = merge_present(
        &NodePath::root(),
        base,
        Some(ours),
        Some(theirs),
        &mut conflicts,
    );
    let ghost outcome = merge_trees(base@, ours@, theirs@);
    assert(places(conflicts@) =~= outcome.conflicts);
    proof {
        lemma_merge_has_value(Seq::empty(), base@, ours@, theirs@);
    }
    if conflicts.len() == 0 {
        match merged {
            Some(node) => MergeResult::Merged(node),
            None => MergeResult::Merged(Node::Mapping(Vec::new())),
        }
    } else {
        MergeResult::Conflict(conflicts)
    }
}

/// Where both sides have a value the merge has one.
pub proof fn lemma_merge_has_value(
    path: Seq<node::Step>,
    b: node::Tree,
    o: node::Tree,
    t: node::Tree,
)
    ensures
        merge_some(path, b, Some(o), Some(t)).value is Some,
    decreases b,
{
    match (b, o, t) {
        (node::Tree::Tagged(bt, bv), node::Tree::Tagged(ot, ov), node::Tree::Tagged(tt, tv)) => {
            lemma_merge_has_value(path, *bv, *ov, *tv);
        },
        _ => {},
    }
}

pub open spec fn view_node(n: Option<&Node>) -> Option<node::Tree> {
    match n {
        Some(node) => Some(node@),
        None => None,
    }
}

pub open spec fn view_owned(n: Option<Node>) -> Option<node::Tree> {
    match n {
        Some(node) => Some(node@),
        None => None,
    }
}

fn copied(n: Option<&Node>) -> (r: Option<Node>)
    ensures
        view_owned(r) == view_node(n),
{
    match n {
        Some(node) => Some(node.clone()),
        None => None,
    }
}

pub fn same_option(a: Option<&Node>, b: Option<&Node>) -> (r: bool)
    ensures
        r == (view_node(a) == view_node(b)),
{
    match (a, b) {
        (Some(x), Some(y)) => x.same(y),
        (None, None) => true,
        _ => false,
    }
}

fn push_conflict(conflicts: &mut Vec<Conflict>, path: &NodePath)
    ensures
        places(final(conflicts)@) == places(old(conflicts)@) + seq![path@],
{
    let ghost before = conflicts@;
    conflicts.push(Conflict { path: path.clone() });
    assert(places(conflicts@) =~= places(before) + seq![path@]);
}

fn child_of<'a>(v: &'a Vec<(String, Node)>, key: &str) -> (r: Option<&'a Node>)
    ensures
        view_node(r) == node::lookup(node::entries(v@), key@),
{
    match node::find_key(v, key) {
        Some(i) => {
            assert(node::entries(v@)[i as int] == (v@[i as int].0@, v@[i as int].1@));
            Some(&v[i].1)
        },
        None => None,
    }
}

fn merge_absent(
    path: &NodePath,
    ours: Option<&Node>,
    theirs: Option<&Node>,
    conflicts: &mut Vec<Conflict>,
) -> (r: Option<Node>)
    ensures
        ({
            let outcome = merge_none(path@, view_node(ours), view_node(theirs));
            &&& view_owned(r) == outcome.value
            &&& places(final(conflicts)@) == places(old(conflicts)@) + outcome.conflicts
        }),
{
    assert(places(conflicts@) + Seq::<Seq<node::Step>>::empty() =~= places(conflicts@));
    if same_option(ours, theirs) {
        return copied(ours);
    }
    if ours.is_none() {
        return copied(theirs);
    }
    if theirs.is_none() {
        return copied(ours);
    }
    push_conflict(conflicts, path);
    copied(ours)
}

#[verifier::loop_isolation(false)]
fn merge_present(
    path: &NodePath,
    base: &Node,
    ours: Option<&Node>,
    theirs: Option<&Node>,
    conflicts: &mut Vec<Conflict>,
) -> (r: Option<Node>)
    ensures
        ({
            let outcome = merge_some(path@, base@, view_node(ours), view_node(theirs));
            &&& view_owned(r) == outcome.value
            &&& places(final(conflicts)@) == places(old(conflicts)@) + outcome.conflicts
        }),
    decreases base,
{
    let ghost start = places(conflicts@);
    assert(start + Seq::<Seq<node::Step>>::empty() =~= start);
    if same_option(ours, theirs) {
        return copied(ours);
    }
    if same_option(ours, Some(base)) {
        return copied(theirs);
    }
    if same_option(theirs, Some(base)) {
        return copied(ours);
    }
    proof {
        node::lemma_view(*base);
        if ours is Some {
            node::lemma_view(*ours->Some_0);
        }
        if theirs is Some {
            node::lemma_view(*theirs->Some_0);
        }
    }
    match (base, ours, theirs) {
        (Node::Mapping(b), Some(Node::Mapping(o)), Some(Node::Mapping(t))) => {
            let ghost be = node::entries(b@);
            let ghost oe = node::entries(o@);
            let ghost te = node::entries(t@);
            let (list, clash) = order::merged_order(
                &diff::key_list(b),
                &diff::key_list(o),
                &diff::key_list(t),
            );
            let ghost keys = text::texts(list@);
            if clash {
                push_conflict(conflicts, path);
            }
            let ghost ordered = places(conflicts@);
            let mut merged: Vec<(String, Node)> = Vec::new();
            let mut i: usize = 0;
            assert(node::entries(merged@) =~= Seq::<(Seq<char>, node::Tree)>::empty());
            assert(ordered + Seq::<Seq<node::Step>>::empty() =~= ordered);
            while i < list.len()
                invariant
                    i <= list.len(),
                    node::entries(merged@) == merge_keys(path@, be, oe, te, keys, i as nat).0,
                    places(conflicts@) == ordered + merge_keys(
                        path@,
                        be,
                        oe,
                        te,
                        keys,
                        i as nat,
                    ).1,
                decreases list.len() - i,
            {
                let key = list[i].as_str();
                let ghost so_far = places(conflicts@);
                let ghost before = merged@;
                assert(keys[i as int] == key@);
                let here = path.child_key(key);
                let value = match node::find_key(b, key) {
                    Some(k) => {
                        assert(be[k as int] == (b@[k as int].0@, b@[k as int].1@));
                        assert(decreases_to!(b@ => b@[k as int]));
                        merge_present(&here, &b[k].1, child_of(o, key), child_of(t, key), conflicts)
                    },
                    None => merge_absent(&here, child_of(o, key), child_of(t, key), conflicts),
                };
                let ghost outcome = merge_key(path@, be, oe, te, key@);
                assert(view_owned(value) == outcome.value);
                match value {
                    Some(node) => {
                        merged.push((list[i].clone(), node));
                        assert(node::entries(merged@) =~= node::entries(before).push(
                            (key@, node@),
                        ));
                    },
                    None => {},
                }
                i = i + 1;
                assert(places(conflicts@) =~= ordered + merge_keys(
                    path@,
                    be,
                    oe,
                    te,
                    keys,
                    i as nat,
                ).1);
            }
            let r = Node::Mapping(merged);
            proof {
                node::lemma_view(r);
                let outcome = merge_some(path@, base@, view_node(ours), view_node(theirs));
                assert(places(conflicts@) =~= start + outcome.conflicts);
            }
            Some(r)
        },
        (
            Node::Tagged { tag: bt, value: bv },
            Some(Node::Tagged { tag: ot, value: ov }),
            Some(Node::Tagged { tag: tt, value: tv }),
        ) => {
            if text::eq(bt.as_str(), ot.as_str()) && text::eq(bt.as_str(), tt.as_str()) {
                match merge_present(path, bv, Some(ov), Some(tv), conflicts) {
                    Some(value) => Some(Node::Tagged { tag: bt.clone(), value: Box::new(value) }),
                    None => None,
                }
            } else {
                push_conflict(conflicts, path);
                copied(ours)
            }
        },
        _ => {
            push_conflict(conflicts, path);
            copied(ours)
        },
    }
}

/// Law: a merge in which one side changed nothing gives the other side, and
/// sides that agree give what they agree on; none of the three conflicts.
pub proof fn law_merge_keeps_the_only_change(b: node::Tree, x: node::Tree)
    ensures
        merge_trees(b, b, x) == settled(Some(x)),
        merge_trees(b, x, b) == settled(Some(x)),
        merge_trees(b, x, x) == settled(Some(x)),
{
}

/// Law: after a merge of mappings, a key that only one side changed has the
/// value of that side, and a key that both sides agree on has theirs in common.
pub proof fn law_merge_is_per_key(
    path: Seq<node::Step>,
    be: Seq<(Seq<char>, node::Tree)>,
    oe: Seq<(Seq<char>, node::Tree)>,
    te: Seq<(Seq<char>, node::Tree)>,
    key: Seq<char>,
)
    requires
        node::keys(be).no_duplicates(),
        node::keys(oe).no_duplicates(),
        node::keys(te).no_duplicates(),
    ensures
        ({
            let outcome = merge_some(
                path,
                node::Tree::Mapping(be),
                Some(node::Tree::Mapping(oe)),
                Some(node::Tree::Mapping(te)),
            );
            let (b, o, t) = (node::lookup(be, key), node::lookup(oe, key), node::lookup(te, key));
            &&& outcome.value matches Some(node::Tree::Mapping(m)) && {
                &&& node::keys(m).no_duplicates()
                &&& (o == b ==> node::lookup(m, key) == t)
                &&& (t == b ==> node::lookup(m, key) == o)
                &&& (o == t ==> node::lookup(m, key) == o)
            }
        }),
{
    let bm = node::Tree::Mapping(be);
    let om = node::Tree::Mapping(oe);
    let tm = node::Tree::Mapping(te);
    if om != tm && om != bm && tm != bm {
        let side = order::leading_side(node::keys(be), node::keys(oe), node::keys(te));
        let list = order::all_keys(
            node::keys(be),
            node::keys(oe),
            node::keys(te),
            side != Some(false),
        );
        order::lemma_all_keys(node::keys(be), node::keys(oe), node::keys(te), side != Some(false));
        lemma_merge_keys(path, be, oe, te, list, list.len(), key);
        node::lemma_position(be, key);
        node::lemma_position(oe, key);
        node::lemma_position(te, key);
        if list.contains(key) {
            let i = choose|i: int| 0 <= i < list.len() && list[i] == key;
            assert(list.take(list.len() as int)[i] == key);
        }
        assert(list.take(list.len() as int) =~= list);
    }
}

/// A merged key is looked up in the merge of a list of distinct keys.
proof fn lemma_merge_keys(
    path: Seq<node::Step>,
    be: Seq<(Seq<char>, node::Tree)>,
    oe: Seq<(Seq<char>, node::Tree)>,
    te: Seq<(Seq<char>, node::Tree)>,
    list: Seq<Seq<char>>,
    n: nat,
    key: Seq<char>,
)
    requires
        list.no_duplicates(),
        n <= list.len(),
    ensures
        ({
            let m = merge_keys(path, be, oe, te, list, n).0;
            &&& node::keys(m).no_duplicates()
            &&& forall|j: int|
                0 <= j < m.len() ==> list.take(n as int).contains((#[trigger] m[j]).0)
            &&& node::lookup(m, key) == if list.take(n as int).contains(key) {
                merge_key(path, be, oe, te, key).value
            } else {
                None
            }
        }),
    decreases n,
{
    let m = merge_keys(path, be, oe, te, list, n).0;
    if n == 0 {
        assert(!list.take(0).contains(key));
        assert(m =~= Seq::empty());
    } else {
        let head = merge_keys(path, be, oe, te, list, (n - 1) as nat).0;
        lemma_merge_keys(path, be, oe, te, list, (n - 1) as nat, key);
        let last = list[n - 1];
        let earlier = list.take(n - 1);
        let now = list.take(n as int);
        assert(now =~= earlier.push(last));
        assert(!earlier.contains(last)) by {
            if earlier.contains(last) {
                let i = choose|i: int| 0 <= i < earlier.len() && earlier[i] == last;
                assert(list[i] == list[n - 1]);
            }
        }
        assert(now[n - 1] == last);
        assert forall|j: int| 0 <= j < m.len() implies now.contains((#[trigger] m[j]).0) by {
            if j < head.len() {
                assert(m[j] == head[j]);
                let i = choose|i: int| 0 <= i < earlier.len() && earlier[i] == head[j].0;
                assert(now[i] == head[j].0);
            }
        }
        assert(node::keys(m).no_duplicates()) by {
            assert forall|i: int, j: int| 0 <= i < j < m.len() implies node::keys(m)[i]
                != node::keys(m)[j] by {
                assert(m[i] == head[i]);
                assert(node::keys(head)[i] == node::keys(m)[i]);
                if j < head.len() {
                    assert(node::keys(head)[j] == node::keys(m)[j]);
                } else {
                    assert(earlier.contains(head[i].0));
                }
            }
        }
        assert(now.contains(key) <==> earlier.contains(key) || key == last) by {
            if earlier.contains(key) {
                let i = choose|i: int| 0 <= i < earlier.len() && earlier[i] == key;
                assert(now[i] == key);
            }
            if now.contains(key) && key != last {
                let i = choose|i: int| 0 <= i < now.len() && now[i] == key;
                assert(earlier[i] == key);
            }
        }
        node::lemma_position(head, key);
        if m.len() > head.len() {
            assert(forall|j: int| 0 <= j < head.len() ==> m[j] == head[j]);
            if node::position(head, key) < head.len() {
                node::lemma_position_is(m, key, node::position(head, key) as int);
            } else if key == last {
                node::lemma_position_is(m, key, head.len() as int);
            } else {
                node::lemma_position_is(m, key, m.len() as int);
            }
        }
        if key == last {
            assert(node::position(head, key) >= head.len()) by {
                if node::position(head, key) < head.len() {
                    let j = node::position(head, key) as int;
                    assert(earlier.contains(head[j].0));
                }
            }
        }
    }
}

/// A value whose keys are distinct and whose tags have names.
pub open spec fn sound(t: node::Tree) -> bool {
    node::well_keyed(t) && node::named_tags(t)
}

pub open spec fn sound_option(t: Option<node::Tree>) -> bool {
    t matches Some(v) ==> sound(v)
}

/// The merge of sound sides is sound, whatever the base.
pub proof fn lemma_merge_is_sound(
    path: Seq<node::Step>,
    b: node::Tree,
    o: Option<node::Tree>,
    t: Option<node::Tree>,
)
    requires
        sound_option(o),
        sound_option(t),
    ensures
        sound_option(merge_some(path, b, o, t).value),
    decreases b, 0nat,
{
    if !(o == t || o == Some(b) || t == Some(b)) {
        match (b, o, t) {
            (
                node::Tree::Mapping(be),
                Some(node::Tree::Mapping(oe)),
                Some(node::Tree::Mapping(te)),
            ) => {
                let side = order::leading_side(node::keys(be), node::keys(oe), node::keys(te));
                let list = order::all_keys(
                    node::keys(be),
                    node::keys(oe),
                    node::keys(te),
                    side != Some(false),
                );
                order::lemma_all_keys(
                    node::keys(be),
                    node::keys(oe),
                    node::keys(te),
                    side != Some(false),
                );
                lemma_merge_keys(path, be, oe, te, list, list.len(), Seq::empty());
                assert forall|i: int| 0 <= i < oe.len() implies sound(#[trigger] oe[i].1) by {
                    assert(node::well_keyed(oe[i].1) && node::named_tags(oe[i].1));
                }
                assert forall|i: int| 0 <= i < te.len() implies sound(#[trigger] te[i].1) by {
                    assert(node::well_keyed(te[i].1) && node::named_tags(te[i].1));
                }
                lemma_merged_values(path, be, oe, te, list, list.len());
                let m = merge_keys(path, be, oe, te, list, list.len()).0;
                assert forall|i: int| 0 <= i < m.len() implies node::well_keyed(#[trigger] m[i].1)
                    && node::named_tags(m[i].1) by {
                    assert(sound(m[i].1));
                }
            },
            (
                node::Tree::Tagged(bt, bv),
                Some(node::Tree::Tagged(ot, ov)),
                Some(node::Tree::Tagged(tt, tv)),
            ) => {
                lemma_merge_is_sound(path, *bv, Some(*ov), Some(*tv));
            },
            _ => {},
        }
    }
}

proof fn lemma_merged_values(
    path: Seq<node::Step>,
    be: Seq<(Seq<char>, node::Tree)>,
    oe: Seq<(Seq<char>, node::Tree)>,
    te: Seq<(Seq<char>, node::Tree)>,
    list: Seq<Seq<char>>,
    n: nat,
)
    requires
        forall|i: int| 0 <= i < oe.len() ==> sound(#[trigger] oe[i].1),
        forall|i: int| 0 <= i < te.len() ==> sound(#[trigger] te[i].1),
    ensures
        ({
            let m = merge_keys(path, be, oe, te, list, n).0;
            forall|i: int| 0 <= i < m.len() ==> sound(#[trigger] m[i].1)
        }),
    decreases be, n + 1,
{
    if 0 < n <= list.len() {
        lemma_merged_values(path, be, oe, te, list, (n - 1) as nat);
        let key = list[n - 1];
        let here = path.push(node::Step::Key(key));
        let i = node::position(be, key) as int;
        node::lemma_position(oe, key);
        node::lemma_position(te, key);
        assert(sound_option(node::lookup(oe, key)));
        assert(sound_option(node::lookup(te, key)));
        if i < be.len() {
            lemma_merge_is_sound(here, be[i].1, node::lookup(oe, key), node::lookup(te, key));
        }
        let head = merge_keys(path, be, oe, te, list, (n - 1) as nat).0;
        let outcome = merge_key(path, be, oe, te, key);
        assert(sound_option(outcome.value));
        let m = merge_keys(path, be, oe, te, list, n).0;
        assert forall|j: int| 0 <= j < m.len() implies sound(#[trigger] m[j].1) by {
            if j < head.len() {
                assert(m[j] == head[j]);
            }
        }
    }
}

/// Values that agree up to the order of keys in mappings.
pub open spec fn alike(x: node::Tree, y: node::Tree) -> bool
    decreases x,
{
    x == y || match (x, y) {
        (node::Tree::Mapping(a), node::Tree::Mapping(b)) => {
            &&& forall|i: int|
                0 <= i < a.len() ==> node::lookup(b, (#[trigger] a[i]).0) is Some && alike(
                    a[i].1,
                    node::lookup(b, a[i].0)->Some_0,
                )
            &&& forall|i: int|
                0 <= i < b.len() ==> node::lookup(a, (#[trigger] b[i]).0) is Some
        },
        (node::Tree::Tagged(s, v), node::Tree::Tagged(r, w)) => s == r && alike(*v, *w),
        _ => false,
    }
}

pub open spec fn alike_option(x: Option<node::Tree>, y: Option<node::Tree>) -> bool {
    match (x, y) {
        (Some(a), Some(b)) => alike(a, b),
        (None, None) => true,
        _ => false,
    }
}

/// Two merges have their conflicts at the same places and, without conflicts, values
/// that agree up to the order of keys.
pub open spec fn agrees(a: Outcome, b: Outcome) -> bool {
    &&& forall|p: Seq<node::Step>|
        #[trigger] a.conflicts.contains(p) <==> b.conflicts.contains(p)
    &&& a.conflicts.len() == 0 <==> b.conflicts.len() == 0
    &&& a.conflicts.len() == 0 ==> alike_option(a.value, b.value)
}

proof fn lemma_no_places(a: Seq<Seq<node::Step>>, b: Seq<Seq<node::Step>>)
    requires
        forall|p: Seq<node::Step>| #[trigger] a.contains(p) <==> b.contains(p),
    ensures
        a.len() == 0 <==> b.len() == 0,
{
    if a.len() > 0 {
        assert(a.contains(a[0]));
        assert(b.contains(a[0]));
    }
    if b.len() > 0 {
        assert(b.contains(b[0]));
        assert(a.contains(b[0]));
    }
}

proof fn lemma_in_places(a: Seq<Seq<node::Step>>, b: Seq<Seq<node::Step>>, p: Seq<node::Step>)
    ensures
        (a + b).contains(p) <==> a.contains(p) || b.contains(p),
{
    let s = a + b;
    if a.contains(p) {
        let k = choose|k: int| 0 <= k < a.len() && a[k] == p;
        assert(s[k] == p);
    }
    if b.contains(p) {
        let k = choose|k: int| 0 <= k < b.len() && b[k] == p;
        assert(s[a.len() + k] == p);
    }
    if s.contains(p) {
        let k = choose|k: int| 0 <= k < s.len() && s[k] == p;
        if k < a.len() {
            assert(a[k] == p);
        } else {
            assert(b[k - a.len()] == p);
        }
    }
}

/// The conflicts of a merge of keys are those of each.
proof fn lemma_key_conflicts(
    path: Seq<node::Step>,
    be: Seq<(Seq<char>, node::Tree)>,
    oe: Seq<(Seq<char>, node::Tree)>,
    te: Seq<(Seq<char>, node::Tree)>,
    list: Seq<Seq<char>>,
    n: nat,
    p: Seq<node::Step>,
)
    requires
        n <= list.len(),
    ensures
        merge_keys(path, be, oe, te, list, n).1.contains(p) <==> exists|i: int|
            0 <= i < n && merge_key(path, be, oe, te, #[trigger] list[i]).conflicts.contains(p),
    decreases n,
{
    if n > 0 {
        lemma_key_conflicts(path, be, oe, te, list, (n - 1) as nat, p);
        lemma_in_places(
            merge_keys(path, be, oe, te, list, (n - 1) as nat).1,
            merge_key(path, be, oe, te, list[n - 1]).conflicts,
            p,
        );
    }
}

/// The keys that two lists hold do not depend on which is asked first.
proof fn lemma_kept_twice(list: Seq<Seq<char>>, a: Seq<Seq<char>>, b: Seq<Seq<char>>)
    ensures
        order::kept(order::kept(list, a), b) == order::kept(order::kept(list, b), a),
    decreases list.len(),
{
    reveal(Seq::filter);
    if list.len() > 0 {
        let n = list.len() - 1;
        let head = list.drop_last();
        let x = list.last();
        lemma_kept_twice(head, a, b);
        assert(list.take(n + 1) =~= list);
        assert(list.take(n) =~= head);
        order::lemma_kept_step(list, a, n);
        order::lemma_kept_step(list, b, n);
        let (ka, kb) = (order::kept(head, a), order::kept(head, b));
        assert(ka.push(x).drop_last() =~= ka);
        assert(kb.push(x).drop_last() =~= kb);
    }
}

/// One list of keys holds all keys that another does, whichever side leads.
proof fn lemma_same_keys(
    be: Seq<(Seq<char>, node::Tree)>,
    oe: Seq<(Seq<char>, node::Tree)>,
    te: Seq<(Seq<char>, node::Tree)>,
    key: Seq<char>,
    first: bool,
    second: bool,
)
    ensures
        order::all_keys(node::keys(be), node::keys(oe), node::keys(te), first).contains(key)
            <==> order::all_keys(
            node::keys(be),
            node::keys(te),
            node::keys(oe),
            second,
        ).contains(key),
{
    order::lemma_all_keys(node::keys(be), node::keys(oe), node::keys(te), first);
    order::lemma_all_keys(node::keys(be), node::keys(te), node::keys(oe), second);
}

/// A merge of mappings with the sides exchanged, where that of every key agrees.
proof fn lemma_mappings_agree(
    path: Seq<node::Step>,
    be: Seq<(Seq<char>, node::Tree)>,
    oe: Seq<(Seq<char>, node::Tree)>,
    te: Seq<(Seq<char>, node::Tree)>,
)
    requires
        node::Tree::Mapping(oe) != node::Tree::Mapping(te),
        node::Tree::Mapping(oe) != node::Tree::Mapping(be),
        node::Tree::Mapping(te) != node::Tree::Mapping(be),
        forall|key: Seq<char>|
            agrees(
                #[trigger] merge_key(path, be, oe, te, key),
                merge_key(path, be, te, oe, key),
            ),
    ensures
        agrees(
            merge_some(
                path,
                node::Tree::Mapping(be),
                Some(node::Tree::Mapping(oe)),
                Some(node::Tree::Mapping(te)),
            ),
            merge_some(
                path,
                node::Tree::Mapping(be),
                Some(node::Tree::Mapping(te)),
                Some(node::Tree::Mapping(oe)),
            ),
        ),
{
    let (bk, ok, tk) = (node::keys(be), node::keys(oe), node::keys(te));
    lemma_kept_twice(bk, ok, tk);
    let side = order::leading_side(bk, ok, tk);
    let other = order::leading_side(bk, tk, ok);
    assert(side is None <==> other is None);
    let one = order::all_keys(bk, ok, tk, side != Some(false));
    let two = order::all_keys(bk, tk, ok, other != Some(false));
    order::lemma_all_keys(bk, ok, tk, side != Some(false));
    order::lemma_all_keys(bk, tk, ok, other != Some(false));
    let x = merge_some(
        path,
        node::Tree::Mapping(be),
        Some(node::Tree::Mapping(oe)),
        Some(node::Tree::Mapping(te)),
    );
    let y = merge_some(
        path,
        node::Tree::Mapping(be),
        Some(node::Tree::Mapping(te)),
        Some(node::Tree::Mapping(oe)),
    );
    let (m, mc) = merge_keys(path, be, oe, te, one, one.len());
    let (w, wc) = merge_keys(path, be, te, oe, two, two.len());
    let above = if side is None {
        seq![path]
    } else {
        Seq::empty()
    };
    assert forall|p: Seq<node::Step>| #[trigger] x.conflicts.contains(p)
        <==> y.conflicts.contains(p) by {
        lemma_in_places(above, mc, p);
        lemma_in_places(above, wc, p);
        lemma_key_conflicts(path, be, oe, te, one, one.len(), p);
        lemma_key_conflicts(path, be, te, oe, two, two.len(), p);
        if mc.contains(p) {
            let i = choose|i: int|
                0 <= i < one.len() && merge_key(
                    path,
                    be,
                    oe,
                    te,
                    #[trigger] one[i],
                ).conflicts.contains(p);
            let key = one[i];
            assert(one.contains(key));
            lemma_same_keys(be, oe, te, key, side != Some(false), other != Some(false));
            let j = choose|j: int| 0 <= j < two.len() && two[j] == key;
            assert(agrees(
                merge_key(path, be, oe, te, key),
                merge_key(path, be, te, oe, key),
            ));
            assert(merge_key(path, be, te, oe, two[j]).conflicts.contains(p));
        }
        if wc.contains(p) {
            let j = choose|j: int|
                0 <= j < two.len() && merge_key(
                    path,
                    be,
                    te,
                    oe,
                    #[trigger] two[j],
                ).conflicts.contains(p);
            let key = two[j];
            assert(two.contains(key));
            lemma_same_keys(be, oe, te, key, side != Some(false), other != Some(false));
            let i = choose|i: int| 0 <= i < one.len() && one[i] == key;
            assert(agrees(
                merge_key(path, be, oe, te, key),
                merge_key(path, be, te, oe, key),
            ));
            assert(merge_key(path, be, oe, te, one[i]).conflicts.contains(p));
        }
    }
    lemma_no_places(x.conflicts, y.conflicts);
    if x.conflicts.len() == 0 {
        assert(mc.len() == 0 && wc.len() == 0);
        assert(one.take(one.len() as int) =~= one);
        assert(two.take(two.len() as int) =~= two);
        lemma_merge_keys(path, be, oe, te, one, one.len(), Seq::empty());
        lemma_merge_keys(path, be, te, oe, two, two.len(), Seq::empty());
        assert forall|i: int| 0 <= i < m.len() implies node::lookup(w, (#[trigger] m[i]).0) is Some
            && alike(m[i].1, node::lookup(w, m[i].0)->Some_0) by {
            let key = m[i].0;
            lemma_merged_key(path, be, oe, te, key, side, other);
            lemma_found_entry(m, i);
        }
        assert forall|i: int| 0 <= i < w.len() implies node::lookup(
            m,
            (#[trigger] w[i]).0,
        ) is Some by {
            let key = w[i].0;
            lemma_merged_key(path, be, oe, te, key, side, other);
            lemma_found_entry(w, i);
        }
        assert(alike(node::Tree::Mapping(m), node::Tree::Mapping(w)));
    }
}

proof fn lemma_found_entry(e: Seq<(Seq<char>, node::Tree)>, i: int)
    requires
        node::keys(e).no_duplicates(),
        0 <= i < e.len(),
    ensures
        node::lookup(e, e[i].0) == Some(e[i].1),
{
    node::lemma_position(e, e[i].0);
    assert(node::keys(e)[i] == e[i].0);
    let k = node::position(e, e[i].0) as int;
    assert(node::keys(e)[k] == e[k].0);
}

/// A key of a merge without conflicts, with the sides exchanged.
proof fn lemma_merged_key(
    path: Seq<node::Step>,
    be: Seq<(Seq<char>, node::Tree)>,
    oe: Seq<(Seq<char>, node::Tree)>,
    te: Seq<(Seq<char>, node::Tree)>,
    key: Seq<char>,
    side: Option<bool>,
    other: Option<bool>,
)
    requires
        forall|key: Seq<char>|
            agrees(
                #[trigger] merge_key(path, be, oe, te, key),
                merge_key(path, be, te, oe, key),
            ),
        ({
            let one = order::all_keys(
                node::keys(be),
                node::keys(oe),
                node::keys(te),
                side != Some(false),
            );
            merge_keys(path, be, oe, te, one, one.len()).1.len() == 0
        }),
    ensures
        ({
            let one = order::all_keys(
                node::keys(be),
                node::keys(oe),
                node::keys(te),
                side != Some(false),
            );
            let two = order::all_keys(
                node::keys(be),
                node::keys(te),
                node::keys(oe),
                other != Some(false),
            );
            alike_option(
                node::lookup(merge_keys(path, be, oe, te, one, one.len()).0, key),
                node::lookup(merge_keys(path, be, te, oe, two, two.len()).0, key),
            )
        }),
{
    let (bk, ok, tk) = (node::keys(be), node::keys(oe), node::keys(te));
    let one = order::all_keys(bk, ok, tk, side != Some(false));
    let two = order::all_keys(bk, tk, ok, other != Some(false));
    order::lemma_all_keys(bk, ok, tk, side != Some(false));
    order::lemma_all_keys(bk, tk, ok, other != Some(false));
    lemma_merge_keys(path, be, oe, te, one, one.len(), key);
    lemma_merge_keys(path, be, te, oe, two, two.len(), key);
    assert(one.take(one.len() as int) =~= one);
    assert(two.take(two.len() as int) =~= two);
    lemma_same_keys(be, oe, te, key, side != Some(false), other != Some(false));
    let outcome = merge_key(path, be, oe, te, key);
    assert(agrees(outcome, merge_key(path, be, te, oe, key)));
    if one.contains(key) {
        let i = choose|i: int| 0 <= i < one.len() && one[i] == key;
        if outcome.conflicts.len() > 0 {
            let p = outcome.conflicts[0];
            assert(outcome.conflicts.contains(p));
            lemma_key_conflicts(path, be, oe, te, one, one.len(), p);
            assert(merge_key(path, be, oe, te, one[i]).conflicts.contains(p));
        }
    }
}

proof fn lemma_merge_agrees(
    path: Seq<node::Step>,
    b: node::Tree,
    o: Option<node::Tree>,
    t: Option<node::Tree>,
)
    ensures
        agrees(merge_some(path, b, o, t), merge_some(path, b, t, o)),
    decreases b,
{
    let x = merge_some(path, b, o, t);
    let y = merge_some(path, b, t, o);
    if o == t || o == Some(b) || t == Some(b) {
    } else {
        match (b, o, t) {
            (
                node::Tree::Mapping(be),
                Some(node::Tree::Mapping(oe)),
                Some(node::Tree::Mapping(te)),
            ) => {
                assert forall|key: Seq<char>|
                    agrees(
                        #[trigger] merge_key(path, be, oe, te, key),
                        merge_key(path, be, te, oe, key),
                    ) by {
                    let here = path.push(node::Step::Key(key));
                    let i = node::position(be, key) as int;
                    if i < be.len() {
                        assert(decreases_to!(be => be[i]));
                        lemma_merge_agrees(
                            here,
                            be[i].1,
                            node::lookup(oe, key),
                            node::lookup(te, key),
                        );
                    }
                }
                lemma_mappings_agree(path, be, oe, te);
            },
            (
                node::Tree::Tagged(bt, bv),
                Some(node::Tree::Tagged(ot, ov)),
                Some(node::Tree::Tagged(tt, tv)),
            ) => {
                if bt == ot && bt == tt {
                    lemma_merge_agrees(path, *bv, Some(*ov), Some(*tv));
                    let (p, q) = (
                        merge_some(path, *bv, Some(*ov), Some(*tv)),
                        merge_some(path, *bv, Some(*tv), Some(*ov)),
                    );
                    assert(x.conflicts == p.conflicts && y.conflicts == q.conflicts);
                    assert forall|s: Seq<node::Step>| #[trigger] x.conflicts.contains(s)
                        <==> y.conflicts.contains(s) by {
                        assert(p.conflicts.contains(s) <==> q.conflicts.contains(s));
                    }
                }
            },
            _ => {},
        }
    }
}

/// Law: it does not matter which side is whose. With the sides exchanged a merge has a
/// conflict exactly if it had one, at the same places; and without a conflict it gives
/// the same value, up to the order of keys in mappings.
pub proof fn law_merge_is_symmetric(b: node::Tree, o: node::Tree, t: node::Tree)
    ensures
        forall|p: Seq<node::Step>|
            #[trigger] merge_trees(b, o, t).conflicts.contains(p) <==> merge_trees(
                b,
                t,
                o,
            ).conflicts.contains(p),
        merge_trees(b, o, t).conflicts.len() == 0 <==> merge_trees(b, t, o).conflicts.len() == 0,
        merge_trees(b, o, t).conflicts.len() == 0 ==> alike_option(
            merge_trees(b, o, t).value,
            merge_trees(b, t, o).value,
        ),
{
    lemma_merge_agrees(Seq::empty(), b, Some(o), Some(t));
}

/// Three values that all differ from each other.
pub open spec fn all_differ(
    b: Option<node::Tree>,
    o: Option<node::Tree>,
    t: Option<node::Tree>,
) -> bool {
    b != o && b != t && o != t
}

/// Values that a merge goes into: three mappings, or three values under one tag.
pub open spec fn divisible(
    b: Option<node::Tree>,
    o: Option<node::Tree>,
    t: Option<node::Tree>,
) -> bool {
    match (b, o, t) {
        (
            Some(node::Tree::Mapping(_)),
            Some(node::Tree::Mapping(_)),
            Some(node::Tree::Mapping(_)),
        ) => true,
        (
            Some(node::Tree::Tagged(x, _)),
            Some(node::Tree::Tagged(y, _)),
            Some(node::Tree::Tagged(z, _)),
        ) => x == y && x == z,
        _ => false,
    }
}

/// The value at a place, where there is a value to look into.
pub open spec fn below(t: Option<node::Tree>, steps: Seq<node::Step>) -> Option<node::Tree> {
    match t {
        Some(t) => node::tree_at(t, steps),
        None => None,
    }
}

/// What a merged place must hold: what both sides agree on, or else the side that differs
/// from the base; and where both do, differently, the place is merged part by part.
pub open spec fn reconciled(
    b: Option<node::Tree>,
    o: Option<node::Tree>,
    t: Option<node::Tree>,
    m: Option<node::Tree>,
) -> bool {
    if all_differ(b, o, t) {
        divisible(b, o, t) && m is Some && divisible(b, o, m)
    } else {
        &&& o == t ==> m == o
        &&& b == o ==> m == t
        &&& b == t ==> m == o
    }
}

/// A place below three mappings is below the values of its first key, and a place below
/// tags is below what they hold.
proof fn lemma_below(t: node::Tree, steps: Seq<node::Step>)
    requires
        steps.len() > 0,
    ensures
        t matches node::Tree::Mapping(e) ==> node::tree_at(t, steps) == match steps[0] {
            node::Step::Key(key) => below(node::lookup(e, key), steps.skip(1)),
            _ => None,
        },
        t matches node::Tree::Tagged(_, v) ==> node::tree_at(t, steps) == node::tree_at(*v, steps),
{
    reveal_with_fuel(node::untagged, 2);
}

/// The keys of a merge of mappings that all differ, and what becomes of each.
proof fn lemma_merged_mapping(
    path: Seq<node::Step>,
    be: Seq<(Seq<char>, node::Tree)>,
    oe: Seq<(Seq<char>, node::Tree)>,
    te: Seq<(Seq<char>, node::Tree)>,
    key: Seq<char>,
)
    requires
        be != oe,
        be != te,
        oe != te,
    ensures
        ({
            let outcome = merge_some(
                path,
                node::Tree::Mapping(be),
                Some(node::Tree::Mapping(oe)),
                Some(node::Tree::Mapping(te)),
            );
            let inner = merge_key(path, be, oe, te, key);
            &&& outcome.value matches Some(node::Tree::Mapping(m)) && node::lookup(m, key)
                == inner.value
            &&& forall|p: Seq<node::Step>| #[trigger] inner.conflicts.contains(p)
                ==> outcome.conflicts.contains(p)
            &&& outcome.conflicts.len() == 0 ==> inner.conflicts.len() == 0
        }),
{
    let side = order::leading_side(node::keys(be), node::keys(oe), node::keys(te));
    let lead = side != Some(false);
    let list = order::all_keys(node::keys(be), node::keys(oe), node::keys(te), lead);
    order::lemma_all_keys(node::keys(be), node::keys(oe), node::keys(te), lead);
    lemma_merge_keys(path, be, oe, te, list, list.len(), key);
    assert(list.take(list.len() as int) =~= list);
    node::lemma_position(be, key);
    node::lemma_position(oe, key);
    node::lemma_position(te, key);
    let outcome = merge_some(
        path,
        node::Tree::Mapping(be),
        Some(node::Tree::Mapping(oe)),
        Some(node::Tree::Mapping(te)),
    );
    let inner = merge_key(path, be, oe, te, key);
    let (m, mc) = merge_keys(path, be, oe, te, list, list.len());
    let above = if side is None {
        seq![path]
    } else {
        Seq::empty()
    };
    assert forall|p: Seq<node::Step>| #[trigger] inner.conflicts.contains(
        p,
    ) implies outcome.conflicts.contains(p) by {
        assert(list.contains(key));
        let i = choose|i: int| 0 <= i < list.len() && list[i] == key;
        lemma_key_conflicts(path, be, oe, te, list, list.len(), p);
        assert(merge_key(path, be, oe, te, list[i]).conflicts.contains(p));
        lemma_in_places(above, mc, p);
    }
    if inner.conflicts.len() > 0 {
        assert(inner.conflicts.contains(inner.conflicts[0]));
    }
}

proof fn lemma_reconciled(
    path: Seq<node::Step>,
    b: Option<node::Tree>,
    o: Option<node::Tree>,
    t: Option<node::Tree>,
    steps: Seq<node::Step>,
)
    requires
        merge_place(path, b, o, t).conflicts.len() == 0,
    ensures
        reconciled(
            below(b, steps),
            below(o, steps),
            below(t, steps),
            below(merge_place(path, b, o, t).value, steps),
        ),
    decreases
            (if b is Some {
                1int
            } else {
                0int
            }),
            b->Some_0,
{
    let outcome = merge_place(path, b, o, t);
    if all_differ(b, o, t) {
        match (b, o, t) {
            (
                Some(node::Tree::Mapping(be)),
                Some(node::Tree::Mapping(oe)),
                Some(node::Tree::Mapping(te)),
            ) => {
                lemma_merged_mapping(path, be, oe, te, Seq::empty());
                if steps.len() > 0 {
                    let m = outcome.value->Some_0;
                    lemma_below(b->Some_0, steps);
                    lemma_below(o->Some_0, steps);
                    lemma_below(t->Some_0, steps);
                    lemma_below(m, steps);
                    match steps[0] {
                        node::Step::Key(key) => {
                            lemma_merged_mapping(path, be, oe, te, key);
                            node::lemma_position(be, key);
                            let i = node::position(be, key) as int;
                            if i < be.len() {
                                assert(decreases_to!(be => be[i]));
                            }
                            lemma_reconciled(
                                path.push(node::Step::Key(key)),
                                node::lookup(be, key),
                                node::lookup(oe, key),
                                node::lookup(te, key),
                                steps.skip(1),
                            );
                        },
                        _ => {},
                    }
                }
            },
            (
                Some(node::Tree::Tagged(bt, bv)),
                Some(node::Tree::Tagged(ot, ov)),
                Some(node::Tree::Tagged(tt, tv)),
            ) => {
                if bt == ot && bt == tt {
                    lemma_merge_has_value(path, *bv, *ov, *tv);
                    if steps.len() > 0 {
                        lemma_below(b->Some_0, steps);
                        lemma_below(o->Some_0, steps);
                        lemma_below(t->Some_0, steps);
                        lemma_below(outcome.value->Some_0, steps);
                        lemma_reconciled(path, Some(*bv), Some(*ov), Some(*tv), steps);
                    }
                }
            },
            _ => {},
        }
    }
}

/// The merge of a place, whether the base has it or not.
pub open spec fn merge_place(
    path: Seq<node::Step>,
    b: Option<node::Tree>,
    o: Option<node::Tree>,
    t: Option<node::Tree>,
) -> Outcome {
    match b {
        Some(b) => merge_some(path, b, o, t),
        None => merge_none(path, o, t),
    }
}

/// Law: nothing that a side changed is lost without a conflict. A merge that reports no
/// conflict has a value, and at every place of the documents, however deep, that value is
/// what both sides have there, or else what the one side has that differs from the base
/// (nothing where it deleted the place). Where both differ from the base, and from each
/// other, all three are mappings, or values under one tag, that were merged in turn.
pub proof fn law_merge_without_conflict_reconciles_every_place(
    b: node::Tree,
    o: node::Tree,
    t: node::Tree,
    steps: Seq<node::Step>,
)
    requires
        merge_trees(b, o, t).conflicts.len() == 0,
    ensures
        merge_trees(b, o, t).value is Some,
        reconciled(
            node::tree_at(b, steps),
            node::tree_at(o, steps),
            node::tree_at(t, steps),
            node::tree_at(merge_trees(b, o, t).value->Some_0, steps),
        ),
{
    lemma_merge_has_value(Seq::empty(), b, o, t);
    lemma_reconciled(Seq::empty(), Some(b), Some(o), Some(t), steps);
}

/// Law: a place that both sides changed differently is a conflict. At whatever key of
/// three mappings, one side deleting what the other changed included: where base, ours and
/// theirs all differ and are not three mappings or values under one tag, the merge lists
/// a conflict exactly there.
pub proof fn law_differing_keys_conflict(
    path: Seq<node::Step>,
    be: Seq<(Seq<char>, node::Tree)>,
    oe: Seq<(Seq<char>, node::Tree)>,
    te: Seq<(Seq<char>, node::Tree)>,
    key: Seq<char>,
)
    requires
        all_differ(node::lookup(be, key), node::lookup(oe, key), node::lookup(te, key)),
        !divisible(node::lookup(be, key), node::lookup(oe, key), node::lookup(te, key)),
    ensures
        merge_some(
            path,
            node::Tree::Mapping(be),
            Some(node::Tree::Mapping(oe)),
            Some(node::Tree::Mapping(te)),
        ).conflicts.contains(path.push(node::Step::Key(key))),
{
    lemma_merged_mapping(path, be, oe, te, key);
    let inner = merge_key(path, be, oe, te, key);
    assert(inner.conflicts =~= seq![path.push(node::Step::Key(key))]);
    assert(inner.conflicts.contains(inner.conflicts[0]));
}

/// A place, or one on the way to it, is a conflict.
pub open spec fn conflict_on_the_way(
    conflicts: Seq<Seq<node::Step>>,
    path: Seq<node::Step>,
    steps: Seq<node::Step>,
) -> bool {
    exists|n: int| 0 <= n <= steps.len() && conflicts.contains(path + #[trigger] steps.take(n))
}

proof fn lemma_conflict_on_the_way(
    path: Seq<node::Step>,
    b: Option<node::Tree>,
    o: Option<node::Tree>,
    t: Option<node::Tree>,
    steps: Seq<node::Step>,
)
    requires
        all_differ(below(b, steps), below(o, steps), below(t, steps)),
        !divisible(below(b, steps), below(o, steps), below(t, steps)),
    ensures
        conflict_on_the_way(merge_place(path, b, o, t).conflicts, path, steps),
    decreases
            (if b is Some {
                1int
            } else {
                0int
            }),
            b->Some_0,
{
    let outcome = merge_place(path, b, o, t);
    assert(path + steps.take(0) =~= path);
    assert(all_differ(b, o, t));
    match (b, o, t) {
        (
            Some(node::Tree::Mapping(be)),
            Some(node::Tree::Mapping(oe)),
            Some(node::Tree::Mapping(te)),
        ) => {
            assert(steps.len() > 0);
            lemma_below(b->Some_0, steps);
            lemma_below(o->Some_0, steps);
            lemma_below(t->Some_0, steps);
            let key = steps[0]->Key_0;
            lemma_merged_mapping(path, be, oe, te, key);
            node::lemma_position(be, key);
            let i = node::position(be, key) as int;
            if i < be.len() {
                assert(decreases_to!(be => be[i]));
            }
            let here = path.push(node::Step::Key(key));
            let rest = steps.skip(1);
            lemma_conflict_on_the_way(
                here,
                node::lookup(be, key),
                node::lookup(oe, key),
                node::lookup(te, key),
                rest,
            );
            let inner = merge_key(path, be, oe, te, key);
            let n = choose|n: int|
                0 <= n <= rest.len() && inner.conflicts.contains(here + #[trigger] rest.take(n));
            assert(here + rest.take(n) =~= path + steps.take(n + 1));
        },
        (
            Some(node::Tree::Tagged(bt, bv)),
            Some(node::Tree::Tagged(ot, ov)),
            Some(node::Tree::Tagged(tt, tv)),
        ) => {
            if bt == ot && bt == tt {
                assert(steps.len() > 0);
                lemma_below(b->Some_0, steps);
                lemma_below(o->Some_0, steps);
                lemma_below(t->Some_0, steps);
                lemma_conflict_on_the_way(path, Some(*bv), Some(*ov), Some(*tv), steps);
            } else {
                assert(outcome.conflicts[0] == path);
            }
        },
        _ => {
            assert(outcome.conflicts[0] == path);
        },
    }
}

/// Law: however deep a place lies, where base, ours and theirs all differ there and
/// cannot be merged part by part, the merge lists a conflict at the place or at one on
/// the way to it.
pub proof fn law_irreconcilable_places_conflict(
    b: node::Tree,
    o: node::Tree,
    t: node::Tree,
    steps: Seq<node::Step>,
)
    requires
        all_differ(node::tree_at(b, steps), node::tree_at(o, steps), node::tree_at(t, steps)),
        !divisible(node::tree_at(b, steps), node::tree_at(o, steps), node::tree_at(t, steps)),
    ensures
        conflict_on_the_way(merge_trees(b, o, t).conflicts, Seq::empty(), steps),
{
    lemma_conflict_on_the_way(Seq::empty(), Some(b), Some(o), Some(t), steps);
}

proof fn lemma_conflicts_are_real(
    path: Seq<node::Step>,
    b: Option<node::Tree>,
    o: Option<node::Tree>,
    t: Option<node::Tree>,
    p: Seq<node::Step>,
)
    requires
        merge_place(path, b, o, t).conflicts.contains(p),
    ensures
        path.is_prefix_of(p),
        all_differ(
            below(b, p.skip(path.len() as int)),
            below(o, p.skip(path.len() as int)),
            below(t, p.skip(path.len() as int)),
        ),
    decreases
            (if b is Some {
                1int
            } else {
                0int
            }),
            b->Some_0,
{
    let outcome = merge_place(path, b, o, t);
    let steps = p.skip(path.len() as int);
    assert(all_differ(b, o, t));
    match (b, o, t) {
        (
            Some(node::Tree::Mapping(be)),
            Some(node::Tree::Mapping(oe)),
            Some(node::Tree::Mapping(te)),
        ) => {
            let side = order::leading_side(node::keys(be), node::keys(oe), node::keys(te));
            let list = order::all_keys(
                node::keys(be),
                node::keys(oe),
                node::keys(te),
                side != Some(false),
            );
            let (_, mc) = merge_keys(path, be, oe, te, list, list.len());
            let above = if side is None {
                seq![path]
            } else {
                Seq::empty()
            };
            lemma_in_places(above, mc, p);
            if above.contains(p) {
                assert(p == path);
                assert(steps.len() == 0);
            } else {
                lemma_key_conflicts(path, be, oe, te, list, list.len(), p);
                let k = choose|k: int|
                    0 <= k < list.len() && merge_key(
                        path,
                        be,
                        oe,
                        te,
                        #[trigger] list[k],
                    ).conflicts.contains(p);
                let key = list[k];
                let here = path.push(node::Step::Key(key));
                node::lemma_position(be, key);
                let i = node::position(be, key) as int;
                if i < be.len() {
                    assert(decreases_to!(be => be[i]));
                }
                lemma_conflicts_are_real(
                    here,
                    node::lookup(be, key),
                    node::lookup(oe, key),
                    node::lookup(te, key),
                    p,
                );
                assert(p[path.len() as int] == here[path.len() as int]);
                assert forall|j: int| 0 <= j < path.len() implies path[j] == p[j] by {
                    assert(here[j] == p[j]);
                }
                assert(steps.skip(1) =~= p.skip(here.len() as int));
                lemma_below(b->Some_0, steps);
                lemma_below(o->Some_0, steps);
                lemma_below(t->Some_0, steps);
            }
        },
        (
            Some(node::Tree::Tagged(bt, bv)),
            Some(node::Tree::Tagged(ot, ov)),
            Some(node::Tree::Tagged(tt, tv)),
        ) => {
            if bt == ot && bt == tt {
                lemma_conflicts_are_real(path, Some(*bv), Some(*ov), Some(*tv), p);
                if steps.len() > 0 {
                    lemma_below(b->Some_0, steps);
                    lemma_below(o->Some_0, steps);
                    lemma_below(t->Some_0, steps);
                }
            } else {
                assert(p == path);
                assert(steps.len() == 0);
            }
        },
        _ => {
            assert(p == path);
            assert(steps.len() == 0);
        },
    }
}

/// Law: a merge reports no conflict that is none. Wherever it lists one, base, ours and
/// theirs all differ there.
pub proof fn law_reported_conflicts_are_real(
    b: node::Tree,
    o: node::Tree,
    t: node::Tree,
    p: Seq<node::Step>,
)
    requires
        merge_trees(b, o, t).conflicts.contains(p),
    ensures
        all_differ(node::tree_at(b, p), node::tree_at(o, p), node::tree_at(t, p)),
{
    lemma_conflicts_are_real(Seq::empty(), Some(b), Some(o), Some(t), p);
    assert(p.skip(0) =~= p);
}

proof fn lemma_merged_key_order(
    path: Seq<node::Step>,
    be: Seq<(Seq<char>, node::Tree)>,
    oe: Seq<(Seq<char>, node::Tree)>,
    te: Seq<(Seq<char>, node::Tree)>,
    list: Seq<Seq<char>>,
    n: nat,
)
    requires
        n <= list.len(),
    ensures
        node::keys(merge_keys(path, be, oe, te, list, n).0) == list.take(n as int).filter(
            |k: Seq<char>| merge_key(path, be, oe, te, k).value is Some,
        ),
    decreases n,
{
    reveal(Seq::filter);
    let keep = |k: Seq<char>| merge_key(path, be, oe, te, k).value is Some;
    let now = list.take(n as int);
    let merged = node::keys(merge_keys(path, be, oe, te, list, n).0);
    if n > 0 {
        let m = (n - 1) as nat;
        lemma_merged_key_order(path, be, oe, te, list, m);
        assert(now.drop_last() =~= list.take(m as int));
        assert(now.last() == list[n - 1]);
        let head = merge_keys(path, be, oe, te, list, m).0;
        assert(merged =~= if keep(list[n - 1]) {
            node::keys(head).push(list[n - 1])
        } else {
            node::keys(head)
        });
    } else {
        assert(now =~= Seq::<Seq<char>>::empty());
        assert(merged =~= now.filter(keep));
    }
}

/// Law: a merge of mappings that all differ has its keys in the order of the side that
/// changed the order, and those of the other side behind; where both changed it differently
/// it reports a conflict at the mapping itself.
pub proof fn law_merged_mappings_keep_the_order(
    path: Seq<node::Step>,
    be: Seq<(Seq<char>, node::Tree)>,
    oe: Seq<(Seq<char>, node::Tree)>,
    te: Seq<(Seq<char>, node::Tree)>,
)
    requires
        be != oe,
        be != te,
        oe != te,
    ensures
        ({
            let outcome = merge_some(
                path,
                node::Tree::Mapping(be),
                Some(node::Tree::Mapping(oe)),
                Some(node::Tree::Mapping(te)),
            );
            let (b, o, t) = (node::keys(be), node::keys(oe), node::keys(te));
            let side = order::leading_side(b, o, t);
            &&& side is None ==> outcome.conflicts.contains(path)
            &&& outcome.value matches Some(node::Tree::Mapping(m)) && node::keys(m)
                == order::all_keys(b, o, t, side != Some(false)).filter(
                |k: Seq<char>| merge_key(path, be, oe, te, k).value is Some,
            )
        }),
{
    let (b, o, t) = (node::keys(be), node::keys(oe), node::keys(te));
    let side = order::leading_side(b, o, t);
    let list = order::all_keys(b, o, t, side != Some(false));
    lemma_merged_key_order(path, be, oe, te, list, list.len());
    assert(list.take(list.len() as int) =~= list);
    let (_, mc) = merge_keys(path, be, oe, te, list, list.len());
    if side is None {
        lemma_in_places(seq![path], mc, path);
        assert(seq![path][0] == path);
    }
}

} // verus!
