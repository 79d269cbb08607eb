//! What the merge of two documents makes of each key.

use vstd::prelude::*;

use crate::baseline::cipher;
use crate::baseline::record;
use crate::baseline::unit;
use crate::codec::hash;
use crate::config::SourceFormat;
use crate::open::plan;
use crate::open::plan::{Arbitration, ConflictModel, MergeModel};
use crate::source::document;
use crate::source::dotenv;
use crate::source::dotenv_document;
use crate::source::dotenv_reading;
use crate::source::layout;
use crate::source::node;

verus! {

/// The side that a key of a merge comes from; `None` where the merge lacks it.
pub open spec fn placed(
    baseline: Option<record::RecordModel>,
    local: document::DocumentModel,
    remote: document::DocumentModel,
    key: Seq<char>,
) -> Option<bool> {
    let (l, r) = (unit::unit_at(local, key), unit::unit_at(remote, key));
    if l is None && r is None {
        None
    } else if l == r {
        Some(false)
    } else {
        match plan::arbitrated(baseline, key, l, r) {
            Arbitration::TakeRemote => if r is Some {
                Some(true)
            } else {
                None
            },
            _ => if l is Some {
                Some(false)
            } else {
                None
            },
        }
    }
}

/// The conflict of a key, where there is one.
pub open spec fn clash(
    baseline: Option<record::RecordModel>,
    local: document::DocumentModel,
    remote: document::DocumentModel,
    key: Seq<char>,
) -> Option<ConflictModel> {
    let (l, r) = (unit::unit_at(local, key), unit::unit_at(remote, key));
    if l == r || plan::arbitrated(baseline, key, l, r) != Arbitration::Conflict {
        None
    } else if r is None {
        Some(ConflictModel::DeletedRemotely(key))
    } else if l is None {
        Some(ConflictModel::DeletedLocally(key))
    } else {
        Some(ConflictModel::Key(key))
    }
}

/// The key of a conflict.
pub open spec fn key_of(c: ConflictModel) -> Seq<char> {
    match c {
        ConflictModel::Key(key) => key,
        ConflictModel::DeletedRemotely(key) => key,
        ConflictModel::DeletedLocally(key) => key,
        _ => Seq::empty(),
    }
}

proof fn lemma_pushed<A>(s: Seq<A>, x: A, y: A)
    ensures
        s.push(x).contains(y) <==> s.contains(y) || y == x,
{
    let more = s.push(x);
    if s.contains(y) {
        let i = choose|i: int| 0 <= i < s.len() && s[i] == y;
        assert(more[i] == y);
    }
    if y == x {
        assert(more[s.len() as int] == y);
    }
    if more.contains(y) && y != x {
        let i = choose|i: int| 0 <= i < more.len() && more[i] == y;
        assert(s[i] == y);
    }
}

proof fn lemma_inserted<A>(s: Seq<A>, at: int, x: A, y: A)
    requires
        0 <= at <= s.len(),
    ensures
        s.insert(at, x).contains(y) <==> s.contains(y) || y == x,
{
    let more = s.insert(at, x);
    if s.contains(y) {
        let i = choose|i: int| 0 <= i < s.len() && s[i] == y;
        if i < at {
            assert(more[i] == y);
        } else {
            assert(more[i + 1] == y);
        }
    }
    if y == x {
        assert(more[at] == y);
    }
    if more.contains(y) && y != x {
        let i = choose|i: int| 0 <= i < more.len() && more[i] == y;
        if i < at {
            assert(s[i] == y);
        } else {
            assert(s[i - 1] == y);
        }
    }
}

proof fn lemma_distinct_push<A>(s: Seq<A>, x: A)
    requires
        s.no_duplicates(),
        !s.contains(x),
    ensures
        s.push(x).no_duplicates(),
{
    let more = s.push(x);
    assert forall|i: int, j: int| 0 <= i < j < more.len() implies more[i] != more[j] by {
        if j == s.len() {
            assert(s.contains(s[i]));
        }
    }
}

proof fn lemma_last_of(keys: Seq<Seq<char>>, key: Seq<char>)
    requires
        keys.len() > 0,
        keys.no_duplicates(),
    ensures
        keys.drop_last().no_duplicates(),
        keys.contains(key) <==> keys.drop_last().contains(key) || key == keys.last(),
        !keys.drop_last().contains(keys.last()),
{
    let head = keys.drop_last();
    assert(keys =~= head.push(keys.last()));
    lemma_pushed(head, keys.last(), key);
    if head.contains(keys.last()) {
        let i = choose|i: int| 0 <= i < head.len() && head[i] == keys.last();
        assert(keys[i] == keys[keys.len() - 1]);
    }
}

/// What the local keys add to a merge.
proof fn lemma_local(
    baseline: Option<record::RecordModel>,
    local: document::DocumentModel,
    remote: document::DocumentModel,
    keys: Seq<Seq<char>>,
)
    requires
        keys.no_duplicates(),
        forall|i: int| 0 <= i < keys.len() ==> unit::unit_at(local, #[trigger] keys[i]) is Some,
    ensures
        ({
            let start = MergeModel { order: Seq::empty(), conflicts: Seq::empty() };
            let m = plan::local_keys(start, baseline, local, remote, keys);
            &&& forall|y: (Seq<char>, bool)| #[trigger]
                m.order.contains(y) <==> keys.contains(y.0) && placed(
                    baseline,
                    local,
                    remote,
                    y.0,
                ) == Some(y.1)
            &&& forall|c: ConflictModel| #[trigger]
                m.conflicts.contains(c) <==> keys.contains(key_of(c)) && clash(
                    baseline,
                    local,
                    remote,
                    key_of(c),
                ) == Some(c)
            &&& m.conflicts.no_duplicates()
        }),
    decreases keys.len(),
{
    let start = MergeModel { order: Seq::empty(), conflicts: Seq::empty() };
    let m = plan::local_keys(start, baseline, local, remote, keys);
    if keys.len() > 0 {
        let head = keys.drop_last();
        let key = keys.last();
        assert forall|i: int| 0 <= i < head.len() implies unit::unit_at(
            local,
            #[trigger] head[i],
        ) is Some by {
            assert(head[i] == keys[i]);
        }
        lemma_last_of(keys, key);
        lemma_local(baseline, local, remote, head);
        let before = plan::local_keys(start, baseline, local, remote, head);
        assert(unit::unit_at(local, keys[keys.len() - 1]) is Some);
        assert forall|y: (Seq<char>, bool)| #[trigger] m.order.contains(y) <==> keys.contains(
            y.0,
        ) && placed(baseline, local, remote, y.0) == Some(y.1) by {
            lemma_last_of(keys, y.0);
            assert(before.order.contains(y) <==> head.contains(y.0) && placed(
                baseline,
                local,
                remote,
                y.0,
            ) == Some(y.1));
            lemma_pushed(before.order, (key, false), y);
            lemma_pushed(before.order, (key, true), y);
        }
        assert forall|c: ConflictModel| #[trigger] m.conflicts.contains(c) <==> keys.contains(
            key_of(c),
        ) && clash(baseline, local, remote, key_of(c)) == Some(c) by {
            lemma_last_of(keys, key_of(c));
            assert(before.conflicts.contains(c) <==> head.contains(key_of(c)) && clash(
                baseline,
                local,
                remote,
                key_of(c),
            ) == Some(c));
            lemma_pushed(before.conflicts, ConflictModel::Key(key), c);
            lemma_pushed(before.conflicts, ConflictModel::DeletedRemotely(key), c);
        }
        match clash(baseline, local, remote, key) {
            Some(c) => {
                assert(!before.conflicts.contains(c));
                lemma_distinct_push(before.conflicts, c);
            },
            None => {},
        }
    } else {
        assert(!keys.contains(arbitrary()) || keys.len() > 0);
        assert forall|y: (Seq<char>, bool)| !(#[trigger] m.order.contains(y)) by {}
        assert forall|c: ConflictModel| !(#[trigger] m.conflicts.contains(c)) by {}
    }
}

/// What the remote keys add to a merge.
proof fn lemma_remote(
    m: MergeModel,
    baseline: Option<record::RecordModel>,
    local: document::DocumentModel,
    remote: document::DocumentModel,
    own: Seq<Seq<char>>,
    keys: Seq<Seq<char>>,
    n: int,
)
    requires
        0 <= n <= keys.len(),
        keys.no_duplicates(),
        forall|key: Seq<char>|
            #[trigger] own.contains(key) <==> unit::unit_at(local, key) is Some,
        forall|i: int| 0 <= i < keys.len() ==> unit::unit_at(remote, #[trigger] keys[i]) is Some,
        m.conflicts.no_duplicates(),
        forall|c: ConflictModel| #[trigger] m.conflicts.contains(c) ==> own.contains(key_of(c)),
    ensures
        ({
            let now = plan::remote_keys(m, baseline, own, remote, keys, n);
            &&& forall|y: (Seq<char>, bool)| #[trigger]
                now.order.contains(y) <==> m.order.contains(y) || (keys.take(n).contains(y.0)
                    && !own.contains(y.0) && placed(baseline, local, remote, y.0) == Some(y.1))
            &&& forall|c: ConflictModel| #[trigger]
                now.conflicts.contains(c) <==> m.conflicts.contains(c) || (keys.take(n).contains(
                    key_of(c),
                ) && !own.contains(key_of(c)) && clash(baseline, local, remote, key_of(c)) == Some(
                    c,
                ))
            &&& now.conflicts.no_duplicates()
        }),
    decreases n,
{
    let now = plan::remote_keys(m, baseline, own, remote, keys, n);
    if n > 0 {
        lemma_remote(m, baseline, local, remote, own, keys, n - 1);
        let before = plan::remote_keys(m, baseline, own, remote, keys, n - 1);
        let key = keys[n - 1];
        let (part, head) = (keys.take(n), keys.take(n - 1));
        assert(part.drop_last() =~= head);
        assert(part.last() == key);
        assert(part.no_duplicates());
        plan::lemma_anchor(before.order, keys, n - 1);
        lemma_last_of(part, key);
        assert(unit::unit_at(remote, keys[n - 1]) is Some);
        assert forall|y: (Seq<char>, bool)| #[trigger]
            now.order.contains(y) <==> m.order.contains(y) || (part.contains(y.0) && !own.contains(
            y.0,
        ) && placed(baseline, local, remote, y.0) == Some(y.1)) by {
            lemma_last_of(part, y.0);
            assert(before.order.contains(y) <==> m.order.contains(y) || (head.contains(y.0)
                && !own.contains(y.0) && placed(baseline, local, remote, y.0) == Some(y.1)));
            lemma_pushed(before.order, (key, true), y);
            match plan::anchor(before.order, keys, n - 1) {
                Some(at) => {
                    lemma_inserted(before.order, at + 1, (key, true), y);
                },
                None => {},
            }
        }
        assert forall|c: ConflictModel| #[trigger]
            now.conflicts.contains(c) <==> m.conflicts.contains(c) || (part.contains(key_of(c))
            && !own.contains(key_of(c)) && clash(baseline, local, remote, key_of(c)) == Some(
            c,
        )) by {
            lemma_last_of(part, key_of(c));
            assert(before.conflicts.contains(c) <==> m.conflicts.contains(c) || (head.contains(
                key_of(c),
            ) && !own.contains(key_of(c)) && clash(baseline, local, remote, key_of(c)) == Some(
                c,
            )));
            lemma_pushed(before.conflicts, ConflictModel::DeletedLocally(key), c);
        }
        if now.conflicts != before.conflicts {
            let c = ConflictModel::DeletedLocally(key);
            assert(key_of(c) == key);
            assert(!before.conflicts.contains(c));
            lemma_distinct_push(before.conflicts, c);
        }
    } else {
        assert(keys.take(0) =~= Seq::<Seq<char>>::empty());
        assert forall|key: Seq<char>| !(#[trigger] keys.take(n).contains(key)) by {}
    }
}

proof fn lemma_names(d: document::DocumentModel)
    requires
        d.root is Mapping,
        node::well_keyed(d.root),
    ensures
        unit::unit_names(d).no_duplicates(),
        forall|key: Seq<char>|
            #[trigger] unit::unit_names(d).contains(key) <==> unit::unit_at(d, key) is Some,
        forall|i: int|
            0 <= i < unit::unit_names(d).len() ==> unit::unit_at(
                d,
                #[trigger] unit::unit_names(d)[i],
            ) is Some,
{
    let e = d.root->Mapping_0;
    let names = unit::unit_names(d);
    assert forall|key: Seq<char>|
        #[trigger] names.contains(key) <==> unit::unit_at(d, key) is Some by {
        node::lemma_position(e, key);
    }
    assert forall|i: int| 0 <= i < names.len() implies unit::unit_at(
        d,
        #[trigger] names[i],
    ) is Some by {
        assert(names.contains(names[i]));
    }
}

/// The keys and the conflicts of a merge.
proof fn lemma_merged_keys(
    baseline: Option<record::RecordModel>,
    local: document::DocumentModel,
    remote: document::DocumentModel,
)
    requires
        local.root is Mapping,
        remote.root is Mapping,
        node::well_keyed(local.root),
        node::well_keyed(remote.root),
    ensures
        ({
            let m = plan::merged_keys(baseline, local, remote);
            &&& forall|y: (Seq<char>, bool)| #[trigger]
                m.order.contains(y) <==> placed(baseline, local, remote, y.0) == Some(y.1)
            &&& forall|c: ConflictModel| #[trigger]
                m.conflicts.contains(c) <==> clash(baseline, local, remote, key_of(c)) == Some(c)
            &&& m.conflicts.no_duplicates()
        }),
{
    let (own, other) = (unit::unit_names(local), unit::unit_names(remote));
    let start = MergeModel { order: Seq::empty(), conflicts: Seq::empty() };
    lemma_names(local);
    lemma_names(remote);
    lemma_local(baseline, local, remote, own);
    let first = plan::local_keys(start, baseline, local, remote, own);
    lemma_remote(first, baseline, local, remote, own, other, other.len() as int);
    assert(other.take(other.len() as int) =~= other);
    let m = plan::merged_keys(baseline, local, remote);
    assert forall|y: (Seq<char>, bool)| #[trigger] m.order.contains(y) <==> placed(
        baseline,
        local,
        remote,
        y.0,
    ) == Some(y.1) by {
        assert(first.order.contains(y) <==> own.contains(y.0) && placed(
            baseline,
            local,
            remote,
            y.0,
        ) == Some(y.1));
        assert(own.contains(y.0) <==> unit::unit_at(local, y.0) is Some);
        assert(other.contains(y.0) <==> unit::unit_at(remote, y.0) is Some);
    }
    assert forall|c: ConflictModel| #[trigger] m.conflicts.contains(c) <==> clash(
        baseline,
        local,
        remote,
        key_of(c),
    ) == Some(c) by {
        let key = key_of(c);
        assert(first.conflicts.contains(c) <==> own.contains(key) && clash(
            baseline,
            local,
            remote,
            key,
        ) == Some(c));
        assert(own.contains(key) <==> unit::unit_at(local, key) is Some);
        assert(other.contains(key) <==> unit::unit_at(remote, key) is Some);
    }
}

/// Every key has a line of its own, as in a dotenv document.
pub open spec fn laid_out(d: document::DocumentModel) -> bool {
    forall|key: Seq<char>|
        (#[trigger] unit::unit_at(d, key)) matches Some(u) ==> u.entry is Some
}

/// The side that a key comes from.
pub open spec fn side_of(
    local: document::DocumentModel,
    remote: document::DocumentModel,
    from_remote: bool,
) -> document::DocumentModel {
    if from_remote {
        remote
    } else {
        local
    }
}

proof fn lemma_assignment_push(
    v: Seq<layout::DotenvModel>,
    e: layout::DotenvModel,
    key: Seq<char>,
)
    ensures
        layout::assignment_of(v.push(e), key) == match layout::assignment_of(v, key) {
            Some(found) => Some(found),
            None => if e.key == key {
                Some(e)
            } else {
                None
            },
        },
    decreases v.len(),
{
    let more = v.push(e);
    if v.len() == 0 {
        assert(more.skip(1) =~= Seq::<layout::DotenvModel>::empty());
        assert(layout::assignment_of(more.skip(1), key) is None);
    } else {
        assert(more[0] == v[0]);
        assert(more.skip(1) =~= v.skip(1).push(e));
        lemma_assignment_push(v.skip(1), e, key);
    }
}

proof fn lemma_assignment_key(v: Seq<layout::DotenvModel>, key: Seq<char>)
    ensures
        layout::assignment_of(v, key) matches Some(e) ==> e.key == key,
    decreases v.len(),
{
    if v.len() > 0 {
        lemma_assignment_key(v.skip(1), key);
    }
}

/// The line of a key on one side of a merge, or else on the other.
pub open spec fn line_of(
    first: document::DocumentModel,
    second: document::DocumentModel,
    key: Seq<char>,
) -> Option<layout::DotenvModel> {
    match layout::assignment_of(first.layout.dotenv, key) {
        Some(entry) => Some(entry),
        None => layout::assignment_of(second.layout.dotenv, key),
    }
}

/// The value and the line of a key, in a merge in which it has one side.
proof fn lemma_key_of_order(
    local: document::DocumentModel,
    remote: document::DocumentModel,
    order: Seq<(Seq<char>, bool)>,
    key: Seq<char>,
    side: Option<bool>,
)
    requires
        local.root is Mapping,
        remote.root is Mapping,
        forall|i: int|
            0 <= i < order.len() ==> unit::unit_at(
                side_of(local, remote, (#[trigger] order[i]).1),
                order[i].0,
            ) is Some,
        forall|i: int|
            0 <= i < order.len() && (#[trigger] order[i]).0 == key ==> side == Some(order[i].1),
    ensures
        ({
            let found = exists|i: int| 0 <= i < order.len() && (#[trigger] order[i]).0 == key;
            let own = side_of(local, remote, side->Some_0);
            let other = side_of(local, remote, !side->Some_0);
            &&& node::lookup(plan::merged_entries(local, remote, order), key) == if found {
                Some(unit::unit_at(own, key)->Some_0.node)
            } else {
                None
            }
            &&& layout::assignment_of(plan::merged_assignments(local, remote, order), key)
                == if found {
                line_of(own, other, key)
            } else {
                None
            }
        }),
    decreases order.len(),
{
    let e = plan::merged_entries(local, remote, order);
    node::lemma_position(e, key);
    if order.len() > 0 {
        let head = order.drop_last();
        let n = order.len() - 1;
        let (last, from_remote) = order[n];
        assert forall|i: int| 0 <= i < head.len() implies head[i] == order[i] by {}
        assert forall|i: int| 0 <= i < head.len() implies unit::unit_at(
            side_of(local, remote, (#[trigger] head[i]).1),
            head[i].0,
        ) is Some by {
            assert(head[i] == order[i]);
        }
        assert forall|i: int|
            0 <= i < head.len() && (#[trigger] head[i]).0 == key implies side == Some(
            head[i].1,
        ) by {
            assert(head[i] == order[i]);
        }
        lemma_key_of_order(local, remote, head, key, side);
        let here = unit::unit_at(side_of(local, remote, from_remote), last);
        assert(here is Some);
        let entry = plan::merged_assignment(local, remote, last, from_remote);
        lemma_assignment_key(local.layout.dotenv, last);
        lemma_assignment_key(remote.layout.dotenv, last);
        if entry is Some {
            lemma_assignment_push(
                plan::merged_assignments(local, remote, head),
                entry->Some_0,
                key,
            );
        }
        let f = plan::merged_entries(local, remote, head);
        node::lemma_position(f, key);
        assert(forall|i: int| 0 <= i < head.len() ==> e[i] == f[i]);
        assert(e[n] == (last, plan::side_value(local, remote, last, from_remote)));
        if exists|i: int| 0 <= i < head.len() && (#[trigger] head[i]).0 == key {
            let i = choose|i: int| 0 <= i < head.len() && (#[trigger] head[i]).0 == key;
            assert(order[i].0 == key);
            assert(node::keys(f)[i] == f[i].0);
            assert(node::keys(f).contains(key));
            node::lemma_position_is(e, key, node::position(f, key) as int);
            if last == key {
                assert(side == Some(from_remote));
            }
        } else {
            assert forall|j: int| 0 <= j < n implies (#[trigger] e[j]).0 != key by {
                assert(e[j] == f[j]);
                assert(head[j].0 == e[j].0);
            }
            if last == key {
                node::lemma_position_is(e, key, n);
            } else {
                node::lemma_position_is(e, key, n + 1);
                assert forall|i: int| 0 <= i < order.len() implies (#[trigger] order[i]).0
                    != key by {
                    if i < n {
                        assert(head[i] == order[i]);
                    }
                }
            }
        }
    } else {
        assert(e =~= Seq::<(Seq<char>, node::Tree)>::empty());
    }
}

/// A key of a merge, whatever the record: its value, its line and its conflicts.
proof fn lemma_settled_key(
    baseline: Option<record::RecordModel>,
    local: document::DocumentModel,
    remote: document::DocumentModel,
    key: Seq<char>,
)
    requires
        local.root is Mapping,
        remote.root is Mapping,
        node::well_keyed(local.root),
        node::well_keyed(remote.root),
    ensures
        ({
            let (d, conflicts) = plan::merged_documents(baseline, local, remote);
            let side = placed(baseline, local, remote, key);
            let clash = clash(baseline, local, remote, key);
            let own = side_of(local, remote, side->Some_0);
            let other = side_of(local, remote, !side->Some_0);
            &&& d.root is Mapping
            &&& node::lookup(d.root->Mapping_0, key) == if side is Some {
                node::lookup(own.root->Mapping_0, key)
            } else {
                None
            }
            &&& layout::assignment_of(d.layout.dotenv, key) == if side is Some {
                line_of(own, other, key)
            } else {
                None
            }
            &&& side is Some ==> node::lookup(own.root->Mapping_0, key) is Some
            &&& forall|c: ConflictModel|
                key_of(c) == key && !(c is Layout) && !(c is Unmergeable) ==> (
                #[trigger] conflicts.contains(c) <==> clash == Some(c))
            &&& conflicts.no_duplicates()
        }),
{
    let m = plan::merged_keys(baseline, local, remote);
    let (d, conflicts) = plan::merged_documents(baseline, local, remote);
    lemma_merged_keys(baseline, local, remote);
    let side = placed(baseline, local, remote, key);
    assert forall|i: int| 0 <= i < m.order.len() implies unit::unit_at(
        side_of(local, remote, (#[trigger] m.order[i]).1),
        m.order[i].0,
    ) is Some by {
        assert(m.order.contains(m.order[i]));
    }
    assert forall|i: int|
        0 <= i < m.order.len() && (#[trigger] m.order[i]).0 == key implies side == Some(
        m.order[i].1,
    ) by {
        assert(m.order.contains(m.order[i]));
    }
    lemma_key_of_order(local, remote, m.order, key, side);
    if side is Some {
        assert(m.order.contains((key, side->Some_0)));
        let i = choose|i: int| 0 <= i < m.order.len() && m.order[i] == (key, side->Some_0);
        assert(m.order[i].0 == key);
    }
    assert forall|x: ConflictModel| !(x is Layout) implies (#[trigger] conflicts.contains(x)
        <==> m.conflicts.contains(x)) by {
        lemma_pushed(m.conflicts, ConflictModel::Layout, x);
    }
    assert(!m.conflicts.contains(ConflictModel::Layout));
    lemma_distinct_push(m.conflicts, ConflictModel::Layout);
}

/// What becomes of a unit in a merge under the record of a base: what both sides agree
/// on, the other side where the local one is unchanged, and the local side otherwise.
pub open spec fn settled_unit(
    o: Option<unit::UnitModel>,
    l: Option<unit::UnitModel>,
    r: Option<unit::UnitModel>,
) -> Option<unit::UnitModel> {
    if l == r {
        l
    } else if l == o {
        r
    } else {
        l
    }
}

/// Law: a merge of two documents under the record of their base settles every key by
/// itself: where both sides agree it has what they agree on, where one side is unchanged
/// it has the other, and where both changed it differently it has the local side and
/// reports one conflict, of the kind that fits what the sides did. Nothing else is
/// reported of a key. Each key must have its line on each side, as in dotenv documents,
/// and the record must tell changed units apart.
pub proof fn law_merge_settles_every_key(
    base: document::DocumentModel,
    c: cipher::CipherModel,
    salt: Seq<u8>,
    local: document::DocumentModel,
    remote: document::DocumentModel,
    key: Seq<char>,
)
    requires
        local.root is Mapping,
        remote.root is Mapping,
        node::well_keyed(local.root),
        node::well_keyed(remote.root),
        laid_out(local),
        laid_out(remote),
        record::told_apart(record::captured(base, c, salt), base, local),
        record::told_apart(record::captured(base, c, salt), base, remote),
    ensures
        ({
            let (d, conflicts) = plan::merged_documents(
                Some(record::captured(base, c, salt)),
                local,
                remote,
            );
            let (o, l, r) = (
                unit::unit_at(base, key),
                unit::unit_at(local, key),
                unit::unit_at(remote, key),
            );
            let contested = l != r && l != o && r != o;
            &&& unit::unit_at(d, key) == settled_unit(o, l, r)
            &&& conflicts.contains(ConflictModel::Key(key)) <==> contested && l is Some && r is Some
            &&& conflicts.contains(ConflictModel::DeletedRemotely(key)) <==> contested && r is None
            &&& conflicts.contains(ConflictModel::DeletedLocally(key)) <==> contested && l is None
            &&& conflicts.no_duplicates()
        }),
{
    let b = record::captured(base, c, salt);
    let (o, l, r) = (unit::unit_at(base, key), unit::unit_at(local, key), unit::unit_at(remote, key));
    hash::lemma_hex(salt);
    record::law_record_knows_its_units(base, c, salt, key);
    assert(l != o ==> b.unit_match(key, l) != Some(true));
    assert(r != o ==> b.unit_match(key, r) != Some(true));
    lemma_settled_key(Some(b), local, remote, key);
    assert(key_of(ConflictModel::Key(key)) == key);
    assert(key_of(ConflictModel::DeletedRemotely(key)) == key);
    assert(key_of(ConflictModel::DeletedLocally(key)) == key);
}

/// The value of a key of a document whose root is a mapping.
pub open spec fn value_of(d: document::DocumentModel, key: Seq<char>) -> Option<node::Tree> {
    match d.root {
        node::Tree::Mapping(e) => node::lookup(e, key),
        _ => None,
    }
}

/// Law: in documents of every format whose roots are mappings, the merge under the record
/// of a base has at each key the value that both sides agree on, the remote value where the
/// local key is as it was in the base, and the local value otherwise; a key that the chosen
/// side lacks is gone. The key is written as on the side that its value comes from, or, where
/// that side has no line for it, as on the other. Both sides changing a key differently is
/// what is reported, and nothing else is reported of a key.
pub proof fn law_merge_settles_every_value(
    base: document::DocumentModel,
    c: cipher::CipherModel,
    salt: Seq<u8>,
    local: document::DocumentModel,
    remote: document::DocumentModel,
    key: Seq<char>,
)
    requires
        local.root is Mapping,
        remote.root is Mapping,
        node::well_keyed(local.root),
        node::well_keyed(remote.root),
        record::told_apart(record::captured(base, c, salt), base, local),
        record::told_apart(record::captured(base, c, salt), base, remote),
    ensures
        ({
            let (d, conflicts) = plan::merged(
                Some(record::captured(base, c, salt)),
                local,
                remote,
            );
            let (o, l, r) = (
                unit::unit_at(base, key),
                unit::unit_at(local, key),
                unit::unit_at(remote, key),
            );
            let contested = l != r && l != o && r != o;
            let own = if l == o && l != r {
                remote
            } else {
                local
            };
            let other = if l == o && l != r {
                local
            } else {
                remote
            };
            &&& d.root is Mapping
            &&& d.format == local.format
            &&& value_of(d, key) == value_of(own, key)
            &&& layout::assignment_of(d.layout.dotenv, key) == if value_of(own, key) is Some {
                line_of(own, other, key)
            } else {
                None
            }
            &&& conflicts.contains(ConflictModel::Key(key)) <==> contested && l is Some && r is Some
            &&& conflicts.contains(ConflictModel::DeletedRemotely(key)) <==> contested && r is None
            &&& conflicts.contains(ConflictModel::DeletedLocally(key)) <==> contested && l is None
            &&& conflicts.no_duplicates()
        }),
{
    let b = record::captured(base, c, salt);
    let (o, l, r) = (unit::unit_at(base, key), unit::unit_at(local, key), unit::unit_at(remote, key));
    hash::lemma_hex(salt);
    record::law_record_knows_its_units(base, c, salt, key);
    assert(l != o ==> b.unit_match(key, l) != Some(true));
    assert(r != o ==> b.unit_match(key, r) != Some(true));
    lemma_settled_key(Some(b), local, remote, key);
    assert(key_of(ConflictModel::Key(key)) == key);
    assert(key_of(ConflictModel::DeletedRemotely(key)) == key);
    assert(key_of(ConflictModel::DeletedLocally(key)) == key);
}

/// Law: a merge without a record has every key of either side: the local value where there
/// is one, and the remote value otherwise. A key on which both sides differ is reported, and
/// none else.
pub proof fn law_unrecorded_merge_keeps_every_key(
    local: document::DocumentModel,
    remote: document::DocumentModel,
    key: Seq<char>,
)
    requires
        local.root is Mapping,
        remote.root is Mapping,
        node::well_keyed(local.root),
        node::well_keyed(remote.root),
    ensures
        ({
            let (d, conflicts) = plan::merged(None, local, remote);
            let (l, r) = (unit::unit_at(local, key), unit::unit_at(remote, key));
            let (own, other) = if l is Some {
                (local, remote)
            } else {
                (remote, local)
            };
            &&& d.root is Mapping
            &&& d.format == local.format
            &&& value_of(d, key) == value_of(own, key)
            &&& layout::assignment_of(d.layout.dotenv, key) == if value_of(own, key) is Some {
                line_of(own, other, key)
            } else {
                None
            }
            &&& conflicts.contains(ConflictModel::Key(key)) <==> l is Some && r is Some && l != r
            &&& !conflicts.contains(ConflictModel::DeletedRemotely(key))
            &&& !conflicts.contains(ConflictModel::DeletedLocally(key))
            &&& !conflicts.contains(ConflictModel::Layout)
            &&& conflicts.no_duplicates()
        }),
{
    lemma_settled_key(None, local, remote, key);
    lemma_merged_keys(None, local, remote);
    assert(key_of(ConflictModel::Key(key)) == key);
    assert(key_of(ConflictModel::DeletedRemotely(key)) == key);
    assert(key_of(ConflictModel::DeletedLocally(key)) == key);
}

/// Law: what a merge has beside its keys comes from one side as a whole: what both agree
/// on, the remote side where the local one is as it was in the base, and the local side
/// otherwise. That both changed it differently is reported.
pub proof fn law_merge_settles_the_layout(
    base: document::DocumentModel,
    c: cipher::CipherModel,
    salt: Seq<u8>,
    local: document::DocumentModel,
    remote: document::DocumentModel,
)
    requires
        local.root is Mapping,
        remote.root is Mapping,
        node::well_keyed(local.root),
        node::well_keyed(remote.root),
        record::told_apart(record::captured(base, c, salt), base, local),
        record::told_apart(record::captured(base, c, salt), base, remote),
    ensures
        ({
            let (d, conflicts) = plan::merged(
                Some(record::captured(base, c, salt)),
                local,
                remote,
            );
            let (o, l, r) = (unit::residual(base), unit::residual(local), unit::residual(remote));
            let side = if l == o {
                r
            } else {
                l
            };
            &&& d.layout.line_ending == side.line_ending
            &&& d.layout.trailing_newline == side.trailing_newline
            &&& d.layout.preamble_comments == side.preamble_comments
            &&& d.layout.template == side.template
            &&& conflicts.contains(ConflictModel::Layout) <==> l != r && l != o && r != o
        }),
{
    let b = record::captured(base, c, salt);
    let m = plan::merged_keys(Some(b), local, remote);
    lemma_no_layout_conflict(Some(b), local, remote);
    lemma_pushed(m.conflicts, ConflictModel::Layout, ConflictModel::Layout);
    lemma_residual_known(base, c, salt, local);
    lemma_residual_known(base, c, salt, remote);
}

/// The keys of a merge report nothing of the layout.
proof fn lemma_no_layout_conflict(
    baseline: Option<record::RecordModel>,
    local: document::DocumentModel,
    remote: document::DocumentModel,
)
    requires
        local.root is Mapping,
        remote.root is Mapping,
        node::well_keyed(local.root),
        node::well_keyed(remote.root),
    ensures
        !plan::merged_keys(baseline, local, remote).conflicts.contains(ConflictModel::Layout),
{
    lemma_merged_keys(baseline, local, remote);
}

/// A document whose residual layout is that of the base is recorded so.
proof fn lemma_residual_known(
    base: document::DocumentModel,
    c: cipher::CipherModel,
    salt: Seq<u8>,
    d: document::DocumentModel,
)
    ensures
        unit::residual(d) == unit::residual(base) ==> record::captured(
            base,
            c,
            salt,
        ).residual_match(d),
{
    hash::lemma_hex(salt);
}

/// Law: every dotenv document that is read has a line for each of its keys.
pub proof fn law_read_dotenv_is_laid_out(input: Seq<char>)
    requires
        dotenv::parsed(input) is Ok,
    ensures
        dotenv::parsed(input)->Ok_0.root is Mapping,
        laid_out(dotenv::parsed(input)->Ok_0),
{
    let d = dotenv::parsed(input)->Ok_0;
    dotenv_reading::lemma_read_is_writable(input);
    let values = d.root->Mapping_0;
    assert forall|key: Seq<char>|
        (#[trigger] unit::unit_at(d, key)) is Some implies unit::unit_at(
        d,
        key,
    )->Some_0.entry is Some by {
        node::lemma_position(values, key);
        let i = node::position(values, key) as int;
        if i < values.len() {
            dotenv_document::lemma_assignment(values, d.layout.dotenv, i);
        }
    }
}

/// Law: every document that is read has the lines that a reader makes.
pub proof fn law_read_document_is_lined(
    format: SourceFormat,
    input: Seq<u8>,
    raws: Result<Seq<node::Tree>, Seq<char>>,
)
    requires
        crate::source::format::parsed(format, input, raws) is Ok,
    ensures
        crate::source::format::parsed(format, input, raws)->Ok_0.format == format,
        plan::lined(crate::source::format::parsed(format, input, raws)->Ok_0),
{
    if format == SourceFormat::Dotenv {
        let s = vstd::utf8::decode_utf8(input);
        dotenv_reading::lemma_read_is_writable(s);
        let d = dotenv::parsed(s)->Ok_0;
        let values = d.root->Mapping_0;
        assert forall|i: int| 0 <= i < values.len() implies (#[trigger] d.layout.dotenv[i]).key
            == values[i].0 by {
            assert(dotenv_document::writable_entry(values[i], d.layout.dotenv[i]));
        }
    }
}

proof fn lemma_filtered_insert(
    s: Seq<Seq<char>>,
    at: int,
    x: Seq<char>,
    keep: spec_fn(Seq<char>) -> bool,
)
    requires
        0 <= at <= s.len(),
        !keep(x),
    ensures
        s.insert(at, x).filter(keep) == s.filter(keep),
{
    let (a, b) = (s.take(at), s.skip(at));
    assert(s.insert(at, x) =~= a + (seq![x] + b));
    assert(s =~= a + b);
    Seq::filter_distributes_over_add(a, seq![x] + b, keep);
    Seq::filter_distributes_over_add(seq![x], b, keep);
    Seq::filter_distributes_over_add(a, b, keep);
    reveal(Seq::filter);
    assert(seq![x].drop_last() =~= Seq::<Seq<char>>::empty());
    assert(seq![x].last() == x);
    assert(Seq::<Seq<char>>::empty().filter(keep) =~= Seq::<Seq<char>>::empty());
    assert(seq![x].filter(keep) =~= Seq::<Seq<char>>::empty());
    assert(seq![x].filter(keep) + b.filter(keep) =~= b.filter(keep));
}

/// The keys of a merge in their order.
pub open spec fn ordered_keys(order: Seq<(Seq<char>, bool)>) -> Seq<Seq<char>> {
    order.map_values(|x: (Seq<char>, bool)| x.0)
}

proof fn lemma_local_order(
    baseline: Option<record::RecordModel>,
    local: document::DocumentModel,
    remote: document::DocumentModel,
    keys: Seq<Seq<char>>,
)
    requires
        forall|i: int| 0 <= i < keys.len() ==> unit::unit_at(local, #[trigger] keys[i]) is Some,
    ensures
        ({
            let start = MergeModel { order: Seq::empty(), conflicts: Seq::empty() };
            ordered_keys(plan::local_keys(start, baseline, local, remote, keys).order)
                == keys.filter(|k: Seq<char>| placed(baseline, local, remote, k) is Some)
        }),
    decreases keys.len(),
{
    reveal(Seq::filter);
    let start = MergeModel { order: Seq::empty(), conflicts: Seq::empty() };
    let keep = |k: Seq<char>| placed(baseline, local, remote, k) is Some;
    let now = plan::local_keys(start, baseline, local, remote, keys).order;
    if keys.len() > 0 {
        let head = keys.drop_last();
        assert forall|i: int| 0 <= i < head.len() implies unit::unit_at(
            local,
            #[trigger] head[i],
        ) is Some by {
            assert(head[i] == keys[i]);
        }
        lemma_local_order(baseline, local, remote, head);
        let key = keys[keys.len() - 1];
        let before = plan::local_keys(start, baseline, local, remote, head).order;
        assert(ordered_keys(now) =~= if keep(key) {
            ordered_keys(before).push(key)
        } else {
            ordered_keys(before)
        });
    } else {
        assert(ordered_keys(now) =~= keys.filter(keep));
    }
}

proof fn lemma_remote_order(
    m: MergeModel,
    baseline: Option<record::RecordModel>,
    own: Seq<Seq<char>>,
    remote: document::DocumentModel,
    keys: Seq<Seq<char>>,
    n: int,
)
    requires
        0 <= n <= keys.len(),
    ensures
        ordered_keys(plan::remote_keys(m, baseline, own, remote, keys, n).order).filter(
            |k: Seq<char>| own.contains(k),
        ) == ordered_keys(m.order).filter(|k: Seq<char>| own.contains(k)),
    decreases n,
{
    let keep = |k: Seq<char>| own.contains(k);
    if n > 0 {
        lemma_remote_order(m, baseline, own, remote, keys, n - 1);
        let before = plan::remote_keys(m, baseline, own, remote, keys, n - 1);
        let now = plan::remote_keys(m, baseline, own, remote, keys, n);
        let key = keys[n - 1];
        let list = ordered_keys(before.order);
        plan::lemma_anchor(before.order, keys, n - 1);
        if now.order != before.order {
            match plan::anchor(before.order, keys, n - 1) {
                Some(at) => {
                    assert(ordered_keys(now.order) =~= list.insert(at + 1, key));
                    lemma_filtered_insert(list, at + 1, key, keep);
                },
                None => {
                    assert(ordered_keys(now.order) =~= list.insert(list.len() as int, key));
                    lemma_filtered_insert(list, list.len() as int, key, keep);
                },
            }
        }
    }
}

proof fn lemma_filtered_twice(
    s: Seq<Seq<char>>,
    own: Seq<Seq<char>>,
    p: spec_fn(Seq<char>) -> bool,
)
    requires
        forall|i: int| 0 <= i < s.len() ==> own.contains(#[trigger] s[i]),
    ensures
        s.filter(p).filter(|k: Seq<char>| own.contains(k)) == s.filter(p),
    decreases s.len(),
{
    reveal(Seq::filter);
    if s.len() > 0 {
        let head = s.drop_last();
        assert forall|i: int| 0 <= i < head.len() implies own.contains(#[trigger] head[i]) by {
            assert(head[i] == s[i]);
        }
        lemma_filtered_twice(head, own, p);
        let kept = head.filter(p);
        assert(own.contains(s[s.len() - 1]));
        assert(kept.push(s.last()).drop_last() =~= kept);
    }
}

/// Law: a merge keeps the order of the local keys: of those that it has from the local
/// document, each stands where the local document has it among the others. What comes from
/// the remote side alone is put between them.
pub proof fn law_merge_keeps_the_local_order(
    baseline: Option<record::RecordModel>,
    local: document::DocumentModel,
    remote: document::DocumentModel,
)
    requires
        local.root is Mapping,
        remote.root is Mapping,
        node::well_keyed(local.root),
    ensures
        ({
            let d = plan::merged(baseline, local, remote).0;
            let own = node::keys(local.root->Mapping_0);
            node::keys(d.root->Mapping_0).filter(|k: Seq<char>| own.contains(k)) == own.filter(
                |k: Seq<char>| placed(baseline, local, remote, k) is Some,
            )
        }),
{
    let (own, other) = (unit::unit_names(local), unit::unit_names(remote));
    let start = MergeModel { order: Seq::empty(), conflicts: Seq::empty() };
    lemma_names(local);
    lemma_local_order(baseline, local, remote, own);
    let first = plan::local_keys(start, baseline, local, remote, own);
    lemma_remote_order(first, baseline, own, remote, other, other.len() as int);
    let m = plan::merged_keys(baseline, local, remote);
    let d = plan::merged(baseline, local, remote).0;
    assert(node::keys(d.root->Mapping_0) =~= ordered_keys(m.order));
    assert forall|i: int| 0 <= i < own.len() implies own.contains(#[trigger] own[i]) by {}
    lemma_filtered_twice(own, own, |k: Seq<char>| placed(baseline, local, remote, k) is Some);
}

/// A merge holds a key.
pub open spec fn holds(order: Seq<(Seq<char>, bool)>, key: Seq<char>) -> bool {
    exists|p: int| 0 <= p < order.len() && (#[trigger] order[p]).0 == key
}

proof fn lemma_side_position(order: Seq<(Seq<char>, bool)>, key: Seq<char>)
    ensures
        crate::codec::side_map::side_position(order, key) <= order.len(),
        crate::codec::side_map::side_position(order, key) < order.len() <==> holds(order, key),
        crate::codec::side_map::side_position(order, key) < order.len() ==> order[
            crate::codec::side_map::side_position(order, key) as int
        ].0 == key,
    decreases order.len(),
{
    if order.len() > 0 {
        let rest = order.skip(1);
        lemma_side_position(rest, key);
        assert(forall|i: int| 0 <= i < rest.len() ==> rest[i] == order[i + 1]);
        if order[0].0 != key {
            if holds(rest, key) {
                let p = choose|p: int| 0 <= p < rest.len() && (#[trigger] rest[p]).0 == key;
                assert(order[p + 1].0 == key);
            }
            if holds(order, key) {
                let p = choose|p: int| 0 <= p < order.len() && (#[trigger] order[p]).0 == key;
                assert(rest[p - 1].0 == key);
            }
        } else {
            assert(order[0].0 == key);
        }
    }
}

proof fn lemma_nearest(order: Seq<(Seq<char>, bool)>, keys: Seq<Seq<char>>, n: int)
    requires
        0 <= n <= keys.len(),
    ensures
        match plan::anchor(order, keys, n) {
            Some(at) => 0 <= at < order.len() && exists|j: int|
                0 <= j < n && #[trigger] keys[j] == order[at].0 && forall|i: int|
                    j < i < n ==> !holds(order, #[trigger] keys[i]),
            None => forall|i: int| 0 <= i < n ==> !holds(order, #[trigger] keys[i]),
        },
    decreases n,
{
    if n > 0 {
        lemma_nearest(order, keys, n - 1);
        lemma_side_position(order, keys[n - 1]);
        if holds(order, keys[n - 1]) {
            let at = plan::anchor(order, keys, n)->Some_0;
            assert(keys[n - 1] == order[at].0);
        } else {
            match plan::anchor(order, keys, n - 1) {
                Some(at) => {
                    let j = choose|j: int|
                        0 <= j < n - 1 && #[trigger] keys[j] == order[at].0 && forall|i: int|
                            j < i < n - 1 ==> !holds(order, #[trigger] keys[i]);
                    assert(keys[j] == order[at].0);
                    assert forall|i: int| j < i < n implies !holds(order, #[trigger] keys[i]) by {}
                },
                None => {},
            }
        }
    }
}

/// Law: a key that only the remote side has is put directly behind the nearest key before it
/// on that side that the merge holds, and at the end where the merge holds none of them.
pub proof fn law_remote_keys_follow_their_predecessor(
    m: MergeModel,
    keys: Seq<Seq<char>>,
    n: int,
)
    requires
        0 <= n < keys.len(),
    ensures
        ({
            let now = plan::with_remote(m, keys, n).order;
            ||| now == m.order.push((keys[n], true)) && forall|i: int|
                0 <= i < n ==> !holds(m.order, #[trigger] keys[i])
            ||| exists|j: int, at: int|
                0 <= j < n && 0 <= at < m.order.len() && #[trigger] keys[j] == (
                #[trigger] m.order[at]).0 && now == m.order.insert(at + 1, (keys[n], true)) && (
                forall|i: int| j < i < n ==> !holds(m.order, #[trigger] keys[i]))
        }),
{
    lemma_nearest(m.order, keys, n);
    match plan::anchor(m.order, keys, n) {
        Some(at) => {
            let j = choose|j: int|
                0 <= j < n && #[trigger] keys[j] == m.order[at].0 && forall|i: int|
                    j < i < n ==> !holds(m.order, #[trigger] keys[i]);
            assert(keys[j] == m.order[at].0);
            assert(plan::with_remote(m, keys, n).order == m.order.insert(at + 1, (keys[n], true)));
        },
        None => {},
    }
}

/// Law: a merge without a record keeps what the local document has beside its keys.
pub proof fn law_unrecorded_merge_keeps_the_layout(
    local: document::DocumentModel,
    remote: document::DocumentModel,
)
    requires
        local.root is Mapping,
        remote.root is Mapping,
    ensures
        ({
            let d = plan::merged(None, local, remote).0;
            &&& d.layout.line_ending == local.layout.line_ending
            &&& d.layout.trailing_newline == local.layout.trailing_newline
            &&& d.layout.preamble_comments == local.layout.preamble_comments
            &&& local.format != SourceFormat::Dotenv ==> d.layout.template == local.layout.template
        }),
{
}

} // verus!
