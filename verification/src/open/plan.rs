//! Pure key-wise `open` arbitration.
//!
//! It merges the decrypted remote document into the local plaintext using the
//! baseline record as the three-way referee. Sync units carry a key's value
//! together with its attached layout; the residual layout is arbitrated as one
//! extra unit. Without a baseline the plan degrades to conservative mode:
//! disagreements become reported conflicts and local-only units are always
//! preserved.

use vstd::prelude::*;

use crate::baseline::record;
use crate::baseline::unit;
use crate::baseline::{BaselineRecord, UnitView};
use crate::codec::hash;
use crate::codec::side_map;
use crate::config::SourceFormat;
use crate::source::document;
use crate::source::layout;
use crate::source::node;
use crate::source::{DotenvLayout, Layout, Node, SourceDocument};
use crate::text;

verus! {

#[derive(Debug, PartialEq, Eq)]
pub enum OpenConflict {
    /// Both sides changed the key to different values; the local value wins.
    Key(String),
    /// The local value changed while the remote side deleted the key; the
    /// local value wins.
    DeletedRemotely(String),
    /// The local side deleted the key while the remote value changed; the
    /// local deletion wins.
    DeletedLocally(String),
    /// Both sides changed the residual layout; the local layout wins.
    Layout,
    /// The structural merge cannot be rendered for this format; the local
    /// file is left untouched and must be reconciled manually.
    Unmergeable,
}

pub enum ConflictModel {
    Key(Seq<char>),
    DeletedRemotely(Seq<char>),
    DeletedLocally(Seq<char>),
    Layout,
    Unmergeable,
}

impl View for OpenConflict {
    type V = ConflictModel;

    open spec fn view(&self) -> ConflictModel {
        match self {
            OpenConflict::Key(key) => ConflictModel::Key(key@),
            OpenConflict::DeletedRemotely(key) => ConflictModel::DeletedRemotely(key@),
            OpenConflict::DeletedLocally(key) => ConflictModel::DeletedLocally(key@),
            OpenConflict::Layout => ConflictModel::Layout,
            OpenConflict::Unmergeable => ConflictModel::Unmergeable,
        }
    }
}

impl ConflictModel {
    pub open spec fn text(self) -> Seq<char> {
        match self {
            ConflictModel::Key(key) => "key "@ + key
                + ": changed locally and remotely; local value kept"@,
            ConflictModel::DeletedRemotely(key) => "key "@ + key
                + ": changed locally but deleted remotely; local value kept"@,
            ConflictModel::DeletedLocally(key) => "key "@ + key
                + ": deleted locally but changed remotely; local deletion kept"@,
            ConflictModel::Layout => "layout: changed locally and remotely; local layout kept"@,
            ConflictModel::Unmergeable =>
                "structural changes on both sides cannot be merged for this format; file left unchanged"@,
        }
    }
}

impl OpenConflict {
    pub fn describe(&self) -> (r: String)
        ensures
            r@ == self@.text(),
    {
        match self {
            OpenConflict::Key(key) => text::cat3(
                "key ",
                key.as_str(),
                ": changed locally and remotely; local value kept",
            ),
            OpenConflict::DeletedRemotely(key) => text::cat3(
                "key ",
                key.as_str(),
                ": changed locally but deleted remotely; local value kept",
            ),
            OpenConflict::DeletedLocally(key) => text::cat3(
                "key ",
                key.as_str(),
                ": deleted locally but changed remotely; local deletion kept",
            ),
            OpenConflict::Layout =>
                "layout: changed locally and remotely; local layout kept".to_owned(),
            OpenConflict::Unmergeable =>
                "structural changes on both sides cannot be merged for this format; file left unchanged".to_owned(),
        }
    }
}

pub open spec fn conflict_models(v: Seq<OpenConflict>) -> Seq<ConflictModel> {
    v.map_values(|c: OpenConflict| c@)
}

#[derive(Clone, Copy, Debug, PartialEq, Eq, Structural)]
pub enum Arbitration {
    TakeRemote,
    KeepLocal,
    Conflict,
}

/// What is decided where no side is known to be unchanged: remote additions sync
/// down, local additions stay, and everything else is a conflict.
pub open spec fn unrecorded(local: bool, remote: bool) -> Arbitration {
    if !local && remote {
        Arbitration::TakeRemote
    } else if local && !remote {
        Arbitration::KeepLocal
    } else {
        Arbitration::Conflict
    }
}

/// What is decided on a unit. With a baseline, the side that is unchanged yields.
pub open spec fn arbitrated(
    baseline: Option<record::RecordModel>,
    key: Seq<char>,
    local: Option<unit::UnitModel>,
    remote: Option<unit::UnitModel>,
) -> Arbitration {
    match baseline {
        None => unrecorded(local is Some, remote is Some),
        Some(b) => match (b.unit_match(key, local), b.unit_match(key, remote)) {
            (None, None) => unrecorded(local is Some, remote is Some),
            (Some(true), _) => Arbitration::TakeRemote,
            (_, Some(true)) => Arbitration::KeepLocal,
            _ => Arbitration::Conflict,
        },
    }
}

pub open spec fn view_baseline(b: Option<&BaselineRecord>) -> Option<record::RecordModel> {
    match b {
        Some(b) => Some(b@),
        None => None,
    }
}

pub open spec fn view_units(u: Option<&UnitView>) -> Option<unit::UnitModel> {
    match u {
        Some(u) => Some(u@),
        None => None,
    }
}

fn decide_unrecorded(local: bool, remote: bool) -> (r: Arbitration)
    ensures
        r == unrecorded(local, remote),
{
    if !local && remote {
        Arbitration::TakeRemote
    } else if local && !remote {
        Arbitration::KeepLocal
    } else {
        Arbitration::Conflict
    }
}

pub fn arbitrate(
    baseline: Option<&BaselineRecord>,
    key: &str,
    local: Option<&UnitView>,
    remote: Option<&UnitView>,
) -> (r: Arbitration)
    ensures
        r == arbitrated(view_baseline(baseline), key@, view_units(local), view_units(remote)),
{
    match baseline {
        None => decide_unrecorded(local.is_some(), remote.is_some()),
        Some(b) => match (b.unit_matches(key, local), b.unit_matches(key, remote)) {
            (None, None) => decide_unrecorded(local.is_some(), remote.is_some()),
            (Some(true), _) => Arbitration::TakeRemote,
            (_, Some(true)) => Arbitration::KeepLocal,
            _ => Arbitration::Conflict,
        },
    }
}

/// The keys of a merge with their sides, and the conflicts so far.
pub struct MergeModel {
    pub order: Seq<(Seq<char>, bool)>,
    pub conflicts: Seq<ConflictModel>,
}

impl MergeModel {
    pub open spec fn with_key(self, key: Seq<char>, remote: bool) -> MergeModel {
        MergeModel { order: self.order.push((key, remote)), conflicts: self.conflicts }
    }

    pub open spec fn with_conflict(self, c: ConflictModel) -> MergeModel {
        MergeModel { order: self.order, conflicts: self.conflicts.push(c) }
    }
}

/// What a key of the local document adds to a merge.
pub open spec fn local_key(
    m: MergeModel,
    baseline: Option<record::RecordModel>,
    local: document::DocumentModel,
    remote: document::DocumentModel,
    key: Seq<char>,
) -> MergeModel {
    let (l, r) = (unit::unit_at(local, key), unit::unit_at(remote, key));
    if l is None {
        m
    } else if r is Some && l == r {
        m.with_key(key, false)
    } else {
        match (arbitrated(baseline, key, l, r), r is Some) {
            (Arbitration::TakeRemote, true) => m.with_key(key, true),
            // The remote side deleted an unchanged local key.
            (Arbitration::TakeRemote, false) => m,
            (Arbitration::KeepLocal, _) => m.with_key(key, false),
            (Arbitration::Conflict, true) => m.with_conflict(ConflictModel::Key(key)).with_key(
                key,
                false,
            ),
            (Arbitration::Conflict, false) => m.with_conflict(
                ConflictModel::DeletedRemotely(key),
            ).with_key(key, false),
        }
    }
}

pub open spec fn local_keys(
    m: MergeModel,
    baseline: Option<record::RecordModel>,
    local: document::DocumentModel,
    remote: document::DocumentModel,
    keys: Seq<Seq<char>>,
) -> MergeModel
    decreases keys.len(),
{
    if keys.len() == 0 {
        m
    } else {
        local_key(
            local_keys(m, baseline, local, remote, keys.drop_last()),
            baseline,
            local,
            remote,
            keys.last(),
        )
    }
}

/// The position of the nearest of the first `n` keys that the merge holds.
pub open spec fn anchor(order: Seq<(Seq<char>, bool)>, keys: Seq<Seq<char>>, n: int) -> Option<int>
    decreases n,
{
    if n <= 0 || n > keys.len() {
        None
    } else if side_map::side_position(order, keys[n - 1]) < order.len() {
        Some(side_map::side_position(order, keys[n - 1]) as int)
    } else {
        anchor(order, keys, n - 1)
    }
}

/// The merge with a remote key: behind its nearest predecessor of the remote side,
/// or at the end.
pub open spec fn with_remote(m: MergeModel, keys: Seq<Seq<char>>, n: int) -> MergeModel {
    let order = match anchor(m.order, keys, n) {
        Some(at) => m.order.insert(at + 1, (keys[n], true)),
        None => m.order.push((keys[n], true)),
    };
    MergeModel { order, conflicts: m.conflicts }
}

/// What the first `n` keys of the remote document add to a merge, as far as the
/// local document does not have them.
pub open spec fn remote_keys(
    m: MergeModel,
    baseline: Option<record::RecordModel>,
    own: Seq<Seq<char>>,
    remote: document::DocumentModel,
    keys: Seq<Seq<char>>,
    n: int,
) -> MergeModel
    decreases n,
{
    if n <= 0 || n > keys.len() {
        m
    } else {
        let head = remote_keys(m, baseline, own, remote, keys, n - 1);
        let key = keys[n - 1];
        let u = unit::unit_at(remote, key);
        if own.contains(key) || u is None {
            head
        } else {
            match arbitrated(baseline, key, None, u) {
                Arbitration::TakeRemote => with_remote(head, keys, n - 1),
                // The local deletion of an unchanged remote key stands.
                Arbitration::KeepLocal => head,
                Arbitration::Conflict => head.with_conflict(ConflictModel::DeletedLocally(key)),
            }
        }
    }
}

/// The keys of a merge of two mappings and its conflicts.
pub open spec fn merged_keys(
    baseline: Option<record::RecordModel>,
    local: document::DocumentModel,
    remote: document::DocumentModel,
) -> MergeModel {
    let (own, other) = (unit::unit_names(local), unit::unit_names(remote));
    let start = MergeModel { order: Seq::empty(), conflicts: Seq::empty() };
    remote_keys(
        local_keys(start, baseline, local, remote, own),
        baseline,
        own,
        remote,
        other,
        other.len() as int,
    )
}

/// The residual layout of a merge, and whether both sides changed it.
pub open spec fn merged_residual(
    baseline: Option<record::RecordModel>,
    local: document::DocumentModel,
    remote: document::DocumentModel,
) -> (layout::LayoutModel, bool) {
    let (l, r) = (unit::residual(local), unit::residual(remote));
    if l == r {
        (l, false)
    } else {
        match baseline {
            None => (l, false),
            Some(b) => if b.residual_match(local) {
                (r, false)
            } else if b.residual_match(remote) {
                (l, false)
            } else {
                (l, true)
            },
        }
    }
}

/// How a key is written: as on the side of its value, or else as on the other.
pub open spec fn merged_assignment(
    local: document::DocumentModel,
    remote: document::DocumentModel,
    key: Seq<char>,
    from_remote: bool,
) -> Option<layout::DotenvModel> {
    let (first, second) = if from_remote {
        (remote, local)
    } else {
        (local, remote)
    };
    match layout::assignment_of(first.layout.dotenv, key) {
        Some(entry) => Some(entry),
        None => layout::assignment_of(second.layout.dotenv, key),
    }
}

pub open spec fn merged_assignments(
    local: document::DocumentModel,
    remote: document::DocumentModel,
    order: Seq<(Seq<char>, bool)>,
) -> Seq<layout::DotenvModel>
    decreases order.len(),
{
    if order.len() == 0 {
        Seq::empty()
    } else {
        let head = merged_assignments(local, remote, order.drop_last());
        match merged_assignment(local, remote, order.last().0, order.last().1) {
            Some(entry) => head.push(entry),
            None => head,
        }
    }
}

/// The value of a key on the side that it comes from.
pub open spec fn side_value(
    local: document::DocumentModel,
    remote: document::DocumentModel,
    key: Seq<char>,
    from_remote: bool,
) -> node::Tree {
    let side = if from_remote {
        remote
    } else {
        local
    };
    unit::unit_at(side, key)->Some_0.node
}

pub open spec fn merged_entries(
    local: document::DocumentModel,
    remote: document::DocumentModel,
    order: Seq<(Seq<char>, bool)>,
) -> Seq<(Seq<char>, node::Tree)> {
    order.map_values(
        |x: (Seq<char>, bool)| (x.0, side_value(local, remote, x.0, x.1)),
    )
}

/// The merge of two documents whose roots are mappings, with its conflicts.
pub open spec fn merged_documents(
    baseline: Option<record::RecordModel>,
    local: document::DocumentModel,
    remote: document::DocumentModel,
) -> (document::DocumentModel, Seq<ConflictModel>) {
    let m = merged_keys(baseline, local, remote);
    let (residual, both) = merged_residual(baseline, local, remote);
    let d = document::DocumentModel {
        format: local.format,
        root: node::Tree::Mapping(merged_entries(local, remote, m.order)),
        layout: layout::LayoutModel {
            dotenv: merged_assignments(local, remote, m.order),
            ..residual
        },
    };
    (
        d,
        if both {
            m.conflicts.push(ConflictModel::Layout)
        } else {
            m.conflicts
        },
    )
}

/// The merge of two documents as one unit each.
pub open spec fn merged_whole(
    baseline: Option<record::RecordModel>,
    local: document::DocumentModel,
    remote: document::DocumentModel,
) -> (document::DocumentModel, Seq<ConflictModel>) {
    let (l, r) = (unit::unit_at(local, "$"@), unit::unit_at(remote, "$"@));
    if l == r {
        (local, Seq::empty())
    } else {
        match arbitrated(baseline, "$"@, l, r) {
            Arbitration::TakeRemote => (remote, Seq::empty()),
            Arbitration::KeepLocal => (local, Seq::empty()),
            Arbitration::Conflict => (local, seq![ConflictModel::Key("$"@)]),
        }
    }
}

/// The merge of the remote document into the local one, with its conflicts.
pub open spec fn merged(
    baseline: Option<record::RecordModel>,
    local: document::DocumentModel,
    remote: document::DocumentModel,
) -> (document::DocumentModel, Seq<ConflictModel>) {
    if local.root is Mapping && remote.root is Mapping {
        merged_documents(baseline, local, remote)
    } else {
        merged_whole(baseline, local, remote)
    }
}

/// The document to write, if any, and the conflicts to report.
pub struct PlanModel {
    pub document: Option<document::DocumentModel>,
    pub conflicts: Seq<ConflictModel>,
}

pub open spec fn planned(
    local: Option<document::DocumentModel>,
    remote: document::DocumentModel,
    baseline: Option<record::RecordModel>,
) -> PlanModel {
    match local {
        None => PlanModel { document: Some(remote), conflicts: Seq::empty() },
        Some(local) => {
            let (d, conflicts) = merged(baseline, local, remote);
            if d == local {
                PlanModel { document: None, conflicts }
            } else if crate::source::format::generated(d) is Err {
                PlanModel { document: None, conflicts: conflicts.push(ConflictModel::Unmergeable) }
            } else {
                PlanModel { document: Some(d), conflicts }
            }
        },
    }
}

/// Every key of a merge is held by the side that its value comes from, and stands
/// once.
pub open spec fn sound_order(
    local: document::DocumentModel,
    remote: document::DocumentModel,
    order: Seq<(Seq<char>, bool)>,
) -> bool {
    &&& side_map::side_keys(order).no_duplicates()
    &&& forall|i: int|
        0 <= i < order.len() ==> unit::unit_at(
            if (#[trigger] order[i]).1 {
                remote
            } else {
                local
            },
            order[i].0,
        ) is Some
}

proof fn lemma_order_push(
    local: document::DocumentModel,
    remote: document::DocumentModel,
    order: Seq<(Seq<char>, bool)>,
    at: int,
    key: Seq<char>,
    from_remote: bool,
)
    requires
        sound_order(local, remote, order),
        !side_map::side_keys(order).contains(key),
        unit::unit_at(
            if from_remote {
                remote
            } else {
                local
            },
            key,
        ) is Some,
        0 <= at <= order.len(),
    ensures
        sound_order(local, remote, order.insert(at, (key, from_remote))),
        order.insert(order.len() as int, (key, from_remote)) == order.push((key, from_remote)),
{
    let more = order.insert(at, (key, from_remote));
    let (a, b) = (side_map::side_keys(order), side_map::side_keys(more));
    assert(b =~= a.insert(at, key));
    assert forall|i: int, j: int| 0 <= i < j < b.len() implies b[i] != b[j] by {
        let x = if i < at {
            i
        } else {
            i - 1
        };
        let y = if j < at {
            j
        } else {
            j - 1
        };
        if i != at {
            assert(b[i] == a[x]);
            assert(a.contains(a[x]));
        }
        if j != at {
            assert(b[j] == a[y]);
            assert(a.contains(a[y]));
        }
    }
    assert forall|i: int| 0 <= i < more.len() implies unit::unit_at(
        if (#[trigger] more[i]).1 {
            remote
        } else {
            local
        },
        more[i].0,
    ) is Some by {
        if i < at {
            assert(more[i] == order[i]);
        } else if i > at {
            assert(more[i] == order[i - 1]);
        }
    }
    assert(order.insert(order.len() as int, (key, from_remote)) =~= order.push((key, from_remote)));
}

/// A document for the keys of an order.
proof fn lemma_merged_entries(
    local: document::DocumentModel,
    remote: document::DocumentModel,
    order: Seq<(Seq<char>, bool)>,
)
    requires
        local.root is Mapping,
        remote.root is Mapping,
        node::well_keyed(local.root),
        node::well_keyed(remote.root),
        node::named_tags(local.root),
        node::named_tags(remote.root),
        sound_order(local, remote, order),
    ensures
        node::well_keyed(node::Tree::Mapping(merged_entries(local, remote, order))),
        node::named_tags(node::Tree::Mapping(merged_entries(local, remote, order))),
{
    let e = merged_entries(local, remote, order);
    assert(node::keys(e) =~= side_map::side_keys(order));
    assert forall|i: int| 0 <= i < e.len() implies node::well_keyed(#[trigger] e[i].1)
        && node::named_tags(e[i].1) by {
        let (key, from_remote) = order[i];
        let side = if from_remote {
            remote
        } else {
            local
        };
        let all = side.root->Mapping_0;
        node::lemma_position(all, key);
        let at = node::position(all, key) as int;
        assert(e[i].1 == all[at].1);
        assert(node::well_keyed(all[at].1));
        assert(node::named_tags(all[at].1));
    }
}

/// A conflict of a merge leaves the key as it is locally.
pub open spec fn kept_locally(order: Seq<(Seq<char>, bool)>, c: ConflictModel) -> bool {
    match c {
        ConflictModel::Key(key) => order.contains((key, false)),
        ConflictModel::DeletedRemotely(key) => order.contains((key, false)),
        ConflictModel::DeletedLocally(key) => !side_map::side_keys(order).contains(key),
        _ => true,
    }
}

/// Each of the first `n` elements stays where another is put in.
proof fn lemma_kept_by_insert(
    order: Seq<(Seq<char>, bool)>,
    at: int,
    x: (Seq<char>, bool),
    y: (Seq<char>, bool),
)
    requires
        0 <= at <= order.len(),
    ensures
        order.contains(y) ==> order.insert(at, x).contains(y),
        order.contains(y) ==> order.push(x).contains(y),
        side_map::side_keys(order.insert(at, x)).contains(y.0) ==> side_map::side_keys(
            order,
        ).contains(y.0) || y.0 == x.0,
        side_map::side_keys(order.push(x)).contains(y.0) ==> side_map::side_keys(order).contains(
            y.0,
        ) || y.0 == x.0,
{
    let (a, b) = (order.insert(at, x), order.push(x));
    if order.contains(y) {
        let i = choose|i: int| 0 <= i < order.len() && order[i] == y;
        assert(b[i] == y);
        if i < at {
            assert(a[i] == y);
        } else {
            assert(a[i + 1] == y);
        }
    }
    if side_map::side_keys(a).contains(y.0) && y.0 != x.0 {
        let i = choose|i: int| 0 <= i < a.len() && side_map::side_keys(a)[i] == y.0;
        assert(a[i].0 == y.0);
        if i < at {
            assert(side_map::side_keys(order)[i] == y.0);
        } else {
            assert(side_map::side_keys(order)[i - 1] == y.0);
        }
    }
    if side_map::side_keys(b).contains(y.0) && y.0 != x.0 {
        let i = choose|i: int| 0 <= i < b.len() && side_map::side_keys(b)[i] == y.0;
        assert(b[i].0 == y.0);
        assert(side_map::side_keys(order)[i] == y.0);
    }
}

proof fn lemma_local_conflicts(
    baseline: Option<record::RecordModel>,
    local: document::DocumentModel,
    remote: document::DocumentModel,
    keys: Seq<Seq<char>>,
)
    ensures
        ({
            let start = MergeModel { order: Seq::empty(), conflicts: Seq::empty() };
            let m = local_keys(start, baseline, local, remote, keys);
            &&& forall|i: int|
                0 <= i < m.conflicts.len() ==> kept_locally(m.order, #[trigger] m.conflicts[i])
                    && !(m.conflicts[i] is DeletedLocally)
            &&& forall|k: Seq<char>|
                side_map::side_keys(m.order).contains(k) ==> #[trigger] keys.contains(k)
            &&& baseline is None ==> forall|i: int|
                0 <= i < keys.len() && unit::unit_at(local, #[trigger] keys[i]) is Some
                    ==> m.order.contains((keys[i], false))
        }),
    decreases keys.len(),
{
    let start = MergeModel { order: Seq::empty(), conflicts: Seq::empty() };
    let m = local_keys(start, baseline, local, remote, keys);
    if keys.len() > 0 {
        let head = keys.drop_last();
        let key = keys.last();
        lemma_local_conflicts(baseline, local, remote, head);
        let before = local_keys(start, baseline, local, remote, head);
        let n = before.order.len() as int;
        assert(before.order.push((key, false))[n] == (key, false));
        assert(keys[keys.len() - 1] == key);
        assert forall|i: int| 0 <= i < m.conflicts.len() implies kept_locally(
            m.order,
            #[trigger] m.conflicts[i],
        ) && !(m.conflicts[i] is DeletedLocally) by {
            if i < before.conflicts.len() {
                assert(m.conflicts[i] == before.conflicts[i]);
                match m.conflicts[i] {
                    ConflictModel::Key(k) => {
                        lemma_kept_by_insert(before.order, n, (key, false), (k, false));
                        lemma_kept_by_insert(before.order, n, (key, true), (k, false));
                    },
                    ConflictModel::DeletedRemotely(k) => {
                        lemma_kept_by_insert(before.order, n, (key, false), (k, false));
                        lemma_kept_by_insert(before.order, n, (key, true), (k, false));
                    },
                    _ => {},
                }
            } else {
                assert(m.order[n] == (key, false));
            }
        }
        assert forall|k: Seq<char>| side_map::side_keys(m.order).contains(k) implies
            #[trigger] keys.contains(k) by {
            lemma_kept_by_insert(before.order, n, (key, false), (k, false));
            lemma_kept_by_insert(before.order, n, (key, true), (k, false));
            if head.contains(k) {
                let x = choose|x: int| 0 <= x < head.len() && head[x] == k;
                assert(keys[x] == k);
            }
        }
        if baseline is None {
            assert forall|i: int|
                0 <= i < keys.len() && unit::unit_at(local, #[trigger] keys[i]) is Some implies
                m.order.contains((keys[i], false)) by {
                if i < head.len() {
                    assert(head[i] == keys[i]);
                    lemma_kept_by_insert(before.order, n, (key, false), (keys[i], false));
                } else {
                    assert(m.order[n] == (key, false));
                }
            }
        }
    }
}

proof fn lemma_remote_conflicts(
    m: MergeModel,
    baseline: Option<record::RecordModel>,
    own: Seq<Seq<char>>,
    remote: document::DocumentModel,
    keys: Seq<Seq<char>>,
    n: int,
)
    requires
        0 <= n <= keys.len(),
        keys.no_duplicates(),
        forall|i: int| 0 <= i < m.conflicts.len() ==> kept_locally(m.order, #[trigger] m.conflicts[i]),
        forall|i: int| 0 <= i < m.conflicts.len() ==> !((#[trigger] m.conflicts[i]) is DeletedLocally),
        forall|k: Seq<char>| side_map::side_keys(m.order).contains(k) ==> #[trigger] own.contains(k),
    ensures
        ({
            let now = remote_keys(m, baseline, own, remote, keys, n);
            &&& forall|i: int|
                0 <= i < now.conflicts.len() ==> kept_locally(now.order, #[trigger] now.conflicts[i])
            &&& forall|k: Seq<char>| #[trigger]
                side_map::side_keys(now.order).contains(k) ==> own.contains(k) || keys.take(
                    n,
                ).contains(k)
            &&& forall|i: int|
                0 <= i < now.conflicts.len() ==> ((
                #[trigger] now.conflicts[i]) matches ConflictModel::DeletedLocally(k) ==> keys.take(
                    n,
                ).contains(k) && !own.contains(k))
            &&& forall|y: (Seq<char>, bool)|
                #[trigger] m.order.contains(y) ==> now.order.contains(y)
        }),
    decreases n,
{
    if n > 0 {
        lemma_remote_conflicts(m, baseline, own, remote, keys, n - 1);
        let before = remote_keys(m, baseline, own, remote, keys, n - 1);
        let now = remote_keys(m, baseline, own, remote, keys, n);
        let key = keys[n - 1];
        assert(keys.take(n)[n - 1] == key);
        assert forall|k: Seq<char>| keys.take(n - 1).contains(k) implies keys.take(n).contains(k)
            && k != key by {
            let part = keys.take(n - 1);
            let x = choose|x: int| 0 <= x < part.len() && part[x] == k;
            assert(keys.take(n)[x] == k);
            assert(keys[x] == k);
        }
        let grows = now.order != before.order;
        lemma_anchor(before.order, keys, n - 1);
        assert forall|y: (Seq<char>, bool)| before.order.contains(y) implies
            #[trigger] now.order.contains(y) by {
            if grows {
                match anchor(before.order, keys, n - 1) {
                    Some(at) => {
                        lemma_kept_by_insert(before.order, at + 1, (key, true), y);
                    },
                    None => {
                        lemma_kept_by_insert(before.order, 0, (key, true), y);
                    },
                }
            }
        }
        assert forall|k: Seq<char>| #[trigger]
            side_map::side_keys(now.order).contains(k) implies side_map::side_keys(
            before.order,
        ).contains(k) || (k == key && !own.contains(key)) by {
            if grows {
                match anchor(before.order, keys, n - 1) {
                    Some(at) => {
                        lemma_kept_by_insert(before.order, at + 1, (key, true), (k, false));
                    },
                    None => {
                        lemma_kept_by_insert(before.order, 0, (key, true), (k, false));
                    },
                }
            }
        }
        assert forall|i: int| 0 <= i < now.conflicts.len() implies kept_locally(
            now.order,
            #[trigger] now.conflicts[i],
        ) by {
            if i < before.conflicts.len() {
                assert(now.conflicts[i] == before.conflicts[i]);
                match now.conflicts[i] {
                    ConflictModel::DeletedLocally(k) => {
                        if side_map::side_keys(now.order).contains(k) {
                            assert(k == key);
                        }
                    },
                    _ => {},
                }
            } else {
                assert(!grows);
            }
        }
        assert forall|i: int| 0 <= i < now.conflicts.len() implies ((
        #[trigger] now.conflicts[i]) matches ConflictModel::DeletedLocally(k) ==> keys.take(
            n,
        ).contains(k) && !own.contains(k)) by {
            if i < before.conflicts.len() {
                assert(now.conflicts[i] == before.conflicts[i]);
            }
        }
    }
}

pub proof fn lemma_anchor(order: Seq<(Seq<char>, bool)>, keys: Seq<Seq<char>>, n: int)
    ensures
        anchor(order, keys, n) matches Some(at) ==> 0 <= at < order.len(),
    decreases n,
{
    if 0 < n <= keys.len() {
        lemma_anchor(order, keys, n - 1);
    }
}

/// Law: whatever a merge reports as a conflict of a key stays as it is locally: a
/// changed value is kept, a deletion stands.
pub proof fn law_conflicts_keep_the_local_side(
    baseline: Option<record::RecordModel>,
    local: document::DocumentModel,
    remote: document::DocumentModel,
)
    requires
        node::well_keyed(remote.root),
    ensures
        ({
            let m = merged_keys(baseline, local, remote);
            forall|i: int|
                0 <= i < m.conflicts.len() ==> kept_locally(m.order, #[trigger] m.conflicts[i])
        }),
{
    let (own, other) = (unit::unit_names(local), unit::unit_names(remote));
    let start = MergeModel { order: Seq::empty(), conflicts: Seq::empty() };
    lemma_local_conflicts(baseline, local, remote, own);
    lemma_remote_conflicts(
        local_keys(start, baseline, local, remote, own),
        baseline,
        own,
        remote,
        other,
        other.len() as int,
    );
}

/// Law: without a baseline every local key keeps its local value.
pub proof fn law_conservative_merge_keeps_local_values(
    local: document::DocumentModel,
    remote: document::DocumentModel,
)
    requires
        node::well_keyed(remote.root),
    ensures
        forall|i: int|
            0 <= i < unit::unit_names(local).len() && unit::unit_at(
                local,
                #[trigger] unit::unit_names(local)[i],
            ) is Some ==> merged_keys(None, local, remote).order.contains(
                (unit::unit_names(local)[i], false),
            ),
{
    let (own, other) = (unit::unit_names(local), unit::unit_names(remote));
    let start = MergeModel { order: Seq::empty(), conflicts: Seq::empty() };
    let m = local_keys(start, None, local, remote, own);
    lemma_local_conflicts(None, local, remote, own);
    lemma_remote_conflicts(m, None, own, remote, other, other.len() as int);
    assert forall|i: int|
        0 <= i < own.len() && unit::unit_at(local, #[trigger] own[i]) is Some implies merged_keys(
        None,
        local,
        remote,
    ).order.contains((own[i], false)) by {
        assert(m.order.contains((own[i], false)));
    }
}

/// Law: with the record of the last sync, the side that did not change yields. A unit
/// that is locally as it was takes the remote side, whatever that is; one that is
/// remotely as it was, and locally not, keeps the local side; and one that is neither
/// is a conflict.
pub proof fn law_unchanged_side_yields(
    base: document::DocumentModel,
    c: crate::baseline::cipher::CipherModel,
    salt: Seq<u8>,
    key: Seq<char>,
    local: Option<unit::UnitModel>,
    remote: Option<unit::UnitModel>,
)
    requires
        unit::unit_at(base, key) is Some,
    ensures
        ({
            let b = record::captured(base, c, salt);
            let decision = arbitrated(Some(b), key, local, remote);
            &&& local == unit::unit_at(base, key) ==> decision == Arbitration::TakeRemote
            &&& remote == unit::unit_at(base, key) && b.unit_match(key, local) != Some(true)
                ==> decision == Arbitration::KeepLocal
            &&& b.unit_match(key, local) != Some(true) && b.unit_match(key, remote) != Some(true)
                ==> decision == Arbitration::Conflict
        }),
{
    record::law_record_knows_its_units(base, c, salt, key);
}

proof fn lemma_reopened_keys(
    b: record::RecordModel,
    local: document::DocumentModel,
    remote: document::DocumentModel,
    c: crate::baseline::cipher::CipherModel,
    salt: Seq<u8>,
    keys: Seq<Seq<char>>,
)
    requires
        b == record::captured(remote, c, salt),
        record::told_apart(b, remote, local),
        forall|i: int| 0 <= i < keys.len() ==> unit::unit_at(local, #[trigger] keys[i]) is Some,
    ensures
        ({
            let start = MergeModel { order: Seq::empty(), conflicts: Seq::empty() };
            local_keys(start, Some(b), local, remote, keys) == (MergeModel {
                order: keys.map_values(|k: Seq<char>| (k, false)),
                conflicts: Seq::empty(),
            })
        }),
    decreases keys.len(),
{
    if keys.len() > 0 {
        let head = keys.drop_last();
        let key = keys.last();
        assert forall|i: int| 0 <= i < head.len() implies unit::unit_at(
            local,
            #[trigger] head[i],
        ) is Some by {
            assert(head[i] == keys[i]);
        }
        lemma_reopened_keys(b, local, remote, c, salt, head);
        assert(unit::unit_at(local, keys[keys.len() - 1]) is Some);
        record::law_record_knows_its_units(remote, c, salt, key);
        assert(head.map_values(|k: Seq<char>| (k, false)).push((key, false))
            =~= keys.map_values(|k: Seq<char>| (k, false)));
        if unit::unit_at(local, key) != unit::unit_at(remote, key) {
            assert(b.unit_match(key, unit::unit_at(local, key)) != Some(true));
        }
    } else {
        assert(keys.map_values(|k: Seq<char>| (k, false)) =~= Seq::<(Seq<char>, bool)>::empty());
    }
}

proof fn lemma_reopened_remote(
    m: MergeModel,
    b: record::RecordModel,
    own: Seq<Seq<char>>,
    remote: document::DocumentModel,
    c: crate::baseline::cipher::CipherModel,
    salt: Seq<u8>,
    keys: Seq<Seq<char>>,
    n: int,
)
    requires
        b == record::captured(remote, c, salt),
    ensures
        remote_keys(m, Some(b), own, remote, keys, n) == m,
    decreases n,
{
    if 0 < n <= keys.len() {
        lemma_reopened_remote(m, b, own, remote, c, salt, keys, n - 1);
        record::law_record_knows_its_units(remote, c, salt, keys[n - 1]);
    }
}

/// The lines of a document as a reader makes them: in a dotenv document one for each
/// key, in the order of the keys, and no template; in any other document none.
pub open spec fn lined(d: document::DocumentModel) -> bool {
    if d.format == SourceFormat::Dotenv {
        &&& d.layout.template is None
        &&& d.root matches node::Tree::Mapping(e) && e.len() == d.layout.dotenv.len() && forall|i: int|
            0 <= i < e.len() ==> (#[trigger] d.layout.dotenv[i]).key == e[i].0
    } else {
        d.layout.dotenv.len() == 0
    }
}

proof fn lemma_first_line(v: Seq<layout::DotenvModel>, key: Seq<char>, i: int)
    requires
        0 <= i < v.len(),
        v[i].key == key,
        forall|j: int| 0 <= j < i ==> (#[trigger] v[j]).key != key,
    ensures
        layout::assignment_of(v, key) == Some(v[i]),
    decreases i,
{
    if i > 0 {
        assert(v[0].key != key);
        let rest = v.skip(1);
        assert forall|j: int| 0 <= j < i - 1 implies (#[trigger] rest[j]).key != key by {
            assert(rest[j] == v[j + 1]);
        }
        lemma_first_line(rest, key, i - 1);
    }
}

/// The lines of the first `n` local keys are the first `n` local lines.
proof fn lemma_local_lines(
    local: document::DocumentModel,
    remote: document::DocumentModel,
    n: int,
)
    requires
        local.root is Mapping,
        node::well_keyed(local.root),
        lined(local),
        local.format != SourceFormat::Dotenv ==> remote.layout.dotenv.len() == 0,
        0 <= n <= local.root->Mapping_0.len(),
    ensures
        ({
            let order = node::keys(local.root->Mapping_0).take(n).map_values(
                |k: Seq<char>| (k, false),
            );
            merged_assignments(local, remote, order) == if local.format == SourceFormat::Dotenv {
                local.layout.dotenv.take(n)
            } else {
                Seq::empty()
            }
        }),
    decreases n,
{
    let e = local.root->Mapping_0;
    let keys = node::keys(e);
    let order = keys.take(n).map_values(|k: Seq<char>| (k, false));
    if n > 0 {
        lemma_local_lines(local, remote, n - 1);
        let head = keys.take(n - 1).map_values(|k: Seq<char>| (k, false));
        assert(order.drop_last() =~= head);
        let key = keys[n - 1];
        assert(order.last() == (key, false));
        if local.format == SourceFormat::Dotenv {
            let v = local.layout.dotenv;
            assert(v[n - 1].key == e[n - 1].0);
            assert forall|j: int| 0 <= j < n - 1 implies (#[trigger] v[j]).key != key by {
                assert(keys[j] != keys[n - 1]);
            }
            lemma_first_line(v, key, n - 1);
            assert(v.take(n - 1).push(v[n - 1]) =~= v.take(n));
        }
    } else {
        assert(order =~= Seq::<(Seq<char>, bool)>::empty());
        assert(merged_assignments(local, remote, order) =~= Seq::empty());
    }
}

/// A merge that keeps every local key, each with its local value, and the local residual
/// layout is the local document.
proof fn lemma_kept_document(local: document::DocumentModel, remote: document::DocumentModel)
    requires
        local.root is Mapping,
        node::well_keyed(local.root),
        lined(local),
        local.format != SourceFormat::Dotenv ==> remote.layout.dotenv.len() == 0,
    ensures
        ({
            let order = unit::unit_names(local).map_values(|k: Seq<char>| (k, false));
            &&& node::Tree::Mapping(merged_entries(local, remote, order)) == local.root
            &&& (layout::LayoutModel {
                dotenv: merged_assignments(local, remote, order),
                ..unit::residual(local)
            }) == local.layout
        }),
{
    let e = local.root->Mapping_0;
    let keys = node::keys(e);
    let order = keys.map_values(|k: Seq<char>| (k, false));
    lemma_local_lines(local, remote, keys.len() as int);
    assert(keys.take(keys.len() as int) =~= keys);
    let merged = merged_entries(local, remote, order);
    assert forall|i: int| 0 <= i < e.len() implies merged[i] == e[i] by {
        assert(keys[i] == e[i].0);
        node::lemma_position(e, keys[i]);
        let k = node::position(e, keys[i]) as int;
        assert(keys[k] == e[k].0);
    }
    assert(merged =~= e);
    let lines = merged_assignments(local, remote, order);
    if local.format == SourceFormat::Dotenv {
        assert(local.layout.dotenv.take(keys.len() as int) =~= local.layout.dotenv);
    } else {
        assert(lines =~= local.layout.dotenv);
    }
}

/// Law: opening again under the record that opening saved keeps every local edit. With
/// the record of the remote document the merge with that document has exactly the local
/// keys, each with its local value, the local residual layout, and no conflict, however
/// often it is repeated: a local change, addition or deletion stays local until it is
/// sealed. So, for documents with the lines that a reader makes, nothing is planned:
/// nothing is written and nothing is reported. The record must tell changed units apart.
pub proof fn law_local_edits_survive_opening(
    local: document::DocumentModel,
    remote: document::DocumentModel,
    c: crate::baseline::cipher::CipherModel,
    salt: Seq<u8>,
)
    requires
        record::told_apart(record::captured(remote, c, salt), remote, local),
    ensures
        forall|key: Seq<char>|
            unit::unit_at(local, key) != unit::unit_at(remote, key) ==> #[trigger] arbitrated(
                Some(record::captured(remote, c, salt)),
                key,
                unit::unit_at(local, key),
                unit::unit_at(remote, key),
            ) == Arbitration::KeepLocal,
        merged_keys(Some(record::captured(remote, c, salt)), local, remote) == (MergeModel {
            order: unit::unit_names(local).map_values(|k: Seq<char>| (k, false)),
            conflicts: Seq::empty(),
        }),
        merged_residual(Some(record::captured(remote, c, salt)), local, remote) == (
            unit::residual(local),
            false,
        ),
        local.root is Mapping && remote.root is Mapping ==> merged_documents(
            Some(record::captured(remote, c, salt)),
            local,
            remote,
        ).1 == Seq::<ConflictModel>::empty(),
        merged_whole(Some(record::captured(remote, c, salt)), local, remote) == (
            local,
            Seq::<ConflictModel>::empty(),
        ),
        node::well_keyed(local.root) && lined(local) && lined(remote) && local.format
            == remote.format ==> planned(
            Some(local),
            remote,
            Some(record::captured(remote, c, salt)),
        ) == (PlanModel { document: None, conflicts: Seq::empty() }),
{
    let b = record::captured(remote, c, salt);
    let (own, other) = (unit::unit_names(local), unit::unit_names(remote));
    let start = MergeModel { order: Seq::empty(), conflicts: Seq::empty() };
    assert forall|key: Seq<char>|
        unit::unit_at(local, key) != unit::unit_at(remote, key) implies #[trigger] arbitrated(
        Some(b),
        key,
        unit::unit_at(local, key),
        unit::unit_at(remote, key),
    ) == Arbitration::KeepLocal by {
        record::law_record_knows_its_units(remote, c, salt, key);
        assert(b.unit_match(key, unit::unit_at(local, key)) != Some(true));
    }
    assert forall|i: int| 0 <= i < own.len() implies unit::unit_at(
        local,
        #[trigger] own[i],
    ) is Some by {
        match local.root {
            node::Tree::Mapping(e) => {
                assert(own[i] == e[i].0);
                node::lemma_position(e, own[i]);
            },
            _ => {},
        }
    }
    lemma_reopened_keys(b, local, remote, c, salt, own);
    lemma_reopened_remote(
        local_keys(start, Some(b), local, remote, own),
        b,
        own,
        remote,
        c,
        salt,
        other,
        other.len() as int,
    );
    hash::lemma_hex(salt);
    if node::well_keyed(local.root) && lined(local) && lined(remote) && local.format
        == remote.format && local.root is Mapping && remote.root is Mapping {
        lemma_kept_document(local, remote);
    }
}

/// Law: a local file that agrees with the remote document is left alone, without
/// conflicts among its keys.
pub proof fn law_agreeing_units_merge_silently(
    baseline: Option<record::RecordModel>,
    d: document::DocumentModel,
    keys: Seq<Seq<char>>,
)
    requires
        forall|i: int| 0 <= i < keys.len() ==> unit::unit_at(d, #[trigger] keys[i]) is Some,
    ensures
        ({
            let start = MergeModel { order: Seq::empty(), conflicts: Seq::empty() };
            local_keys(start, baseline, d, d, keys) == (MergeModel {
                order: keys.map_values(|k: Seq<char>| (k, false)),
                conflicts: Seq::empty(),
            })
        }),
    decreases keys.len(),
{
    if keys.len() > 0 {
        let head = keys.drop_last();
        assert forall|i: int| 0 <= i < head.len() implies unit::unit_at(
            d,
            #[trigger] head[i],
        ) is Some by {
            assert(head[i] == keys[i]);
        }
        law_agreeing_units_merge_silently(baseline, d, head);
        assert(unit::unit_at(d, keys[keys.len() - 1]) is Some);
        assert(head.map_values(|k: Seq<char>| (k, false)).push((keys.last(), false))
            =~= keys.map_values(|k: Seq<char>| (k, false)));
    } else {
        assert(keys.map_values(|k: Seq<char>| (k, false)) =~= Seq::<(Seq<char>, bool)>::empty());
    }
}

fn merge_local_keys(
    local: &SourceDocument,
    remote: &SourceDocument,
    baseline: Option<&BaselineRecord>,
    keys: &Vec<String>,
    merged: &mut indexmap::IndexMap<String, bool>,
    conflicts: &mut Vec<OpenConflict>,
)
    requires
        local@.root is Mapping,
        text::texts(keys@) == unit::unit_names(local@),
        side_map::side_entries(*old(merged)).len() == 0,
        old(conflicts)@.len() == 0,
    ensures
        ({
            let m = local_keys(
                MergeModel { order: Seq::empty(), conflicts: Seq::empty() },
                view_baseline(baseline),
                local@,
                remote@,
                unit::unit_names(local@),
            );
            &&& side_map::side_entries(*final(merged)) == m.order
            &&& conflict_models(final(conflicts)@) == m.conflicts
            &&& sound_order(local@, remote@, m.order)
            &&& forall|i: int|
                0 <= i < m.order.len() ==> unit::unit_names(local@).contains(
                    (#[trigger] m.order[i]).0,
                )
        }),
{
    let ghost all = unit::unit_names(local@);
    let ghost b = view_baseline(baseline);
    let ghost start = MergeModel { order: Seq::empty(), conflicts: Seq::empty() };
    let _ = local.root();
    let mut i: usize = 0;
    assert(side_map::side_entries(*merged) =~= start.order);
    assert(conflict_models(conflicts@) =~= start.conflicts);
    while i < keys.len()
        invariant
            all == unit::unit_names(local@),
            all == text::texts(keys@),
            local@.root is Mapping,
            node::well_keyed(local@.root),
            b == view_baseline(baseline),
            start == (MergeModel { order: Seq::empty(), conflicts: Seq::empty() }),
            i <= keys.len(),
            ({
                let m = local_keys(start, b, local@, remote@, all.take(i as int));
                &&& side_map::side_entries(*merged) == m.order
                &&& conflict_models(conflicts@) == m.conflicts
                &&& sound_order(local@, remote@, m.order)
                &&& forall|k: int|
                    0 <= k < m.order.len() ==> all.take(i as int).contains(
                        (#[trigger] m.order[k]).0,
                    )
            }),
        decreases keys.len() - i,
    {
        let ghost before = local_keys(start, b, local@, remote@, all.take(i as int));
        let ghost key_text = keys@[i as int]@;
        let key = keys[i].as_str();
        let ghost given = conflicts@;
        proof {
            assert(all.take(i + 1).drop_last() =~= all.take(i as int));
            assert(all.take(i + 1).last() == key_text);
            assert(!side_map::side_keys(before.order).contains(key_text)) by {
                if side_map::side_keys(before.order).contains(key_text) {
                    let k = choose|k: int|
                        0 <= k < before.order.len() && side_map::side_keys(before.order)[k]
                            == key_text;
                    assert(all.take(i as int).contains(before.order[k].0));
                    let x = choose|x: int| 0 <= x < i && all.take(i as int)[x] == key_text;
                    assert(all[x] == all[i as int]);
                    assert(node::keys(local@.root->Mapping_0)[x] == node::keys(
                        local@.root->Mapping_0,
                    )[i as int]);
                }
            }
            if unit::unit_at(local@, key_text) is Some {
                lemma_order_push(
                    local@,
                    remote@,
                    before.order,
                    before.order.len() as int,
                    key_text,
                    false,
                );
            }
            if unit::unit_at(remote@, key_text) is Some {
                lemma_order_push(
                    local@,
                    remote@,
                    before.order,
                    before.order.len() as int,
                    key_text,
                    true,
                );
            }
        }
        let local_view = unit::unit_view(local, key);
        let remote_view = unit::unit_view(remote, key);
        match (&local_view, &remote_view) {
            (Some(l), Some(r)) => {
                if l.same(r) {
                    side_map::insert_side(merged, keys[i].clone(), false);
                } else {
                    match arbitrate(baseline, key, Some(l), Some(r)) {
                        Arbitration::TakeRemote => {
                            side_map::insert_side(merged, keys[i].clone(), true);
                        },
                        Arbitration::KeepLocal => {
                            side_map::insert_side(merged, keys[i].clone(), false);
                        },
                        Arbitration::Conflict => {
                            conflicts.push(OpenConflict::Key(keys[i].clone()));
                            side_map::insert_side(merged, keys[i].clone(), false);
                        },
                    }
                }
            },
            (Some(l), None) => {
                match arbitrate(baseline, key, Some(l), None) {
                    Arbitration::TakeRemote => {},
                    Arbitration::KeepLocal => {
                        side_map::insert_side(merged, keys[i].clone(), false);
                    },
                    Arbitration::Conflict => {
                        conflicts.push(OpenConflict::DeletedRemotely(keys[i].clone()));
                        side_map::insert_side(merged, keys[i].clone(), false);
                    },
                }
            },
            _ => {},
        }
        proof {
            let now = local_keys(start, b, local@, remote@, all.take(i + 1));
            assert(conflict_models(conflicts@) =~= now.conflicts) by {
                if conflicts@.len() > given.len() {
                    assert(conflict_models(conflicts@) =~= conflict_models(given).push(
                        conflicts@.last()@,
                    ));
                }
            }
            assert forall|k: int| 0 <= k < now.order.len() implies all.take(i + 1).contains(
                (#[trigger] now.order[k]).0,
            ) by {
                if k < before.order.len() {
                    assert(now.order[k] == before.order[k]);
                    let x = choose|x: int|
                        0 <= x < i && all.take(i as int)[x] == before.order[k].0;
                    assert(all.take(i + 1)[x] == now.order[k].0);
                } else {
                    assert(all.take(i + 1)[i as int] == key_text);
                }
            }
        }
        i = i + 1;
    }
    assert(all.take(i as int) =~= all);
}

fn find_anchor(
    merged: &indexmap::IndexMap<String, bool>,
    keys: &Vec<String>,
    n: usize,
) -> (r: Option<usize>)
    requires
        n <= keys@.len(),
    ensures
        match r {
            Some(at) => anchor(
                side_map::side_entries(*merged),
                text::texts(keys@),
                n as int,
            ) == Some(at as int) && at < side_map::side_entries(*merged).len() && at < usize::MAX,
            None => anchor(
                side_map::side_entries(*merged),
                text::texts(keys@),
                n as int,
            ) is None,
        },
{
    let ghost order = side_map::side_entries(*merged);
    let ghost all = text::texts(keys@);
    let mut i: usize = n;
    while i > 0
        invariant
            i <= n <= keys@.len(),
            order == side_map::side_entries(*merged),
            all == text::texts(keys@),
            anchor(order, all, i as int) == anchor(order, all, n as int),
        decreases i,
    {
        i = i - 1;
        assert(all[i as int] == keys@[i as int]@);
        match side_map::side_index(merged, keys[i].as_str()) {
            Some(at) => {
                return Some(at);
            },
            None => {},
        }
    }
    None
}

fn merge_remote_keys(
    local: &SourceDocument,
    remote: &SourceDocument,
    baseline: Option<&BaselineRecord>,
    own: &Vec<String>,
    keys: &Vec<String>,
    merged: &mut indexmap::IndexMap<String, bool>,
    conflicts: &mut Vec<OpenConflict>,
)
    requires
        remote@.root is Mapping,
        text::texts(keys@) == unit::unit_names(remote@),
        sound_order(local@, remote@, side_map::side_entries(*old(merged))),
        forall|i: int|
            0 <= i < side_map::side_entries(*old(merged)).len() ==> text::texts(own@).contains(
                (#[trigger] side_map::side_entries(*old(merged))[i]).0,
            ),
    ensures
        ({
            let m = remote_keys(
                MergeModel {
                    order: side_map::side_entries(*old(merged)),
                    conflicts: conflict_models(old(conflicts)@),
                },
                view_baseline(baseline),
                text::texts(own@),
                remote@,
                unit::unit_names(remote@),
                unit::unit_names(remote@).len() as int,
            );
            &&& side_map::side_entries(*final(merged)) == m.order
            &&& conflict_models(final(conflicts)@) == m.conflicts
            &&& sound_order(local@, remote@, m.order)
        }),
{
    let ghost all = unit::unit_names(remote@);
    let ghost mine = text::texts(own@);
    let ghost b = view_baseline(baseline);
    let ghost start = MergeModel {
        order: side_map::side_entries(*merged),
        conflicts: conflict_models(conflicts@),
    };
    let _ = remote.root();
    let mut i: usize = 0;
    while i < keys.len()
        invariant
            all == unit::unit_names(remote@),
            all == text::texts(keys@),
            mine == text::texts(own@),
            remote@.root is Mapping,
            node::well_keyed(remote@.root),
            b == view_baseline(baseline),
            i <= keys.len(),
            ({
                let m = remote_keys(start, b, mine, remote@, all, i as int);
                &&& side_map::side_entries(*merged) == m.order
                &&& conflict_models(conflicts@) == m.conflicts
                &&& sound_order(local@, remote@, m.order)
                &&& forall|k: int|
                    0 <= k < m.order.len() ==> mine.contains((#[trigger] m.order[k]).0)
                        || all.take(i as int).contains(m.order[k].0)
            }),
        decreases keys.len() - i,
    {
        let ghost before = remote_keys(start, b, mine, remote@, all, i as int);
        let ghost key_text = keys@[i as int]@;
        let ghost given = conflicts@;
        assert(all[i as int] == key_text);
        let key = keys[i].as_str();
        if !text::contains_text(own.as_slice(), key) {
            proof {
                assert(!side_map::side_keys(before.order).contains(key_text)) by {
                    if side_map::side_keys(before.order).contains(key_text) {
                        let k = choose|k: int|
                            0 <= k < before.order.len() && side_map::side_keys(before.order)[k]
                                == key_text;
                        assert(before.order[k].0 == key_text);
                        let x = choose|x: int| 0 <= x < i && all.take(i as int)[x] == key_text;
                        assert(all[x] == all[i as int]);
                        assert(node::keys(remote@.root->Mapping_0)[x] == node::keys(
                            remote@.root->Mapping_0,
                        )[i as int]);
                    }
                }
            }
            match unit::unit_view(remote, key) {
                None => {},
                Some(view) => match arbitrate(baseline, key, None, Some(&view)) {
                    Arbitration::TakeRemote => {
                        match find_anchor(merged, keys, i) {
                            Some(at) => {
                                proof {
                                    lemma_order_push(
                                        local@,
                                        remote@,
                                        before.order,
                                        at + 1,
                                        key_text,
                                        true,
                                    );
                                }
                                side_map::shift_insert_side(merged, at + 1, keys[i].clone(), true);
                            },
                            None => {
                                proof {
                                    lemma_order_push(
                                        local@,
                                        remote@,
                                        before.order,
                                        before.order.len() as int,
                                        key_text,
                                        true,
                                    );
                                }
                                side_map::insert_side(merged, keys[i].clone(), true);
                            },
                        }
                    },
                    Arbitration::KeepLocal => {},
                    Arbitration::Conflict => {
                        conflicts.push(OpenConflict::DeletedLocally(keys[i].clone()));
                        assert(conflict_models(conflicts@) =~= conflict_models(given).push(
                            ConflictModel::DeletedLocally(key_text),
                        ));
                    },
                },
            }
        }
        proof {
            let now = remote_keys(start, b, mine, remote@, all, i + 1);
            assert forall|k: int| 0 <= k < now.order.len() implies mine.contains(
                (#[trigger] now.order[k]).0,
            ) || all.take(i + 1).contains(now.order[k].0) by {
                lemma_new_keys(before.order, now.order, key_text, k, all, i as int, mine);
            }
        }
        i = i + 1;
    }
}

/// A key of a longer order is a new one or one of the shorter.
proof fn lemma_new_keys(
    before: Seq<(Seq<char>, bool)>,
    now: Seq<(Seq<char>, bool)>,
    key: Seq<char>,
    k: int,
    all: Seq<Seq<char>>,
    n: int,
    mine: Seq<Seq<char>>,
)
    requires
        0 <= n < all.len(),
        all[n] == key,
        0 <= k < now.len(),
        now == before || (exists|at: int|
            0 <= at <= before.len() && now == #[trigger] before.insert(at, (key, true))) || now
            == before.push((key, true)),
        forall|j: int|
            0 <= j < before.len() ==> mine.contains((#[trigger] before[j]).0) || all.take(
                n,
            ).contains(before[j].0),
    ensures
        mine.contains(now[k].0) || all.take(n + 1).contains(now[k].0),
{
    assert(all.take(n + 1)[n] == key);
    assert(all.take(n + 1).contains(key));
    assert forall|s: Seq<char>| all.take(n).contains(s) implies all.take(n + 1).contains(s) by {
        let x = choose|x: int| 0 <= x < n && all.take(n)[x] == s;
        assert(all.take(n + 1)[x] == s);
    }
    if now == before {
    } else if now == before.push((key, true)) {
        if k < before.len() {
            assert(now[k] == before[k]);
        }
    } else {
        let at = choose|at: int|
            0 <= at <= before.len() && now == #[trigger] before.insert(at, (key, true));
        if k < at {
            assert(now[k] == before[k]);
        } else if k > at {
            assert(now[k] == before[k - 1]);
        }
    }
}

fn choose_residual_layout(
    local: &SourceDocument,
    remote: &SourceDocument,
    baseline: Option<&BaselineRecord>,
    conflicts: &mut Vec<OpenConflict>,
) -> (r: Layout)
    ensures
        ({
            let (residual, both) = merged_residual(view_baseline(baseline), local@, remote@);
            &&& r@ == residual
            &&& conflict_models(final(conflicts)@) == if both {
                conflict_models(old(conflicts)@).push(ConflictModel::Layout)
            } else {
                conflict_models(old(conflicts)@)
            }
        }),
{
    let local_residual = unit::residual_layout(local);
    let remote_residual = unit::residual_layout(remote);
    if local_residual.same(&remote_residual) {
        return local_residual;
    }
    match baseline {
        None => local_residual,
        Some(b) => {
            if b.residual_layout_matches(local) {
                return remote_residual;
            }
            if b.residual_layout_matches(remote) {
                return local_residual;
            }
            let ghost given = conflicts@;
            conflicts.push(OpenConflict::Layout);
            assert(conflict_models(conflicts@) =~= conflict_models(given).push(
                ConflictModel::Layout,
            ));
            local_residual
        },
    }
}

/// Builds the final layout: the residual winner plus each merged key's entry
/// from its chosen side, falling back to the other side's entry.
fn assemble_layout(
    order: &Vec<(String, bool)>,
    residual: Layout,
    local: &SourceDocument,
    remote: &SourceDocument,
) -> (r: Layout)
    ensures
        r@ == (layout::LayoutModel {
            dotenv: merged_assignments(local@, remote@, side_map::view_sides(order@)),
            ..residual@
        }),
{
    let ghost all = side_map::view_sides(order@);
    let mut entries: Vec<DotenvLayout> = Vec::new();
    let mut i: usize = 0;
    assert(layout::assignments(entries@) =~= Seq::<layout::DotenvModel>::empty());
    while i < order.len()
        invariant
            all == side_map::view_sides(order@),
            i <= order.len(),
            layout::assignments(entries@) == merged_assignments(
                local@,
                remote@,
                all.take(i as int),
            ),
        decreases order.len() - i,
    {
        assert(all.take(i + 1).drop_last() =~= all.take(i as int));
        assert(all.take(i + 1).last() == (order@[i as int].0@, order@[i as int].1));
        let key = order[i].0.as_str();
        let (first, second) = if order[i].1 {
            (remote, local)
        } else {
            (local, remote)
        };
        let found = match layout::find_assignment(first.layout().dotenv(), key) {
            Some(entry) => Some(entry),
            None => layout::find_assignment(second.layout().dotenv(), key),
        };
        match found {
            Some(entry) => {
                let ghost before = entries@;
                entries.push(entry.clone());
                assert(layout::assignments(entries@) =~= layout::assignments(before).push(entry@));
            },
            None => {},
        }
        i = i + 1;
    }
    assert(all.take(i as int) =~= all);
    let mut r = residual;
    r.set_dotenv(entries);
    r
}

pub fn merge_documents(
    local: &SourceDocument,
    remote: &SourceDocument,
    baseline: Option<&BaselineRecord>,
) -> (r: (SourceDocument, Vec<OpenConflict>))
    requires
        local@.root is Mapping,
        remote@.root is Mapping,
        node::named_tags(local@.root),
        node::named_tags(remote@.root),
    ensures
        (r.0@, conflict_models(r.1@)) == merged_documents(view_baseline(baseline), local@, remote@),
        node::named_tags(r.0@.root),
{
    let _ = local.root();
    let _ = remote.root();
    let own = unit::list_units(local);
    let other = unit::list_units(remote);
    let mut merged = side_map::side_map();
    let mut conflicts: Vec<OpenConflict> = Vec::new();
    merge_local_keys(local, remote, baseline, &own, &mut merged, &mut conflicts);
    merge_remote_keys(local, remote, baseline, &own, &other, &mut merged, &mut conflicts);
    let residual = choose_residual_layout(local, remote, baseline, &mut conflicts);
    let order = side_map::list_sides(&merged);
    let ghost all = side_map::view_sides(order@);
    let layout = assemble_layout(&order, residual, local, remote);
    let mut entries: Vec<(String, Node)> = Vec::new();
    let mut i: usize = 0;
    while i < order.len()
        invariant
            all == side_map::view_sides(order@),
            sound_order(local@, remote@, all),
            i <= order.len(),
            entries@.len() == i,
            forall|j: int|
                0 <= j < i ==> (#[trigger] entries@[j]).0@ == all[j].0 && entries@[j].1@
                    == side_value(local@, remote@, all[j].0, all[j].1),
        decreases order.len() - i,
    {
        assert(all[i as int] == (order@[i as int].0@, order@[i as int].1));
        let side = if order[i].1 {
            remote
        } else {
            local
        };
        match unit::unit_view(side, order[i].0.as_str()) {
            Some(view) => {
                entries.push((order[i].0.clone(), view.node().clone()));
            },
            None => {
                assert(false);
            },
        }
        i = i + 1;
    }
    let root = Node::Mapping(entries);
    proof {
        node::lemma_view(root);
        assert(node::entries(entries@) =~= merged_entries(local@, remote@, all));
        lemma_merged_entries(local@, remote@, all);
    }
    (SourceDocument::new(local.format(), root, layout), conflicts)
}

pub fn merge_whole_document(
    local: &SourceDocument,
    remote: &SourceDocument,
    baseline: Option<&BaselineRecord>,
) -> (r: (SourceDocument, Vec<OpenConflict>))
    ensures
        (r.0@, conflict_models(r.1@)) == merged_whole(view_baseline(baseline), local@, remote@),
{
    let none: Vec<OpenConflict> = Vec::new();
    assert(conflict_models(none@) =~= Seq::<ConflictModel>::empty());
    let l = unit::unit_view(local, unit::ROOT_UNIT);
    let r = unit::unit_view(remote, unit::ROOT_UNIT);
    let same: bool = match (&l, &r) {
        (Some(a), Some(b)) => a.same(b),
        (None, None) => true,
        _ => false,
    };
    if same {
        return (local.clone(), none);
    }
    match arbitrate(baseline, unit::ROOT_UNIT, l.as_ref(), r.as_ref()) {
        Arbitration::TakeRemote => (remote.clone(), none),
        Arbitration::KeepLocal => (local.clone(), none),
        Arbitration::Conflict => {
            let mut conflicts: Vec<OpenConflict> = Vec::new();
            conflicts.push(OpenConflict::Key(unit::ROOT_UNIT.to_owned()));
            assert(conflict_models(conflicts@) =~= seq![ConflictModel::Key("$"@)]);
            (local.clone(), conflicts)
        },
    }
}

pub struct OpenPlan {
    /// Document to write to the plaintext file; `None` leaves the file as is.
    pub document: Option<SourceDocument>,
    pub conflicts: Vec<OpenConflict>,
}

pub open spec fn view_document(d: Option<SourceDocument>) -> Option<document::DocumentModel> {
    match d {
        Some(d) => Some(d@),
        None => None,
    }
}

pub open spec fn view_local(d: Option<&SourceDocument>) -> Option<document::DocumentModel> {
    match d {
        Some(d) => Some(d@),
        None => None,
    }
}

impl View for OpenPlan {
    type V = PlanModel;

    open spec fn view(&self) -> PlanModel {
        PlanModel {
            document: view_document(self.document),
            conflicts: conflict_models(self.conflicts@),
        }
    }
}

pub fn plan_open(
    local: Option<&SourceDocument>,
    remote: &SourceDocument,
    baseline: Option<&BaselineRecord>,
) -> (r: OpenPlan)
    requires
        local matches Some(l) ==> node::named_tags(l@.root),
        node::named_tags(remote@.root),
    ensures
        r@ == planned(view_local(local), remote@, view_baseline(baseline)),
        r.document matches Some(d) ==> node::named_tags(d@.root),
{
    let local = match local {
        Some(local) => local,
        None => {
            let conflicts: Vec<OpenConflict> = Vec::new();
            assert(conflict_models(conflicts@) =~= Seq::<ConflictModel>::empty());
            return OpenPlan { document: Some(remote.clone()), conflicts };
        },
    };
    let both: bool = match (local.root(), remote.root()) {
        (Node::Mapping(_), Node::Mapping(_)) => true,
        _ => false,
    };
    let (document, conflicts) = if both {
        merge_documents(local, remote, baseline)
    } else {
        merge_whole_document(local, remote, baseline)
    };
    if document.semantic_eq(local) {
        return OpenPlan { document: None, conflicts };
    }
    match document.generate() {
        Ok(_) => OpenPlan { document: Some(document), conflicts },
        Err(_) => {
            let mut conflicts = conflicts;
            let ghost given = conflicts@;
            conflicts.push(OpenConflict::Unmergeable);
            assert(conflict_models(conflicts@) =~= conflict_models(given).push(
                ConflictModel::Unmergeable,
            ));
            OpenPlan { document: None, conflicts }
        },
    }
}

} // verus!
