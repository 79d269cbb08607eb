//! Keys in order, each with the side that its value comes from.

use vstd::prelude::*;

verus! {

/// The entries of a map in order: each key, and whether its value is the remote one.
/// No key stands twice.
pub uninterp spec fn side_entries(m: indexmap::IndexMap<String, bool>) -> Seq<(Seq<char>, bool)>;

pub open spec fn side_keys(e: Seq<(Seq<char>, bool)>) -> Seq<Seq<char>> {
    e.map_values(|x: (Seq<char>, bool)| x.0)
}

/// The position of a key, or the number of entries.
pub open spec fn side_position(e: Seq<(Seq<char>, bool)>, key: Seq<char>) -> nat
    decreases e.len(),
{
    if e.len() == 0 || e[0].0 == key {
        0
    } else {
        1 + side_position(e.skip(1), key)
    }
}

pub proof fn lemma_side_position(e: Seq<(Seq<char>, bool)>, key: Seq<char>)
    ensures
        side_position(e, key) <= e.len(),
        side_position(e, key) < e.len() ==> e[side_position(e, key) as int].0 == key,
        side_position(e, key) < e.len() <==> side_keys(e).contains(key),
    decreases e.len(),
{
    if e.len() > 0 && e[0].0 != key {
        let rest = e.skip(1);
        lemma_side_position(rest, key);
        if side_keys(e).contains(key) {
            let k = choose|k: int| 0 <= k < side_keys(e).len() && side_keys(e)[k] == key;
            assert(side_keys(rest)[k - 1] == key);
        }
        if side_keys(rest).contains(key) {
            let k = choose|k: int| 0 <= k < side_keys(rest).len() && side_keys(rest)[k] == key;
            assert(side_keys(e)[k + 1] == key);
        }
    } else if e.len() > 0 {
        assert(side_keys(e)[0] == key);
    }
}

pub open spec fn view_sides(v: Seq<(String, bool)>) -> Seq<(Seq<char>, bool)> {
    v.map_values(|x: (String, bool)| (x.0@, x.1))
}

/// `indexmap::IndexMap::new`.
#[verifier::external_body]
pub(crate) fn side_map() -> (r: indexmap::IndexMap<String, bool>)
    ensures
        side_entries(r) == Seq::<(Seq<char>, bool)>::empty(),
{
    indexmap::IndexMap::new()
}

/// `indexmap::IndexMap::insert` of a new key, which goes to the end.
#[verifier::external_body]
pub(crate) fn insert_side(m: &mut indexmap::IndexMap<String, bool>, key: String, remote: bool)
    requires
        !side_keys(side_entries(*old(m))).contains(key@),
    ensures
        side_entries(*final(m)) == side_entries(*old(m)).push((key@, remote)),
{
    m.insert(key, remote);
}

/// `indexmap::IndexMap::shift_insert` of a new key at a position up to the end; what
/// stands there and behind moves on by one.
#[verifier::external_body]
pub(crate) fn shift_insert_side(
    m: &mut indexmap::IndexMap<String, bool>,
    at: usize,
    key: String,
    remote: bool,
)
    requires
        at <= side_entries(*old(m)).len(),
        !side_keys(side_entries(*old(m))).contains(key@),
    ensures
        side_entries(*final(m)) == side_entries(*old(m)).insert(at as int, (key@, remote)),
{
    m.shift_insert(at, key, remote);
}

/// `indexmap::IndexMap::get_index_of`. The entries stand in a vector, so that an
/// index is never the largest number.
#[verifier::external_body]
pub(crate) fn side_index(m: &indexmap::IndexMap<String, bool>, key: &str) -> (r: Option<usize>)
    ensures
        match r {
            Some(i) => i < side_entries(*m).len() && i == side_position(side_entries(*m), key@) && i
                < usize::MAX,
            None => side_position(side_entries(*m), key@) == side_entries(*m).len() && r.is_none(),
        },
{
    m.get_index_of(key)
}

/// `indexmap::IndexMap::iter`: the entries in order, each copied.
#[verifier::external_body]
pub(crate) fn list_sides(m: &indexmap::IndexMap<String, bool>) -> (r: Vec<(String, bool)>)
    ensures
        view_sides(r@) == side_entries(*m),
{
    m.iter().map(|(key, remote)| (key.clone(), *remote)).collect()
}

} // verus!
