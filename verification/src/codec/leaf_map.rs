//! The encrypted leaves of an envelope, by path, in the order of the file.

use vstd::prelude::*;

verus! {

#[verifier::external_type_specification]
#[verifier::external_body]
#[verifier::reject_recursive_types(K)]
#[verifier::reject_recursive_types(V)]
#[verifier::reject_recursive_types(S)]
pub struct ExIndexMap<K, V, S>(indexmap::IndexMap<K, V, S>);

/// The entries of a map of texts in order. No key stands twice.
pub uninterp spec fn leaf_entries(m: indexmap::IndexMap<String, String>) -> Seq<
    (Seq<char>, Seq<char>),
>;

/// The position of a key, or the number of entries.
pub open spec fn leaf_position(e: Seq<(Seq<char>, Seq<char>)>, key: Seq<char>) -> nat
    decreases e.len(),
{
    if e.len() == 0 || e[0].0 == key {
        0
    } else {
        1 + leaf_position(e.skip(1), key)
    }
}

/// The entries after a value was put in: a known key keeps its position.
pub open spec fn with_leaf(
    e: Seq<(Seq<char>, Seq<char>)>,
    key: Seq<char>,
    value: Seq<char>,
) -> Seq<(Seq<char>, Seq<char>)> {
    let at = leaf_position(e, key) as int;
    if at < e.len() {
        e.update(at, (key, value))
    } else {
        e.push((key, value))
    }
}

pub open spec fn view_leaves(v: Seq<(String, String)>) -> Seq<(Seq<char>, Seq<char>)> {
    v.map_values(|x: (String, String)| (x.0@, x.1@))
}

/// The same values under the same keys, in any order.
pub open spec fn same_leaves(
    a: Seq<(Seq<char>, Seq<char>)>,
    b: Seq<(Seq<char>, Seq<char>)>,
) -> bool {
    a.len() == b.len() && forall|i: int| 0 <= i < a.len() ==> b.contains(#[trigger] a[i])
}

/// `indexmap::IndexMap::new`.
#[verifier::external_body]
pub(crate) fn leaf_map() -> (r: indexmap::IndexMap<String, String>)
    ensures
        leaf_entries(r) == Seq::<(Seq<char>, Seq<char>)>::empty(),
{
    indexmap::IndexMap::new()
}

/// `indexmap::IndexMap::insert`: a new key goes to the end, a known one keeps its
/// position and gets the new value.
#[verifier::external_body]
pub(crate) fn insert_leaf(m: &mut indexmap::IndexMap<String, String>, key: String, value: String)
    ensures
        leaf_entries(*final(m)) == with_leaf(leaf_entries(*old(m)), key@, value@),
{
    m.insert(key, value);
}

/// `indexmap::IndexMap::iter`: the entries in order, each copied.
#[verifier::external_body]
pub(crate) fn list_leaves(m: &indexmap::IndexMap<String, String>) -> (r: Vec<(String, String)>)
    ensures
        view_leaves(r@) == leaf_entries(*m),
{
    m.iter().map(|(key, value)| (key.clone(), value.clone())).collect()
}

/// `==` of `indexmap::IndexMap`: the same values under the same keys.
#[verifier::external_body]
pub(crate) fn equal_leaves(
    a: &indexmap::IndexMap<String, String>,
    b: &indexmap::IndexMap<String, String>,
) -> (r: bool)
    ensures
        r == same_leaves(leaf_entries(*a), leaf_entries(*b)),
{
    a == b
}

} // verus!
