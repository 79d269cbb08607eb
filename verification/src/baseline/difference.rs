//! What the difference of a document or a ciphertext from its record says.

use vstd::prelude::*;

use crate::baseline::cipher;
use crate::baseline::record;
use crate::baseline::unit;
use crate::codec::hash;
use crate::source::document;
use crate::source::node;
use crate::text_map;

verus! {

/// A list holds a key.
pub open spec fn has_key(e: Seq<(Seq<char>, Seq<char>)>, key: Seq<char>) -> bool {
    exists|i: int| 0 <= i < e.len() && (#[trigger] e[i]).0 == key
}

/// Keys in their order, each once.
pub open spec fn sorted(keys: Seq<Seq<char>>) -> bool {
    forall|i: int, j: int|
        0 <= i < j < keys.len() ==> text_map::less(#[trigger] keys[i], #[trigger] keys[j])
}

proof fn lemma_has_key(e: Seq<(Seq<char>, Seq<char>)>, key: Seq<char>)
    ensures
        text_map::value_at(e, key) is Some <==> has_key(e, key),
    decreases e.len(),
{
    if e.len() > 0 {
        let rest = e.skip(1);
        lemma_has_key(rest, key);
        if e[0].0 == key {
            assert(has_key(e, key));
        } else {
            if has_key(rest, key) {
                let i = choose|i: int| 0 <= i < rest.len() && (#[trigger] rest[i]).0 == key;
                assert(e[i + 1] == rest[i]);
            }
            if has_key(e, key) {
                let i = choose|i: int| 0 <= i < e.len() && (#[trigger] e[i]).0 == key;
                assert(rest[i - 1] == e[i]);
            }
        }
    }
}

proof fn lemma_ordered_head(e: Seq<(Seq<char>, Seq<char>)>)
    requires
        text_map::ordered(e),
        e.len() > 0,
    ensures
        text_map::ordered(e.drop_last()),
        forall|i: int|
            0 <= i < e.len() - 1 ==> text_map::less((#[trigger] e.drop_last()[i]).0, e.last().0),
{
    let head = e.drop_last();
    assert forall|i: int, j: int| 0 <= i < j < head.len() implies text_map::less(
        (#[trigger] head[i]).0,
        (#[trigger] head[j]).0,
    ) by {
        assert(head[i] == e[i] && head[j] == e[j]);
    }
    assert forall|i: int| 0 <= i < e.len() - 1 implies text_map::less(
        (#[trigger] head[i]).0,
        e.last().0,
    ) by {
        assert(head[i] == e[i]);
        assert(text_map::less(e[i].0, e[e.len() - 1].0));
    }
}

proof fn lemma_pushed(keys: Seq<Seq<char>>, x: Seq<char>, key: Seq<char>)
    ensures
        keys.push(x).contains(key) <==> keys.contains(key) || key == x,
{
    let more = keys.push(x);
    if keys.contains(key) {
        let i = choose|i: int| 0 <= i < keys.len() && keys[i] == key;
        assert(more[i] == key);
    }
    if key == x {
        assert(more[keys.len() as int] == key);
    }
    if more.contains(key) && key != x {
        let i = choose|i: int| 0 <= i < more.len() && more[i] == key;
        assert(keys[i] == key);
    }
}

proof fn lemma_missing_keys(
    from: Seq<(Seq<char>, Seq<char>)>,
    list: Seq<(Seq<char>, Seq<char>)>,
    key: Seq<char>,
)
    ensures
        record::missing_keys(from, list).contains(key) <==> has_key(list, key)
            && text_map::value_at(from, key) is None,
    decreases list.len(),
{
    if list.len() > 0 {
        let head = list.drop_last();
        let last = list.last();
        lemma_missing_keys(from, head, key);
        lemma_pushed(record::missing_keys(from, head), last.0, key);
        if has_key(head, key) {
            let i = choose|i: int| 0 <= i < head.len() && (#[trigger] head[i]).0 == key;
            assert(list[i] == head[i]);
        }
        if last.0 == key {
            assert(list[list.len() - 1].0 == key);
        }
        if has_key(list, key) && last.0 != key {
            let i = choose|i: int| 0 <= i < list.len() && (#[trigger] list[i]).0 == key;
            assert(head[i] == list[i]);
        }
    }
}

proof fn lemma_changed_keys(
    recorded: Seq<(Seq<char>, Seq<char>)>,
    current: Seq<(Seq<char>, Seq<char>)>,
    key: Seq<char>,
)
    requires
        text_map::ordered(current),
    ensures
        record::changed_keys(recorded, current).contains(key) <==> text_map::value_at(
            recorded,
            key,
        ) is Some && text_map::value_at(current, key) is Some && text_map::value_at(recorded, key)
            != text_map::value_at(current, key),
    decreases current.len(),
{
    if current.len() > 0 {
        let head = current.drop_last();
        let last = current.last();
        lemma_ordered_head(current);
        lemma_changed_keys(recorded, head, key);
        lemma_pushed(record::changed_keys(recorded, head), last.0, key);
        lemma_value_last(current, key);
        text_map::lemma_less_total(last.0, last.0);
        lemma_has_key(head, key);
    }
}

proof fn lemma_value_last(e: Seq<(Seq<char>, Seq<char>)>, key: Seq<char>)
    requires
        text_map::ordered(e),
        e.len() > 0,
    ensures
        text_map::value_at(e, key) == if e.last().0 == key {
            Some(e.last().1)
        } else {
            text_map::value_at(e.drop_last(), key)
        },
        e.last().0 == key ==> text_map::value_at(e.drop_last(), key) is None,
{
    let head = e.drop_last();
    let n = e.len() - 1;
    lemma_ordered_head(e);
    lemma_has_key(e, key);
    lemma_has_key(head, key);
    if e.last().0 == key {
        text_map::lemma_value_at(e, n);
        if has_key(head, key) {
            let i = choose|i: int| 0 <= i < head.len() && (#[trigger] head[i]).0 == key;
            text_map::lemma_less_total(key, key);
        }
    } else if has_key(e, key) {
        let i = choose|i: int| 0 <= i < e.len() && (#[trigger] e[i]).0 == key;
        assert(head[i] == e[i]);
        text_map::lemma_value_at(e, i);
        text_map::lemma_value_at(head, i);
    } else if has_key(head, key) {
        let i = choose|i: int| 0 <= i < head.len() && (#[trigger] head[i]).0 == key;
        assert(e[i] == head[i]);
    }
}

proof fn lemma_sorted_push(keys: Seq<Seq<char>>, x: Seq<char>)
    requires
        sorted(keys),
        forall|i: int| 0 <= i < keys.len() ==> text_map::less(#[trigger] keys[i], x),
    ensures
        sorted(keys.push(x)),
{
    let more = keys.push(x);
    assert forall|i: int, j: int| 0 <= i < j < more.len() implies text_map::less(
        #[trigger] more[i],
        #[trigger] more[j],
    ) by {
        assert(more[i] == keys[i]);
        if j < keys.len() {
            assert(more[j] == keys[j]);
        }
    }
}

proof fn lemma_sorted(
    recorded: Seq<(Seq<char>, Seq<char>)>,
    current: Seq<(Seq<char>, Seq<char>)>,
)
    requires
        text_map::ordered(current),
    ensures
        sorted(record::missing_keys(recorded, current)),
        sorted(record::changed_keys(recorded, current)),
    decreases current.len(),
{
    if current.len() > 0 {
        let head = current.drop_last();
        lemma_ordered_head(current);
        lemma_sorted(recorded, head);
        let (a, b) = (record::missing_keys(recorded, head), record::changed_keys(recorded, head));
        assert forall|i: int| 0 <= i < a.len() implies text_map::less(
            #[trigger] a[i],
            current.last().0,
        ) by {
            assert(a.contains(a[i]));
            lemma_missing_keys(recorded, head, a[i]);
        }
        assert forall|i: int| 0 <= i < b.len() implies text_map::less(
            #[trigger] b[i],
            current.last().0,
        ) by {
            assert(b.contains(b[i]));
            lemma_changed_keys(recorded, head, b[i]);
            lemma_has_key(head, b[i]);
        }
        lemma_sorted_push(a, current.last().0);
        lemma_sorted_push(b, current.last().0);
    }
}

proof fn lemma_digests_ordered(d: document::DocumentModel, salt: Seq<u8>, n: int)
    ensures
        text_map::ordered(record::plain_digests(d, salt, n)),
    decreases n,
{
    if 0 < n <= unit::unit_names(d).len() {
        lemma_digests_ordered(d, salt, n - 1);
        let key = unit::unit_names(d)[n - 1];
        match unit::unit_at(d, key) {
            Some(u) => {
                text_map::lemma_with_value(
                    record::plain_digests(d, salt, n - 1),
                    key,
                    record::unit_digest(salt, key, u),
                );
            },
            None => {},
        }
    }
}

/// The digest that is recorded of a unit.
proof fn lemma_recorded(d: document::DocumentModel, salt: Seq<u8>, key: Seq<char>)
    ensures
        text_map::value_at(record::document_digests(d, salt), key) == match unit::unit_at(d, key) {
            Some(u) => Some(record::unit_digest(salt, key, u)),
            None => None,
        },
{
    let names = unit::unit_names(d);
    record::lemma_plain_digests(d, salt, names.len() as int, key);
    assert(names.take(names.len() as int) =~= names);
    match d.root {
        node::Tree::Mapping(e) => {
            node::lemma_position(e, key);
        },
        _ => {
            assert(names[0] == "$"@);
        },
    }
}

/// Law: the difference of a document from a record names exactly the units that differ
/// from the recorded document: those that it has and the record has not, those that the
/// record has and it has not, and those that both have with other content; each list in
/// the order of its keys. The layout changed exactly if the residual layouts differ. The
/// record must tell changed units apart.
pub proof fn law_difference_names_the_units(
    base: document::DocumentModel,
    c: cipher::CipherModel,
    salt: Seq<u8>,
    d: document::DocumentModel,
    key: Seq<char>,
)
    requires
        record::told_apart(record::captured(base, c, salt), base, d),
    ensures
        ({
            let diff = record::captured(base, c, salt).plain_diff(d);
            let (o, n) = (unit::unit_at(base, key), unit::unit_at(d, key));
            &&& diff.added.contains(key) <==> o is None && n is Some
            &&& diff.removed.contains(key) <==> o is Some && n is None
            &&& diff.changed.contains(key) <==> o is Some && n is Some && o != n
            &&& sorted(diff.added) && sorted(diff.removed) && sorted(diff.changed)
            &&& diff.layout_changed <==> unit::residual(base) != unit::residual(d)
        }),
{
    let b = record::captured(base, c, salt);
    hash::lemma_hex(salt);
    let old_digests = record::document_digests(base, salt);
    let new_digests = record::document_digests(d, salt);
    lemma_recorded(base, salt, key);
    lemma_recorded(d, salt, key);
    lemma_digests_ordered(base, salt, unit::unit_names(base).len() as int);
    lemma_digests_ordered(d, salt, unit::unit_names(d).len() as int);
    lemma_missing_keys(old_digests, new_digests, key);
    lemma_missing_keys(new_digests, old_digests, key);
    lemma_has_key(old_digests, key);
    lemma_has_key(new_digests, key);
    lemma_changed_keys(old_digests, new_digests, key);
    lemma_sorted(old_digests, new_digests);
    lemma_sorted(new_digests, old_digests);
    assert(unit::unit_at(d, key) != unit::unit_at(base, key) ==> b.unit_match(
        key,
        unit::unit_at(d, key),
    ) != Some(true));
}

/// A salt tells the fingerprints of one ciphertext from those of another.
pub open spec fn fingerprints_apart(
    salt: Seq<u8>,
    a: cipher::CipherModel,
    b: cipher::CipherModel,
) -> bool {
    &&& forall|name: Seq<char>|
        text_map::value_at(a.units, name) is Some && text_map::value_at(b.units, name) is Some
            && #[trigger] record::cipher_digest(
            salt,
            name,
            text_map::value_at(a.units, name)->Some_0,
        ) == record::cipher_digest(salt, name, text_map::value_at(b.units, name)->Some_0)
            ==> text_map::value_at(a.units, name) == text_map::value_at(b.units, name)
    &&& record::cipher_layout_digest(salt, a.layout) == record::cipher_layout_digest(
        salt,
        b.layout,
    ) ==> a.layout == b.layout
}

proof fn lemma_cipher_digests(units: Seq<(Seq<char>, Seq<char>)>, salt: Seq<u8>, name: Seq<char>)
    requires
        text_map::ordered(units),
    ensures
        text_map::ordered(record::cipher_digests(units, salt)),
        text_map::value_at(record::cipher_digests(units, salt), name) == match text_map::value_at(
            units,
            name,
        ) {
            Some(body) => Some(record::cipher_digest(salt, name, body)),
            None => None,
        },
    decreases units.len(),
{
    if units.len() > 0 {
        let head = units.drop_last();
        let (last, body) = units.last();
        lemma_ordered_head(units);
        lemma_cipher_digests(head, salt, name);
        lemma_value_last(units, name);
        let digest = record::cipher_digest(salt, last, body);
        text_map::lemma_with_value(record::cipher_digests(head, salt), last, digest);
        text_map::lemma_value_put(record::cipher_digests(head, salt), last, digest, name);
    }
}

/// Ordered lists in which every key has the same value are equal.
proof fn lemma_same_values(a: Seq<(Seq<char>, Seq<char>)>, b: Seq<(Seq<char>, Seq<char>)>)
    requires
        text_map::ordered(a),
        text_map::ordered(b),
        forall|key: Seq<char>|
            #[trigger] text_map::value_at(a, key) == text_map::value_at(b, key),
    ensures
        a == b,
    decreases a.len(),
{
    if a.len() == 0 || b.len() == 0 {
        if a.len() > 0 {
            text_map::lemma_value_at(a, 0);
            assert(text_map::value_at(b, a[0].0) is None);
        }
        if b.len() > 0 {
            text_map::lemma_value_at(b, 0);
            assert(text_map::value_at(a, b[0].0) is None);
        }
        assert(a =~= b);
    } else {
        let (x, y) = (a.last(), b.last());
        let (m, n) = (a.len() - 1, b.len() - 1);
        lemma_ordered_head(a);
        lemma_ordered_head(b);
        text_map::lemma_value_at(a, m);
        text_map::lemma_value_at(b, n);
        lemma_has_key(a, y.0);
        lemma_has_key(b, x.0);
        assert(text_map::value_at(b, x.0) == Some(x.1));
        assert(text_map::value_at(a, y.0) == Some(y.1));
        if x.0 != y.0 {
            let i = choose|i: int| 0 <= i < a.len() && (#[trigger] a[i]).0 == y.0;
            let j = choose|j: int| 0 <= j < b.len() && (#[trigger] b[j]).0 == x.0;
            assert(a.drop_last()[i] == a[i]);
            assert(b.drop_last()[j] == b[j]);
            text_map::lemma_less_total(x.0, y.0);
        }
        assert forall|key: Seq<char>|
            #[trigger] text_map::value_at(a.drop_last(), key) == text_map::value_at(
                b.drop_last(),
                key,
            ) by {
            lemma_value_last(a, key);
            lemma_value_last(b, key);
            assert(text_map::value_at(a, key) == text_map::value_at(b, key));
        }
        lemma_same_values(a.drop_last(), b.drop_last());
        assert(a =~= a.drop_last().push(x));
        assert(b =~= b.drop_last().push(y));
    }
}

/// Law: the difference of a ciphertext from a record is empty exactly if its
/// fingerprints are those of the recorded ciphertext, whatever document was recorded. No
/// decryption is needed to tell. The salt must tell the fingerprints apart.
pub proof fn law_cipher_difference(
    d: document::DocumentModel,
    other: document::DocumentModel,
    a: cipher::CipherModel,
    b: cipher::CipherModel,
    salt: Seq<u8>,
)
    requires
        text_map::ordered(a.units),
        text_map::ordered(b.units),
        fingerprints_apart(salt, a, b),
    ensures
        record::captured(d, a, salt).cipher_diff(b).empty() <==> a == b,
        record::captured(d, a, salt).cipher_diff(b) == record::captured(
            other,
            a,
            salt,
        ).cipher_diff(b),
{
    let diff = record::captured(d, a, salt).cipher_diff(b);
    hash::lemma_hex(salt);
    let x = record::cipher_digests(a.units, salt);
    let y = record::cipher_digests(b.units, salt);
    lemma_cipher_digests(a.units, salt, Seq::empty());
    lemma_cipher_digests(b.units, salt, Seq::empty());
    if diff.empty() {
        assert forall|name: Seq<char>|
            #[trigger] text_map::value_at(a.units, name) == text_map::value_at(b.units, name) by {
            lemma_cipher_digests(a.units, salt, name);
            lemma_cipher_digests(b.units, salt, name);
            lemma_missing_keys(x, y, name);
            lemma_missing_keys(y, x, name);
            lemma_has_key(x, name);
            lemma_has_key(y, name);
            lemma_changed_keys(x, y, name);
            assert(!diff.added.contains(name) && !diff.removed.contains(name)
                && !diff.changed.contains(name));
        }
        lemma_same_values(a.units, b.units);
    }
    if a == b {
        assert(x == y);
        lemma_nothing_missing(x);
    }
}

proof fn lemma_nothing_missing(e: Seq<(Seq<char>, Seq<char>)>)
    requires
        text_map::ordered(e),
    ensures
        record::missing_keys(e, e).len() == 0,
        record::changed_keys(e, e).len() == 0,
{
    let (m, c) = (record::missing_keys(e, e), record::changed_keys(e, e));
    if m.len() > 0 {
        assert(m.contains(m[0]));
        lemma_missing_keys(e, e, m[0]);
        lemma_has_key(e, m[0]);
    }
    if c.len() > 0 {
        assert(c.contains(c[0]));
        lemma_changed_keys(e, e, c[0]);
    }
}

/// A difference names exactly the units of two documents that differ, in the order of their
/// keys, and tells whether their residual layouts do.
pub open spec fn names_units(
    diff: record::DiffModel,
    base: document::DocumentModel,
    d: document::DocumentModel,
) -> bool {
    &&& forall|key: Seq<char>| #[trigger]
        diff.added.contains(key) <==> unit::unit_at(base, key) is None && unit::unit_at(
            d,
            key,
        ) is Some
    &&& forall|key: Seq<char>| #[trigger]
        diff.removed.contains(key) <==> unit::unit_at(base, key) is Some && unit::unit_at(
            d,
            key,
        ) is None
    &&& forall|key: Seq<char>| #[trigger]
        diff.changed.contains(key) <==> unit::unit_at(base, key) is Some && unit::unit_at(
            d,
            key,
        ) is Some && unit::unit_at(base, key) != unit::unit_at(d, key)
    &&& sorted(diff.added) && sorted(diff.removed) && sorted(diff.changed)
    &&& diff.layout_changed <==> unit::residual(base) != unit::residual(d)
}

/// A difference names exactly the encrypted units of two ciphertexts whose fingerprints
/// differ, in the order of their names, and tells whether their layouts do.
pub open spec fn names_fingerprints(
    diff: record::DiffModel,
    a: cipher::CipherModel,
    b: cipher::CipherModel,
) -> bool {
    &&& forall|name: Seq<char>| #[trigger]
        diff.added.contains(name) <==> text_map::value_at(a.units, name) is None
            && text_map::value_at(b.units, name) is Some
    &&& forall|name: Seq<char>| #[trigger]
        diff.removed.contains(name) <==> text_map::value_at(a.units, name) is Some
            && text_map::value_at(b.units, name) is None
    &&& forall|name: Seq<char>| #[trigger]
        diff.changed.contains(name) <==> text_map::value_at(a.units, name) is Some
            && text_map::value_at(b.units, name) is Some && text_map::value_at(a.units, name)
            != text_map::value_at(b.units, name)
    &&& sorted(diff.added) && sorted(diff.removed) && sorted(diff.changed)
    &&& diff.layout_changed <==> a.layout != b.layout
}

pub proof fn lemma_names_units(
    base: document::DocumentModel,
    c: cipher::CipherModel,
    salt: Seq<u8>,
    d: document::DocumentModel,
)
    requires
        record::told_apart(record::captured(base, c, salt), base, d),
    ensures
        names_units(record::captured(base, c, salt).plain_diff(d), base, d),
{
    let diff = record::captured(base, c, salt).plain_diff(d);
    law_difference_names_the_units(base, c, salt, d, Seq::empty());
    assert forall|key: Seq<char>| #[trigger]
        diff.added.contains(key) <==> unit::unit_at(base, key) is None && unit::unit_at(
            d,
            key,
        ) is Some by {
        law_difference_names_the_units(base, c, salt, d, key);
    }
    assert forall|key: Seq<char>| #[trigger]
        diff.removed.contains(key) <==> unit::unit_at(base, key) is Some && unit::unit_at(
            d,
            key,
        ) is None by {
        law_difference_names_the_units(base, c, salt, d, key);
    }
    assert forall|key: Seq<char>| #[trigger]
        diff.changed.contains(key) <==> unit::unit_at(base, key) is Some && unit::unit_at(
            d,
            key,
        ) is Some && unit::unit_at(base, key) != unit::unit_at(d, key) by {
        law_difference_names_the_units(base, c, salt, d, key);
    }
}

/// Law: the difference of a ciphertext from a record names exactly the encrypted units whose
/// fingerprints differ from those of the recorded ciphertext. The salt must tell the
/// fingerprints apart.
pub proof fn law_cipher_difference_names_the_units(
    d: document::DocumentModel,
    a: cipher::CipherModel,
    b: cipher::CipherModel,
    salt: Seq<u8>,
)
    requires
        text_map::ordered(a.units),
        text_map::ordered(b.units),
        fingerprints_apart(salt, a, b),
    ensures
        names_fingerprints(record::captured(d, a, salt).cipher_diff(b), a, b),
{
    let diff = record::captured(d, a, salt).cipher_diff(b);
    hash::lemma_hex(salt);
    let x = record::cipher_digests(a.units, salt);
    let y = record::cipher_digests(b.units, salt);
    lemma_cipher_digests(a.units, salt, Seq::empty());
    lemma_cipher_digests(b.units, salt, Seq::empty());
    lemma_sorted(x, y);
    lemma_sorted(y, x);
    assert forall|name: Seq<char>| #[trigger]
        diff.added.contains(name) <==> text_map::value_at(a.units, name) is None
            && text_map::value_at(b.units, name) is Some by {
        lemma_cipher_digests(a.units, salt, name);
        lemma_cipher_digests(b.units, salt, name);
        lemma_missing_keys(x, y, name);
        lemma_has_key(y, name);
    }
    assert forall|name: Seq<char>| #[trigger]
        diff.removed.contains(name) <==> text_map::value_at(a.units, name) is Some
            && text_map::value_at(b.units, name) is None by {
        lemma_cipher_digests(a.units, salt, name);
        lemma_cipher_digests(b.units, salt, name);
        lemma_missing_keys(y, x, name);
        lemma_has_key(x, name);
    }
    assert forall|name: Seq<char>| #[trigger]
        diff.changed.contains(name) <==> text_map::value_at(a.units, name) is Some
            && text_map::value_at(b.units, name) is Some && text_map::value_at(a.units, name)
            != text_map::value_at(b.units, name) by {
        lemma_cipher_digests(a.units, salt, name);
        lemma_cipher_digests(b.units, salt, name);
        lemma_changed_keys(x, y, name);
    }
}

/// A difference that names the units of two documents is empty exactly where no unit and
/// no residual layout differs.
pub proof fn lemma_no_unit_named(
    diff: record::DiffModel,
    base: document::DocumentModel,
    d: document::DocumentModel,
)
    requires
        names_units(diff, base, d),
    ensures
        diff.empty() <==> unit::residual(base) == unit::residual(d) && forall|key: Seq<char>|
            #[trigger] unit::unit_at(base, key) == unit::unit_at(d, key),
{
    if diff.empty() {
        assert forall|key: Seq<char>| #[trigger] unit::unit_at(base, key) == unit::unit_at(
            d,
            key,
        ) by {
            assert(!diff.added.contains(key) && !diff.removed.contains(key)
                && !diff.changed.contains(key));
        }
    }
    if unit::residual(base) == unit::residual(d) && forall|key: Seq<char>|
        #[trigger] unit::unit_at(base, key) == unit::unit_at(d, key) {
        if diff.added.len() > 0 {
            assert(diff.added.contains(diff.added[0]));
        }
        if diff.removed.len() > 0 {
            assert(diff.removed.contains(diff.removed[0]));
        }
        if diff.changed.len() > 0 {
            assert(diff.changed.contains(diff.changed[0]));
        }
    }
}

} // verus!
