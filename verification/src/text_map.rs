//! A map from texts to texts, ordered by key.

use vstd::prelude::*;

use crate::text;

verus! {

/// The order of texts: character by character, a prefix first.
pub open spec fn less(a: Seq<char>, b: Seq<char>) -> bool
    decreases a.len(),
{
    if b.len() == 0 {
        false
    } else if a.len() == 0 {
        true
    } else {
        a[0] < b[0] || (a[0] == b[0] && less(a.skip(1), b.skip(1)))
    }
}

pub proof fn lemma_less_total(a: Seq<char>, b: Seq<char>)
    ensures
        less(a, b) || less(b, a) || a == b,
        !(less(a, b) && less(b, a)),
        !less(a, a),
    decreases a.len(),
{
    if a.len() > 0 {
        lemma_less_total(a.skip(1), a.skip(1));
    }
    if a.len() == 0 && b.len() == 0 {
        assert(a =~= b);
    } else if a.len() > 0 && b.len() > 0 && a[0] == b[0] {
        lemma_less_total(a.skip(1), b.skip(1));
        if a.skip(1) == b.skip(1) {
            assert(a =~= seq![a[0]] + a.skip(1));
            assert(b =~= seq![b[0]] + b.skip(1));
        }
    }
}

pub proof fn lemma_less_transitive(a: Seq<char>, b: Seq<char>, c: Seq<char>)
    requires
        less(a, b),
        less(b, c),
    ensures
        less(a, c),
    decreases a.len(),
{
    if a.len() > 0 && a[0] == b[0] && b[0] == c[0] {
        lemma_less_transitive(a.skip(1), b.skip(1), c.skip(1));
    }
}

pub fn is_less(a: &str, b: &str) -> (r: bool)
    ensures
        r == less(a@, b@),
{
    let x = text::chars_of(a);
    let y = text::chars_of(b);
    let mut i: usize = 0;
    assert(x@.skip(0) =~= x@);
    assert(y@.skip(0) =~= y@);
    while i < x.len() && i < y.len()
        invariant
            i <= x.len(),
            i <= y.len(),
            x@ == a@,
            y@ == b@,
            less(a@, b@) == less(x@.skip(i as int), y@.skip(i as int)),
        decreases x.len() - i,
    {
        let ghost (s, t) = (x@.skip(i as int), y@.skip(i as int));
        assert(s[0] == x@[i as int] && t[0] == y@[i as int]);
        assert(s.skip(1) =~= x@.skip(i + 1));
        assert(t.skip(1) =~= y@.skip(i + 1));
        if x[i] < y[i] {
            return true;
        }
        if y[i] < x[i] {
            return false;
        }
        i = i + 1;
    }
    i < y.len()
}

pub open spec fn ordered(e: Seq<(Seq<char>, Seq<char>)>) -> bool {
    forall|i: int, j: int|
        0 <= i < j < e.len() ==> less((#[trigger] e[i]).0, (#[trigger] e[j]).0)
}

/// The value of a key.
pub open spec fn value_at(e: Seq<(Seq<char>, Seq<char>)>, key: Seq<char>) -> Option<Seq<char>>
    decreases e.len(),
{
    if e.len() == 0 {
        None
    } else if e[0].0 == key {
        Some(e[0].1)
    } else {
        value_at(e.skip(1), key)
    }
}

/// The entries with a value put under a key: at the place where the order has it.
pub open spec fn with_value(
    e: Seq<(Seq<char>, Seq<char>)>,
    key: Seq<char>,
    value: Seq<char>,
) -> Seq<(Seq<char>, Seq<char>)>
    decreases e.len(),
{
    if e.len() == 0 {
        seq![(key, value)]
    } else if e[0].0 == key {
        seq![(key, value)] + e.skip(1)
    } else if less(key, e[0].0) {
        seq![(key, value)] + e
    } else {
        seq![e[0]] + with_value(e.skip(1), key, value)
    }
}

pub open spec fn views(v: Seq<(String, String)>) -> Seq<(Seq<char>, Seq<char>)> {
    v.map_values(|x: (String, String)| (x.0@, x.1@))
}

proof fn lemma_ordered_skip(e: Seq<(Seq<char>, Seq<char>)>, n: int)
    requires
        ordered(e),
        0 <= n <= e.len(),
    ensures
        ordered(e.skip(n)),
{
    let rest = e.skip(n);
    assert forall|i: int, j: int| 0 <= i < j < rest.len() implies less(
        (#[trigger] rest[i]).0,
        (#[trigger] rest[j]).0,
    ) by {
        assert(rest[i] == e[i + n] && rest[j] == e[j + n]);
    }
}

/// A value that is put in is found under its key, and the others stay.
pub proof fn lemma_value_put(
    e: Seq<(Seq<char>, Seq<char>)>,
    key: Seq<char>,
    value: Seq<char>,
    other: Seq<char>,
)
    ensures
        value_at(with_value(e, key, value), other) == if other == key {
            Some(value)
        } else {
            value_at(e, other)
        },
    decreases e.len(),
{
    let w = with_value(e, key, value);
    if e.len() == 0 {
        assert(w.skip(1) =~= Seq::<(Seq<char>, Seq<char>)>::empty());
        assert(value_at(w.skip(1), other) is None);
    } else if e[0].0 == key {
        assert(w.skip(1) =~= e.skip(1));
    } else if less(key, e[0].0) {
        assert(w.skip(1) =~= e);
    } else {
        lemma_value_put(e.skip(1), key, value, other);
        assert(w[0] == e[0]);
        assert(w.skip(1) =~= with_value(e.skip(1), key, value));
    }
}

/// Putting a value in keeps the order, and every entry is the new one or an old one.
pub proof fn lemma_with_value(e: Seq<(Seq<char>, Seq<char>)>, key: Seq<char>, value: Seq<char>)
    requires
        ordered(e),
    ensures
        ordered(with_value(e, key, value)),
        forall|i: int|
            0 <= i < with_value(e, key, value).len() ==> (#[trigger] with_value(e, key, value)[i]
                == (key, value) || e.contains(with_value(e, key, value)[i])),
    decreases e.len(),
{
    let w = with_value(e, key, value);
    if e.len() == 0 {
    } else if e[0].0 == key {
        assert forall|i: int, j: int| 0 <= i < j < w.len() implies less(
            (#[trigger] w[i]).0,
            (#[trigger] w[j]).0,
        ) by {
            assert(w[j] == e[j]);
            assert(w[i].0 == e[i].0);
        }
        assert forall|i: int| 0 <= i < w.len() implies (#[trigger] w[i] == (key, value)
            || e.contains(w[i])) by {
            if i > 0 {
                assert(w[i] == e[i]);
            }
        }
    } else if less(key, e[0].0) {
        assert forall|i: int, j: int| 0 <= i < j < w.len() implies less(
            (#[trigger] w[i]).0,
            (#[trigger] w[j]).0,
        ) by {
            assert(w[j] == e[j - 1]);
            if i == 0 {
                if j > 1 {
                    assert(less(e[0].0, e[j - 1].0));
                    lemma_less_transitive(key, e[0].0, e[j - 1].0);
                }
            } else {
                assert(w[i] == e[i - 1]);
            }
        }
        assert forall|i: int| 0 <= i < w.len() implies (#[trigger] w[i] == (key, value)
            || e.contains(w[i])) by {
            if i > 0 {
                assert(w[i] == e[i - 1]);
            }
        }
    } else {
        let rest = e.skip(1);
        lemma_ordered_skip(e, 1);
        lemma_with_value(rest, key, value);
        lemma_less_total(key, e[0].0);
        let tail = with_value(rest, key, value);
        assert forall|i: int, j: int| 0 <= i < j < w.len() implies less(
            (#[trigger] w[i]).0,
            (#[trigger] w[j]).0,
        ) by {
            assert(w[j] == tail[j - 1]);
            if i == 0 {
                if tail[j - 1] != (key, value) {
                    assert(rest.contains(tail[j - 1]));
                    let k = choose|k: int| 0 <= k < rest.len() && rest[k] == tail[j - 1];
                    assert(rest[k] == e[k + 1]);
                    assert(less(e[0].0, e[k + 1].0));
                }
            } else {
                assert(w[i] == tail[i - 1]);
            }
        }
        assert forall|i: int| 0 <= i < w.len() implies (#[trigger] w[i] == (key, value)
            || e.contains(w[i])) by {
            if i > 0 {
                assert(w[i] == tail[i - 1]);
                if tail[i - 1] != (key, value) {
                    let k = choose|k: int| 0 <= k < rest.len() && rest[k] == tail[i - 1];
                    assert(e[k + 1] == w[i]);
                }
            } else {
                assert(w[0] == e[0]);
            }
        }
    }
}

/// Each entry of an ordered list is found by its key.
pub proof fn lemma_value_at(e: Seq<(Seq<char>, Seq<char>)>, at: int)
    requires
        ordered(e),
        0 <= at < e.len(),
    ensures
        value_at(e, e[at].0) == Some(e[at].1),
    decreases e.len(),
{
    if at > 0 {
        assert(less(e[0].0, e[at].0));
        lemma_less_total(e[0].0, e[at].0);
        lemma_ordered_skip(e, 1);
        assert(e.skip(1)[at - 1] == e[at]);
        lemma_value_at(e.skip(1), at - 1);
    }
}

/// A map from texts to texts. Its entries are in the order of their keys.
#[derive(Debug, PartialEq, Eq)]
pub struct TextMap {
    list: Vec<(String, String)>,
}

impl View for TextMap {
    type V = Seq<(Seq<char>, Seq<char>)>;

    closed spec fn view(&self) -> Seq<(Seq<char>, Seq<char>)> {
        views(self.list@)
    }
}

impl TextMap {
    #[verifier::type_invariant]
    spec fn valid(self) -> bool {
        ordered(views(self.list@))
    }

    pub fn new() -> (r: TextMap)
        ensures
            r@ == Seq::<(Seq<char>, Seq<char>)>::empty(),
    {
        let r = TextMap { list: Vec::new() };
        assert(r@ =~= Seq::<(Seq<char>, Seq<char>)>::empty());
        r
    }

    /// The entries in order.
    pub fn entries(&self) -> (r: &Vec<(String, String)>)
        ensures
            views(r@) == self@,
            ordered(self@),
    {
        proof {
            use_type_invariant(self);
        }
        &self.list
    }

    pub fn get(&self, key: &str) -> (r: Option<&String>)
        ensures
            match r {
                Some(value) => value_at(self@, key@) == Some(value@),
                None => value_at(self@, key@) is None,
            },
    {
        let ghost all = self@;
        let mut i: usize = 0;
        assert(all.skip(0) =~= all);
        while i < self.list.len()
            invariant
                all == views(self.list@),
                i <= self.list.len(),
                value_at(all.skip(i as int), key@) == value_at(all, key@),
            decreases self.list.len() - i,
        {
            assert(all.skip(i as int)[0] == (self.list@[i as int].0@, self.list@[i as int].1@));
            if text::eq(self.list[i].0.as_str(), key) {
                return Some(&self.list[i].1);
            }
            assert(all.skip(i as int).skip(1) =~= all.skip(i + 1));
            i = i + 1;
        }
        None
    }

    /// The map with a value under a key.
    pub fn with(self, key: &str, value: String) -> (r: TextMap)
        ensures
            r@ == with_value(self@, key@, value@),
    {
        proof {
            use_type_invariant(&self);
            lemma_with_value(self@, key@, value@);
        }
        let ghost all = self@;
        let mut list = self.list;
        let mut i: usize = 0;
        assert(all.skip(0) =~= all);
        assert(all.take(0) + with_value(all, key@, value@) =~= with_value(all, key@, value@));
        while i < list.len()
            invariant
                all == self@,
                all == views(list@),
                i <= list.len(),
                all.take(i as int) + with_value(all.skip(i as int), key@, value@) == with_value(
                    all,
                    key@,
                    value@,
                ),
                ordered(with_value(all, key@, value@)),
            decreases list.len() - i,
        {
            let ghost rest = all.skip(i as int);
            assert(rest[0] == (list@[i as int].0@, list@[i as int].1@));
            if text::eq(list[i].0.as_str(), key) {
                let ghost v = value@;
                list.set(i, (key.to_owned(), value));
                assert(views(list@) =~= all.take(i as int) + (seq![(key@, v)] + rest.skip(1)));
                return TextMap { list };
            }
            if is_less(key, list[i].0.as_str()) {
                let ghost v = value@;
                list.insert(i, (key.to_owned(), value));
                assert(views(list@) =~= all.take(i as int) + (seq![(key@, v)] + rest));
                return TextMap { list };
            }
            assert(rest.skip(1) =~= all.skip(i + 1));
            assert(all.take(i as int) + (seq![rest[0]] + with_value(rest.skip(1), key@, value@))
                =~= all.take(i + 1) + with_value(rest.skip(1), key@, value@));
            i = i + 1;
        }
        let ghost v = value@;
        list.push((key.to_owned(), value));
        assert(all.skip(i as int) =~= Seq::<(Seq<char>, Seq<char>)>::empty());
        assert(views(list@) =~= all.take(i as int) + seq![(key@, v)]);
        TextMap { list }
    }

    pub fn same(&self, other: &TextMap) -> (r: bool)
        ensures
            r == (self@ == other@),
    {
        if self.list.len() != other.list.len() {
            assert(self@.len() != other@.len());
            return false;
        }
        let mut i: usize = 0;
        while i < self.list.len()
            invariant
                i <= self.list.len(),
                self.list@.len() == other.list@.len(),
                forall|j: int| 0 <= j < i ==> self@[j] == #[trigger] other@[j],
            decreases self.list.len() - i,
        {
            assert(self@[i as int] == (self.list@[i as int].0@, self.list@[i as int].1@));
            assert(other@[i as int] == (other.list@[i as int].0@, other.list@[i as int].1@));
            if !text::eq(self.list[i].0.as_str(), other.list[i].0.as_str()) || !text::eq(
                self.list[i].1.as_str(),
                other.list[i].1.as_str(),
            ) {
                return false;
            }
            i = i + 1;
        }
        assert(self@ =~= other@);
        true
    }
}

impl Clone for TextMap {
    fn clone(&self) -> (r: TextMap)
        ensures
            r@ == self@,
    {
        proof {
            use_type_invariant(self);
        }
        let mut out: Vec<(String, String)> = Vec::new();
        let mut i: usize = 0;
        while i < self.list.len()
            invariant
                i <= self.list.len(),
                out@.len() == i,
                forall|j: int|
                    0 <= j < i ==> (#[trigger] out@[j]).0@ == self.list@[j].0@ && out@[j].1@
                        == self.list@[j].1@,
            decreases self.list.len() - i,
        {
            out.push((self.list[i].0.clone(), self.list[i].1.clone()));
            i = i + 1;
        }
        assert(views(out@) =~= views(self.list@));
        TextMap { list: out }
    }
}

} // verus!
