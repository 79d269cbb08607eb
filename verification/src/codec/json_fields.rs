//! Fields of JSON records.

use vstd::prelude::*;

use crate::codec::json;
use crate::codec::json::{JsonTree, JsonValue};
use crate::codec::json_typed;
use crate::text;

verus! {

/// The text of a JSON string.
pub open spec fn string_in(t: Option<JsonTree>) -> Option<Seq<char>> {
    match t {
        Some(JsonTree::String(s)) => Some(s),
        _ => None,
    }
}

/// The texts of an array of strings.
pub open spec fn strings_in(a: Seq<JsonTree>) -> Option<Seq<Seq<char>>>
    decreases a.len(),
{
    if a.len() == 0 {
        Some(Seq::empty())
    } else {
        match (strings_in(a.drop_last()), a.last()) {
            (Some(head), JsonTree::String(s)) => Some(head.push(s)),
            _ => None,
        }
    }
}

pub open spec fn item(a: Seq<JsonTree>, i: int) -> Option<JsonTree> {
    if 0 <= i < a.len() {
        Some(a[i])
    } else {
        None
    }
}

pub open spec fn view_json(v: Option<&JsonValue>) -> Option<JsonTree> {
    match v {
        Some(value) => Some(value@),
        None => None,
    }
}

pub fn get_strings(v: &Vec<JsonValue>) -> (r: Option<Vec<String>>)
    ensures
        match r {
            Some(list) => strings_in(json::items(v@)) == Some(text::texts(list@)),
            None => strings_in(json::items(v@)) is None,
        },
{
    let ghost a = json::items(v@);
    let mut out: Vec<String> = Vec::new();
    let mut i: usize = 0;
    assert(text::texts(out@) =~= Seq::<Seq<char>>::empty());
    while i < v.len()
        invariant
            a == json::items(v@),
            i <= v.len(),
            strings_in(a.take(i as int)) == Some(text::texts(out@)),
        decreases v.len() - i,
    {
        assert(a.take(i + 1).drop_last() =~= a.take(i as int));
        assert(a.take(i + 1).last() == v@[i as int]@);
        match &v[i] {
            JsonValue::String(s) => {
                let ghost before = out@;
                out.push(s.clone());
                assert(text::texts(out@) =~= text::texts(before).push(s@));
            },
            _ => {
                proof {
                    lemma_no_strings(a, i + 1);
                }
                return None;
            },
        }
        i = i + 1;
    }
    assert(a.take(i as int) =~= a);
    Some(out)
}

proof fn lemma_no_strings(a: Seq<JsonTree>, n: int)
    requires
        0 <= n <= a.len(),
        strings_in(a.take(n)) is None,
    ensures
        strings_in(a) is None,
    decreases a.len() - n,
{
    if n < a.len() {
        assert(a.take(n + 1).drop_last() =~= a.take(n));
        lemma_no_strings(a, n + 1);
    } else {
        assert(a.take(n) =~= a);
    }
}

pub fn get_string(v: Option<&JsonValue>) -> (r: Option<String>)
    ensures
        text::view_option(r) == string_in(view_json(v)),
{
    match v {
        Some(JsonValue::String(s)) => Some(s.clone()),
        _ => None,
    }
}

/// A list of texts as JSON.
pub open spec fn strings_json(list: Seq<Seq<char>>) -> JsonTree {
    JsonTree::Array(list.map_values(|s: Seq<char>| JsonTree::String(s)))
}

pub proof fn lemma_strings(list: Seq<Seq<char>>)
    ensures
        strings_in(strings_json(list)->Array_0) == Some(list),
    decreases list.len(),
{
    let a = strings_json(list)->Array_0;
    if list.len() > 0 {
        lemma_strings(list.drop_last());
        assert(a.drop_last() =~= strings_json(list.drop_last())->Array_0);
        assert(list.drop_last().push(list.last()) =~= list);
    }
}

pub proof fn lemma_strings_plain(list: Seq<Seq<char>>, depth: nat)
    requires
        depth > 0,
    ensures
        json::plain(strings_json(list), depth),
{
    let a = strings_json(list)->Array_0;
    assert forall|i: int| 0 <= i < a.len() implies json::plain(
        #[trigger] a[i],
        (depth - 1) as nat,
    ) by {
        assert(a[i] == JsonTree::String(list[i]));
    }
}

/// A member of a JSON object.
pub fn member_of(name: &str, value: JsonValue) -> (r: (String, JsonValue))
    ensures
        r.0@ == name@,
        r.1@ == value@,
{
    (name.to_owned(), value)
}

/// A name that is none of the marks of the reader.
pub open spec fn unmarked(name: Seq<char>) -> bool {
    name.len() < 28 || name[0] != '$'
}

pub proof fn lemma_unmarked(name: Seq<char>)
    requires
        unmarked(name),
    ensures
        !json::reader_mark(name),
{
    reveal_strlit("$serde_json::private::RawValue");
    assert("$serde_json::private::RawValue"@.len() == 30);
    assert("$serde_json::private::RawValue"@[0] == '$');
    reveal_strlit("$serde_json::private::Number");
    assert("$serde_json::private::Number"@.len() == 28);
    assert("$serde_json::private::Number"@[0] == '$');
}

/// Each member of an object with distinct names is found by its name.
pub proof fn lemma_member_at(m: Seq<(Seq<char>, JsonTree)>, at: int)
    requires
        json::names(m).no_duplicates(),
        0 <= at < m.len(),
    ensures
        json::member(m, m[at].0) == Some(m[at].1),
    decreases m.len(),
{
    if at > 0 {
        assert(json::names(m)[0] == m[0].0);
        assert(json::names(m)[at] == m[at].0);
        let rest = m.skip(1);
        assert forall|i: int, j: int| 0 <= i < j < rest.len() implies json::names(rest)[i]
            != json::names(rest)[j] by {
            assert(json::names(rest)[i] == json::names(m)[i + 1]);
            assert(json::names(rest)[j] == json::names(m)[j + 1]);
        }
        lemma_member_at(rest, at - 1);
        assert(rest[at - 1] == m[at]);
    }
}

/// An object is plain where its names are distinct and unmarked and its values are
/// plain.
pub proof fn lemma_object_plain(m: Seq<(Seq<char>, JsonTree)>, depth: nat)
    requires
        depth > 0,
        json::names(m).no_duplicates(),
        forall|i: int|
            0 <= i < m.len() ==> unmarked((#[trigger] m[i]).0) && json::plain(
                m[i].1,
                (depth - 1) as nat,
            ),
    ensures
        json::plain(JsonTree::Object(m), depth),
{
    assert forall|i: int| 0 <= i < m.len() implies !json::reader_mark((#[trigger] m[i]).0)
        && json::plain(m[i].1, (depth - 1) as nat) by {
        lemma_unmarked(m[i].0);
    }
}

/// A list of texts as a JSON value.
pub fn strings_value(list: &[String]) -> (r: JsonValue)
    ensures
        r@ == strings_json(text::texts(list@)),
{
    let mut out: Vec<JsonValue> = Vec::new();
    let mut i: usize = 0;
    while i < list.len()
        invariant
            i <= list.len(),
            out@.len() == i,
            forall|j: int| 0 <= j < i ==> (#[trigger] out@[j])@ == JsonTree::String(list@[j]@),
        decreases list.len() - i,
    {
        out.push(JsonValue::String(list[i].clone()));
        i = i + 1;
    }
    let r = JsonValue::Array(out);
    proof {
        json::lemma_view(r);
        assert(json::items(out@) =~= strings_json(text::texts(list@))->Array_0);
    }
    r
}

/// An object with distinct names is written with no name more than once.
pub proof fn lemma_no_repeats(s: Seq<char>, m: Seq<(Seq<char>, JsonTree)>, fields: Seq<Seq<char>>)
    requires
        json::names_members(s, m),
        json::names(m).no_duplicates(),
    ensures
        !json_typed::repeats_field(s, fields),
{
    let names = json_typed::member_names(s);
    let written = json_typed::written_names(s);
    if json_typed::repeats_field(s, fields) {
        let (i, j) = choose|i: int, j: int|
            0 <= i < j < names.len() && (#[trigger] names[i]) == (#[trigger] names[j])
                && fields.contains(names[i]);
        assert(json_typed::json_text(written[i]) == Ok::<Seq<char>, Seq<char>>(m[i].0));
        assert(json_typed::json_text(written[j]) == Ok::<Seq<char>, Seq<char>>(m[j].0));
        assert(json::names(m)[i] == m[i].0 && json::names(m)[j] == m[j].0);
    }
}

} // verus!
