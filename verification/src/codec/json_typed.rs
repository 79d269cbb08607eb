//! JSON read part by part into the types that its parts must have.
//!
//! A member of an object is kept as the text it is written with, so that no name that it
//! holds can be taken for anything but a name.

use vstd::prelude::*;

use crate::segment;
use crate::text;
use crate::text_map;

verus! {

/// The names of the members of a JSON object as they are written: the last string before
/// each colon that stands outside strings at the first level of nesting, from position `i`
/// on. `depth` levels are open there, `quoted` tells whether a string is, and the last
/// string stands from `from` to `to`.
pub open spec fn names_from(
    s: Seq<char>,
    i: int,
    depth: nat,
    quoted: bool,
    from: int,
    to: int,
) -> Seq<Seq<char>>
    decreases s.len() - i,
{
    if i < 0 || i >= s.len() {
        Seq::empty()
    } else if quoted {
        if s[i] == '\\' {
            if i + 1 < s.len() {
                names_from(s, i + 2, depth, true, from, to)
            } else {
                Seq::empty()
            }
        } else if s[i] == '"' {
            names_from(s, i + 1, depth, false, from, i + 1)
        } else {
            names_from(s, i + 1, depth, true, from, to)
        }
    } else if s[i] == '"' {
        names_from(s, i + 1, depth, true, i, i)
    } else if s[i] == '{' || s[i] == '[' {
        names_from(s, i + 1, depth + 1, false, from, to)
    } else if s[i] == '}' || s[i] == ']' {
        names_from(
            s,
            i + 1,
            if depth > 0 {
                (depth - 1) as nat
            } else {
                0
            },
            false,
            from,
            to,
        )
    } else if s[i] == ':' && depth == 1 {
        seq![s.subrange(from, to)] + names_from(s, i + 1, depth, false, from, to)
    } else {
        names_from(s, i + 1, depth, false, from, to)
    }
}

/// The names that a JSON object is written with, in order, repeated ones included.
pub open spec fn written_names(s: Seq<char>) -> Seq<Seq<char>> {
    names_from(s, 0, 0, false, 0, 0)
}

/// Lists the names that a JSON object is written with.
pub fn list_names(s: &str) -> (r: Vec<String>)
    ensures
        text::texts(r@) == written_names(s@),
{
    let chars = text::chars_of(s);
    let size: usize = chars.len();
    let mut out: Vec<String> = Vec::new();
    let mut depth: usize = 0;
    let mut quoted: bool = false;
    let mut from: usize = 0;
    let mut to: usize = 0;
    let mut i: usize = 0;
    assert(text::texts(out@) + written_names(s@) =~= written_names(s@));
    while i < size
        invariant
            size == chars@.len(),
            chars@ == s@,
            i <= size,
            depth <= i,
            from <= to <= i,
            text::texts(out@) + names_from(
                s@,
                i as int,
                depth as nat,
                quoted,
                from as int,
                to as int,
            ) == written_names(s@),
        decreases size - i,
    {
        let c = chars[i];
        if quoted {
            if c == '\\' {
                if i + 1 >= size {
                    assert(text::texts(out@) =~= written_names(s@));
                    return out;
                }
                i = i + 1;
            } else if c == '"' {
                quoted = false;
                to = i + 1;
            }
        } else if c == '"' {
            quoted = true;
            from = i;
            to = i;
        } else if c == '{' || c == '[' {
            depth = depth + 1;
        } else if c == '}' || c == ']' {
            if depth > 0 {
                depth = depth - 1;
            }
        } else if c == ':' && depth == 1 {
            let ghost before = text::texts(out@);
            let name = text::string_of(segment::slice_to_vec(chars.as_slice(), from, to).as_slice());
            out.push(name);
            assert(text::texts(out@) =~= before.push(name@));
            let ghost rest = names_from(s@, i + 1, depth as nat, false, from as int, to as int);
            assert(before + (seq![name@] + rest) =~= before.push(name@) + rest);
        }
        i = i + 1;
    }
    assert(text::texts(out@) =~= written_names(s@));
    out
}

/// The name that a written name stands for.
pub open spec fn name_of(written: Seq<char>) -> Seq<char> {
    match json_text(written) {
        Ok(name) => name,
        Err(_) => written,
    }
}

/// The names that a JSON object is written with, as they are read.
pub open spec fn member_names(s: Seq<char>) -> Seq<Seq<char>> {
    written_names(s).map_values(|w: Seq<char>| name_of(w))
}

/// A JSON object is written with one of the given names more than once.
pub open spec fn repeats_field(s: Seq<char>, fields: Seq<Seq<char>>) -> bool {
    repeated(member_names(s), fields)
}

pub open spec fn repeated(names: Seq<Seq<char>>, fields: Seq<Seq<char>>) -> bool {
    exists|i: int, j: int|
        0 <= i < j < names.len() && (#[trigger] names[i]) == (#[trigger] names[j])
            && fields.contains(names[i])
}

/// Whether a JSON object is written with one of the given names more than once.
pub fn has_repeated(s: &str, fields: &[String]) -> (r: bool)
    ensures
        r == repeats_field(s@, text::texts(fields@)),
{
    let written = list_names(s);
    let ghost names = member_names(s@);
    let mut seen: Vec<String> = Vec::new();
    let mut i: usize = 0;
    assert(text::texts(seen@) =~= names.take(0));
    while i < written.len()
        invariant
            text::texts(written@) == written_names(s@),
            names == member_names(s@),
            i <= written@.len(),
            text::texts(seen@) == names.take(i as int),
            !repeated(names.take(i as int), text::texts(fields@)),
        decreases written.len() - i,
    {
        assert(written_names(s@)[i as int] == written@[i as int]@);
        let name = match read_text(written[i].as_str()) {
            Ok(name) => name,
            Err(_) => written[i].clone(),
        };
        assert(names[i as int] == name@);
        let ghost head = names.take(i as int);
        let ghost next = names.take(i + 1);
        assert(next =~= head.push(name@));
        if text::contains_text(seen.as_slice(), name.as_str()) && text::contains_text(
            fields,
            name.as_str(),
        ) {
            proof {
                let k = choose|k: int| 0 <= k < head.len() && head[k] == name@;
                assert(names[k] == names[i as int]);
            }
            return true;
        }
        proof {
            if repeated(next, text::texts(fields@)) {
                let (a, b) = choose|a: int, b: int|
                    0 <= a < b < next.len() && (#[trigger] next[a]) == (#[trigger] next[b])
                        && text::texts(fields@).contains(next[a]);
                assert(next[a] == head[a]);
                if b < head.len() {
                    assert(next[b] == head[b]);
                } else {
                    assert(head.contains(name@));
                }
            }
        }
        let ghost before = seen@;
        seen.push(name);
        assert(text::texts(seen@) =~= text::texts(before).push(name@));
        i = i + 1;
    }
    assert(names.take(i as int) =~= names);
    false
}

/// The members of a JSON object, each with the text of its value, in the order of their
/// names; of repeated names the last counts. Or why a text is no object.
pub uninterp spec fn json_object(s: Seq<char>) -> Result<Seq<(Seq<char>, Seq<char>)>, Seq<char>>;

/// `serde_json::from_str` into a `BTreeMap` of `RawValue`s, each by `RawValue::get`.
#[verifier::external_body]
pub(crate) fn read_object(s: &str) -> (r: Result<Vec<(String, String)>, String>)
    ensures
        match r {
            Ok(list) => json_object(s@) == Ok::<Seq<(Seq<char>, Seq<char>)>, Seq<char>>(
                text_map::views(list@),
            ),
            Err(reason) => json_object(s@) == Err::<Seq<(Seq<char>, Seq<char>)>, Seq<char>>(
                reason@,
            ),
        },
{
    serde_json::from_str::<
        std::collections::BTreeMap<String, Box<serde_json::value::RawValue>>,
    >(s).map(|map| map.into_iter().map(|(key, value)| (key, value.get().to_owned())).collect()).map_err(
        |error| error.to_string(),
    )
}

/// The texts of the values of a JSON array, or why a text is none.
pub uninterp spec fn json_list(s: Seq<char>) -> Result<Seq<Seq<char>>, Seq<char>>;

/// `serde_json::from_str` into a `Vec` of `RawValue`s, each by `RawValue::get`.
#[verifier::external_body]
pub(crate) fn read_list(s: &str) -> (r: Result<Vec<String>, String>)
    ensures
        match r {
            Ok(list) => json_list(s@) == Ok::<Seq<Seq<char>>, Seq<char>>(text::texts(list@)),
            Err(reason) => json_list(s@) == Err::<Seq<Seq<char>>, Seq<char>>(reason@),
        },
{
    serde_json::from_str::<Vec<Box<serde_json::value::RawValue>>>(s).map(
        |list| list.into_iter().map(|value| value.get().to_owned()).collect(),
    ).map_err(|error| error.to_string())
}

/// The members of a JSON object of strings, in the order of their names; of repeated
/// names the last counts. Or why a text is none.
pub uninterp spec fn json_texts(s: Seq<char>) -> Result<Seq<(Seq<char>, Seq<char>)>, Seq<char>>;

/// `serde_json::from_str` into a `BTreeMap` of strings.
#[verifier::external_body]
pub(crate) fn read_texts(s: &str) -> (r: Result<Vec<(String, String)>, String>)
    ensures
        match r {
            Ok(list) => json_texts(s@) == Ok::<Seq<(Seq<char>, Seq<char>)>, Seq<char>>(
                text_map::views(list@),
            ),
            Err(reason) => json_texts(s@) == Err::<Seq<(Seq<char>, Seq<char>)>, Seq<char>>(
                reason@,
            ),
        },
{
    serde_json::from_str::<std::collections::BTreeMap<String, String>>(s).map(
        |map| map.into_iter().collect(),
    ).map_err(|error| error.to_string())
}

/// The text that a JSON string holds, or why a text is none.
pub uninterp spec fn json_text(s: Seq<char>) -> Result<Seq<char>, Seq<char>>;

/// `serde_json::from_str` into a `String`.
#[verifier::external_body]
pub(crate) fn read_text(s: &str) -> (r: Result<String, String>)
    ensures
        match r {
            Ok(value) => json_text(s@) == Ok::<Seq<char>, Seq<char>>(value@),
            Err(reason) => json_text(s@) == Err::<Seq<char>, Seq<char>>(reason@),
        },
{
    serde_json::from_str::<String>(s).map_err(|error| error.to_string())
}

/// The number that a JSON text holds where a `u32` can, or why it holds none.
pub uninterp spec fn json_small(s: Seq<char>) -> Result<u32, Seq<char>>;

/// `serde_json::from_str` into a `u32`.
#[verifier::external_body]
pub(crate) fn read_small(s: &str) -> (r: Result<u32, String>)
    ensures
        match r {
            Ok(value) => json_small(s@) == Ok::<u32, Seq<char>>(value),
            Err(reason) => json_small(s@) == Err::<u32, Seq<char>>(reason@),
        },
{
    serde_json::from_str::<u32>(s).map_err(|error| error.to_string())
}

/// The text of a member.
pub fn find_member(list: &Vec<(String, String)>, name: &str) -> (r: Option<String>)
    ensures
        text::view_option(r) == text_map::value_at(text_map::views(list@), name@),
{
    let ghost m = text_map::views(list@);
    let mut i: usize = 0;
    assert(m.skip(0) =~= m);
    while i < list.len()
        invariant
            m == text_map::views(list@),
            i <= list.len(),
            text_map::value_at(m, name@) == text_map::value_at(m.skip(i as int), name@),
        decreases list.len() - i,
    {
        assert(m.skip(i as int)[0] == (list@[i as int].0@, list@[i as int].1@));
        assert(m.skip(i as int).skip(1) =~= m.skip(i + 1));
        if text::eq(list[i].0.as_str(), name) {
            return Some(list[i].1.clone());
        }
        i = i + 1;
    }
    None
}

} // verus!
