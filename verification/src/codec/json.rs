//! JSON values. Numbers are kept as they are written.

use vstd::prelude::*;

use crate::codec::json_typed;
use crate::segment;
use crate::text;
use crate::text_map;

verus! {

/// The content of a JSON value.
pub enum JsonTree {
    Null,
    Bool(bool),
    Number(Seq<char>),
    String(Seq<char>),
    Array(Seq<JsonTree>),
    Object(Seq<(Seq<char>, JsonTree)>),
}

/// A JSON value.
#[derive(Debug, PartialEq, Eq)]
pub enum JsonValue {
    Null,
    Bool(bool),
    Number(String),
    String(String),
    Array(Vec<JsonValue>),
    Object(Vec<(String, JsonValue)>),
}

impl JsonValue {
    pub open spec fn view(&self) -> JsonTree
        decreases self,
    {
        match self {
            JsonValue::Null => JsonTree::Null,
            JsonValue::Bool(b) => JsonTree::Bool(*b),
            JsonValue::Number(s) => JsonTree::Number(s@),
            JsonValue::String(s) => JsonTree::String(s@),
            JsonValue::Array(v) => JsonTree::Array(
                Seq::new(
                    v@.len(),
                    |i: int|
                        if 0 <= i < v@.len() {
                            v@[i].view()
                        } else {
                            arbitrary()
                        },
                ),
            ),
            JsonValue::Object(v) => JsonTree::Object(
                Seq::new(
                    v@.len(),
                    |i: int|
                        if 0 <= i < v@.len() {
                            (v@[i].0@, v@[i].1.view())
                        } else {
                            arbitrary()
                        },
                ),
            ),
        }
    }
}

pub open spec fn items(v: Seq<JsonValue>) -> Seq<JsonTree> {
    v.map_values(|x: JsonValue| x@)
}

pub open spec fn members(v: Seq<(String, JsonValue)>) -> Seq<(Seq<char>, JsonTree)> {
    v.map_values(|x: (String, JsonValue)| (x.0@, x.1@))
}

pub open spec fn names(m: Seq<(Seq<char>, JsonTree)>) -> Seq<Seq<char>> {
    m.map_values(|x: (Seq<char>, JsonTree)| x.0)
}

pub proof fn lemma_view(v: JsonValue)
    ensures
        v matches JsonValue::Array(a) ==> v@ == JsonTree::Array(items(a@)),
        v matches JsonValue::Object(a) ==> v@ == JsonTree::Object(members(a@)),
{
    match v {
        JsonValue::Array(a) => {
            assert(v@->Array_0 =~= items(a@));
        },
        JsonValue::Object(a) => {
            assert(v@->Object_0 =~= members(a@));
        },
        _ => {},
    }
}

/// The first member of a name.
pub open spec fn member(m: Seq<(Seq<char>, JsonTree)>, name: Seq<char>) -> Option<JsonTree>
    decreases m.len(),
{
    if m.len() == 0 {
        None
    } else if m[0].0 == name {
        Some(m[0].1)
    } else {
        member(m.skip(1), name)
    }
}

#[verifier::external_type_specification]
#[verifier::external_body]
pub struct ExJsonValue(serde_json::Value);

/// The content of a value of `serde_json`. The names of an object's members are
/// distinct and in the order of the text.
pub uninterp spec fn json_tree(v: serde_json::Value) -> JsonTree;

/// One level of a JSON value.
pub enum JsonShape {
    Null,
    Bool(bool),
    Number(String),
    String(String),
    Array(Vec<serde_json::Value>),
    Object(Vec<(String, serde_json::Value)>),
}

pub open spec fn outside_items(v: Seq<serde_json::Value>) -> Seq<JsonTree> {
    v.map_values(|x: serde_json::Value| json_tree(x))
}

pub open spec fn outside_members(v: Seq<(String, serde_json::Value)>) -> Seq<
    (Seq<char>, JsonTree),
> {
    v.map_values(|x: (String, serde_json::Value)| (x.0@, json_tree(x.1)))
}

impl JsonShape {
    pub open spec fn tree(self) -> JsonTree {
        match self {
            JsonShape::Null => JsonTree::Null,
            JsonShape::Bool(b) => JsonTree::Bool(b),
            JsonShape::Number(s) => JsonTree::Number(s@),
            JsonShape::String(s) => JsonTree::String(s@),
            JsonShape::Array(v) => JsonTree::Array(outside_items(v@)),
            JsonShape::Object(v) => JsonTree::Object(outside_members(v@)),
        }
    }

    /// An object whose names are distinct, or no object.
    pub open spec fn distinct(self) -> bool {
        self matches JsonShape::Object(v) ==> names(outside_members(v@)).no_duplicates()
    }
}

/// Takes one level of a `serde_json::Value` apart, variant by variant. A number
/// is shown by its `Display`; an object is a map, so its names are distinct.
#[verifier::external_body]
fn json_shape(value: serde_json::Value) -> (r: JsonShape)
    ensures
        r.tree() == json_tree(value),
        r.distinct(),
{
    match value {
        serde_json::Value::Null => JsonShape::Null,
        serde_json::Value::Bool(flag) => JsonShape::Bool(flag),
        serde_json::Value::Number(number) => JsonShape::Number(number.to_string()),
        serde_json::Value::String(text) => JsonShape::String(text),
        serde_json::Value::Array(list) => JsonShape::Array(list),
        serde_json::Value::Object(map) => JsonShape::Object(map.into_iter().collect()),
    }
}

/// A number as JSON writes it, or why the text is none.
pub uninterp spec fn json_number(s: Seq<char>) -> Result<Seq<char>, Seq<char>>;

/// The digits of a natural number, without leading zeros.
pub open spec fn decimal_integer(s: Seq<char>) -> bool {
    exists|n: nat| s == #[trigger] segment::decimal(n)
}

/// The number with the given digits.
pub open spec fn holds_number(r: Result<serde_json::Value, String>, s: Seq<char>) -> bool {
    r matches Ok(v) && json_tree(v) == JsonTree::Number(s)
}

/// `str::parse::<serde_json::Number>`. The digits of a natural number are a number
/// as they stand.
#[verifier::external_body]
pub(crate) fn parse_number(s: &str) -> (r: Result<serde_json::Value, String>)
    ensures
        match r {
            Ok(value) => json_tree(value) is Number && json_number(s@) == Ok::<
                Seq<char>,
                Seq<char>,
            >(json_tree(value)->Number_0),
            Err(reason) => json_number(s@) == Err::<Seq<char>, Seq<char>>(reason@),
        },
        decimal_integer(s@) ==> holds_number(r, s@),
{
    match s.parse::<serde_json::Number>() {
        Ok(number) => Ok(serde_json::Value::Number(number)),
        Err(error) => Err(error.to_string()),
    }
}

/// The parts of one level of a value that is no number.
pub enum JsonParts {
    Null,
    Bool(bool),
    String(String),
    Array(Vec<serde_json::Value>),
    Object(Vec<(String, serde_json::Value)>),
}

impl JsonParts {
    pub open spec fn tree(self) -> JsonTree {
        match self {
            JsonParts::Null => JsonTree::Null,
            JsonParts::Bool(b) => JsonTree::Bool(b),
            JsonParts::String(s) => JsonTree::String(s@),
            JsonParts::Array(v) => JsonTree::Array(outside_items(v@)),
            JsonParts::Object(v) => JsonTree::Object(outside_members(v@)),
        }
    }
}

/// Puts one level of a value together, variant by variant: `serde_json::Value`
/// and, for an object, `serde_json::Map`, which keeps the order in which members
/// with new names are put in.
#[verifier::external_body]
pub(crate) fn json_build(parts: JsonParts) -> (r: serde_json::Value)
    requires
        parts matches JsonParts::Object(v) ==> names(outside_members(v@)).no_duplicates(),
    ensures
        json_tree(r) == parts.tree(),
{
    match parts {
        JsonParts::Null => serde_json::Value::Null,
        JsonParts::Bool(flag) => serde_json::Value::Bool(flag),
        JsonParts::String(text) => serde_json::Value::String(text),
        JsonParts::Array(list) => serde_json::Value::Array(list),
        JsonParts::Object(list) => serde_json::Value::Object(list.into_iter().collect()),
    }
}

/// What the bytes of a JSON text hold, or why they hold nothing.
pub uninterp spec fn json_parsed(bytes: Seq<u8>) -> Result<JsonTree, Seq<char>>;

/// `serde_json::from_slice` into a `serde_json::Value`.
#[verifier::external_body]
fn json_read(bytes: &[u8]) -> (r: Result<serde_json::Value, String>)
    ensures
        match r {
            Ok(value) => json_parsed(bytes@) == Ok::<JsonTree, Seq<char>>(json_tree(value)),
            Err(reason) => json_parsed(bytes@) == Err::<JsonTree, Seq<char>>(reason@),
        },
{
    serde_json::from_slice::<serde_json::Value>(bytes).map_err(|error| error.to_string())
}

/// A text holds a value.
pub open spec fn reads_as(s: Seq<char>, t: JsonTree) -> bool {
    json_parsed(vstd::utf8::encode_utf8(s)) == Ok::<JsonTree, Seq<char>>(t)
}

/// The text of a JSON value on one line.
pub uninterp spec fn json_written(t: JsonTree) -> Seq<char>;

/// A text holds an object whose members are written as the given values on one line.
pub open spec fn holds_members(s: Seq<char>, m: Seq<(Seq<char>, JsonTree)>) -> bool {
    json_typed::json_object(s) matches Ok(list) && list.len() == m.len() && forall|i: int|
        0 <= i < m.len() ==> text_map::value_at(list, (#[trigger] m[i]).0) == Some(
            json_written(m[i].1),
        )
}

/// The names that an object is written with are read as those of its members.
pub open spec fn names_members(s: Seq<char>, m: Seq<(Seq<char>, JsonTree)>) -> bool {
    let written = json_typed::written_names(s);
    written.len() == m.len() && forall|i: int|
        0 <= i < m.len() ==> json_typed::json_text(#[trigger] written[i]) == Ok::<
            Seq<char>,
            Seq<char>,
        >(m[i].0)
}

/// The texts of values, each on one line.
pub open spec fn written_items(a: Seq<JsonTree>) -> Seq<Seq<char>> {
    a.map_values(|t: JsonTree| json_written(t))
}

/// A text of a value is read back by the reader of its type, and by no other: an object as
/// its members with the text of each; an array as the texts of its items; these are read
/// back in turn; an object of strings in the order of its names as these; a string; and a
/// small number.
pub open spec fn reads_typed(s: Seq<char>, t: JsonTree) -> bool
    decreases t,
{
    &&& t is Object || json_typed::json_object(s) is Err
    &&& t is Array || json_typed::json_list(s) is Err
    &&& t is Object || json_typed::written_names(s).len() == 0
    &&& match t {
        JsonTree::Object(m) => {
            &&& holds_members(s, m)
            &&& names_members(s, m)
            &&& forall|e: Seq<(Seq<char>, Seq<char>)>|
                text_map::ordered(e) && m == #[trigger] texts_json(e) ==> json_typed::json_texts(s)
                    == Ok::<Seq<(Seq<char>, Seq<char>)>, Seq<char>>(e)
            &&& forall|i: int|
                0 <= i < m.len() ==> reads_typed(json_written((#[trigger] m[i]).1), m[i].1)
        },
        JsonTree::Array(a) => {
            &&& json_typed::json_list(s) == Ok::<Seq<Seq<char>>, Seq<char>>(written_items(a))
            &&& forall|i: int|
                0 <= i < a.len() ==> reads_typed(json_written(#[trigger] a[i]), a[i])
        },
        JsonTree::String(v) => json_typed::json_text(s) == Ok::<Seq<char>, Seq<char>>(v),
        JsonTree::Number(v) => forall|n: u32|
            v == #[trigger] segment::decimal(n as nat) ==> json_typed::json_small(s) == Ok::<
                u32,
                Seq<char>,
            >(n),
        _ => true,
    }
}

/// Texts under names as the members of an object.
pub open spec fn texts_json(e: Seq<(Seq<char>, Seq<char>)>) -> Seq<(Seq<char>, JsonTree)> {
    e.map_values(|x: (Seq<char>, Seq<char>)| (x.0, JsonTree::String(x.1)))
}

/// `serde_json::Value::to_string`, the compact rendering. A value that is not
/// nested deeper than the reader goes, whose numbers are decimal integers, and
/// which no member name turns into a number, is read back as it was. An object is
/// written as its members, each name as a string with a colon behind it and each value as
/// it is written by itself; an array as its items so; and what is written is read back
/// into an object, an array, a map of strings, a string or a `u32`, whatever its names are.
#[verifier::external_body]
fn json_write(value: &serde_json::Value) -> (r: String)
    ensures
        r@ == json_written(json_tree(*value)),
        plain(json_tree(*value), 100) ==> reads_as(r@, json_tree(*value)),
        reads_typed(r@, json_tree(*value)),
{
    value.to_string()
}

/// The text of a JSON value over several lines.
pub uninterp spec fn json_pretty(t: JsonTree) -> Seq<char>;

/// The alternate `Display` of a `serde_json::Value`, its pretty rendering. What it
/// writes is read back under the same conditions as the compact rendering, also
/// with a line feed behind it, which the reader skips.
#[verifier::external_body]
pub(crate) fn json_write_pretty(value: &serde_json::Value) -> (r: String)
    ensures
        r@ == json_pretty(json_tree(*value)),
        plain(json_tree(*value), 100) ==> reads_as(r@, json_tree(*value)) && reads_as(
            r@.push('\n'),
            json_tree(*value),
        ),
{
    format!("{value:#}")
}

/// A name by which the reader of `serde_json::Value` marks a number or raw text.
pub open spec fn reader_mark(name: Seq<char>) -> bool {
    name == "$serde_json::private::Number"@ || name == "$serde_json::private::RawValue"@
}

/// A value nested at most `depth` levels, with decimal integers for numbers, with
/// distinct member names, none of which the reader takes for a mark of its own.
pub open spec fn plain(t: JsonTree, depth: nat) -> bool
    decreases depth,
{
    match t {
        JsonTree::Number(s) => decimal_integer(s),
        JsonTree::Array(a) => depth > 0 && forall|i: int|
            0 <= i < a.len() ==> plain(#[trigger] a[i], (depth - 1) as nat),
        JsonTree::Object(m) => {
            &&& depth > 0
            &&& names(m).no_duplicates()
            &&& forall|i: int|
                0 <= i < m.len() ==> !reader_mark((#[trigger] m[i]).0) && plain(
                    m[i].1,
                    (depth - 1) as nat,
                )
        },
        _ => true,
    }
}

/// Reads a value of `serde_json`, level by level.
fn from_outside(value: serde_json::Value) -> (r: JsonValue)
    ensures
        r@ == json_tree(value),
        well_named(r@),
    decreases json_tree(value),
{
    let ghost t = json_tree(value);
    match json_shape(value) {
        JsonShape::Null => JsonValue::Null,
        JsonShape::Bool(b) => JsonValue::Bool(b),
        JsonShape::Number(s) => JsonValue::Number(s),
        JsonShape::String(s) => JsonValue::String(s),
        JsonShape::Array(list) => {
            let ghost given = list@;
            let mut rest = list;
            let mut out: Vec<JsonValue> = Vec::new();
            assert(given.skip(0) =~= given);
            while rest.len() > 0
                invariant
                    t == json_tree(value),
                    t == JsonTree::Array(outside_items(given)),
                    out@.len() <= given.len(),
                    rest@ == given.skip(out@.len() as int),
                    forall|j: int|
                        0 <= j < out@.len() ==> (#[trigger] out@[j])@ == json_tree(given[j])
                            && well_named(out@[j]@),
                decreases rest@.len(),
            {
                let ghost k = out@.len() as int;
                let item = rest.remove(0);
                assert(item == given[k]);
                assert(t->Array_0[k] == json_tree(item));
                assert(decreases_to!(t => t->Array_0[k]));
                assert(rest@ =~= given.skip(k + 1));
                out.push(from_outside(item));
            }
            assert(items(out@) =~= outside_items(given));
            let r = JsonValue::Array(out);
            proof {
                lemma_view(r);
                assert forall|i: int| 0 <= i < items(out@).len() implies well_named(
                    #[trigger] items(out@)[i],
                ) by {
                    assert(items(out@)[i] == out@[i]@);
                }
            }
            r
        },
        JsonShape::Object(list) => {
            let ghost given = list@;
            let mut rest = list;
            let mut out: Vec<(String, JsonValue)> = Vec::new();
            assert(given.skip(0) =~= given);
            while rest.len() > 0
                invariant
                    t == json_tree(value),
                    t == JsonTree::Object(outside_members(given)),
                    out@.len() <= given.len(),
                    rest@ == given.skip(out@.len() as int),
                    forall|j: int|
                        0 <= j < out@.len() ==> (#[trigger] out@[j]).0@ == given[j].0@
                            && out@[j].1@ == json_tree(given[j].1) && well_named(out@[j].1@),
                decreases rest@.len(),
            {
                let ghost k = out@.len() as int;
                let (name, item) = rest.remove(0);
                assert((name, item) == given[k]);
                assert(t->Object_0[k] == (name@, json_tree(item)));
                assert(decreases_to!(t => t->Object_0[k].1));
                assert(rest@ =~= given.skip(k + 1));
                out.push((name, from_outside(item)));
            }
            assert(members(out@) =~= outside_members(given));
            let r = JsonValue::Object(out);
            proof {
                lemma_view(r);
                assert forall|i: int| 0 <= i < members(out@).len() implies well_named(
                    #[trigger] members(out@)[i].1,
                ) by {
                    assert(members(out@)[i] == (out@[i].0@, out@[i].1@));
                }
            }
            r
        },
    }
}

/// The numbers of a value as JSON writes them; the first reason where one is none.
pub open spec fn with_numbers(t: JsonTree) -> Result<JsonTree, Seq<char>>
    decreases t, 0nat,
{
    match t {
        JsonTree::Number(s) => match json_number(s) {
            Ok(number) => Ok(JsonTree::Number(number)),
            Err(reason) => Err(reason),
        },
        JsonTree::Array(a) => match items_with_numbers(a, a.len()) {
            Ok(list) => Ok(JsonTree::Array(list)),
            Err(reason) => Err(reason),
        },
        JsonTree::Object(m) => match members_with_numbers(m, m.len()) {
            Ok(list) => Ok(JsonTree::Object(list)),
            Err(reason) => Err(reason),
        },
        _ => Ok(t),
    }
}

pub open spec fn items_with_numbers(a: Seq<JsonTree>, n: nat) -> Result<Seq<JsonTree>, Seq<char>>
    decreases a, n,
{
    if n == 0 || n > a.len() {
        Ok(Seq::empty())
    } else {
        match items_with_numbers(a, (n - 1) as nat) {
            Err(reason) => Err(reason),
            Ok(head) => match with_numbers(a[n - 1]) {
                Err(reason) => Err(reason),
                Ok(item) => Ok(head.push(item)),
            },
        }
    }
}

pub open spec fn members_with_numbers(m: Seq<(Seq<char>, JsonTree)>, n: nat) -> Result<
    Seq<(Seq<char>, JsonTree)>,
    Seq<char>,
>
    decreases m, n,
{
    if n == 0 || n > m.len() {
        Ok(Seq::empty())
    } else {
        match members_with_numbers(m, (n - 1) as nat) {
            Err(reason) => Err(reason),
            Ok(head) => match with_numbers(m[n - 1].1) {
                Err(reason) => Err(reason),
                Ok(item) => Ok(head.push((m[n - 1].0, item))),
            },
        }
    }
}

/// Every number of the value is a decimal integer.
pub open spec fn decimals(t: JsonTree) -> bool
    decreases t,
{
    match t {
        JsonTree::Number(s) => decimal_integer(s),
        JsonTree::Array(a) => forall|i: int| 0 <= i < a.len() ==> decimals(#[trigger] a[i]),
        JsonTree::Object(m) => forall|i: int| 0 <= i < m.len() ==> decimals(#[trigger] m[i].1),
        _ => true,
    }
}

/// A plain value has decimal integers for numbers and distinct names.
pub proof fn lemma_plain(t: JsonTree, depth: nat)
    requires
        plain(t, depth),
    ensures
        decimals(t),
        well_named(t),
    decreases t,
{
    match t {
        JsonTree::Array(a) => {
            assert forall|i: int| 0 <= i < a.len() implies decimals(#[trigger] a[i]) && well_named(
                a[i],
            ) by {
                assert(decreases_to!(a => a[i]));
                lemma_plain(a[i], (depth - 1) as nat);
            }
        },
        JsonTree::Object(m) => {
            assert forall|i: int| 0 <= i < m.len() implies decimals(#[trigger] m[i].1)
                && well_named(m[i].1) by {
                assert(decreases_to!(m => m[i].1));
                assert(plain(m[i].1, (depth - 1) as nat));
                lemma_plain(m[i].1, (depth - 1) as nat);
            }
        },
        _ => {},
    }
}

/// No object of the value holds a name twice.
pub open spec fn well_named(t: JsonTree) -> bool
    decreases t,
{
    match t {
        JsonTree::Array(a) => forall|i: int| 0 <= i < a.len() ==> well_named(#[trigger] a[i]),
        JsonTree::Object(m) => {
            &&& names(m).no_duplicates()
            &&& forall|i: int| 0 <= i < m.len() ==> well_named(#[trigger] m[i].1)
        },
        _ => true,
    }
}

proof fn lemma_items_fail(a: Seq<JsonTree>, n: nat, k: nat)
    requires
        n <= k <= a.len(),
        items_with_numbers(a, n) is Err,
    ensures
        items_with_numbers(a, k) == items_with_numbers(a, n),
    decreases k,
{
    if n < k {
        lemma_items_fail(a, n, (k - 1) as nat);
    }
}

proof fn lemma_members_fail(m: Seq<(Seq<char>, JsonTree)>, n: nat, k: nat)
    requires
        n <= k <= m.len(),
        members_with_numbers(m, n) is Err,
    ensures
        members_with_numbers(m, k) == members_with_numbers(m, n),
    decreases k,
{
    if n < k {
        lemma_members_fail(m, n, (k - 1) as nat);
    }
}

/// Makes a value of `serde_json`, level by level.
fn to_outside(value: &JsonValue) -> (r: Result<serde_json::Value, String>)
    requires
        well_named(value@),
    ensures
        match r {
            Ok(v) => with_numbers(value@) == Ok::<JsonTree, Seq<char>>(json_tree(v)),
            Err(reason) => with_numbers(value@) == Err::<JsonTree, Seq<char>>(reason@),
        },
        decimals(value@) ==> (r matches Ok(v) && json_tree(v) == value@),
    decreases value,
{
    proof {
        lemma_view(*value);
    }
    match value {
        JsonValue::Null => Ok(json_build(JsonParts::Null)),
        JsonValue::Bool(b) => Ok(json_build(JsonParts::Bool(*b))),
        JsonValue::Number(s) => parse_number(s.as_str()),
        JsonValue::String(s) => Ok(json_build(JsonParts::String(s.clone()))),
        JsonValue::Array(v) => {
            let ghost a = items(v@);
            let mut out: Vec<serde_json::Value> = Vec::new();
            let mut i: usize = 0;
            assert(outside_items(out@) =~= Seq::<JsonTree>::empty());
            while i < v.len()
                invariant
                    decreases_to!(value => v@),
                    a == items(v@),
                    value@ == JsonTree::Array(a),
                    well_named(value@),
                    i <= v.len(),
                    items_with_numbers(a, i as nat) == Ok::<Seq<JsonTree>, Seq<char>>(
                        outside_items(out@),
                    ),
                    decimals(value@) ==> outside_items(out@) =~= a.take(i as int),
                decreases v.len() - i,
            {
                assert(decreases_to!(v@ => v@[i as int]));
                assert(a[i as int] == v@[i as int]@);
                match to_outside(&v[i]) {
                    Ok(item) => {
                        let ghost before = out@;
                        out.push(item);
                        assert(outside_items(out@) =~= outside_items(before).push(
                            json_tree(item),
                        ));
                    },
                    Err(reason) => {
                        proof {
                            lemma_items_fail(a, (i + 1) as nat, a.len());
                        }
                        return Err(reason);
                    },
                }
                i = i + 1;
            }
            assert(a.take(i as int) =~= a);
            Ok(json_build(JsonParts::Array(out)))
        },
        JsonValue::Object(v) => {
            let ghost m = members(v@);
            let mut out: Vec<(String, serde_json::Value)> = Vec::new();
            let mut i: usize = 0;
            assert(outside_members(out@) =~= Seq::<(Seq<char>, JsonTree)>::empty());
            while i < v.len()
                invariant
                    decreases_to!(value => v@),
                    m == members(v@),
                    value@ == JsonTree::Object(m),
                    well_named(value@),
                    i <= v.len(),
                    out@.len() == i,
                    members_with_numbers(m, i as nat) == Ok::<
                        Seq<(Seq<char>, JsonTree)>,
                        Seq<char>,
                    >(outside_members(out@)),
                    forall|j: int| 0 <= j < i ==> (#[trigger] out@[j]).0@ == m[j].0,
                    decimals(value@) ==> outside_members(out@) =~= m.take(i as int),
                decreases v.len() - i,
            {
                assert(decreases_to!(v@ => v@[i as int]));
                assert(m[i as int] == (v@[i as int].0@, v@[i as int].1@));
                assert(well_named(m[i as int].1));
                match to_outside(&v[i].1) {
                    Ok(item) => {
                        let ghost before = out@;
                        out.push((v[i].0.clone(), item));
                        assert(outside_members(out@) =~= outside_members(before).push(
                            (m[i as int].0, json_tree(item)),
                        ));
                    },
                    Err(reason) => {
                        proof {
                            lemma_members_fail(m, (i + 1) as nat, m.len());
                        }
                        return Err(reason);
                    },
                }
                i = i + 1;
            }
            assert(names(outside_members(out@)) =~= names(m));
            assert(m.take(i as int) =~= m);
            Ok(json_build(JsonParts::Object(out)))
        },
    }
}

/// Reads the bytes of a JSON text.
pub fn parse(bytes: &[u8]) -> (r: Result<JsonValue, String>)
    ensures
        match r {
            Ok(value) => json_parsed(bytes@) == Ok::<JsonTree, Seq<char>>(value@) && well_named(
                value@,
            ),
            Err(reason) => json_parsed(bytes@) == Err::<JsonTree, Seq<char>>(reason@),
        },
{
    match json_read(bytes) {
        Ok(value) => Ok(from_outside(value)),
        Err(reason) => Err(reason),
    }
}

/// Writes a JSON value on one line.
pub fn write(value: &JsonValue) -> (r: Result<String, String>)
    requires
        well_named(value@),
    ensures
        match (r, with_numbers(value@)) {
            (Ok(s), Ok(t)) => s@ == json_written(t) && (plain(t, 100) ==> reads_as(s@, t))
                && reads_typed(s@, t),
            (Err(e), Err(reason)) => e@ == reason,
            _ => false,
        },
        decimals(value@) ==> r.is_ok() && with_numbers(value@) == Ok::<JsonTree, Seq<char>>(value@),
{
    match to_outside(value) {
        Ok(v) => Ok(json_write(&v)),
        Err(reason) => Err(reason),
    }
}

/// Writes a JSON value over several lines.
pub fn write_pretty(value: &JsonValue) -> (r: Result<String, String>)
    requires
        well_named(value@),
    ensures
        match (r, with_numbers(value@)) {
            (Ok(s), Ok(t)) => s@ == json_pretty(t) && (plain(t, 100) ==> reads_as(s@, t)
                && reads_as(s@.push('\n'), t)),
            (Err(e), Err(reason)) => e@ == reason,
            _ => false,
        },
        decimals(value@) ==> r.is_ok() && with_numbers(value@) == Ok::<JsonTree, Seq<char>>(value@),
{
    match to_outside(value) {
        Ok(v) => Ok(json_write_pretty(&v)),
        Err(reason) => Err(reason),
    }
}

impl JsonValue {
    /// The member of an object with the given name.
    pub fn get(&self, name: &str) -> (r: Option<&JsonValue>)
        ensures
            match r {
                Some(v) => self@ is Object && member(self@->Object_0, name@) == Some(v@),
                None => self@ is Object ==> member(self@->Object_0, name@) is None,
            },
            r matches Some(v) ==> decreases_to!(self => *v),
    {
        proof {
            lemma_view(*self);
        }
        match self {
            JsonValue::Object(v) => {
                let ghost m = members(v@);
                let mut i: usize = 0;
                assert(m.skip(0) =~= m);
                while i < v.len()
                    invariant
                        decreases_to!(self => v@),
                        self@ == JsonTree::Object(m),
                        m == members(v@),
                        i <= v.len(),
                        member(m.skip(i as int), name@) == member(m, name@),
                    decreases v.len() - i,
                {
                    assert(decreases_to!(v@ => v@[i as int]));
                    assert(m.skip(i as int)[0] == (v@[i as int].0@, v@[i as int].1@));
                    if text::eq(v[i].0.as_str(), name) {
                        return Some(&v[i].1);
                    }
                    assert(m.skip(i as int).skip(1) =~= m.skip(i + 1));
                    i = i + 1;
                }
                None
            },
            _ => None,
        }
    }
}

} // verus!
