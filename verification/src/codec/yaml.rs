//! YAML values. Numbers are kept as they are shown.

use vstd::prelude::*;

use crate::codec::integer;
use crate::text;

verus! {

/// The content of a YAML value.
pub enum YamlTree {
    Null,
    Bool(bool),
    Number(Seq<char>),
    String(Seq<char>),
    Sequence(Seq<YamlTree>),
    Mapping(Seq<(YamlTree, YamlTree)>),
    Tagged(Seq<char>, Box<YamlTree>),
}

/// A YAML value.
pub enum YamlValue {
    Null,
    Bool(bool),
    Number(String),
    String(String),
    Sequence(Vec<YamlValue>),
    Mapping(Vec<(YamlValue, YamlValue)>),
    Tagged(String, Box<YamlValue>),
}

impl YamlValue {
    pub open spec fn view(&self) -> YamlTree
        decreases self,
    {
        match self {
            YamlValue::Null => YamlTree::Null,
            YamlValue::Bool(b) => YamlTree::Bool(*b),
            YamlValue::Number(s) => YamlTree::Number(s@),
            YamlValue::String(s) => YamlTree::String(s@),
            YamlValue::Sequence(v) => YamlTree::Sequence(
                Seq::new(
                    v@.len(),
                    |i: int|
                        if 0 <= i < v@.len() {
                            v@[i].view()
                        } else {
                            arbitrary()
                        },
                ),
            ),
            YamlValue::Mapping(v) => YamlTree::Mapping(
                Seq::new(
                    v@.len(),
                    |i: int|
                        if 0 <= i < v@.len() {
                            (v@[i].0.view(), v@[i].1.view())
                        } else {
                            arbitrary()
                        },
                ),
            ),
            YamlValue::Tagged(tag, v) => YamlTree::Tagged(tag@, Box::new(v.view())),
        }
    }
}

pub open spec fn items(v: Seq<YamlValue>) -> Seq<YamlTree> {
    v.map_values(|x: YamlValue| x@)
}

pub open spec fn pairs(v: Seq<(YamlValue, YamlValue)>) -> Seq<(YamlTree, YamlTree)> {
    v.map_values(|x: (YamlValue, YamlValue)| (x.0@, x.1@))
}

pub proof fn lemma_view(v: YamlValue)
    ensures
        v matches YamlValue::Sequence(a) ==> v@ == YamlTree::Sequence(items(a@)),
        v matches YamlValue::Mapping(a) ==> v@ == YamlTree::Mapping(pairs(a@)),
{
    match v {
        YamlValue::Sequence(a) => {
            assert(v@->Sequence_0 =~= items(a@));
        },
        YamlValue::Mapping(a) => {
            assert(v@->Mapping_0 =~= pairs(a@));
        },
        _ => {},
    }
}

/// Every tag among the values has a name.
pub open spec fn named(t: YamlTree) -> bool
    decreases t,
{
    match t {
        YamlTree::Sequence(s) => forall|i: int| 0 <= i < s.len() ==> named(#[trigger] s[i]),
        YamlTree::Mapping(m) => forall|i: int| 0 <= i < m.len() ==> named((#[trigger] m[i]).1),
        YamlTree::Tagged(tag, v) => tag.len() > 0 && named(*v),
        _ => true,
    }
}

/// The tags below the tags of a mapping have names too.
pub proof fn lemma_named_mapping(t: YamlTree)
    requires
        named(t),
    ensures
        mapping_of(t) matches Some(m) ==> named(YamlTree::Mapping(m)),
    decreases t,
{
    match t {
        YamlTree::Tagged(_, v) => {
            lemma_named_mapping(*v);
        },
        _ => {},
    }
}

/// The tags of an entry have names.
pub proof fn lemma_named_entry(m: Seq<(YamlTree, YamlTree)>, key: Seq<char>)
    requires
        named(YamlTree::Mapping(m)),
    ensures
        entry_of(m, key) matches Some(v) ==> named(v),
    decreases m.len(),
{
    let t = YamlTree::Mapping(m);
    if m.len() > 0 {
        assert(named(t->Mapping_0[0].1));
        let rest = m.skip(1);
        assert(named(YamlTree::Mapping(rest))) by {
            assert forall|i: int| 0 <= i < rest.len() implies named((#[trigger] rest[i]).1) by {
                assert(named(t->Mapping_0[i + 1].1));
                assert(rest[i] == m[i + 1]);
            }
        }
        lemma_named_entry(rest, key);
    }
}

/// The value below its tags.
pub open spec fn untagged(t: YamlTree) -> YamlTree
    decreases t,
{
    match t {
        YamlTree::Tagged(_, v) => untagged(*v),
        _ => t,
    }
}

/// The text of a string, below its tags.
pub open spec fn text_of(t: YamlTree) -> Option<Seq<char>> {
    match untagged(t) {
        YamlTree::String(s) => Some(s),
        _ => None,
    }
}

/// The entries of a mapping, below its tags.
pub open spec fn mapping_of(t: YamlTree) -> Option<Seq<(YamlTree, YamlTree)>> {
    match untagged(t) {
        YamlTree::Mapping(m) => Some(m),
        _ => None,
    }
}

/// The items of a sequence, below its tags.
pub open spec fn sequence_of(t: YamlTree) -> Option<Seq<YamlTree>> {
    match untagged(t) {
        YamlTree::Sequence(s) => Some(s),
        _ => None,
    }
}

/// The value of the first entry whose key is the given string, untagged.
pub open spec fn entry_of(m: Seq<(YamlTree, YamlTree)>, key: Seq<char>) -> Option<YamlTree>
    decreases m.len(),
{
    if m.len() == 0 {
        None
    } else if m[0].0 == YamlTree::String(key) {
        Some(m[0].1)
    } else {
        entry_of(m.skip(1), key)
    }
}

#[verifier::external_type_specification]
#[verifier::external_body]
pub struct ExYamlValue(yaml_serde::Value);

/// The content of a value of `yaml_serde`. The keys of a mapping are distinct and
/// in the order of the text; a tag is shown with one leading exclamation mark.
pub uninterp spec fn yaml_tree(v: yaml_serde::Value) -> YamlTree;

/// One level of a YAML value.
pub enum YamlShape {
    Null,
    Bool(bool),
    Number(String),
    String(String),
    Sequence(Vec<yaml_serde::Value>),
    Mapping(Vec<(yaml_serde::Value, yaml_serde::Value)>),
    Tagged(String, yaml_serde::Value),
}

pub open spec fn outside_items(v: Seq<yaml_serde::Value>) -> Seq<YamlTree> {
    v.map_values(|x: yaml_serde::Value| yaml_tree(x))
}

pub open spec fn outside_pairs(v: Seq<(yaml_serde::Value, yaml_serde::Value)>) -> Seq<
    (YamlTree, YamlTree),
> {
    v.map_values(|x: (yaml_serde::Value, yaml_serde::Value)| (yaml_tree(x.0), yaml_tree(x.1)))
}

impl YamlShape {
    pub open spec fn tree(self) -> YamlTree {
        match self {
            YamlShape::Null => YamlTree::Null,
            YamlShape::Bool(b) => YamlTree::Bool(b),
            YamlShape::Number(s) => YamlTree::Number(s@),
            YamlShape::String(s) => YamlTree::String(s@),
            YamlShape::Sequence(v) => YamlTree::Sequence(outside_items(v@)),
            YamlShape::Mapping(v) => YamlTree::Mapping(outside_pairs(v@)),
            YamlShape::Tagged(tag, v) => YamlTree::Tagged(tag@, Box::new(yaml_tree(v))),
        }
    }
}

/// Takes one level of a `yaml_serde::Value` apart, variant by variant. Numbers
/// and tags are shown by their `Display`, a tag with a leading exclamation mark.
#[verifier::external_body]
fn yaml_shape(value: yaml_serde::Value) -> (r: YamlShape)
    ensures
        r.tree() == yaml_tree(value),
        r matches YamlShape::Tagged(tag, _) ==> tag@.len() > 0,
{
    match value {
        yaml_serde::Value::Null => YamlShape::Null,
        yaml_serde::Value::Bool(flag) => YamlShape::Bool(flag),
        yaml_serde::Value::Number(number) => YamlShape::Number(number.to_string()),
        yaml_serde::Value::String(text) => YamlShape::String(text),
        yaml_serde::Value::Sequence(list) => YamlShape::Sequence(list),
        yaml_serde::Value::Mapping(map) => YamlShape::Mapping(map.into_iter().collect()),
        yaml_serde::Value::Tagged(tagged) => YamlShape::Tagged(
            tagged.tag.to_string(),
            tagged.value,
        ),
    }
}

/// The parts of one level of a value that is no number.
pub enum YamlParts {
    Null,
    Bool(bool),
    String(String),
    Sequence(Vec<yaml_serde::Value>),
    Mapping(Vec<(String, yaml_serde::Value)>),
    Tagged(String, yaml_serde::Value),
}

pub open spec fn keyed(v: Seq<(String, yaml_serde::Value)>) -> Seq<(YamlTree, YamlTree)> {
    v.map_values(|x: (String, yaml_serde::Value)| (YamlTree::String(x.0@), yaml_tree(x.1)))
}

pub open spec fn key_texts(v: Seq<(String, yaml_serde::Value)>) -> Seq<Seq<char>> {
    v.map_values(|x: (String, yaml_serde::Value)| x.0@)
}

/// A tag as it is shown: with one leading exclamation mark more than none.
pub open spec fn shown_tag(tag: Seq<char>) -> Seq<char> {
    if tag.len() > 1 && tag[0] == '!' {
        tag
    } else {
        seq!['!'] + tag
    }
}

impl YamlParts {
    pub open spec fn tree(self) -> YamlTree {
        match self {
            YamlParts::Null => YamlTree::Null,
            YamlParts::Bool(b) => YamlTree::Bool(b),
            YamlParts::String(s) => YamlTree::String(s@),
            YamlParts::Sequence(v) => YamlTree::Sequence(outside_items(v@)),
            YamlParts::Mapping(v) => YamlTree::Mapping(keyed(v@)),
            YamlParts::Tagged(tag, v) => YamlTree::Tagged(
                shown_tag(tag@),
                Box::new(yaml_tree(v)),
            ),
        }
    }
}

/// Puts one level of a value together, variant by variant: `yaml_serde::Value`,
/// for a mapping `yaml_serde::Mapping`, which keeps the order in which entries with
/// new keys are put in, and for a tag `yaml_serde::value::Tag::new`, which panics
/// on an empty text.
#[verifier::external_body]
pub(crate) fn yaml_build(parts: YamlParts) -> (r: yaml_serde::Value)
    requires
        parts matches YamlParts::Mapping(v) ==> key_texts(v@).no_duplicates(),
        parts matches YamlParts::Tagged(tag, _) ==> tag@.len() > 0,
    ensures
        yaml_tree(r) == parts.tree(),
{
    match parts {
        YamlParts::Null => yaml_serde::Value::Null,
        YamlParts::Bool(flag) => yaml_serde::Value::Bool(flag),
        YamlParts::String(text) => yaml_serde::Value::String(text),
        YamlParts::Sequence(list) => yaml_serde::Value::Sequence(list),
        YamlParts::Mapping(list) => yaml_serde::Value::Mapping(
            list.into_iter().map(|(key, value)| (key.into(), value)).collect(),
        ),
        YamlParts::Tagged(tag, value) => yaml_serde::Value::Tagged(
            Box::new(yaml_serde::value::TaggedValue { tag: yaml_serde::value::Tag::new(tag), value }),
        ),
    }
}

/// `yaml_serde::Number::from` a 64-bit integer, which is shown in decimal.
#[verifier::external_body]
pub(crate) fn yaml_integer(n: i64) -> (r: yaml_serde::Value)
    ensures
        yaml_tree(r) == YamlTree::Number(integer::integer_text(n as int)),
{
    yaml_serde::Value::Number(yaml_serde::Number::from(n))
}

/// A floating-point number as YAML shows it, or why the text is none.
pub uninterp spec fn yaml_float_text(s: Seq<char>) -> Result<Seq<char>, Seq<char>>;

/// `str::parse` of a floating-point number, then `yaml_serde::Number::from` it.
#[verifier::external_body]
pub(crate) fn yaml_float(s: &str) -> (r: Result<yaml_serde::Value, String>)
    ensures
        match r {
            Ok(value) => yaml_tree(value) is Number && yaml_float_text(s@) == Ok::<
                Seq<char>,
                Seq<char>,
            >(yaml_tree(value)->Number_0),
            Err(reason) => yaml_float_text(s@) == Err::<Seq<char>, Seq<char>>(reason@),
        },
{
    let number = s.parse().map_err(|error: std::num::ParseFloatError| error.to_string())?;
    serde::Serializer::serialize_f64(yaml_serde::value::Serializer, number).map_err(
        |error| error.to_string(),
    )
}

/// What a YAML text of one document holds, or why it holds nothing.
pub uninterp spec fn yaml_parsed(s: Seq<char>) -> Result<YamlTree, Seq<char>>;

/// `yaml_serde::from_str` into a `yaml_serde::Value`.
#[verifier::external_body]
fn yaml_read(s: &str) -> (r: Result<yaml_serde::Value, String>)
    ensures
        match r {
            Ok(value) => yaml_parsed(s@) == Ok::<YamlTree, Seq<char>>(yaml_tree(value)),
            Err(reason) => yaml_parsed(s@) == Err::<YamlTree, Seq<char>>(reason@),
        },
{
    yaml_serde::from_str::<yaml_serde::Value>(s).map_err(|error| error.to_string())
}

/// The text of a YAML value, or why it has none.
pub uninterp spec fn yaml_written(t: YamlTree) -> Result<Seq<char>, Seq<char>>;

/// `yaml_serde::to_string` of a `yaml_serde::Value`.
#[verifier::external_body]
pub(crate) fn yaml_write(value: &yaml_serde::Value) -> (r: Result<String, String>)
    ensures
        match r {
            Ok(s) => yaml_written(yaml_tree(*value)) == Ok::<Seq<char>, Seq<char>>(s@),
            Err(reason) => yaml_written(yaml_tree(*value)) == Err::<Seq<char>, Seq<char>>(reason@),
        },
{
    yaml_serde::to_string(value).map_err(|error| error.to_string())
}

/// Reads a value of `yaml_serde`, level by level.
fn from_outside(value: yaml_serde::Value) -> (r: YamlValue)
    ensures
        r@ == yaml_tree(value),
        named(r@),
    decreases yaml_tree(value),
{
    let ghost t = yaml_tree(value);
    match yaml_shape(value) {
        YamlShape::Null => YamlValue::Null,
        YamlShape::Bool(b) => YamlValue::Bool(b),
        YamlShape::Number(s) => YamlValue::Number(s),
        YamlShape::String(s) => YamlValue::String(s),
        YamlShape::Tagged(tag, inner) => {
            assert(*t->Tagged_1 == yaml_tree(inner));
            assert(decreases_to!(t => t->Tagged_1));
            YamlValue::Tagged(tag, Box::new(from_outside(inner)))
        },
        YamlShape::Sequence(list) => {
            let ghost given = list@;
            let mut rest = list;
            let mut out: Vec<YamlValue> = Vec::new();
            assert(given.skip(0) =~= given);
            while rest.len() > 0
                invariant
                    t == yaml_tree(value),
                    t == YamlTree::Sequence(outside_items(given)),
                    out@.len() <= given.len(),
                    rest@ == given.skip(out@.len() as int),
                    forall|j: int|
                        0 <= j < out@.len() ==> (#[trigger] out@[j])@ == yaml_tree(given[j])
                            && named(out@[j]@),
                decreases rest@.len(),
            {
                let ghost k = out@.len() as int;
                let item = rest.remove(0);
                assert(item == given[k]);
                assert(t->Sequence_0[k] == yaml_tree(item));
                assert(decreases_to!(t => t->Sequence_0[k]));
                assert(rest@ =~= given.skip(k + 1));
                out.push(from_outside(item));
            }
            assert(items(out@) =~= outside_items(given));
            let ghost read = out@;
            let r = YamlValue::Sequence(out);
            proof {
                lemma_view(r);
                assert forall|i: int| 0 <= i < read.len() implies named(
                    #[trigger] items(read)[i],
                ) by {
                    assert(items(read)[i] == read[i]@);
                }
            }
            r
        },
        YamlShape::Mapping(list) => {
            let ghost given = list@;
            let mut rest = list;
            let mut out: Vec<(YamlValue, YamlValue)> = Vec::new();
            assert(given.skip(0) =~= given);
            while rest.len() > 0
                invariant
                    t == yaml_tree(value),
                    t == YamlTree::Mapping(outside_pairs(given)),
                    out@.len() <= given.len(),
                    rest@ == given.skip(out@.len() as int),
                    forall|j: int|
                        0 <= j < out@.len() ==> (#[trigger] out@[j]).0@ == yaml_tree(given[j].0)
                            && out@[j].1@ == yaml_tree(given[j].1) && named(out@[j].1@),
                decreases rest@.len(),
            {
                let ghost k = out@.len() as int;
                let (key, item) = rest.remove(0);
                assert((key, item) == given[k]);
                assert(t->Mapping_0[k] == (yaml_tree(key), yaml_tree(item)));
                assert(decreases_to!(t => t->Mapping_0[k].0));
                assert(decreases_to!(t => t->Mapping_0[k].1));
                assert(rest@ =~= given.skip(k + 1));
                out.push((from_outside(key), from_outside(item)));
            }
            assert(pairs(out@) =~= outside_pairs(given));
            let ghost read = out@;
            let r = YamlValue::Mapping(out);
            proof {
                lemma_view(r);
                assert forall|i: int| 0 <= i < read.len() implies named(
                    (#[trigger] pairs(read)[i]).1,
                ) by {
                    assert(pairs(read)[i] == (read[i].0@, read[i].1@));
                }
            }
            r
        },
    }
}

/// Reads a YAML text of one document.
pub fn parse(s: &str) -> (r: Result<YamlValue, String>)
    ensures
        match r {
            Ok(value) => yaml_parsed(s@) == Ok::<YamlTree, Seq<char>>(value@) && named(value@),
            Err(reason) => yaml_parsed(s@) == Err::<YamlTree, Seq<char>>(reason@),
        },
{
    match yaml_read(s) {
        Ok(value) => Ok(from_outside(value)),
        Err(reason) => Err(reason),
    }
}

impl YamlValue {
    pub fn below_tags(&self) -> (r: &YamlValue)
        ensures
            r@ == untagged(self@),
            r !is Tagged,
            r == self || decreases_to!(self => r),
        decreases self,
    {
        match self {
            YamlValue::Tagged(_, v) => v.below_tags(),
            _ => self,
        }
    }

    pub fn as_text(&self) -> (r: Option<&String>)
        ensures
            match r {
                Some(s) => text_of(self@) == Some(s@),
                None => text_of(self@) is None,
            },
    {
        match self.below_tags() {
            YamlValue::String(s) => Some(s),
            _ => None,
        }
    }

    pub fn as_mapping(&self) -> (r: Option<&Vec<(YamlValue, YamlValue)>>)
        ensures
            match r {
                Some(m) => mapping_of(self@) == Some(pairs(m@)) && decreases_to!(self => m@),
                None => mapping_of(self@) is None,
            },
    {
        let v = self.below_tags();
        proof {
            lemma_view(*v);
        }
        match v {
            YamlValue::Mapping(m) => Some(m),
            _ => None,
        }
    }

    pub fn as_sequence(&self) -> (r: Option<&Vec<YamlValue>>)
        ensures
            match r {
                Some(s) => sequence_of(self@) == Some(items(s@)) && decreases_to!(self => s@),
                None => sequence_of(self@) is None,
            },
    {
        let v = self.below_tags();
        proof {
            lemma_view(*v);
        }
        match v {
            YamlValue::Sequence(s) => Some(s),
            _ => None,
        }
    }
}

/// The value of the first entry whose key is the given string.
pub fn get<'a>(m: &'a Vec<(YamlValue, YamlValue)>, key: &str) -> (r: Option<&'a YamlValue>)
    ensures
        match r {
            Some(v) => entry_of(pairs(m@), key@) == Some(v@),
            None => entry_of(pairs(m@), key@) is None,
        },
{
    let ghost p = pairs(m@);
    let mut i: usize = 0;
    assert(p.skip(0) =~= p);
    while i < m.len()
        invariant
            p == pairs(m@),
            i <= m.len(),
            entry_of(p.skip(i as int), key@) == entry_of(p, key@),
        decreases m.len() - i,
    {
        assert(p.skip(i as int)[0] == (m@[i as int].0@, m@[i as int].1@));
        proof {
            lemma_view(m@[i as int].0);
        }
        match &m[i].0 {
            YamlValue::String(s) => {
                if text::eq(s.as_str(), key) {
                    return Some(&m[i].1);
                }
            },
            _ => {},
        }
        assert(p.skip(i as int).skip(1) =~= p.skip(i + 1));
        i = i + 1;
    }
    None
}

/// An entry is held where one of the keys is its key.
pub proof fn lemma_entry_of(m: Seq<(YamlTree, YamlTree)>, key: Seq<char>)
    ensures
        entry_of(m, key) is Some <==> exists|i: int|
            0 <= i < m.len() && (#[trigger] m[i]).0 == YamlTree::String(key),
        entry_of(m, key) matches Some(v) ==> exists|i: int|
            0 <= i < m.len() && (#[trigger] m[i]) == (YamlTree::String(key), v),
    decreases m.len(),
{
    if m.len() > 0 {
        let rest = m.skip(1);
        lemma_entry_of(rest, key);
        assert(forall|i: int| 0 <= i < rest.len() ==> rest[i] == m[i + 1]);
        if m[0].0 == YamlTree::String(key) {
            assert(m[0] == (YamlTree::String(key), m[0].1));
        } else if entry_of(rest, key) is Some {
            let v = entry_of(rest, key)->Some_0;
            let i = choose|i: int|
                0 <= i < rest.len() && (#[trigger] rest[i]) == (YamlTree::String(key), v);
            assert(m[i + 1] == (YamlTree::String(key), v));
        } else {
            assert forall|i: int| 0 <= i < m.len() implies (#[trigger] m[i]).0 != YamlTree::String(
                key,
            ) by {
                if i > 0 {
                    assert(rest[i - 1] == m[i]);
                }
            }
        }
    }
}

} // verus!
