//! TOML values, the syntax of TOML documents, and the texts of values.

use vstd::prelude::*;

verus! {

/// The content of a TOML value. Floats and times are kept as they are shown.
pub enum TomlTree {
    String(Seq<char>),
    Integer(int),
    Float(Seq<char>),
    Bool(bool),
    DateTime(Seq<char>),
    Array(Seq<TomlTree>),
    Table(Seq<(Seq<char>, TomlTree)>),
}

/// A TOML value.
pub enum TomlValue {
    String(String),
    Integer(i64),
    Float(String),
    Bool(bool),
    DateTime(String),
    Array(Vec<TomlValue>),
    Table(Vec<(String, TomlValue)>),
}

impl TomlValue {
    pub open spec fn view(&self) -> TomlTree
        decreases self,
    {
        match self {
            TomlValue::String(s) => TomlTree::String(s@),
            TomlValue::Integer(n) => TomlTree::Integer(*n as int),
            TomlValue::Float(s) => TomlTree::Float(s@),
            TomlValue::Bool(b) => TomlTree::Bool(*b),
            TomlValue::DateTime(s) => TomlTree::DateTime(s@),
            TomlValue::Array(v) => TomlTree::Array(
                Seq::new(
                    v@.len(),
                    |i: int|
                        if 0 <= i < v@.len() {
                            v@[i].view()
                        } else {
                            arbitrary()
                        },
                ),
            ),
            TomlValue::Table(v) => TomlTree::Table(
                Seq::new(
                    v@.len(),
                    |i: int|
                        if 0 <= i < v@.len() {
                            (v@[i].0@, v@[i].1.view())
                        } else {
                            arbitrary()
                        },
                ),
            ),
        }
    }
}

pub open spec fn items(v: Seq<TomlValue>) -> Seq<TomlTree> {
    v.map_values(|x: TomlValue| x@)
}

pub open spec fn members(v: Seq<(String, TomlValue)>) -> Seq<(Seq<char>, TomlTree)> {
    v.map_values(|x: (String, TomlValue)| (x.0@, x.1@))
}

pub open spec fn names(m: Seq<(Seq<char>, TomlTree)>) -> Seq<Seq<char>> {
    m.map_values(|x: (Seq<char>, TomlTree)| x.0)
}

pub proof fn lemma_view(v: TomlValue)
    ensures
        v matches TomlValue::Array(a) ==> v@ == TomlTree::Array(items(a@)),
        v matches TomlValue::Table(a) ==> v@ == TomlTree::Table(members(a@)),
{
    match v {
        TomlValue::Array(a) => {
            assert(v@->Array_0 =~= items(a@));
        },
        TomlValue::Table(a) => {
            assert(v@->Table_0 =~= members(a@));
        },
        _ => {},
    }
}

/// No table of the value holds a name twice.
pub open spec fn well_named(t: TomlTree) -> bool
    decreases t,
{
    match t {
        TomlTree::Array(a) => forall|i: int| 0 <= i < a.len() ==> well_named(#[trigger] a[i]),
        TomlTree::Table(m) => {
            &&& names(m).no_duplicates()
            &&& forall|i: int| 0 <= i < m.len() ==> well_named(#[trigger] m[i].1)
        },
        _ => true,
    }
}

#[verifier::external_type_specification]
#[verifier::external_body]
pub struct ExTomlValue(toml::Value);

/// The content of a value of `toml`.
pub uninterp spec fn toml_tree(v: toml::Value) -> TomlTree;

/// One level of a TOML value.
pub enum TomlShape {
    String(String),
    Integer(i64),
    Float(String),
    Bool(bool),
    DateTime(String),
    Array(Vec<toml::Value>),
    Table(Vec<(String, toml::Value)>),
}

pub open spec fn outside_items(v: Seq<toml::Value>) -> Seq<TomlTree> {
    v.map_values(|x: toml::Value| toml_tree(x))
}

pub open spec fn outside_members(v: Seq<(String, toml::Value)>) -> Seq<(Seq<char>, TomlTree)> {
    v.map_values(|x: (String, toml::Value)| (x.0@, toml_tree(x.1)))
}

impl TomlShape {
    pub open spec fn tree(self) -> TomlTree {
        match self {
            TomlShape::String(s) => TomlTree::String(s@),
            TomlShape::Integer(n) => TomlTree::Integer(n as int),
            TomlShape::Float(s) => TomlTree::Float(s@),
            TomlShape::Bool(b) => TomlTree::Bool(b),
            TomlShape::DateTime(s) => TomlTree::DateTime(s@),
            TomlShape::Array(v) => TomlTree::Array(outside_items(v@)),
            TomlShape::Table(v) => TomlTree::Table(outside_members(v@)),
        }
    }

    /// A table whose names are distinct, or no table.
    pub open spec fn distinct(self) -> bool {
        self matches TomlShape::Table(v) ==> names(outside_members(v@)).no_duplicates()
    }
}

/// Takes one level of a `toml::Value` apart, variant by variant. Floats and times
/// are shown by their `Display`; a table is a map, so its names are distinct.
#[verifier::external_body]
fn toml_shape(value: toml::Value) -> (r: TomlShape)
    ensures
        r.tree() == toml_tree(value),
        r.distinct(),
{
    match value {
        toml::Value::String(text) => TomlShape::String(text),
        toml::Value::Integer(number) => TomlShape::Integer(number),
        toml::Value::Float(number) => TomlShape::Float(number.to_string()),
        toml::Value::Boolean(flag) => TomlShape::Bool(flag),
        toml::Value::Datetime(time) => TomlShape::DateTime(time.to_string()),
        toml::Value::Array(list) => TomlShape::Array(list),
        toml::Value::Table(table) => TomlShape::Table(table.into_iter().collect()),
    }
}

/// What a TOML text holds, or why it holds nothing.
pub uninterp spec fn toml_parsed(s: Seq<char>) -> Result<TomlTree, Seq<char>>;

/// `toml::from_str` into a `toml::Value`.
#[verifier::external_body]
fn toml_read(s: &str) -> (r: Result<toml::Value, String>)
    ensures
        match r {
            Ok(value) => toml_parsed(s@) == Ok::<TomlTree, Seq<char>>(toml_tree(value)),
            Err(reason) => toml_parsed(s@) == Err::<TomlTree, Seq<char>>(reason@),
        },
{
    toml::from_str::<toml::Value>(s).map_err(|error| error.to_string())
}

/// Reads a value of `toml`, level by level.
fn from_outside(value: toml::Value) -> (r: TomlValue)
    ensures
        r@ == toml_tree(value),
        well_named(r@),
    decreases toml_tree(value),
{
    let ghost t = toml_tree(value);
    match toml_shape(value) {
        TomlShape::String(s) => TomlValue::String(s),
        TomlShape::Integer(n) => TomlValue::Integer(n),
        TomlShape::Float(s) => TomlValue::Float(s),
        TomlShape::Bool(b) => TomlValue::Bool(b),
        TomlShape::DateTime(s) => TomlValue::DateTime(s),
        TomlShape::Array(list) => {
            let ghost given = list@;
            let mut rest = list;
            let mut out: Vec<TomlValue> = Vec::new();
            assert(given.skip(0) =~= given);
            while rest.len() > 0
                invariant
                    t == toml_tree(value),
                    t == TomlTree::Array(outside_items(given)),
                    out@.len() <= given.len(),
                    rest@ == given.skip(out@.len() as int),
                    forall|j: int|
                        0 <= j < out@.len() ==> (#[trigger] out@[j])@ == toml_tree(given[j])
                            && well_named(out@[j]@),
                decreases rest@.len(),
            {
                let ghost k = out@.len() as int;
                let item = rest.remove(0);
                assert(item == given[k]);
                assert(t->Array_0[k] == toml_tree(item));
                assert(decreases_to!(t => t->Array_0[k]));
                assert(rest@ =~= given.skip(k + 1));
                out.push(from_outside(item));
            }
            assert(items(out@) =~= outside_items(given));
            let r = TomlValue::Array(out);
            proof {
                lemma_view(r);
                assert forall|i: int| 0 <= i < items(out@).len() implies well_named(
                    #[trigger] items(out@)[i],
                ) by {
                    assert(items(out@)[i] == out@[i]@);
                }
            }
            r
        },
        TomlShape::Table(list) => {
            let ghost given = list@;
            let mut rest = list;
            let mut out: Vec<(String, TomlValue)> = Vec::new();
            assert(given.skip(0) =~= given);
            while rest.len() > 0
                invariant
                    t == toml_tree(value),
                    t == TomlTree::Table(outside_members(given)),
                    out@.len() <= given.len(),
                    rest@ == given.skip(out@.len() as int),
                    forall|j: int|
                        0 <= j < out@.len() ==> (#[trigger] out@[j]).0@ == given[j].0@
                            && out@[j].1@ == toml_tree(given[j].1) && well_named(out@[j].1@),
                decreases rest@.len(),
            {
                let ghost k = out@.len() as int;
                let (name, item) = rest.remove(0);
                assert((name, item) == given[k]);
                assert(t->Table_0[k] == (name@, toml_tree(item)));
                assert(decreases_to!(t => t->Table_0[k].1));
                assert(rest@ =~= given.skip(k + 1));
                out.push((name, from_outside(item)));
            }
            assert(members(out@) =~= outside_members(given));
            let r = TomlValue::Table(out);
            proof {
                lemma_view(r);
                assert forall|i: int| 0 <= i < members(out@).len() implies well_named(
                    #[trigger] members(out@)[i].1,
                ) by {
                    assert(members(out@)[i] == (out@[i].0@, out@[i].1@));
                }
            }
            r
        },
    }
}

/// Reads a TOML text.
pub fn parse(s: &str) -> (r: Result<TomlValue, String>)
    ensures
        match r {
            Ok(value) => toml_parsed(s@) == Ok::<TomlTree, Seq<char>>(value@) && well_named(value@),
            Err(reason) => toml_parsed(s@) == Err::<TomlTree, Seq<char>>(reason@),
        },
{
    match toml_read(s) {
        Ok(value) => Ok(from_outside(value)),
        Err(reason) => Err(reason),
    }
}

/// The syntax of a part of a TOML document: tables, arrays of tables, inline arrays and
/// tables, strings, and other values, these two with the bytes where they are written.
pub enum TomlSyntaxTree {
    Missing,
    Table(Seq<(Seq<char>, TomlSyntaxTree)>),
    Tables(Seq<TomlSyntaxTree>),
    Array(Seq<TomlSyntaxTree>),
    Inline(Seq<(Seq<char>, TomlSyntaxTree)>),
    Text { value: Seq<char>, span: Option<(int, int)> },
    Other { span: Option<(int, int)> },
}

/// A range of bytes, where there is one.
pub open spec fn view_span(r: Option<(usize, usize)>) -> Option<(int, int)> {
    match r {
        Some((start, end)) => Some((start as int, end as int)),
        None => None,
    }
}

pub enum TomlSyntax {
    Missing,
    Table(Vec<(String, TomlSyntax)>),
    Tables(Vec<TomlSyntax>),
    Array(Vec<TomlSyntax>),
    Inline(Vec<(String, TomlSyntax)>),
    Text { value: String, span: Option<(usize, usize)> },
    Other { span: Option<(usize, usize)> },
}

impl TomlSyntax {
    pub open spec fn view(&self) -> TomlSyntaxTree
        decreases self,
    {
        match self {
            TomlSyntax::Missing => TomlSyntaxTree::Missing,
            TomlSyntax::Table(v) => TomlSyntaxTree::Table(
                Seq::new(
                    v@.len(),
                    |i: int|
                        if 0 <= i < v@.len() {
                            (v@[i].0@, v@[i].1.view())
                        } else {
                            arbitrary()
                        },
                ),
            ),
            TomlSyntax::Tables(v) => TomlSyntaxTree::Tables(
                Seq::new(
                    v@.len(),
                    |i: int|
                        if 0 <= i < v@.len() {
                            v@[i].view()
                        } else {
                            arbitrary()
                        },
                ),
            ),
            TomlSyntax::Array(v) => TomlSyntaxTree::Array(
                Seq::new(
                    v@.len(),
                    |i: int|
                        if 0 <= i < v@.len() {
                            v@[i].view()
                        } else {
                            arbitrary()
                        },
                ),
            ),
            TomlSyntax::Inline(v) => TomlSyntaxTree::Inline(
                Seq::new(
                    v@.len(),
                    |i: int|
                        if 0 <= i < v@.len() {
                            (v@[i].0@, v@[i].1.view())
                        } else {
                            arbitrary()
                        },
                ),
            ),
            TomlSyntax::Text { value, span } => TomlSyntaxTree::Text {
                value: value@,
                span: view_span(*span),
            },
            TomlSyntax::Other { span } => TomlSyntaxTree::Other { span: view_span(*span) },
        }
    }
}

pub open spec fn parts(v: Seq<TomlSyntax>) -> Seq<TomlSyntaxTree> {
    v.map_values(|x: TomlSyntax| x@)
}

pub open spec fn entries(v: Seq<(String, TomlSyntax)>) -> Seq<(Seq<char>, TomlSyntaxTree)> {
    v.map_values(|x: (String, TomlSyntax)| (x.0@, x.1@))
}

pub proof fn lemma_syntax_view(n: TomlSyntax)
    ensures
        n matches TomlSyntax::Table(v) ==> n@ == TomlSyntaxTree::Table(entries(v@)),
        n matches TomlSyntax::Inline(v) ==> n@ == TomlSyntaxTree::Inline(entries(v@)),
        n matches TomlSyntax::Tables(v) ==> n@ == TomlSyntaxTree::Tables(parts(v@)),
        n matches TomlSyntax::Array(v) ==> n@ == TomlSyntaxTree::Array(parts(v@)),
{
    match n {
        TomlSyntax::Table(v) => {
            assert(n@->Table_0 =~= entries(v@));
        },
        TomlSyntax::Inline(v) => {
            assert(n@->Inline_0 =~= entries(v@));
        },
        TomlSyntax::Tables(v) => {
            assert(n@->Tables_0 =~= parts(v@));
        },
        TomlSyntax::Array(v) => {
            assert(n@->Array_0 =~= parts(v@));
        },
        _ => {},
    }
}

#[verifier::external_type_specification]
#[verifier::external_body]
pub struct ExTomlItem(toml_edit::Item);

#[verifier::external_type_specification]
#[verifier::external_body]
pub struct ExTomlEditValue(toml_edit::Value);

/// The syntax that an item of `toml_edit` stands for.
pub uninterp spec fn item_tree(i: toml_edit::Item) -> TomlSyntaxTree;

/// One level of the syntax of an item.
pub enum ItemShape {
    Missing,
    Table(Vec<(String, toml_edit::Item)>),
    Tables(Vec<toml_edit::Item>),
    Array(Vec<toml_edit::Item>),
    Inline(Vec<(String, toml_edit::Item)>),
    Text { value: String, span: Option<(usize, usize)> },
    Other { span: Option<(usize, usize)> },
}

pub open spec fn outside_parts(v: Seq<toml_edit::Item>) -> Seq<TomlSyntaxTree> {
    v.map_values(|x: toml_edit::Item| item_tree(x))
}

pub open spec fn outside_entries(v: Seq<(String, toml_edit::Item)>) -> Seq<
    (Seq<char>, TomlSyntaxTree),
> {
    v.map_values(|x: (String, toml_edit::Item)| (x.0@, item_tree(x.1)))
}

impl ItemShape {
    pub open spec fn tree(self) -> TomlSyntaxTree {
        match self {
            ItemShape::Missing => TomlSyntaxTree::Missing,
            ItemShape::Table(v) => TomlSyntaxTree::Table(outside_entries(v@)),
            ItemShape::Tables(v) => TomlSyntaxTree::Tables(outside_parts(v@)),
            ItemShape::Array(v) => TomlSyntaxTree::Array(outside_parts(v@)),
            ItemShape::Inline(v) => TomlSyntaxTree::Inline(outside_entries(v@)),
            ItemShape::Text { value, span } => TomlSyntaxTree::Text {
                value: value@,
                span: view_span(span),
            },
            ItemShape::Other { span } => TomlSyntaxTree::Other { span: view_span(span) },
        }
    }
}

/// Takes one level of a `toml_edit::Value` apart, variant by variant, its parts as
/// items again, with the range that `Value::span` gives.
#[verifier::external_body]
fn value_shape(value: toml_edit::Value) -> (r: ItemShape)
    ensures
        r.tree() == value_tree(value),
{
    let span = value.span().map(|range| (range.start, range.end));
    match value {
        toml_edit::Value::String(text) => ItemShape::Text { value: text.into_value(), span },
        toml_edit::Value::Array(list) => ItemShape::Array(
            list.into_iter().map(toml_edit::Item::Value).collect(),
        ),
        toml_edit::Value::InlineTable(table) => ItemShape::Inline(
            table.into_iter().map(|(key, value)| (key, toml_edit::Item::Value(value))).collect(),
        ),
        _ => ItemShape::Other { span },
    }
}

/// The syntax that a value of `toml_edit` stands for.
pub uninterp spec fn value_tree(v: toml_edit::Value) -> TomlSyntaxTree;

/// An item of `toml_edit` that is a value, or one level of any other item.
pub enum ItemCase {
    Value(toml_edit::Value),
    Shape(ItemShape),
}

impl ItemCase {
    pub open spec fn tree(self) -> TomlSyntaxTree {
        match self {
            ItemCase::Value(v) => value_tree(v),
            ItemCase::Shape(s) => s.tree(),
        }
    }
}

/// Takes one level of a `toml_edit::Item` apart, variant by variant.
#[verifier::external_body]
fn item_case(item: toml_edit::Item) -> (r: ItemCase)
    ensures
        r.tree() == item_tree(item),
{
    match item {
        toml_edit::Item::None => ItemCase::Shape(ItemShape::Missing),
        toml_edit::Item::Value(value) => ItemCase::Value(value),
        toml_edit::Item::Table(table) => ItemCase::Shape(
            ItemShape::Table(table.into_iter().collect()),
        ),
        toml_edit::Item::ArrayOfTables(list) => ItemCase::Shape(
            ItemShape::Tables(list.into_iter().map(toml_edit::Item::Table).collect()),
        ),
    }
}

/// The text of a string as a TOML value.
pub uninterp spec fn toml_string_text(s: Seq<char>) -> Seq<char>;

/// `toml_edit::Value::from` a string, and its `to_string`.
#[verifier::external_body]
pub(crate) fn toml_string(s: &str) -> (r: String)
    ensures
        r@ == toml_string_text(s@),
{
    toml_edit::Value::from(s).to_string()
}

/// The text of a key, in quotes where it needs them.
pub uninterp spec fn toml_key_text(s: Seq<char>) -> Seq<char>;

/// `toml_edit::Key::new`, and its `to_string`.
#[verifier::external_body]
pub(crate) fn toml_key(s: &str) -> (r: String)
    ensures
        r@ == toml_key_text(s@),
{
    toml_edit::Key::new(s).to_string()
}

/// The text of the floating-point number that a text holds, or why it holds none.
pub uninterp spec fn toml_float_text(s: Seq<char>) -> Result<Seq<char>, Seq<char>>;

/// `str::parse` of a floating-point number, then `toml_edit::Value::Float` of it and its
/// `to_string`.
#[verifier::external_body]
pub(crate) fn toml_float(s: &str) -> (r: Result<String, String>)
    ensures
        match r {
            Ok(text) => toml_float_text(s@) == Ok::<Seq<char>, Seq<char>>(text@),
            Err(reason) => toml_float_text(s@) == Err::<Seq<char>, Seq<char>>(reason@),
        },
{
    let parsed: Result<_, std::num::ParseFloatError> = s.parse();
    match parsed {
        Ok(number) => Ok(toml_edit::Value::Float(toml_edit::Formatted::new(number)).to_string()),
        Err(error) => Err(error.to_string()),
    }
}

/// The text of the time that a text holds, or why it holds none.
pub uninterp spec fn toml_time_text(s: Seq<char>) -> Result<Seq<char>, Seq<char>>;

/// `str::parse::<toml_edit::Datetime>`, then `toml_edit::Value::from` it and its
/// `to_string`.
#[verifier::external_body]
pub(crate) fn toml_datetime(s: &str) -> (r: Result<String, String>)
    ensures
        match r {
            Ok(text) => toml_time_text(s@) == Ok::<Seq<char>, Seq<char>>(text@),
            Err(reason) => toml_time_text(s@) == Err::<Seq<char>, Seq<char>>(reason@),
        },
{
    match s.parse::<toml_edit::Datetime>() {
        Ok(time) => Ok(toml_edit::Value::from(time).to_string()),
        Err(error) => Err(error.to_string()),
    }
}

/// How the value under a key of a TOML document is written, without the space around it,
/// where there is one; or why the text is no document.
pub uninterp spec fn toml_entry(document: Seq<char>, key: Seq<char>) -> Result<
    Option<Seq<char>>,
    Seq<char>,
>;

/// `str::parse::<toml_edit::DocumentMut>`, and the `to_string` of the value under a key
/// of it, without its decor.
#[verifier::external_body]
pub(crate) fn toml_value_in(document: &str, key: &str) -> (r: Result<Option<String>, String>)
    ensures
        match r {
            Ok(Some(text)) => toml_entry(document@, key@) == Ok::<Option<Seq<char>>, Seq<char>>(
                Some(text@),
            ),
            Ok(None) => toml_entry(document@, key@) == Ok::<Option<Seq<char>>, Seq<char>>(None),
            Err(reason) => toml_entry(document@, key@) == Err::<Option<Seq<char>>, Seq<char>>(
                reason@,
            ),
        },
{
    match document.parse::<toml_edit::DocumentMut>() {
        Ok(parsed) => Ok(
            parsed.get(key).and_then(toml_edit::Item::as_value).map(
                |value| value.clone().decorated("", "").to_string(),
            ),
        ),
        Err(error) => Err(error.to_string()),
    }
}

/// How a TOML document is written anew, or why a text is none.
pub uninterp spec fn toml_printed(s: Seq<char>) -> Result<Seq<char>, Seq<char>>;

/// `str::parse::<toml_edit::DocumentMut>`, and its `to_string`.
#[verifier::external_body]
fn toml_print(s: &str) -> (r: Result<String, String>)
    ensures
        match r {
            Ok(text) => toml_printed(s@) == Ok::<Seq<char>, Seq<char>>(text@),
            Err(reason) => toml_printed(s@) == Err::<Seq<char>, Seq<char>>(reason@),
        },
{
    match s.parse::<toml_edit::DocumentMut>() {
        Ok(document) => Ok(document.to_string()),
        Err(error) => Err(error.to_string()),
    }
}

/// The syntax of a TOML document with its ranges, or why a text is none.
pub uninterp spec fn toml_syntax(s: Seq<char>) -> Result<TomlSyntaxTree, Seq<char>>;

/// `toml_edit::Document::parse`, which keeps the ranges, and its `into_item`.
#[verifier::external_body]
fn toml_root(s: &str) -> (r: Result<toml_edit::Item, String>)
    ensures
        match r {
            Ok(item) => toml_syntax(s@) == Ok::<TomlSyntaxTree, Seq<char>>(item_tree(item)),
            Err(reason) => toml_syntax(s@) == Err::<TomlSyntaxTree, Seq<char>>(reason@),
        },
{
    match toml_edit::Document::parse(s) {
        Ok(document) => Ok(document.into_item()),
        Err(error) => Err(error.to_string()),
    }
}

/// Reads the syntax of an item, level by level.
fn read_item(item: toml_edit::Item) -> (r: TomlSyntax)
    ensures
        r@ == item_tree(item),
    decreases item_tree(item),
{
    let ghost t = item_tree(item);
    let shape = match item_case(item) {
        ItemCase::Value(value) => value_shape(value),
        ItemCase::Shape(shape) => shape,
    };
    match shape {
        ItemShape::Missing => TomlSyntax::Missing,
        ItemShape::Other { span } => TomlSyntax::Other { span },
        ItemShape::Text { value, span } => TomlSyntax::Text { value, span },
        ItemShape::Tables(list) => {
            assert(t->Tables_0 == outside_parts(list@));
            assert(decreases_to!(t => t->Tables_0));
            let r = TomlSyntax::Tables(read_parts(list));
            proof {
                lemma_syntax_view(r);
            }
            r
        },
        ItemShape::Array(list) => {
            assert(t->Array_0 == outside_parts(list@));
            assert(decreases_to!(t => t->Array_0));
            let r = TomlSyntax::Array(read_parts(list));
            proof {
                lemma_syntax_view(r);
            }
            r
        },
        ItemShape::Table(list) => {
            assert(t->Table_0 == outside_entries(list@));
            assert(decreases_to!(t => t->Table_0));
            let r = TomlSyntax::Table(read_entries(list));
            proof {
                lemma_syntax_view(r);
            }
            r
        },
        ItemShape::Inline(list) => {
            assert(t->Inline_0 == outside_entries(list@));
            assert(decreases_to!(t => t->Inline_0));
            let r = TomlSyntax::Inline(read_entries(list));
            proof {
                lemma_syntax_view(r);
            }
            r
        },
    }
}

fn read_parts(list: Vec<toml_edit::Item>) -> (r: Vec<TomlSyntax>)
    ensures
        parts(r@) == outside_parts(list@),
    decreases outside_parts(list@),
{
    let ghost given = list@;
    let ghost trees = outside_parts(given);
    let mut rest = list;
    let mut out: Vec<TomlSyntax> = Vec::new();
    assert(given.skip(0) =~= given);
    while rest.len() > 0
        invariant
            trees == outside_parts(given),
            given == list@,
            out@.len() <= given.len(),
            rest@ == given.skip(out@.len() as int),
            forall|j: int| 0 <= j < out@.len() ==> (#[trigger] out@[j])@ == item_tree(given[j]),
        decreases rest@.len(),
    {
        let ghost k = out@.len() as int;
        let item = rest.remove(0);
        assert(item == given[k]);
        assert(trees[k] == item_tree(item));
        assert(decreases_to!(trees => trees[k]));
        assert(rest@ =~= given.skip(k + 1));
        out.push(read_item(item));
    }
    assert(parts(out@) =~= trees);
    out
}

fn read_entries(list: Vec<(String, toml_edit::Item)>) -> (r: Vec<
    (String, TomlSyntax),
>)
    ensures
        entries(r@) == outside_entries(list@),
    decreases outside_entries(list@),
{
    let ghost given = list@;
    let ghost trees = outside_entries(given);
    let mut rest = list;
    let mut out: Vec<(String, TomlSyntax)> = Vec::new();
    assert(given.skip(0) =~= given);
    while rest.len() > 0
        invariant
            trees == outside_entries(given),
            given == list@,
            out@.len() <= given.len(),
            rest@ == given.skip(out@.len() as int),
            forall|j: int|
                0 <= j < out@.len() ==> (#[trigger] out@[j]).0@ == given[j].0@ && out@[j].1@
                    == item_tree(given[j].1),
        decreases rest@.len(),
    {
        let ghost k = out@.len() as int;
        let (name, item) = rest.remove(0);
        assert((name, item) == given[k]);
        assert(trees[k] == (name@, item_tree(item)));
        assert(decreases_to!(trees => trees[k].1));
        assert(rest@ =~= given.skip(k + 1));
        out.push((name, read_item(item)));
    }
    assert(entries(out@) =~= trees);
    out
}

/// A document as it is written anew, and the syntax of that.
pub open spec fn laid_out(s: Seq<char>) -> Result<(Seq<char>, TomlSyntaxTree), Seq<char>> {
    match toml_printed(s) {
        Err(reason) => Err(reason),
        Ok(printed) => match toml_syntax(printed) {
            Err(reason) => Err(reason),
            Ok(syntax) => Ok((printed, syntax)),
        },
    }
}

/// Writes a document anew and reads the syntax of that.
pub fn lay_out(s: &str) -> (r: Result<(String, TomlSyntax), String>)
    ensures
        match r {
            Ok((printed, syntax)) => laid_out(s@) == Ok::<(Seq<char>, TomlSyntaxTree), Seq<char>>(
                (printed@, syntax@),
            ),
            Err(reason) => laid_out(s@) == Err::<(Seq<char>, TomlSyntaxTree), Seq<char>>(reason@),
        },
{
    match toml_print(s) {
        Err(reason) => Err(reason),
        Ok(printed) => match toml_root(printed.as_str()) {
            Err(reason) => Err(reason),
            Ok(item) => Ok((printed, read_item(item))),
        },
    }
}

} // verus!
