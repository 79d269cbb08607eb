//! The record of a layout that travels inside an encrypted envelope.
//!
//! A record is an object, in which unknown fields are skipped, or an array of the
//! fields in order. An alternative is written as its name, or as an object with
//! that name over null.

use vstd::prelude::*;
use vstd::string::StrSliceExecFns;

use crate::codec::integer;
use crate::codec::json;
use crate::codec::json::{JsonTree, JsonValue};
use crate::codec::json_fields;
use crate::codec::json_typed;
use crate::segment;
use crate::source::layout;
use crate::source::node;
use crate::source::{
    DotenvLayout, Layout, LineEnding, NodePath, PathSegment, Placeholder, QuoteStyle, Template,
};
use crate::text;
use crate::text_map;

verus! {

/// A field of a record: by name in an object, by position in an array.
pub open spec fn field(t: JsonTree, name: Seq<char>, at: int) -> Option<JsonTree> {
    match t {
        JsonTree::Object(m) => json::member(m, name),
        JsonTree::Array(a) => json_fields::item(a, at),
        _ => None,
    }
}

/// An object, or an array of just as many fields.
pub open spec fn record(t: JsonTree, fields: int) -> bool {
    match t {
        JsonTree::Object(_) => true,
        JsonTree::Array(a) => a.len() == fields,
        _ => false,
    }
}

/// The name of an alternative.
pub open spec fn alternative(t: Option<JsonTree>) -> Option<Seq<char>> {
    match t {
        Some(JsonTree::String(s)) => Some(s),
        Some(JsonTree::Object(m)) => if m.len() == 1 && m[0].1 is Null {
            Some(m[0].0)
        } else {
            None
        },
        _ => None,
    }
}

pub open spec fn line_ending_in(t: Option<JsonTree>) -> Option<LineEnding> {
    match alternative(t) {
        Some(name) => if name == "lf"@ {
            Some(LineEnding::Lf)
        } else if name == "crlf"@ {
            Some(LineEnding::CrLf)
        } else {
            None
        },
        None => None,
    }
}

pub open spec fn quote_in(t: Option<JsonTree>) -> Option<QuoteStyle> {
    match alternative(t) {
        Some(name) => if name == "unquoted"@ {
            Some(QuoteStyle::Unquoted)
        } else if name == "single"@ {
            Some(QuoteStyle::Single)
        } else if name == "double"@ {
            Some(QuoteStyle::Double)
        } else {
            None
        },
        None => None,
    }
}

pub open spec fn flag_in(t: Option<JsonTree>) -> Option<bool> {
    match t {
        Some(JsonTree::Bool(b)) => Some(b),
        _ => None,
    }
}

/// A text or null; a field that is not there counts as null.
pub open spec fn optional_in(t: Option<JsonTree>) -> Option<Option<Seq<char>>> {
    match t {
        None => Some(None),
        Some(JsonTree::Null) => Some(None),
        Some(JsonTree::String(s)) => Some(Some(s)),
        _ => None,
    }
}

/// A list of texts.
pub open spec fn list_in(t: Option<JsonTree>) -> Option<Seq<Seq<char>>> {
    match t {
        Some(JsonTree::Array(a)) => json_fields::strings_in(a),
        _ => None,
    }
}

/// A list of texts; a field that is not there counts as an empty one.
pub open spec fn comments_in(t: Option<JsonTree>) -> Option<Seq<Seq<char>>> {
    match t {
        None => Some(Seq::empty()),
        _ => list_in(t),
    }
}

/// An index into a sequence.
pub open spec fn index_in(t: Option<JsonTree>) -> Option<int> {
    match t {
        Some(JsonTree::Number(s)) => integer::unsigned_value(s, usize::MAX as int),
        _ => None,
    }
}

/// One step of a path.
pub open spec fn step_in(t: JsonTree) -> Option<node::Step> {
    if !record(t, 2) {
        None
    } else {
        let value = field(t, "value"@, 1);
        match alternative(field(t, "kind"@, 0)) {
            Some(kind) => if kind == "key"@ {
                match json_fields::string_in(value) {
                    Some(key) => Some(node::Step::Key(key)),
                    None => None,
                }
            } else if kind == "index"@ {
                match index_in(value) {
                    Some(n) => Some(node::Step::Index(n)),
                    None => None,
                }
            } else {
                None
            },
            None => None,
        }
    }
}

pub open spec fn steps_in(a: Seq<JsonTree>) -> Option<Seq<node::Step>>
    decreases a.len(),
{
    if a.len() == 0 {
        Some(Seq::empty())
    } else {
        match (steps_in(a.drop_last()), step_in(a.last())) {
            (Some(head), Some(step)) => Some(head.push(step)),
            _ => None,
        }
    }
}

pub open spec fn path_in(t: Option<JsonTree>) -> Option<Seq<node::Step>> {
    match t {
        Some(JsonTree::Array(a)) => steps_in(a),
        _ => None,
    }
}

pub open spec fn placeholder_in(t: JsonTree) -> Option<layout::PlaceholderModel> {
    if !record(t, 2) {
        None
    } else {
        match (
            json_fields::string_in(field(t, "token"@, 0)),
            path_in(field(t, "path"@, 1)),
        ) {
            (Some(token), Some(path)) => Some(layout::PlaceholderModel { token, path }),
            _ => None,
        }
    }
}

pub open spec fn placeholders_in(a: Seq<JsonTree>) -> Option<Seq<layout::PlaceholderModel>>
    decreases a.len(),
{
    if a.len() == 0 {
        Some(Seq::empty())
    } else {
        match (placeholders_in(a.drop_last()), placeholder_in(a.last())) {
            (Some(head), Some(mark)) => Some(head.push(mark)),
            _ => None,
        }
    }
}

pub open spec fn marks_in(t: Option<JsonTree>) -> Option<Seq<layout::PlaceholderModel>> {
    match t {
        Some(JsonTree::Array(a)) => placeholders_in(a),
        _ => None,
    }
}

pub open spec fn template_in(t: Option<JsonTree>) -> Option<Option<layout::TemplateModel>> {
    match t {
        None => Some(None),
        Some(JsonTree::Null) => Some(None),
        Some(t) => if !record(t, 2) {
            None
        } else {
            match (
                json_fields::string_in(field(t, "body"@, 0)),
                marks_in(field(t, "placeholders"@, 1)),
            ) {
                (Some(body), Some(placeholders)) => Some(
                    Some(layout::TemplateModel { body, placeholders }),
                ),
                _ => None,
            }
        },
    }
}

pub open spec fn assignment_in(t: JsonTree) -> Option<layout::DotenvModel> {
    if !record(t, 5) {
        None
    } else {
        match (
            json_fields::string_in(field(t, "key"@, 0)),
            flag_in(field(t, "exported"@, 1)),
            quote_in(field(t, "quote"@, 2)),
            list_in(field(t, "leading"@, 3)),
            optional_in(field(t, "inline_comment"@, 4)),
        ) {
            (Some(key), Some(exported), Some(quote), Some(leading), Some(inline_comment)) => Some(
                layout::DotenvModel { key, exported, quote, leading, inline_comment },
            ),
            _ => None,
        }
    }
}

pub open spec fn assignments_in(a: Seq<JsonTree>) -> Option<Seq<layout::DotenvModel>>
    decreases a.len(),
{
    if a.len() == 0 {
        Some(Seq::empty())
    } else {
        match (assignments_in(a.drop_last()), assignment_in(a.last())) {
            (Some(head), Some(entry)) => Some(head.push(entry)),
            _ => None,
        }
    }
}

pub open spec fn dotenv_in(t: Option<JsonTree>) -> Option<Seq<layout::DotenvModel>> {
    match t {
        None => Some(Seq::empty()),
        Some(JsonTree::Array(a)) => assignments_in(a),
        _ => None,
    }
}

/// The layout that a record holds.
pub open spec fn layout_in(t: JsonTree) -> Option<layout::LayoutModel> {
    if !record(t, 5) {
        None
    } else {
        match (
            line_ending_in(field(t, "line_ending"@, 0)),
            flag_in(field(t, "trailing_newline"@, 1)),
            comments_in(field(t, "preamble_comments"@, 2)),
            dotenv_in(field(t, "dotenv"@, 3)),
            template_in(field(t, "template"@, 4)),
        ) {
            (
                Some(line_ending),
                Some(trailing_newline),
                Some(preamble_comments),
                Some(dotenv),
                Some(template),
            ) => Some(
                layout::LayoutModel {
                    line_ending,
                    trailing_newline,
                    preamble_comments,
                    dotenv,
                    template,
                },
            ),
            _ => None,
        }
    }
}

pub fn get_field<'a>(t: &'a JsonValue, name: &str, at: usize) -> (r: Option<&'a JsonValue>)
    ensures
        json_fields::view_json(r) == field(t@, name@, at as int),
{
    proof {
        json::lemma_view(*t);
    }
    match t {
        JsonValue::Object(_) => t.get(name),
        JsonValue::Array(a) => if at < a.len() {
            assert(json::items(a@)[at as int] == a@[at as int]@);
            Some(&a[at])
        } else {
            None
        },
        _ => None,
    }
}

fn is_record(t: &JsonValue, fields: usize) -> (r: bool)
    ensures
        r == record(t@, fields as int),
{
    proof {
        json::lemma_view(*t);
    }
    match t {
        JsonValue::Object(_) => true,
        JsonValue::Array(a) => a.len() == fields,
        _ => false,
    }
}

pub open spec fn view_text(s: Option<&String>) -> Option<Seq<char>> {
    match s {
        Some(s) => Some(s@),
        None => None,
    }
}

fn get_alternative<'a>(t: Option<&'a JsonValue>) -> (r: Option<&'a String>)
    ensures
        view_text(r) == alternative(json_fields::view_json(t)),
{
    match t {
        Some(value) => {
            proof {
                json::lemma_view(*value);
            }
            match value {
                JsonValue::String(s) => Some(s),
                JsonValue::Object(m) => if m.len() == 1 {
                    assert(json::members(m@)[0] == (m@[0].0@, m@[0].1@));
                    match &m[0].1 {
                        JsonValue::Null => Some(&m[0].0),
                        _ => None,
                    }
                } else {
                    None
                },
                _ => None,
            }
        },
        None => None,
    }
}

fn get_line_ending(t: Option<&JsonValue>) -> (r: Option<LineEnding>)
    ensures
        r == line_ending_in(json_fields::view_json(t)),
{
    match get_alternative(t) {
        Some(name) => if text::eq(name.as_str(), "lf") {
            Some(LineEnding::Lf)
        } else if text::eq(name.as_str(), "crlf") {
            Some(LineEnding::CrLf)
        } else {
            None
        },
        None => None,
    }
}

fn get_quote(t: Option<&JsonValue>) -> (r: Option<QuoteStyle>)
    ensures
        r == quote_in(json_fields::view_json(t)),
{
    match get_alternative(t) {
        Some(name) => if text::eq(name.as_str(), "unquoted") {
            Some(QuoteStyle::Unquoted)
        } else if text::eq(name.as_str(), "single") {
            Some(QuoteStyle::Single)
        } else if text::eq(name.as_str(), "double") {
            Some(QuoteStyle::Double)
        } else {
            None
        },
        None => None,
    }
}

fn get_flag(t: Option<&JsonValue>) -> (r: Option<bool>)
    ensures
        r == flag_in(json_fields::view_json(t)),
{
    match t {
        Some(JsonValue::Bool(b)) => Some(*b),
        _ => None,
    }
}

pub open spec fn view_optional(r: Option<Option<String>>) -> Option<Option<Seq<char>>> {
    match r {
        Some(s) => Some(text::view_option(s)),
        None => None,
    }
}

fn get_optional(t: Option<&JsonValue>) -> (r: Option<Option<String>>)
    ensures
        view_optional(r) == optional_in(json_fields::view_json(t)),
{
    match t {
        None => Some(None),
        Some(JsonValue::Null) => Some(None),
        Some(JsonValue::String(s)) => Some(Some(s.clone())),
        _ => None,
    }
}

pub open spec fn view_list(r: Option<Vec<String>>) -> Option<Seq<Seq<char>>> {
    match r {
        Some(list) => Some(text::texts(list@)),
        None => None,
    }
}

fn get_list(t: Option<&JsonValue>) -> (r: Option<Vec<String>>)
    ensures
        view_list(r) == list_in(json_fields::view_json(t)),
{
    match t {
        Some(value) => {
            proof {
                json::lemma_view(*value);
            }
            match value {
                JsonValue::Array(a) => json_fields::get_strings(a),
                _ => None,
            }
        },
        None => None,
    }
}

fn get_comments(t: Option<&JsonValue>) -> (r: Option<Vec<String>>)
    ensures
        view_list(r) == comments_in(json_fields::view_json(t)),
{
    match t {
        None => {
            let r: Vec<String> = Vec::new();
            assert(text::texts(r@) =~= Seq::<Seq<char>>::empty());
            Some(r)
        },
        Some(_) => get_list(t),
    }
}

fn get_index(t: Option<&JsonValue>) -> (r: Option<usize>)
    ensures
        match r {
            Some(n) => index_in(json_fields::view_json(t)) == Some(n as int),
            None => index_in(json_fields::view_json(t)) is None,
        },
{
    match t {
        Some(JsonValue::Number(s)) => match integer::parse_unsigned(
            s.as_str(),
            usize::MAX as u64,
        ) {
            Some(n) => Some(n as usize),
            None => None,
        },
        _ => None,
    }
}

pub open spec fn view_step(r: Option<PathSegment>) -> Option<node::Step> {
    match r {
        Some(step) => Some(step@),
        None => None,
    }
}

fn get_step(t: &JsonValue) -> (r: Option<PathSegment>)
    ensures
        view_step(r) == step_in(t@),
{
    if !is_record(t, 2) {
        return None;
    }
    let value = get_field(t, "value", 1);
    match get_alternative(get_field(t, "kind", 0)) {
        Some(kind) => if text::eq(kind.as_str(), "key") {
            match json_fields::get_string(value) {
                Some(key) => Some(PathSegment::Key(key)),
                None => None,
            }
        } else if text::eq(kind.as_str(), "index") {
            match get_index(value) {
                Some(n) => Some(PathSegment::Index(n)),
                None => None,
            }
        } else {
            None
        },
        None => None,
    }
}

proof fn lemma_no_steps(a: Seq<JsonTree>, n: int)
    requires
        0 <= n <= a.len(),
        steps_in(a.take(n)) is None,
    ensures
        steps_in(a) is None,
    decreases a.len() - n,
{
    if n < a.len() {
        assert(a.take(n + 1).drop_last() =~= a.take(n));
        lemma_no_steps(a, n + 1);
    } else {
        assert(a.take(n) =~= a);
    }
}

fn get_path(t: Option<&JsonValue>) -> (r: Option<NodePath>)
    ensures
        match r {
            Some(path) => path_in(json_fields::view_json(t)) == Some(path@),
            None => path_in(json_fields::view_json(t)) is None,
        },
{
    let v = match t {
        Some(value) => {
            proof {
                json::lemma_view(*value);
            }
            match value {
                JsonValue::Array(v) => v,
                _ => {
                    return None;
                },
            }
        },
        None => {
            return None;
        },
    };
    let ghost a = json::items(v@);
    let mut out: Vec<PathSegment> = Vec::new();
    let mut i: usize = 0;
    assert(node::steps(out@) =~= Seq::<node::Step>::empty());
    while i < v.len()
        invariant
            a == json::items(v@),
            json_fields::view_json(t) == Some(JsonTree::Array(a)),
            i <= v.len(),
            steps_in(a.take(i as int)) == Some(node::steps(out@)),
        decreases v.len() - i,
    {
        assert(a.take(i + 1).drop_last() =~= a.take(i as int));
        assert(a.take(i + 1).last() == v@[i as int]@);
        match get_step(&v[i]) {
            Some(step) => {
                let ghost before = out@;
                out.push(step);
                assert(node::steps(out@) =~= node::steps(before).push(step@));
            },
            None => {
                proof {
                    lemma_no_steps(a, i + 1);
                }
                return None;
            },
        }
        i = i + 1;
    }
    assert(a.take(i as int) =~= a);
    Some(NodePath { segments: out })
}

fn get_placeholder(t: &JsonValue) -> (r: Option<Placeholder>)
    ensures
        match r {
            Some(mark) => placeholder_in(t@) == Some(mark@),
            None => placeholder_in(t@) is None,
        },
{
    if !is_record(t, 2) {
        return None;
    }
    match (json_fields::get_string(get_field(t, "token", 0)), get_path(get_field(t, "path", 1))) {
        (Some(token), Some(path)) => Some(Placeholder::new(token, path)),
        _ => None,
    }
}

proof fn lemma_no_placeholders(a: Seq<JsonTree>, n: int)
    requires
        0 <= n <= a.len(),
        placeholders_in(a.take(n)) is None,
    ensures
        placeholders_in(a) is None,
    decreases a.len() - n,
{
    if n < a.len() {
        assert(a.take(n + 1).drop_last() =~= a.take(n));
        lemma_no_placeholders(a, n + 1);
    } else {
        assert(a.take(n) =~= a);
    }
}

fn get_marks(t: Option<&JsonValue>) -> (r: Option<Vec<Placeholder>>)
    ensures
        match r {
            Some(list) => marks_in(json_fields::view_json(t)) == Some(layout::marks(list@)),
            None => marks_in(json_fields::view_json(t)) is None,
        },
{
    let v = match t {
        Some(value) => {
            proof {
                json::lemma_view(*value);
            }
            match value {
                JsonValue::Array(v) => v,
                _ => {
                    return None;
                },
            }
        },
        None => {
            return None;
        },
    };
    let ghost a = json::items(v@);
    let mut out: Vec<Placeholder> = Vec::new();
    let mut i: usize = 0;
    assert(layout::marks(out@) =~= Seq::<layout::PlaceholderModel>::empty());
    while i < v.len()
        invariant
            a == json::items(v@),
            json_fields::view_json(t) == Some(JsonTree::Array(a)),
            i <= v.len(),
            placeholders_in(a.take(i as int)) == Some(layout::marks(out@)),
        decreases v.len() - i,
    {
        assert(a.take(i + 1).drop_last() =~= a.take(i as int));
        assert(a.take(i + 1).last() == v@[i as int]@);
        match get_placeholder(&v[i]) {
            Some(mark) => {
                let ghost before = out@;
                out.push(mark);
                assert(layout::marks(out@) =~= layout::marks(before).push(mark@));
            },
            None => {
                proof {
                    lemma_no_placeholders(a, i + 1);
                }
                return None;
            },
        }
        i = i + 1;
    }
    assert(a.take(i as int) =~= a);
    Some(out)
}

fn get_template(t: Option<&JsonValue>) -> (r: Option<Option<Template>>)
    ensures
        match r {
            Some(template) => template_in(json_fields::view_json(t)) == Some(
                layout::view_template(template),
            ),
            None => template_in(json_fields::view_json(t)) is None,
        },
{
    let value = match t {
        Some(value) => value,
        None => {
            return Some(None);
        },
    };
    match value {
        JsonValue::Null => {
            return Some(None);
        },
        _ => {},
    }
    if !is_record(value, 2) {
        return None;
    }
    match (json_fields::get_string(get_field(value, "body", 0)), get_marks(get_field(value, "placeholders", 1))) {
        (Some(body), Some(placeholders)) => Some(Some(Template::new(body, placeholders))),
        _ => None,
    }
}

fn get_assignment(t: &JsonValue) -> (r: Option<DotenvLayout>)
    ensures
        match r {
            Some(entry) => assignment_in(t@) == Some(entry@),
            None => assignment_in(t@) is None,
        },
{
    if !is_record(t, 5) {
        return None;
    }
    match (
        json_fields::get_string(get_field(t, "key", 0)),
        get_flag(get_field(t, "exported", 1)),
        get_quote(get_field(t, "quote", 2)),
        get_list(get_field(t, "leading", 3)),
        get_optional(get_field(t, "inline_comment", 4)),
    ) {
        (Some(key), Some(exported), Some(quote), Some(leading), Some(inline_comment)) => Some(
            DotenvLayout { key, exported, quote, leading, inline_comment },
        ),
        _ => None,
    }
}

proof fn lemma_no_assignments(a: Seq<JsonTree>, n: int)
    requires
        0 <= n <= a.len(),
        assignments_in(a.take(n)) is None,
    ensures
        assignments_in(a) is None,
    decreases a.len() - n,
{
    if n < a.len() {
        assert(a.take(n + 1).drop_last() =~= a.take(n));
        lemma_no_assignments(a, n + 1);
    } else {
        assert(a.take(n) =~= a);
    }
}

fn get_dotenv(t: Option<&JsonValue>) -> (r: Option<Vec<DotenvLayout>>)
    ensures
        match r {
            Some(list) => dotenv_in(json_fields::view_json(t)) == Some(
                layout::assignments(list@),
            ),
            None => dotenv_in(json_fields::view_json(t)) is None,
        },
{
    let mut out: Vec<DotenvLayout> = Vec::new();
    assert(layout::assignments(out@) =~= Seq::<layout::DotenvModel>::empty());
    let v = match t {
        Some(value) => {
            proof {
                json::lemma_view(*value);
            }
            match value {
                JsonValue::Array(v) => v,
                _ => {
                    return None;
                },
            }
        },
        None => {
            return Some(out);
        },
    };
    let ghost a = json::items(v@);
    let mut i: usize = 0;
    while i < v.len()
        invariant
            a == json::items(v@),
            json_fields::view_json(t) == Some(JsonTree::Array(a)),
            i <= v.len(),
            assignments_in(a.take(i as int)) == Some(layout::assignments(out@)),
        decreases v.len() - i,
    {
        assert(a.take(i + 1).drop_last() =~= a.take(i as int));
        assert(a.take(i + 1).last() == v@[i as int]@);
        match get_assignment(&v[i]) {
            Some(entry) => {
                let ghost before = out@;
                out.push(entry);
                assert(layout::assignments(out@) =~= layout::assignments(before).push(entry@));
            },
            None => {
                proof {
                    lemma_no_assignments(a, i + 1);
                }
                return None;
            },
        }
        i = i + 1;
    }
    assert(a.take(i as int) =~= a);
    Some(out)
}

/// Reads the record of a layout.
pub fn read(t: &JsonValue) -> (r: Option<Layout>)
    ensures
        match r {
            Some(l) => layout_in(t@) == Some(l@),
            None => layout_in(t@) is None,
        },
{
    if !is_record(t, 5) {
        return None;
    }
    match (
        get_line_ending(get_field(t, "line_ending", 0)),
        get_flag(get_field(t, "trailing_newline", 1)),
        get_comments(get_field(t, "preamble_comments", 2)),
        get_dotenv(get_field(t, "dotenv", 3)),
        get_template(get_field(t, "template", 4)),
    ) {
        (
            Some(line_ending),
            Some(trailing_newline),
            Some(preamble_comments),
            Some(dotenv),
            Some(template),
        ) => {
            let mut l = Layout::new(line_ending, trailing_newline);
            l.set_preamble_comments(preamble_comments);
            l.set_dotenv(dotenv);
            match template {
                Some(template) => {
                    l.set_template(template);
                },
                None => {},
            }
            Some(l)
        },
        _ => None,
    }
}

pub open spec fn line_ending_name(e: LineEnding) -> Seq<char> {
    match e {
        LineEnding::Lf => "lf"@,
        LineEnding::CrLf => "crlf"@,
    }
}

pub open spec fn quote_name(q: QuoteStyle) -> Seq<char> {
    match q {
        QuoteStyle::Unquoted => "unquoted"@,
        QuoteStyle::Single => "single"@,
        QuoteStyle::Double => "double"@,
    }
}

pub open spec fn optional_json(s: Option<Seq<char>>) -> JsonTree {
    match s {
        Some(s) => JsonTree::String(s),
        None => JsonTree::Null,
    }
}

/// The record of one step of a path.
pub open spec fn step_json(step: node::Step) -> JsonTree {
    match step {
        node::Step::Key(key) => JsonTree::Object(
            seq![("kind"@, JsonTree::String("key"@)), ("value"@, JsonTree::String(key))],
        ),
        node::Step::Index(n) => JsonTree::Object(
            seq![
                ("kind"@, JsonTree::String("index"@)),
                ("value"@, JsonTree::Number(segment::decimal(n as nat))),
            ],
        ),
    }
}

pub open spec fn path_json(path: Seq<node::Step>) -> JsonTree {
    JsonTree::Array(path.map_values(|s: node::Step| step_json(s)))
}

pub open spec fn placeholder_json(p: layout::PlaceholderModel) -> JsonTree {
    JsonTree::Object(seq![("token"@, JsonTree::String(p.token)), ("path"@, path_json(p.path))])
}

pub open spec fn marks_json(list: Seq<layout::PlaceholderModel>) -> JsonTree {
    JsonTree::Array(list.map_values(|p: layout::PlaceholderModel| placeholder_json(p)))
}

pub open spec fn template_json(t: Option<layout::TemplateModel>) -> JsonTree {
    match t {
        None => JsonTree::Null,
        Some(t) => JsonTree::Object(
            seq![
                ("body"@, JsonTree::String(t.body)),
                ("placeholders"@, marks_json(t.placeholders)),
            ],
        ),
    }
}

pub open spec fn assignment_json(d: layout::DotenvModel) -> JsonTree {
    JsonTree::Object(
        seq![
            ("key"@, JsonTree::String(d.key)),
            ("exported"@, JsonTree::Bool(d.exported)),
            ("quote"@, JsonTree::String(quote_name(d.quote))),
            ("leading"@, json_fields::strings_json(d.leading)),
            ("inline_comment"@, optional_json(d.inline_comment)),
        ],
    )
}

pub open spec fn dotenv_json(list: Seq<layout::DotenvModel>) -> JsonTree {
    JsonTree::Array(list.map_values(|d: layout::DotenvModel| assignment_json(d)))
}

/// The record of a layout.
pub open spec fn layout_json(m: layout::LayoutModel) -> JsonTree {
    JsonTree::Object(
        seq![
            ("line_ending"@, JsonTree::String(line_ending_name(m.line_ending))),
            ("trailing_newline"@, JsonTree::Bool(m.trailing_newline)),
            ("preamble_comments"@, json_fields::strings_json(m.preamble_comments)),
            ("dotenv"@, dotenv_json(m.dotenv)),
            ("template"@, template_json(m.template)),
        ],
    )
}

proof fn lemma_step(step: node::Step)
    requires
        step matches node::Step::Index(n) ==> 0 <= n <= usize::MAX,
    ensures
        step_in(step_json(step)) == Some(step),
        json::plain(step_json(step), 94),
{
    reveal_strlit("kind");
    reveal_strlit("value");
    reveal_strlit("key");
    reveal_strlit("index");
    let m = step_json(step)->Object_0;
    assert("kind"@.len() == 4 && "value"@.len() == 5 && "key"@.len() == 3 && "index"@.len() == 5);
    assert(json::names(m) =~= seq!["kind"@, "value"@]);
    json_fields::lemma_member_at(m, 0);
    json_fields::lemma_member_at(m, 1);
    match step {
        node::Step::Index(n) => {
            integer::lemma_decimal(n as nat);
            assert(json::decimal_integer(segment::decimal(n as nat)));
        },
        _ => {},
    }
    json_fields::lemma_object_plain(m, 94);
}

proof fn lemma_path(path: Seq<node::Step>)
    requires
        node::indexed(path),
    ensures
        steps_in(path_json(path)->Array_0) == Some(path),
        json::plain(path_json(path), 95),
    decreases path.len(),
{
    let a = path_json(path)->Array_0;
    assert forall|i: int| 0 <= i < a.len() implies json::plain(#[trigger] a[i], 94) by {
        assert(a[i] == step_json(path[i]));
        lemma_step(path[i]);
    }
    if path.len() > 0 {
        let head = path.drop_last();
        assert forall|i: int| 0 <= i < head.len() implies ((
        #[trigger] head[i]) matches node::Step::Index(k) ==> 0 <= k <= usize::MAX) by {
            assert(head[i] == path[i]);
        }
        lemma_path(head);
        lemma_step(path[path.len() - 1]);
        assert(a.drop_last() =~= path_json(head)->Array_0);
        assert(head.push(path.last()) =~= path);
    } else {
        assert(path =~= Seq::<node::Step>::empty());
    }
}

proof fn lemma_placeholder(p: layout::PlaceholderModel)
    requires
        node::indexed(p.path),
    ensures
        placeholder_in(placeholder_json(p)) == Some(p),
        json::plain(placeholder_json(p), 96),
{
    reveal_strlit("token");
    reveal_strlit("path");
    let m = placeholder_json(p)->Object_0;
    assert("token"@.len() == 5 && "path"@.len() == 4);
    assert(json::names(m) =~= seq!["token"@, "path"@]);
    json_fields::lemma_member_at(m, 0);
    json_fields::lemma_member_at(m, 1);
    lemma_path(p.path);
    json_fields::lemma_object_plain(m, 96);
}

proof fn lemma_marks(list: Seq<layout::PlaceholderModel>)
    requires
        forall|i: int| 0 <= i < list.len() ==> node::indexed((#[trigger] list[i]).path),
    ensures
        placeholders_in(marks_json(list)->Array_0) == Some(list),
        json::plain(marks_json(list), 97),
    decreases list.len(),
{
    let a = marks_json(list)->Array_0;
    assert forall|i: int| 0 <= i < a.len() implies json::plain(#[trigger] a[i], 96) by {
        assert(a[i] == placeholder_json(list[i]));
        lemma_placeholder(list[i]);
    }
    if list.len() > 0 {
        let head = list.drop_last();
        assert forall|i: int| 0 <= i < head.len() implies node::indexed(
            (#[trigger] head[i]).path,
        ) by {
            assert(head[i] == list[i]);
        }
        lemma_marks(head);
        lemma_placeholder(list[list.len() - 1]);
        assert(a.drop_last() =~= marks_json(head)->Array_0);
        assert(head.push(list.last()) =~= list);
    } else {
        assert(list =~= Seq::<layout::PlaceholderModel>::empty());
    }
}

proof fn lemma_template(t: Option<layout::TemplateModel>)
    requires
        t matches Some(t) ==> forall|i: int|
            0 <= i < t.placeholders.len() ==> node::indexed((#[trigger] t.placeholders[i]).path),
    ensures
        template_in(Some(template_json(t))) == Some(t),
        json::plain(template_json(t), 99),
{
    match t {
        Some(t) => {
            reveal_strlit("body");
            reveal_strlit("placeholders");
            let m = template_json(Some(t))->Object_0;
            assert("body"@.len() == 4 && "placeholders"@.len() == 12);
            assert(json::names(m) =~= seq!["body"@, "placeholders"@]);
            json_fields::lemma_member_at(m, 0);
            json_fields::lemma_member_at(m, 1);
            lemma_marks(t.placeholders);
            json_fields::lemma_object_plain(m, 98);
            lemma_deeper(template_json(Some(t)), 98);
        },
        None => {},
    }
}

proof fn lemma_deeper(t: JsonTree, depth: nat)
    requires
        json::plain(t, depth),
    ensures
        json::plain(t, depth + 1),
    decreases depth,
{
    match t {
        JsonTree::Array(a) => {
            assert forall|i: int| 0 <= i < a.len() implies json::plain(#[trigger] a[i], depth) by {
                lemma_deeper(a[i], (depth - 1) as nat);
            }
        },
        JsonTree::Object(m) => {
            assert forall|i: int| 0 <= i < m.len() implies !json::reader_mark(
                (#[trigger] m[i]).0,
            ) && json::plain(m[i].1, depth) by {
                lemma_deeper(m[i].1, (depth - 1) as nat);
            }
        },
        _ => {},
    }
}

proof fn lemma_assignment_names(d: layout::DotenvModel)
    ensures
        json::names(assignment_json(d)->Object_0) == seq![
            "key"@,
            "exported"@,
            "quote"@,
            "leading"@,
            "inline_comment"@,
        ],
        json::names(assignment_json(d)->Object_0).no_duplicates(),
{
    reveal_strlit("key");
    reveal_strlit("exported");
    reveal_strlit("quote");
    reveal_strlit("leading");
    reveal_strlit("inline_comment");
    assert("key"@.len() == 3 && "exported"@.len() == 8 && "quote"@.len() == 5 && "leading"@.len()
        == 7 && "inline_comment"@.len() == 14);
    let m = assignment_json(d)->Object_0;
    assert(json::names(m) =~= seq!["key"@, "exported"@, "quote"@, "leading"@, "inline_comment"@]);
}

proof fn lemma_layout_names(m: layout::LayoutModel)
    ensures
        json::names(layout_json(m)->Object_0) == seq![
            "line_ending"@,
            "trailing_newline"@,
            "preamble_comments"@,
            "dotenv"@,
            "template"@,
        ],
        json::names(layout_json(m)->Object_0).no_duplicates(),
{
    reveal_strlit("line_ending");
    reveal_strlit("trailing_newline");
    reveal_strlit("preamble_comments");
    reveal_strlit("dotenv");
    reveal_strlit("template");
    let o = layout_json(m)->Object_0;
    assert("line_ending"@.len() == 11 && "trailing_newline"@.len() == 16
        && "preamble_comments"@.len() == 17 && "dotenv"@.len() == 6 && "template"@.len() == 8);
    assert(json::names(o) =~= seq![
        "line_ending"@,
        "trailing_newline"@,
        "preamble_comments"@,
        "dotenv"@,
        "template"@,
    ]);
}

pub proof fn lemma_assignment(d: layout::DotenvModel)
    ensures
        assignment_in(assignment_json(d)) == Some(d),
        json::plain(assignment_json(d), 98),
{
    reveal_strlit("key");
    reveal_strlit("exported");
    reveal_strlit("quote");
    reveal_strlit("leading");
    reveal_strlit("inline_comment");
    reveal_strlit("unquoted");
    reveal_strlit("single");
    reveal_strlit("double");
    let m = assignment_json(d)->Object_0;
    assert("key"@.len() == 3 && "exported"@.len() == 8 && "quote"@.len() == 5 && "leading"@.len()
        == 7 && "inline_comment"@.len() == 14);
    assert("unquoted"@.len() == 8 && "single"@[0] == 's' && "double"@[0] == 'd' && "single"@.len()
        == 6 && "double"@.len() == 6);
    assert(json::names(m) =~= seq!["key"@, "exported"@, "quote"@, "leading"@, "inline_comment"@]);
    assert(json::names(m).no_duplicates());
    json_fields::lemma_member_at(m, 0);
    json_fields::lemma_member_at(m, 1);
    json_fields::lemma_member_at(m, 2);
    json_fields::lemma_member_at(m, 3);
    json_fields::lemma_member_at(m, 4);
    json_fields::lemma_strings(d.leading);
    json_fields::lemma_strings_plain(d.leading, 97);
    json_fields::lemma_object_plain(m, 98);
}

proof fn lemma_dotenv(list: Seq<layout::DotenvModel>)
    ensures
        assignments_in(dotenv_json(list)->Array_0) == Some(list),
        json::plain(dotenv_json(list), 99),
    decreases list.len(),
{
    let a = dotenv_json(list)->Array_0;
    assert forall|i: int| 0 <= i < a.len() implies json::plain(#[trigger] a[i], 98) by {
        assert(a[i] == assignment_json(list[i]));
        lemma_assignment(list[i]);
    }
    if list.len() > 0 {
        let head = list.drop_last();
        lemma_dotenv(head);
        lemma_assignment(list.last());
        assert(a.drop_last() =~= dotenv_json(head)->Array_0);
        assert(head.push(list.last()) =~= list);
    } else {
        assert(list =~= Seq::<layout::DotenvModel>::empty());
    }
}

/// Law: the record of a layout is read as that layout.
pub proof fn law_layout_record_is_read_back(m: layout::LayoutModel)
    requires
        layout::indexed_layout(m),
    ensures
        layout_in(layout_json(m)) == Some(m),
        json::plain(layout_json(m), 100),
{
    reveal_strlit("line_ending");
    reveal_strlit("trailing_newline");
    reveal_strlit("preamble_comments");
    reveal_strlit("dotenv");
    reveal_strlit("template");
    reveal_strlit("lf");
    reveal_strlit("crlf");
    let o = layout_json(m)->Object_0;
    assert("line_ending"@.len() == 11 && "trailing_newline"@.len() == 16
        && "preamble_comments"@.len() == 17 && "dotenv"@.len() == 6 && "template"@.len() == 8);
    assert("lf"@.len() == 2 && "crlf"@.len() == 4);
    assert(json::names(o) =~= seq![
        "line_ending"@,
        "trailing_newline"@,
        "preamble_comments"@,
        "dotenv"@,
        "template"@,
    ]);
    assert(json::names(o).no_duplicates());
    json_fields::lemma_member_at(o, 0);
    json_fields::lemma_member_at(o, 1);
    json_fields::lemma_member_at(o, 2);
    json_fields::lemma_member_at(o, 3);
    json_fields::lemma_member_at(o, 4);
    json_fields::lemma_strings(m.preamble_comments);
    json_fields::lemma_strings_plain(m.preamble_comments, 99);
    lemma_dotenv(m.dotenv);
    lemma_template(m.template);
    json_fields::lemma_object_plain(o, 100);
}

fn text_member(name: &str, value: &str) -> (r: (String, JsonValue))
    ensures
        r.0@ == name@,
        r.1@ == JsonTree::String(value@),
{
    json_fields::member_of(name, JsonValue::String(value.to_owned()))
}

fn put_step(step: &PathSegment) -> (r: JsonValue)
    ensures
        r@ == step_json(step@),
{
    let mut out: Vec<(String, JsonValue)> = Vec::new();
    match step {
        PathSegment::Key(key) => {
            out.push(text_member("kind", "key"));
            out.push(text_member("value", key.as_str()));
        },
        PathSegment::Index(n) => {
            out.push(text_member("kind", "index"));
            out.push(json_fields::member_of("value", JsonValue::Number(segment::decimal_of(*n))));
        },
    }
    let r = JsonValue::Object(out);
    proof {
        json::lemma_view(r);
        assert(json::members(out@) =~= step_json(step@)->Object_0);
    }
    r
}

fn put_path(path: &NodePath) -> (r: JsonValue)
    ensures
        r@ == path_json(path@),
{
    let mut out: Vec<JsonValue> = Vec::new();
    let mut i: usize = 0;
    while i < path.segments.len()
        invariant
            i <= path.segments.len(),
            out@.len() == i,
            forall|j: int| 0 <= j < i ==> (#[trigger] out@[j])@ == step_json(path.segments@[j]@),
        decreases path.segments.len() - i,
    {
        out.push(put_step(&path.segments[i]));
        i = i + 1;
    }
    let r = JsonValue::Array(out);
    proof {
        json::lemma_view(r);
        assert(json::items(out@) =~= path_json(path@)->Array_0);
    }
    r
}

fn put_marks(list: &[Placeholder]) -> (r: JsonValue)
    ensures
        r@ == marks_json(layout::marks(list@)),
{
    let mut out: Vec<JsonValue> = Vec::new();
    let mut i: usize = 0;
    while i < list.len()
        invariant
            i <= list.len(),
            out@.len() == i,
            forall|j: int| 0 <= j < i ==> (#[trigger] out@[j])@ == placeholder_json(list@[j]@),
        decreases list.len() - i,
    {
        let mut inner: Vec<(String, JsonValue)> = Vec::new();
        inner.push(text_member("token", list[i].token()));
        inner.push(json_fields::member_of("path", put_path(list[i].path())));
        let mark = JsonValue::Object(inner);
        proof {
            json::lemma_view(mark);
            assert(json::members(inner@) =~= placeholder_json(list@[i as int]@)->Object_0);
        }
        out.push(mark);
        i = i + 1;
    }
    let r = JsonValue::Array(out);
    proof {
        json::lemma_view(r);
        assert(json::items(out@) =~= marks_json(layout::marks(list@))->Array_0);
    }
    r
}

fn put_template(template: Option<&Template>) -> (r: JsonValue)
    ensures
        match template {
            Some(t) => r@ == template_json(Some(t@)),
            None => r@ == template_json(None),
        },
{
    match template {
        None => JsonValue::Null,
        Some(t) => {
            let mut out: Vec<(String, JsonValue)> = Vec::new();
            out.push(text_member("body", t.body()));
            out.push(json_fields::member_of("placeholders", put_marks(t.placeholders())));
            let r = JsonValue::Object(out);
            proof {
                json::lemma_view(r);
                assert(json::members(out@) =~= template_json(Some(t@))->Object_0);
            }
            r
        },
    }
}

pub fn put_assignment(d: &DotenvLayout) -> (r: JsonValue)
    ensures
        r@ == assignment_json(d@),
{
    let quote = match d.quote {
        QuoteStyle::Unquoted => "unquoted",
        QuoteStyle::Single => "single",
        QuoteStyle::Double => "double",
    };
    let comment = match &d.inline_comment {
        Some(comment) => JsonValue::String(comment.clone()),
        None => JsonValue::Null,
    };
    let mut out: Vec<(String, JsonValue)> = Vec::new();
    out.push(text_member("key", d.key.as_str()));
    out.push(json_fields::member_of("exported", JsonValue::Bool(d.exported)));
    out.push(text_member("quote", quote));
    out.push(
        json_fields::member_of("leading", json_fields::strings_value(d.leading.as_slice())),
    );
    out.push(json_fields::member_of("inline_comment", comment));
    let r = JsonValue::Object(out);
    proof {
        json::lemma_view(r);
        assert(json::members(out@) =~= assignment_json(d@)->Object_0);
    }
    r
}

fn put_dotenv(list: &[DotenvLayout]) -> (r: JsonValue)
    ensures
        r@ == dotenv_json(layout::assignments(list@)),
{
    let mut out: Vec<JsonValue> = Vec::new();
    let mut i: usize = 0;
    while i < list.len()
        invariant
            i <= list.len(),
            out@.len() == i,
            forall|j: int| 0 <= j < i ==> (#[trigger] out@[j])@ == assignment_json(list@[j]@),
        decreases list.len() - i,
    {
        out.push(put_assignment(&list[i]));
        i = i + 1;
    }
    let r = JsonValue::Array(out);
    proof {
        json::lemma_view(r);
        assert(json::items(out@) =~= dotenv_json(layout::assignments(list@))->Array_0);
    }
    r
}

/// Makes the record of a layout.
pub fn record_of(layout: &Layout) -> (r: JsonValue)
    ensures
        r@ == layout_json(layout@),
{
    let ending = match layout.line_ending() {
        LineEnding::Lf => "lf",
        LineEnding::CrLf => "crlf",
    };
    let mut out: Vec<(String, JsonValue)> = Vec::new();
    out.push(text_member("line_ending", ending));
    out.push(
        json_fields::member_of("trailing_newline", JsonValue::Bool(layout.trailing_newline())),
    );
    out.push(
        json_fields::member_of(
            "preamble_comments",
            json_fields::strings_value(layout.preamble_comments()),
        ),
    );
    out.push(json_fields::member_of("dotenv", put_dotenv(layout.dotenv())));
    out.push(json_fields::member_of("template", put_template(layout.template())));
    let r = JsonValue::Object(out);
    proof {
        json::lemma_view(r);
        assert(json::members(out@) =~= layout_json(layout@)->Object_0);
    }
    r
}

/// The text of a field of a record: by name in an object, by position in an array.
pub open spec fn field_text(s: Seq<char>, name: Seq<char>, at: int) -> Option<Seq<char>> {
    match json_typed::json_object(s) {
        Ok(m) => text_map::value_at(m, name),
        Err(_) => match json_typed::json_list(s) {
            Ok(a) => if 0 <= at < a.len() {
                Some(a[at])
            } else {
                None
            },
            Err(_) => None,
        },
    }
}

/// The texts of the items of a list; none where there is no list.
pub open spec fn item_texts(s: Option<Seq<char>>) -> Seq<Seq<char>> {
    match s {
        Some(s) => match json_typed::json_list(s) {
            Ok(a) => a,
            Err(_) => Seq::empty(),
        },
        None => Seq::empty(),
    }
}

/// A record of the layout is written with one of its fields more than once.
pub open spec fn step_repeats(s: Seq<char>) -> bool {
    json_typed::repeats_field(s, seq!["kind"@, "value"@])
}

pub open spec fn placeholder_repeats(s: Seq<char>) -> bool {
    json_typed::repeats_field(s, seq!["token"@, "path"@]) || any_repeats(
        item_texts(field_text(s, "path"@, 1)),
        |x: Seq<char>| step_repeats(x),
    )
}

pub open spec fn template_repeats(s: Seq<char>) -> bool {
    json_typed::repeats_field(s, seq!["body"@, "placeholders"@]) || any_repeats(
        item_texts(field_text(s, "placeholders"@, 1)),
        |x: Seq<char>| placeholder_repeats(x),
    )
}

pub open spec fn assignment_repeats(s: Seq<char>) -> bool {
    json_typed::repeats_field(
        s,
        seq!["key"@, "exported"@, "quote"@, "leading"@, "inline_comment"@],
    )
}

pub open spec fn any_repeats(list: Seq<Seq<char>>, f: spec_fn(Seq<char>) -> bool) -> bool {
    exists|i: int| 0 <= i < list.len() && f(#[trigger] list[i])
}

/// A layout is written with a field of one of its records more than once.
pub open spec fn layout_repeats(s: Seq<char>) -> bool {
    ||| json_typed::repeats_field(
        s,
        seq!["line_ending"@, "trailing_newline"@, "preamble_comments"@, "dotenv"@, "template"@],
    )
    ||| any_repeats(item_texts(field_text(s, "dotenv"@, 3)), |x: Seq<char>| assignment_repeats(x))
    ||| field_text(s, "template"@, 4) matches Some(t) && template_repeats(t)
}

/// The layout that a text holds, or why it holds none. A field that stands twice is
/// refused.
pub open spec fn layout_text_read(s: Seq<char>) -> Result<layout::LayoutModel, Seq<char>> {
    match json::json_parsed(vstd::utf8::encode_utf8(s)) {
        Err(reason) => Err(reason),
        Ok(t) => match layout_in(t) {
            Some(m) => if layout_repeats(s) {
                Err("layout does not follow its schema"@)
            } else {
                Ok(m)
            },
            None => Err("layout does not follow its schema"@),
        },
    }
}

fn find_field(s: &str, name: &str, at: usize) -> (r: Option<String>)
    ensures
        text::view_option(r) == field_text(s@, name@, at as int),
{
    match json_typed::read_object(s) {
        Ok(m) => json_typed::find_member(&m, name),
        Err(_) => match json_typed::read_list(s) {
            Ok(a) => if at < a.len() {
                assert(text::texts(a@)[at as int] == a@[at as int]@);
                Some(a[at].clone())
            } else {
                None
            },
            Err(_) => None,
        },
    }
}

fn find_items(s: &Option<String>) -> (r: Vec<String>)
    ensures
        text::texts(r@) == item_texts(text::view_option(*s)),
{
    let none: Vec<String> = Vec::new();
    assert(text::texts(none@) =~= Seq::<Seq<char>>::empty());
    match s {
        Some(s) => match json_typed::read_list(s.as_str()) {
            Ok(a) => a,
            Err(_) => none,
        },
        None => none,
    }
}

fn has_step_repeats(s: &str) -> (r: bool)
    ensures
        r == step_repeats(s@),
{
    let fields: Vec<String> = vec!["kind".to_owned(), "value".to_owned()];
    assert(text::texts(fields@) =~= seq!["kind"@, "value"@]);
    json_typed::has_repeated(s, fields.as_slice())
}

fn has_placeholder_repeats(s: &str) -> (r: bool)
    ensures
        r == placeholder_repeats(s@),
{
    let fields: Vec<String> = vec!["token".to_owned(), "path".to_owned()];
    assert(text::texts(fields@) =~= seq!["token"@, "path"@]);
    if json_typed::has_repeated(s, fields.as_slice()) {
        return true;
    }
    let list = find_items(&find_field(s, "path", 1));
    let ghost texts = text::texts(list@);
    let ghost f = |x: Seq<char>| step_repeats(x);
    let mut i: usize = 0;
    while i < list.len()
        invariant
            texts == text::texts(list@),
            texts == item_texts(field_text(s@, "path"@, 1)),
            f == (|x: Seq<char>| step_repeats(x)),
            i <= list.len(),
            forall|j: int| 0 <= j < i ==> !f(#[trigger] texts[j]),
        decreases list.len() - i,
    {
        assert(texts[i as int] == list@[i as int]@);
        if has_step_repeats(list[i].as_str()) {
            assert(f(texts[i as int]));
            assert(any_repeats(texts, f));
            return true;
        }
        i = i + 1;
    }
    assert(!any_repeats(texts, f));
    false
}

fn has_template_repeats(s: &str) -> (r: bool)
    ensures
        r == template_repeats(s@),
{
    let fields: Vec<String> = vec!["body".to_owned(), "placeholders".to_owned()];
    assert(text::texts(fields@) =~= seq!["body"@, "placeholders"@]);
    if json_typed::has_repeated(s, fields.as_slice()) {
        return true;
    }
    let list = find_items(&find_field(s, "placeholders", 1));
    let ghost texts = text::texts(list@);
    let ghost f = |x: Seq<char>| placeholder_repeats(x);
    let mut i: usize = 0;
    while i < list.len()
        invariant
            texts == text::texts(list@),
            texts == item_texts(field_text(s@, "placeholders"@, 1)),
            f == (|x: Seq<char>| placeholder_repeats(x)),
            i <= list.len(),
            forall|j: int| 0 <= j < i ==> !f(#[trigger] texts[j]),
        decreases list.len() - i,
    {
        assert(texts[i as int] == list@[i as int]@);
        if has_placeholder_repeats(list[i].as_str()) {
            assert(f(texts[i as int]));
            assert(any_repeats(texts, f));
            return true;
        }
        i = i + 1;
    }
    assert(!any_repeats(texts, f));
    false
}

fn has_assignment_repeats(s: &str) -> (r: bool)
    ensures
        r == assignment_repeats(s@),
{
    let fields: Vec<String> = vec![
        "key".to_owned(),
        "exported".to_owned(),
        "quote".to_owned(),
        "leading".to_owned(),
        "inline_comment".to_owned(),
    ];
    assert(text::texts(fields@) =~= seq![
        "key"@,
        "exported"@,
        "quote"@,
        "leading"@,
        "inline_comment"@,
    ]);
    json_typed::has_repeated(s, fields.as_slice())
}

fn has_layout_repeats(s: &str) -> (r: bool)
    ensures
        r == layout_repeats(s@),
{
    let fields: Vec<String> = vec![
        "line_ending".to_owned(),
        "trailing_newline".to_owned(),
        "preamble_comments".to_owned(),
        "dotenv".to_owned(),
        "template".to_owned(),
    ];
    assert(text::texts(fields@) =~= seq![
        "line_ending"@,
        "trailing_newline"@,
        "preamble_comments"@,
        "dotenv"@,
        "template"@,
    ]);
    if json_typed::has_repeated(s, fields.as_slice()) {
        return true;
    }
    let list = find_items(&find_field(s, "dotenv", 3));
    let ghost texts = text::texts(list@);
    let ghost f = |x: Seq<char>| assignment_repeats(x);
    let mut i: usize = 0;
    while i < list.len()
        invariant
            texts == text::texts(list@),
            texts == item_texts(field_text(s@, "dotenv"@, 3)),
            f == (|x: Seq<char>| assignment_repeats(x)),
            i <= list.len(),
            forall|j: int| 0 <= j < i ==> !f(#[trigger] texts[j]),
        decreases list.len() - i,
    {
        assert(texts[i as int] == list@[i as int]@);
        if has_assignment_repeats(list[i].as_str()) {
            assert(f(texts[i as int]));
            assert(any_repeats(texts, f));
            return true;
        }
        i = i + 1;
    }
    assert(!any_repeats(texts, f));
    match find_field(s, "template", 4) {
        Some(t) => has_template_repeats(t.as_str()),
        None => false,
    }
}

/// The text of a member of an object that was written.
proof fn lemma_member_text(s: Seq<char>, m: Seq<(Seq<char>, JsonTree)>, i: int, at: int)
    requires
        json::reads_typed(s, JsonTree::Object(m)),
        0 <= i < m.len(),
    ensures
        field_text(s, m[i].0, at) == Some(json::json_written(m[i].1)),
        json::reads_typed(json::json_written(m[i].1), m[i].1),
{
}

/// The texts of the items of an array that was written, each of which is read back.
proof fn lemma_item_texts(a: Seq<JsonTree>)
    requires
        json::reads_typed(json::json_written(JsonTree::Array(a)), JsonTree::Array(a)),
    ensures
        ({
            let list = item_texts(Some(json::json_written(JsonTree::Array(a))));
            list.len() == a.len() && forall|i: int|
                0 <= i < a.len() ==> #[trigger] list[i] == json::json_written(a[i])
                    && json::reads_typed(list[i], a[i])
        }),
{
    let list = item_texts(Some(json::json_written(JsonTree::Array(a))));
    assert forall|i: int| 0 <= i < a.len() implies #[trigger] list[i] == json::json_written(a[i])
        && json::reads_typed(list[i], a[i]) by {
        assert(json::reads_typed(json::json_written(a[i]), a[i]));
    }
}

proof fn lemma_step_once(s: Seq<char>, step: node::Step)
    requires
        json::reads_typed(s, step_json(step)),
    ensures
        !step_repeats(s),
{
    reveal_strlit("kind");
    reveal_strlit("value");
    let m = step_json(step)->Object_0;
    assert("kind"@.len() == 4 && "value"@.len() == 5);
    assert(json::names(m) =~= seq!["kind"@, "value"@]);
    json_fields::lemma_no_repeats(s, m, seq!["kind"@, "value"@]);
}

proof fn lemma_placeholder_once(s: Seq<char>, p: layout::PlaceholderModel)
    requires
        json::reads_typed(s, placeholder_json(p)),
    ensures
        !placeholder_repeats(s),
{
    reveal_strlit("token");
    reveal_strlit("path");
    let m = placeholder_json(p)->Object_0;
    assert("token"@.len() == 5 && "path"@.len() == 4);
    assert(json::names(m) =~= seq!["token"@, "path"@]);
    json_fields::lemma_no_repeats(s, m, seq!["token"@, "path"@]);
    lemma_member_text(s, m, 1, 1);
    let a = path_json(p.path)->Array_0;
    assert(m[1] == ("path"@, JsonTree::Array(a)));
    lemma_item_texts(a);
    let list = item_texts(field_text(s, "path"@, 1));
    assert forall|i: int| 0 <= i < list.len() implies !step_repeats(#[trigger] list[i]) by {
        assert(a[i] == step_json(p.path[i]));
        lemma_step_once(list[i], p.path[i]);
    }
}

proof fn lemma_template_once(s: Seq<char>, t: layout::TemplateModel)
    requires
        json::reads_typed(s, template_json(Some(t))),
    ensures
        !template_repeats(s),
{
    reveal_strlit("body");
    reveal_strlit("placeholders");
    let m = template_json(Some(t))->Object_0;
    assert("body"@.len() == 4 && "placeholders"@.len() == 12);
    assert(json::names(m) =~= seq!["body"@, "placeholders"@]);
    json_fields::lemma_no_repeats(s, m, seq!["body"@, "placeholders"@]);
    lemma_member_text(s, m, 1, 1);
    let a = marks_json(t.placeholders)->Array_0;
    assert(m[1] == ("placeholders"@, JsonTree::Array(a)));
    lemma_item_texts(a);
    let list = item_texts(field_text(s, "placeholders"@, 1));
    assert forall|i: int| 0 <= i < list.len() implies !placeholder_repeats(
        #[trigger] list[i],
    ) by {
        assert(a[i] == placeholder_json(t.placeholders[i]));
        lemma_placeholder_once(list[i], t.placeholders[i]);
    }
}

proof fn lemma_assignment_once(s: Seq<char>, d: layout::DotenvModel)
    requires
        json::reads_typed(s, assignment_json(d)),
    ensures
        !assignment_repeats(s),
{
    let m = assignment_json(d)->Object_0;
    lemma_assignment_names(d);
    json_fields::lemma_no_repeats(
        s,
        m,
        seq!["key"@, "exported"@, "quote"@, "leading"@, "inline_comment"@],
    );
}

/// What a layout is written as has every field once.
proof fn lemma_layout_once(s: Seq<char>, m: layout::LayoutModel)
    requires
        json::reads_typed(s, layout_json(m)),
    ensures
        !layout_repeats(s),
{
    let o = layout_json(m)->Object_0;
    lemma_layout_names(m);
    json_fields::lemma_no_repeats(
        s,
        o,
        seq!["line_ending"@, "trailing_newline"@, "preamble_comments"@, "dotenv"@, "template"@],
    );
    lemma_member_text(s, o, 3, 3);
    lemma_member_text(s, o, 4, 4);
    let a = dotenv_json(m.dotenv)->Array_0;
    assert(o[3] == ("dotenv"@, JsonTree::Array(a)));
    lemma_item_texts(a);
    let list = item_texts(field_text(s, "dotenv"@, 3));
    assert forall|i: int| 0 <= i < list.len() implies !assignment_repeats(#[trigger] list[i]) by {
        assert(a[i] == assignment_json(m.dotenv[i]));
        lemma_assignment_once(list[i], m.dotenv[i]);
    }
    let t = json::json_written(template_json(m.template));
    assert(field_text(s, "template"@, 4) == Some(t));
    match m.template {
        Some(template) => {
            lemma_template_once(t, template);
        },
        None => {
            assert(json_typed::member_names(t).len() == 0);
        },
    }
}

/// Reads a layout from its text.
pub fn parse(s: &str) -> (r: Result<Layout, String>)
    ensures
        match r {
            Ok(l) => layout_text_read(s@) == Ok::<layout::LayoutModel, Seq<char>>(l@),
            Err(reason) => layout_text_read(s@) == Err::<layout::LayoutModel, Seq<char>>(reason@),
        },
{
    match json::parse(s.as_bytes_vec().as_slice()) {
        Err(reason) => Err(reason),
        Ok(value) => match read(&value) {
            Some(l) => if has_layout_repeats(s) {
                Err("layout does not follow its schema".to_owned())
            } else {
                Ok(l)
            },
            None => Err("layout does not follow its schema".to_owned()),
        },
    }
}

/// The text of a layout.
pub open spec fn layout_text(m: layout::LayoutModel) -> Seq<char> {
    json::json_written(layout_json(m))
}

/// Writes a layout on one line. Its text is read back as the layout.
pub fn write(layout: &Layout) -> (r: Result<String, String>)
    ensures
        r matches Ok(s) && s@ == layout_text(layout@) && layout_text_read(s@) == Ok::<
            layout::LayoutModel,
            Seq<char>,
        >(layout@),
{
    let value = record_of(layout);
    proof {
        layout::lemma_indexed_layout(*layout);
        law_layout_record_is_read_back(layout@);
        json::lemma_plain(value@, 100);
    }
    let r = json::write(&value);
    proof {
        lemma_layout_once(r->Ok_0@, layout@);
    }
    r
}

} // verus!
