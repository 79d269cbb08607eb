//! The TOML format.
//!
//! A document keeps its text as a template in which tokens stand for the values;
//! writing puts the values back in, each string in the style it had.

use vstd::prelude::*;
use vstd::string::StrSliceExecFns;

use crate::codec::integer;
use crate::codec::json;
use crate::codec::json::{JsonTree, JsonValue};
use crate::codec::toml_codec;
use crate::codec::toml_codec::{TomlSyntax, TomlSyntaxTree, TomlTree, TomlValue};
use crate::config::SourceFormat;
use crate::segment;
use crate::source::document;
use crate::source::document::{SourceDocument, SourceError};
use crate::source::json as json_format;
use crate::source::layout;
use crate::source::node;
use crate::source::patch;
use crate::source::patch::Patch;
use crate::source::{Layout, LineEnding, Node, NodePath, Placeholder, Scalar, Template};
use crate::text;

verus! {

pub open spec fn parse_fault(reason: Seq<char>) -> document::SourceFault {
    document::SourceFault::Parse { format: SourceFormat::Toml, reason }
}

pub open spec fn generate_fault(reason: Seq<char>) -> document::SourceFault {
    document::SourceFault::Generate { format: SourceFormat::Toml, reason }
}

fn generate_error(reason: String) -> (r: SourceError)
    ensures
        r@ == generate_fault(reason@),
{
    SourceError::Generate { format: SourceFormat::Toml, reason }
}

/// The document value of a TOML value.
pub open spec fn value_node(t: TomlTree) -> node::Tree
    decreases t,
{
    match t {
        TomlTree::String(s) => node::Tree::Scalar(node::ScalarModel::String(s)),
        TomlTree::Integer(n) => node::Tree::Scalar(
            node::ScalarModel::Integer(integer::integer_text(n)),
        ),
        TomlTree::Float(s) => node::Tree::Scalar(node::ScalarModel::Float(s)),
        TomlTree::Bool(b) => node::Tree::Scalar(node::ScalarModel::Bool(b)),
        TomlTree::DateTime(s) => node::Tree::Scalar(node::ScalarModel::DateTime(s)),
        TomlTree::Array(a) => node::Tree::Sequence(
            Seq::new(
                a.len(),
                |i: int|
                    if 0 <= i < a.len() {
                        value_node(a[i])
                    } else {
                        arbitrary()
                    },
            ),
        ),
        TomlTree::Table(m) => node::Tree::Mapping(
            Seq::new(
                m.len(),
                |i: int|
                    if 0 <= i < m.len() {
                        (m[i].0, value_node(m[i].1))
                    } else {
                        arbitrary()
                    },
            ),
        ),
    }
}

/// TOML has no tags.
pub proof fn lemma_value_is_named(t: TomlTree)
    ensures
        node::named_tags(value_node(t)),
    decreases t,
{
    match t {
        TomlTree::Array(a) => {
            let list = value_node(t)->Sequence_0;
            assert forall|i: int| 0 <= i < list.len() implies node::named_tags(
                #[trigger] list[i],
            ) by {
                assert(decreases_to!(a => a[i]));
                lemma_value_is_named(a[i]);
            }
        },
        TomlTree::Table(m) => {
            let e = value_node(t)->Mapping_0;
            assert forall|i: int| 0 <= i < e.len() implies node::named_tags(
                #[trigger] e[i].1,
            ) by {
                assert(decreases_to!(m => m[i].1));
                lemma_value_is_named(m[i].1);
            }
        },
        _ => {},
    }
}

/// The text of an integer.
fn integer_string(n: i64) -> (r: String)
    ensures
        r@ == integer::integer_text(n as int),
{
    if n < 0 {
        let less: i64 = n + 1;
        let size: u64 = (-less) as u64 + 1;
        let digits = segment::decimal_u64(size);
        let r = text::cat2("-", digits.as_str());
        proof {
            reveal_strlit("-");
            assert("-"@ =~= seq!['-']);
        }
        r
    } else {
        segment::decimal_u64(n as u64)
    }
}

/// The document value of a TOML value.
pub fn from_value(value: &TomlValue) -> (r: Node)
    ensures
        r@ == value_node(value@),
    decreases value,
{
    proof {
        toml_codec::lemma_view(*value);
    }
    match value {
        TomlValue::String(s) => Node::Scalar(Scalar::String(s.clone())),
        TomlValue::Integer(n) => Node::Scalar(Scalar::Integer(integer_string(*n))),
        TomlValue::Float(s) => Node::Scalar(Scalar::Float(s.clone())),
        TomlValue::Bool(b) => Node::Scalar(Scalar::Bool(*b)),
        TomlValue::DateTime(s) => Node::Scalar(Scalar::DateTime(s.clone())),
        TomlValue::Array(v) => {
            let mut out: Vec<Node> = Vec::new();
            let mut i: usize = 0;
            while i < v.len()
                invariant
                    decreases_to!(value => v@),
                    i <= v.len(),
                    out@.len() == i,
                    forall|j: int| 0 <= j < i ==> (#[trigger] out@[j])@ == value_node(v@[j]@),
                decreases v.len() - i,
            {
                assert(decreases_to!(v@ => v@[i as int]));
                out.push(from_value(&v[i]));
                i = i + 1;
            }
            let r = Node::Sequence(out);
            proof {
                node::lemma_view(r);
                assert(node::trees(out@) =~= value_node(value@)->Sequence_0);
            }
            r
        },
        TomlValue::Table(v) => {
            let mut out: Vec<(String, Node)> = Vec::new();
            let mut i: usize = 0;
            while i < v.len()
                invariant
                    decreases_to!(value => v@),
                    i <= v.len(),
                    out@.len() == i,
                    forall|j: int|
                        0 <= j < i ==> (#[trigger] out@[j]).0@ == v@[j].0@ && out@[j].1@
                            == value_node(v@[j].1@),
                decreases v.len() - i,
            {
                assert(decreases_to!(v@ => v@[i as int]));
                out.push((v[i].0.clone(), from_value(&v[i].1)));
                i = i + 1;
            }
            let r = Node::Mapping(out);
            proof {
                node::lemma_view(r);
                assert(node::entries(out@) =~= value_node(value@)->Mapping_0);
            }
            r
        },
    }
}

/// Distinct names in the tables make distinct keys in the mappings.
proof fn lemma_value_node(t: TomlTree)
    requires
        toml_codec::well_named(t),
    ensures
        node::well_keyed(value_node(t)),
    decreases t,
{
    match t {
        TomlTree::Array(a) => {
            let s = value_node(t)->Sequence_0;
            assert forall|i: int| 0 <= i < s.len() implies node::well_keyed(#[trigger] s[i]) by {
                assert(decreases_to!(a => a[i]));
                assert(toml_codec::well_named(a[i]));
                lemma_value_node(a[i]);
            }
        },
        TomlTree::Table(m) => {
            let e = value_node(t)->Mapping_0;
            assert(node::keys(e) =~= toml_codec::names(m));
            assert forall|i: int| 0 <= i < e.len() implies node::well_keyed(#[trigger] e[i].1) by {
                assert(decreases_to!(m => m[i]));
                assert(toml_codec::well_named(m[i].1));
                lemma_value_node(m[i].1);
            }
        },
        _ => {},
    }
}

/// The bytes of a range; where there is none, a range that lies in no text.
pub open spec fn range_of(span: Option<(int, int)>) -> (int, int) {
    match span {
        Some(range) => range,
        None => (1, 0),
    }
}

/// How a string is written: multi-line basic, multi-line literal, literal, or basic.
pub open spec fn string_style(written: Seq<u8>) -> Seq<char> {
    if text::starts_with(written, seq![34u8, 34u8, 34u8]) {
        "mb"@
    } else if text::starts_with(written, seq![39u8, 39u8, 39u8]) {
        "ml"@
    } else if text::starts_with(written, seq![39u8]) {
        "sl"@
    } else {
        "sb"@
    }
}

/// The bytes of a text in a range, as far as they lie in the text.
pub open spec fn written_at(bytes: Seq<u8>, span: Option<(int, int)>) -> Seq<u8> {
    let (start, end) = range_of(span);
    if 0 <= start <= end <= bytes.len() {
        bytes.subrange(start, end)
    } else {
        Seq::empty()
    }
}

pub open spec fn plain_token(n: nat) -> Seq<char> {
    "__GITVEIL_VALUE_"@ + segment::zero_padded(segment::decimal(n), 4) + "__"@
}

pub open spec fn string_token(n: nat, written: Seq<u8>) -> Seq<char> {
    plain_token(n) + "@"@ + string_style(written)
}

/// A value of the text, the token that stands for it, and the place of its value.
pub struct MarkModel {
    pub start: int,
    pub end: int,
    pub token: Seq<char>,
    pub path: Seq<node::Step>,
}

pub open spec fn with_mark(
    marks: Seq<MarkModel>,
    span: Option<(int, int)>,
    token: Seq<char>,
    path: Seq<node::Step>,
) -> Seq<MarkModel> {
    let (start, end) = range_of(span);
    marks.push(MarkModel { start, end, token, path })
}

/// The marks for the values of a part of a document, after those found so far.
pub open spec fn marked(
    bytes: Seq<u8>,
    t: TomlSyntaxTree,
    path: Seq<node::Step>,
    marks: Seq<MarkModel>,
) -> Seq<MarkModel>
    decreases t, 0nat,
{
    match t {
        TomlSyntaxTree::Missing => marks,
        TomlSyntaxTree::Table(e) => marked_entries(bytes, e, path, marks, e.len()),
        TomlSyntaxTree::Inline(e) => marked_entries(bytes, e, path, marks, e.len()),
        TomlSyntaxTree::Tables(p) => marked_parts(bytes, p, path, marks, p.len()),
        TomlSyntaxTree::Array(p) => marked_parts(bytes, p, path, marks, p.len()),
        TomlSyntaxTree::Text { value, span } => with_mark(
            marks,
            span,
            string_token(marks.len(), written_at(bytes, span)),
            path,
        ),
        TomlSyntaxTree::Other { span } => with_mark(marks, span, plain_token(marks.len()), path),
    }
}

pub open spec fn marked_entries(
    bytes: Seq<u8>,
    e: Seq<(Seq<char>, TomlSyntaxTree)>,
    path: Seq<node::Step>,
    marks: Seq<MarkModel>,
    n: nat,
) -> Seq<MarkModel>
    decreases e, n,
{
    if n == 0 || n > e.len() {
        marks
    } else {
        marked(
            bytes,
            e[n - 1].1,
            path.push(node::Step::Key(e[n - 1].0)),
            marked_entries(bytes, e, path, marks, (n - 1) as nat),
        )
    }
}

pub open spec fn marked_parts(
    bytes: Seq<u8>,
    p: Seq<TomlSyntaxTree>,
    path: Seq<node::Step>,
    marks: Seq<MarkModel>,
    n: nat,
) -> Seq<MarkModel>
    decreases p, n,
{
    if n == 0 || n > p.len() {
        marks
    } else {
        marked(
            bytes,
            p[n - 1],
            path.push(node::Step::Index(n - 1)),
            marked_parts(bytes, p, path, marks, (n - 1) as nat),
        )
    }
}

fn take_range(span: Option<(usize, usize)>) -> (r: (usize, usize))
    ensures
        (r.0 as int, r.1 as int) == range_of(toml_codec::view_span(span)),
{
    match span {
        Some(range) => range,
        None => (1, 0),
    }
}

fn stands_in(bytes: &Vec<u8>, at: usize, end: usize, mark: &Vec<u8>) -> (r: bool)
    requires
        at <= end <= bytes.len(),
    ensures
        r == text::starts_with(bytes@.subrange(at as int, end as int), mark@),
{
    let ghost part = bytes@.subrange(at as int, end as int);
    if end - at < mark.len() {
        return false;
    }
    let mut i: usize = 0;
    while i < mark.len()
        invariant
            i <= mark.len() <= end - at,
            at <= end <= bytes.len(),
            part == bytes@.subrange(at as int, end as int),
            forall|j: int| 0 <= j < i ==> part[j] == mark@[j],
        decreases mark.len() - i,
    {
        if bytes[at + i] != mark[i] {
            assert(part.subrange(0, mark@.len() as int)[i as int] == part[i as int]);
            return false;
        }
        i = i + 1;
    }
    assert(part.subrange(0, mark@.len() as int) =~= mark@);
    true
}

fn style_of(bytes: &Vec<u8>, span: Option<(usize, usize)>) -> (r: &'static str)
    ensures
        r@ == string_style(written_at(bytes@, toml_codec::view_span(span))),
{
    let (start, end) = take_range(span);
    if start > end || end > bytes.len() {
        return "sb";
    }
    let basic: Vec<u8> = vec![34, 34, 34];
    let literal: Vec<u8> = vec![39, 39, 39];
    let single: Vec<u8> = vec![39];
    assert(basic@ =~= seq![34u8, 34u8, 34u8]);
    assert(literal@ =~= seq![39u8, 39u8, 39u8]);
    assert(single@ =~= seq![39u8]);
    if stands_in(bytes, start, end, &basic) {
        "mb"
    } else if stands_in(bytes, start, end, &literal) {
        "ml"
    } else if stands_in(bytes, start, end, &single) {
        "sl"
    } else {
        "sb"
    }
}

struct Mark {
    start: usize,
    end: usize,
    token: String,
    path: NodePath,
}

spec fn view_mark(m: Mark) -> MarkModel {
    MarkModel { start: m.start as int, end: m.end as int, token: m.token@, path: m.path@ }
}

spec fn marks_of(v: Seq<Mark>) -> Seq<MarkModel> {
    v.map_values(|m: Mark| view_mark(m))
}

fn make_token(n: usize) -> (r: String)
    ensures
        r@ == plain_token(n as nat),
{
    text::cat3("__GITVEIL_VALUE_", segment::padded_decimal(n, 4).as_str(), "__")
}

fn push_mark(
    marks: &mut Vec<Mark>,
    span: Option<(usize, usize)>,
    token: String,
    path: &NodePath,
)
    ensures
        marks_of(final(marks)@) == with_mark(
            marks_of(old(marks)@),
            toml_codec::view_span(span),
            token@,
            path@,
        ),
{
    let ghost before = marks@;
    let (start, end) = take_range(span);
    marks.push(Mark { start, end, token, path: path.clone() });
    assert(marks_of(marks@) =~= marks_of(before).push(view_mark(marks@.last())));
}

fn mark(bytes: &Vec<u8>, value: &TomlSyntax, path: &NodePath, marks: &mut Vec<Mark>)
    ensures
        marks_of(final(marks)@) == marked(bytes@, value@, path@, marks_of(old(marks)@)),
    decreases value, 0nat,
{
    proof {
        toml_codec::lemma_syntax_view(*value);
    }
    match value {
        TomlSyntax::Missing => {},
        TomlSyntax::Table(v) => mark_entries(bytes, v, path, marks),
        TomlSyntax::Inline(v) => mark_entries(bytes, v, path, marks),
        TomlSyntax::Tables(v) => mark_parts(bytes, v, path, marks),
        TomlSyntax::Array(v) => mark_parts(bytes, v, path, marks),
        TomlSyntax::Text { value: _, span } => {
            let token = make_token(marks.len());
            let styled = text::cat3(token.as_str(), "@", style_of(bytes, *span));
            push_mark(marks, *span, styled, path);
        },
        TomlSyntax::Other { span } => {
            let token = make_token(marks.len());
            push_mark(marks, *span, token, path);
        },
    }
}

fn mark_entries(
    bytes: &Vec<u8>,
    v: &Vec<(String, TomlSyntax)>,
    path: &NodePath,
    marks: &mut Vec<Mark>,
)
    ensures
        marks_of(final(marks)@) == marked_entries(
            bytes@,
            toml_codec::entries(v@),
            path@,
            marks_of(old(marks)@),
            v@.len(),
        ),
    decreases v, 1nat,
{
    let ghost e = toml_codec::entries(v@);
    let ghost start = marks_of(marks@);
    let mut i: usize = 0;
    while i < v.len()
        invariant
            e == toml_codec::entries(v@),
            i <= v.len(),
            marks_of(marks@) == marked_entries(bytes@, e, path@, start, i as nat),
        decreases v.len() - i,
    {
        assert(decreases_to!(v => v@));
        assert(decreases_to!(v@ => v@[i as int]));
        assert(e[i as int] == (v@[i as int].0@, v@[i as int].1@));
        mark(bytes, &v[i].1, &path.child_key(v[i].0.as_str()), marks);
        i = i + 1;
    }
}

fn mark_parts(bytes: &Vec<u8>, v: &Vec<TomlSyntax>, path: &NodePath, marks: &mut Vec<Mark>)
    ensures
        marks_of(final(marks)@) == marked_parts(
            bytes@,
            toml_codec::parts(v@),
            path@,
            marks_of(old(marks)@),
            v@.len(),
        ),
    decreases v, 1nat,
{
    let ghost p = toml_codec::parts(v@);
    let ghost start = marks_of(marks@);
    let mut i: usize = 0;
    while i < v.len()
        invariant
            p == toml_codec::parts(v@),
            i <= v.len(),
            marks_of(marks@) == marked_parts(bytes@, p, path@, start, i as nat),
        decreases v.len() - i,
    {
        assert(decreases_to!(v => v@));
        assert(decreases_to!(v@ => v@[i as int]));
        assert(p[i as int] == v@[i as int]@);
        mark(bytes, &v[i], &path.child_index(i), marks);
        i = i + 1;
    }
}

/// The patch that puts the token in the place of its value, as a string.
pub open spec fn token_patch(m: MarkModel) -> patch::PatchModel {
    patch::PatchModel {
        start: m.start,
        end: m.end,
        text: toml_codec::toml_string_text(m.token),
    }
}

pub open spec fn placeholder_of(m: MarkModel) -> layout::PlaceholderModel {
    layout::PlaceholderModel { token: m.token, path: m.path }
}

/// The template of a document that is written as `printed` with the given syntax: the
/// text with a token in the place of each value, and what each token stands for. `None`
/// where a value has no range in the text.
pub open spec fn scrubbed(printed: Seq<char>, syntax: TomlSyntaxTree) -> Option<
    layout::TemplateModel,
> {
    let marks = marked(
        vstd::utf8::encode_utf8(printed),
        syntax,
        Seq::empty(),
        Seq::empty(),
    );
    match patch::patched(printed, marks.map_values(|m: MarkModel| token_patch(m))) {
        Some(body) => Some(
            layout::TemplateModel {
                body,
                placeholders: marks.map_values(|m: MarkModel| placeholder_of(m)),
            },
        ),
        None => None,
    }
}

/// The document that a TOML text holds, given its value.
pub open spec fn parsed(input: Seq<char>, value: Result<TomlTree, Seq<char>>) -> Result<
    document::DocumentModel,
    document::SourceFault,
> {
    match value {
        Err(reason) => Err(parse_fault(reason)),
        Ok(value) => match toml_codec::laid_out(input) {
            Err(reason) => Err(parse_fault(reason)),
            Ok((printed, syntax)) => match scrubbed(printed, syntax) {
                None => Err(parse_fault("invalid TOML value range"@)),
                Some(template) => Ok(
                    document::DocumentModel {
                        format: SourceFormat::Toml,
                        root: value_node(value),
                        layout: layout::LayoutModel {
                            template: Some(template),
                            ..json_format::plain_layout(input)
                        },
                    },
                ),
            },
        },
    }
}

/// The template of a document with the given text and syntax.
pub fn scrub(printed: &str, syntax: &TomlSyntax) -> (r: Option<Template>)
    ensures
        layout::view_template(r) == scrubbed(printed@, syntax@),
{
    let bytes = printed.as_bytes_vec();
    let mut marks: Vec<Mark> = Vec::new();
    assert(marks_of(marks@) =~= Seq::<MarkModel>::empty());
    mark(&bytes, syntax, &NodePath::root(), &mut marks);
    let ghost models = marks_of(marks@);
    let mut list: Vec<Patch> = Vec::new();
    let mut placeholders: Vec<Placeholder> = Vec::new();
    let mut i: usize = 0;
    while i < marks.len()
        invariant
            models == marks_of(marks@),
            i <= marks.len(),
            list@.len() == i,
            placeholders@.len() == i,
            forall|j: int| 0 <= j < i ==> (#[trigger] list@[j])@ == token_patch(models[j]),
            forall|j: int|
                0 <= j < i ==> (#[trigger] placeholders@[j])@ == placeholder_of(models[j]),
        decreases marks.len() - i,
    {
        assert(models[i as int] == view_mark(marks@[i as int]));
        let item = &marks[i];
        list.push(
            Patch {
                start: item.start,
                end: item.end,
                text: toml_codec::toml_string(item.token.as_str()),
            },
        );
        placeholders.push(Placeholder::new(item.token.clone(), item.path.clone()));
        i = i + 1;
    }
    assert(patch::patches(list@) =~= models.map_values(|m: MarkModel| token_patch(m)));
    assert(layout::marks(placeholders@) =~= models.map_values(|m: MarkModel| placeholder_of(m)));
    match patch::patch(printed, list) {
        Some(body) => Some(Template::new(body, placeholders)),
        None => None,
    }
}

/// Reads a TOML text.
pub fn parse(input: &str) -> (r: Result<SourceDocument, SourceError>)
    ensures
        document::view_document(r) == parsed(input@, toml_codec::toml_parsed(input@)),
{
    let value = match toml_codec::parse(input) {
        Ok(value) => value,
        Err(reason) => {
            return Err(SourceError::Parse { format: SourceFormat::Toml, reason });
        },
    };
    let root = from_value(&value);
    proof {
        lemma_value_node(value@);
    }
    let (printed, syntax) = match toml_codec::lay_out(input) {
        Ok(found) => found,
        Err(reason) => {
            return Err(SourceError::Parse { format: SourceFormat::Toml, reason });
        },
    };
    match scrub(printed.as_str(), &syntax) {
        None => Err(
            SourceError::Parse {
                format: SourceFormat::Toml,
                reason: "invalid TOML value range".to_owned(),
            },
        ),
        Some(template) => {
            let mut layout = Layout::new(
                LineEnding::detect(input),
                json_format::ends_with_newline(input),
            );
            layout.set_template(template);
            Ok(SourceDocument::new(SourceFormat::Toml, root, layout))
        },
    }
}

/// The escapes of a multi-line basic string.
pub open spec fn basic_escaped(v: Seq<char>) -> Seq<char> {
    let a = segment::replace(v, seq!['\\'], seq!['\\', '\\']);
    let b = segment::replace(a, seq!['"', '"', '"'], seq!['\\', '"', '\\', '"', '\\', '"']);
    let c = segment::replace(b, seq!['\n'], seq!['\\', 'n']);
    let d = segment::replace(c, seq!['\r'], seq!['\\', 'r']);
    let e = segment::replace(d, seq!['\u{8}'], seq!['\\', 'b']);
    segment::replace(e, seq!['\u{c}'], seq!['\\', 'f'])
}

/// A string in a style, where the style can hold it; as a JSON string otherwise.
pub open spec fn string_literal(v: Seq<char>, style: Seq<char>) -> Seq<char> {
    if style == "sl"@ && !v.contains('\'') && !v.contains('\n') && !v.contains('\r') {
        seq!['\''] + v + seq!['\'']
    } else if style == "ml"@ && !text::contains(v, seq!['\'', '\'', '\'']) && !(v.len() > 0 && (v[0]
        == '\n' || v[0] == '\r')) {
        seq!['\'', '\'', '\''] + v + seq!['\'', '\'', '\'']
    } else if style == "mb"@ {
        seq!['"', '"', '"'] + basic_escaped(v) + seq!['"', '"', '"']
    } else {
        json::json_written(JsonTree::String(v))
    }
}

/// The document that holds a literal under the key `value`.
pub open spec fn literal_document(literal: Seq<char>) -> Seq<char> {
    "value = "@ + literal + "\n"@
}

/// What is put in for a string in a style.
pub open spec fn styled(v: Seq<char>, style: Seq<char>) -> Result<
    Seq<char>,
    document::SourceFault,
> {
    let whole = literal_document(string_literal(v, style));
    match toml_codec::toml_entry(whole, "value"@) {
        Err(reason) => Err(generate_fault(reason)),
        Ok(None) => Err(generate_fault("could not preserve TOML string style"@)),
        Ok(Some(written)) => Ok(written),
    }
}

/// The text that is put in for a value: arrays and tables on one line.
pub open spec fn leaf(t: node::Tree, path: Seq<node::Step>) -> Result<
    Seq<char>,
    document::SourceFault,
>
    decreases t, 0nat,
{
    match t {
        node::Tree::Scalar(s) => match s {
            node::ScalarModel::String(v) => Ok(toml_codec::toml_string_text(v)),
            node::ScalarModel::Integer(v) => match integer::signed_64(v) {
                Some(n) => Ok(integer::integer_text(n)),
                None => Err(generate_fault(integer::integer_reason(v))),
            },
            node::ScalarModel::Float(v) => match toml_codec::toml_float_text(v) {
                Ok(written) => Ok(written),
                Err(reason) => Err(generate_fault(reason)),
            },
            node::ScalarModel::Bool(b) => Ok(
                if b {
                    "true"@
                } else {
                    "false"@
                },
            ),
            node::ScalarModel::DateTime(v) => match toml_codec::toml_time_text(v) {
                Ok(written) => Ok(written),
                Err(reason) => Err(generate_fault(reason)),
            },
            node::ScalarModel::Null => Err(document::SourceFault::LayoutMismatch(path)),
        },
        node::Tree::Sequence(s) => match leaf_items(s, path, s.len()) {
            Ok(inner) => Ok("["@ + inner + "]"@),
            Err(fault) => Err(fault),
        },
        node::Tree::Mapping(e) => match leaf_entries(e, path, e.len()) {
            Ok(inner) => Ok(
                if e.len() == 0 {
                    "{}"@
                } else {
                    "{"@ + inner + " }"@
                },
            ),
            Err(fault) => Err(fault),
        },
        node::Tree::Tagged(_, _) => Err(document::SourceFault::LayoutMismatch(path)),
    }
}

/// The text of the first `n` values of an array.
pub open spec fn leaf_items(s: Seq<node::Tree>, path: Seq<node::Step>, n: nat) -> Result<
    Seq<char>,
    document::SourceFault,
>
    decreases s, n,
{
    if n == 0 || n > s.len() {
        Ok(Seq::empty())
    } else {
        match leaf_items(s, path, (n - 1) as nat) {
            Err(fault) => Err(fault),
            Ok(head) => match leaf(s[n - 1], path.push(node::Step::Index(n - 1))) {
                Err(fault) => Err(fault),
                Ok(item) => Ok(
                    head + (if n > 1 {
                        ", "@
                    } else {
                        ""@
                    }) + item,
                ),
            },
        }
    }
}

/// The text of the first `n` entries of an inline table.
pub open spec fn leaf_entries(
    e: Seq<(Seq<char>, node::Tree)>,
    path: Seq<node::Step>,
    n: nat,
) -> Result<Seq<char>, document::SourceFault>
    decreases e, n,
{
    if n == 0 || n > e.len() {
        Ok(Seq::empty())
    } else {
        match leaf_entries(e, path, (n - 1) as nat) {
            Err(fault) => Err(fault),
            Ok(head) => match leaf(e[n - 1].1, path.push(node::Step::Key(e[n - 1].0))) {
                Err(fault) => Err(fault),
                Ok(item) => Ok(
                    head + (if n > 1 {
                        ", "@
                    } else {
                        " "@
                    }) + toml_codec::toml_key_text(e[n - 1].0) + " = "@ + item,
                ),
            },
        }
    }
}

proof fn lemma_leaf_items_fail(s: Seq<node::Tree>, path: Seq<node::Step>, n: nat, k: nat)
    requires
        n <= k <= s.len(),
        leaf_items(s, path, n) is Err,
    ensures
        leaf_items(s, path, k) == leaf_items(s, path, n),
    decreases k,
{
    if n < k {
        lemma_leaf_items_fail(s, path, n, (k - 1) as nat);
    }
}

proof fn lemma_leaf_entries_fail(
    e: Seq<(Seq<char>, node::Tree)>,
    path: Seq<node::Step>,
    n: nat,
    k: nat,
)
    requires
        n <= k <= e.len(),
        leaf_entries(e, path, n) is Err,
    ensures
        leaf_entries(e, path, k) == leaf_entries(e, path, n),
    decreases k,
{
    if n < k {
        lemma_leaf_entries_fail(e, path, n, (k - 1) as nat);
    }
}

pub open spec fn view_leaf(r: Result<String, SourceError>) -> Result<
    Seq<char>,
    document::SourceFault,
> {
    match r {
        Ok(s) => Ok(s@),
        Err(e) => Err(e@),
    }
}

/// The text that is put in for a value.
pub fn value_text(value: &Node, path: &NodePath) -> (r: Result<String, SourceError>)
    ensures
        view_leaf(r) == leaf(value@, path@),
    decreases value,
{
    proof {
        node::lemma_view(*value);
    }
    match value {
        Node::Scalar(scalar) => match scalar {
            Scalar::String(s) => Ok(toml_codec::toml_string(s.as_str())),
            Scalar::Integer(s) => match integer::parse_i64(s.as_str()) {
                Ok(n) => Ok(integer_string(n)),
                Err(reason) => Err(generate_error(reason)),
            },
            Scalar::Float(s) => match toml_codec::toml_float(s.as_str()) {
                Ok(written) => Ok(written),
                Err(reason) => Err(generate_error(reason)),
            },
            Scalar::Bool(b) => Ok(
                if *b {
                    "true".to_owned()
                } else {
                    "false".to_owned()
                },
            ),
            Scalar::DateTime(s) => match toml_codec::toml_datetime(s.as_str()) {
                Ok(written) => Ok(written),
                Err(reason) => Err(generate_error(reason)),
            },
            Scalar::Null => Err(SourceError::LayoutMismatch(path.clone())),
        },
        Node::Sequence(v) => {
            let ghost s = node::trees(v@);
            let mut out: String = String::new();
            let mut i: usize = 0;
            while i < v.len()
                invariant
                    decreases_to!(value => v@),
                    s == node::trees(v@),
                    value@ == node::Tree::Sequence(s),
                    i <= v.len(),
                    leaf_items(s, path@, i as nat) == Ok::<Seq<char>, document::SourceFault>(out@),
                decreases v.len() - i,
            {
                assert(decreases_to!(v@ => v@[i as int]));
                assert(s[i as int] == v@[i as int]@);
                match value_text(&v[i], &path.child_index(i)) {
                    Ok(item) => {
                        let gap = if i > 0 {
                            ", "
                        } else {
                            ""
                        };
                        out = text::cat3(out.as_str(), gap, item.as_str());
                    },
                    Err(error) => {
                        proof {
                            lemma_leaf_items_fail(s, path@, (i + 1) as nat, s.len());
                        }
                        return Err(error);
                    },
                }
                i = i + 1;
            }
            Ok(text::cat3("[", out.as_str(), "]"))
        },
        Node::Mapping(v) => {
            let ghost e = node::entries(v@);
            let mut out: String = String::new();
            let mut i: usize = 0;
            while i < v.len()
                invariant
                    decreases_to!(value => v@),
                    e == node::entries(v@),
                    value@ == node::Tree::Mapping(e),
                    i <= v.len(),
                    leaf_entries(e, path@, i as nat) == Ok::<Seq<char>, document::SourceFault>(
                        out@,
                    ),
                decreases v.len() - i,
            {
                assert(decreases_to!(v@ => v@[i as int]));
                assert(e[i as int] == (v@[i as int].0@, v@[i as int].1@));
                match value_text(&v[i].1, &path.child_key(v[i].0.as_str())) {
                    Ok(item) => {
                        let gap = if i > 0 {
                            ", "
                        } else {
                            " "
                        };
                        let name = toml_codec::toml_key(v[i].0.as_str());
                        out = text::cat5(out.as_str(), gap, name.as_str(), " = ", item.as_str());
                    },
                    Err(error) => {
                        proof {
                            lemma_leaf_entries_fail(e, path@, (i + 1) as nat, e.len());
                        }
                        return Err(error);
                    },
                }
                i = i + 1;
            }
            if v.len() == 0 {
                Ok("{}".to_owned())
            } else {
                Ok(text::cat3("{", out.as_str(), " }"))
            }
        },
        Node::Tagged { tag: _, value: _ } => Err(SourceError::LayoutMismatch(path.clone())),
    }
}

fn quoted(edge: &Vec<char>, inner: &Vec<char>) -> (r: Vec<char>)
    ensures
        r@ == edge@ + inner@ + edge@,
{
    let mut out: Vec<char> = Vec::new();
    segment::append_chars(&mut out, edge.as_slice());
    segment::append_chars(&mut out, inner.as_slice());
    segment::append_chars(&mut out, edge.as_slice());
    assert(out@ =~= edge@ + inner@ + edge@);
    out
}

fn escape_basic(v: &Vec<char>) -> (r: Vec<char>)
    ensures
        r@ == basic_escaped(v@),
{
    let slash: Vec<char> = vec!['\\'];
    let slashes: Vec<char> = vec!['\\', '\\'];
    let quotes: Vec<char> = vec!['"', '"', '"'];
    let escaped_quotes: Vec<char> = vec!['\\', '"', '\\', '"', '\\', '"'];
    let feed: Vec<char> = vec!['\n'];
    let escaped_feed: Vec<char> = vec!['\\', 'n'];
    let carriage: Vec<char> = vec!['\r'];
    let escaped_carriage: Vec<char> = vec!['\\', 'r'];
    let back: Vec<char> = vec!['\u{8}'];
    let escaped_back: Vec<char> = vec!['\\', 'b'];
    let form: Vec<char> = vec!['\u{c}'];
    let escaped_form: Vec<char> = vec!['\\', 'f'];
    assert(slash@ =~= seq!['\\']);
    assert(slashes@ =~= seq!['\\', '\\']);
    assert(quotes@ =~= seq!['"', '"', '"']);
    assert(escaped_quotes@ =~= seq!['\\', '"', '\\', '"', '\\', '"']);
    assert(feed@ =~= seq!['\n']);
    assert(escaped_feed@ =~= seq!['\\', 'n']);
    assert(carriage@ =~= seq!['\r']);
    assert(escaped_carriage@ =~= seq!['\\', 'r']);
    assert(back@ =~= seq!['\u{8}']);
    assert(escaped_back@ =~= seq!['\\', 'b']);
    assert(form@ =~= seq!['\u{c}']);
    assert(escaped_form@ =~= seq!['\\', 'f']);
    let a = segment::replaced(v.as_slice(), slash.as_slice(), slashes.as_slice());
    let b = segment::replaced(a.as_slice(), quotes.as_slice(), escaped_quotes.as_slice());
    let c = segment::replaced(b.as_slice(), feed.as_slice(), escaped_feed.as_slice());
    let d = segment::replaced(c.as_slice(), carriage.as_slice(), escaped_carriage.as_slice());
    let e = segment::replaced(d.as_slice(), back.as_slice(), escaped_back.as_slice());
    segment::replaced(e.as_slice(), form.as_slice(), escaped_form.as_slice())
}

fn json_string(v: &str) -> (r: String)
    ensures
        r@ == json::json_written(JsonTree::String(v@)),
{
    match json::write(&JsonValue::String(v.to_owned())) {
        Ok(s) => s,
        Err(reason) => reason,
    }
}

fn literal_of(value: &str, style: &str) -> (r: String)
    ensures
        r@ == string_literal(value@, style@),
{
    let v = text::chars_of(value);
    let single: Vec<char> = vec!['\''];
    let triple: Vec<char> = vec!['\'', '\'', '\''];
    let quotes: Vec<char> = vec!['"', '"', '"'];
    assert(single@ =~= seq!['\'']);
    assert(triple@ =~= seq!['\'', '\'', '\'']);
    assert(quotes@ =~= seq!['"', '"', '"']);
    if text::eq(style, "sl") && !text::has_char(v.as_slice(), '\'') && !text::has_char(
        v.as_slice(),
        '\n',
    ) && !text::has_char(v.as_slice(), '\r') {
        return text::string_of(quoted(&single, &v).as_slice());
    }
    if text::eq(style, "ml") && !text::has(v.as_slice(), triple.as_slice()) && !(v.len() > 0 && (
    v[0] == '\n' || v[0] == '\r')) {
        return text::string_of(quoted(&triple, &v).as_slice());
    }
    if text::eq(style, "mb") {
        return text::string_of(quoted(&quotes, &escape_basic(&v)).as_slice());
    }
    json_string(value)
}

fn styled_toml_string(value: &str, style: &str) -> (r: Result<String, SourceError>)
    ensures
        view_leaf(r) == styled(value@, style@),
{
    let literal = literal_of(value, style);
    let whole = text::cat3("value = ", literal.as_str(), "\n");
    match toml_codec::toml_value_in(whole.as_str(), "value") {
        Ok(Some(v)) => Ok(v),
        Ok(None) => Err(generate_error("could not preserve TOML string style".to_owned())),
        Err(reason) => Err(generate_error(reason)),
    }
}

/// The style that a token names, behind its first `__@`.
pub open spec fn token_style(token: Seq<char>) -> Option<Seq<char>> {
    match text::find(token, "__@"@) {
        Some(i) => Some(token.skip(i + "__@"@.len())),
        None => None,
    }
}

/// The patches that put the values of a tree back in, after those found so far.
pub open spec fn restored(
    t: TomlSyntaxTree,
    value: node::Tree,
    path: Seq<node::Step>,
    patches: Seq<patch::PatchModel>,
) -> Result<Seq<patch::PatchModel>, document::SourceFault>
    decreases t, 0nat,
{
    match t {
        TomlSyntaxTree::Table(e) => restored_mapping(e, value, path, patches, e.len()),
        TomlSyntaxTree::Inline(e) => restored_mapping(e, value, path, patches, e.len()),
        TomlSyntaxTree::Tables(p) => restored_sequence(p, value, path, patches, p.len()),
        TomlSyntaxTree::Array(p) => restored_sequence(p, value, path, patches, p.len()),
        TomlSyntaxTree::Text { value: token, span } => if text::starts_with(
            token,
            "__GITVEIL_VALUE_"@,
        ) {
            let put = match (value, token_style(token)) {
                (node::Tree::Scalar(node::ScalarModel::String(v)), Some(style)) => styled(v, style),
                _ => leaf(value, path),
            };
            match put {
                Ok(put) => {
                    let (start, end) = range_of(span);
                    Ok(patches.push(patch::PatchModel { start, end, text: put }))
                },
                Err(fault) => Err(fault),
            }
        } else {
            Err(document::SourceFault::LayoutMismatch(path))
        },
        TomlSyntaxTree::Other { .. } => Err(document::SourceFault::LayoutMismatch(path)),
        TomlSyntaxTree::Missing => Err(document::SourceFault::LayoutMismatch(path)),
    }
}

/// The first `n` entries of a table, whose value must be a mapping of as many.
pub open spec fn restored_mapping(
    e: Seq<(Seq<char>, TomlSyntaxTree)>,
    value: node::Tree,
    path: Seq<node::Step>,
    patches: Seq<patch::PatchModel>,
    n: nat,
) -> Result<Seq<patch::PatchModel>, document::SourceFault>
    decreases e, n,
{
    match value {
        node::Tree::Mapping(values) => if values.len() != e.len() {
            Err(document::SourceFault::LayoutMismatch(path))
        } else if n == 0 || n > e.len() {
            Ok(patches)
        } else {
            match restored_mapping(e, value, path, patches, (n - 1) as nat) {
                Err(fault) => Err(fault),
                Ok(head) => {
                    let here = path.push(node::Step::Key(e[n - 1].0));
                    match node::lookup(values, e[n - 1].0) {
                        None => Err(document::SourceFault::LayoutMismatch(here)),
                        Some(child) => restored(e[n - 1].1, child, here, head),
                    }
                },
            }
        },
        _ => Err(document::SourceFault::LayoutMismatch(path)),
    }
}

/// The first `n` parts of an array, whose value must be a sequence of as many.
pub open spec fn restored_sequence(
    p: Seq<TomlSyntaxTree>,
    value: node::Tree,
    path: Seq<node::Step>,
    patches: Seq<patch::PatchModel>,
    n: nat,
) -> Result<Seq<patch::PatchModel>, document::SourceFault>
    decreases p, n,
{
    match value {
        node::Tree::Sequence(values) => if values.len() != p.len() {
            Err(document::SourceFault::LayoutMismatch(path))
        } else if n == 0 || n > p.len() {
            Ok(patches)
        } else {
            match restored_sequence(p, value, path, patches, (n - 1) as nat) {
                Err(fault) => Err(fault),
                Ok(head) => restored(
                    p[n - 1],
                    values[n - 1],
                    path.push(node::Step::Index(n - 1)),
                    head,
                ),
            }
        },
        _ => Err(document::SourceFault::LayoutMismatch(path)),
    }
}

proof fn lemma_mapping_fail(
    e: Seq<(Seq<char>, TomlSyntaxTree)>,
    value: node::Tree,
    path: Seq<node::Step>,
    patches: Seq<patch::PatchModel>,
    n: nat,
    k: nat,
)
    requires
        n <= k <= e.len(),
        restored_mapping(e, value, path, patches, n) is Err,
    ensures
        restored_mapping(e, value, path, patches, k) == restored_mapping(e, value, path, patches, n),
    decreases k,
{
    if n < k {
        lemma_mapping_fail(e, value, path, patches, n, (k - 1) as nat);
    }
}

proof fn lemma_sequence_fail(
    p: Seq<TomlSyntaxTree>,
    value: node::Tree,
    path: Seq<node::Step>,
    patches: Seq<patch::PatchModel>,
    n: nat,
    k: nat,
)
    requires
        n <= k <= p.len(),
        restored_sequence(p, value, path, patches, n) is Err,
    ensures
        restored_sequence(p, value, path, patches, k) == restored_sequence(p, value, path, patches, n),
    decreases k,
{
    if n < k {
        lemma_sequence_fail(p, value, path, patches, n, (k - 1) as nat);
    }
}

fn find_style(token: &str) -> (r: Option<String>)
    ensures
        text::view_option(r) == token_style(token@),
{
    let chars = text::chars_of(token);
    let mark = text::chars_of("__@");
    match text::find_in(chars.as_slice(), mark.as_slice(), 0) {
        Some(i) => {
            let size: usize = chars.len();
            Some(
                text::string_of(
                    segment::slice_to_vec(chars.as_slice(), i + mark.len(), size).as_slice(),
                ),
            )
        },
        None => None,
    }
}

fn restore_leaf(token: &str, value: &Node, path: &NodePath) -> (r: Result<String, SourceError>)
    ensures
        view_leaf(r) == if text::starts_with(token@, "__GITVEIL_VALUE_"@) {
            match (value@, token_style(token@)) {
                (node::Tree::Scalar(node::ScalarModel::String(v)), Some(style)) => styled(v, style),
                _ => leaf(value@, path@),
            }
        } else {
            Err(document::SourceFault::LayoutMismatch(path@))
        },
{
    if !text::begins_str(token, "__GITVEIL_VALUE_") {
        return Err(SourceError::LayoutMismatch(path.clone()));
    }
    proof {
        node::lemma_view(*value);
    }
    let style = find_style(token);
    match (value, &style) {
        (Node::Scalar(Scalar::String(v)), Some(style)) => styled_toml_string(
            v.as_str(),
            style.as_str(),
        ),
        _ => value_text(value, path),
    }
}

fn restore(
    syntax: &TomlSyntax,
    value: &Node,
    path: &NodePath,
    patches: &mut Vec<Patch>,
) -> (r: Option<SourceError>)
    ensures
        match restored(syntax@, value@, path@, patch::patches(old(patches)@)) {
            Ok(list) => r is None && patch::patches(final(patches)@) == list,
            Err(fault) => r matches Some(e) && e@ == fault,
        },
    decreases syntax, 0nat,
{
    proof {
        toml_codec::lemma_syntax_view(*syntax);
    }
    match syntax {
        TomlSyntax::Table(v) => restore_mapping(v, value, path, patches),
        TomlSyntax::Inline(v) => restore_mapping(v, value, path, patches),
        TomlSyntax::Tables(v) => restore_sequence(v, value, path, patches),
        TomlSyntax::Array(v) => restore_sequence(v, value, path, patches),
        TomlSyntax::Text { value: token, span } => match restore_leaf(
            token.as_str(),
            value,
            path,
        ) {
            Ok(put) => {
                let ghost before = patches@;
                let (start, end) = take_range(*span);
                let put = Patch { start, end, text: put };
                patches.push(put);
                assert(patch::patches(patches@) =~= patch::patches(before).push(put@));
                None
            },
            Err(error) => Some(error),
        },
        TomlSyntax::Other { .. } => Some(SourceError::LayoutMismatch(path.clone())),
        TomlSyntax::Missing => Some(SourceError::LayoutMismatch(path.clone())),
    }
}

fn restore_mapping(
    v: &Vec<(String, TomlSyntax)>,
    value: &Node,
    path: &NodePath,
    patches: &mut Vec<Patch>,
) -> (r: Option<SourceError>)
    ensures
        match restored_mapping(
            toml_codec::entries(v@),
            value@,
            path@,
            patch::patches(old(patches)@),
            v@.len(),
        ) {
            Ok(list) => r is None && patch::patches(final(patches)@) == list,
            Err(fault) => r matches Some(e) && e@ == fault,
        },
    decreases v, 1nat,
{
    proof {
        node::lemma_view(*value);
    }
    let ghost e = toml_codec::entries(v@);
    let ghost start = patch::patches(patches@);
    let values = match value {
        Node::Mapping(values) => values,
        _ => {
            return Some(SourceError::LayoutMismatch(path.clone()));
        },
    };
    if v.len() != values.len() {
        return Some(SourceError::LayoutMismatch(path.clone()));
    }
    let mut i: usize = 0;
    while i < v.len()
        invariant
            e == toml_codec::entries(v@),
            value@ == node::Tree::Mapping(node::entries(values@)),
            v@.len() == values@.len(),
            i <= v.len(),
            start == patch::patches(old(patches)@),
            restored_mapping(e, value@, path@, start, i as nat) == Ok::<
                Seq<patch::PatchModel>,
                document::SourceFault,
            >(patch::patches(patches@)),
        decreases v.len() - i,
    {
        assert(decreases_to!(v => v@));
        assert(decreases_to!(v@ => v@[i as int]));
        assert(e[i as int] == (v@[i as int].0@, v@[i as int].1@));
        let here = path.child_key(v[i].0.as_str());
        let failed = match node::find_key(values, v[i].0.as_str()) {
            None => Some(SourceError::LayoutMismatch(here)),
            Some(k) => {
                assert(node::entries(values@)[k as int] == (
                    values@[k as int].0@,
                    values@[k as int].1@,
                ));
                restore(&v[i].1, &values[k].1, &here, patches)
            },
        };
        if failed.is_some() {
            proof {
                lemma_mapping_fail(e, value@, path@, start, (i + 1) as nat, e.len());
            }
            return failed;
        }
        i = i + 1;
    }
    None
}

fn restore_sequence(
    v: &Vec<TomlSyntax>,
    value: &Node,
    path: &NodePath,
    patches: &mut Vec<Patch>,
) -> (r: Option<SourceError>)
    ensures
        match restored_sequence(
            toml_codec::parts(v@),
            value@,
            path@,
            patch::patches(old(patches)@),
            v@.len(),
        ) {
            Ok(list) => r is None && patch::patches(final(patches)@) == list,
            Err(fault) => r matches Some(e) && e@ == fault,
        },
    decreases v, 1nat,
{
    proof {
        node::lemma_view(*value);
    }
    let ghost p = toml_codec::parts(v@);
    let ghost start = patch::patches(patches@);
    let values = match value {
        Node::Sequence(values) => values,
        _ => {
            return Some(SourceError::LayoutMismatch(path.clone()));
        },
    };
    if v.len() != values.len() {
        return Some(SourceError::LayoutMismatch(path.clone()));
    }
    let mut i: usize = 0;
    while i < v.len()
        invariant
            p == toml_codec::parts(v@),
            value@ == node::Tree::Sequence(node::trees(values@)),
            v@.len() == values@.len(),
            i <= v.len(),
            start == patch::patches(old(patches)@),
            restored_sequence(p, value@, path@, start, i as nat) == Ok::<
                Seq<patch::PatchModel>,
                document::SourceFault,
            >(patch::patches(patches@)),
        decreases v.len() - i,
    {
        assert(decreases_to!(v => v@));
        assert(decreases_to!(v@ => v@[i as int]));
        assert(p[i as int] == v@[i as int]@);
        assert(node::trees(values@)[i as int] == values@[i as int]@);
        let failed = restore(&v[i], &values[i], &path.child_index(i), patches);
        if failed.is_some() {
            proof {
                lemma_sequence_fail(p, value@, path@, start, (i + 1) as nat, p.len());
            }
            return failed;
        }
        i = i + 1;
    }
    None
}

/// A text with the given syntax, in which tokens stand for values, with the values of a
/// tree put in.
pub open spec fn filled(printed: Seq<char>, syntax: TomlSyntaxTree, root: node::Tree) -> Result<
    Seq<char>,
    document::SourceFault,
> {
    match restored(syntax, root, Seq::empty(), Seq::empty()) {
        Err(fault) => Err(fault),
        Ok(list) => match patch::patched(printed, list) {
            Some(s) => Ok(s),
            None => Err(generate_fault("invalid TOML value range"@)),
        },
    }
}

/// The text of a document before its line ending is applied.
pub open spec fn generated_text(d: document::DocumentModel) -> Result<
    Seq<char>,
    document::SourceFault,
> {
    match d.layout.template {
        None => Err(generate_fault("TOML layout template is missing"@)),
        Some(template) => match toml_codec::laid_out(template.body) {
            Err(reason) => Err(generate_fault(reason)),
            Ok((printed, syntax)) => match filled(printed, syntax, d.root) {
                Err(fault) => Err(fault),
                Ok(s) => if d.layout.trailing_newline {
                    Ok(s)
                } else {
                    Ok(segment::trim_end_by(s, |c: char| c == '\n'))
                },
            },
        },
    }
}

/// The bytes of a document.
pub open spec fn generated(d: document::DocumentModel) -> Result<Seq<u8>, document::SourceFault> {
    match generated_text(d) {
        Ok(s) => Ok(vstd::utf8::encode_utf8(d.layout.line_ending.on(s))),
        Err(fault) => Err(fault),
    }
}

fn without_trailing_feeds(s: String) -> (r: String)
    ensures
        r@ == segment::trim_end_by(s@, |c: char| c == '\n'),
{
    let chars = text::chars_of(s.as_str());
    let ghost p = |c: char| c == '\n';
    let mut n: usize = chars.len();
    assert(chars@.take(n as int) =~= chars@);
    while n > 0 && chars[n - 1] == '\n'
        invariant
            n <= chars.len(),
            p == (|c: char| c == '\n'),
            segment::trim_end_by(chars@.take(n as int), p) == segment::trim_end_by(chars@, p),
        decreases n,
    {
        assert(p(chars@[n - 1]));
        assert(chars@.take(n as int).drop_last() =~= chars@.take(n - 1));
        n = n - 1;
    }
    text::string_of(segment::slice_to_vec(chars.as_slice(), 0, n).as_slice())
}

/// Puts the values of a tree into a text with the given syntax.
pub fn fill(printed: &str, syntax: &TomlSyntax, root: &Node) -> (r: Result<String, SourceError>)
    ensures
        view_leaf(r) == filled(printed@, syntax@, root@),
{
    let mut list: Vec<Patch> = Vec::new();
    assert(patch::patches(list@) =~= Seq::<patch::PatchModel>::empty());
    match restore(syntax, root, &NodePath::root(), &mut list) {
        Some(error) => {
            return Err(error);
        },
        None => {},
    }
    match patch::patch(printed, list) {
        Some(s) => Ok(s),
        None => Err(generate_error("invalid TOML value range".to_owned())),
    }
}

/// Writes a document by its template.
pub fn generate(document: &SourceDocument) -> (r: Result<Vec<u8>, SourceError>)
    ensures
        document::view_bytes(r) == generated(document@),
{
    let template = match document.layout().template() {
        Some(template) => template,
        None => {
            return Err(generate_error("TOML layout template is missing".to_owned()));
        },
    };
    let (printed, syntax) = match toml_codec::lay_out(template.body()) {
        Ok(found) => found,
        Err(reason) => {
            return Err(generate_error(reason));
        },
    };
    let restored = match fill(printed.as_str(), &syntax, document.root()) {
        Ok(s) => s,
        Err(error) => {
            return Err(error);
        },
    };
    let whole = if document.layout().trailing_newline() {
        restored
    } else {
        without_trailing_feeds(restored)
    };
    Ok(document.layout().line_ending().apply(whole.as_str()).as_str().as_bytes_vec())
}

/// Law: a table is written back only from a mapping that has exactly its keys: as many of
/// them, and each one.
pub proof fn law_tables_are_written_from_their_keys(
    e: Seq<(Seq<char>, TomlSyntaxTree)>,
    value: node::Tree,
    path: Seq<node::Step>,
    patches: Seq<patch::PatchModel>,
    n: nat,
)
    requires
        n <= e.len(),
        restored_mapping(e, value, path, patches, n) is Ok,
    ensures
        value matches node::Tree::Mapping(values) && values.len() == e.len() && forall|i: int|
            0 <= i < n ==> node::lookup(values, (#[trigger] e[i]).0) is Some,
    decreases n,
{
    if n > 0 {
        law_tables_are_written_from_their_keys(e, value, path, patches, (n - 1) as nat);
    }
}

/// Law: an array is written back only from a sequence of as many items.
pub proof fn law_arrays_are_written_from_their_items(
    p: Seq<TomlSyntaxTree>,
    value: node::Tree,
    path: Seq<node::Step>,
    patches: Seq<patch::PatchModel>,
    n: nat,
)
    requires
        restored_sequence(p, value, path, patches, n) is Ok,
    ensures
        value matches node::Tree::Sequence(values) && values.len() == p.len(),
{
}

} // verus!
