//! The dotenv format.

use vstd::prelude::*;
use vstd::string::StrSliceExecFns;

use crate::config::SourceFormat;
use crate::segment;
use crate::source::document;
use crate::source::document::{SourceDocument, SourceError};
use crate::source::dotenv_value;
use crate::source::layout;
use crate::source::node;
use crate::source::{DotenvLayout, Layout, LineEnding, Node, NodePath, QuoteStyle, Scalar};
use crate::text;

verus! {

pub open spec fn parse_fault(reason: Seq<char>) -> document::SourceFault {
    document::SourceFault::Parse { format: SourceFormat::Dotenv, reason }
}

pub open spec fn generate_fault(reason: Seq<char>) -> document::SourceFault {
    document::SourceFault::Generate { format: SourceFormat::Dotenv, reason }
}

/// A key: a letter or underscore, then letters, digits and underscores.
pub open spec fn key_name(s: Seq<char>) -> bool {
    &&& s.len() > 0
    &&& s[0] == '_' || text::lowercase_letter(s[0]) || 'A' <= s[0] <= 'Z'
    &&& forall|i: int| 1 <= i < s.len() ==> s[i] == '_' || text::alphanumeric(#[trigger] s[i])
}

/// What an escaped character stands for.
pub open spec fn unescape(c: char) -> char {
    if c == 'n' {
        '\n'
    } else if c == 'r' {
        '\r'
    } else if c == 't' {
        '\t'
    } else {
        c
    }
}

/// The text that a double-quoted value encodes; `None` if it ends in an escape.
pub open spec fn decode(s: Seq<char>) -> Option<Seq<char>>
    decreases s.len(),
{
    if s.len() == 0 {
        Some(Seq::empty())
    } else if s[0] != '\\' {
        match decode(s.skip(1)) {
            Some(rest) => Some(seq![s[0]] + rest),
            None => None,
        }
    } else if s.len() == 1 {
        None
    } else {
        match decode(s.skip(2)) {
            Some(rest) => Some(seq![unescape(s[1])] + rest),
            None => None,
        }
    }
}

/// One character as a double-quoted value encodes it.
pub open spec fn escape(c: char) -> Seq<char> {
    if c == '\\' || c == '"' {
        seq!['\\', c]
    } else if c == '\r' {
        seq!['\\', 'r']
    } else if c == '\n' {
        seq!['\\', 'n']
    } else if c == '\t' {
        seq!['\\', 't']
    } else {
        seq![c]
    }
}

/// A text as a double-quoted value encodes it.
pub open spec fn encode(s: Seq<char>) -> Seq<char>
    decreases s.len(),
{
    if s.len() == 0 {
        Seq::empty()
    } else {
        escape(s[0]) + encode(s.skip(1))
    }
}

/// The position of the first unescaped quote at or after `i`.
pub open spec fn quote_end(s: Seq<char>, quote: char, i: int, escaped: bool) -> Option<int>
    decreases s.len() - i,
{
    if i < 0 || i >= s.len() {
        None
    } else if s[i] == quote && !escaped {
        Some(i)
    } else {
        quote_end(s, quote, i + 1, s[i] == '\\' && !escaped)
    }
}

/// A value as it was read: its text, how it was quoted, how many further lines
/// it took, and the comment behind it.
pub struct ValueModel {
    pub value: Seq<char>,
    pub quote: QuoteStyle,
    pub consumed: nat,
    pub comment: Option<Seq<char>>,
}

/// A quoted value whose text up to here is `joined`.
pub open spec fn quoted_value(
    joined: Seq<char>,
    remaining: Seq<Seq<char>>,
    quote: char,
    style: QuoteStyle,
    consumed: nat,
) -> Result<ValueModel, document::SourceFault>
    decreases remaining.len() - consumed,
{
    match quote_end(joined, quote, 0, false) {
        Some(end) => {
            let suffix = segment::trim(joined.skip(end + 1));
            let value = if style == QuoteStyle::Double {
                decode(joined.take(end))
            } else {
                Some(joined.take(end))
            };
            if suffix.len() > 0 && suffix[0] != '#' {
                Err(parse_fault("unexpected content after quoted value"@))
            } else {
                match value {
                    None => Err(parse_fault("trailing escape in double-quoted value"@)),
                    Some(value) => Ok(
                        ValueModel {
                            value,
                            quote: style,
                            consumed,
                            comment: if suffix.len() > 0 {
                                Some(suffix)
                            } else {
                                None
                            },
                        },
                    ),
                }
            }
        },
        None => if consumed >= remaining.len() {
            Err(parse_fault("unterminated quoted value"@))
        } else {
            quoted_value(
                joined.push('\n') + remaining[consumed as int],
                remaining,
                quote,
                style,
                consumed + 1,
            )
        },
    }
}

/// The value that stands behind an equals sign.
pub open spec fn value_of(raw: Seq<char>, remaining: Seq<Seq<char>>) -> Result<
    ValueModel,
    document::SourceFault,
> {
    let s = segment::trim_start(raw);
    if s.len() > 0 && s[0] == '\'' {
        quoted_value(s.skip(1), remaining, '\'', QuoteStyle::Single, 0)
    } else if s.len() > 0 && s[0] == '"' {
        quoted_value(s.skip(1), remaining, '"', QuoteStyle::Double, 0)
    } else {
        match text::find(s, seq![' ', '#']) {
            Some(i) => Ok(
                ValueModel {
                    value: segment::trim_end(s.take(i)),
                    quote: QuoteStyle::Unquoted,
                    consumed: 0,
                    comment: Some(segment::trim_start(s.skip(i))),
                },
            ),
            None => Ok(
                ValueModel {
                    value: segment::trim_end(s),
                    quote: QuoteStyle::Unquoted,
                    consumed: 0,
                    comment: None,
                },
            ),
        }
    }
}

/// What the lines read so far hold.
pub struct ReadModel {
    pub values: Seq<(Seq<char>, node::Tree)>,
    pub layouts: Seq<layout::DotenvModel>,
    pub pending: Seq<Seq<char>>,
}

/// Reads the lines from `i` on.
pub open spec fn read_lines(
    lines: Seq<Seq<char>>,
    i: int,
    trailing: bool,
    state: ReadModel,
) -> Result<ReadModel, document::SourceFault>
    decreases
            (if i < lines.len() {
                lines.len() - i
            } else {
                0
            }),
{
    if i < 0 || i >= lines.len() || (i + 1 == lines.len() && lines[i].len() == 0 && trailing) {
        Ok(state)
    } else {
        let trimmed = segment::trim(lines[i]);
        if trimmed.len() == 0 || trimmed[0] == '#' {
            read_lines(
                lines,
                i + 1,
                trailing,
                ReadModel { pending: state.pending.push(lines[i]), ..state },
            )
        } else {
            let exported = text::starts_with(trimmed, "export "@);
            let assignment = if exported {
                segment::trim_start(trimmed.skip("export "@.len() as int))
            } else {
                trimmed
            };
            let n = segment::before(assignment, '=') as int;
            let key = assignment.take(n);
            if n >= assignment.len() {
                Err(parse_fault("expected KEY=VALUE assignment"@))
            } else if !key_name(key) {
                Err(parse_fault("invalid dotenv key"@))
            } else if node::keys(state.values).contains(key) {
                Err(
                    document::SourceFault::DuplicateKey {
                        format: SourceFormat::Dotenv,
                        path: seq![node::Step::Key(key)],
                    },
                )
            } else {
                match value_of(assignment.skip(n + 1), lines.skip(i + 1)) {
                    Err(fault) => Err(fault),
                    Ok(value) => read_lines(
                        lines,
                        i + 1 + value.consumed,
                        trailing,
                        ReadModel {
                            values: state.values.push(
                                (
                                    key,
                                    node::Tree::Scalar(node::ScalarModel::String(value.value)),
                                ),
                            ),
                            layouts: state.layouts.push(
                                layout::DotenvModel {
                                    key,
                                    exported,
                                    quote: value.quote,
                                    leading: state.pending,
                                    inline_comment: value.comment,
                                },
                            ),
                            pending: Seq::empty(),
                        },
                    ),
                }
            }
        }
    }
}

/// The document that a dotenv text holds.
pub open spec fn parsed(input: Seq<char>) -> Result<document::DocumentModel, document::SourceFault> {
    let unix = layout::unix_lines(input);
    let trailing = unix.len() > 0 && unix.last() == '\n';
    let start = ReadModel {
        values: Seq::empty(),
        layouts: Seq::empty(),
        pending: Seq::empty(),
    };
    match read_lines(segment::split(unix, '\n'), 0, trailing, start) {
        Err(fault) => Err(fault),
        Ok(state) => Ok(
            document::DocumentModel {
                format: SourceFormat::Dotenv,
                root: node::Tree::Mapping(state.values),
                layout: layout::LayoutModel {
                    line_ending: LineEnding::of(input),
                    trailing_newline: trailing,
                    preamble_comments: state.pending,
                    dotenv: state.layouts,
                    template: None,
                },
            },
        ),
    }
}

/// The rendering in a preferred quote style, where there is one.
pub open spec fn candidate(value: Seq<char>, preferred: QuoteStyle) -> Option<Seq<char>> {
    match preferred {
        QuoteStyle::Unquoted => Some(value),
        QuoteStyle::Single => Some(seq!['\''] + value + seq!['\'']),
        QuoteStyle::Double => None,
    }
}

/// A rendering parses back to the same value in the same style, with no line
/// continuation and no comment.
pub open spec fn fixed_point(rendered: Seq<char>, value: Seq<char>, style: QuoteStyle) -> bool {
    value_of(rendered, Seq::empty()) == Ok::<ValueModel, document::SourceFault>(
        ValueModel { value, quote: style, consumed: 0, comment: None },
    )
}

/// A value as it is written: in its preferred quote style where that parses back
/// to the value, otherwise in double quotes.
pub open spec fn rendered_value(value: Seq<char>, preferred: QuoteStyle) -> Seq<char> {
    match candidate(value, preferred) {
        Some(text) => if fixed_point(text, value, preferred) {
            text
        } else {
            seq!['"'] + encode(value) + seq!['"']
        },
        None => seq!['"'] + encode(value) + seq!['"'],
    }
}

/// The style that an assignment asks for: its own, but that an empty value ahead of a
/// comment is quoted, since without quotes the comment would be read as the value.
pub open spec fn asked_style(value: Seq<char>, style: layout::DotenvModel) -> QuoteStyle {
    if value.len() == 0 && style.inline_comment is Some && style.quote == QuoteStyle::Unquoted {
        QuoteStyle::Double
    } else {
        style.quote
    }
}

/// Each line followed by a line feed.
pub open spec fn terminated(lines: Seq<Seq<char>>) -> Seq<char>
    decreases lines.len(),
{
    if lines.len() == 0 {
        Seq::empty()
    } else {
        terminated(lines.drop_last()) + lines.last() + seq!['\n']
    }
}

/// One assignment as it is written.
pub open spec fn rendered_entry(
    key: Seq<char>,
    value: Seq<char>,
    style: Option<layout::DotenvModel>,
) -> Seq<char> {
    match style {
        Some(style) => {
            terminated(style.leading) + (if style.exported {
                "export "@
            } else {
                Seq::empty()
            }) + key + seq!['='] + rendered_value(value, asked_style(value, style)) + (
            match style.inline_comment {
                Some(comment) => seq![' '] + comment,
                None => Seq::empty(),
            }) + seq!['\n']
        },
        None => key + seq!['='] + rendered_value(value, QuoteStyle::Double) + seq!['\n'],
    }
}

/// The assignments as they are written; `None` where a value is no string.
pub open spec fn rendered_entries(
    values: Seq<(Seq<char>, node::Tree)>,
    layouts: Seq<layout::DotenvModel>,
) -> Option<Seq<char>>
    decreases values.len(),
{
    if values.len() == 0 {
        Some(Seq::empty())
    } else {
        let (key, tree) = values.last();
        match (rendered_entries(values.drop_last(), layouts), node::scalar_of(tree)) {
            (Some(head), Some(node::ScalarModel::String(value))) => Some(
                head + rendered_entry(key, value, layout::assignment_of(layouts, key)),
            ),
            _ => None,
        }
    }
}

/// The text of a document before its line ending is applied.
pub open spec fn generated_text(d: document::DocumentModel) -> Result<
    Seq<char>,
    document::SourceFault,
> {
    match d.root {
        node::Tree::Mapping(values) => match rendered_entries(values, d.layout.dotenv) {
            None => Err(generate_fault("dotenv values must be strings"@)),
            Some(body) => {
                let whole = body + terminated(d.layout.preamble_comments);
                if d.layout.trailing_newline || whole.len() == 0 {
                    Ok(whole)
                } else {
                    Ok(whole.drop_last())
                }
            },
        },
        _ => Err(generate_fault("dotenv root must be a mapping"@)),
    }
}

/// The bytes of a document.
pub open spec fn generated(d: document::DocumentModel) -> Result<Seq<u8>, document::SourceFault> {
    match generated_text(d) {
        Ok(whole) => Ok(vstd::utf8::encode_utf8(d.layout.line_ending.on(whole))),
        Err(fault) => Err(fault),
    }
}

fn parse_error(reason: &str) -> (r: SourceError)
    ensures
        r@ == parse_fault(reason@),
{
    SourceError::Parse { format: SourceFormat::Dotenv, reason: reason.to_owned() }
}

fn generate_error(reason: &str) -> (r: SourceError)
    ensures
        r@ == generate_fault(reason@),
{
    SourceError::Generate { format: SourceFormat::Dotenv, reason: reason.to_owned() }
}

fn valid_key(s: &Vec<char>) -> (r: bool)
    ensures
        r == key_name(s@),
{
    if s.len() == 0 {
        return false;
    }
    if !(s[0] == '_' || text::is_lowercase_letter(s[0]) || ('A' <= s[0] && s[0] <= 'Z')) {
        return false;
    }
    let mut i: usize = 1;
    while i < s.len()
        invariant
            1 <= i <= s.len(),
            forall|j: int| 1 <= j < i ==> s@[j] == '_' || text::alphanumeric(#[trigger] s@[j]),
        decreases s.len() - i,
    {
        if s[i] != '_' && !text::is_alphanumeric(s[i]) {
            assert(!text::alphanumeric(s@[i as int]));
            return false;
        }
        i = i + 1;
    }
    true
}

fn find_unescaped(s: &Vec<char>, quote: char) -> (r: Option<usize>)
    ensures
        r matches Some(i) ==> quote_end(s@, quote, 0, false) == Some(i as int) && i < s@.len(),
        r is None ==> quote_end(s@, quote, 0, false) is None,
{
    let mut escaped: bool = false;
    let mut i: usize = 0;
    while i < s.len()
        invariant
            i <= s.len(),
            quote_end(s@, quote, i as int, escaped) == quote_end(s@, quote, 0, false),
        decreases s.len() - i,
    {
        if s[i] == quote && !escaped {
            return Some(i);
        }
        escaped = s[i] == '\\' && !escaped;
        i = i + 1;
    }
    None
}

fn decode_double(s: &Vec<char>) -> (r: Option<Vec<char>>)
    ensures
        r matches Some(v) ==> decode(s@) == Some(v@),
        r is None ==> decode(s@) is None,
{
    let mut out: Vec<char> = Vec::new();
    let mut i: usize = 0;
    assert(s@.skip(0) =~= s@);
    while i < s.len()
        invariant
            i <= s.len(),
            match decode(s@.skip(i as int)) {
                Some(rest) => decode(s@) == Some(out@ + rest),
                None => decode(s@) is None,
            },
        decreases s.len() - i,
    {
        let ghost rest = s@.skip(i as int);
        let ghost before = out@;
        if s[i] != '\\' {
            out.push(s[i]);
            assert(rest.skip(1) =~= s@.skip(i + 1));
            proof {
                if decode(rest.skip(1)) is Some {
                    let tail = decode(rest.skip(1))->Some_0;
                    assert(out@ + tail =~= before + (seq![rest[0]] + tail));
                }
            }
            i = i + 1;
        } else {
            if i + 1 >= s.len() {
                return None;
            }
            let c = s[i + 1];
            let plain = if c == 'n' {
                '\n'
            } else if c == 'r' {
                '\r'
            } else if c == 't' {
                '\t'
            } else {
                c
            };
            out.push(plain);
            assert(rest.skip(2) =~= s@.skip(i + 2));
            assert(rest[1] == c);
            proof {
                if decode(rest.skip(2)) is Some {
                    let tail = decode(rest.skip(2))->Some_0;
                    assert(out@ + tail =~= before + (seq![unescape(rest[1])] + tail));
                }
            }
            i = i + 2;
        }
    }
    assert(s@.skip(i as int) =~= Seq::<char>::empty());
    assert(out@ + Seq::<char>::empty() =~= out@);
    Some(out)
}

/// A value as it was read.
pub struct ReadValue {
    pub value: Vec<char>,
    pub quote: QuoteStyle,
    pub consumed: usize,
    pub comment: Option<Vec<char>>,
}

pub open spec fn view_value(v: ReadValue) -> ValueModel {
    ValueModel {
        value: v.value@,
        quote: v.quote,
        consumed: v.consumed as nat,
        comment: match v.comment {
            Some(c) => Some(c@),
            None => None,
        },
    }
}

pub open spec fn view_read(r: Result<ReadValue, SourceError>) -> Result<
    ValueModel,
    document::SourceFault,
> {
    match r {
        Ok(v) => Ok(view_value(v)),
        Err(e) => Err(e@),
    }
}

fn parse_quoted(
    first: Vec<char>,
    lines: &Vec<Vec<char>>,
    from: usize,
    quote: char,
    style: QuoteStyle,
) -> (r: Result<ReadValue, SourceError>)
    requires
        from <= lines@.len(),
    ensures
        view_read(r) == quoted_value(
            first@,
            text::pieces(lines@).skip(from as int),
            quote,
            style,
            0,
        ),
        r matches Ok(v) ==> from + v.consumed <= lines@.len(),
{
    let ghost remaining = text::pieces(lines@).skip(from as int);
    let ghost start = first@;
    let mut joined = first;
    let mut consumed: usize = 0;
    loop
        invariant
            remaining == text::pieces(lines@).skip(from as int),
            from + consumed <= lines@.len(),
            quoted_value(joined@, remaining, quote, style, consumed as nat) == quoted_value(
                start,
                remaining,
                quote,
                style,
                0,
            ),
            start == first@,
        decreases lines@.len() - from - consumed,
    {
        match find_unescaped(&joined, quote) {
            Some(end) => {
                let whole: usize = joined.len();
                let behind = segment::slice_to_vec(joined.as_slice(), end + 1, whole);
                let suffix = segment::trimmed(behind.as_slice());
                if suffix.len() > 0 && suffix[0] != '#' {
                    return Err(parse_error("unexpected content after quoted value"));
                }
                let encoded = segment::slice_to_vec(joined.as_slice(), 0, end);
                let value = if style == QuoteStyle::Double {
                    match decode_double(&encoded) {
                        Some(value) => value,
                        None => {
                            return Err(parse_error("trailing escape in double-quoted value"));
                        },
                    }
                } else {
                    encoded
                };
                let comment = if suffix.len() > 0 {
                    Some(suffix)
                } else {
                    None
                };
                return Ok(ReadValue { value, quote: style, consumed, comment });
            },
            None => {},
        }
        if consumed >= lines.len() - from {
            return Err(parse_error("unterminated quoted value"));
        }
        let ghost before = joined@;
        joined.push('\n');
        segment::append_chars(&mut joined, lines[from + consumed].as_slice());
        assert(remaining[consumed as int] == lines@[from + consumed]@);
        consumed = consumed + 1;
    }
}

/// Reads the value behind an equals sign, with the lines from `from` on behind it.
pub fn parse_value(raw: &Vec<char>, lines: &Vec<Vec<char>>, from: usize) -> (r: Result<
    ReadValue,
    SourceError,
>)
    requires
        from <= lines@.len(),
    ensures
        view_read(r) == value_of(raw@, text::pieces(lines@).skip(from as int)),
        r matches Ok(v) ==> from + v.consumed <= lines@.len(),
{
    let s = segment::trimmed_start(raw.as_slice());
    if s.len() > 0 && s[0] == '\'' {
        let inner = segment::slice_to_vec(s.as_slice(), 1, s.len());
        return parse_quoted(inner, lines, from, '\'', QuoteStyle::Single);
    }
    if s.len() > 0 && s[0] == '"' {
        let inner = segment::slice_to_vec(s.as_slice(), 1, s.len());
        return parse_quoted(inner, lines, from, '"', QuoteStyle::Double);
    }
    let mark: Vec<char> = vec![' ', '#'];
    assert(mark@ =~= seq![' ', '#']);
    match text::find_in(s.as_slice(), mark.as_slice(), 0) {
        Some(i) => {
            let head = segment::slice_to_vec(s.as_slice(), 0, i);
            let tail = segment::slice_to_vec(s.as_slice(), i, s.len());
            Ok(
                ReadValue {
                    value: segment::trimmed_end(head.as_slice()),
                    quote: QuoteStyle::Unquoted,
                    consumed: 0,
                    comment: Some(segment::trimmed_start(tail.as_slice())),
                },
            )
        },
        None => Ok(
            ReadValue {
                value: segment::trimmed_end(s.as_slice()),
                quote: QuoteStyle::Unquoted,
                consumed: 0,
                comment: None,
            },
        ),
    }
}

/// The lines read so far.
struct Reading {
    values: Vec<(String, Node)>,
    layouts: Vec<DotenvLayout>,
    pending: Vec<String>,
}

spec fn view_reading(s: Reading) -> ReadModel {
    ReadModel {
        values: node::entries(s.values@),
        layouts: layout::assignments(s.layouts@),
        pending: text::texts(s.pending@),
    }
}

fn push_text(list: &mut Vec<String>, item: String)
    ensures
        text::texts(final(list)@) == text::texts(old(list)@).push(item@),
{
    let ghost before = list@;
    list.push(item);
    assert(text::texts(list@) =~= text::texts(before).push(item@));
}

fn read_all(lines: &Vec<Vec<char>>, trailing: bool) -> (r: Result<Reading, SourceError>)
    ensures
        ({
            let start = ReadModel {
                values: Seq::empty(),
                layouts: Seq::empty(),
                pending: Seq::empty(),
            };
            match read_lines(text::pieces(lines@), 0, trailing, start) {
                Ok(state) => r matches Ok(s) && view_reading(s) == state && node::keys(
                    state.values,
                ).no_duplicates(),
                Err(fault) => r matches Err(e) && e@ == fault,
            }
        }),
        r matches Ok(s) ==> node::well_keyed(node::Tree::Mapping(node::entries(s.values@))),
{
    let ghost all = text::pieces(lines@);
    let ghost start = ReadModel {
        values: Seq::empty(),
        layouts: Seq::empty(),
        pending: Seq::empty(),
    };
    let mut state = Reading { values: Vec::new(), layouts: Vec::new(), pending: Vec::new() };
    let mut i: usize = 0;
    proof {
        assert(view_reading(state).values =~= start.values);
        assert(view_reading(state).layouts =~= start.layouts);
        assert(view_reading(state).pending =~= start.pending);
    }
    while i < lines.len()
        invariant
            all == text::pieces(lines@),
            i <= lines@.len(),
            read_lines(all, i as int, trailing, view_reading(state)) == read_lines(
                all,
                0,
                trailing,
                start,
            ),
            start == (ReadModel {
                values: Seq::empty(),
                layouts: Seq::empty(),
                pending: Seq::empty(),
            }),
            node::keys(node::entries(state.values@)).no_duplicates(),
            forall|j: int| 0 <= j < state.values@.len() ==> (#[trigger] node::entries(
                state.values@,
            )[j].1) is Scalar,
        decreases lines@.len() - i,
    {
        assert(all[i as int] == lines@[i as int]@);
        if i + 1 == lines.len() && lines[i].len() == 0 && trailing {
            proof {
                lemma_scalars_are_well_keyed(node::entries(state.values@));
            }
            return Ok(state);
        }
        let line = &lines[i];
        let trimmed = segment::trimmed(line.as_slice());
        i = i + 1;
        if trimmed.len() == 0 || trimmed[0] == '#' {
            push_text(&mut state.pending, text::string_of(line.as_slice()));
            continue ;
        }
        let prefix = text::chars_of("export ");
        let exported = text::begins(trimmed.as_slice(), prefix.as_slice());
        let assignment = if exported {
            let rest = segment::slice_to_vec(trimmed.as_slice(), prefix.len(), trimmed.len());
            segment::trimmed_start(rest.as_slice())
        } else {
            trimmed
        };
        assert(assignment@.skip(0) =~= assignment@);
        let n: usize = segment::index_of(assignment.as_slice(), '=', 0);
        if n >= assignment.len() {
            return Err(parse_error("expected KEY=VALUE assignment"));
        }
        let key = segment::slice_to_vec(assignment.as_slice(), 0, n);
        if !valid_key(&key) {
            return Err(parse_error("invalid dotenv key"));
        }
        let name = text::string_of(key.as_slice());
        if node::find_key(&state.values, name.as_str()).is_some() {
            let path = NodePath::root().child_key(name.as_str());
            assert(path@ =~= seq![node::Step::Key(key@)]);
            return Err(SourceError::DuplicateKey { format: SourceFormat::Dotenv, path });
        }
        let raw = segment::slice_to_vec(assignment.as_slice(), n + 1, assignment.len());
        match parse_value(&raw, lines, i) {
            Err(error) => {
                return Err(error);
            },
            Ok(parsed) => {
                let ghost before = view_reading(state);
                i = i + parsed.consumed;
                let value = text::string_of(parsed.value.as_slice());
                let comment = match &parsed.comment {
                    Some(c) => Some(text::string_of(c.as_slice())),
                    None => None,
                };
                let leading = text::clone_texts(state.pending.as_slice());
                state.pending = Vec::new();
                state.values.push((name.clone(), Node::Scalar(Scalar::String(value))));
                state.layouts.push(
                    DotenvLayout {
                        key: name,
                        exported,
                        quote: parsed.quote,
                        leading,
                        inline_comment: comment,
                    },
                );
                proof {
                    let tree = node::Tree::Scalar(node::ScalarModel::String(parsed.value@));
                    let now = view_reading(state);
                    assert(now.pending =~= Seq::<Seq<char>>::empty());
                    assert(now.values =~= before.values.push((key@, tree)));
                    assert(now.layouts =~= before.layouts.push(
                        layout::DotenvModel {
                            key: key@,
                            exported,
                            quote: parsed.quote,
                            leading: before.pending,
                            inline_comment: view_value(parsed).comment,
                        },
                    ));
                    lemma_keys_push(before.values, key@, tree);
                    assert forall|j: int| 0 <= j < state.values@.len() implies (
                    #[trigger] node::entries(state.values@)[j].1) is Scalar by {
                        if j < before.values.len() {
                            assert(node::entries(state.values@)[j] == before.values[j]);
                        } else {
                            assert(node::entries(state.values@)[j] == (key@, tree));
                        }
                    }
                }
            },
        }
    }
    proof {
        lemma_scalars_are_well_keyed(node::entries(state.values@));
    }
    Ok(state)
}

/// A document that was read has no tags.
pub proof fn lemma_parsed_is_named(input: Seq<char>)
    ensures
        parsed(input) matches Ok(d) ==> node::named_tags(d.root),
{
    let unix = layout::unix_lines(input);
    let trailing = unix.len() > 0 && unix.last() == '\n';
    let start = ReadModel {
        values: Seq::empty(),
        layouts: Seq::empty(),
        pending: Seq::empty(),
    };
    lemma_read_is_named(segment::split(unix, '\n'), 0, trailing, start);
}

proof fn lemma_read_is_named(lines: Seq<Seq<char>>, i: int, trailing: bool, state: ReadModel)
    requires
        node::named_tags(node::Tree::Mapping(state.values)),
        0 <= i,
    ensures
        read_lines(lines, i, trailing, state) matches Ok(end) ==> node::named_tags(
            node::Tree::Mapping(end.values),
        ),
    decreases
            (if i < lines.len() {
                lines.len() - i
            } else {
                0
            }),
{
    if read_lines(lines, i, trailing, state) is Ok && !(i >= lines.len() || (i + 1 == lines.len()
        && lines[i].len() == 0 && trailing)) {
        let trimmed = segment::trim(lines[i]);
        if trimmed.len() == 0 || trimmed[0] == '#' {
            lemma_read_is_named(
                lines,
                i + 1,
                trailing,
                ReadModel { pending: state.pending.push(lines[i]), ..state },
            );
        } else {
            let exported = text::starts_with(trimmed, "export "@);
            let assignment = if exported {
                segment::trim_start(trimmed.skip("export "@.len() as int))
            } else {
                trimmed
            };
            let n = segment::before(assignment, '=') as int;
            let key = assignment.take(n);
            let value = value_of(assignment.skip(n + 1), lines.skip(i + 1))->Ok_0;
            let next = ReadModel {
                values: state.values.push(
                    (key, node::Tree::Scalar(node::ScalarModel::String(value.value))),
                ),
                layouts: state.layouts.push(
                    layout::DotenvModel {
                        key,
                        exported,
                        quote: value.quote,
                        leading: state.pending,
                        inline_comment: value.comment,
                    },
                ),
                pending: Seq::empty(),
            };
            assert forall|j: int| 0 <= j < next.values.len() implies node::named_tags(
                #[trigger] next.values[j].1,
            ) by {
                if j < state.values.len() {
                    assert(next.values[j] == state.values[j]);
                    assert(node::named_tags(
                        node::Tree::Mapping(state.values)->Mapping_0[j].1,
                    ));
                }
            }
            lemma_read_is_named(lines, i + 1 + value.consumed, trailing, next);
        }
    }
}

proof fn lemma_scalars_are_well_keyed(e: Seq<(Seq<char>, node::Tree)>)
    requires
        node::keys(e).no_duplicates(),
        forall|j: int| 0 <= j < e.len() ==> (#[trigger] e[j].1) is Scalar,
    ensures
        node::well_keyed(node::Tree::Mapping(e)),
{
    assert forall|i: int| 0 <= i < e.len() implies node::well_keyed(#[trigger] e[i].1) by {
        assert(e[i].1 is Scalar);
    }
}

/// A new key at the end leaves the keys distinct.
pub proof fn lemma_keys_push(e: Seq<(Seq<char>, node::Tree)>, key: Seq<char>, value: node::Tree)
    requires
        node::keys(e).no_duplicates(),
        !node::keys(e).contains(key),
    ensures
        node::keys(e.push((key, value))).no_duplicates(),
{
    let more = e.push((key, value));
    assert forall|i: int, j: int| 0 <= i < j < more.len() implies node::keys(more)[i]
        != node::keys(more)[j] by {
        assert(node::keys(more)[i] == node::keys(e)[i]);
        if j < e.len() {
            assert(node::keys(more)[j] == node::keys(e)[j]);
        }
    }
}

/// Reads a dotenv text.
pub fn parse(input: &str) -> (r: Result<SourceDocument, SourceError>)
    ensures
        document::view_document(r) == parsed(input@),
{
    let line_ending = LineEnding::detect(input);
    let unix_text = LineEnding::Lf.apply(input);
    let unix = text::chars_of(unix_text.as_str());
    let trailing = unix.len() > 0 && unix[unix.len() - 1] == '\n';
    let lines = segment::split_at_char(unix.as_slice(), '\n');
    match read_all(&lines, trailing) {
        Err(error) => Err(error),
        Ok(state) => {
            let Reading { values, layouts, pending } = state;
            let mut layout = Layout::new(line_ending, trailing);
            layout.set_dotenv(layouts);
            layout.set_preamble_comments(pending);
            let root = Node::Mapping(values);
            proof {
                node::lemma_view(root);
            }
            Ok(SourceDocument::new(SourceFormat::Dotenv, root, layout))
        },
    }
}

fn encoded(s: &Vec<char>) -> (r: Vec<char>)
    ensures
        r@ == encode(s@),
{
    let mut out: Vec<char> = Vec::new();
    let mut i: usize = 0;
    assert(s@.skip(0) =~= s@);
    while i < s.len()
        invariant
            i <= s.len(),
            out@ + encode(s@.skip(i as int)) == encode(s@),
        decreases s.len() - i,
    {
        let c = s[i];
        let ghost before = out@;
        let ghost rest = s@.skip(i as int);
        if c == '\\' || c == '"' {
            out.push('\\');
            out.push(c);
        } else if c == '\r' {
            out.push('\\');
            out.push('r');
        } else if c == '\n' {
            out.push('\\');
            out.push('n');
        } else if c == '\t' {
            out.push('\\');
            out.push('t');
        } else {
            out.push(c);
        }
        assert(out@ =~= before + escape(c));
        assert(rest.skip(1) =~= s@.skip(i + 1));
        assert(out@ + encode(rest.skip(1)) =~= before + encode(rest));
        i = i + 1;
    }
    assert(s@.skip(i as int) =~= Seq::<char>::empty());
    out
}

fn renders_back(rendered: &Vec<char>, value: &Vec<char>, style: QuoteStyle) -> (r: bool)
    ensures
        r == fixed_point(rendered@, value@, style),
{
    let none: Vec<Vec<char>> = Vec::new();
    assert(text::pieces(none@).skip(0) =~= Seq::<Seq<char>>::empty());
    match parse_value(rendered, &none, 0) {
        Ok(parsed) => {
            let same = text::eq_chars(parsed.value.as_slice(), value.as_slice());
            same && parsed.quote == style && parsed.consumed == 0 && parsed.comment.is_none()
        },
        Err(_) => false,
    }
}

/// Renders a value in its preferred quote style when that rendering is a
/// parse fixed point, otherwise falls back to double quoting.
///
/// The candidate is verified against the real parser instead of an
/// approximated character allowlist: an unquoted value may legitimately
/// contain quote characters, commas, or equals signs, and inventing
/// escaping for such values changes what third-party dotenv loaders read.
///
/// Whatever the value holds, the rendering is read back as it, on one line, without a
/// comment, in the preferred style or in double quotes.
pub fn render_value(value: &str, preferred: QuoteStyle) -> (r: Vec<char>)
    ensures
        r@ == rendered_value(value@, preferred),
        exists|style: QuoteStyle|
            (style == preferred || style == QuoteStyle::Double) && #[trigger] fixed_point(
                r@,
                value@,
                style,
            ),
{
    proof {
        dotenv_value::law_rendered_value_is_read_back(value@, preferred, Seq::empty());
        let style = dotenv_value::written_style(value@, preferred);
        assert(fixed_point(rendered_value(value@, preferred), value@, style));
    }
    let chars = text::chars_of(value);
    let attempt = match preferred {
        QuoteStyle::Unquoted => Some(text::chars_of(value)),
        QuoteStyle::Single => {
            let mut v: Vec<char> = vec!['\''];
            segment::append_chars(&mut v, chars.as_slice());
            v.push('\'');
            assert(v@ =~= seq!['\''] + value@ + seq!['\'']);
            Some(v)
        },
        QuoteStyle::Double => None,
    };
    match attempt {
        Some(v) => {
            if renders_back(&v, &chars, preferred) {
                return v;
            }
        },
        None => {},
    }
    let mut out: Vec<char> = vec!['"'];
    segment::append_chars(&mut out, encoded(&chars).as_slice());
    out.push('"');
    assert(out@ =~= seq!['"'] + encode(value@) + seq!['"']);
    out
}

fn append_str(out: &mut Vec<char>, s: &str)
    ensures
        final(out)@ == old(out)@ + s@,
{
    segment::append_chars(out, text::chars_of(s).as_slice());
}

fn append_lines(out: &mut Vec<char>, lines: &[String])
    ensures
        final(out)@ == old(out)@ + terminated(text::texts(lines@)),
{
    let ghost start = out@;
    let ghost all = text::texts(lines@);
    let mut i: usize = 0;
    assert(start + Seq::<char>::empty() =~= start);
    while i < lines.len()
        invariant
            all == text::texts(lines@),
            i <= lines.len(),
            out@ == start + terminated(all.take(i as int)),
        decreases lines.len() - i,
    {
        assert(all.take(i + 1).drop_last() =~= all.take(i as int));
        append_str(out, lines[i].as_str());
        out.push('\n');
        i = i + 1;
        assert(out@ =~= start + terminated(all.take(i as int)));
    }
    assert(all.take(i as int) =~= all);
}

/// The style that an assignment asks for.
fn ask_style(value: &str, style: &DotenvLayout) -> (r: QuoteStyle)
    ensures
        r == asked_style(value@, style@),
{
    match (style.quote, &style.inline_comment) {
        (QuoteStyle::Unquoted, Some(_)) => if text::chars_of(value).len() == 0 {
            QuoteStyle::Double
        } else {
            QuoteStyle::Unquoted
        },
        (quote, _) => quote,
    }
}

fn append_entry(out: &mut Vec<char>, key: &str, value: &str, style: Option<&DotenvLayout>)
    ensures
        final(out)@ == old(out)@ + rendered_entry(key@, value@, layout::view_assignment(style)),
{
    let ghost start = out@;
    match style {
        Some(style) => {
            append_lines(out, style.leading.as_slice());
            if style.exported {
                append_str(out, "export ");
            }
            append_str(out, key);
            out.push('=');
            segment::append_chars(out, render_value(value, ask_style(value, style)).as_slice());
            match &style.inline_comment {
                Some(comment) => {
                    out.push(' ');
                    append_str(out, comment.as_str());
                },
                None => {},
            }
        },
        None => {
            append_str(out, key);
            out.push('=');
            segment::append_chars(out, render_value(value, QuoteStyle::Double).as_slice());
        },
    }
    out.push('\n');
    assert(out@ =~= start + rendered_entry(key@, value@, layout::view_assignment(style)));
}

/// Writes a document of string values.
pub fn generate(document: &SourceDocument) -> (r: Result<Vec<u8>, SourceError>)
    ensures
        document::view_bytes(r) == generated(document@),
{
    let root = document.root();
    proof {
        node::lemma_view(*root);
    }
    let values = match root {
        Node::Mapping(values) => values,
        _ => {
            return Err(generate_error("dotenv root must be a mapping"));
        },
    };
    let layouts = document.layout().dotenv();
    let ghost e = node::entries(values@);
    let ghost l = layout::assignments(layouts@);
    let mut out: Vec<char> = Vec::new();
    let mut i: usize = 0;
    while i < values.len()
        invariant
            e == node::entries(values@),
            l == layout::assignments(layouts@),
            l == document@.layout.dotenv,
            document@.root == node::Tree::Mapping(e),
            i <= values.len(),
            rendered_entries(e.take(i as int), l) == Some(out@),
        decreases values.len() - i,
    {
        let ghost before = out@;
        assert(e[i as int] == (values@[i as int].0@, values@[i as int].1@));
        assert(e.take(i + 1).drop_last() =~= e.take(i as int));
        assert(e.take(i + 1).last() == e[i as int]);
        let key = values[i].0.as_str();
        match values[i].1.scalar() {
            Some(Scalar::String(value)) => {
                append_entry(
                    &mut out,
                    key,
                    value.as_str(),
                    layout::find_assignment(layouts, key),
                );
            },
            _ => {
                proof {
                    lemma_no_entries(e, l, i + 1);
                }
                return Err(generate_error("dotenv values must be strings"));
            },
        }
        i = i + 1;
    }
    assert(e.take(i as int) =~= e);
    append_lines(&mut out, document.layout().preamble_comments());
    if !document.layout().trailing_newline() && out.len() > 0 {
        let ghost whole = out@;
        let _ = out.pop();
        assert(out@ =~= whole.drop_last());
    }
    let whole = text::string_of(out.as_slice());
    Ok(document.layout().line_ending().apply(whole.as_str()).as_str().as_bytes_vec())
}

proof fn lemma_no_entries(
    values: Seq<(Seq<char>, node::Tree)>,
    layouts: Seq<layout::DotenvModel>,
    n: int,
)
    requires
        0 <= n <= values.len(),
        rendered_entries(values.take(n), layouts) is None,
    ensures
        rendered_entries(values, layouts) is None,
    decreases values.len() - n,
{
    if n < values.len() {
        assert(values.take(n + 1).drop_last() =~= values.take(n));
        lemma_no_entries(values, layouts, n + 1);
    } else {
        assert(values.take(n) =~= values);
    }
}

} // verus!
