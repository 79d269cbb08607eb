//! A dotenv document that was read can be written and read again.

use vstd::prelude::*;

use crate::config::SourceFormat;
use crate::segment;
use crate::source::document;
use crate::source::dotenv;
use crate::source::dotenv_document;
use crate::source::dotenv_value;
use crate::source::layout;
use crate::source::node;
use crate::source::{LineEnding, QuoteStyle};
use crate::text;

verus! {

/// What a value read from the rest of a line and the lines behind it is like.
pub open spec fn good_value(v: dotenv::ValueModel) -> bool {
    &&& dotenv_value::inline_option(v.comment)
    &&& dotenv_document::writable_value(v.value, v.quote)
    &&& dotenv_value::written_style(v.value, v.quote) == v.quote
    &&& v.quote == QuoteStyle::Unquoted && v.comment is Some ==> v.value.len() > 0
}

/// A part of a text without line ends has none.
pub proof fn lemma_part(s: Seq<char>, from: int, to: int)
    requires
        !s.contains('\n'),
        0 <= from <= to <= s.len(),
    ensures
        !s.subrange(from, to).contains('\n'),
{
    let part = s.subrange(from, to);
    if part.contains('\n') {
        let k = choose|k: int| 0 <= k < part.len() && part[k] == '\n';
        assert(s[from + k] == '\n');
    }
}

pub proof fn lemma_trim_start_is_tail(s: Seq<char>)
    ensures
        ({
            let t = segment::trim_start(s);
            t.len() <= s.len() && t == s.subrange(s.len() - t.len(), s.len() as int)
        }),
    decreases s.len(),
{
    if s.len() > 0 && text::white(s[0]) {
        lemma_trim_start_is_tail(s.skip(1));
        let t = segment::trim_start(s);
        let rest = s.skip(1);
        assert(rest.subrange(rest.len() - t.len(), rest.len() as int) =~= s.subrange(
            s.len() - t.len(),
            s.len() as int,
        ));
    } else {
        assert(s.subrange(0, s.len() as int) =~= s);
    }
}

/// Trimming leaves a text without line ends that neither begins nor ends in space.
pub proof fn lemma_trimmed(s: Seq<char>)
    requires
        !s.contains('\n'),
    ensures
        ({
            let t = segment::trim(s);
            &&& !t.contains('\n')
            &&& t.len() > 0 ==> !text::white(t[0]) && !text::white(t.last())
        }),
{
    let a = segment::trim_start(s);
    lemma_trim_start_is_tail(s);
    dotenv_value::lemma_trim_start(s);
    lemma_part(s, s.len() - a.len(), s.len() as int);
    let t = segment::trim_end(a);
    dotenv_value::lemma_trim_end(a);
    assert(a.take(t.len() as int) =~= a.subrange(0, t.len() as int));
    lemma_part(a, 0, t.len() as int);
    if t.len() > 0 {
        assert(t[0] == a[0]);
    }
}

/// The rest of a text that does not end in space does not either.
pub proof fn lemma_tail(s: Seq<char>, from: int)
    requires
        !s.contains('\n'),
        s.len() > 0 ==> !text::white(s.last()),
        0 <= from <= s.len(),
    ensures
        ({
            let t = segment::trim_start(s.skip(from));
            &&& !t.contains('\n')
            &&& !s.skip(from).contains('\n')
            &&& t.len() > 0 ==> !text::white(t.last()) && !text::white(t[0])
            &&& s.skip(from).len() > 0 ==> !text::white(s.skip(from).last())
        }),
{
    let rest = s.skip(from);
    assert(rest =~= s.subrange(from, s.len() as int));
    lemma_part(s, from, s.len() as int);
    let t = segment::trim_start(rest);
    lemma_trim_start_is_tail(rest);
    dotenv_value::lemma_trim_start(rest);
    lemma_part(rest, rest.len() - t.len(), rest.len() as int);
    if rest.len() > 0 {
        assert(rest.last() == s.last());
    }
    if t.len() > 0 {
        assert(t.last() == rest.last());
    }
}

/// A quoted value that was read: its comment stands on the last of its lines.
proof fn lemma_quoted_is_good(
    joined: Seq<char>,
    remaining: Seq<Seq<char>>,
    quote: char,
    style: QuoteStyle,
    consumed: nat,
    first: Seq<char>,
)
    requires
        quote != '\n',
        style != QuoteStyle::Unquoted,
        style == QuoteStyle::Single ==> quote == '\'',
        dotenv_document::unbroken(remaining),
        !first.contains('\n'),
        first.len() > 0 ==> !text::white(first.last()),
        first == joined || (joined.len() > first.len() && joined.take(first.len() as int + 1)
            == first.push('\n')),
        first == joined || exists|p: int|
            0 <= p < joined.len() && joined[p] == '\n' && dotenv::quote_end(
                #[trigger] joined.take(p),
                quote,
                0,
                false,
            ) is None && !joined.skip(p + 1).contains('\n'),
        dotenv::quoted_value(joined, remaining, quote, style, consumed) is Ok,
    ensures
        good_value(dotenv::quoted_value(joined, remaining, quote, style, consumed)->Ok_0),
        dotenv::quoted_value(joined, remaining, quote, style, consumed)->Ok_0.quote == style,
    decreases remaining.len() - consumed,
{
    let result = dotenv::quoted_value(joined, remaining, quote, style, consumed)->Ok_0;
    match dotenv::quote_end(joined, quote, 0, false) {
        Some(end) => {
            dotenv_value::lemma_end_stays(joined, Seq::empty(), quote, 0, false);
            let tail = joined.skip(end + 1);
            if first != joined {
                let p = choose|p: int|
                    0 <= p < joined.len() && joined[p] == '\n' && dotenv::quote_end(
                        #[trigger] joined.take(p),
                        quote,
                        0,
                        false,
                    ) is None && !joined.skip(p + 1).contains('\n');
                lemma_end_follows(joined, quote, p, end);
                let rest = joined.skip(p + 1);
                assert(tail =~= rest.subrange(end - p, rest.len() as int));
                lemma_part(rest, end - p, rest.len() as int);
            } else {
                assert(tail =~= joined.subrange(end + 1, joined.len() as int));
                lemma_part(joined, end + 1, joined.len() as int);
            }
            lemma_trimmed(tail);
            let value = result.value;
            if style == QuoteStyle::Single {
                assert(value == joined.take(end));
                lemma_single_is_kept(joined, end);
                let n = segment::before(value, '\n') as int;
                segment::lemma_before(value, '\n');
                if n < value.len() && n > 0 {
                    assert(joined[n] == '\n');
                    if first == joined {
                        assert(first.contains('\n'));
                    }
                    lemma_first_break(joined, first, n, value);
                    assert(value[n - 1] == first.last());
                }
            }
        },
        None => {
            let next = joined.push('\n') + remaining[consumed as int];
            assert(!remaining[consumed as int].contains('\n'));
            let p = joined.len() as int;
            assert(next[p] == '\n');
            assert(next.take(p) =~= joined);
            assert(next.skip(p + 1) =~= remaining[consumed as int]);
            assert(next.take(first.len() as int + 1) =~= first.push('\n')) by {
                if first != joined {
                    assert forall|j: int| 0 <= j < first.len() + 1 implies next[j] == first.push(
                        '\n',
                    )[j] by {
                        assert(joined.take(first.len() as int + 1)[j] == joined[j]);
                    }
                }
            }
            assert(dotenv::quote_end(next.take(p), quote, 0, false) is None);
            lemma_quoted_is_good(next, remaining, quote, style, consumed + 1, first);
        },
    }
}

/// What stands before the closing quote is read back from between single quotes.
proof fn lemma_single_is_kept(joined: Seq<char>, end: int)
    requires
        dotenv::quote_end(joined, '\'', 0, false) == Some(end),
    ensures
        dotenv_value::written_style(joined.take(end), QuoteStyle::Single) == QuoteStyle::Single,
{
    dotenv_value::lemma_end_stays(joined, Seq::empty(), '\'', 0, false);
    let value = joined.take(end);
    let rendered = seq!['\''] + value + seq!['\''];
    let inner = rendered.skip(1);
    assert(inner =~= joined.take(end + 1));
    lemma_end_is_same(joined, '\'', 0, false, end + 1);
    dotenv_value::lemma_trim_start(rendered);
    assert(rendered[0] == '\'');
    assert(!text::white('\''));
    assert(inner.skip(end + 1) =~= Seq::<char>::empty());
    assert(inner.take(end) =~= value);
    dotenv_value::lemma_trim_start(Seq::empty());
    dotenv_value::lemma_trim_end(Seq::empty());
}

proof fn lemma_end_is_same(s: Seq<char>, quote: char, i: int, escaped: bool, m: int)
    requires
        0 <= i <= m <= s.len(),
        dotenv::quote_end(s, quote, i, escaped) matches Some(e) && e < m,
    ensures
        dotenv::quote_end(s.take(m), quote, i, escaped) == dotenv::quote_end(s, quote, i, escaped),
    decreases s.len() - i,
{
    dotenv_value::lemma_end_stays(s, Seq::empty(), quote, i, escaped);
    assert(i < m);
    assert(s.take(m)[i] == s[i]);
    if !(s[i] == quote && !escaped) {
        lemma_end_is_same(s, quote, i + 1, s[i] == '\\' && !escaped, m);
    }
}

/// Text without space around it that begins with no quote and holds no comment is read
/// back without quotes.
proof fn lemma_unquoted_is_kept(value: Seq<char>)
    requires
        value.len() > 0 ==> !text::white(value[0]) && !text::white(value.last()) && value[0]
            != '\'' && value[0] != '"',
        text::find(value, seq![' ', '#']) is None,
    ensures
        dotenv_value::written_style(value, QuoteStyle::Unquoted) == QuoteStyle::Unquoted,
{
    dotenv_value::lemma_trim_start(value);
    dotenv_value::lemma_trim_end(value);
}

/// A text that begins with no space is not emptied by trimming its end.
proof fn lemma_trimmed_begins(s: Seq<char>)
    requires
        s.len() > 0,
        !text::white(s[0]),
    ensures
        segment::trim_end(s).len() > 0,
        segment::trim_end(s)[0] == s[0],
    decreases s.len(),
{
    dotenv_value::lemma_trim_end(s);
    if text::white(s.last()) {
        lemma_trimmed_begins(s.drop_last());
    }
}

/// Where a text does not hold another, none of its parts does.
proof fn lemma_part_lacks_mark(s: Seq<char>, i: int, n: int)
    requires
        text::find(s, seq![' ', '#']) == Some(i),
        0 <= n <= i,
    ensures
        text::find(s.take(n), seq![' ', '#']) is None,
{
    let mark = seq![' ', '#'];
    let part = s.take(n);
    text::lemma_find_from(s, mark, 0);
    text::lemma_find_from(part, mark, 0);
    match text::find(part, mark) {
        Some(j) => {
            assert(text::occurs_at(part, mark, j));
            assert(s.subrange(j, j + 2) =~= part.subrange(j, j + 2));
            assert(text::occurs_at(s, mark, j));
        },
        None => {},
    }
}

/// The first line end of a value is that behind its first line.
proof fn lemma_first_break(joined: Seq<char>, first: Seq<char>, n: int, value: Seq<char>)
    requires
        !first.contains('\n'),
        joined.len() > first.len(),
        joined.take(first.len() as int + 1) == first.push('\n'),
        0 <= n < value.len() <= joined.len(),
        value == joined.take(value.len() as int),
        value[n] == '\n',
        forall|j: int| 0 <= j < n ==> value[j] != '\n',
    ensures
        n == first.len(),
        n > 0 ==> value[n - 1] == first.last(),
{
    let m = first.len() as int;
    let begun = joined.take(m + 1);
    assert(begun[m] == '\n');
    if n > m {
        assert(value[m] == joined[m]);
    }
    if n < m {
        assert(begun[n] == first[n]);
        assert(joined[n] == value[n]);
        assert(first.contains('\n'));
    }
    if m > 0 {
        assert(begun[m - 1] == first[m - 1]);
    }
}

/// A quote that a longer text has and a shorter one has not stands behind the shorter.
proof fn lemma_end_follows(s: Seq<char>, quote: char, p: int, end: int)
    requires
        quote != '\n',
        0 <= p < s.len(),
        s[p] == '\n',
        dotenv::quote_end(s, quote, 0, false) == Some(end),
        dotenv::quote_end(s.take(p), quote, 0, false) is None,
    ensures
        p < end < s.len(),
{
    dotenv_value::lemma_end_stays(s, Seq::empty(), quote, 0, false);
    if end < p {
        lemma_end_is_same(s, quote, 0, false, p);
    }
}

/// A value that was read can be written.
proof fn lemma_value_is_good(raw: Seq<char>, remaining: Seq<Seq<char>>)
    requires
        !raw.contains('\n'),
        raw.len() > 0 ==> !text::white(raw.last()),
        dotenv_document::unbroken(remaining),
        dotenv::value_of(raw, remaining) is Ok,
    ensures
        good_value(dotenv::value_of(raw, remaining)->Ok_0),
{
    let s = segment::trim_start(raw);
    assert(raw.skip(0) =~= raw);
    lemma_tail(raw, 0);
    let v = dotenv::value_of(raw, remaining)->Ok_0;
    if s.len() > 0 && (s[0] == '\'' || s[0] == '"') {
        let inner = s.skip(1);
        lemma_tail(s, 1);
        let style = if s[0] == '\'' {
            QuoteStyle::Single
        } else {
            QuoteStyle::Double
        };
        lemma_quoted_is_good(inner, remaining, s[0], style, 0, inner);
    } else {
        match text::find(s, seq![' ', '#']) {
            Some(i) => {
                text::lemma_find_from(s, seq![' ', '#'], 0);
                assert(text::occurs_at(s, seq![' ', '#'], i));
                assert(s.subrange(i, i + 2)[0] == ' ' && s.subrange(i, i + 2)[1] == '#');
                let tail = s.skip(i);
                lemma_tail(s, i);
                assert(tail[0] == ' ' && tail[1] == '#');
                assert(text::white(' ') && !text::white('#'));
                let comment = tail.skip(1);
                dotenv_value::lemma_trim_start(comment);
                assert(segment::trim_start(tail) == segment::trim_start(tail.skip(1)));
                assert(v.comment == Some(comment));
                let head = s.take(i);
                assert(head =~= s.subrange(0, i));
                lemma_part(s, 0, i);
                dotenv_value::lemma_trim_end(head);
                assert(v.value =~= head.subrange(0, v.value.len() as int));
                lemma_part(head, 0, v.value.len() as int);
                let n = v.value.len() as int;
                assert(head.len() > 0);
                lemma_trimmed_begins(head);
                assert(n > 0 && v.value[0] == s[0]);
                assert(v.value =~= s.take(n));
                lemma_part_lacks_mark(s, i, n);
                lemma_unquoted_is_kept(v.value);
            },
            None => {
                dotenv_value::lemma_trim_end(s);
                assert(v.value == s);
                lemma_unquoted_is_kept(v.value);
            },
        }
    }
}

/// What the lines read so far are like.
pub open spec fn good_state(state: dotenv::ReadModel) -> bool {
    &&& dotenv_document::writable_entries(state.values, state.layouts)
    &&& dotenv_document::note_lines(state.pending)
    &&& kept_styles(state.values, state.layouts)
}

/// Every value is written in the style that its layout holds.
pub open spec fn kept_styles(
    values: Seq<(Seq<char>, node::Tree)>,
    layouts: Seq<layout::DotenvModel>,
) -> bool {
    forall|i: int|
        0 <= i < values.len() && i < layouts.len() ==> dotenv_document::restyled_entry(
            dotenv_document::string_of(values[i].1),
            #[trigger] layouts[i],
        ) == layouts[i]
}

/// The last line read, if it is kept for an entry, is the last of those kept.
pub open spec fn ends_with_line(state: dotenv::ReadModel, line: Seq<char>) -> bool {
    state.pending.len() > 0 ==> state.pending.last() == line
}

/// What is read from good lines can be written.
proof fn lemma_lines_are_good(
    lines: Seq<Seq<char>>,
    i: int,
    trailing: bool,
    state: dotenv::ReadModel,
)
    requires
        dotenv_document::unbroken(lines),
        0 <= i,
        good_state(state),
        i > 0 ==> state.values.len() + state.pending.len() > 0,
        i == 0 ==> state.pending.len() == 0,
        0 < i <= lines.len() ==> ends_with_line(state, lines[i - 1]),
        lines.len() > 0,
        trailing ==> lines.len() > 1,
        i > lines.len() ==> state.pending.len() == 0,
        dotenv::read_lines(lines, i, trailing, state) is Ok,
    ensures
        ({
            let end = dotenv::read_lines(lines, i, trailing, state)->Ok_0;
            &&& good_state(end)
            &&& end.values.len() + end.pending.len() > 0
            &&& !trailing ==> ends_with_line(end, lines.last())
        }),
    decreases
            (if i < lines.len() {
                lines.len() - i
            } else {
                0
            }),
{
    if i >= lines.len() || (i + 1 == lines.len() && lines[i].len() == 0 && trailing) {
    } else {
        let line = lines[i];
        assert(!line.contains('\n'));
        let trimmed = segment::trim(line);
        lemma_trimmed(line);
        if trimmed.len() == 0 || trimmed[0] == '#' {
            let next = dotenv::ReadModel { pending: state.pending.push(line), ..state };
            assert(dotenv_document::note_lines(next.pending)) by {
                assert forall|j: int|
                    0 <= j < next.pending.len() implies dotenv_document::note_line(
                    #[trigger] next.pending[j],
                ) by {
                    if j < state.pending.len() {
                        assert(next.pending[j] == state.pending[j]);
                    }
                }
            }
            lemma_lines_are_good(lines, i + 1, trailing, next);
        } else {
            reveal_strlit("export ");
            let exported = text::starts_with(trimmed, "export "@);
            let assignment = if exported {
                segment::trim_start(trimmed.skip("export "@.len() as int))
            } else {
                trimmed
            };
            if exported {
                lemma_tail(trimmed, "export "@.len() as int);
            }
            let n = segment::before(assignment, '=') as int;
            segment::lemma_before(assignment, '=');
            let key = assignment.take(n);
            let raw = assignment.skip(n + 1);
            lemma_tail(assignment, n + 1);
            let remaining = lines.skip(i + 1);
            assert(dotenv_document::unbroken(remaining)) by {
                assert forall|j: int| 0 <= j < remaining.len() implies !(
                #[trigger] remaining[j]).contains('\n') by {
                    assert(remaining[j] == lines[i + 1 + j]);
                }
            }
            lemma_value_is_good(raw, remaining);
            let v = dotenv::value_of(raw, remaining)->Ok_0;
            let entry = (key, node::Tree::Scalar(node::ScalarModel::String(v.value)));
            let style = layout::DotenvModel {
                key,
                exported,
                quote: v.quote,
                leading: state.pending,
                inline_comment: v.comment,
            };
            let next = dotenv::ReadModel {
                values: state.values.push(entry),
                layouts: state.layouts.push(style),
                pending: Seq::empty(),
            };
            dotenv::lemma_keys_push(state.values, key, entry.1);
            assert(dotenv_document::writable_entry(entry, style));
            assert forall|j: int|
                0 <= j < next.values.len() implies dotenv_document::writable_entry(
                #[trigger] next.values[j],
                next.layouts[j],
            ) by {
                if j < state.values.len() {
                    assert(next.values[j] == state.values[j]);
                    assert(next.layouts[j] == state.layouts[j]);
                }
            }
            assert(kept_styles(next.values, next.layouts)) by {
                assert forall|j: int|
                    0 <= j < next.values.len() && j
                        < next.layouts.len() implies dotenv_document::restyled_entry(
                    dotenv_document::string_of(next.values[j].1),
                    #[trigger] next.layouts[j],
                ) == next.layouts[j] by {
                    if j < state.values.len() {
                        assert(next.values[j] == state.values[j]);
                        assert(next.layouts[j] == state.layouts[j]);
                    } else {
                        assert(dotenv_document::string_of(entry.1) == v.value);
                        assert(dotenv::asked_style(v.value, style) == v.quote);
                    }
                }
            }
            lemma_lines_are_good(lines, i + 1 + v.consumed, trailing, next);
        }
    }
}

/// The text of a document that was read: whether it ends in a line end is what its
/// layout says.
proof fn lemma_text_end(d: document::DocumentModel, last: Seq<char>)
    requires
        dotenv_document::writable(d),
        !last.contains('\n'),
        !d.layout.trailing_newline ==> (d.layout.preamble_comments.len() > 0
            ==> d.layout.preamble_comments.last() == last),
        !d.layout.trailing_newline ==> last.len() > 0 || (d.root->Mapping_0.len() == 0
            && d.layout.preamble_comments.len() == 1),
    ensures
        dotenv::generated_text(d) matches Ok(s) && (d.layout.trailing_newline <==> s.len() > 0
            && s.last() == '\n'),
{
    let values = d.root->Mapping_0;
    let layouts = d.layout.dotenv;
    let notes = d.layout.preamble_comments;
    assert(values.take(values.len() as int) =~= values);
    dotenv_document::lemma_entries_text(values, layouts, values.len() as int);
    let own = dotenv_document::all_lines(values, layouts);
    dotenv_document::lemma_has_lines(values, layouts);
    let body = dotenv::terminated(own);
    let whole = body + dotenv::terminated(notes);
    if notes.len() > 0 {
        let line = notes.last();
        assert(whole.drop_last() =~= body + dotenv::terminated(notes.drop_last()) + line);
        assert(whole.last() == '\n');
        if !d.layout.trailing_newline {
            if line.len() > 0 {
                assert(whole.drop_last().last() == line.last());
                assert(line[line.len() - 1] == line.last());
            } else {
                assert(notes.drop_last() =~= Seq::<Seq<char>>::empty());
                assert(own =~= Seq::<Seq<char>>::empty());
                assert(whole.drop_last() =~= Seq::<char>::empty());
            }
        }
    } else {
        lemma_entries_end(values, layouts);
        assert(whole =~= body);
    }
}

/// The text of the last entry ends its line behind a character that is no line end.
proof fn lemma_entries_end(
    values: Seq<(Seq<char>, node::Tree)>,
    layouts: Seq<layout::DotenvModel>,
)
    requires
        dotenv_document::writable_entries(values, layouts),
        values.len() > 0,
    ensures
        ({
            let body = dotenv::terminated(dotenv_document::all_lines(values, layouts));
            &&& body.len() > 1
            &&& body.last() == '\n'
            &&& body.drop_last().last() != '\n'
        }),
{
    let n = values.len() - 1;
    assert(dotenv_document::writable_entry(values[n], layouts[n]));
    let value = dotenv_document::string_of(values[n].1);
    let style = layouts[n];
    let t = dotenv_document::assignment_text(values[n].0, value, style);
    let asked = dotenv::asked_style(value, style);
    let raw = dotenv::rendered_value(value, asked) + dotenv_value::note_suffix(
        style.inline_comment,
    );
    dotenv_document::lemma_value_ends(value, asked, style.inline_comment);
    assert(t.last() == if raw.len() > 0 {
        raw.last()
    } else {
        '='
    });
    assert(text::white('\n'));
    let before = dotenv_document::all_lines(values.drop_last(), layouts);
    let parts = segment::split(t, '\n');
    let own = dotenv_document::all_lines(values, layouts);
    dotenv_document::lemma_terminated_split(t);
    dotenv_document::lemma_terminated_add(before + style.leading, parts);
    assert(own =~= (before + style.leading) + parts);
    let front = dotenv::terminated(before + style.leading);
    let body = dotenv::terminated(own);
    assert(body =~= front + t.push('\n'));
    assert(body.drop_last() =~= front + t);
    assert((front + t).last() == t.last());
}

/// Law: every text that is read as a dotenv document can be written again: the text
/// that the document is written as is read as the same document: the same values under
/// the same keys in the same order, in the same styles, with the same comments and the
/// same layout. (A comment or a value with a carriage return at
/// the end of a line keeps it only where no line feed follows; and lines that end in
/// CR LF pairs are told from others only where a line end is left.)
pub proof fn law_read_document_is_written_back(input: Seq<char>)
    requires
        dotenv::parsed(input) is Ok,
        ({
            let d = dotenv::parsed(input)->Ok_0;
            dotenv::generated_text(d) matches Ok(s) && !text::contains(s, seq!['\r', '\n']) && (
            d.layout.line_ending == LineEnding::CrLf ==> s.contains('\n'))
        }),
    ensures
        ({
            let d = dotenv::parsed(input)->Ok_0;
            let s = dotenv::generated_text(d)->Ok_0;
            dotenv::parsed(d.layout.line_ending.on(s)) == Ok::<
                document::DocumentModel,
                document::SourceFault,
            >(d)
        }),
{
    let d = dotenv::parsed(input)->Ok_0;
    lemma_read_is_writable(input);
    dotenv_document::law_written_document_is_read_back(d);
    let values = d.root->Mapping_0;
    assert(dotenv_document::restyled(values, d.layout.dotenv) =~= d.layout.dotenv);
}

/// What was read can be written.
pub proof fn lemma_read_is_writable(input: Seq<char>)
    requires
        dotenv::parsed(input) is Ok,
    ensures
        dotenv_document::writable(dotenv::parsed(input)->Ok_0),
        kept_styles(
            dotenv::parsed(input)->Ok_0.root->Mapping_0,
            dotenv::parsed(input)->Ok_0.layout.dotenv,
        ),
        ({
            let d = dotenv::parsed(input)->Ok_0;
            dotenv::generated_text(d) matches Ok(s) && (d.layout.trailing_newline <==> s.len() > 0
                && s.last() == '\n')
        }),
{
    let d = dotenv::parsed(input)->Ok_0;
    let unix = layout::unix_lines(input);
    let trailing = unix.len() > 0 && unix.last() == '\n';
    let lines = segment::split(unix, '\n');
    dotenv_document::lemma_terminated_split(unix);
    let start = dotenv::ReadModel {
        values: Seq::empty(),
        layouts: Seq::empty(),
        pending: Seq::empty(),
    };
    if trailing {
        let n = segment::before(unix, '\n') as int;
        segment::lemma_before(unix, '\n');
        assert(unix[unix.len() - 1] == '\n');
        assert(unix.contains('\n'));
        dotenv_document::lemma_terminated_split(unix.skip(n + 1));
    }
    lemma_lines_are_good(lines, 0, trailing, start);
    let end = dotenv::read_lines(lines, 0, trailing, start)->Ok_0;
    let last = lines.last();
    assert(lines[lines.len() - 1] == last);
    if !trailing {
        lemma_last_line(unix);
        if last.len() == 0 {
            assert(lines =~= seq![Seq::<char>::empty()]);
            let none = Seq::<char>::empty();
            dotenv_value::lemma_trim_start(none);
            dotenv_value::lemma_trim_end(none);
            let next = dotenv::ReadModel { pending: start.pending.push(none), ..start };
            assert(dotenv::read_lines(lines, 0, trailing, start) == dotenv::read_lines(
                lines,
                1,
                trailing,
                next,
            ));
            assert(end == next);
        }
    }
    assert(d.format == SourceFormat::Dotenv);
    lemma_text_end(d, last);
}

/// The last line of a text that does not end in a line end is empty only where the
/// text is.
proof fn lemma_last_line(s: Seq<char>)
    requires
        s.len() > 0 ==> s.last() != '\n',
    ensures
        segment::split(s, '\n').last().len() == 0 ==> s.len() == 0,
        s.len() == 0 ==> segment::split(s, '\n') == seq![Seq::<char>::empty()],
    decreases s.len(),
{
    let n = segment::before(s, '\n') as int;
    segment::lemma_before(s, '\n');
    if n >= s.len() {
        assert(segment::split(s, '\n') =~= seq![s]);
        if s.len() == 0 {
            assert(s =~= Seq::<char>::empty());
        }
    } else {
        let rest = s.skip(n + 1);
        if rest.len() == 0 {
            assert(s.last() == s[n]);
        } else {
            assert(rest.last() == s.last());
            lemma_last_line(rest);
            let tail = segment::split(rest, '\n');
            dotenv_document::lemma_terminated_split(rest);
            assert(segment::split(s, '\n') =~= seq![s.take(n)] + tail);
            assert(segment::split(s, '\n').last() == tail.last());
        }
    }
}

/// A part of a text without carriage returns has none.
proof fn lemma_part_lacks(s: Seq<char>, from: int, to: int)
    requires
        !s.contains('\r'),
        0 <= from <= to <= s.len(),
    ensures
        !s.subrange(from, to).contains('\r'),
{
    let part = s.subrange(from, to);
    if part.contains('\r') {
        let k = choose|k: int| 0 <= k < part.len() && part[k] == '\r';
        assert(s[from + k] == '\r');
    }
}

proof fn lemma_sum_lacks(a: Seq<char>, b: Seq<char>)
    requires
        !a.contains('\r'),
        !b.contains('\r'),
    ensures
        !(a + b).contains('\r'),
{
    let s = a + b;
    if s.contains('\r') {
        let k = choose|k: int| 0 <= k < s.len() && s[k] == '\r';
        if k < a.len() {
            assert(a[k] == '\r');
        } else {
            assert(b[k - a.len()] == '\r');
        }
    }
}

proof fn lemma_trimmed_lacks(s: Seq<char>)
    requires
        !s.contains('\r'),
    ensures
        !segment::trim_start(s).contains('\r'),
        !segment::trim_end(s).contains('\r'),
        !segment::trim(s).contains('\r'),
{
    let a = segment::trim_start(s);
    lemma_trim_start_is_tail(s);
    lemma_part_lacks(s, s.len() - a.len(), s.len() as int);
    let b = segment::trim_end(s);
    dotenv_value::lemma_trim_end(s);
    assert(b =~= s.subrange(0, b.len() as int));
    lemma_part_lacks(s, 0, b.len() as int);
    let c = segment::trim_end(a);
    dotenv_value::lemma_trim_end(a);
    assert(c =~= a.subrange(0, c.len() as int));
    lemma_part_lacks(a, 0, c.len() as int);
}

/// No line holds a carriage return.
pub open spec fn lines_lack(lines: Seq<Seq<char>>) -> bool {
    forall|i: int| 0 <= i < lines.len() ==> !(#[trigger] lines[i]).contains('\r')
}

/// What a value holds where its text holds no carriage return: one can only stand for
/// an escape between double quotes.
pub open spec fn value_lacks(v: dotenv::ValueModel) -> bool {
    &&& v.comment matches Some(c) ==> !c.contains('\r')
    &&& v.quote != QuoteStyle::Double ==> !v.value.contains('\r')
}

proof fn lemma_quoted_lacks(
    joined: Seq<char>,
    remaining: Seq<Seq<char>>,
    quote: char,
    style: QuoteStyle,
    consumed: nat,
)
    requires
        !joined.contains('\r'),
        lines_lack(remaining),
        dotenv::quoted_value(joined, remaining, quote, style, consumed) is Ok,
    ensures
        value_lacks(dotenv::quoted_value(joined, remaining, quote, style, consumed)->Ok_0),
    decreases remaining.len() - consumed,
{
    match dotenv::quote_end(joined, quote, 0, false) {
        Some(end) => {
            dotenv_value::lemma_end_stays(joined, Seq::empty(), quote, 0, false);
            assert(joined.skip(end + 1) =~= joined.subrange(end + 1, joined.len() as int));
            lemma_part_lacks(joined, end + 1, joined.len() as int);
            lemma_trimmed_lacks(joined.skip(end + 1));
            assert(joined.take(end) =~= joined.subrange(0, end));
            lemma_part_lacks(joined, 0, end);
        },
        None => {
            let feed = seq!['\n'];
            assert(!feed.contains('\r'));
            lemma_sum_lacks(joined, feed);
            assert(joined + feed =~= joined.push('\n'));
            assert(!remaining[consumed as int].contains('\r'));
            lemma_sum_lacks(joined.push('\n'), remaining[consumed as int]);
            lemma_quoted_lacks(
                joined.push('\n') + remaining[consumed as int],
                remaining,
                quote,
                style,
                consumed + 1,
            );
        },
    }
}

proof fn lemma_value_lacks(raw: Seq<char>, remaining: Seq<Seq<char>>)
    requires
        !raw.contains('\r'),
        lines_lack(remaining),
        dotenv::value_of(raw, remaining) is Ok,
    ensures
        value_lacks(dotenv::value_of(raw, remaining)->Ok_0),
{
    let s = segment::trim_start(raw);
    lemma_trimmed_lacks(raw);
    if s.len() > 0 && (s[0] == '\'' || s[0] == '"') {
        assert(s.skip(1) =~= s.subrange(1, s.len() as int));
        lemma_part_lacks(s, 1, s.len() as int);
        let style = if s[0] == '\'' {
            QuoteStyle::Single
        } else {
            QuoteStyle::Double
        };
        lemma_quoted_lacks(s.skip(1), remaining, s[0], style, 0);
    } else {
        text::lemma_find_from(s, seq![' ', '#'], 0);
        match text::find(s, seq![' ', '#']) {
            Some(i) => {
                assert(text::occurs_at(s, seq![' ', '#'], i));
                assert(s.take(i) =~= s.subrange(0, i));
                assert(s.skip(i) =~= s.subrange(i, s.len() as int));
                lemma_part_lacks(s, 0, i);
                lemma_part_lacks(s, i, s.len() as int);
                lemma_trimmed_lacks(s.take(i));
                lemma_trimmed_lacks(s.skip(i));
            },
            None => {
                lemma_trimmed_lacks(s);
            },
        }
    }
}

/// An entry that was read from lines without carriage returns.
pub open spec fn entry_lacks(entry: (Seq<char>, node::Tree), style: layout::DotenvModel) -> bool {
    &&& !entry.0.contains('\r')
    &&& lines_lack(style.leading)
    &&& style.inline_comment matches Some(c) ==> !c.contains('\r')
    &&& style.quote != QuoteStyle::Double ==> !dotenv_document::string_of(entry.1).contains('\r')
}

pub open spec fn entries_lack(
    values: Seq<(Seq<char>, node::Tree)>,
    layouts: Seq<layout::DotenvModel>,
) -> bool {
    &&& values.len() == layouts.len()
    &&& forall|i: int| 0 <= i < values.len() ==> entry_lacks(#[trigger] values[i], layouts[i])
}

proof fn lemma_lines_lack(
    lines: Seq<Seq<char>>,
    i: int,
    trailing: bool,
    state: dotenv::ReadModel,
)
    requires
        lines_lack(lines),
        0 <= i,
        entries_lack(state.values, state.layouts),
        lines_lack(state.pending),
        dotenv::read_lines(lines, i, trailing, state) is Ok,
    ensures
        ({
            let end = dotenv::read_lines(lines, i, trailing, state)->Ok_0;
            entries_lack(end.values, end.layouts) && lines_lack(end.pending)
        }),
    decreases
            (if i < lines.len() {
                lines.len() - i
            } else {
                0
            }),
{
    if i >= lines.len() || (i + 1 == lines.len() && lines[i].len() == 0 && trailing) {
    } else {
        let line = lines[i];
        assert(!line.contains('\r'));
        let trimmed = segment::trim(line);
        lemma_trimmed_lacks(line);
        if trimmed.len() == 0 || trimmed[0] == '#' {
            let next = dotenv::ReadModel { pending: state.pending.push(line), ..state };
            assert forall|j: int| 0 <= j < next.pending.len() implies !(
            #[trigger] next.pending[j]).contains('\r') by {
                if j < state.pending.len() {
                    assert(next.pending[j] == state.pending[j]);
                }
            }
            lemma_lines_lack(lines, i + 1, trailing, next);
        } else {
            reveal_strlit("export ");
            let exported = text::starts_with(trimmed, "export "@);
            let rest = trimmed.skip("export "@.len() as int);
            let assignment = if exported {
                segment::trim_start(rest)
            } else {
                trimmed
            };
            if exported {
                assert(rest =~= trimmed.subrange("export "@.len() as int, trimmed.len() as int));
                lemma_part_lacks(trimmed, "export "@.len() as int, trimmed.len() as int);
                lemma_trimmed_lacks(rest);
            }
            let n = segment::before(assignment, '=') as int;
            segment::lemma_before(assignment, '=');
            let key = assignment.take(n);
            let raw = assignment.skip(n + 1);
            assert(key =~= assignment.subrange(0, n));
            assert(raw =~= assignment.subrange(n + 1, assignment.len() as int));
            lemma_part_lacks(assignment, 0, n);
            lemma_part_lacks(assignment, n + 1, assignment.len() as int);
            let remaining = lines.skip(i + 1);
            assert forall|j: int| 0 <= j < remaining.len() implies !(
            #[trigger] remaining[j]).contains('\r') by {
                assert(remaining[j] == lines[i + 1 + j]);
            }
            lemma_value_lacks(raw, remaining);
            let v = dotenv::value_of(raw, remaining)->Ok_0;
            let entry = (key, node::Tree::Scalar(node::ScalarModel::String(v.value)));
            let style = layout::DotenvModel {
                key,
                exported,
                quote: v.quote,
                leading: state.pending,
                inline_comment: v.comment,
            };
            let next = dotenv::ReadModel {
                values: state.values.push(entry),
                layouts: state.layouts.push(style),
                pending: Seq::empty(),
            };
            assert(dotenv_document::string_of(entry.1) == v.value);
            assert(entry_lacks(entry, style));
            assert forall|j: int| 0 <= j < next.values.len() implies entry_lacks(
                #[trigger] next.values[j],
                next.layouts[j],
            ) by {
                if j < state.values.len() {
                    assert(next.values[j] == state.values[j]);
                    assert(next.layouts[j] == state.layouts[j]);
                }
            }
            lemma_lines_lack(lines, i + 1 + v.consumed, trailing, next);
        }
    }
}

proof fn lemma_terminated_lacks(lines: Seq<Seq<char>>)
    requires
        lines_lack(lines),
    ensures
        !dotenv::terminated(lines).contains('\r'),
    decreases lines.len(),
{
    if lines.len() > 0 {
        let head = lines.drop_last();
        assert forall|j: int| 0 <= j < head.len() implies !(#[trigger] head[j]).contains('\r') by {
            assert(head[j] == lines[j]);
        }
        lemma_terminated_lacks(head);
        assert(!lines[lines.len() - 1].contains('\r'));
        lemma_sum_lacks(dotenv::terminated(head), lines.last());
        lemma_sum_lacks(dotenv::terminated(head) + lines.last(), seq!['\n']);
    }
}

proof fn lemma_encoded_lacks(s: Seq<char>)
    ensures
        !dotenv::encode(s).contains('\r'),
    decreases s.len(),
{
    if s.len() > 0 {
        lemma_encoded_lacks(s.skip(1));
        lemma_sum_lacks(dotenv::escape(s[0]), dotenv::encode(s.skip(1)));
    }
}

proof fn lemma_rendered_lacks(value: Seq<char>, preferred: QuoteStyle)
    requires
        preferred != QuoteStyle::Double ==> !value.contains('\r'),
    ensures
        !dotenv::rendered_value(value, preferred).contains('\r'),
{
    lemma_encoded_lacks(value);
    let e = dotenv::encode(value);
    lemma_sum_lacks(seq!['"'], e);
    lemma_sum_lacks(seq!['"'] + e, seq!['"']);
    if preferred != QuoteStyle::Double {
        lemma_sum_lacks(seq!['\''], value);
        lemma_sum_lacks(seq!['\''] + value, seq!['\'']);
    }
}

proof fn lemma_entry_lacks(key: Seq<char>, value: Seq<char>, style: layout::DotenvModel)
    requires
        entry_lacks((key, node::Tree::Scalar(node::ScalarModel::String(value))), style),
    ensures
        !dotenv::rendered_entry(key, value, Some(style)).contains('\r'),
{
    reveal_strlit("export ");
    let notes = dotenv::terminated(style.leading);
    lemma_terminated_lacks(style.leading);
    let word = if style.exported {
        "export "@
    } else {
        Seq::empty()
    };
    assert(!word.contains('\r'));
    assert(dotenv_document::string_of(
        node::Tree::Scalar(node::ScalarModel::String(value)),
    ) == value);
    let rendered = dotenv::rendered_value(value, dotenv::asked_style(value, style));
    lemma_rendered_lacks(value, dotenv::asked_style(value, style));
    let suffix = match style.inline_comment {
        Some(comment) => seq![' '] + comment,
        None => Seq::empty(),
    };
    if style.inline_comment is Some {
        lemma_sum_lacks(seq![' '], style.inline_comment->Some_0);
    }
    lemma_sum_lacks(notes, word);
    lemma_sum_lacks(notes + word, key);
    lemma_sum_lacks(notes + word + key, seq!['=']);
    lemma_sum_lacks(notes + word + key + seq!['='], rendered);
    lemma_sum_lacks(notes + word + key + seq!['='] + rendered, suffix);
    lemma_sum_lacks(notes + word + key + seq!['='] + rendered + suffix, seq!['\n']);
}

proof fn lemma_entries_lack(
    values: Seq<(Seq<char>, node::Tree)>,
    layouts: Seq<layout::DotenvModel>,
    n: int,
)
    requires
        dotenv_document::writable_entries(values, layouts),
        entries_lack(values, layouts),
        0 <= n <= values.len(),
    ensures
        dotenv::rendered_entries(values.take(n), layouts) matches Some(t) && !t.contains('\r'),
    decreases n,
{
    if n > 0 {
        lemma_entries_lack(values, layouts, n - 1);
        let part = values.take(n);
        assert(part.drop_last() =~= values.take(n - 1));
        let entry = values[n - 1];
        let style = layouts[n - 1];
        assert(part.last() == entry);
        assert(dotenv_document::writable_entry(entry, style));
        assert(entry_lacks(entry, style));
        dotenv_document::lemma_assignment(values, layouts, n - 1);
        let value = dotenv_document::string_of(entry.1);
        assert(entry == (entry.0, node::Tree::Scalar(node::ScalarModel::String(value))));
        assert(node::scalar_of(entry.1) == Some(node::ScalarModel::String(value)));
        lemma_entry_lacks(entry.0, value, style);
        lemma_sum_lacks(
            dotenv::rendered_entries(values.take(n - 1), layouts)->Some_0,
            dotenv::rendered_entry(entry.0, value, Some(style)),
        );
    }
}

proof fn lemma_pieces_lack(s: Seq<char>)
    requires
        !s.contains('\r'),
    ensures
        lines_lack(segment::split(s, '\n')),
    decreases s.len(),
{
    let n = segment::before(s, '\n') as int;
    segment::lemma_before(s, '\n');
    if n >= s.len() {
        assert(segment::split(s, '\n') =~= seq![s]);
    } else {
        let rest = s.skip(n + 1);
        assert(rest =~= s.subrange(n + 1, s.len() as int));
        assert(s.take(n) =~= s.subrange(0, n));
        lemma_part_lacks(s, n + 1, s.len() as int);
        lemma_part_lacks(s, 0, n);
        lemma_pieces_lack(rest);
        let tail = segment::split(rest, '\n');
        let lines = segment::split(s, '\n');
        assert(lines =~= seq![s.take(n)] + tail);
        assert forall|j: int| 0 <= j < lines.len() implies !(#[trigger] lines[j]).contains(
            '\r',
        ) by {
            if j > 0 {
                assert(lines[j] == tail[j - 1]);
            }
        }
    }
}

/// What a text without carriage returns is written as has none, and lines that end in a
/// line feed.
pub proof fn lemma_plain_text_is_written(input: Seq<char>)
    requires
        dotenv::parsed(input) is Ok,
        !input.contains('\r'),
    ensures
        ({
            let d = dotenv::parsed(input)->Ok_0;
            &&& dotenv::generated_text(d) matches Ok(s) && !s.contains('\r') && !text::contains(
                s,
                seq!['\r', '\n'],
            )
            &&& d.layout.line_ending == LineEnding::Lf
            &&& layout::unix_lines(input) == input
        }),
{
    let pair = seq!['\r', '\n'];
    let d = dotenv::parsed(input)->Ok_0;
    lemma_read_is_writable(input);
    if text::contains(input, pair) {
        let i = choose|i: int| text::occurs_at(input, pair, i);
        assert(input.subrange(i, i + 2)[0] == '\r');
        assert(input[i] == '\r');
    }
    dotenv_document::lemma_unix_is_kept(input);
    lemma_pieces_lack(input);
    let start = dotenv::ReadModel {
        values: Seq::empty(),
        layouts: Seq::empty(),
        pending: Seq::empty(),
    };
    let trailing = input.len() > 0 && input.last() == '\n';
    lemma_lines_lack(segment::split(input, '\n'), 0, trailing, start);
    let values = d.root->Mapping_0;
    assert(values.take(values.len() as int) =~= values);
    lemma_entries_lack(values, d.layout.dotenv, values.len() as int);
    lemma_terminated_lacks(d.layout.preamble_comments);
    let body = dotenv::rendered_entries(values, d.layout.dotenv)->Some_0;
    let whole = body + dotenv::terminated(d.layout.preamble_comments);
    lemma_sum_lacks(body, dotenv::terminated(d.layout.preamble_comments));
    let s = dotenv::generated_text(d)->Ok_0;
    if whole.len() > 0 {
        assert(whole.drop_last() =~= whole.subrange(0, whole.len() - 1));
        lemma_part_lacks(whole, 0, whole.len() - 1);
    }
    assert(!s.contains('\r'));
    if text::contains(s, pair) {
        let i = choose|i: int| text::occurs_at(s, pair, i);
        assert(s.subrange(i, i + 2)[0] == '\r');
        assert(s[i] == '\r');
    }
}

/// Law: reading a text without carriage returns, writing the document and reading it
/// again gives the same document, in every value, style, comment and line.
pub proof fn law_plain_text_is_read_back(input: Seq<char>)
    requires
        dotenv::parsed(input) is Ok,
        !input.contains('\r'),
    ensures
        ({
            let d = dotenv::parsed(input)->Ok_0;
            dotenv::generated_text(d) matches Ok(s) && dotenv::parsed(
                d.layout.line_ending.on(s),
            ) == Ok::<document::DocumentModel, document::SourceFault>(d) && dotenv::generated(d)
                == Ok::<Seq<u8>, document::SourceFault>(
                vstd::utf8::encode_utf8(d.layout.line_ending.on(s)),
            )
        }),
{
    lemma_plain_text_is_written(input);
    law_read_document_is_written_back(input);
}

} // verus!
