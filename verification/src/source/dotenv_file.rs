//! The bytes of a dotenv file are read back as they were written.

use vstd::prelude::*;

use crate::config::SourceFormat;
use crate::segment;
use crate::source::document;
use crate::source::dotenv;
use crate::source::dotenv_document;
use crate::source::dotenv_reading;
use crate::source::dotenv_value;
use crate::source::layout;
use crate::source::node;
use crate::source::QuoteStyle;
use crate::text;

verus! {

/// A line that begins as the first or the last line of an unresolved conflict.
pub open spec fn opens_marker(line: Seq<char>) -> bool {
    let s = segment::trim_start_by(line, |c: char| crate::source::format::marker_lead(c));
    text::starts_with(s, "<<<<<<< "@) || text::starts_with(s, ">>>>>>> "@)
}

/// No line is one of an unresolved conflict.
pub open spec fn quiet(lines: Seq<Seq<char>>) -> bool {
    forall|i: int|
        0 <= i < lines.len() ==> !crate::source::format::marker_line(#[trigger] lines[i])
}

/// The lines of a value behind the first: none is one of an unresolved conflict, and the
/// last does not begin as one.
pub open spec fn quiet_value(value: Seq<char>) -> bool {
    let w = segment::split(value, '\n');
    &&& forall|i: int|
        1 <= i < w.len() - 1 ==> !crate::source::format::marker_line(#[trigger] w[i])
    &&& w.len() > 1 ==> !opens_marker(w.last())
}

proof fn lemma_trim_add(a: Seq<char>, x: Seq<char>, p: spec_fn(char) -> bool)
    requires
        segment::trim_start_by(a, p).len() > 0,
    ensures
        segment::trim_start_by(a + x, p) == segment::trim_start_by(a, p) + x,
    decreases a.len(),
{
    let s = a + x;
    assert(s[0] == a[0]);
    if p(a[0]) {
        assert(s.skip(1) =~= a.skip(1) + x);
        lemma_trim_add(a.skip(1), x, p);
    }
}

proof fn lemma_trim_all(a: Seq<char>, x: Seq<char>, p: spec_fn(char) -> bool)
    requires
        segment::trim_start_by(a, p).len() == 0,
    ensures
        segment::trim_start_by(a + x, p) == segment::trim_start_by(x, p),
    decreases a.len(),
{
    let s = a + x;
    if a.len() > 0 {
        assert(s[0] == a[0]);
        assert(s.skip(1) =~= a.skip(1) + x);
        lemma_trim_all(a.skip(1), x, p);
    } else {
        assert(s =~= x);
    }
}

/// What a text begins with, a longer one begins with.
proof fn lemma_starts(s: Seq<char>, x: Seq<char>, p: Seq<char>)
    requires
        text::starts_with(s, p),
    ensures
        text::starts_with(s + x, p),
{
    assert((s + x).subrange(0, p.len() as int) =~= s.subrange(0, p.len() as int));
}

/// A text that goes on with another begins with a third that has not its first
/// character only where it did before.
proof fn lemma_started(s: Seq<char>, x: Seq<char>, p: Seq<char>)
    requires
        text::starts_with(s + x, p),
        x.len() > 0,
        !p.contains(x[0]),
    ensures
        text::starts_with(s, p),
{
    let whole = s + x;
    if s.len() < p.len() {
        assert(whole.subrange(0, p.len() as int)[s.len() as int] == x[0]);
        assert(p.contains(p[s.len() as int]));
    } else {
        assert(s.subrange(0, p.len() as int) =~= whole.subrange(0, p.len() as int));
    }
}

/// The front of a line that is none of a conflict does not begin as one.
proof fn lemma_front_is_quiet(front: Seq<char>, x: Seq<char>)
    requires
        !crate::source::format::marker_line(front + x),
    ensures
        !opens_marker(front),
{
    let p = |c: char| crate::source::format::marker_lead(c);
    let s = segment::trim_start_by(front, p);
    if opens_marker(front) {
        reveal_strlit("<<<<<<< ");
        reveal_strlit(">>>>>>> ");
        assert(s.len() > 0);
        lemma_trim_add(front, x, p);
        if text::starts_with(s, "<<<<<<< "@) {
            lemma_starts(s, x, "<<<<<<< "@);
        } else {
            lemma_starts(s, x, ">>>>>>> "@);
        }
    }
}

/// A line that does not begin as one of a conflict is none when a quote follows.
proof fn lemma_closed_is_quiet(line: Seq<char>, suffix: Seq<char>)
    requires
        !opens_marker(line),
    ensures
        !crate::source::format::marker_line(line + seq!['\''] + suffix),
{
    reveal_strlit("<<<<<<< ");
    reveal_strlit(">>>>>>> ");
    reveal_strlit("=======");
    let p = |c: char| crate::source::format::marker_lead(c);
    let x = seq!['\''] + suffix;
    let whole = line + x;
    assert(line + seq!['\''] + suffix =~= whole);
    let s = segment::trim_start_by(line, p);
    let t = segment::trim_start_by(whole, p);
    assert(x[0] == '\'');
    if s.len() > 0 {
        lemma_trim_add(line, x, p);
        assert(t == s + x);
        assert(t[s.len() as int] == '\'');
    } else {
        lemma_trim_all(line, x, p);
        assert(!p(x[0]));
        assert(t == x);
        assert(s + x =~= x);
    }
    assert(t =~= s + x);
    assert(t.contains('\'')) by {
        assert(t[s.len() as int] == '\'');
    }
    if text::starts_with(t, "<<<<<<< "@) {
        lemma_started(s, x, "<<<<<<< "@);
    }
    if text::starts_with(t, ">>>>>>> "@) {
        lemma_started(s, x, ">>>>>>> "@);
    }
}

/// The lines of the front of a text: whole ones, and the front of the next.
proof fn lemma_split_front(s: Seq<char>, m: int)
    requires
        0 <= m <= s.len(),
    ensures
        ({
            let (w, all) = (segment::split(s.take(m), '\n'), segment::split(s, '\n'));
            &&& 1 <= w.len() <= all.len()
            &&& forall|i: int| 0 <= i < w.len() - 1 ==> #[trigger] w[i] == all[i]
            &&& exists|x: Seq<char>| #[trigger] (w.last() + x) == all[w.len() - 1]
        }),
    decreases s.len(),
{
    let n = segment::before(s, '\n') as int;
    let part = s.take(m);
    segment::lemma_before(s, '\n');
    let (w, all) = (segment::split(part, '\n'), segment::split(s, '\n'));
    if m <= n {
        assert forall|j: int| 0 <= j < part.len() implies part[j] != '\n' by {
            assert(part[j] == s[j]);
        }
        segment::lemma_before_is(part, '\n', part.len() as int);
        assert(w =~= seq![part]);
        assert(all[0] =~= s.take(n));
        let x = s.subrange(m, n);
        assert(w.last() + x =~= all[0]);
    } else {
        assert forall|j: int| 0 <= j < n implies part[j] != '\n' by {
            assert(part[j] == s[j]);
        }
        assert(part[n] == s[n]);
        segment::lemma_before_is(part, '\n', n);
        let rest = s.skip(n + 1);
        assert(part.skip(n + 1) =~= rest.take(m - n - 1));
        assert(part.take(n) =~= s.take(n));
        lemma_split_front(rest, m - n - 1);
        let (v, more) = (segment::split(rest.take(m - n - 1), '\n'), segment::split(rest, '\n'));
        assert(w =~= seq![s.take(n)] + v);
        assert(all =~= seq![s.take(n)] + more);
        assert forall|i: int| 0 <= i < w.len() - 1 implies #[trigger] w[i] == all[i] by {
            if i > 0 {
                assert(w[i] == v[i - 1]);
                assert(all[i] == more[i - 1]);
            }
        }
        let x = choose|x: Seq<char>| #[trigger] (v.last() + x) == more[v.len() - 1];
        assert(w.last() == v.last());
        assert(all[w.len() - 1] == more[v.len() - 1]);
        assert(w.last() + x == all[w.len() - 1]);
    }
}

/// All lines of a text behind the first are quiet.
pub open spec fn quiet_tail(s: Seq<char>) -> bool {
    let w = segment::split(s, '\n');
    forall|i: int| 1 <= i < w.len() ==> !crate::source::format::marker_line(#[trigger] w[i])
}

proof fn lemma_front_value(s: Seq<char>, m: int)
    requires
        0 <= m <= s.len(),
        quiet_tail(s),
    ensures
        quiet_value(s.take(m)),
{
    let (w, all) = (segment::split(s.take(m), '\n'), segment::split(s, '\n'));
    lemma_split_front(s, m);
    assert forall|i: int| 1 <= i < w.len() - 1 implies !crate::source::format::marker_line(
        #[trigger] w[i],
    ) by {
        assert(w[i] == all[i]);
    }
    if w.len() > 1 {
        let x = choose|x: Seq<char>| #[trigger] (w.last() + x) == all[w.len() - 1];
        assert(!crate::source::format::marker_line(all[w.len() - 1]));
        lemma_front_is_quiet(w.last(), x);
    }
}

/// A value between single quotes that was read from quiet lines.
proof fn lemma_quoted_is_quiet(
    joined: Seq<char>,
    remaining: Seq<Seq<char>>,
    quote: char,
    style: QuoteStyle,
    consumed: nat,
)
    requires
        quiet_tail(joined),
        quiet(remaining),
        dotenv_document::unbroken(remaining),
        dotenv::quoted_value(joined, remaining, quote, style, consumed) is Ok,
    ensures
        ({
            let v = dotenv::quoted_value(joined, remaining, quote, style, consumed)->Ok_0;
            v.quote == style && (style == QuoteStyle::Single ==> quiet_value(v.value))
        }),
    decreases remaining.len() - consumed,
{
    match dotenv::quote_end(joined, quote, 0, false) {
        Some(end) => {
            dotenv_value::lemma_end_stays(joined, Seq::empty(), quote, 0, false);
            lemma_front_value(joined, end);
        },
        None => {
            let line = remaining[consumed as int];
            let next = joined.push('\n') + line;
            assert(!line.contains('\n'));
            assert(!crate::source::format::marker_line(remaining[consumed as int]));
            let (a, b) = (segment::split(joined, '\n'), segment::split(next, '\n'));
            segment::lemma_split_piece(joined, line, '\n');
            assert forall|i: int| 1 <= i < b.len() implies !crate::source::format::marker_line(
                #[trigger] b[i],
            ) by {
                if i < a.len() {
                    assert(b[i] == a[i]);
                } else {
                    assert(b[i] == line);
                }
            }
            lemma_quoted_is_quiet(next, remaining, quote, style, consumed + 1);
        },
    }
}

proof fn lemma_value_is_quiet(raw: Seq<char>, remaining: Seq<Seq<char>>)
    requires
        !raw.contains('\n'),
        quiet(remaining),
        dotenv_document::unbroken(remaining),
        dotenv::value_of(raw, remaining) is Ok,
    ensures
        ({
            let v = dotenv::value_of(raw, remaining)->Ok_0;
            v.quote == QuoteStyle::Single ==> quiet_value(v.value)
        }),
{
    let s = segment::trim_start(raw);
    dotenv_reading::lemma_trim_start_is_tail(raw);
    dotenv_reading::lemma_part(raw, raw.len() - s.len(), raw.len() as int);
    if s.len() > 0 && (s[0] == '\'' || s[0] == '"') {
        let inner = s.skip(1);
        assert(inner =~= s.subrange(1, s.len() as int));
        dotenv_reading::lemma_part(s, 1, s.len() as int);
        let n = segment::before(inner, '\n') as int;
        segment::lemma_before(inner, '\n');
        if n < inner.len() {
            assert(inner[n] == '\n');
            assert(inner.contains('\n'));
        }
        assert(segment::split(inner, '\n') =~= seq![inner]);
        let style = if s[0] == '\'' {
            QuoteStyle::Single
        } else {
            QuoteStyle::Double
        };
        lemma_quoted_is_quiet(inner, remaining, s[0], style, 0);
    }
}

/// The entries and the notes that were read from quiet lines.
pub open spec fn quiet_entries(
    values: Seq<(Seq<char>, node::Tree)>,
    layouts: Seq<layout::DotenvModel>,
) -> bool {
    &&& values.len() == layouts.len()
    &&& forall|i: int|
        0 <= i < values.len() ==> quiet((#[trigger] layouts[i]).leading) && (layouts[i].quote
            == QuoteStyle::Single ==> quiet_value(dotenv_document::string_of(values[i].1)))
}

proof fn lemma_lines_are_quiet(
    lines: Seq<Seq<char>>,
    i: int,
    trailing: bool,
    state: dotenv::ReadModel,
)
    requires
        quiet(lines),
        dotenv_document::unbroken(lines),
        0 <= i,
        quiet_entries(state.values, state.layouts),
        quiet(state.pending),
        dotenv::read_lines(lines, i, trailing, state) is Ok,
    ensures
        ({
            let end = dotenv::read_lines(lines, i, trailing, state)->Ok_0;
            quiet_entries(end.values, end.layouts) && quiet(end.pending)
        }),
    decreases
            (if i < lines.len() {
                lines.len() - i
            } else {
                0
            }),
{
    if i >= lines.len() || (i + 1 == lines.len() && lines[i].len() == 0 && trailing) {
    } else {
        let line = lines[i];
        assert(!line.contains('\n') && !crate::source::format::marker_line(lines[i]));
        let trimmed = segment::trim(line);
        dotenv_reading::lemma_trimmed(line);
        if trimmed.len() == 0 || trimmed[0] == '#' {
            let next = dotenv::ReadModel { pending: state.pending.push(line), ..state };
            assert forall|j: int|
                0 <= j < next.pending.len() implies !crate::source::format::marker_line(
                #[trigger] next.pending[j],
            ) by {
                if j < state.pending.len() {
                    assert(next.pending[j] == state.pending[j]);
                }
            }
            lemma_lines_are_quiet(lines, i + 1, trailing, next);
        } else {
            reveal_strlit("export ");
            let exported = text::starts_with(trimmed, "export "@);
            let assignment = if exported {
                segment::trim_start(trimmed.skip("export "@.len() as int))
            } else {
                trimmed
            };
            if exported {
                dotenv_reading::lemma_tail(trimmed, "export "@.len() as int);
            }
            let n = segment::before(assignment, '=') as int;
            segment::lemma_before(assignment, '=');
            let key = assignment.take(n);
            let raw = assignment.skip(n + 1);
            dotenv_reading::lemma_tail(assignment, n + 1);
            let remaining = lines.skip(i + 1);
            assert forall|j: int| 0 <= j < remaining.len() implies !(
            #[trigger] remaining[j]).contains('\n') && !crate::source::format::marker_line(
                remaining[j],
            ) by {
                assert(remaining[j] == lines[i + 1 + j]);
            }
            lemma_value_is_quiet(raw, remaining);
            let v = dotenv::value_of(raw, remaining)->Ok_0;
            let entry = (key, node::Tree::Scalar(node::ScalarModel::String(v.value)));
            let style = layout::DotenvModel {
                key,
                exported,
                quote: v.quote,
                leading: state.pending,
                inline_comment: v.comment,
            };
            let next = dotenv::ReadModel {
                values: state.values.push(entry),
                layouts: state.layouts.push(style),
                pending: Seq::empty(),
            };
            assert(dotenv_document::string_of(entry.1) == v.value);
            assert forall|j: int| 0 <= j < next.values.len() implies quiet(
                (#[trigger] next.layouts[j]).leading,
            ) && (next.layouts[j].quote == QuoteStyle::Single ==> quiet_value(
                dotenv_document::string_of(next.values[j].1),
            )) by {
                if j < state.values.len() {
                    assert(next.values[j] == state.values[j]);
                    assert(next.layouts[j] == state.layouts[j]);
                }
            }
            lemma_lines_are_quiet(lines, i + 1 + v.consumed, trailing, next);
        }
    }
}

/// The lines of an entry that was read from quiet lines.
proof fn lemma_entry_is_quiet(key: Seq<char>, value: Seq<char>, style: layout::DotenvModel)
    requires
        dotenv_document::writable_entry(
            (key, node::Tree::Scalar(node::ScalarModel::String(value))),
            style,
        ),
        dotenv_document::restyled_entry(value, style) == style,
        quiet(style.leading),
        style.quote == QuoteStyle::Single ==> quiet_value(value),
    ensures
        quiet(dotenv_document::entry_lines(key, value, style)),
{
    let asked = dotenv::asked_style(value, style);
    let suffix = dotenv_value::note_suffix(style.inline_comment);
    let rendered = dotenv::rendered_value(value, asked);
    let raw = rendered + suffix;
    let front = dotenv_document::lead(key, style.exported);
    let t = dotenv_document::assignment_text(key, value, style);
    assert(t =~= front + raw);
    dotenv_document::lemma_lead_begins(key, style.exported);
    dotenv_document::lemma_split_prepend(front, raw);
    dotenv_document::lemma_terminated_split(raw);
    let parts = segment::split(t, '\n');
    let pieces = segment::split(raw, '\n');
    assert(parts =~= seq![front + pieces[0]] + pieces.skip(1));
    assert forall|i: int| 0 <= i < parts.len() implies !crate::source::format::marker_line(
        #[trigger] parts[i],
    ) by {
        if i == 0 {
            let line = front + pieces[0];
            assert(line[0] == front[0]);
            reveal_strlit("<<<<<<< ");
            reveal_strlit(">>>>>>> ");
            reveal_strlit("=======");
            let p = |c: char| crate::source::format::marker_lead(c);
            assert(!p(line[0]));
            assert(segment::trim_start_by(line, p) == line);
            if text::starts_with(line, "<<<<<<< "@) {
                assert(line.subrange(0, 8)[0] == '<');
            }
            if text::starts_with(line, ">>>>>>> "@) {
                assert(line.subrange(0, 8)[0] == '>');
            }
            if line == "======="@ {
                assert("======="@[0] == '=');
            }
        } else {
            assert(parts[i] == pieces[i]);
            assert(raw.contains('\n')) by {
                if !raw.contains('\n') {
                    segment::lemma_before(raw, '\n');
                    assert(pieces =~= seq![raw]);
                }
            }
            dotenv_document::lemma_broken_value(value, asked, style.inline_comment);
            assert(style.quote == QuoteStyle::Single);
            lemma_piece_is_quiet(value, style.inline_comment, i);
            assert(raw =~= seq!['\''] + value + seq!['\''] + suffix);
        }
    }
    let all = dotenv_document::entry_lines(key, value, style);
    assert forall|i: int| 0 <= i < all.len() implies !crate::source::format::marker_line(
        #[trigger] all[i],
    ) by {
        if i < style.leading.len() {
            assert(all[i] == style.leading[i]);
        } else {
            assert(all[i] == parts[i - style.leading.len()]);
        }
    }
}

/// The lines behind the first of a value between single quotes.
proof fn lemma_piece_is_quiet(value: Seq<char>, comment: Option<Seq<char>>, i: int)
    requires
        quiet_value(value),
        dotenv_value::inline_option(comment),
        1 <= i < segment::split(
            seq!['\''] + value + seq!['\''] + dotenv_value::note_suffix(comment),
            '\n',
        ).len(),
    ensures
        !crate::source::format::marker_line(
            segment::split(
                seq!['\''] + value + seq!['\''] + dotenv_value::note_suffix(comment),
                '\n',
            )[i],
        ),
{
    let suffix = dotenv_value::note_suffix(comment);
    let quote = seq!['\''];
    let end = quote + suffix;
    dotenv_document::lemma_suffix_is_unbroken(comment);
    assert(!end.contains('\n')) by {
        if end.contains('\n') {
            let k = choose|k: int| 0 <= k < end.len() && end[k] == '\n';
            assert(suffix[k - 1] == '\n');
        }
    }
    let w = segment::split(value, '\n');
    segment::lemma_split_append(value, end, '\n');
    let closed = segment::split(value + end, '\n');
    assert(closed == w.drop_last().push(w.last() + end));
    dotenv_document::lemma_split_prepend(quote, value + end);
    assert(quote + (value + end) =~= quote + value + quote + suffix);
    let all = segment::split(quote + value + quote + suffix, '\n');
    assert(all =~= seq![quote + closed[0]] + closed.skip(1));
    assert(all[i] == closed[i]);
    if i < w.len() - 1 {
        assert(closed[i] == w[i]);
    } else {
        lemma_closed_is_quiet(w.last(), suffix);
        assert(w.last() + end =~= w.last() + quote + suffix);
    }
}

proof fn lemma_all_quiet(
    values: Seq<(Seq<char>, node::Tree)>,
    layouts: Seq<layout::DotenvModel>,
    n: int,
)
    requires
        dotenv_document::writable_entries(values, layouts),
        dotenv_reading::kept_styles(values, layouts),
        quiet_entries(values, layouts),
        0 <= n <= values.len(),
    ensures
        quiet(dotenv_document::all_lines(values.take(n), layouts)),
    decreases n,
{
    if n > 0 {
        lemma_all_quiet(values, layouts, n - 1);
        let part = values.take(n);
        assert(part.drop_last() =~= values.take(n - 1));
        let entry = values[n - 1];
        let style = layouts[n - 1];
        assert(part[n - 1] == entry);
        assert(dotenv_document::writable_entry(entry, style));
        let value = dotenv_document::string_of(entry.1);
        assert(entry == (entry.0, node::Tree::Scalar(node::ScalarModel::String(value))));
        assert(dotenv_document::restyled_entry(value, style) == style);
        lemma_entry_is_quiet(entry.0, value, style);
        let before = dotenv_document::all_lines(values.take(n - 1), layouts);
        let own = dotenv_document::entry_lines(entry.0, value, style);
        let all = dotenv_document::all_lines(part, layouts);
        assert(all =~= before + own);
        assert forall|i: int| 0 <= i < all.len() implies !crate::source::format::marker_line(
            #[trigger] all[i],
        ) by {
            if i < before.len() {
                assert(all[i] == before[i]);
            } else {
                assert(all[i] == own[i - before.len()]);
            }
        }
    }
}

proof fn lemma_empty_is_quiet()
    ensures
        !crate::source::format::marker_line(Seq::empty()),
{
    reveal_strlit("<<<<<<< ");
    reveal_strlit(">>>>>>> ");
    reveal_strlit("=======");
    let none = Seq::<char>::empty();
    let p = |c: char| crate::source::format::marker_lead(c);
    assert(segment::trim_start_by(none, p) == none);
    assert("======="@.len() == 7);
}

/// Without carriage returns the lines of a text are the pieces between its line feeds,
/// but for a last empty one.
proof fn lemma_lines_and_pieces(s: Seq<char>)
    requires
        !s.contains('\r'),
    ensures
        segment::split(s, '\n') == segment::lines(s) || segment::split(s, '\n') == segment::lines(
            s,
        ).push(Seq::empty()),
    decreases s.len(),
{
    let n = segment::before(s, '\n') as int;
    segment::lemma_before(s, '\n');
    let none = Seq::<Seq<char>>::empty();
    if s.len() == 0 {
        assert(s =~= Seq::<char>::empty());
        assert(segment::split(s, '\n') =~= none.push(Seq::empty()));
    } else if n >= s.len() {
        assert(segment::split(s, '\n') =~= seq![s]);
    } else {
        let rest = s.skip(n + 1);
        let head = s.take(n);
        assert(!rest.contains('\r')) by {
            if rest.contains('\r') {
                let k = choose|k: int| 0 <= k < rest.len() && rest[k] == '\r';
                assert(s[n + 1 + k] == '\r');
            }
        }
        lemma_lines_and_pieces(rest);
        if head.len() > 0 && head.last() == '\r' {
            assert(s[n - 1] == '\r');
            assert(s.contains('\r'));
        }
        assert(segment::strip_return(head) == head);
        let (a, b) = (segment::split(rest, '\n'), segment::lines(rest));
        assert(segment::split(s, '\n') =~= seq![head] + a);
        assert(segment::lines(s) =~= seq![head] + b);
        if a == b.push(Seq::empty()) {
            assert(segment::split(s, '\n') =~= segment::lines(s).push(Seq::empty()));
        }
    }
}

proof fn lemma_quiet_text(s: Seq<char>)
    requires
        !s.contains('\r'),
    ensures
        !crate::source::format::has_markers(s) <==> quiet(segment::split(s, '\n')),
{
    let (a, b) = (segment::split(s, '\n'), segment::lines(s));
    lemma_lines_and_pieces(s);
    lemma_empty_is_quiet();
    if quiet(a) {
        assert forall|i: int| 0 <= i < b.len() implies !crate::source::format::marker_line(
            #[trigger] b[i],
        ) by {
            assert(a[i] == b[i]);
        }
    }
    if !crate::source::format::has_markers(s) {
        assert forall|i: int| 0 <= i < a.len() implies !crate::source::format::marker_line(
            #[trigger] a[i],
        ) by {
            if i < b.len() {
                assert(a[i] == b[i]);
            }
        }
    }
}

proof fn lemma_return_has_its_byte(s: Seq<char>)
    requires
        s.contains('\r'),
    ensures
        vstd::utf8::encode_utf8(s).contains(13),
    decreases s.len(),
{
    let all = vstd::utf8::encode_utf8(s);
    let first = vstd::utf8::encode_scalar(s[0] as u32);
    let rest = vstd::utf8::encode_utf8(s.drop_first());
    assert(all =~= first + rest);
    if s[0] == '\r' {
        assert(first[0] == 13u8) by {
            let c: u32 = 13;
            assert(c as u8 & 0x7f == 13u8) by (bit_vector)
                requires
                    c == 13,
            ;
        }
        assert(all[0] == 13u8);
    } else {
        let k = choose|k: int| 0 <= k < s.len() && s[k] == '\r';
        assert(s.drop_first()[k - 1] == '\r');
        lemma_return_has_its_byte(s.drop_first());
        let j = choose|j: int| 0 <= j < rest.len() && rest[j] == 13u8;
        assert(all[first.len() + j] == 13u8);
    }
}

/// Law: reading the bytes of a dotenv file without carriage returns, writing the document
/// and reading the bytes again gives the same document, in every value, style, comment
/// and line. What was read without conflict markers is written without any.
pub proof fn law_dotenv_file_is_read_back(
    input: Seq<u8>,
    raws: Result<Seq<node::Tree>, Seq<char>>,
    again: Result<Seq<node::Tree>, Seq<char>>,
)
    requires
        crate::source::format::parsed(SourceFormat::Dotenv, input, raws) is Ok,
        !input.contains(13),
    ensures
        ({
            let d = crate::source::format::parsed(SourceFormat::Dotenv, input, raws)->Ok_0;
            crate::source::format::generated(d) matches Ok(bytes) && crate::source::format::parsed(
                SourceFormat::Dotenv,
                bytes,
                again,
            ) == Ok::<document::DocumentModel, document::SourceFault>(d)
        }),
{
    let s = vstd::utf8::decode_utf8(input);
    let d = dotenv::parsed(s)->Ok_0;
    vstd::utf8::decode_utf8_encode_utf8(input);
    if s.contains('\r') {
        lemma_return_has_its_byte(s);
    }
    dotenv_reading::law_plain_text_is_read_back(s);
    dotenv_reading::lemma_read_is_writable(s);
    dotenv_reading::lemma_plain_text_is_written(s);
    let t = dotenv::generated_text(d)->Ok_0;
    let whole = d.layout.line_ending.on(t);
    dotenv_document::lemma_unix_is_kept(t);
    assert(whole == t);
    vstd::utf8::encode_utf8_valid_utf8(t);
    vstd::utf8::encode_utf8_decode_utf8(t);
    lemma_quiet_text(s);
    lemma_quiet_text(t);
    let lines = segment::split(s, '\n');
    dotenv_document::lemma_terminated_split(s);
    let start = dotenv::ReadModel {
        values: Seq::empty(),
        layouts: Seq::empty(),
        pending: Seq::empty(),
    };
    let trailing = s.len() > 0 && s.last() == '\n';
    lemma_lines_are_quiet(lines, 0, trailing, start);
    let values = d.root->Mapping_0;
    assert(values.take(values.len() as int) =~= values);
    lemma_all_quiet(values, d.layout.dotenv, values.len() as int);
    dotenv_document::lemma_text_lines(d);
    lemma_empty_is_quiet();
    let own = dotenv_document::all_lines(values, d.layout.dotenv);
    let notes = d.layout.preamble_comments;
    let found = segment::split(t, '\n');
    assert forall|i: int| 0 <= i < found.len() implies !crate::source::format::marker_line(
        #[trigger] found[i],
    ) by {
        if i < own.len() {
            assert(found[i] == own[i]);
        } else if i < own.len() + notes.len() {
            assert(found[i] == notes[i - own.len()]);
        }
    }
}

} // verus!
