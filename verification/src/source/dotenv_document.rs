//! Dotenv documents are read back as they were written.

use vstd::prelude::*;

use crate::config::SourceFormat;
use crate::segment;
use crate::source::document;
use crate::source::dotenv;
use crate::source::dotenv_value;
use crate::source::layout;
use crate::source::node;
use crate::source::{LineEnding, QuoteStyle};
use crate::text;

verus! {

/// A line that holds no assignment: blank, or a comment.
pub open spec fn note_line(s: Seq<char>) -> bool {
    &&& !s.contains('\n')
    &&& segment::trim(s).len() == 0 || segment::trim(s)[0] == '#'
}

pub open spec fn note_lines(lines: Seq<Seq<char>>) -> bool {
    forall|i: int| 0 <= i < lines.len() ==> note_line(#[trigger] lines[i])
}

/// A value that can be written in the given style. Without quotes it keeps to one
/// line; between single quotes its first line, if there are more, does not end in
/// space.
pub open spec fn writable_value(value: Seq<char>, style: QuoteStyle) -> bool {
    match style {
        QuoteStyle::Unquoted => !value.contains('\n'),
        QuoteStyle::Single => {
            let n = segment::before(value, '\n') as int;
            n >= value.len() || n == 0 || !text::white(value[n - 1])
        },
        QuoteStyle::Double => true,
    }
}

pub open spec fn writable_entry(entry: (Seq<char>, node::Tree), style: layout::DotenvModel) -> bool {
    &&& dotenv::key_name(entry.0)
    &&& style.key == entry.0
    &&& note_lines(style.leading)
    &&& dotenv_value::inline_option(style.inline_comment)
    &&& entry.1 matches node::Tree::Scalar(node::ScalarModel::String(value)) && writable_value(
        value,
        dotenv_value::written_style(value, dotenv::asked_style(value, style)),
    )
}

/// The entries of a document as the reader makes them: with distinct keys, and with
/// one layout each, in the same order.
pub open spec fn writable_entries(
    values: Seq<(Seq<char>, node::Tree)>,
    layouts: Seq<layout::DotenvModel>,
) -> bool {
    &&& node::keys(values).no_duplicates()
    &&& layouts.len() == values.len()
    &&& forall|i: int|
        0 <= i < values.len() ==> writable_entry(#[trigger] values[i], layouts[i])
}

/// A dotenv document as the reader makes it.
pub open spec fn writable(d: document::DocumentModel) -> bool {
    &&& d.format == SourceFormat::Dotenv
    &&& d.root matches node::Tree::Mapping(values) && writable_entries(values, d.layout.dotenv)
        && values.len() + d.layout.preamble_comments.len() > 0
    &&& note_lines(d.layout.preamble_comments)
    &&& d.layout.template is None
}

/// A text fits the line ending and the end of a layout.
pub open spec fn fits(s: Seq<char>, l: layout::LayoutModel) -> bool {
    &&& !text::contains(s, seq!['\r', '\n'])
    &&& l.trailing_newline <==> s.len() > 0 && s.last() == '\n'
    &&& l.line_ending == LineEnding::CrLf ==> s.contains('\n')
}

/// The value of an entry.
pub open spec fn string_of(t: node::Tree) -> Seq<char> {
    match t {
        node::Tree::Scalar(node::ScalarModel::String(value)) => value,
        _ => Seq::empty(),
    }
}

/// A layout with the style in which its value is written.
pub open spec fn restyled_entry(value: Seq<char>, style: layout::DotenvModel) -> layout::DotenvModel {
    layout::DotenvModel {
        quote: dotenv_value::written_style(value, dotenv::asked_style(value, style)),
        ..style
    }
}

pub open spec fn restyled(
    values: Seq<(Seq<char>, node::Tree)>,
    layouts: Seq<layout::DotenvModel>,
) -> Seq<layout::DotenvModel> {
    Seq::new(layouts.len(), |i: int| restyled_entry(string_of(values[i].1), layouts[i]))
}

/// A document with the styles in which its values are written.
pub open spec fn restyled_document(d: document::DocumentModel) -> document::DocumentModel {
    match d.root {
        node::Tree::Mapping(values) => document::DocumentModel {
            layout: layout::LayoutModel { dotenv: restyled(values, d.layout.dotenv), ..d.layout },
            ..d
        },
        _ => d,
    }
}

/// An assignment as it is written, without the lines before it.
pub open spec fn assignment_text(
    key: Seq<char>,
    value: Seq<char>,
    style: layout::DotenvModel,
) -> Seq<char> {
    (if style.exported {
        "export "@
    } else {
        Seq::empty()
    }) + key + seq!['='] + (dotenv::rendered_value(value, dotenv::asked_style(value, style))
        + dotenv_value::note_suffix(style.inline_comment))
}

/// The lines of an entry.
pub open spec fn entry_lines(
    key: Seq<char>,
    value: Seq<char>,
    style: layout::DotenvModel,
) -> Seq<Seq<char>> {
    style.leading + segment::split(assignment_text(key, value, style), '\n')
}

/// The lines of all entries.
pub open spec fn all_lines(
    values: Seq<(Seq<char>, node::Tree)>,
    layouts: Seq<layout::DotenvModel>,
) -> Seq<Seq<char>>
    decreases values.len(),
{
    if values.len() == 0 {
        Seq::empty()
    } else {
        let n = values.len() - 1;
        all_lines(values.drop_last(), layouts) + entry_lines(
            values[n].0,
            string_of(values[n].1),
            layouts[n],
        )
    }
}

pub open spec fn unbroken(lines: Seq<Seq<char>>) -> bool {
    forall|i: int| 0 <= i < lines.len() ==> !(#[trigger] lines[i]).contains('\n')
}

pub proof fn lemma_terminated_add(a: Seq<Seq<char>>, b: Seq<Seq<char>>)
    ensures
        dotenv::terminated(a + b) == dotenv::terminated(a) + dotenv::terminated(b),
    decreases b.len(),
{
    if b.len() == 0 {
        assert(a + b =~= a);
        assert(dotenv::terminated(a) + dotenv::terminated(b) =~= dotenv::terminated(a));
    } else {
        lemma_terminated_add(a, b.drop_last());
        assert((a + b).drop_last() =~= a + b.drop_last());
        assert((a + b).last() == b.last());
        assert(dotenv::terminated(a + b) =~= dotenv::terminated(a) + dotenv::terminated(b));
    }
}

/// The pieces of a text, each on its line, are the text.
pub proof fn lemma_terminated_split(s: Seq<char>)
    ensures
        dotenv::terminated(segment::split(s, '\n')) == s.push('\n'),
        unbroken(segment::split(s, '\n')),
        segment::split(s, '\n').len() > 0,
        segment::split(s, '\n')[0] == s.take(segment::before(s, '\n') as int),
    decreases s.len(),
{
    let n = segment::before(s, '\n') as int;
    segment::lemma_before(s, '\n');
    let head = s.take(n);
    assert(!head.contains('\n')) by {
        if head.contains('\n') {
            let k = choose|k: int| 0 <= k < head.len() && head[k] == '\n';
            assert(s[k] == '\n');
        }
    }
    reveal_with_fuel(dotenv::terminated, 2);
    assert(seq![head].drop_last() =~= Seq::<Seq<char>>::empty());
    if n >= s.len() {
        assert(head =~= s);
        assert(segment::split(s, '\n') =~= seq![s]);
        assert(dotenv::terminated(seq![s]) =~= s.push('\n'));
    } else {
        let rest = s.skip(n + 1);
        lemma_terminated_split(rest);
        let tail = segment::split(rest, '\n');
        assert(segment::split(s, '\n') =~= seq![head] + tail);
        lemma_terminated_add(seq![head], tail);
        assert(dotenv::terminated(seq![head]) =~= head.push('\n'));
        assert(head.push('\n') + rest.push('\n') =~= s.push('\n'));
        assert forall|i: int| 0 <= i < segment::split(s, '\n').len() implies !(
        #[trigger] segment::split(s, '\n')[i]).contains('\n') by {
            if i > 0 {
                assert(segment::split(s, '\n')[i] == tail[i - 1]);
            }
        }
    }
}

/// Lines are found again in the text that they make.
proof fn lemma_split_terminated(lines: Seq<Seq<char>>)
    requires
        unbroken(lines),
    ensures
        segment::split(dotenv::terminated(lines), '\n') == lines.push(Seq::empty()),
        lines.len() > 0 ==> segment::split(dotenv::terminated(lines).drop_last(), '\n') == lines,
    decreases lines.len(),
{
    let none = Seq::<char>::empty();
    if lines.len() == 0 {
        assert(segment::split(none, '\n') =~= seq![none]);
        assert(lines.push(none) =~= seq![none]);
    } else {
        let head = lines.drop_last();
        assert(unbroken(head)) by {
            assert forall|i: int| 0 <= i < head.len() implies !(#[trigger] head[i]).contains(
                '\n',
            ) by {
                assert(head[i] == lines[i]);
            }
        }
        lemma_split_terminated(head);
        let last = lines.last();
        assert(lines[lines.len() - 1] == last);
        let s = dotenv::terminated(head);
        segment::lemma_split_append(s, last, '\n');
        assert(none + last =~= last);
        assert(head.push(none).drop_last() =~= head);
        assert(head.push(last) =~= lines);
        assert(segment::split(s + last, '\n') == lines);
        assert(dotenv::terminated(lines).drop_last() =~= s + last);
        segment::lemma_split_piece(s + last, none, '\n');
        assert((s + last).push('\n') + none =~= dotenv::terminated(lines));
    }
}

/// Text before a text goes to the start of its first line.
pub proof fn lemma_split_prepend(head: Seq<char>, s: Seq<char>)
    requires
        !head.contains('\n'),
    ensures
        segment::split(head + s, '\n') == seq![head + segment::split(s, '\n')[0]] + segment::split(
            s,
            '\n',
        ).skip(1),
{
    let whole = head + s;
    let n = segment::before(s, '\n') as int;
    let m = head.len() + n;
    segment::lemma_before(s, '\n');
    assert forall|j: int| 0 <= j < m implies whole[j] != '\n' by {
        if j < head.len() {
            assert(whole[j] == head[j]);
        } else {
            assert(whole[j] == s[j - head.len()]);
        }
    }
    if n < s.len() {
        assert(whole[m] == s[n]);
    }
    segment::lemma_before_is(whole, '\n', m);
    let parts = segment::split(s, '\n');
    if n >= s.len() {
        assert(parts =~= seq![s]);
        assert(segment::split(whole, '\n') =~= seq![whole]);
        assert(parts.skip(1) =~= Seq::<Seq<char>>::empty());
        assert(segment::split(whole, '\n') =~= seq![head + parts[0]] + parts.skip(1));
    } else {
        assert(whole.take(m) =~= head + s.take(n));
        assert(whole.skip(m + 1) =~= s.skip(n + 1));
        assert(parts =~= seq![s.take(n)] + segment::split(s.skip(n + 1), '\n'));
        assert(parts.skip(1) =~= segment::split(s.skip(n + 1), '\n'));
    }
}

/// A quoted text that goes over several lines is read line after line.
proof fn lemma_quoted_lines(
    head: Seq<char>,
    more: Seq<char>,
    remaining: Seq<Seq<char>>,
    quote: char,
    style: QuoteStyle,
    consumed: nat,
)
    requires
        quote != '\n',
        ({
            let whole = head.push('\n') + more;
            let parts = segment::split(more, '\n');
            let end = dotenv::quote_end(whole, quote, 0, false);
            &&& end is Some
            &&& !whole.skip(end->Some_0 + 1).contains('\n')
            &&& consumed + parts.len() <= remaining.len()
            &&& remaining.subrange(consumed as int, (consumed + parts.len()) as int) == parts
        }),
    ensures
        dotenv::quoted_value(head, remaining, quote, style, consumed) == dotenv::quoted_value(
            head.push('\n') + more,
            remaining,
            quote,
            style,
            consumed + segment::split(more, '\n').len(),
        ),
    decreases more.len(),
{
    let whole = head.push('\n') + more;
    let parts = segment::split(more, '\n');
    let end = dotenv::quote_end(whole, quote, 0, false)->Some_0;
    dotenv_value::lemma_end_stays(whole, Seq::empty(), quote, 0, false);
    lemma_terminated_split(more);
    lemma_end_is_behind(whole, head.len() as int, end);
    dotenv_value::lemma_no_end_before(whole, quote, 0, false, head.len() as int);
    assert(whole.take(head.len() as int) =~= head);
    let first = parts[0];
    assert(remaining[consumed as int] == remaining.subrange(
        consumed as int,
        (consumed + parts.len()) as int,
    )[0]);
    let next = head.push('\n') + first;
    assert(dotenv::quoted_value(head, remaining, quote, style, consumed) == dotenv::quoted_value(
        next,
        remaining,
        quote,
        style,
        consumed + 1,
    ));
    let n = segment::before(more, '\n') as int;
    segment::lemma_before(more, '\n');
    if n >= more.len() {
        assert(first =~= more);
        assert(parts =~= seq![more]);
        assert(next =~= whole);
    } else {
        let rest = more.skip(n + 1);
        assert(first =~= more.take(n));
        assert(next.push('\n') + rest =~= whole);
        let tail = segment::split(rest, '\n');
        assert(parts =~= seq![first] + tail);
        assert(remaining.subrange(
            consumed as int + 1,
            (consumed + 1 + tail.len()) as int,
        ) =~= tail) by {
            assert forall|i: int| 0 <= i < tail.len() implies remaining[consumed + 1 + i]
                == tail[i] by {
                assert(remaining.subrange(
                    consumed as int,
                    (consumed + parts.len()) as int,
                )[i + 1] == parts[i + 1]);
            }
        }
        lemma_quoted_lines(next, rest, remaining, quote, style, consumed + 1);
    }
}

/// A quote behind which no line ends stands behind every line end.
proof fn lemma_end_is_behind(s: Seq<char>, at: int, end: int)
    requires
        0 <= at < s.len(),
        s[at] == '\n',
        0 <= end < s.len(),
        s[end] != '\n',
        !s.skip(end + 1).contains('\n'),
    ensures
        at < end,
{
    if end < at {
        let tail = s.skip(end + 1);
        assert(tail[at - end - 1] == '\n');
    }
}

/// A value is read back from the lines on which it was written.
proof fn lemma_value_lines(
    value: Seq<char>,
    preferred: QuoteStyle,
    comment: Option<Seq<char>>,
    remaining: Seq<Seq<char>>,
)
    requires
        dotenv_value::inline_option(comment),
        value.len() > 0 || comment is None || preferred != QuoteStyle::Unquoted,
        writable_value(value, dotenv_value::written_style(value, preferred)),
        ({
            let raw = dotenv::rendered_value(value, preferred) + dotenv_value::note_suffix(comment);
            let parts = segment::split(raw, '\n');
            &&& parts.len() - 1 <= remaining.len()
            &&& remaining.take(parts.len() - 1) == parts.skip(1)
        }),
    ensures
        ({
            let raw = dotenv::rendered_value(value, preferred) + dotenv_value::note_suffix(comment);
            let parts = segment::split(raw, '\n');
            &&& parts.len() > 0
            &&& dotenv::value_of(parts[0], remaining) == Ok::<
                dotenv::ValueModel,
                document::SourceFault,
            >(
                dotenv::ValueModel {
                    value,
                    quote: dotenv_value::written_style(value, preferred),
                    consumed: (parts.len() - 1) as nat,
                    comment,
                },
            )
            &&& parts[0].len() > 0 ==> !text::white(parts[0].last())
        }),
{
    let suffix = dotenv_value::note_suffix(comment);
    let rendered = dotenv::rendered_value(value, preferred);
    let raw = rendered + suffix;
    let parts = segment::split(raw, '\n');
    let n = segment::before(raw, '\n') as int;
    segment::lemma_before(raw, '\n');
    lemma_terminated_split(raw);
    dotenv_value::lemma_value_is_read_back(value, preferred, comment, remaining);
    lemma_value_ends(value, preferred, comment);
    if n >= raw.len() {
        assert(parts =~= seq![raw]);
    } else {
        lemma_suffix_is_unbroken(comment);
        assert(raw.contains('\n'));
        lemma_broken_value(value, preferred, comment);
        let joined = raw.skip(1);
        assert(raw[0] == '\'');
        assert(joined =~= value + seq!['\''] + suffix);
        dotenv_value::lemma_joined_value(
            value,
            preferred,
            comment,
            remaining,
            (parts.len() - 1) as nat,
        );
        let head = parts[0].skip(1);
        let more = raw.skip(n + 1);
        assert(head.push('\n') + more =~= joined);
        let tail = segment::split(more, '\n');
        assert(parts =~= seq![raw.take(n)] + tail);
        assert(parts.skip(1) =~= tail);
        assert(remaining.subrange(0, tail.len() as int) =~= tail) by {
            assert(remaining.take(parts.len() - 1) =~= remaining.subrange(0, tail.len() as int));
        }
        assert(joined.skip(value.len() as int + 1) =~= suffix);
        lemma_quoted_lines(head, more, remaining, '\'', QuoteStyle::Single, 0);
        dotenv_value::lemma_trim_start(parts[0]);
        assert(parts[0][0] == '\'');
        assert(!text::white('\''));
        let m = segment::before(value, '\n') as int;
        segment::lemma_before(value, '\n');
        assert(value.contains('\n'));
        assert forall|j: int| 0 <= j < m + 1 implies raw[j] != '\n' by {
            if j > 0 {
                assert(raw[j] == value[j - 1]);
            }
        }
        assert(raw[m + 1] == value[m]);
        segment::lemma_before_is(raw, '\n', m + 1);
        assert(n == m + 1);
        if m > 0 {
            assert(parts[0].last() == value[m - 1]);
        }
    }
}

pub proof fn lemma_suffix_is_unbroken(comment: Option<Seq<char>>)
    requires
        dotenv_value::inline_option(comment),
    ensures
        !dotenv_value::note_suffix(comment).contains('\n'),
{
    let suffix = dotenv_value::note_suffix(comment);
    if suffix.contains('\n') {
        let k = choose|k: int| 0 <= k < suffix.len() && suffix[k] == '\n';
        assert(comment->Some_0[k - 1] == '\n');
    }
}

/// What is written for a value does not end in space.
pub proof fn lemma_value_ends(value: Seq<char>, preferred: QuoteStyle, comment: Option<Seq<char>>)
    requires
        dotenv_value::inline_option(comment),
    ensures
        ({
            let raw = dotenv::rendered_value(value, preferred) + dotenv_value::note_suffix(comment);
            raw.len() > 0 ==> !text::white(raw.last())
        }),
{
    let suffix = dotenv_value::note_suffix(comment);
    let rendered = dotenv::rendered_value(value, preferred);
    let raw = rendered + suffix;
    assert(!text::white('\'') && !text::white('"'));
    match comment {
        Some(c) => {
            assert(raw.last() == c.last());
        },
        None => {
            assert(raw =~= rendered);
            if dotenv_value::written_style(value, preferred) == QuoteStyle::Unquoted
                && value.len() > 0 {
                dotenv_value::lemma_unquoted(value);
            }
        },
    }
}

/// Only between single quotes a value goes over several lines.
pub proof fn lemma_broken_value(value: Seq<char>, preferred: QuoteStyle, comment: Option<Seq<char>>)
    requires
        dotenv_value::inline_option(comment),
        writable_value(value, dotenv_value::written_style(value, preferred)),
        (dotenv::rendered_value(value, preferred) + dotenv_value::note_suffix(comment)).contains(
            '\n',
        ),
    ensures
        dotenv_value::written_style(value, preferred) == QuoteStyle::Single,
        value.contains('\n'),
{
    let suffix = dotenv_value::note_suffix(comment);
    let rendered = dotenv::rendered_value(value, preferred);
    let raw = rendered + suffix;
    lemma_suffix_is_unbroken(comment);
    let k = choose|k: int| 0 <= k < raw.len() && raw[k] == '\n';
    if k >= rendered.len() {
        assert(suffix[k - rendered.len()] == '\n');
    }
    assert(rendered[k] == '\n');
    match dotenv_value::written_style(value, preferred) {
        QuoteStyle::Unquoted => {
            assert(value[k] == '\n');
        },
        QuoteStyle::Single => {
            assert(value[k - 1] == '\n');
        },
        QuoteStyle::Double => {
            lemma_encoded_is_unbroken(value);
            assert(dotenv::encode(value)[k - 1] == '\n');
        },
    }
}

proof fn lemma_encoded_is_unbroken(s: Seq<char>)
    ensures
        !dotenv::encode(s).contains('\n'),
    decreases s.len(),
{
    if s.len() > 0 {
        lemma_encoded_is_unbroken(s.skip(1));
        let e = dotenv::encode(s);
        let head = dotenv::escape(s[0]);
        if e.contains('\n') {
            let k = choose|k: int| 0 <= k < e.len() && e[k] == '\n';
            if k >= head.len() {
                assert(dotenv::encode(s.skip(1))[k - head.len()] == '\n');
            }
        }
    }
}

/// Lines without assignments are kept for the entry behind them.
proof fn lemma_read_notes(
    lines: Seq<Seq<char>>,
    i: int,
    trailing: bool,
    state: dotenv::ReadModel,
    notes: Seq<Seq<char>>,
)
    requires
        note_lines(notes),
        0 <= i,
        i + notes.len() <= lines.len(),
        trailing ==> i + notes.len() < lines.len(),
        lines.subrange(i, i + notes.len()) == notes,
    ensures
        dotenv::read_lines(lines, i, trailing, state) == dotenv::read_lines(
            lines,
            i + notes.len(),
            trailing,
            dotenv::ReadModel { pending: state.pending + notes, ..state },
        ),
    decreases notes.len(),
{
    if notes.len() == 0 {
        assert(state.pending + notes =~= state.pending);
    } else {
        let first = notes[0];
        assert(lines[i] == lines.subrange(i, i + notes.len())[0]);
        assert(note_line(first));
        let next = dotenv::ReadModel { pending: state.pending.push(first), ..state };
        let rest = notes.skip(1);
        assert forall|j: int| 0 <= j < rest.len() implies note_line(#[trigger] rest[j]) by {
            assert(rest[j] == notes[j + 1]);
        }
        assert(lines.subrange(i + 1, i + 1 + rest.len()) =~= rest) by {
            assert forall|j: int| 0 <= j < rest.len() implies lines[i + 1 + j] == rest[j] by {
                assert(lines.subrange(i, i + notes.len())[j + 1] == notes[j + 1]);
            }
        }
        lemma_read_notes(lines, i + 1, trailing, next, rest);
        assert(state.pending.push(first) + rest =~= state.pending + notes);
    }
}

/// A key holds no space, no line end and no equals sign, and begins no comment.
proof fn lemma_key_characters(key: Seq<char>)
    requires
        dotenv::key_name(key),
    ensures
        forall|i: int|
            0 <= i < key.len() ==> (#[trigger] key[i]) != '=' && key[i] != ' ' && key[i] != '\n',
        !text::white(key[0]),
        key[0] != '#',
{
    assert forall|i: int| 0 <= i < key.len() implies (#[trigger] key[i]) != '=' && key[i] != ' '
        && key[i] != '\n' by {
        if i > 0 {
            assert(key[i] == '_' || text::alphanumeric(key[i]));
        }
    }
}

/// What stands before a value.
pub open spec fn lead(key: Seq<char>, exported: bool) -> Seq<char> {
    (if exported {
        "export "@
    } else {
        Seq::empty()
    }) + key + seq!['=']
}

/// What stands before a value begins with a letter or an underscore.
pub proof fn lemma_lead_begins(key: Seq<char>, exported: bool)
    requires
        dotenv::key_name(key),
    ensures
        lead(key, exported).len() > 0,
        !lead(key, exported).contains('\n'),
        ({
            let c = lead(key, exported)[0];
            c == '_' || text::alphanumeric(c)
        }),
{
    reveal_strlit("export ");
    let one = seq!['x'];
    assert(!text::white('x'));
    lemma_lead(key, exported, one);
    let front = lead(key, exported);
    if exported {
        assert(front[0] == 'e');
    } else {
        assert(front[0] == key[0]);
    }
}

proof fn lemma_lead(key: Seq<char>, exported: bool, raw: Seq<char>)
    requires
        dotenv::key_name(key),
        raw.len() > 0 ==> !text::white(raw.last()),
    ensures
        !lead(key, exported).contains('\n'),
        ({
            let line = lead(key, exported) + raw;
            let assignment = key + seq!['='] + raw;
            &&& segment::trim(line) == line
            &&& line.len() > 0
            &&& line[0] != '#'
            &&& text::starts_with(line, "export "@) == exported
            &&& exported ==> segment::trim_start(line.skip("export "@.len() as int)) == assignment
            &&& !exported ==> line == assignment
            &&& segment::before(assignment, '=') == key.len()
            &&& assignment.take(key.len() as int) == key
            &&& assignment.skip(key.len() as int + 1) == raw
        }),
{
    reveal_strlit("export ");
    lemma_key_characters(key);
    let front = lead(key, exported);
    let line = front + raw;
    let assignment = key + seq!['='] + raw;
    let word = "export "@;
    assert(word.len() == 7);
    if front.contains('\n') {
        let k = choose|k: int| 0 <= k < front.len() && front[k] == '\n';
        if exported {
            if k >= 7 && k < 7 + key.len() {
                assert(front[k] == key[k - 7]);
            }
        } else if k < key.len() {
            assert(front[k] == key[k]);
        }
    }
    assert(!text::white('='));
    assert(line.last() == if raw.len() > 0 {
        raw.last()
    } else {
        '='
    });
    dotenv_value::lemma_trim_start(line);
    dotenv_value::lemma_trim_end(line);
    if exported {
        assert(line[0] == 'e');
        assert(line.subrange(0, 7) =~= word);
        assert(line.skip(7) =~= assignment);
        dotenv_value::lemma_trim_start(assignment);
        assert(assignment[0] == key[0]);
    } else {
        assert(line =~= assignment);
        assert(line[0] == key[0]);
        if text::starts_with(line, word) {
            assert forall|j: int| 0 <= j < 7 implies line[j] == word[j] by {
                assert(line.subrange(0, 7)[j] == word[j]);
            }
            assert(line[6] == ' ');
            if key.len() > 6 {
                assert(line[6] == key[6]);
            } else {
                assert(line[key.len() as int] == '=');
                assert(word[key.len() as int] == '=');
            }
        }
    }
    assert forall|j: int| 0 <= j < key.len() implies assignment[j] != '=' by {
        assert(assignment[j] == key[j]);
    }
    assert(assignment[key.len() as int] == '=');
    segment::lemma_before_is(assignment, '=', key.len() as int);
    assert(assignment.take(key.len() as int) =~= key);
    assert(assignment.skip(key.len() as int + 1) =~= raw);
}

/// An assignment is read back from its lines.
proof fn lemma_read_assignment(
    lines: Seq<Seq<char>>,
    i: int,
    trailing: bool,
    state: dotenv::ReadModel,
    key: Seq<char>,
    value: Seq<char>,
    style: layout::DotenvModel,
)
    requires
        writable_entry(
            (key, node::Tree::Scalar(node::ScalarModel::String(value))),
            style,
        ),
        0 <= i,
        ({
            let parts = segment::split(assignment_text(key, value, style), '\n');
            &&& i + parts.len() <= lines.len()
            &&& lines.subrange(i, i + parts.len()) == parts
        }),
        !node::keys(state.values).contains(key),
        state.pending == style.leading,
    ensures
        dotenv::read_lines(lines, i, trailing, state) == dotenv::read_lines(
            lines,
            i + segment::split(assignment_text(key, value, style), '\n').len(),
            trailing,
            dotenv::ReadModel {
                values: state.values.push(
                    (key, node::Tree::Scalar(node::ScalarModel::String(value))),
                ),
                layouts: state.layouts.push(restyled_entry(value, style)),
                pending: Seq::empty(),
            },
        ),
{
    let asked = dotenv::asked_style(value, style);
    let raw = dotenv::rendered_value(value, asked) + dotenv_value::note_suffix(
        style.inline_comment,
    );
    let front = lead(key, style.exported);
    let t = assignment_text(key, value, style);
    assert(t =~= front + raw);
    let parts = segment::split(t, '\n');
    let pieces = segment::split(raw, '\n');
    lemma_value_ends(value, asked, style.inline_comment);
    lemma_lead(key, style.exported, raw);
    lemma_split_prepend(front, raw);
    lemma_terminated_split(raw);
    let remaining = lines.skip(i + 1);
    assert(parts.len() == pieces.len());
    assert(remaining.take(pieces.len() - 1) =~= pieces.skip(1)) by {
        assert forall|j: int| 0 <= j < pieces.len() - 1 implies remaining[j] == pieces[j + 1] by {
            assert(lines.subrange(i, i + parts.len())[j + 1] == parts[j + 1]);
            assert(parts[j + 1] == pieces.skip(1)[j]);
        }
    }
    lemma_value_lines(value, asked, style.inline_comment, remaining);
    let first = pieces[0];
    lemma_lead(key, style.exported, first);
    assert(lines[i] == lines.subrange(i, i + parts.len())[0]);
    assert(lines[i] == front + first);
}

/// The key of an entry finds its layout.
pub proof fn lemma_assignment(
    values: Seq<(Seq<char>, node::Tree)>,
    layouts: Seq<layout::DotenvModel>,
    i: int,
)
    requires
        writable_entries(values, layouts),
        0 <= i < values.len(),
    ensures
        layout::assignment_of(layouts, values[i].0) == Some(layouts[i]),
{
    assert forall|j: int| 0 <= j < i implies (#[trigger] layouts[j]).key != values[i].0 by {
        assert(writable_entry(values[j], layouts[j]));
        assert(node::keys(values)[j] != node::keys(values)[i]);
    }
    assert(writable_entry(values[i], layouts[i]));
    lemma_first_assignment(layouts, values[i].0, i);
}

proof fn lemma_first_assignment(layouts: Seq<layout::DotenvModel>, key: Seq<char>, i: int)
    requires
        0 <= i < layouts.len(),
        layouts[i].key == key,
        forall|j: int| 0 <= j < i ==> (#[trigger] layouts[j]).key != key,
    ensures
        layout::assignment_of(layouts, key) == Some(layouts[i]),
    decreases i,
{
    if i > 0 {
        assert(layouts[0].key != key);
        let rest = layouts.skip(1);
        assert forall|j: int| 0 <= j < i - 1 implies (#[trigger] rest[j]).key != key by {
            assert(rest[j] == layouts[j + 1]);
        }
        lemma_first_assignment(rest, key, i - 1);
    }
}

/// The lines of the entries make the text of the entries.
pub proof fn lemma_entries_text(
    values: Seq<(Seq<char>, node::Tree)>,
    layouts: Seq<layout::DotenvModel>,
    n: int,
)
    requires
        writable_entries(values, layouts),
        0 <= n <= values.len(),
    ensures
        dotenv::rendered_entries(values.take(n), layouts) == Some(
            dotenv::terminated(all_lines(values.take(n), layouts)),
        ),
        unbroken(all_lines(values.take(n), layouts)),
    decreases n,
{
    let part = values.take(n);
    if n > 0 {
        lemma_entries_text(values, layouts, n - 1);
        let head = values.take(n - 1);
        assert(part.drop_last() =~= head);
        let entry = values[n - 1];
        let style = layouts[n - 1];
        assert(part.last() == entry);
        assert(writable_entry(entry, style));
        lemma_assignment(values, layouts, n - 1);
        let value = string_of(entry.1);
        let before = all_lines(head, layouts);
        let own = entry_lines(entry.0, value, style);
        let t = assignment_text(entry.0, value, style);
        lemma_terminated_split(t);
        lemma_terminated_add(style.leading, segment::split(t, '\n'));
        lemma_terminated_add(before, own);
        assert(dotenv::rendered_entry(entry.0, value, Some(style)) =~= dotenv::terminated(own));
        let lines = before + own;
        assert forall|i: int| 0 <= i < lines.len() implies !(#[trigger] lines[i]).contains(
            '\n',
        ) by {
            if i < before.len() {
                assert(lines[i] == before[i]);
            } else if i < before.len() + style.leading.len() {
                assert(lines[i] == style.leading[i - before.len()]);
                assert(note_line(style.leading[i - before.len()]));
            } else {
                assert(lines[i] == segment::split(t, '\n')[i - before.len()
                    - style.leading.len()]);
            }
        }
        assert(node::scalar_of(entry.1) == Some(node::ScalarModel::String(value)));
    }
}

/// What has been read when the first entries have been.
pub open spec fn state_after(
    values: Seq<(Seq<char>, node::Tree)>,
    layouts: Seq<layout::DotenvModel>,
    n: int,
) -> dotenv::ReadModel {
    dotenv::ReadModel {
        values: values.take(n),
        layouts: restyled(values, layouts).take(n),
        pending: Seq::empty(),
    }
}

/// The first entries are read back from their lines.
proof fn lemma_read_entries(
    lines: Seq<Seq<char>>,
    trailing: bool,
    values: Seq<(Seq<char>, node::Tree)>,
    layouts: Seq<layout::DotenvModel>,
    n: int,
)
    requires
        writable_entries(values, layouts),
        0 <= n <= values.len(),
        ({
            let own = all_lines(values.take(n), layouts);
            &&& own.len() <= lines.len()
            &&& trailing ==> own.len() < lines.len()
            &&& lines.take(own.len() as int) == own
        }),
    ensures
        dotenv::read_lines(lines, 0, trailing, state_after(values, layouts, 0))
            == dotenv::read_lines(
            lines,
            all_lines(values.take(n), layouts).len() as int,
            trailing,
            state_after(values, layouts, n),
        ),
    decreases n,
{
    if n > 0 {
        let part = values.take(n);
        let head = values.take(n - 1);
        assert(part.drop_last() =~= head);
        let entry = values[n - 1];
        let style = layouts[n - 1];
        assert(part.last() == entry);
        assert(writable_entry(entry, style));
        let value = string_of(entry.1);
        let before = all_lines(head, layouts);
        let own = entry_lines(entry.0, value, style);
        let parts = segment::split(assignment_text(entry.0, value, style), '\n');
        let all = before + own;
        lemma_terminated_split(assignment_text(entry.0, value, style));
        assert(lines.take(before.len() as int) =~= before) by {
            assert forall|j: int| 0 <= j < before.len() implies lines[j] == before[j] by {
                assert(lines.take(all.len() as int)[j] == all[j]);
            }
        }
        lemma_read_entries(lines, trailing, values, layouts, n - 1);
        let i = before.len() as int;
        let state = state_after(values, layouts, n - 1);
        assert(lines.subrange(i, i + style.leading.len()) =~= style.leading) by {
            assert forall|j: int| 0 <= j < style.leading.len() implies lines[i + j]
                == style.leading[j] by {
                assert(lines.take(all.len() as int)[i + j] == all[i + j]);
            }
        }
        lemma_read_notes(lines, i, trailing, state, style.leading);
        let k = i + style.leading.len();
        assert(state.pending + style.leading =~= style.leading);
        let ready = dotenv::ReadModel { pending: style.leading, ..state };
        assert(lines.subrange(k, k + parts.len()) =~= parts) by {
            assert forall|j: int| 0 <= j < parts.len() implies lines[k + j] == parts[j] by {
                assert(lines.take(all.len() as int)[k + j] == all[k + j]);
            }
        }
        assert(!node::keys(ready.values).contains(entry.0)) by {
            if node::keys(head).contains(entry.0) {
                let j = choose|j: int| 0 <= j < head.len() && node::keys(head)[j] == entry.0;
                assert(node::keys(values)[j] != node::keys(values)[n - 1]);
            }
        }
        lemma_read_assignment(lines, k, trailing, ready, entry.0, value, style);
        let now = state_after(values, layouts, n);
        assert(head.push(entry) =~= values.take(n));
        assert(restyled(values, layouts).take(n - 1).push(restyled_entry(value, style))
            =~= restyled(values, layouts).take(n));
        assert(entry == (entry.0, node::Tree::Scalar(node::ScalarModel::String(value))));
        assert(k + parts.len() == all.len());
    }
}

/// A text without CR LF pairs is left as it is.
pub proof fn lemma_unix_is_kept(s: Seq<char>)
    requires
        !text::contains(s, seq!['\r', '\n']),
    ensures
        layout::unix_lines(s) == s,
    decreases s.len(),
{
    let pair = seq!['\r', '\n'];
    if s.len() > 0 {
        let rest = s.skip(1);
        assert(!text::occurs_at(s, pair, 0));
        assert(!text::contains(rest, pair)) by {
            if text::contains(rest, pair) {
                let i = choose|i: int| text::occurs_at(rest, pair, i);
                assert(s.subrange(i + 1, i + 3) =~= rest.subrange(i, i + 2));
                assert(text::occurs_at(s, pair, i + 1));
            }
        }
        lemma_unix_is_kept(rest);
        assert(seq![s[0]] + rest =~= s);
    }
}

/// Line feeds that were put as pairs become line feeds again.
proof fn lemma_pairs_become_feeds(s: Seq<char>)
    ensures
        layout::unix_lines(segment::replace(s, seq!['\n'], seq!['\r', '\n'])) == s,
        ({
            let out = segment::replace(s, seq!['\n'], seq!['\r', '\n']);
            out.len() > 0 ==> out[0] != '\n'
        }),
        s.contains('\n') ==> text::contains(
            segment::replace(s, seq!['\n'], seq!['\r', '\n']),
            seq!['\r', '\n'],
        ),
    decreases s.len(),
{
    let feed = seq!['\n'];
    let pair = seq!['\r', '\n'];
    let out = segment::replace(s, feed, pair);
    if s.len() > 0 {
        let rest = s.skip(1);
        lemma_pairs_become_feeds(rest);
        let tail = segment::replace(rest, feed, pair);
        assert(seq![s[0]] + rest =~= s);
        if s[0] == '\n' {
            assert(s.subrange(0, 1) =~= feed);
            assert(out =~= pair + tail);
            assert(out.subrange(0, 2) =~= pair);
            assert(text::occurs_at(out, pair, 0));
            assert(out.skip(2) =~= tail);
        } else {
            if text::occurs_at(s, feed, 0) {
                assert(s.subrange(0, 1)[0] == '\n');
            }
            assert(out =~= seq![s[0]] + tail);
            assert(out.skip(1) =~= tail);
            if text::occurs_at(out, pair, 0) {
                assert(out.subrange(0, 2)[1] == '\n');
                assert(out[1] == tail[0]);
            }
            if s.contains('\n') {
                let k = choose|k: int| 0 <= k < s.len() && s[k] == '\n';
                assert(rest[k - 1] == '\n');
                let i = choose|i: int| text::occurs_at(tail, pair, i);
                assert(out.subrange(i + 1, i + 3) =~= tail.subrange(i, i + 2));
                assert(text::occurs_at(out, pair, i + 1));
            }
        }
    }
}

/// A text with a line ending put on it has that line ending, and is the text without.
proof fn lemma_line_ending(s: Seq<char>, l: layout::LayoutModel)
    requires
        fits(s, l),
    ensures
        layout::unix_lines(l.line_ending.on(s)) == s,
        LineEnding::of(l.line_ending.on(s)) == l.line_ending,
{
    lemma_unix_is_kept(s);
    if l.line_ending == LineEnding::CrLf {
        lemma_pairs_become_feeds(s);
    }
}

/// The lines of the text of a document: those of its entries, then its last notes, and
/// an empty piece behind a last line feed.
pub proof fn lemma_text_lines(d: document::DocumentModel)
    requires
        writable(d),
        dotenv::generated_text(d) is Ok,
    ensures
        ({
            let lines = all_lines(d.root->Mapping_0, d.layout.dotenv) + d.layout.preamble_comments;
            segment::split(dotenv::generated_text(d)->Ok_0, '\n') == if d.layout.trailing_newline {
                lines.push(Seq::empty())
            } else {
                lines
            }
        }),
{
    let s = dotenv::generated_text(d)->Ok_0;
    let values = d.root->Mapping_0;
    let layouts = d.layout.dotenv;
    let notes = d.layout.preamble_comments;
    let count = values.len() as int;
    assert(values.take(count) =~= values);
    lemma_entries_text(values, layouts, count);
    let own = all_lines(values, layouts);
    let lines = own + notes;
    lemma_terminated_add(own, notes);
    let whole = dotenv::terminated(lines);
    assert(unbroken(lines)) by {
        assert forall|i: int| 0 <= i < lines.len() implies !(#[trigger] lines[i]).contains(
            '\n',
        ) by {
            if i < own.len() {
                assert(lines[i] == own[i]);
            } else {
                assert(lines[i] == notes[i - own.len()]);
                assert(note_line(notes[i - own.len()]));
            }
        }
    }
    lemma_has_lines(values, layouts);
    assert(lines.len() > 0);
    lemma_split_terminated(lines);
    assert(whole.len() > 0);
    assert(s == if d.layout.trailing_newline {
        whole
    } else {
        whole.drop_last()
    });
}

/// Law: a document that is as the reader makes it, and whose text fits its layout, is
/// read back from that text: the same values under the same keys in the same order,
/// the same comments, and the same layout, with each value in the style in which it
/// was written.
pub proof fn law_written_document_is_read_back(d: document::DocumentModel)
    requires
        writable(d),
        dotenv::generated_text(d) matches Ok(s) && fits(s, d.layout),
    ensures
        dotenv::parsed(d.layout.line_ending.on(dotenv::generated_text(d)->Ok_0)) == Ok::<
            document::DocumentModel,
            document::SourceFault,
        >(restyled_document(d)),
{
    let s = dotenv::generated_text(d)->Ok_0;
    let values = d.root->Mapping_0;
    let layouts = d.layout.dotenv;
    let notes = d.layout.preamble_comments;
    let trailing = d.layout.trailing_newline;
    let count = values.len() as int;
    assert(values.take(count) =~= values);
    lemma_text_lines(d);
    let own = all_lines(values, layouts);
    let lines = own + notes;
    let found = segment::split(s, '\n');
    lemma_line_ending(s, d.layout);
    assert(found.take(own.len() as int) =~= own);
    lemma_read_entries(found, trailing, values, layouts, count);
    let start = state_after(values, layouts, 0);
    assert(start.values =~= Seq::empty());
    assert(start.layouts =~= Seq::empty());
    let state = state_after(values, layouts, count);
    let n = own.len() as int;
    assert(found.subrange(n, n + notes.len()) =~= notes);
    lemma_read_notes(found, n, trailing, state, notes);
    assert(state.pending + notes =~= notes);
    assert(restyled(values, layouts).take(count) =~= restyled(values, layouts));
}

/// Every entry has a line.
pub proof fn lemma_has_lines(values: Seq<(Seq<char>, node::Tree)>, layouts: Seq<layout::DotenvModel>)
    ensures
        values.len() > 0 ==> all_lines(values, layouts).len() > 0,
{
    if values.len() > 0 {
        let n = values.len() - 1;
        let t = assignment_text(values[n].0, string_of(values[n].1), layouts[n]);
        lemma_terminated_split(t);
    }
}

} // verus!
