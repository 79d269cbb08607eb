//! Dotenv values are read back as they were written.

use vstd::prelude::*;

use crate::segment;
use crate::source::document;
use crate::source::dotenv;
use crate::source::QuoteStyle;
use crate::text;

verus! {

/// The style in which a value is written: the preferred one where that reads back to
/// the value, double quotes otherwise.
pub open spec fn written_style(value: Seq<char>, preferred: QuoteStyle) -> QuoteStyle {
    match dotenv::candidate(value, preferred) {
        Some(text) => if dotenv::fixed_point(text, value, preferred) {
            preferred
        } else {
            QuoteStyle::Double
        },
        None => QuoteStyle::Double,
    }
}

/// What stands behind a value: nothing, or a comment.
pub open spec fn note_suffix(comment: Option<Seq<char>>) -> Seq<char> {
    match comment {
        Some(comment) => seq![' '] + comment,
        None => Seq::empty(),
    }
}

/// A comment as it can stand behind a value.
pub open spec fn inline_note(comment: Seq<char>) -> bool {
    &&& comment.len() > 0
    &&& comment[0] == '#'
    &&& !text::white(comment.last())
    &&& !comment.contains('\n')
}

pub open spec fn inline_option(comment: Option<Seq<char>>) -> bool {
    match comment {
        Some(comment) => inline_note(comment),
        None => true,
    }
}

pub proof fn lemma_trim_start(s: Seq<char>)
    ensures
        segment::trim_start(s).len() <= s.len(),
        segment::trim_start(s).len() == s.len() ==> segment::trim_start(s) == s,
        segment::trim_start(s).len() > 0 ==> !text::white(segment::trim_start(s)[0]),
        s.len() > 0 && !text::white(s[0]) ==> segment::trim_start(s) == s,
        s.len() == 0 ==> segment::trim_start(s) == s,
    decreases s.len(),
{
    if s.len() > 0 && text::white(s[0]) {
        lemma_trim_start(s.skip(1));
    }
}

pub proof fn lemma_trim_end(s: Seq<char>)
    ensures
        segment::trim_end(s).len() <= s.len(),
        segment::trim_end(s).len() == s.len() ==> segment::trim_end(s) == s,
        segment::trim_end(s).len() > 0 ==> !text::white(segment::trim_end(s).last()),
        s.len() > 0 && !text::white(s.last()) ==> segment::trim_end(s) == s,
        s.len() == 0 ==> segment::trim_end(s) == s,
        segment::trim_end(s) == s.take(segment::trim_end(s).len() as int),
    decreases s.len(),
{
    if s.len() > 0 && text::white(s.last()) {
        lemma_trim_end(s.drop_last());
        assert(s.drop_last().take(segment::trim_end(s).len() as int) =~= s.take(
            segment::trim_end(s).len() as int,
        ));
    } else {
        assert(s.take(s.len() as int) =~= s);
    }
}

/// A comment behind a value, with the space before it taken away.
pub proof fn lemma_note_trimmed(comment: Option<Seq<char>>)
    requires
        inline_option(comment),
    ensures
        segment::trim(note_suffix(comment)) == match comment {
            Some(comment) => comment,
            None => Seq::empty(),
        },
        comment matches Some(c) ==> segment::trim_start(note_suffix(comment)) == c,
{
    match comment {
        Some(c) => {
            let s = seq![' '] + c;
            assert(s.skip(1) =~= c);
            assert(text::white(s[0]));
            lemma_trim_start(c);
            assert(!text::white('#'));
            assert(segment::trim_start(s) == segment::trim_start(s.skip(1)));
            lemma_trim_end(c);
        },
        None => {
            lemma_trim_start(Seq::empty());
            lemma_trim_end(Seq::empty());
        },
    }
}

proof fn lemma_decode(s: Seq<char>)
    ensures
        dotenv::decode(dotenv::encode(s)) == Some(s),
    decreases s.len(),
{
    let e = dotenv::encode(s);
    if s.len() == 0 {
        assert(s =~= Seq::<char>::empty());
    } else {
        let rest = s.skip(1);
        lemma_decode(rest);
        let head = dotenv::escape(s[0]);
        assert(e.skip(head.len() as int) =~= dotenv::encode(rest));
        assert(seq![s[0]] + rest =~= s);
        assert(e[0] == head[0]);
        if head.len() == 2 {
            assert(e[1] == head[1]);
        }
    }
}

/// The end of an encoded text is found where it is.
proof fn lemma_encoded_end(head: Seq<char>, s: Seq<char>, tail: Seq<char>)
    ensures
        dotenv::quote_end(
            head + dotenv::encode(s) + seq!['"'] + tail,
            '"',
            head.len() as int,
            false,
        ) == Some((head.len() + dotenv::encode(s).len()) as int),
    decreases s.len(),
{
    let whole = head + dotenv::encode(s) + seq!['"'] + tail;
    let i = head.len() as int;
    if s.len() == 0 {
        assert(whole[i] == '"');
    } else {
        let rest = s.skip(1);
        let more = head + dotenv::escape(s[0]);
        lemma_encoded_end(more, rest, tail);
        assert(more + dotenv::encode(rest) + seq!['"'] + tail =~= whole);
        let e = dotenv::escape(s[0]);
        assert(whole[i] == e[0]);
        if e.len() == 2 {
            assert(whole[i + 1] == e[1]);
            assert(dotenv::quote_end(whole, '"', i + 1, true) == dotenv::quote_end(
                whole,
                '"',
                i + 2,
                false,
            ));
        }
    }
}

/// Before the end of a quoted text there is none.
pub proof fn lemma_no_end_before(s: Seq<char>, quote: char, i: int, escaped: bool, m: int)
    requires
        0 <= i <= s.len(),
        0 <= m <= s.len(),
        dotenv::quote_end(s, quote, i, escaped) matches Some(e) && m <= e,
    ensures
        dotenv::quote_end(s.take(m), quote, i, escaped) is None,
    decreases s.len() - i,
{
    if i < m {
        assert(s.take(m)[i] == s[i]);
        lemma_no_end_before(s, quote, i + 1, s[i] == '\\' && !escaped, m);
    }
}

/// The end of a quoted text stays where it is when text is added.
pub proof fn lemma_end_stays(s: Seq<char>, tail: Seq<char>, quote: char, i: int, escaped: bool)
    requires
        0 <= i <= s.len(),
        dotenv::quote_end(s, quote, i, escaped) is Some,
    ensures
        dotenv::quote_end(s + tail, quote, i, escaped) == dotenv::quote_end(
            s,
            quote,
            i,
            escaped,
        ),
        ({
            let e = dotenv::quote_end(s, quote, i, escaped)->Some_0;
            i <= e < s.len() && s[e] == quote
        }),
    decreases s.len() - i,
{
    if i < s.len() {
        assert((s + tail)[i] == s[i]);
        if !(s[i] == quote && !escaped) {
            lemma_end_stays(s, tail, quote, i + 1, s[i] == '\\' && !escaped);
        }
    }
}

/// What an unquoted value is: text without surrounding space that begins with no
/// quote and holds no comment.
pub proof fn lemma_unquoted(value: Seq<char>)
    requires
        dotenv::fixed_point(value, value, QuoteStyle::Unquoted),
        value.len() > 0,
    ensures
        segment::trim_start(value) == value,
        segment::trim_end(value) == value,
        !text::white(value[0]),
        !text::white(value.last()),
        value[0] != '\'',
        value[0] != '"',
        text::find(value, seq![' ', '#']) is None,
{
    let s = segment::trim_start(value);
    lemma_trim_start(value);
    lemma_trim_end(s);
    let found = text::find(s, seq![' ', '#']);
    assert(found is None && segment::trim_end(s) == value);
    assert(s == value);
}

/// Where a single-quoted rendering ends.
proof fn lemma_single(value: Seq<char>)
    requires
        dotenv::fixed_point(seq!['\''] + value + seq!['\''], value, QuoteStyle::Single),
    ensures
        dotenv::quote_end(value + seq!['\''], '\'', 0, false) == Some(value.len() as int),
{
    let rendered = seq!['\''] + value + seq!['\''];
    lemma_trim_start(rendered);
    assert(rendered[0] == '\'');
    let joined = rendered.skip(1);
    assert(joined =~= value + seq!['\'']);
    let end = dotenv::quote_end(joined, '\'', 0, false);
    if end is Some {
        lemma_end_stays(joined, Seq::empty(), '\'', 0, false);
        assert(joined.take(end->Some_0) == value);
    } else {
        assert(dotenv::quoted_value(joined, Seq::empty(), '\'', QuoteStyle::Single, 0) is Err);
    }
}

/// A comment behind an unquoted value is found where it is.
proof fn lemma_comment_found(value: Seq<char>, comment: Seq<char>)
    requires
        text::find(value, seq![' ', '#']) is None,
        comment.len() > 0,
        comment[0] == '#',
        value.len() > 0,
        !text::white(value.last()),
    ensures
        text::find(value + (seq![' '] + comment), seq![' ', '#']) == Some(value.len() as int),
{
    let mark = seq![' ', '#'];
    let s = value + (seq![' '] + comment);
    let n = value.len() as int;
    text::lemma_find_from(value, mark, 0);
    assert forall|j: int| 0 <= j < n implies !text::occurs_at(s, mark, j) by {
        if text::occurs_at(s, mark, j) {
            assert(s.subrange(j, j + 2)[0] == ' ' && s.subrange(j, j + 2)[1] == '#');
            if j + 1 < n {
                assert(value.subrange(j, j + 2) =~= mark);
                assert(text::occurs_at(value, mark, j));
            } else {
                assert(s[j + 1] == ' ');
            }
        }
    }
    assert(s.subrange(n, n + 2) =~= mark);
    assert(text::occurs_at(s, mark, n));
    lemma_found(s, mark, 0, n);
}

proof fn lemma_found(s: Seq<char>, p: Seq<char>, from: int, n: int)
    requires
        0 <= from <= n,
        text::occurs_at(s, p, n),
        forall|j: int| from <= j < n ==> !text::occurs_at(s, p, j),
    ensures
        text::find_from(s, p, from) == Some(n),
    decreases n - from,
{
    if from < n {
        lemma_found(s, p, from + 1, n);
    }
}

/// A value behind which a comment may stand, written on one line or, between single
/// quotes, on several: the text that is read from the first quote on.
pub proof fn lemma_joined_value(
    value: Seq<char>,
    preferred: QuoteStyle,
    comment: Option<Seq<char>>,
    remaining: Seq<Seq<char>>,
    consumed: nat,
)
    requires
        inline_option(comment),
        written_style(value, preferred) == QuoteStyle::Single,
    ensures
        ({
            let joined = value + seq!['\''] + note_suffix(comment);
            &&& dotenv::quote_end(joined, '\'', 0, false) == Some(value.len() as int)
            &&& dotenv::quoted_value(joined, remaining, '\'', QuoteStyle::Single, consumed) == Ok::<
                dotenv::ValueModel,
                document::SourceFault,
            >(
                dotenv::ValueModel { value, quote: QuoteStyle::Single, consumed, comment },
            )
        }),
{
    lemma_single(value);
    let closed = value + seq!['\''];
    let joined = closed + note_suffix(comment);
    lemma_end_stays(closed, note_suffix(comment), '\'', 0, false);
    assert(joined.skip(value.len() as int + 1) =~= note_suffix(comment));
    assert(joined.take(value.len() as int) =~= value);
    lemma_note_trimmed(comment);
}

/// A value and the comment behind it, in any style that keeps to one line.
pub proof fn lemma_value_is_read_back(
    value: Seq<char>,
    preferred: QuoteStyle,
    comment: Option<Seq<char>>,
    remaining: Seq<Seq<char>>,
)
    requires
        inline_option(comment),
        value.len() > 0 || comment is None || preferred != QuoteStyle::Unquoted,
    ensures
        dotenv::value_of(
            dotenv::rendered_value(value, preferred) + note_suffix(comment),
            remaining,
        ) == Ok::<dotenv::ValueModel, document::SourceFault>(
            dotenv::ValueModel {
                value,
                quote: written_style(value, preferred),
                consumed: 0,
                comment,
            },
        ),
{
    let suffix = note_suffix(comment);
    let rendered = dotenv::rendered_value(value, preferred);
    let raw = rendered + suffix;
    lemma_note_trimmed(comment);
    lemma_trim_start(raw);
    assert(!text::white('\'') && !text::white('"'));
    match written_style(value, preferred) {
        QuoteStyle::Unquoted => if value.len() == 0 {
            assert(raw =~= Seq::<char>::empty());
            lemma_trim_end(raw);
            text::lemma_find_from(raw, seq![' ', '#'], 0);
        } else {
            lemma_unquoted(value);
            assert(raw[0] == value[0]);
            match comment {
                Some(c) => {
                    lemma_comment_found(value, c);
                    assert(raw.take(value.len() as int) =~= value);
                    assert(raw.skip(value.len() as int) =~= suffix);
                },
                None => {
                    assert(raw =~= value);
                },
            }
        },
        QuoteStyle::Single => {
            assert(raw[0] == '\'');
            assert(raw.skip(1) =~= value + seq!['\''] + suffix);
            lemma_joined_value(value, preferred, comment, remaining, 0);
        },
        QuoteStyle::Double => {
            let e = dotenv::encode(value);
            assert(raw[0] == '"');
            let joined = raw.skip(1);
            let none = Seq::<char>::empty();
            assert(joined =~= none + e + seq!['"'] + suffix);
            lemma_encoded_end(none, value, suffix);
            lemma_decode(value);
            assert(joined.take(e.len() as int) =~= e);
            assert(joined.skip(e.len() as int + 1) =~= suffix);
        },
    }
}

/// Law: whatever a value holds and whichever style it prefers, its rendering is read
/// back as the same value, on one line and without a comment, in the preferred style or
/// in double quotes; and in the preferred style wherever a rendering in it reads back.
pub proof fn law_rendered_value_is_read_back(
    value: Seq<char>,
    preferred: QuoteStyle,
    remaining: Seq<Seq<char>>,
)
    ensures
        dotenv::value_of(dotenv::rendered_value(value, preferred), remaining) == Ok::<
            dotenv::ValueModel,
            document::SourceFault,
        >(
            dotenv::ValueModel {
                value,
                quote: written_style(value, preferred),
                consumed: 0,
                comment: None,
            },
        ),
        written_style(value, preferred) == preferred || written_style(value, preferred)
            == QuoteStyle::Double,
        preferred == QuoteStyle::Unquoted && dotenv::fixed_point(value, value, preferred)
            ==> written_style(value, preferred) == preferred,
        preferred == QuoteStyle::Single && dotenv::fixed_point(
            seq!['\''] + value + seq!['\''],
            value,
            preferred,
        ) ==> written_style(value, preferred) == preferred,
{
    lemma_value_is_read_back(value, preferred, None, remaining);
    let rendered = dotenv::rendered_value(value, preferred);
    assert(rendered + note_suffix(None) =~= rendered);
}

} // verus!
