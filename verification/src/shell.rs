//! How a POSIX shell reads a quoted word.

use vstd::prelude::*;

use crate::segment;
use crate::text;

verus! {

/// Where in a word a shell reads.
pub enum Quoting {
    Plain,
    Single,
    Double,
}

/// A character that means nothing to a shell.
pub open spec fn plain(c: char) -> bool {
    text::alphanumeric(c) || c == '_' || c == '-' || c == '.' || c == '/'
}

pub fn is_plain(c: char) -> (r: bool)
    ensures
        r == plain(c),
{
    text::is_alphanumeric(c) || c == '_' || c == '-' || c == '.' || c == '/'
}

/// A character before a value, if there is one.
pub open spec fn before(c: char, value: Option<Seq<char>>) -> Option<Seq<char>> {
    match value {
        Some(value) => Some(seq![c] + value),
        None => None,
    }
}

/// The value that a shell gives to a word, if nothing in the word is expanded, split
/// or left open. Outside of quotes a backslash takes the next character as it is.
pub open spec fn word_value(s: Seq<char>, quoting: Quoting) -> Option<Seq<char>>
    decreases s.len(),
{
    if s.len() == 0 {
        if quoting is Plain {
            Some(Seq::empty())
        } else {
            None
        }
    } else {
        let c = s[0];
        let rest = s.skip(1);
        match quoting {
            Quoting::Plain => if c == '\'' {
                word_value(rest, Quoting::Single)
            } else if c == '"' {
                word_value(rest, Quoting::Double)
            } else if c == '\\' {
                if rest.len() == 0 || rest[0] == '\n' {
                    None
                } else {
                    before(rest[0], word_value(rest.skip(1), Quoting::Plain))
                }
            } else if plain(c) {
                before(c, word_value(rest, Quoting::Plain))
            } else {
                None
            },
            Quoting::Single => if c == '\'' {
                word_value(rest, Quoting::Plain)
            } else {
                before(c, word_value(rest, Quoting::Single))
            },
            Quoting::Double => if c == '"' {
                word_value(rest, Quoting::Plain)
            } else if c == '$' || c == '`' || c == '\\' {
                None
            } else {
                before(c, word_value(rest, Quoting::Double))
            },
        }
    }
}

/// A text between single quotes, with its own single quotes written in some other way.
pub open spec fn enclosed(value: Seq<char>, escape: Seq<char>) -> Seq<char> {
    "'"@ + segment::replace(value, seq!['\''], escape) + "'"@
}

/// A way to write a single quote inside of single quotes.
pub open spec fn escapes(escape: Seq<char>) -> bool {
    forall|rest: Seq<char>|
        word_value(#[trigger] (escape + rest), Quoting::Single) == before(
            '\'',
            word_value(rest, Quoting::Single),
        )
}

proof fn lemma_enclosed_tail(value: Seq<char>, escape: Seq<char>)
    requires
        escapes(escape),
    ensures
        word_value(
            segment::replace(value, seq!['\''], escape) + seq!['\''],
            Quoting::Single,
        ) == Some(value),
    decreases value.len(),
{
    let quote = seq!['\''];
    if value.len() == 0 {
        let s = segment::replace(value, quote, escape) + quote;
        assert(s =~= quote);
        assert(s.skip(1) =~= Seq::<char>::empty());
        assert(word_value(s.skip(1), Quoting::Plain) == Some(Seq::<char>::empty()));
        assert(value =~= Seq::<char>::empty());
    } else {
        let rest = value.skip(1);
        lemma_enclosed_tail(rest, escape);
        let tail = segment::replace(rest, quote, escape) + quote;
        assert(seq![value[0]] + rest =~= value);
        let s = segment::replace(value, quote, escape) + quote;
        if text::occurs_at(value, quote, 0) {
            assert(value.subrange(0, 1) =~= quote);
            assert(value.subrange(0, 1)[0] == '\'');
            assert(s =~= escape + tail);
        } else {
            if value[0] == '\'' {
                assert(value.subrange(0, 1) =~= quote);
            }
            assert(s =~= seq![value[0]] + tail);
            assert(s.skip(1) =~= tail);
        }
    }
}

/// A shell takes an enclosed text literally.
pub proof fn lemma_enclosed(value: Seq<char>, escape: Seq<char>)
    requires
        escapes(escape),
    ensures
        word_value(enclosed(value, escape), Quoting::Plain) == Some(value),
{
    reveal_strlit("'");
    lemma_enclosed_tail(value, escape);
    let s = enclosed(value, escape);
    assert("'"@ =~= seq!['\'']);
    assert(s.skip(1) =~= segment::replace(value, seq!['\''], escape) + seq!['\'']);
}

/// A single quote after a backslash, outside of the quotes.
pub proof fn lemma_backslash_escapes()
    ensures
        escapes("'\\''"@),
{
    reveal_strlit("'\\''");
    let escape = "'\\''"@;
    assert forall|rest: Seq<char>|
        word_value(#[trigger] (escape + rest), Quoting::Single) == before(
            '\'',
            word_value(rest, Quoting::Single),
        ) by {
        let a = escape + rest;
        let b = a.skip(1);
        let c = b.skip(1).skip(1);
        assert(a[0] == '\'' && b[0] == '\\' && b.skip(1)[0] == '\'' && c[0] == '\'');
        assert(c.skip(1) =~= rest);
        assert(word_value(c, Quoting::Plain) == word_value(rest, Quoting::Single));
        assert(word_value(b, Quoting::Plain) == before('\'', word_value(c, Quoting::Plain)));
    }
}

/// A single quote between double quotes, outside of the single quotes.
pub proof fn lemma_double_quotes_escape()
    ensures
        escapes("'\"'\"'"@),
{
    reveal_strlit("'\"'\"'");
    let escape = "'\"'\"'"@;
    assert forall|rest: Seq<char>|
        word_value(#[trigger] (escape + rest), Quoting::Single) == before(
            '\'',
            word_value(rest, Quoting::Single),
        ) by {
        let a = escape + rest;
        let b = a.skip(1);
        let c = b.skip(1);
        let d = c.skip(1);
        let e = d.skip(1);
        assert(a[0] == '\'' && b[0] == '"' && c[0] == '\'' && d[0] == '"' && e[0] == '\'');
        assert(e.skip(1) =~= rest);
        assert(word_value(e, Quoting::Plain) == word_value(rest, Quoting::Single));
        assert(word_value(d, Quoting::Double) == word_value(e, Quoting::Plain));
        assert(word_value(c, Quoting::Double) == before('\'', word_value(d, Quoting::Double)));
        assert(word_value(b, Quoting::Plain) == word_value(c, Quoting::Double));
    }
}

/// A shell takes plain characters as they are.
pub proof fn lemma_plain(value: Seq<char>)
    requires
        forall|i: int| 0 <= i < value.len() ==> plain(#[trigger] value[i]),
    ensures
        word_value(value, Quoting::Plain) == Some(value),
    decreases value.len(),
{
    if value.len() == 0 {
        assert(value =~= Seq::<char>::empty());
    } else {
        let rest = value.skip(1);
        assert forall|i: int| 0 <= i < rest.len() implies plain(#[trigger] rest[i]) by {
            assert(rest[i] == value[i + 1]);
        }
        lemma_plain(rest);
        assert(plain(value[0]));
        assert(seq![value[0]] + rest =~= value);
    }
}

/// Puts a text between single quotes.
pub fn enclose(value: &str, escape: &str) -> (r: String)
    ensures
        r@ == enclosed(value@, escape@),
{
    let quote: Vec<char> = vec!['\''];
    assert(quote@ =~= seq!['\'']);
    let inner = segment::replaced(
        text::chars_of(value).as_slice(),
        quote.as_slice(),
        text::chars_of(escape).as_slice(),
    );
    text::cat3("'", text::string_of(inner.as_slice()).as_str(), "'")
}

} // verus!
