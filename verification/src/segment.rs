//! Cutting text into pieces and putting pieces together.

use vstd::prelude::*;

use crate::text;

verus! {

/// The number of characters of `s` before the first `c`, or its length.
pub open spec fn before(s: Seq<char>, c: char) -> nat
    decreases s.len(),
{
    if s.len() == 0 || s[0] == c {
        0
    } else {
        1 + before(s.skip(1), c)
    }
}

pub proof fn lemma_before(s: Seq<char>, c: char)
    ensures
        before(s, c) <= s.len(),
        before(s, c) < s.len() ==> s[before(s, c) as int] == c,
        forall|j: int| 0 <= j < before(s, c) ==> s[j] != c,
        before(s, c) < s.len() <==> s.contains(c),
    decreases s.len(),
{
    if s.len() > 0 && s[0] != c {
        lemma_before(s.skip(1), c);
        assert forall|j: int| 0 <= j < before(s, c) implies s[j] != c by {
            if j > 0 {
                assert(s.skip(1)[j - 1] == s[j]);
            }
        }
        if before(s, c) < s.len() {
            assert(s[before(s, c) as int] == c);
        }
    }
    if s.contains(c) && before(s, c) == s.len() {
        let k = choose|k: int| 0 <= k < s.len() && s[k] == c;
        assert(s[k] != c);
    }
}

/// The first position that holds `c` and comes after none before it.
pub proof fn lemma_before_is(s: Seq<char>, c: char, n: int)
    requires
        0 <= n <= s.len(),
        n < s.len() ==> s[n] == c,
        forall|j: int| 0 <= j < n ==> s[j] != c,
    ensures
        before(s, c) == n,
    decreases s.len(),
{
    if n > 0 {
        assert(s[0] != c);
        assert forall|j: int| 0 <= j < n - 1 implies s.skip(1)[j] != c by {
            assert(s[j + 1] != c);
        }
        lemma_before_is(s.skip(1), c, n - 1);
    }
}

pub fn index_of(s: &[char], c: char, from: usize) -> (r: usize)
    requires
        from <= s.len(),
    ensures
        from <= r <= s.len(),
        r == from + before(s@.skip(from as int), c),
{
    let mut i: usize = from;
    while i < s.len() && s[i] != c
        invariant
            from <= i <= s.len(),
            forall|j: int| from <= j < i ==> s@[j] != c,
        decreases s.len() - i,
    {
        i = i + 1;
    }
    proof {
        lemma_before_is(s@.skip(from as int), c, i - from);
    }
    i
}

/// The pieces between the separators; one more than there are separators.
pub open spec fn split(s: Seq<char>, c: char) -> Seq<Seq<char>>
    decreases s.len(),
{
    let n = before(s, c) as int;
    if n >= s.len() {
        seq![s]
    } else {
        seq![s.take(n)] + split(s.skip(n + 1), c)
    }
}

/// Text without a separator goes to the end of the last piece.
pub proof fn lemma_split_append(s: Seq<char>, t: Seq<char>, c: char)
    requires
        !t.contains(c),
    ensures
        split(s, c).len() >= 1,
        split(s + t, c) == split(s, c).drop_last().push(split(s, c).last() + t),
    decreases s.len(),
{
    let n = before(s, c) as int;
    let whole = s + t;
    lemma_before(s, c);
    assert forall|j: int| 0 <= j < n implies whole[j] != c by {
        assert(whole[j] == s[j]);
    }
    if n < s.len() {
        lemma_before_is(whole, c, n);
        assert(whole.take(n) =~= s.take(n));
        assert(whole.skip(n + 1) =~= s.skip(n + 1) + t);
        lemma_split_append(s.skip(n + 1), t, c);
        let rest = split(s.skip(n + 1), c);
        assert(split(s, c) =~= seq![s.take(n)] + rest);
        assert(split(whole, c) =~= split(s, c).drop_last().push(split(s, c).last() + t));
    } else {
        assert forall|j: int| 0 <= j < whole.len() implies whole[j] != c by {
            if j >= s.len() {
                assert(whole[j] == t[j - s.len()]);
            }
        }
        lemma_before_is(whole, c, whole.len() as int);
        assert(split(whole, c) =~= split(s, c).drop_last().push(split(s, c).last() + t));
    }
}

/// A separator and text without one make a new last piece.
pub proof fn lemma_split_piece(s: Seq<char>, t: Seq<char>, c: char)
    requires
        !t.contains(c),
    ensures
        split(s.push(c) + t, c) == split(s, c).push(t),
    decreases s.len(),
{
    let n = before(s, c) as int;
    let whole = s.push(c) + t;
    lemma_before(s, c);
    assert forall|j: int| 0 <= j < n implies whole[j] != c by {
        assert(whole[j] == s[j]);
    }
    lemma_before_is(whole, c, n);
    if n < s.len() {
        assert(whole.take(n) =~= s.take(n));
        assert(whole.skip(n + 1) =~= s.skip(n + 1).push(c) + t);
        lemma_split_piece(s.skip(n + 1), t, c);
        let rest = split(s.skip(n + 1), c);
        assert(split(s, c) =~= seq![s.take(n)] + rest);
        assert(split(whole, c) =~= split(s, c).push(t));
    } else {
        assert(whole.take(n) =~= s);
        assert(whole.skip(n + 1) =~= t);
        lemma_before_is(t, c, t.len() as int);
        assert(split(t, c) =~= seq![t]);
        assert(split(s, c) =~= seq![s]);
        assert(split(whole, c) =~= split(s, c).push(t));
    }
}

pub fn split_at_char(s: &[char], c: char) -> (r: Vec<Vec<char>>)
    ensures
        text::pieces(r@) == split(s@, c),
        r@.len() >= 1,
{
    let mut out: Vec<Vec<char>> = Vec::new();
    let mut start: usize = 0;
    assert(s@.skip(0) =~= s@);
    loop
        invariant
            start <= s.len(),
            text::pieces(out@) + split(s@.skip(start as int), c) == split(s@, c),
        decreases s.len() - start,
    {
        let end: usize = index_of(s, c, start);
        let ghost rest = s@.skip(start as int);
        let ghost n = before(rest, c) as int;
        let piece = slice_to_vec(s, start, end);
        assert(piece@ == rest.take(n));
        if end >= s.len() {
            assert(piece@ =~= rest);
            let ghost old_out = out@;
            out.push(piece);
            assert(text::pieces(out@) =~= text::pieces(old_out) + seq![rest]);
            return out;
        }
        let ghost old_out = out@;
        out.push(piece);
        assert(rest.skip(n + 1) =~= s@.skip(end + 1));
        assert(text::pieces(out@) =~= text::pieces(old_out) + seq![rest.take(n)]);
        assert(text::pieces(out@) + split(s@.skip(end + 1), c) =~= text::pieces(old_out) + split(
            rest,
            c,
        ));
        start = end + 1;
    }
}

pub fn slice_to_vec(s: &[char], from: usize, to: usize) -> (r: Vec<char>)
    requires
        from <= to <= s.len(),
    ensures
        r@ == s@.subrange(from as int, to as int),
        from == 0 ==> r@ == s@.take(to as int),
        to == s.len() ==> r@ == s@.skip(from as int),
{
    let mut out: Vec<char> = Vec::new();
    let mut i: usize = from;
    while i < to
        invariant
            from <= i <= to <= s.len(),
            out@ == s@.subrange(from as int, i as int),
        decreases to - i,
    {
        out.push(s[i]);
        i = i + 1;
    }
    out
}

/// A line without the carriage return that may stand before its line feed.
pub open spec fn strip_return(s: Seq<char>) -> Seq<char> {
    if s.len() > 0 && s.last() == '\r' {
        s.drop_last()
    } else {
        s
    }
}

/// The lines of a text, without their line feeds or CR LF pairs.
pub open spec fn lines(s: Seq<char>) -> Seq<Seq<char>>
    decreases s.len(),
{
    let n = before(s, '\n') as int;
    if s.len() == 0 {
        Seq::empty()
    } else if n >= s.len() {
        seq![s]
    } else {
        seq![strip_return(s.take(n))] + lines(s.skip(n + 1))
    }
}

pub fn split_lines(s: &[char]) -> (r: Vec<Vec<char>>)
    ensures
        text::pieces(r@) == lines(s@),
{
    let mut out: Vec<Vec<char>> = Vec::new();
    let mut start: usize = 0;
    assert(s@.skip(0) =~= s@);
    while start < s.len()
        invariant
            start <= s.len(),
            text::pieces(out@) + lines(s@.skip(start as int)) == lines(s@),
        decreases s.len() - start,
    {
        let end: usize = index_of(s, '\n', start);
        let ghost rest = s@.skip(start as int);
        let ghost n = before(rest, '\n') as int;
        let ghost old_out = out@;
        if end >= s.len() {
            let piece = slice_to_vec(s, start, end);
            out.push(piece);
            assert(text::pieces(out@) =~= text::pieces(old_out) + seq![rest]);
            return out;
        }
        let stop: usize = if end > start && s[end - 1] == '\r' {
            end - 1
        } else {
            end
        };
        let piece = slice_to_vec(s, start, stop);
        assert(piece@ =~= strip_return(rest.take(n)));
        out.push(piece);
        assert(rest.skip(n + 1) =~= s@.skip(end + 1));
        assert(text::pieces(out@) =~= text::pieces(old_out) + seq![strip_return(rest.take(n))]);
        assert(text::pieces(out@) + lines(s@.skip(end + 1)) =~= text::pieces(old_out) + lines(rest));
        start = end + 1;
    }
    assert(s@.skip(start as int) =~= Seq::<char>::empty());
    out
}

/// The pieces of a text that each end after a line feed; the last may lack it.
pub open spec fn split_inclusive(s: Seq<char>) -> Seq<Seq<char>>
    decreases s.len(),
{
    let n = before(s, '\n') as int;
    if s.len() == 0 {
        Seq::empty()
    } else if n >= s.len() {
        seq![s]
    } else {
        seq![s.take(n + 1)] + split_inclusive(s.skip(n + 1))
    }
}

pub fn split_after_lines(s: &[char]) -> (r: Vec<Vec<char>>)
    ensures
        text::pieces(r@) == split_inclusive(s@),
{
    let mut out: Vec<Vec<char>> = Vec::new();
    let mut start: usize = 0;
    assert(s@.skip(0) =~= s@);
    while start < s.len()
        invariant
            start <= s.len(),
            text::pieces(out@) + split_inclusive(s@.skip(start as int)) == split_inclusive(s@),
        decreases s.len() - start,
    {
        let end: usize = index_of(s, '\n', start);
        let ghost rest = s@.skip(start as int);
        let ghost n = before(rest, '\n') as int;
        let ghost old_out = out@;
        if end >= s.len() {
            let piece = slice_to_vec(s, start, end);
            out.push(piece);
            assert(text::pieces(out@) =~= text::pieces(old_out) + seq![rest]);
            return out;
        }
        let piece = slice_to_vec(s, start, end + 1);
        assert(piece@ =~= rest.take(n + 1));
        out.push(piece);
        assert(rest.skip(n + 1) =~= s@.skip(end + 1));
        assert(text::pieces(out@) =~= text::pieces(old_out) + seq![rest.take(n + 1)]);
        assert(text::pieces(out@) + split_inclusive(s@.skip(end + 1)) =~= text::pieces(old_out)
            + split_inclusive(rest));
        start = end + 1;
    }
    assert(s@.skip(start as int) =~= Seq::<char>::empty());
    out
}

/// A text without the leading characters that satisfy `p`.
pub open spec fn trim_start_by(s: Seq<char>, p: spec_fn(char) -> bool) -> Seq<char>
    decreases s.len(),
{
    if s.len() > 0 && p(s[0]) {
        trim_start_by(s.skip(1), p)
    } else {
        s
    }
}

/// A text without the trailing characters that satisfy `p`.
pub open spec fn trim_end_by(s: Seq<char>, p: spec_fn(char) -> bool) -> Seq<char>
    decreases s.len(),
{
    if s.len() > 0 && p(s.last()) {
        trim_end_by(s.drop_last(), p)
    } else {
        s
    }
}

pub open spec fn trim_start(s: Seq<char>) -> Seq<char> {
    trim_start_by(s, |c: char| text::white(c))
}

pub open spec fn trim_end(s: Seq<char>) -> Seq<char> {
    trim_end_by(s, |c: char| text::white(c))
}

pub open spec fn trim(s: Seq<char>) -> Seq<char> {
    trim_end(trim_start(s))
}

pub fn trimmed_start(s: &[char]) -> (r: Vec<char>)
    ensures
        r@ == trim_start(s@),
{
    let mut i: usize = 0;
    let ghost p = |c: char| text::white(c);
    assert(s@.skip(0) =~= s@);
    while i < s.len() && text::is_white(s[i])
        invariant
            i <= s.len(),
            p == (|c: char| text::white(c)),
            trim_start_by(s@.skip(i as int), p) == trim_start_by(s@, p),
        decreases s.len() - i,
    {
        assert(p(s@[i as int]));
        assert(s@.skip(i as int).skip(1) =~= s@.skip(i + 1));
        i = i + 1;
    }
    slice_to_vec(s, i, s.len())
}

pub fn trimmed_end(s: &[char]) -> (r: Vec<char>)
    ensures
        r@ == trim_end(s@),
{
    let mut n: usize = s.len();
    let ghost p = |c: char| text::white(c);
    assert(s@.take(s@.len() as int) =~= s@);
    while n > 0 && text::is_white(s[n - 1])
        invariant
            n <= s.len(),
            p == (|c: char| text::white(c)),
            trim_end_by(s@.take(n as int), p) == trim_end_by(s@, p),
        decreases n,
    {
        assert(p(s@[n - 1]));
        assert(s@.take(n as int).drop_last() =~= s@.take(n - 1));
        n = n - 1;
    }
    slice_to_vec(s, 0, n)
}

pub fn trimmed(s: &[char]) -> (r: Vec<char>)
    ensures
        r@ == trim(s@),
{
    trimmed_end(trimmed_start(s).as_slice())
}

/// A text with `to` before each of its characters and at its end.
pub open spec fn interleave(s: Seq<char>, to: Seq<char>) -> Seq<char>
    decreases s.len(),
{
    if s.len() == 0 {
        to
    } else {
        to + seq![s[0]] + interleave(s.skip(1), to)
    }
}

/// A text in which `to` stands for every non-overlapping occurrence of `p`, taken
/// from the left.
pub open spec fn replace(s: Seq<char>, p: Seq<char>, to: Seq<char>) -> Seq<char>
    decreases s.len(),
{
    if p.len() == 0 {
        interleave(s, to)
    } else if s.len() == 0 {
        s
    } else if text::occurs_at(s, p, 0) {
        to + replace(s.skip(p.len() as int), p, to)
    } else {
        seq![s[0]] + replace(s.skip(1), p, to)
    }
}

fn interleaved(s: &[char], to: &[char]) -> (r: Vec<char>)
    ensures
        r@ == interleave(s@, to@),
{
    let mut out: Vec<char> = Vec::new();
    let mut i: usize = 0;
    assert(s@.skip(0) =~= s@);
    while i < s.len()
        invariant
            i <= s.len(),
            out@ + interleave(s@.skip(i as int), to@) == interleave(s@, to@),
        decreases s.len() - i,
    {
        let ghost rest = s@.skip(i as int);
        let ghost before_step = out@;
        append_chars(&mut out, to);
        out.push(s[i]);
        assert(rest.skip(1) =~= s@.skip(i + 1));
        assert(out@ + interleave(s@.skip(i + 1), to@) =~= before_step + interleave(rest, to@));
        i = i + 1;
    }
    append_chars(&mut out, to);
    assert(s@.skip(i as int) =~= Seq::<char>::empty());
    out
}

pub fn replaced(s: &[char], p: &[char], to: &[char]) -> (r: Vec<char>)
    ensures
        r@ == replace(s@, p@, to@),
{
    if p.len() == 0 {
        return interleaved(s, to);
    }
    let mut out: Vec<char> = Vec::new();
    let mut i: usize = 0;
    assert(s@.skip(0) =~= s@);
    while i < s.len()
        invariant
            p.len() > 0,
            i <= s.len(),
            out@ + replace(s@.skip(i as int), p@, to@) == replace(s@, p@, to@),
        decreases s.len() - i,
    {
        let ghost rest = s@.skip(i as int);
        let ghost before_step = out@;
        assert(text::occurs_at(s@, p@, i as int) == text::occurs_at(rest, p@, 0)) by {
            if i + p@.len() <= s@.len() {
                assert(s@.subrange(i as int, i + p@.len()) =~= rest.subrange(0, p@.len() as int));
            }
        }
        if text::stands_at(s, p, i) {
            append_chars(&mut out, to);
            assert(rest.skip(p@.len() as int) =~= s@.skip(i + p@.len()));
            assert(out@ + replace(s@.skip(i + p@.len()), p@, to@) =~= before_step + replace(
                rest,
                p@,
                to@,
            ));
            i = i + p.len();
        } else {
            out.push(s[i]);
            assert(rest.skip(1) =~= s@.skip(i + 1));
            assert(out@ + replace(s@.skip(i + 1), p@, to@) =~= before_step + replace(rest, p@, to@));
            i = i + 1;
        }
    }
    assert(s@.skip(i as int) =~= Seq::<char>::empty());
    out
}

pub fn append_chars(out: &mut Vec<char>, more: &[char])
    ensures
        final(out)@ == old(out)@ + more@,
{
    let mut i: usize = 0;
    let ghost start = out@;
    while i < more.len()
        invariant
            i <= more.len(),
            out@ == start + more@.take(i as int),
        decreases more.len() - i,
    {
        out.push(more[i]);
        i = i + 1;
    }
}

/// The pieces one after another.
pub open spec fn concat(parts: Seq<Seq<char>>) -> Seq<char>
    decreases parts.len(),
{
    if parts.len() == 0 {
        Seq::empty()
    } else {
        concat(parts.drop_last()) + parts.last()
    }
}

/// The pieces one after another with a separator between two of them.
pub open spec fn join(parts: Seq<Seq<char>>, sep: Seq<char>) -> Seq<char>
    decreases parts.len(),
{
    if parts.len() == 0 {
        Seq::empty()
    } else if parts.len() == 1 {
        parts[0]
    } else {
        join(parts.drop_last(), sep) + sep + parts.last()
    }
}

pub fn joined(parts: &[String], sep: &str) -> (r: String)
    ensures
        r@ == join(text::texts(parts@), sep@),
{
    let mut out = String::new();
    let mut i: usize = 0;
    while i < parts.len()
        invariant
            i <= parts.len(),
            out@ == join(text::texts(parts@.take(i as int)), sep@),
        decreases parts.len() - i,
    {
        let ghost now = text::texts(parts@.take(i + 1));
        assert(now.drop_last() =~= text::texts(parts@.take(i as int)));
        if i > 0 {
            out.append(sep);
        }
        out.append(parts[i].as_str());
        i = i + 1;
    }
    assert(parts@.take(i as int) =~= parts@);
    out
}

/// A text with zeros before it until it has the given width.
pub open spec fn zero_padded(s: Seq<char>, width: nat) -> Seq<char> {
    if s.len() >= width {
        s
    } else {
        Seq::new((width - s.len()) as nat, |i: int| '0') + s
    }
}

pub fn padded_decimal(n: usize, width: usize) -> (r: String)
    ensures
        r@ == zero_padded(decimal(n as nat), width as nat),
{
    let digits = decimal_of(n);
    let chars = text::chars_of(digits.as_str());
    let mut out: Vec<char> = Vec::new();
    let mut i: usize = chars.len();
    while i < width
        invariant
            chars@.len() <= i,
            i <= width || i == chars@.len(),
            out@ == Seq::new((i - chars@.len()) as nat, |j: int| '0'),
        decreases width - i,
    {
        out.push('0');
        i = i + 1;
        assert(out@ =~= Seq::new((i - chars@.len()) as nat, |j: int| '0'));
    }
    append_chars(&mut out, chars.as_slice());
    assert(out@ =~= zero_padded(decimal(n as nat), width as nat));
    text::string_of(out.as_slice())
}

/// The decimal digits of a number.
pub open spec fn decimal(n: nat) -> Seq<char>
    decreases n,
{
    if n < 10 {
        seq![(('0' as u32) + n) as char]
    } else {
        decimal(n / 10).push((('0' as u32) + n % 10) as char)
    }
}

pub fn decimal_u64(n: u64) -> (r: String)
    ensures
        r@ == decimal(n as nat),
    decreases n,
{
    let digit: u8 = (n % 10) as u8;
    let c: char = (48u8 + digit) as char;
    if n < 10 {
        let mut out = String::new();
        out.push(c);
        out
    } else {
        let mut out = decimal_u64(n / 10);
        out.push(c);
        out
    }
}

pub fn decimal_of(n: usize) -> (r: String)
    ensures
        r@ == decimal(n as nat),
{
    decimal_u64(n as u64)
}

/// The words between white space.
pub open spec fn words(s: Seq<char>) -> Seq<Seq<char>>
    decreases s.len(),
{
    if s.len() == 0 {
        Seq::empty()
    } else {
        let head = words(s.drop_last());
        let c = s.last();
        if text::white(c) {
            head
        } else if s.len() > 1 && !text::white(s[s.len() - 2]) {
            head.drop_last().push(head.last().push(c))
        } else {
            head.push(seq![c])
        }
    }
}

pub fn split_words(s: &[char]) -> (r: Vec<Vec<char>>)
    ensures
        text::pieces(r@) == words(s@),
{
    let mut done: Vec<Vec<char>> = Vec::new();
    let mut open: Vec<char> = Vec::new();
    let mut inside: bool = false;
    let mut i: usize = 0;
    assert(text::pieces(done@) =~= words(s@.take(0)));
    while i < s.len()
        invariant
            i <= s.len(),
            inside == (i > 0 && !text::white(s@[i - 1])),
            inside ==> words(s@.take(i as int)) == text::pieces(done@).push(open@),
            !inside ==> words(s@.take(i as int)) == text::pieces(done@) && open@.len() == 0,
        decreases s.len() - i,
    {
        let ghost now = s@.take(i + 1);
        let ghost (before, held) = (done@, open@);
        assert(now.drop_last() =~= s@.take(i as int));
        assert(now.last() == s@[i as int]);
        assert(i > 0 ==> now[now.len() - 2] == s@[i - 1]);
        assert(text::pieces(before).push(held).drop_last() =~= text::pieces(before));
        if text::is_white(s[i]) {
            if inside {
                done.push(open);
                open = Vec::new();
                assert(text::pieces(done@) =~= text::pieces(before).push(held));
            }
            inside = false;
        } else {
            open.push(s[i]);
            inside = true;
            assert(held.len() == 0 ==> open@ =~= seq![s@[i as int]]);
        }
        i = i + 1;
    }
    assert(s@.take(i as int) =~= s@);
    if inside {
        let ghost (before, held) = (done@, open@);
        done.push(open);
        assert(text::pieces(done@) =~= text::pieces(before).push(held));
    }
    done
}

proof fn lemma_join_front(a: Seq<char>, rest: Seq<Seq<char>>, sep: Seq<char>)
    requires
        rest.len() > 0,
    ensures
        join(seq![a] + rest, sep) == a + sep + join(rest, sep),
    decreases rest.len(),
{
    let all = seq![a] + rest;
    assert(all.drop_last() =~= seq![a] + rest.drop_last());
    assert(all.last() == rest.last());
    if rest.len() == 1 {
        assert(all.drop_last() =~= seq![a]);
        assert(join(seq![a], sep) == a);
        assert(join(all, sep) =~= a + sep + rest[0]);
    } else {
        lemma_join_front(a, rest.drop_last(), sep);
        assert(join(all, sep) =~= a + sep + join(rest, sep));
    }
}

/// Law: splitting a text is undone by joining its pieces with the separator, and no piece
/// holds the separator.
pub proof fn law_split_is_undone_by_join(s: Seq<char>, c: char)
    ensures
        join(split(s, c), seq![c]) == s,
        split(s, c).len() > 0,
        forall|i: int| 0 <= i < split(s, c).len() ==> !(#[trigger] split(s, c)[i]).contains(c),
    decreases s.len(),
{
    let n = before(s, c) as int;
    lemma_before(s, c);
    let parts = split(s, c);
    if n >= s.len() {
        assert(parts[0] == s);
        assert(join(parts, seq![c]) == s);
    } else {
        let rest = split(s.skip(n + 1), c);
        law_split_is_undone_by_join(s.skip(n + 1), c);
        lemma_join_front(s.take(n), rest, seq![c]);
        assert(s.take(n) + seq![c] + s.skip(n + 1) =~= s);
        assert forall|i: int| 0 <= i < parts.len() implies !(#[trigger] parts[i]).contains(c) by {
            if i == 0 {
                if parts[0].contains(c) {
                    let j = choose|j: int| 0 <= j < n && s.take(n)[j] == c;
                    assert(s[j] == c);
                }
            } else {
                assert(parts[i] == rest[i - 1]);
            }
        }
    }
}

proof fn lemma_concat_front(a: Seq<char>, rest: Seq<Seq<char>>)
    ensures
        concat(seq![a] + rest) == a + concat(rest),
    decreases rest.len(),
{
    let all = seq![a] + rest;
    if rest.len() == 0 {
        assert(all =~= seq![a]);
        assert(seq![a].drop_last() =~= Seq::<Seq<char>>::empty());
        assert(concat(Seq::<Seq<char>>::empty()) =~= Seq::<char>::empty());
        assert(concat(seq![a]) =~= a);
        assert(a + concat(rest) =~= a);
    } else {
        assert(all.drop_last() =~= seq![a] + rest.drop_last());
        lemma_concat_front(a, rest.drop_last());
        assert(concat(all) =~= a + concat(rest));
    }
}

/// Law: the pieces of a text that end after its line feeds make up the text again, and each
/// but the last ends with its only line feed.
pub proof fn law_line_pieces_make_up_the_text(s: Seq<char>)
    ensures
        concat(split_inclusive(s)) == s,
        forall|i: int|
            0 <= i < split_inclusive(s).len() ==> (#[trigger] split_inclusive(s)[i]).len() > 0
                && !split_inclusive(s)[i].drop_last().contains('\n'),
        forall|i: int|
            0 <= i < split_inclusive(s).len() - 1 ==> (#[trigger] split_inclusive(s)[i]).last()
                == '\n',
    decreases s.len(),
{
    let n = before(s, '\n') as int;
    lemma_before(s, '\n');
    let parts = split_inclusive(s);
    if s.len() == 0 {
        assert(concat(parts) =~= s);
    } else if n >= s.len() {
        lemma_concat_front(s, Seq::empty());
        assert(seq![s] + Seq::<Seq<char>>::empty() =~= seq![s]);
        assert(s + concat(Seq::<Seq<char>>::empty()) =~= s);
    } else {
        let rest = split_inclusive(s.skip(n + 1));
        law_line_pieces_make_up_the_text(s.skip(n + 1));
        lemma_concat_front(s.take(n + 1), rest);
        assert(s.take(n + 1) + s.skip(n + 1) =~= s);
        assert forall|i: int| 0 <= i < parts.len() implies (#[trigger] parts[i]).len() > 0
            && !parts[i].drop_last().contains('\n') by {
            if i == 0 {
                if parts[0].drop_last().contains('\n') {
                    let j = choose|j: int| 0 <= j < n && parts[0].drop_last()[j] == '\n';
                    assert(s[j] == '\n');
                }
            } else {
                assert(parts[i] == rest[i - 1]);
            }
        }
        assert forall|i: int| 0 <= i < parts.len() - 1 implies (#[trigger] parts[i]).last()
            == '\n' by {
            if i > 0 {
                assert(parts[i] == rest[i - 1]);
            }
        }
    }
}

/// Law: each line of a text ends at its line feed, and loses one carriage return before it.
/// What follows the last line feed is a line where it is not empty.
pub proof fn law_lines_end_at_line_feeds(a: Seq<char>, b: Seq<char>)
    requires
        !a.contains('\n'),
    ensures
        lines(a.push('\n') + b) == seq![
            if a.len() > 0 && a.last() == '\r' {
                a.drop_last()
            } else {
                a
            },
        ] + lines(b),
        lines(a) == if a.len() == 0 {
            Seq::empty()
        } else {
            seq![a]
        },
{
    let s = a.push('\n') + b;
    let n = a.len() as int;
    assert forall|j: int| 0 <= j < n implies s[j] != '\n' by {
        assert(s[j] == a[j]);
        assert(a.contains(a[j]));
    }
    lemma_before_is(s, '\n', n);
    assert(s.take(n) =~= a);
    assert(s.skip(n + 1) =~= b);
    assert forall|j: int| 0 <= j < a.len() implies a[j] != '\n' by {
        assert(a.contains(a[j]));
    }
    lemma_before_is(a, '\n', n);
}

/// Law: trimming takes away the characters in front that it is to take away, and no other.
pub proof fn law_trimming_takes_the_front_away(s: Seq<char>, p: spec_fn(char) -> bool)
    ensures
        trim_start_by(s, p).len() <= s.len(),
        s.skip(s.len() - trim_start_by(s, p).len()) == trim_start_by(s, p),
        forall|i: int| 0 <= i < s.len() - trim_start_by(s, p).len() ==> p(#[trigger] s[i]),
        trim_start_by(s, p).len() > 0 ==> !p(trim_start_by(s, p)[0]),
    decreases s.len(),
{
    if s.len() > 0 && p(s[0]) {
        let rest = s.skip(1);
        law_trimming_takes_the_front_away(rest, p);
        let t = trim_start_by(s, p);
        assert(s.skip(s.len() - t.len()) =~= rest.skip(rest.len() - t.len()));
        assert forall|i: int| 0 <= i < s.len() - t.len() implies p(#[trigger] s[i]) by {
            if i > 0 {
                assert(rest[i - 1] == s[i]);
            }
        }
    } else {
        assert(s.skip(0) =~= s);
    }
}

/// Law: every piece stands in the text that the pieces are joined to.
pub proof fn law_joined_pieces_are_there(parts: Seq<Seq<char>>, sep: Seq<char>, i: int)
    requires
        0 <= i < parts.len(),
    ensures
        text::contains(join(parts, sep), parts[i]),
    decreases parts.len(),
{
    let all = join(parts, sep);
    let one = parts[i];
    if parts.len() == 1 {
        assert(all.subrange(0, one.len() as int) =~= one);
        assert(text::occurs_at(all, one, 0));
    } else if i < parts.len() - 1 {
        let head = parts.drop_last();
        law_joined_pieces_are_there(head, sep, i);
        assert(head[i] == one);
        let at = choose|at: int| text::occurs_at(join(head, sep), one, at);
        assert(all.subrange(at, at + one.len()) =~= join(head, sep).subrange(at, at + one.len()));
        assert(text::occurs_at(all, one, at));
    } else {
        let at = all.len() - one.len();
        assert(all.subrange(at, at + one.len()) =~= one);
        assert(text::occurs_at(all, one, at));
    }
}

} // verus!
