//! Searching and splitting byte strings.

use vstd::prelude::*;
use vstd::string::StrSliceExecFns;

use crate::text;

verus! {

/// The bytes of a text.
pub open spec fn bytes_of(s: Seq<char>) -> Seq<u8> {
    vstd::utf8::encode_utf8(s)
}

fn stands_at(s: &[u8], p: &[u8], i: usize) -> (r: bool)
    requires
        i <= s.len(),
    ensures
        r == text::occurs_at(s@, p@, i as int),
{
    if s.len() - i < p.len() {
        return false;
    }
    let mut j: usize = 0;
    while j < p.len()
        invariant
            j <= p.len(),
            i + p.len() <= s.len(),
            forall|k: int| 0 <= k < j ==> s@[i + k] == p@[k],
        decreases p.len() - j,
    {
        if s[i + j] != p[j] {
            assert(s@.subrange(i as int, i + p@.len())[j as int] != p@[j as int]);
            return false;
        }
        j = j + 1;
    }
    assert(s@.subrange(i as int, i + p@.len()) =~= p@);
    true
}

pub fn has(s: &[u8], p: &[u8]) -> (r: bool)
    ensures
        r == text::contains(s@, p@),
{
    let mut i: usize = 0;
    while i < s.len()
        invariant
            i <= s.len(),
            forall|j: int| 0 <= j < i ==> !text::occurs_at(s@, p@, j),
        decreases s.len() - i,
    {
        if stands_at(s, p, i) {
            return true;
        }
        i = i + 1;
    }
    stands_at(s, p, s.len())
}

pub fn begins(s: &[u8], p: &[u8]) -> (r: bool)
    ensures
        r == text::starts_with(s@, p@),
{
    stands_at(s, p, 0)
}

pub fn eq(a: &[u8], b: &[u8]) -> (r: bool)
    ensures
        r == (a@ == b@),
{
    if a.len() != b.len() {
        return false;
    }
    let r = stands_at(a, b, 0);
    assert(a@.subrange(0, a@.len() as int) =~= a@);
    r
}

/// An ASCII letter in lower case; every other byte as it is.
pub open spec fn lower_byte(b: u8) -> u8 {
    if 65 <= b <= 90 {
        (b + 32) as u8
    } else {
        b
    }
}

pub open spec fn lowered(s: Seq<u8>) -> Seq<u8> {
    s.map_values(|b: u8| lower_byte(b))
}

pub fn lower(s: &[u8]) -> (r: Vec<u8>)
    ensures
        r@ == lowered(s@),
{
    let mut out: Vec<u8> = Vec::new();
    let mut i: usize = 0;
    while i < s.len()
        invariant
            i <= s.len(),
            out@.len() == i,
            forall|j: int| 0 <= j < i ==> #[trigger] out@[j] == lower_byte(s@[j]),
        decreases s.len() - i,
    {
        let b = s[i];
        if 65 <= b && b <= 90 {
            out.push(b + 32);
        } else {
            out.push(b);
        }
        i = i + 1;
    }
    assert(out@ =~= lowered(s@));
    out
}

/// A message holds a phrase, in whatever case of ASCII letters.
pub open spec fn mentions(message: Seq<u8>, phrase: Seq<char>) -> bool {
    text::contains(lowered(message), bytes_of(phrase))
}

/// Whether a message in lower case holds a phrase.
pub fn holds_phrase(lower: &[u8], phrase: &str) -> (r: bool)
    ensures
        r == text::contains(lower@, bytes_of(phrase@)),
{
    has(lower, phrase.as_bytes_vec().as_slice())
}

/// The pieces between separators; one more than there are separators.
pub open spec fn split(s: Seq<u8>, b: u8) -> Seq<Seq<u8>>
    decreases s.len(),
{
    if s.len() == 0 {
        seq![Seq::empty()]
    } else {
        let head = split(s.drop_last(), b);
        if s.last() == b {
            head.push(Seq::empty())
        } else {
            head.drop_last().push(head.last().push(s.last()))
        }
    }
}

pub proof fn lemma_split(s: Seq<u8>, b: u8)
    ensures
        split(s, b).len() > 0,
    decreases s.len(),
{
    if s.len() > 0 {
        lemma_split(s.drop_last(), b);
    }
}

pub open spec fn pieces(v: Seq<Vec<u8>>) -> Seq<Seq<u8>> {
    v.map_values(|x: Vec<u8>| x@)
}

pub fn split_at(s: &[u8], b: u8) -> (r: Vec<Vec<u8>>)
    ensures
        pieces(r@) == split(s@, b),
        r@.len() > 0,
{
    let mut done: Vec<Vec<u8>> = Vec::new();
    let mut open: Vec<u8> = Vec::new();
    let mut i: usize = 0;
    assert(pieces(done@).push(open@) =~= split(s@.take(0), b));
    while i < s.len()
        invariant
            i <= s.len(),
            pieces(done@).push(open@) == split(s@.take(i as int), b),
        decreases s.len() - i,
    {
        let ghost (before, held) = (done@, open@);
        assert(s@.take(i + 1).drop_last() =~= s@.take(i as int));
        assert(s@.take(i + 1).last() == s@[i as int]);
        assert(pieces(before).push(held).drop_last() =~= pieces(before));
        if s[i] == b {
            done.push(open);
            open = Vec::new();
            assert(pieces(done@) =~= pieces(before).push(held));
            assert(open@ =~= Seq::<u8>::empty());
        } else {
            open.push(s[i]);
        }
        i = i + 1;
    }
    assert(s@.take(i as int) =~= s@);
    let ghost (before, held) = (done@, open@);
    done.push(open);
    assert(pieces(done@) =~= pieces(before).push(held));
    done
}

/// A copy of the bytes from `from` up to `to`.
pub fn copy(s: &[u8], from: usize, to: usize) -> (r: Vec<u8>)
    requires
        from <= to <= s.len(),
    ensures
        r@ == s@.subrange(from as int, to as int),
{
    let mut out: Vec<u8> = Vec::new();
    let mut i: usize = from;
    while i < to
        invariant
            from <= i <= to <= s.len(),
            out@ =~= s@.subrange(from as int, i as int),
        decreases to - i,
    {
        out.push(s[i]);
        i = i + 1;
    }
    out
}

/// The position of the first such byte, or the length.
pub open spec fn position(s: Seq<u8>, b: u8) -> nat
    decreases s.len(),
{
    if s.len() == 0 || s[0] == b {
        0
    } else {
        1 + position(s.skip(1), b)
    }
}

pub fn find(s: &[u8], b: u8) -> (r: usize)
    ensures
        r == position(s@, b),
        r <= s.len(),
{
    let mut i: usize = 0;
    assert(s@.skip(0) =~= s@);
    while i < s.len()
        invariant
            i <= s.len(),
            position(s@, b) == i + position(s@.skip(i as int), b),
        decreases s.len() - i,
    {
        assert(s@.skip(i as int)[0] == s@[i as int]);
        if s[i] == b {
            return i;
        }
        assert(s@.skip(i as int).skip(1) =~= s@.skip(i + 1));
        i = i + 1;
    }
    i
}

} // verus!
