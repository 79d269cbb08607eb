//! The block of managed rules in `.gitignore`.

use vstd::prelude::*;
use vstd::string::StrSliceExecFns;

use crate::bytes;
use crate::path;
use crate::path::ManagedPath;
use crate::segment;
use crate::text;

verus! {

pub open spec fn begin_marker() -> Seq<u8> {
    bytes::bytes_of("# BEGIN gitveil managed files"@)
}

pub open spec fn end_marker() -> Seq<u8> {
    bytes::bytes_of("# END gitveil managed files"@)
}

pub open spec fn marker_fragment() -> Seq<u8> {
    bytes::bytes_of("gitveil managed files"@)
}

#[derive(Clone, Copy, Debug, PartialEq, Eq, Structural)]
pub enum ManagedIgnoreError {
    MalformedBlock,
}

impl ManagedIgnoreError {
    pub fn message(self) -> (r: &'static str)
        ensures
            r@ == ".gitignore contains a malformed Gitveil managed block"@,
    {
        ".gitignore contains a malformed Gitveil managed block"
    }
}

/// The lines of a file, each with its line feed.
pub open spec fn line_pieces(s: Seq<u8>) -> Seq<Seq<u8>>
    decreases s.len(),
{
    let n = bytes::position(s, 10) as int;
    if s.len() == 0 {
        Seq::empty()
    } else if n >= s.len() {
        seq![s]
    } else {
        seq![s.take(n + 1)] + line_pieces(s.skip(n + 1))
    }
}

/// A line without its line feed or CR LF pair.
pub open spec fn content(p: Seq<u8>) -> Seq<u8> {
    if p.len() > 0 && p.last() == 10 {
        let q = p.drop_last();
        if q.len() > 0 && q.last() == 13 {
            q.drop_last()
        } else {
            q
        }
    } else {
        p
    }
}

pub open spec fn is_begin(p: Seq<u8>) -> bool {
    content(p) == begin_marker()
}

pub open spec fn is_end(p: Seq<u8>) -> bool {
    content(p) == end_marker()
}

/// A line that looks like a marker and is none.
pub open spec fn is_stray(p: Seq<u8>) -> bool {
    !is_begin(p) && !is_end(p) && text::contains(content(p), marker_fragment())
}

/// The lines joined again.
pub open spec fn joined(pieces: Seq<Seq<u8>>) -> Seq<u8>
    decreases pieces.len(),
{
    if pieces.len() == 0 {
        Seq::empty()
    } else {
        joined(pieces.drop_last()) + pieces.last()
    }
}

/// The positions of the begin markers.
pub open spec fn begins(pieces: Seq<Seq<u8>>) -> Seq<int>
    decreases pieces.len(),
{
    if pieces.len() == 0 {
        Seq::empty()
    } else if is_begin(pieces.last()) {
        begins(pieces.drop_last()).push(pieces.len() - 1)
    } else {
        begins(pieces.drop_last())
    }
}

/// The positions of the end markers.
pub open spec fn ends(pieces: Seq<Seq<u8>>) -> Seq<int>
    decreases pieces.len(),
{
    if pieces.len() == 0 {
        Seq::empty()
    } else if is_end(pieces.last()) {
        ends(pieces.drop_last()).push(pieces.len() - 1)
    } else {
        ends(pieces.drop_last())
    }
}

pub open spec fn has_stray(pieces: Seq<Seq<u8>>) -> bool {
    exists|i: int| 0 <= i < pieces.len() && is_stray(#[trigger] pieces[i])
}

/// The bytes outside the managed block; `None` where its markers are malformed.
pub open spec fn user_bytes(pieces: Seq<Seq<u8>>) -> Option<Seq<u8>> {
    let (b, e) = (begins(pieces), ends(pieces));
    if has_stray(pieces) {
        None
    } else if b.len() == 0 && e.len() == 0 {
        Some(joined(pieces))
    } else if b.len() == 1 && e.len() == 1 && b[0] < e[0] {
        Some(joined(pieces.take(b[0])) + joined(pieces.skip(e[0] + 1)))
    } else {
        None
    }
}

/// The line break that a file uses first.
pub open spec fn preferred_newline(s: Seq<u8>) -> Seq<u8> {
    let n = bytes::position(s, 10) as int;
    if n < s.len() && n > 0 && s[n - 1] == 13 {
        seq![13u8, 10u8]
    } else {
        seq![10u8]
    }
}

/// A pattern whose trailing spaces count.
pub open spec fn escaped_spaces(s: Seq<char>) -> Seq<char>
    decreases s.len(),
{
    if s.len() > 0 && s.last() == ' ' {
        escaped_spaces(s.drop_last()) + seq!['\\', ' ']
    } else {
        s
    }
}

/// The rules of a managed path: the plaintext is ignored, the ciphertext is not.
pub open spec fn path_rules(path: Seq<char>, newline: Seq<u8>) -> Seq<u8> {
    bytes::bytes_of("/"@) + bytes::bytes_of(escaped_spaces(path)) + newline + bytes::bytes_of("!/"@)
        + bytes::bytes_of(escaped_spaces(path)) + bytes::bytes_of(".gitveil"@) + newline
}

pub open spec fn all_rules(paths: Seq<Seq<char>>, newline: Seq<u8>) -> Seq<u8>
    decreases paths.len(),
{
    if paths.len() == 0 {
        Seq::empty()
    } else {
        all_rules(paths.drop_last(), newline) + path_rules(paths.last(), newline)
    }
}

/// The managed block.
pub open spec fn block(paths: Seq<Seq<char>>, newline: Seq<u8>) -> Seq<u8> {
    begin_marker() + newline + all_rules(paths, newline) + end_marker() + newline
}

/// Bytes that a block can follow: none, or whole lines.
pub open spec fn completed(base: Seq<u8>, newline: Seq<u8>) -> Seq<u8> {
    if base.len() > 0 && base.last() != 10 {
        base + newline
    } else {
        base
    }
}

/// A `.gitignore` with the rules of the managed paths at its end.
pub open spec fn managed_ignore(existing: Seq<u8>, paths: Seq<Seq<char>>) -> Option<Seq<u8>> {
    match user_bytes(line_pieces(existing)) {
        None => None,
        Some(base) => {
            let newline = preferred_newline(existing);
            Some(completed(base, newline) + block(paths, newline))
        },
    }
}

fn split_lines(s: &[u8]) -> (r: Vec<Vec<u8>>)
    ensures
        bytes::pieces(r@) == line_pieces(s@),
{
    let mut out: Vec<Vec<u8>> = Vec::new();
    let mut start: usize = 0;
    assert(s@.skip(0) =~= s@);
    assert(bytes::pieces(out@) + line_pieces(s@) =~= line_pieces(s@));
    while start < s.len()
        invariant
            start <= s.len(),
            bytes::pieces(out@) + line_pieces(s@.skip(start as int)) == line_pieces(s@),
        decreases s.len() - start,
    {
        let ghost rest = s@.skip(start as int);
        let ghost before = out@;
        let tail = bytes::copy(s, start, s.len());
        assert(tail@ =~= rest);
        let n = bytes::find(tail.as_slice(), 10);
        if n >= tail.len() {
            out.push(tail);
            assert(bytes::pieces(out@) =~= bytes::pieces(before).push(rest));
            assert(bytes::pieces(before) + seq![rest] =~= bytes::pieces(out@));
            start = s.len();
            assert(s@.skip(start as int) =~= Seq::<u8>::empty());
            assert(bytes::pieces(out@) + line_pieces(s@.skip(start as int)) =~= bytes::pieces(
                out@,
            ));
        } else {
            let line = bytes::copy(s, start, start + n + 1);
            assert(line@ =~= rest.take(n + 1));
            out.push(line);
            assert(bytes::pieces(out@) =~= bytes::pieces(before).push(rest.take(n + 1)));
            assert(rest.skip(n + 1) =~= s@.skip(start + n + 1));
            assert(bytes::pieces(before) + (seq![rest.take(n + 1)] + line_pieces(rest.skip(n + 1)))
                =~= bytes::pieces(out@) + line_pieces(rest.skip(n + 1)));
            start = start + n + 1;
        }
    }
    assert(s@.skip(start as int) =~= Seq::<u8>::empty());
    assert(bytes::pieces(out@) + line_pieces(s@.skip(start as int)) =~= bytes::pieces(out@));
    out
}

fn content_of(p: &[u8]) -> (r: Vec<u8>)
    ensures
        r@ == content(p@),
{
    let mut n: usize = p.len();
    if n > 0 && p[n - 1] == 10 {
        n = n - 1;
        if n > 0 && p[n - 1] == 13 {
            n = n - 1;
        }
    }
    let r = bytes::copy(p, 0, n);
    assert(r@ =~= content(p@));
    r
}

fn join_lines(lines: &Vec<Vec<u8>>, from: usize, to: usize) -> (r: Vec<u8>)
    requires
        from <= to <= lines@.len(),
    ensures
        r@ == joined(bytes::pieces(lines@).subrange(from as int, to as int)),
{
    let ghost all = bytes::pieces(lines@).subrange(from as int, to as int);
    let mut out: Vec<u8> = Vec::new();
    let mut i: usize = from;
    assert(out@ =~= joined(all.take(0)));
    while i < to
        invariant
            from <= i <= to <= lines@.len(),
            all == bytes::pieces(lines@).subrange(from as int, to as int),
            out@ == joined(all.take(i - from)),
        decreases to - i,
    {
        assert(all.take(i + 1 - from).drop_last() =~= all.take(i - from));
        assert(all.take(i + 1 - from).last() == lines@[i as int]@);
        let mut line = bytes::copy(lines[i].as_slice(), 0, lines[i].len());
        assert(line@ =~= lines@[i as int]@);
        out.append(&mut line);
        i = i + 1;
    }
    assert(all.take(to - from) =~= all);
    out
}

/// Where the markers stand in the lines of a file.
struct Marks {
    first_begin: usize,
    begin_count: usize,
    first_end: usize,
    end_count: usize,
}

fn find_marks(lines: &Vec<Vec<u8>>) -> (r: Option<Marks>)
    ensures
        ({
            let all = bytes::pieces(lines@);
            match r {
                None => has_stray(all),
                Some(m) => {
                    &&& !has_stray(all)
                    &&& m.begin_count == begins(all).len()
                    &&& m.end_count == ends(all).len()
                    &&& m.begin_count > 0 ==> begins(all)[0] == m.first_begin && m.first_begin
                        < lines@.len()
                    &&& m.end_count > 0 ==> ends(all)[0] == m.first_end && m.first_end
                        < lines@.len()
                },
            }
        }),
{
    let ghost all = bytes::pieces(lines@);
    let begin = "# BEGIN gitveil managed files".as_bytes_vec();
    let end = "# END gitveil managed files".as_bytes_vec();
    let fragment = "gitveil managed files".as_bytes_vec();
    let mut m = Marks { first_begin: 0, begin_count: 0, first_end: 0, end_count: 0 };
    let mut i: usize = 0;
    assert(all.take(0) =~= Seq::<Seq<u8>>::empty());
    while i < lines.len()
        invariant
            i <= lines.len(),
            all == bytes::pieces(lines@),
            begin@ == begin_marker(),
            end@ == end_marker(),
            fragment@ == marker_fragment(),
            forall|j: int| 0 <= j < i ==> !is_stray(#[trigger] all[j]),
            m.begin_count == begins(all.take(i as int)).len(),
            m.end_count == ends(all.take(i as int)).len(),
            m.begin_count <= i,
            m.end_count <= i,
            m.begin_count > 0 ==> begins(all.take(i as int))[0] == m.first_begin && m.first_begin
                < i,
            m.end_count > 0 ==> ends(all.take(i as int))[0] == m.first_end && m.first_end < i,
        decreases lines.len() - i,
    {
        assert(all.take(i + 1).drop_last() =~= all.take(i as int));
        assert(all.take(i + 1).last() == lines@[i as int]@);
        assert(all[i as int] == lines@[i as int]@);
        let line = content_of(lines[i].as_slice());
        let opens = bytes::eq(line.as_slice(), begin.as_slice());
        let closes = bytes::eq(line.as_slice(), end.as_slice());
        if opens {
            if m.begin_count == 0 {
                m.first_begin = i;
            }
            m.begin_count = m.begin_count + 1;
        }
        if closes {
            if m.end_count == 0 {
                m.first_end = i;
            }
            m.end_count = m.end_count + 1;
        }
        if !opens && !closes && bytes::has(line.as_slice(), fragment.as_slice()) {
            return None;
        }
        i = i + 1;
    }
    assert(all.take(i as int) =~= all);
    Some(m)
}

fn find_newline(s: &[u8]) -> (r: Vec<u8>)
    ensures
        r@ == preferred_newline(s@),
{
    let n = bytes::find(s, 10);
    if n < s.len() && n > 0 && s[n - 1] == 13 {
        vec![13, 10]
    } else {
        vec![10]
    }
}

fn escape_trailing_spaces(value: &str) -> (r: String)
    ensures
        r@ == escaped_spaces(value@),
{
    let chars = text::chars_of(value);
    let ghost all = chars@;
    let mut n: usize = chars.len();
    while n > 0 && chars[n - 1] == ' '
        invariant
            n <= chars@.len(),
            all == chars@,
            forall|j: int| n <= j < all.len() ==> #[trigger] all[j] == ' ',
        decreases n,
    {
        n = n - 1;
    }
    let mut out = segment::slice_to_vec(chars.as_slice(), 0, n);
    assert(out@ =~= all.take(n as int));
    assert(n > 0 ==> all.take(n as int).last() == all[n - 1]);
    let mut i: usize = n;
    while i < chars.len()
        invariant
            n <= i <= chars@.len(),
            all == chars@,
            forall|j: int| n <= j < all.len() ==> #[trigger] all[j] == ' ',
            out@ == escaped_spaces(all.take(i as int)),
        decreases chars@.len() - i,
    {
        let ghost before = out@;
        assert(all.take(i + 1).last() == all[i as int]);
        assert(all.take(i + 1).drop_last() =~= all.take(i as int));
        out.push('\\');
        out.push(' ');
        assert(out@ =~= before + seq!['\\', ' ']);
        i = i + 1;
    }
    assert(all.take(i as int) =~= all);
    text::string_of(out.as_slice())
}

fn push_bytes(out: &mut Vec<u8>, s: &[u8])
    ensures
        final(out)@ == old(out)@ + s@,
{
    let mut copy = bytes::copy(s, 0, s.len());
    assert(copy@ =~= s@);
    out.append(&mut copy);
}

fn push_str(out: &mut Vec<u8>, s: &str)
    ensures
        final(out)@ == old(out)@ + bytes::bytes_of(s@),
{
    let mut copy = s.as_bytes_vec();
    out.append(&mut copy);
}

fn push_rules(out: &mut Vec<u8>, paths: &[ManagedPath], newline: &[u8])
    ensures
        final(out)@ == old(out)@ + all_rules(path::path_texts(paths@), newline@),
{
    let ghost before = out@;
    let ghost all = path::path_texts(paths@);
    let mut i: usize = 0;
    assert(out@ =~= before + all_rules(all.take(0), newline@));
    while i < paths.len()
        invariant
            i <= paths.len(),
            all == path::path_texts(paths@),
            out@ == before + all_rules(all.take(i as int), newline@),
        decreases paths.len() - i,
    {
        let ghost held = out@;
        let escaped = escape_trailing_spaces(paths[i].as_str());
        push_str(out, "/");
        push_str(out, escaped.as_str());
        push_bytes(out, newline);
        push_str(out, "!/");
        push_str(out, escaped.as_str());
        push_str(out, ".gitveil");
        push_bytes(out, newline);
        assert(all.take(i + 1).drop_last() =~= all.take(i as int));
        assert(all.take(i + 1).last() == paths@[i as int]@);
        assert(out@ =~= held + path_rules(paths@[i as int]@, newline@));
        assert(out@ =~= before + all_rules(all.take(i + 1), newline@));
        i = i + 1;
    }
    assert(all.take(i as int) =~= all);
}

/// The bytes outside the managed block.
fn read_user_bytes(existing: &[u8]) -> (r: Option<Vec<u8>>)
    ensures
        match r {
            Some(base) => user_bytes(line_pieces(existing@)) == Some(base@),
            None => user_bytes(line_pieces(existing@)) is None,
        },
{
    let lines = split_lines(existing);
    let ghost all = bytes::pieces(lines@);
    assert(all.len() == lines@.len());
    let marks = match find_marks(&lines) {
        Some(marks) => marks,
        None => {
            return None;
        },
    };
    if marks.begin_count == 0 && marks.end_count == 0 {
        assert(all.subrange(0, all.len() as int) =~= all);
        return Some(join_lines(&lines, 0, lines.len()));
    }
    if marks.begin_count != 1 || marks.end_count != 1 || marks.first_begin >= marks.first_end {
        return None;
    }
    let (from, to) = (marks.first_begin, marks.first_end);
    assert(from < lines@.len() && to < lines@.len());
    let mut head = join_lines(&lines, 0, from);
    let tail = join_lines(&lines, to + 1, lines.len());
    assert(all.subrange(0, from as int) =~= all.take(from as int));
    assert(all.subrange(to + 1, all.len() as int) =~= all.skip(to + 1));
    push_bytes(&mut head, tail.as_slice());
    Some(head)
}

fn push_block(out: &mut Vec<u8>, paths: &[ManagedPath], newline: &[u8])
    ensures
        final(out)@ == old(out)@ + block(path::path_texts(paths@), newline@),
{
    let ghost start = out@;
    push_str(out, "# BEGIN gitveil managed files");
    push_bytes(out, newline);
    push_rules(out, paths, newline);
    push_str(out, "# END gitveil managed files");
    push_bytes(out, newline);
    assert(out@ =~= start + block(path::path_texts(paths@), newline@));
}

/// Renders a `.gitignore` with the rules of the managed paths at its end. Everything
/// outside the managed block is kept as it is.
pub fn render_managed_ignore(existing: &[u8], paths: &[ManagedPath]) -> (r: Result<
    Vec<u8>,
    ManagedIgnoreError,
>)
    ensures
        match managed_ignore(existing@, path::path_texts(paths@)) {
            Some(bytes) => r matches Ok(v) && v@ == bytes,
            None => r == Err::<Vec<u8>, ManagedIgnoreError>(ManagedIgnoreError::MalformedBlock),
        },
{
    let mut base = match read_user_bytes(existing) {
        Some(base) => base,
        None => {
            return Err(ManagedIgnoreError::MalformedBlock);
        },
    };
    let newline = find_newline(existing);
    if base.len() > 0 && base[base.len() - 1] != 10 {
        push_bytes(&mut base, newline.as_slice());
    }
    push_block(&mut base, paths, newline.as_slice());
    Ok(base)
}

/// Law: everything outside the managed block comes through, in front of the new
/// block; a file without one is kept whole.
pub proof fn law_user_rules_are_kept(existing: Seq<u8>, paths: Seq<Seq<char>>)
    requires
        managed_ignore(existing, paths) is Some,
    ensures
        ({
            let r = managed_ignore(existing, paths)->Some_0;
            let user = user_bytes(line_pieces(existing))->Some_0;
            &&& text::starts_with(r, user)
            &&& text::ends_with(r, block(paths, preferred_newline(existing)))
            &&& begins(line_pieces(existing)).len() == 0 ==> text::starts_with(r, existing)
        }),
{
    let r = managed_ignore(existing, paths)->Some_0;
    let user = user_bytes(line_pieces(existing))->Some_0;
    let newline = preferred_newline(existing);
    let b = block(paths, newline);
    assert(r.subrange(0, user.len() as int) =~= user);
    assert(r.subrange(r.len() - b.len(), r.len() as int) =~= b);
    lemma_joined_lines(existing);
}

/// Joining the lines of a file gives the file.
proof fn lemma_joined_lines(s: Seq<u8>)
    ensures
        joined(line_pieces(s)) == s,
    decreases s.len(),
{
    let n = bytes::position(s, 10) as int;
    if s.len() == 0 {
        assert(joined(line_pieces(s)) =~= s);
    } else if n >= s.len() {
        lemma_joined_one(s);
    } else {
        lemma_joined_lines(s.skip(n + 1));
        lemma_joined_one(s.take(n + 1));
        lemma_joined_sum(seq![s.take(n + 1)], line_pieces(s.skip(n + 1)));
        assert(s.take(n + 1) + s.skip(n + 1) =~= s);
    }
}

proof fn lemma_joined_one(p: Seq<u8>)
    ensures
        joined(seq![p]) == p,
{
    assert(seq![p].drop_last() =~= Seq::<Seq<u8>>::empty());
    assert(joined(seq![p].drop_last()) =~= Seq::<u8>::empty());
    assert(joined(seq![p]) =~= p);
}

proof fn lemma_joined_sum(p: Seq<Seq<u8>>, q: Seq<Seq<u8>>)
    ensures
        joined(p + q) == joined(p) + joined(q),
    decreases q.len(),
{
    if q.len() == 0 {
        assert(p + q =~= p);
        assert(joined(p) + joined(q) =~= joined(p));
    } else {
        assert((p + q).drop_last() =~= p + q.drop_last());
        assert((p + q).last() == q.last());
        lemma_joined_sum(p, q.drop_last());
        assert(joined(p + q) =~= joined(p) + joined(q));
    }
}

/// A line with its line feed.
pub open spec fn whole_line(p: Seq<u8>) -> bool {
    p.len() > 0 && bytes::position(p, 10) == p.len() - 1
}

/// Lines as a file has them: whole ones, but perhaps for the last.
pub open spec fn as_lines(pieces: Seq<Seq<u8>>) -> bool {
    &&& forall|i: int| 0 <= i < pieces.len() - 1 ==> whole_line(#[trigger] pieces[i])
    &&& pieces.len() > 0 ==> pieces.last().len() > 0 && bytes::position(pieces.last(), 10)
        >= pieces.last().len() - 1
}

proof fn lemma_position(s: Seq<u8>, b: u8)
    ensures
        bytes::position(s, b) <= s.len(),
        bytes::position(s, b) < s.len() ==> s[bytes::position(s, b) as int] == b,
        forall|j: int| 0 <= j < bytes::position(s, b) ==> #[trigger] s[j] != b,
    decreases s.len(),
{
    if s.len() > 0 && s[0] != b {
        lemma_position(s.skip(1), b);
        assert forall|j: int| 0 <= j < bytes::position(s, b) implies #[trigger] s[j] != b by {
            if j > 0 {
                assert(s.skip(1)[j - 1] == s[j]);
            }
        }
    }
}

proof fn lemma_position_is(s: Seq<u8>, b: u8, n: int)
    requires
        0 <= n <= s.len(),
        n < s.len() ==> s[n] == b,
        forall|j: int| 0 <= j < n ==> #[trigger] s[j] != b,
    ensures
        bytes::position(s, b) == n,
    decreases s.len(),
{
    if n > 0 {
        assert(s[0] != b);
        assert forall|j: int| 0 <= j < n - 1 implies #[trigger] s.skip(1)[j] != b by {
            assert(s.skip(1)[j] == s[j + 1]);
        }
        lemma_position_is(s.skip(1), b, n - 1);
    }
}

/// A whole line in front is the first of the lines.
proof fn lemma_first_line(p: Seq<u8>, rest: Seq<u8>)
    requires
        whole_line(p),
    ensures
        line_pieces(p + rest) == seq![p] + line_pieces(rest),
{
    let n = p.len() - 1;
    lemma_position(p, 10);
    assert forall|j: int| 0 <= j < n implies #[trigger] (p + rest)[j] != 10 by {
        assert((p + rest)[j] == p[j]);
    }
    lemma_position_is(p + rest, 10, n);
    assert((p + rest).take(n + 1) =~= p);
    assert((p + rest).skip(n + 1) =~= rest);
}

/// The lines of joined lines are these lines.
proof fn lemma_lines_of_joined(pieces: Seq<Seq<u8>>, tail: Seq<u8>)
    requires
        forall|i: int| 0 <= i < pieces.len() ==> whole_line(#[trigger] pieces[i]),
    ensures
        line_pieces(joined(pieces) + tail) == pieces + line_pieces(tail),
    decreases pieces.len(),
{
    if pieces.len() == 0 {
        assert(joined(pieces) + tail =~= tail);
        assert(pieces + line_pieces(tail) =~= line_pieces(tail));
    } else {
        let head = pieces.drop_last();
        let last = pieces.last();
        assert forall|i: int| 0 <= i < head.len() implies whole_line(#[trigger] head[i]) by {
            assert(head[i] == pieces[i]);
        }
        lemma_lines_of_joined(head, last + tail);
        lemma_first_line(last, tail);
        assert(joined(pieces) + tail =~= joined(head) + (last + tail));
        assert(head + (seq![last] + line_pieces(tail)) =~= pieces + line_pieces(tail));
    }
}

/// The lines of a file are as a file has them.
proof fn lemma_are_lines(s: Seq<u8>)
    ensures
        as_lines(line_pieces(s)),
    decreases s.len(),
{
    let n = bytes::position(s, 10) as int;
    if s.len() > 0 {
        lemma_position(s, 10);
        if n >= s.len() {
            assert(line_pieces(s).last() == s);
        } else {
            let p = s.take(n + 1);
            let rest = line_pieces(s.skip(n + 1));
            assert forall|j: int| 0 <= j < n implies #[trigger] p[j] != 10 by {
                assert(p[j] == s[j]);
            }
            lemma_position_is(p, 10, n);
            lemma_are_lines(s.skip(n + 1));
            let all = seq![p] + rest;
            assert forall|i: int| 0 <= i < all.len() - 1 implies whole_line(#[trigger] all[i]) by {
                if i > 0 {
                    assert(all[i] == rest[i - 1]);
                }
            }
            if rest.len() > 0 {
                assert(all.last() == rest.last());
            } else {
                assert(all.last() == p);
            }
        }
    }
}

/// A line that has nothing of a marker.
pub open spec fn unmarked(p: Seq<u8>) -> bool {
    !text::contains(content(p), marker_fragment())
}

/// Both markers hold the fragment by which they are known.
proof fn lemma_markers_hold_fragment()
    ensures
        text::contains(begin_marker(), marker_fragment()),
        text::contains(end_marker(), marker_fragment()),
        begin_marker() != end_marker(),
        !begin_marker().contains(10),
        !end_marker().contains(10),
        begin_marker().len() > 0 && begin_marker().last() != 13,
        end_marker().len() > 0 && end_marker().last() != 13,
{
    reveal_strlit("# BEGIN gitveil managed files");
    reveal_strlit("# END gitveil managed files");
    reveal_strlit("gitveil managed files");
    let (b, e, f) = (
        "# BEGIN gitveil managed files"@,
        "# END gitveil managed files"@,
        "gitveil managed files"@,
    );
    assert(vstd::utf8::is_ascii_chars(b));
    assert(vstd::utf8::is_ascii_chars(e));
    assert(vstd::utf8::is_ascii_chars(f));
    vstd::utf8::is_ascii_chars_encode_utf8(b);
    vstd::utf8::is_ascii_chars_encode_utf8(e);
    vstd::utf8::is_ascii_chars_encode_utf8(f);
    assert(b.len() == 29 && e.len() == 27 && f.len() == 21);
    let (bb, eb, fb) = (begin_marker(), end_marker(), marker_fragment());
    assert forall|i: int| 0 <= i < 21 implies bb.subrange(8, 29)[i] == fb[i] by {
        assert(b[i + 8] as u8 == bb[i + 8]);
        assert(f[i] as u8 == fb[i]);
    }
    assert(bb.subrange(8, 29) =~= fb);
    assert(text::occurs_at(bb, fb, 8));
    assert forall|i: int| 0 <= i < 21 implies eb.subrange(6, 27)[i] == fb[i] by {
        assert(e[i + 6] as u8 == eb[i + 6]);
        assert(f[i] as u8 == fb[i]);
    }
    assert(eb.subrange(6, 27) =~= fb);
    assert(text::occurs_at(eb, fb, 6));
    assert forall|i: int| 0 <= i < 29 implies bb[i] != 10 by {
        assert(b[i] as u8 == bb[i]);
    }
    assert forall|i: int| 0 <= i < 27 implies eb[i] != 10 by {
        assert(e[i] as u8 == eb[i]);
    }
    assert(b[28] as u8 == bb[28]);
    assert(e[26] as u8 == eb[26]);
}

/// Lines that have nothing of a marker have none.
proof fn lemma_no_marks(pieces: Seq<Seq<u8>>)
    requires
        forall|i: int| 0 <= i < pieces.len() ==> unmarked(#[trigger] pieces[i]),
    ensures
        begins(pieces).len() == 0,
        ends(pieces).len() == 0,
        !has_stray(pieces),
    decreases pieces.len(),
{
    lemma_markers_hold_fragment();
    if pieces.len() > 0 {
        let head = pieces.drop_last();
        assert forall|i: int| 0 <= i < head.len() implies unmarked(#[trigger] head[i]) by {
            assert(head[i] == pieces[i]);
        }
        lemma_no_marks(head);
        assert(unmarked(pieces[pieces.len() - 1]));
    }
}

/// The marks of lines with more lines behind that have none.
proof fn lemma_marks_before(pieces: Seq<Seq<u8>>, more: Seq<Seq<u8>>)
    requires
        forall|i: int| 0 <= i < more.len() ==> unmarked(#[trigger] more[i]),
    ensures
        begins(pieces + more) == begins(pieces),
        ends(pieces + more) == ends(pieces),
    decreases more.len(),
{
    lemma_markers_hold_fragment();
    if more.len() == 0 {
        assert(pieces + more =~= pieces);
    } else {
        let head = more.drop_last();
        assert forall|i: int| 0 <= i < head.len() implies unmarked(#[trigger] head[i]) by {
            assert(head[i] == more[i]);
        }
        lemma_marks_before(pieces, head);
        assert((pieces + more).drop_last() =~= pieces + head);
        assert((pieces + more).last() == more.last());
        assert(unmarked(more[more.len() - 1]));
    }
}

/// Where no marker stands, the lines have nothing of one.
proof fn lemma_unmarked(pieces: Seq<Seq<u8>>, i: int)
    requires
        !has_stray(pieces),
        0 <= i < pieces.len(),
        !begins(pieces).contains(i),
        !ends(pieces).contains(i),
    ensures
        unmarked(pieces[i]),
{
    lemma_marks_stand(pieces, i);
    assert(!is_stray(pieces[i]));
}

proof fn lemma_marks_stand(pieces: Seq<Seq<u8>>, i: int)
    requires
        0 <= i < pieces.len(),
    ensures
        is_begin(pieces[i]) ==> begins(pieces).contains(i),
        is_end(pieces[i]) ==> ends(pieces).contains(i),
    decreases pieces.len(),
{
    let head = pieces.drop_last();
    if i < head.len() {
        lemma_marks_stand(head, i);
        assert(head[i] == pieces[i]);
        if begins(head).contains(i) {
            let k = choose|k: int| 0 <= k < begins(head).len() && begins(head)[k] == i;
            assert(begins(pieces)[k] == i);
        }
        if ends(head).contains(i) {
            let k = choose|k: int| 0 <= k < ends(head).len() && ends(head)[k] == i;
            assert(ends(pieces)[k] == i);
        }
    } else {
        if is_begin(pieces[i]) {
            let k = begins(head).len() as int;
            assert(begins(pieces)[k] == i);
        }
        if is_end(pieces[i]) {
            let k = ends(head).len() as int;
            assert(ends(pieces)[k] == i);
        }
    }
}

/// A prefix of bytes without a fragment has none.
proof fn lemma_prefix_free(s: Seq<u8>, n: int, f: Seq<u8>)
    requires
        0 <= n <= s.len(),
        !text::contains(s, f),
    ensures
        !text::contains(s.take(n), f),
{
    if text::contains(s.take(n), f) {
        let i = choose|i: int| text::occurs_at(s.take(n), f, i);
        assert(s.take(n).subrange(i, i + f.len()) =~= s.subrange(i, i + f.len()));
        assert(text::occurs_at(s, f, i));
    }
}

/// A file whose lines have nothing of a marker, completed, has such lines still.
proof fn lemma_completed(pieces: Seq<Seq<u8>>, newline: Seq<u8>)
    requires
        as_lines(pieces),
        forall|i: int| 0 <= i < pieces.len() ==> unmarked(#[trigger] pieces[i]),
        newline == seq![10u8] || newline == seq![13u8, 10u8],
    ensures
        ({
            let r = completed(joined(pieces), newline);
            let lines = line_pieces(r);
            &&& forall|i: int| 0 <= i < lines.len() ==> whole_line(#[trigger] lines[i])
            &&& forall|i: int| 0 <= i < lines.len() ==> unmarked(#[trigger] lines[i])
            &&& joined(lines) == r
        }),
{
    let s = joined(pieces);
    let r = completed(s, newline);
    if pieces.len() == 0 {
        assert(r =~= Seq::<u8>::empty());
        assert(joined(line_pieces(r)) =~= r);
    } else {
        let head = pieces.drop_last();
        let last = pieces.last();
        assert forall|i: int| 0 <= i < head.len() implies whole_line(#[trigger] head[i]) by {
            assert(head[i] == pieces[i]);
        }
        lemma_position(last, 10);
        assert(s =~= joined(head) + last);
        assert(s.last() == last.last());
        assert(unmarked(pieces[pieces.len() - 1]));
        let ended = if last.last() == 10 {
            last
        } else {
            last + newline
        };
        assert(r =~= joined(head) + ended);
        if last.last() == 10 {
            assert(bytes::position(last, 10) == last.len() - 1) by {
                if bytes::position(last, 10) == last.len() {
                    assert(last[last.len() - 1] != 10);
                }
            }
        } else {
            assert(bytes::position(last, 10) == last.len()) by {
                if bytes::position(last, 10) < last.len() {
                    assert(last[last.len() - 1] == 10);
                }
            }
            let n = ended.len() - 1;
            assert forall|j: int| 0 <= j < n implies #[trigger] ended[j] != 10 by {
                if j < last.len() {
                    assert(ended[j] == last[j]);
                }
            }
            lemma_position_is(ended, 10, n);
            assert(content(last) == last);
            if newline == seq![10u8] {
                assert(ended.drop_last() =~= last);
                lemma_prefix_free(last, last.len() - 1, marker_fragment());
                assert(last.drop_last() =~= last.take(last.len() - 1));
            } else {
                assert(ended.drop_last().last() == 13);
                assert(ended.drop_last().drop_last() =~= last);
            }
        }
        assert(whole_line(ended));
        assert(unmarked(ended));
        lemma_lines_of_joined(head, ended);
        lemma_first_line(ended, Seq::empty());
        assert(ended + Seq::<u8>::empty() =~= ended);
        assert(seq![ended] + line_pieces(Seq::<u8>::empty()) =~= seq![ended]);
        let lines = line_pieces(r);
        assert(lines =~= head.push(ended));
        assert forall|i: int| 0 <= i < lines.len() implies unmarked(#[trigger] lines[i]) by {
            if i < head.len() {
                assert(lines[i] == pieces[i]);
            }
        }
        lemma_joined_lines(r);
    }
}

/// A rule that is a line and has nothing of a marker.
pub open spec fn clean_rule(rule: Seq<u8>) -> bool {
    rule.len() > 0 && !rule.contains(10) && rule.last() != 13 && !text::contains(
        rule,
        marker_fragment(),
    )
}

/// The two rules of a path.
pub open spec fn plain_rule(path: Seq<char>) -> Seq<u8> {
    bytes::bytes_of("/"@) + bytes::bytes_of(escaped_spaces(path))
}

pub open spec fn cipher_rule(path: Seq<char>) -> Seq<u8> {
    bytes::bytes_of("!/"@) + bytes::bytes_of(escaped_spaces(path)) + bytes::bytes_of(".gitveil"@)
}

proof fn lemma_rule_line(rule: Seq<u8>, newline: Seq<u8>)
    requires
        rule.len() > 0,
        !rule.contains(10),
        rule.last() != 13,
        newline == seq![10u8] || newline == seq![13u8, 10u8],
    ensures
        whole_line(rule + newline),
        content(rule + newline) == rule,
{
    let p = rule + newline;
    let n = p.len() - 1;
    assert forall|j: int| 0 <= j < n implies #[trigger] p[j] != 10 by {
        if j < rule.len() {
            assert(p[j] == rule[j]);
            assert(rule.contains(rule[j]));
        }
    }
    lemma_position_is(p, 10, n);
    if newline == seq![10u8] {
        assert(p.drop_last() =~= rule);
    } else {
        assert(p.drop_last().last() == 13);
        assert(p.drop_last().drop_last() =~= rule);
    }
}

proof fn lemma_path_rules(p: Seq<char>, newline: Seq<u8>)
    ensures
        path_rules(p, newline) == (plain_rule(p) + newline) + (cipher_rule(p) + newline),
{
    assert(path_rules(p, newline) =~= (plain_rule(p) + newline) + (cipher_rule(p) + newline));
}

proof fn lemma_regroup_bytes(s: Seq<u8>, a: Seq<u8>, b: Seq<u8>, t: Seq<u8>)
    ensures
        (s + (a + b)) + t == s + (a + (b + t)),
{
    assert((s + (a + b)) + t =~= s + (a + (b + t)));
}

proof fn lemma_regroup_lines(s: Seq<Seq<u8>>, a: Seq<u8>, b: Seq<u8>, t: Seq<Seq<u8>>)
    ensures
        s + (seq![a] + (seq![b] + t)) == s.push(a).push(b) + t,
{
    assert(s + (seq![a] + (seq![b] + t)) =~= s.push(a).push(b) + t);
}

/// The lines of the rules.
proof fn lemma_rule_lines(paths: Seq<Seq<char>>, newline: Seq<u8>, tail: Seq<u8>) -> (lines: Seq<
    Seq<u8>,
>)
    requires
        newline == seq![10u8] || newline == seq![13u8, 10u8],
        forall|i: int|
            0 <= i < paths.len() ==> clean_rule(plain_rule(#[trigger] paths[i])) && clean_rule(
                cipher_rule(paths[i]),
            ),
    ensures
        line_pieces(all_rules(paths, newline) + tail) == lines + line_pieces(tail),
        forall|i: int| 0 <= i < lines.len() ==> unmarked(#[trigger] lines[i]),
    decreases paths.len(),
{
    if paths.len() == 0 {
        let none = Seq::<Seq<u8>>::empty();
        assert(all_rules(paths, newline) + tail =~= tail);
        assert(none + line_pieces(tail) =~= line_pieces(tail));
        none
    } else {
        let p = paths.last();
        let head = paths.drop_last();
        assert(clean_rule(plain_rule(paths[paths.len() - 1])));
        assert forall|i: int| 0 <= i < head.len() implies clean_rule(
            plain_rule(#[trigger] head[i]),
        ) && clean_rule(cipher_rule(head[i])) by {
            assert(head[i] == paths[i]);
        }
        let (a, b) = (plain_rule(p) + newline, cipher_rule(p) + newline);
        lemma_rule_line(plain_rule(p), newline);
        lemma_rule_line(cipher_rule(p), newline);
        lemma_path_rules(p, newline);
        let first = lemma_rule_lines(head, newline, a + (b + tail));
        lemma_first_line(a, b + tail);
        lemma_first_line(b, tail);
        let t = line_pieces(tail);
        lemma_regroup_bytes(all_rules(head, newline), a, b, tail);
        lemma_regroup_lines(first, a, b, t);
        let lines = first.push(a).push(b);
        assert forall|i: int| 0 <= i < lines.len() implies unmarked(#[trigger] lines[i]) by {
            if i < first.len() {
                assert(lines[i] == first[i]);
            }
        }
        lines
    }
}

/// The lines of a file with a block at its end.
proof fn lemma_block_lines(start: Seq<u8>, paths: Seq<Seq<char>>, newline: Seq<u8>) -> (rules: Seq<
    Seq<u8>,
>)
    requires
        newline == seq![10u8] || newline == seq![13u8, 10u8],
        forall|i: int|
            0 <= i < paths.len() ==> clean_rule(plain_rule(#[trigger] paths[i])) && clean_rule(
                cipher_rule(paths[i]),
            ),
        forall|i: int|
            0 <= i < line_pieces(start).len() ==> whole_line(#[trigger] line_pieces(start)[i]),
    ensures
        line_pieces(start + block(paths, newline)) == (line_pieces(start).push(
            begin_marker() + newline,
        ) + rules).push(end_marker() + newline),
        forall|i: int| 0 <= i < rules.len() ==> unmarked(#[trigger] rules[i]),
{
    lemma_markers_hold_fragment();
    let first = line_pieces(start);
    let (b, e) = (begin_marker() + newline, end_marker() + newline);
    lemma_rule_line(begin_marker(), newline);
    lemma_rule_line(end_marker(), newline);
    lemma_joined_lines(start);
    let rules = lemma_rule_lines(paths, newline, e);
    lemma_first_line(e, Seq::empty());
    assert(e + Seq::<u8>::empty() =~= e);
    assert(line_pieces(e) =~= seq![e]);
    let body = all_rules(paths, newline) + e;
    lemma_regroup_block(paths, newline);
    lemma_lines_of_joined(first, b + body);
    lemma_first_line(b, body);
    assert(first + (seq![b] + (rules + seq![e])) =~= (first.push(b) + rules).push(e));
    rules
}

proof fn lemma_regroup_block(paths: Seq<Seq<char>>, newline: Seq<u8>)
    ensures
        block(paths, newline) == (begin_marker() + newline) + (all_rules(paths, newline) + (
        end_marker() + newline)),
{
    assert(block(paths, newline) =~= (begin_marker() + newline) + (all_rules(paths, newline) + (
    end_marker() + newline)));
}

/// The marks of lines between which a block stands.
proof fn lemma_block_marks(first: Seq<Seq<u8>>, b: Seq<u8>, rules: Seq<Seq<u8>>, e: Seq<u8>)
    requires
        is_begin(b),
        is_end(e),
        forall|i: int| 0 <= i < first.len() ==> unmarked(#[trigger] first[i]),
        forall|i: int| 0 <= i < rules.len() ==> unmarked(#[trigger] rules[i]),
    ensures
        ({
            let whole = (first.push(b) + rules).push(e);
            &&& begins(whole) == seq![first.len() as int]
            &&& ends(whole) == seq![whole.len() - 1]
            &&& !has_stray(whole)
        }),
{
    lemma_markers_hold_fragment();
    let all = first.push(b) + rules;
    let whole = all.push(e);
    lemma_no_marks(first);
    assert(first.push(b).drop_last() =~= first);
    assert(begins(first.push(b)) =~= seq![first.len() as int]);
    assert(ends(first.push(b)) =~= Seq::<int>::empty());
    lemma_marks_before(first.push(b), rules);
    assert(whole.drop_last() =~= all);
    assert(begins(whole) =~= seq![first.len() as int]);
    assert(ends(whole) =~= seq![whole.len() - 1]);
    assert forall|i: int| 0 <= i < whole.len() implies !is_stray(#[trigger] whole[i]) by {
        if i < first.len() {
            assert(whole[i] == first[i]);
        } else if i > first.len() && i < whole.len() - 1 {
            assert(whole[i] == rules[i - first.len() - 1]);
        }
    }
}

/// The bytes outside a block that was just written are those that it was written
/// behind.
proof fn lemma_block_is_found(start: Seq<u8>, paths: Seq<Seq<char>>, newline: Seq<u8>)
    requires
        newline == seq![10u8] || newline == seq![13u8, 10u8],
        forall|i: int|
            0 <= i < paths.len() ==> clean_rule(plain_rule(#[trigger] paths[i])) && clean_rule(
                cipher_rule(paths[i]),
            ),
        forall|i: int|
            0 <= i < line_pieces(start).len() ==> whole_line(#[trigger] line_pieces(start)[i]),
        forall|i: int|
            0 <= i < line_pieces(start).len() ==> unmarked(#[trigger] line_pieces(start)[i]),
    ensures
        user_bytes(line_pieces(start + block(paths, newline))) == Some(start),
{
    lemma_markers_hold_fragment();
    let first = line_pieces(start);
    let (b, e) = (begin_marker() + newline, end_marker() + newline);
    lemma_rule_line(begin_marker(), newline);
    lemma_rule_line(end_marker(), newline);
    let rules = lemma_block_lines(start, paths, newline);
    let whole = (first.push(b) + rules).push(e);
    lemma_block_marks(first, b, rules, e);
    lemma_joined_lines(start);
    assert(whole.take(first.len() as int) =~= first);
    let rest = whole.skip(whole.len() as int);
    assert(rest =~= Seq::<Seq<u8>>::empty());
    assert(joined(first) + joined(rest) =~= start);
}

/// The lines outside the block of a file, as a file has them and without markers.
proof fn lemma_user_lines(existing: Seq<u8>) -> (lines: Seq<Seq<u8>>)
    requires
        user_bytes(line_pieces(existing)) is Some,
    ensures
        user_bytes(line_pieces(existing)) == Some(joined(lines)),
        as_lines(lines),
        forall|i: int| 0 <= i < lines.len() ==> unmarked(#[trigger] lines[i]),
{
    let pieces = line_pieces(existing);
    lemma_are_lines(existing);
    let (b, e) = (begins(pieces), ends(pieces));
    if b.len() == 0 && e.len() == 0 {
        assert forall|i: int| 0 <= i < pieces.len() implies unmarked(#[trigger] pieces[i]) by {
            lemma_unmarked(pieces, i);
        }
        pieces
    } else {
        lemma_marks_range(pieces);
        let (from, to) = (b[0], e[0]);
        let (x, y) = (pieces.take(from), pieces.skip(to + 1));
        let lines = x + y;
        lemma_joined_sum(x, y);
        assert forall|i: int| 0 <= i < lines.len() implies unmarked(#[trigger] lines[i]) by {
            let k = if i < from {
                i
            } else {
                i - from + to + 1
            };
            assert(lines[i] == pieces[k]);
            assert(!b.contains(k)) by {
                if b.contains(k) {
                    let j = choose|j: int| 0 <= j < b.len() && b[j] == k;
                    assert(j == 0);
                }
            }
            assert(!e.contains(k)) by {
                if e.contains(k) {
                    let j = choose|j: int| 0 <= j < e.len() && e[j] == k;
                    assert(j == 0);
                }
            }
            lemma_unmarked(pieces, k);
        }
        assert forall|i: int| 0 <= i < lines.len() - 1 implies whole_line(#[trigger] lines[i]) by {
            let k = if i < from {
                i
            } else {
                i - from + to + 1
            };
            assert(lines[i] == pieces[k]);
        }
        if lines.len() > 0 {
            let k = if y.len() > 0 {
                pieces.len() - 1
            } else {
                from - 1
            };
            assert(lines.last() == pieces[k]);
            assert(k < pieces.len() - 1 ==> whole_line(pieces[k]));
        }
        lines
    }
}

proof fn lemma_marks_range(pieces: Seq<Seq<u8>>)
    ensures
        forall|k: int| 0 <= k < begins(pieces).len() ==> 0 <= #[trigger] begins(pieces)[k]
            < pieces.len(),
        forall|k: int| 0 <= k < ends(pieces).len() ==> 0 <= #[trigger] ends(pieces)[k]
            < pieces.len(),
    decreases pieces.len(),
{
    if pieces.len() > 0 {
        let head = pieces.drop_last();
        lemma_marks_range(head);
        assert forall|k: int| 0 <= k < begins(pieces).len() implies 0 <= #[trigger] begins(
            pieces,
        )[k] < pieces.len() by {
            if k < begins(head).len() {
                assert(begins(pieces)[k] == begins(head)[k]);
            }
        }
        assert forall|k: int| 0 <= k < ends(pieces).len() implies 0 <= #[trigger] ends(pieces)[k]
            < pieces.len() by {
            if k < ends(head).len() {
                assert(ends(pieces)[k] == ends(head)[k]);
            }
        }
    }
}

/// A text without an ASCII character has not its byte.
proof fn lemma_no_byte(s: Seq<char>, c: char)
    requires
        c <= '\u{7f}',
        !s.contains(c),
    ensures
        !bytes::bytes_of(s).contains(c as u8),
{
    let all = bytes::bytes_of(s);
    vstd::utf8::encode_utf8_valid_utf8(s);
    vstd::utf8::encode_utf8_decode_utf8(s);
    if all.contains(c as u8) {
        let i = choose|i: int| 0 <= i < all.len() && all[i] == c as u8;
        assert(!vstd::utf8::is_continuation_byte(all[i]));
        vstd::utf8::is_char_boundary_iff_not_is_continuation_byte(all, i);
        let rest = all.subrange(i, all.len() as int);
        vstd::utf8::valid_utf8_split(all, i);
        vstd::utf8::decode_utf8_split(all, i);
        let head = vstd::utf8::decode_utf8(all.subrange(0, i));
        let tail = vstd::utf8::decode_utf8(rest);
        let b = c as u8;
        assert(b & 0x7f == b) by (bit_vector)
            requires
                b <= 0x7f,
        ;
        assert(rest[0] == b);
        assert(tail[0] == c);
        assert((head + tail)[head.len() as int] == c);
        assert(s.contains(c));
    }
}

proof fn lemma_escaped_holds(s: Seq<char>, c: char)
    requires
        !s.contains(c),
        c != '\\',
        c != ' ',
    ensures
        !escaped_spaces(s).contains(c),
    decreases s.len(),
{
    if s.len() > 0 && s.last() == ' ' {
        let head = s.drop_last();
        assert forall|i: int| 0 <= i < head.len() implies head[i] != c by {
            assert(head[i] == s[i]);
            assert(s.contains(s[i]));
        }
        lemma_escaped_holds(head, c);
        let e = escaped_spaces(head);
        let r = escaped_spaces(s);
        assert forall|i: int| 0 <= i < r.len() implies r[i] != c by {
            if i < e.len() {
                assert(r[i] == e[i]);
                assert(e.contains(e[i]));
            }
        }
    }
}

/// The rules of a path that is valid hold no line break.
proof fn lemma_rules_are_lines(p: Seq<char>)
    requires
        path::valid_path(p),
    ensures
        plain_rule(p).len() > 0,
        !plain_rule(p).contains(10),
        plain_rule(p).last() != 13,
        cipher_rule(p).len() > 0,
        !cipher_rule(p).contains(10),
        cipher_rule(p).last() != 13,
{
    let e = escaped_spaces(p);
    assert(!p.contains('\n') && !p.contains('\r')) by {
        if p.contains('\n') {
            let i = choose|i: int| 0 <= i < p.len() && p[i] == '\n';
            assert(text::control(p[i]));
        }
        if p.contains('\r') {
            let i = choose|i: int| 0 <= i < p.len() && p[i] == '\r';
            assert(text::control(p[i]));
        }
    }
    lemma_escaped_holds(p, '\n');
    lemma_escaped_holds(p, '\r');
    lemma_no_byte(e, '\n');
    lemma_no_byte(e, '\r');
    reveal_strlit("/");
    reveal_strlit("!/");
    reveal_strlit(".gitveil");
    assert(vstd::utf8::is_ascii_chars("/"@));
    assert(vstd::utf8::is_ascii_chars("!/"@));
    assert(vstd::utf8::is_ascii_chars(".gitveil"@));
    vstd::utf8::is_ascii_chars_encode_utf8("/"@);
    vstd::utf8::is_ascii_chars_encode_utf8("!/"@);
    vstd::utf8::is_ascii_chars_encode_utf8(".gitveil"@);
    lemma_no_byte("/"@, '\n');
    lemma_no_byte("!/"@, '\n');
    lemma_no_byte(".gitveil"@, '\n');
    lemma_no_byte("/"@, '\r');
    lemma_no_byte(".gitveil"@, '\r');
    let (a, b, c, d) = (
        bytes::bytes_of("/"@),
        bytes::bytes_of(e),
        bytes::bytes_of("!/"@),
        bytes::bytes_of(".gitveil"@),
    );
    assert forall|i: int| 0 <= i < plain_rule(p).len() implies plain_rule(p)[i] != 10 by {
        if i < a.len() {
            assert(a.contains(a[i]));
        } else {
            assert(b.contains(b[i - a.len()]));
        }
    }
    assert forall|i: int| 0 <= i < cipher_rule(p).len() implies cipher_rule(p)[i] != 10 by {
        if i < c.len() {
            assert(c.contains(c[i]));
        } else if i < c.len() + b.len() {
            assert(b.contains(b[i - c.len()]));
        } else {
            assert(d.contains(d[i - c.len() - b.len()]));
        }
    }
    if b.len() > 0 {
        assert(plain_rule(p).last() == b.last());
        assert(b.contains(b[b.len() - 1]));
    } else {
        assert(plain_rule(p).last() == a.last());
        assert(a.contains(a[a.len() - 1]));
    }
    assert(cipher_rule(p).last() == d.last());
    assert(d.contains(d[d.len() - 1]));
}

/// Law: rendering again replaces the block and nothing else. It holds where no rule
/// of the first rendering looks like a marker, and where the first line break of the
/// file stays of its kind.
pub proof fn law_rendering_is_repeatable(
    existing: Seq<u8>,
    paths: Seq<Seq<char>>,
    later: Seq<Seq<char>>,
)
    requires
        managed_ignore(existing, paths) is Some,
        forall|i: int| 0 <= i < paths.len() ==> path::valid_path(#[trigger] paths[i]),
        forall|i: int|
            0 <= i < paths.len() ==> !text::contains(
                plain_rule(#[trigger] paths[i]),
                marker_fragment(),
            ) && !text::contains(cipher_rule(paths[i]), marker_fragment()),
        preferred_newline(managed_ignore(existing, paths)->Some_0) == preferred_newline(existing),
    ensures
        managed_ignore(managed_ignore(existing, paths)->Some_0, later) == managed_ignore(
            existing,
            later,
        ),
{
    let newline = preferred_newline(existing);
    let lines = lemma_user_lines(existing);
    lemma_completed(lines, newline);
    let start = completed(joined(lines), newline);
    assert forall|i: int| 0 <= i < paths.len() implies clean_rule(plain_rule(#[trigger] paths[i]))
        && clean_rule(cipher_rule(paths[i])) by {
        lemma_rules_are_lines(paths[i]);
    }
    lemma_block_is_found(start, paths, newline);
    assert(completed(start, newline) == start) by {
        let l = line_pieces(start);
        lemma_joined_lines(start);
        if start.len() > 0 {
            assert(l.len() > 0);
            assert(whole_line(l[l.len() - 1]));
            lemma_position(l.last(), 10);
            assert(joined(l) == joined(l.drop_last()) + l.last());
            assert(start.last() == l.last().last());
        }
    }
}

proof fn lemma_bytes_add(a: Seq<char>, b: Seq<char>)
    ensures
        bytes::bytes_of(a + b) == bytes::bytes_of(a) + bytes::bytes_of(b),
    decreases a.len(),
{
    if a.len() == 0 {
        assert(a + b =~= b);
        assert(bytes::bytes_of(a) + bytes::bytes_of(b) =~= bytes::bytes_of(b));
    } else {
        lemma_bytes_add(a.drop_first(), b);
        assert((a + b).drop_first() =~= a.drop_first() + b);
        assert((a + b)[0] == a[0]);
        assert(bytes::bytes_of(a + b) =~= bytes::bytes_of(a) + bytes::bytes_of(b));
    }
}

/// Bytes that begin with those of ASCII text are of a text that begins with it.
proof fn lemma_ascii_front(rest: Seq<u8>, f: Seq<char>)
    requires
        vstd::utf8::valid_utf8(rest),
        vstd::utf8::is_ascii_chars(f),
        f.len() <= rest.len(),
        forall|i: int| 0 <= i < f.len() ==> #[trigger] rest[i] == f[i] as u8,
    ensures
        vstd::utf8::decode_utf8(rest).len() >= f.len(),
        vstd::utf8::decode_utf8(rest).take(f.len() as int) == f,
    decreases f.len(),
{
    let all = vstd::utf8::decode_utf8(rest);
    if f.len() > 0 {
        assert(f[0] <= '\u{7f}');
        let b = rest[0];
        assert(b == f[0] as u8);
        assert(b & 0x7f == b) by (bit_vector)
            requires
                b <= 0x7f,
        ;
        assert(all[0] == f[0]);
        let tail = vstd::utf8::pop_first_scalar(rest);
        assert(tail =~= rest.subrange(1, rest.len() as int));
        let g = f.skip(1);
        assert(vstd::utf8::is_ascii_chars(g)) by {
            assert forall|i: int| 0 <= i < g.len() implies ('\0' <= #[trigger] g[i] <= '\u{7f}') by {
                assert(g[i] == f[i + 1]);
            }
        }
        assert forall|i: int| 0 <= i < g.len() implies #[trigger] tail[i] == g[i] as u8 by {
            assert(tail[i] == rest[i + 1]);
            assert(g[i] == f[i + 1]);
        }
        lemma_ascii_front(tail, g);
        let more = vstd::utf8::decode_utf8(tail);
        assert(all =~= seq![all[0]] + more);
        assert(all.take(f.len() as int) =~= f) by {
            assert forall|i: int| 0 <= i < f.len() implies all[i] == f[i] by {
                if i > 0 {
                    assert(all[i] == more[i - 1]);
                    assert(more.take(g.len() as int)[i - 1] == g[i - 1]);
                    assert(g[i - 1] == f[i]);
                }
            }
        }
    } else {
        assert(all.take(0) =~= f);
    }
}

/// A text whose bytes hold those of an ASCII text holds that text.
proof fn lemma_holds_text(s: Seq<char>, f: Seq<char>)
    requires
        vstd::utf8::is_ascii_chars(f),
        f.len() > 0,
        text::contains(bytes::bytes_of(s), bytes::bytes_of(f)),
    ensures
        text::contains(s, f),
{
    let (all, part) = (bytes::bytes_of(s), bytes::bytes_of(f));
    vstd::utf8::encode_utf8_valid_utf8(s);
    vstd::utf8::encode_utf8_decode_utf8(s);
    vstd::utf8::is_ascii_chars_encode_utf8(f);
    let i = choose|i: int| text::occurs_at(all, part, i);
    let rest = all.subrange(i, all.len() as int);
    assert forall|j: int| 0 <= j < f.len() implies #[trigger] rest[j] == f[j] as u8 by {
        assert(all.subrange(i, i + part.len())[j] == part[j]);
    }
    assert(f[0] <= '\u{7f}');
    assert(all[i] == rest[0]);
    assert(!vstd::utf8::is_continuation_byte(all[i]));
    vstd::utf8::is_char_boundary_iff_not_is_continuation_byte(all, i);
    vstd::utf8::valid_utf8_split(all, i);
    vstd::utf8::decode_utf8_split(all, i);
    let head = vstd::utf8::decode_utf8(all.subrange(0, i));
    let tail = vstd::utf8::decode_utf8(rest);
    lemma_ascii_front(rest, f);
    assert(s =~= head + tail);
    let n = head.len() as int;
    assert(s.subrange(n, n + f.len()) =~= tail.take(f.len() as int));
    assert(text::occurs_at(s, f, n));
}

/// A part of a text that lacks a character lies before or behind it.
proof fn lemma_part_of_sum(a: Seq<char>, c: char, b: Seq<char>, f: Seq<char>)
    requires
        text::contains(a + seq![c] + b, f),
        !f.contains(c),
        f.len() > 0,
    ensures
        text::contains(a, f) || text::contains(b, f),
{
    let s = a + seq![c] + b;
    let n = a.len() as int;
    let i = choose|i: int| text::occurs_at(s, f, i);
    let m = f.len() as int;
    assert(s[n] == c);
    if i + m <= n {
        assert(a.subrange(i, i + m) =~= s.subrange(i, i + m));
        assert(text::occurs_at(a, f, i));
    } else if i > n {
        assert(b.subrange(i - n - 1, i - n - 1 + m) =~= s.subrange(i, i + m));
        assert(text::occurs_at(b, f, i - n - 1));
    } else {
        assert(s.subrange(i, i + m)[n - i] == c);
        assert(f.contains(f[n - i]));
    }
}

proof fn lemma_short_lacks(s: Seq<char>, f: Seq<char>)
    requires
        s.len() < f.len(),
    ensures
        !text::contains(s, f),
{
    if text::contains(s, f) {
        let i = choose|i: int| text::occurs_at(s, f, i);
        assert(s.subrange(i, i + f.len()).len() == f.len());
    }
}

proof fn lemma_escaped_lacks(s: Seq<char>, f: Seq<char>)
    requires
        !text::contains(s, f),
        !f.contains('\\'),
        f.len() > 1,
    ensures
        !text::contains(escaped_spaces(s), f),
    decreases s.len(),
{
    if s.len() > 0 && s.last() == ' ' {
        let head = s.drop_last();
        if text::contains(head, f) {
            let i = choose|i: int| text::occurs_at(head, f, i);
            assert(s.subrange(i, i + f.len()) =~= head.subrange(i, i + f.len()));
            assert(text::occurs_at(s, f, i));
        }
        lemma_escaped_lacks(head, f);
        let e = escaped_spaces(head);
        if text::contains(escaped_spaces(s), f) {
            assert(escaped_spaces(s) =~= e + seq!['\\'] + seq![' ']);
            lemma_part_of_sum(e, '\\', seq![' '], f);
            lemma_short_lacks(seq![' '], f);
        }
    }
}

/// The rules of a path that does not name the markers hold nothing of them.
proof fn lemma_rules_lack_fragment(p: Seq<char>)
    requires
        !text::contains(p, "gitveil managed files"@),
    ensures
        !text::contains(plain_rule(p), marker_fragment()),
        !text::contains(cipher_rule(p), marker_fragment()),
{
    reveal_strlit("gitveil managed files");
    reveal_strlit("/");
    reveal_strlit("!/");
    reveal_strlit(".gitveil");
    let f = "gitveil managed files"@;
    assert(f.len() == 21);
    assert(vstd::utf8::is_ascii_chars(f));
    assert(!f.contains('\\') && !f.contains('/') && !f.contains('.'));
    let e = escaped_spaces(p);
    lemma_escaped_lacks(p, f);
    let none = Seq::<char>::empty();
    lemma_short_lacks(none, f);
    lemma_bytes_add("/"@, e);
    if text::contains(plain_rule(p), marker_fragment()) {
        lemma_holds_text("/"@ + e, f);
        assert("/"@ + e =~= none + seq!['/'] + e);
        lemma_part_of_sum(none, '/', e, f);
    }
    lemma_bytes_add("!/"@, e);
    lemma_bytes_add("!/"@ + e, ".gitveil"@);
    if text::contains(cipher_rule(p), marker_fragment()) {
        let front = "!/"@ + e;
        lemma_holds_text(front + ".gitveil"@, f);
        let back = ".gitveil"@.skip(1);
        assert(front + ".gitveil"@ =~= front + seq!['.'] + back);
        lemma_short_lacks(back, f);
        lemma_part_of_sum(front, '.', back, f);
        assert(front =~= seq!['!'] + seq!['/'] + e);
        lemma_short_lacks(seq!['!'], f);
        lemma_part_of_sum(seq!['!'], '/', e, f);
    }
}

proof fn lemma_sum_lacks(a: Seq<u8>, b: Seq<u8>)
    requires
        !a.contains(13),
        !b.contains(13),
    ensures
        !(a + b).contains(13),
{
    let s = a + b;
    if s.contains(13) {
        let k = choose|k: int| 0 <= k < s.len() && s[k] == 13;
        if k < a.len() {
            assert(a.contains(a[k]));
        } else {
            assert(b.contains(b[k - a.len()]));
        }
    }
}

proof fn lemma_lines_lack_return(s: Seq<u8>)
    requires
        !s.contains(13),
    ensures
        forall|i: int| 0 <= i < line_pieces(s).len() ==> !(#[trigger] line_pieces(s)[i]).contains(
            13,
        ),
    decreases s.len(),
{
    let n = bytes::position(s, 10) as int;
    lemma_position(s, 10);
    if s.len() > 0 && n < s.len() {
        let (a, b) = (s.take(n + 1), s.skip(n + 1));
        assert(!a.contains(13)) by {
            if a.contains(13) {
                let k = choose|k: int| 0 <= k < a.len() && a[k] == 13;
                assert(s[k] == 13);
            }
        }
        assert(!b.contains(13)) by {
            if b.contains(13) {
                let k = choose|k: int| 0 <= k < b.len() && b[k] == 13;
                assert(s[n + 1 + k] == 13);
            }
        }
        lemma_lines_lack_return(b);
        let all = line_pieces(s);
        assert forall|i: int| 0 <= i < all.len() implies !(#[trigger] all[i]).contains(13) by {
            if i > 0 {
                assert(all[i] == line_pieces(b)[i - 1]);
            }
        }
    }
}

proof fn lemma_joined_lacks(pieces: Seq<Seq<u8>>)
    requires
        forall|i: int| 0 <= i < pieces.len() ==> !(#[trigger] pieces[i]).contains(13),
    ensures
        !joined(pieces).contains(13),
    decreases pieces.len(),
{
    if pieces.len() > 0 {
        let head = pieces.drop_last();
        assert forall|i: int| 0 <= i < head.len() implies !(#[trigger] head[i]).contains(13) by {
            assert(head[i] == pieces[i]);
        }
        lemma_joined_lacks(head);
        assert(!pieces[pieces.len() - 1].contains(13));
        lemma_sum_lacks(joined(head), pieces.last());
    }
}

proof fn lemma_text_lacks(s: Seq<char>)
    requires
        !s.contains('\r'),
    ensures
        !bytes::bytes_of(s).contains(13),
{
    lemma_no_byte(s, '\r');
}

proof fn lemma_rules_lack_return(paths: Seq<Seq<char>>)
    requires
        forall|i: int| 0 <= i < paths.len() ==> path::valid_path(#[trigger] paths[i]),
    ensures
        !all_rules(paths, seq![10u8]).contains(13),
    decreases paths.len(),
{
    if paths.len() > 0 {
        let head = paths.drop_last();
        assert forall|i: int| 0 <= i < head.len() implies path::valid_path(#[trigger] head[i]) by {
            assert(head[i] == paths[i]);
        }
        lemma_rules_lack_return(head);
        let p = paths.last();
        assert(path::valid_path(paths[paths.len() - 1]));
        assert(!p.contains('\r')) by {
            if p.contains('\r') {
                let i = choose|i: int| 0 <= i < p.len() && p[i] == '\r';
                assert(text::control(p[i]));
            }
        }
        let e = escaped_spaces(p);
        lemma_escaped_holds(p, '\r');
        reveal_strlit("/");
        reveal_strlit("!/");
        reveal_strlit(".gitveil");
        lemma_text_lacks(e);
        lemma_text_lacks("/"@);
        lemma_text_lacks("!/"@);
        lemma_text_lacks(".gitveil"@);
        let (a, b, c, d, n) = (
            bytes::bytes_of("/"@),
            bytes::bytes_of(e),
            bytes::bytes_of("!/"@),
            bytes::bytes_of(".gitveil"@),
            seq![10u8],
        );
        assert(!n.contains(13));
        lemma_sum_lacks(a, b);
        lemma_sum_lacks(a + b, n);
        lemma_sum_lacks(a + b + n, c);
        lemma_sum_lacks(a + b + n + c, b);
        lemma_sum_lacks(a + b + n + c + b, d);
        lemma_sum_lacks(a + b + n + c + b + d, n);
        lemma_sum_lacks(all_rules(head, n), path_rules(p, n));
    }
}

/// Law: in a file without carriage returns, rendering again for other paths gives what
/// rendering for them at first would have given; so does rendering for the same paths,
/// which changes nothing. It holds where no path of the first rendering names the
/// markers of the block.
pub proof fn law_plain_file_renders_repeatably(
    existing: Seq<u8>,
    paths: Seq<Seq<char>>,
    later: Seq<Seq<char>>,
)
    requires
        managed_ignore(existing, paths) is Some,
        !existing.contains(13),
        forall|i: int| 0 <= i < paths.len() ==> path::valid_path(#[trigger] paths[i]),
        forall|i: int|
            0 <= i < paths.len() ==> !text::contains(
                #[trigger] paths[i],
                "gitveil managed files"@,
            ),
    ensures
        managed_ignore(managed_ignore(existing, paths)->Some_0, later) == managed_ignore(
            existing,
            later,
        ),
        managed_ignore(managed_ignore(existing, paths)->Some_0, paths) == managed_ignore(
            existing,
            paths,
        ),
{
    let pieces = line_pieces(existing);
    let base = user_bytes(pieces)->Some_0;
    let n = seq![10u8];
    lemma_lines_lack_return(existing);
    assert(!base.contains(13)) by {
        let (b, e) = (begins(pieces), ends(pieces));
        if b.len() == 0 && e.len() == 0 {
            lemma_joined_lacks(pieces);
        } else {
            lemma_marks_range(pieces);
            let (head, tail) = (pieces.take(b[0]), pieces.skip(e[0] + 1));
            assert forall|i: int| 0 <= i < head.len() implies !(#[trigger] head[i]).contains(
                13,
            ) by {
                assert(head[i] == pieces[i]);
            }
            assert forall|i: int| 0 <= i < tail.len() implies !(#[trigger] tail[i]).contains(
                13,
            ) by {
                assert(tail[i] == pieces[e[0] + 1 + i]);
            }
            lemma_joined_lacks(head);
            lemma_joined_lacks(tail);
            lemma_sum_lacks(joined(head), joined(tail));
        }
    }
    lemma_position(existing, 10);
    assert(preferred_newline(existing) == n) by {
        let k = bytes::position(existing, 10) as int;
        if k < existing.len() && k > 0 && existing[k - 1] == 13 {
            assert(existing.contains(existing[k - 1]));
        }
    }
    reveal_strlit("# BEGIN gitveil managed files");
    reveal_strlit("# END gitveil managed files");
    lemma_text_lacks("# BEGIN gitveil managed files"@);
    lemma_text_lacks("# END gitveil managed files"@);
    lemma_rules_lack_return(paths);
    assert(!n.contains(13));
    let (x, y) = (begin_marker(), end_marker());
    let rules = all_rules(paths, n);
    lemma_sum_lacks(x, n);
    lemma_sum_lacks(x + n, rules);
    lemma_sum_lacks(x + n + rules, y);
    lemma_sum_lacks(x + n + rules + y, n);
    lemma_sum_lacks(base, n);
    lemma_sum_lacks(completed(base, n), block(paths, n));
    let out = managed_ignore(existing, paths)->Some_0;
    lemma_position(out, 10);
    assert(preferred_newline(out) == n) by {
        let k = bytes::position(out, 10) as int;
        if k < out.len() && k > 0 && out[k - 1] == 13 {
            assert(out.contains(out[k - 1]));
        }
    }
    assert forall|i: int| 0 <= i < paths.len() implies !text::contains(
        plain_rule(#[trigger] paths[i]),
        marker_fragment(),
    ) && !text::contains(cipher_rule(paths[i]), marker_fragment()) by {
        assert(!text::contains(paths[i], "gitveil managed files"@));
        lemma_rules_lack_fragment(paths[i]);
    }
    law_rendering_is_repeatable(existing, paths, later);
    law_rendering_is_repeatable(existing, paths, paths);
}

/// Law: a pattern is its path, in which each space at the end stands behind a backslash.
pub proof fn law_trailing_spaces_are_escaped(s: Seq<char>)
    ensures
        s.len() == 0 || s.last() != ' ' ==> escaped_spaces(s) == s,
        escaped_spaces(s.push(' ')) == escaped_spaces(s) + seq!['\\', ' '],
{
    assert(s.push(' ').drop_last() =~= s);
}

proof fn lemma_rules_of_path(paths: Seq<Seq<char>>, newline: Seq<u8>, i: int)
    requires
        0 <= i < paths.len(),
    ensures
        exists|at: int|
            0 <= at && at + path_rules(paths[i], newline).len() <= all_rules(paths, newline).len()
                && #[trigger] all_rules(paths, newline).subrange(
                at,
                at + path_rules(paths[i], newline).len(),
            ) == path_rules(paths[i], newline),
    decreases paths.len(),
{
    let head = all_rules(paths.drop_last(), newline);
    let all = all_rules(paths, newline);
    let one = path_rules(paths[i], newline);
    if i < paths.len() - 1 {
        lemma_rules_of_path(paths.drop_last(), newline, i);
        assert(paths.drop_last()[i] == paths[i]);
        let at = choose|at: int|
            0 <= at && at + one.len() <= head.len() && #[trigger] head.subrange(at, at + one.len())
                == one;
        assert(all.subrange(at, at + one.len()) =~= head.subrange(at, at + one.len()));
    } else {
        let at = head.len() as int;
        assert(all.subrange(at, at + one.len()) =~= one);
    }
}

/// Law: the managed rules hide every managed plaintext and show its ciphertext: for each path
/// the file has a line with the path from the root, and behind it a line that takes the
/// ciphertext beside it in again, between the two marks and behind everything else.
pub proof fn law_every_path_has_its_rules(existing: Seq<u8>, paths: Seq<Seq<char>>, i: int)
    requires
        managed_ignore(existing, paths) is Some,
        0 <= i < paths.len(),
    ensures
        ({
            let r = managed_ignore(existing, paths)->Some_0;
            let newline = preferred_newline(existing);
            let name = bytes::bytes_of(escaped_spaces(paths[i]));
            let rules = bytes::bytes_of("/"@) + name + newline + bytes::bytes_of("!/"@) + name
                + bytes::bytes_of(".gitveil"@) + newline;
            &&& newline == seq![10u8] || newline == seq![13u8, 10u8]
            &&& exists|at: int|
                user_bytes(line_pieces(existing))->Some_0.len() < at && at + rules.len() < r.len()
                    && #[trigger] r.subrange(at, at + rules.len()) == rules
        }),
{
    let r = managed_ignore(existing, paths)->Some_0;
    let newline = preferred_newline(existing);
    let user = user_bytes(line_pieces(existing))->Some_0;
    let base = completed(user, newline);
    let all = all_rules(paths, newline);
    let one = path_rules(paths[i], newline);
    lemma_rules_of_path(paths, newline, i);
    lemma_markers_hold_fragment();
    let at = choose|at: int|
        0 <= at && at + one.len() <= all.len() && #[trigger] all.subrange(at, at + one.len()) == one;
    let start = (base.len() + begin_marker().len() + newline.len()) as int;
    assert(r.subrange(start, start + all.len()) =~= all);
    assert(r.subrange(start + at, start + at + one.len()) =~= all.subrange(at, at + one.len()));
    assert(one =~= bytes::bytes_of("/"@) + bytes::bytes_of(escaped_spaces(paths[i])) + newline
        + bytes::bytes_of("!/"@) + bytes::bytes_of(escaped_spaces(paths[i])) + bytes::bytes_of(
        ".gitveil"@,
    ) + newline);
}

proof fn lemma_begin_places(pieces: Seq<Seq<u8>>)
    ensures
        forall|i: int|
            0 <= i < pieces.len() && is_begin(#[trigger] pieces[i]) ==> begins(pieces).contains(i),
        forall|k: int|
            0 <= k < begins(pieces).len() ==> 0 <= #[trigger] begins(pieces)[k] < pieces.len()
                && is_begin(pieces[begins(pieces)[k]]),
    decreases pieces.len(),
{
    if pieces.len() > 0 {
        let head = pieces.drop_last();
        lemma_begin_places(head);
        assert(forall|i: int| 0 <= i < head.len() ==> head[i] == pieces[i]);
        let (b, all) = (begins(head), begins(pieces));
        assert forall|i: int|
            0 <= i < pieces.len() && is_begin(#[trigger] pieces[i]) implies all.contains(i) by {
            if i < head.len() {
                assert(is_begin(head[i]));
                let k = choose|k: int| 0 <= k < b.len() && b[k] == i;
                assert(all[k] == i);
            } else {
                assert(all[b.len() as int] == i);
            }
        }
        assert forall|k: int| 0 <= k < all.len() implies 0 <= #[trigger] all[k] < pieces.len()
            && is_begin(pieces[all[k]]) by {
            if k < b.len() {
                assert(all[k] == b[k]);
                assert(head[b[k]] == pieces[b[k]]);
            }
        }
    }
}

proof fn lemma_end_places(pieces: Seq<Seq<u8>>)
    ensures
        forall|i: int|
            0 <= i < pieces.len() && is_end(#[trigger] pieces[i]) ==> ends(pieces).contains(i),
        forall|k: int|
            0 <= k < ends(pieces).len() ==> 0 <= #[trigger] ends(pieces)[k] < pieces.len()
                && is_end(pieces[ends(pieces)[k]]),
    decreases pieces.len(),
{
    if pieces.len() > 0 {
        let head = pieces.drop_last();
        lemma_end_places(head);
        assert(forall|i: int| 0 <= i < head.len() ==> head[i] == pieces[i]);
        let (b, all) = (ends(head), ends(pieces));
        assert forall|i: int|
            0 <= i < pieces.len() && is_end(#[trigger] pieces[i]) implies all.contains(i) by {
            if i < head.len() {
                assert(is_end(head[i]));
                let k = choose|k: int| 0 <= k < b.len() && b[k] == i;
                assert(all[k] == i);
            } else {
                assert(all[b.len() as int] == i);
            }
        }
        assert forall|k: int| 0 <= k < all.len() implies 0 <= #[trigger] all[k] < pieces.len()
            && is_end(pieces[all[k]]) by {
            if k < b.len() {
                assert(all[k] == b[k]);
                assert(head[b[k]] == pieces[b[k]]);
            }
        }
    }
}

/// Law: a file is taken only where it has no managed block, or one that begins once and then
/// ends once, and where no other line looks like a mark. Then the lines outside of the block
/// are kept, and those within it are not.
pub proof fn law_only_one_block_is_replaced(pieces: Seq<Seq<u8>>)
    requires
        user_bytes(pieces) is Some,
    ensures
        forall|i: int|
            0 <= i < pieces.len() && text::contains(content(#[trigger] pieces[i]), marker_fragment())
                ==> is_begin(pieces[i]) || is_end(pieces[i]),
        (user_bytes(pieces) == Some(joined(pieces)) && forall|i: int|
            0 <= i < pieces.len() ==> !is_begin(#[trigger] pieces[i]) && !is_end(pieces[i])) || (
        exists|b: int, e: int|
            0 <= b < e < pieces.len() && is_begin(#[trigger] pieces[b]) && is_end(
                #[trigger] pieces[e],
            ) && user_bytes(pieces) == Some(joined(pieces.take(b)) + joined(pieces.skip(e + 1))) && (
            forall|i: int|
                0 <= i < pieces.len() ==> (is_begin(#[trigger] pieces[i]) ==> i == b) && (is_end(
                    pieces[i],
                ) ==> i == e))),
{
    lemma_begin_places(pieces);
    lemma_end_places(pieces);
    assert forall|i: int|
        0 <= i < pieces.len() && text::contains(
            content(#[trigger] pieces[i]),
            marker_fragment(),
        ) implies is_begin(pieces[i]) || is_end(pieces[i]) by {
        assert(!is_stray(pieces[i]));
    }
    let (bs, es) = (begins(pieces), ends(pieces));
    if bs.len() == 0 && es.len() == 0 {
        assert forall|i: int| 0 <= i < pieces.len() implies !is_begin(#[trigger] pieces[i])
            && !is_end(pieces[i]) by {
            if is_begin(pieces[i]) {
                assert(bs.contains(i));
            }
            if is_end(pieces[i]) {
                assert(es.contains(i));
            }
        }
    } else {
        let (b, e) = (bs[0], es[0]);
        assert(is_begin(pieces[b]) && is_end(pieces[e]));
        assert forall|i: int| 0 <= i < pieces.len() implies (is_begin(#[trigger] pieces[i]) ==> i
            == b) && (is_end(pieces[i]) ==> i == e) by {
            if is_begin(pieces[i]) {
                assert(bs.contains(i));
            }
            if is_end(pieces[i]) {
                assert(es.contains(i));
            }
        }
    }
}

} // verus!
