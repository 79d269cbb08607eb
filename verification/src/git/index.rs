//! Index and tree listings.

use vstd::prelude::*;

use crate::bytes;
use crate::codec::integer;
use crate::error::{ErrorCategory, GitveilError};
use crate::git::command;
use crate::git::ignore;
use crate::path;
use crate::path::ManagedPath;
use crate::segment;
use crate::text;

verus! {

/// The entries of a listing whose entries end with zero bytes.
pub open spec fn entries_of(fields: Seq<Seq<u8>>) -> Seq<Seq<u8>>
    decreases fields.len(),
{
    if fields.len() == 0 {
        Seq::empty()
    } else {
        let head = entries_of(fields.drop_last());
        if fields.last().len() == 0 {
            head
        } else {
            head.push(fields.last())
        }
    }
}

pub open spec fn listing(output: Seq<u8>) -> Seq<Seq<u8>> {
    entries_of(bytes::split(output, 0))
}

fn list_entries(output: &[u8]) -> (r: Vec<Vec<u8>>)
    ensures
        bytes::pieces(r@) == listing(output@),
{
    let fields = bytes::split_at(output, 0);
    let ghost all = bytes::pieces(fields@);
    let mut out: Vec<Vec<u8>> = Vec::new();
    let mut i: usize = 0;
    assert(bytes::pieces(out@) =~= entries_of(all.take(0)));
    while i < fields.len()
        invariant
            i <= fields.len(),
            all == bytes::pieces(fields@),
            bytes::pieces(out@) == entries_of(all.take(i as int)),
        decreases fields.len() - i,
    {
        assert(all.take(i + 1).drop_last() =~= all.take(i as int));
        assert(all.take(i + 1).last() == fields@[i as int]@);
        if fields[i].len() > 0 {
            let ghost before = out@;
            let entry = bytes::copy(fields[i].as_slice(), 0, fields[i].len());
            assert(entry@ =~= fields@[i as int]@);
            out.push(entry);
            assert(bytes::pieces(out@) =~= bytes::pieces(before).push(entry@));
        }
        i = i + 1;
    }
    assert(all.take(i as int) =~= all);
    out
}

/// The requested paths that a listing of the index names, each once, in the order in
/// which they come up.
pub open spec fn tracked_of(entries: Seq<Seq<u8>>, requested: Seq<Seq<char>>) -> Option<
    Seq<Seq<char>>,
>
    decreases entries.len(),
{
    if entries.len() == 0 {
        Some(Seq::empty())
    } else {
        match tracked_of(entries.drop_last(), requested) {
            None => None,
            Some(list) => match ignore::requested_path(requested, entries.last()) {
                None => None,
                Some(path) => if list.contains(path) {
                    Some(list)
                } else {
                    Some(list.push(path))
                },
            },
        }
    }
}

proof fn lemma_tracked_fails(entries: Seq<Seq<u8>>, requested: Seq<Seq<char>>, k: int)
    requires
        0 <= k <= entries.len(),
        tracked_of(entries.take(k), requested) is None,
    ensures
        tracked_of(entries, requested) is None,
    decreases entries.len(),
{
    if k < entries.len() {
        assert(entries.drop_last().take(k) =~= entries.take(k));
        lemma_tracked_fails(entries.drop_last(), requested, k);
    } else {
        assert(entries.take(k) =~= entries);
    }
}

/// Reads which of the requested paths are in the index.
pub fn tracked_paths(output: &[u8], requested: &[ManagedPath]) -> (r: Result<
    Vec<ManagedPath>,
    GitveilError,
>)
    ensures
        match tracked_of(listing(output@), path::path_texts(requested@)) {
            Some(list) => r matches Ok(v) && path::path_texts(v@) == list,
            None => r matches Err(e) && e@ == command::protocol_fault(
                "git ls-files returned an unrequested path"@,
            ),
        },
{
    let entries = list_entries(output);
    let ghost all = listing(output@);
    let ghost names = path::path_texts(requested@);
    let mut out: Vec<ManagedPath> = Vec::new();
    let mut i: usize = 0;
    assert(path::path_texts(out@) =~= Seq::empty());
    assert(tracked_of(all.take(0), names) == Some(path::path_texts(out@)));
    while i < entries.len()
        invariant
            i <= entries.len(),
            all == listing(output@),
            all == bytes::pieces(entries@),
            names == path::path_texts(requested@),
            tracked_of(all.take(i as int), names) == Some(path::path_texts(out@)),
        decreases entries.len() - i,
    {
        assert(all.take(i + 1).drop_last() =~= all.take(i as int));
        assert(all.take(i + 1).last() == entries@[i as int]@);
        match ignore::find_requested(requested, entries[i].as_slice()) {
            Some(path) => {
                if !path::contains_path(out.as_slice(), path) {
                    let ghost before = out@;
                    out.push(path.clone());
                    assert(path::path_texts(out@) =~= path::path_texts(before).push(path@));
                }
            },
            None => {
                proof {
                    lemma_tracked_fails(all, names, i + 1);
                }
                return Err(command::protocol_error("git ls-files returned an unrequested path"));
            },
        }
        i = i + 1;
    }
    assert(all.take(i as int) =~= all);
    Ok(out)
}

/// What precedes the tab of an entry, in words.
pub open spec fn metadata_words(entry: Seq<u8>) -> Seq<Seq<char>> {
    segment::words(vstd::utf8::decode_utf8(metadata(entry)))
}

pub open spec fn metadata(entry: Seq<u8>) -> Seq<u8> {
    entry.take(bytes::position(entry, 9) as int)
}

/// The path of an entry, behind its tab.
pub open spec fn entry_path(entry: Seq<u8>) -> Seq<u8> {
    entry.skip(bytes::position(entry, 9) as int + 1)
}

pub open spec fn has_tab(entry: Seq<u8>) -> bool {
    bytes::position(entry, 9) < entry.len()
}

/// Splits an entry at its tab, given how the listing is called in messages.
fn split_entry(entry: &[u8], listing: &str) -> (r: Result<(Vec<Vec<char>>, Vec<u8>), GitveilError>)
    ensures
        if !has_tab(entry@) {
            r matches Err(e) && e@ == command::protocol_fault(
                "invalid git "@ + listing@ + " output"@,
            )
        } else if !vstd::utf8::valid_utf8(metadata(entry@)) {
            r matches Err(e) && e@ == command::protocol_fault(
                "non-UTF-8 git "@ + listing@ + " metadata"@,
            )
        } else {
            r matches Ok(parts) && text::pieces(parts.0@) == metadata_words(entry@) && parts.1@
                == entry_path(entry@)
        },
{
    let tab = bytes::find(entry, 9);
    if tab >= entry.len() {
        return Err(
            command::protocol_error(text::cat3("invalid git ", listing, " output").as_str()),
        );
    }
    let head = bytes::copy(entry, 0, tab);
    assert(head@ =~= metadata(entry@));
    let s = match text::from_utf8(head.as_slice()) {
        Some(s) => s,
        None => {
            return Err(
                command::protocol_error(
                    text::cat3("non-UTF-8 git ", listing, " metadata").as_str(),
                ),
            );
        },
    };
    let words = segment::split_words(text::chars_of(s.as_str()).as_slice());
    let rest = bytes::copy(entry, tab + 1, entry.len());
    assert(rest@ =~= entry_path(entry@));
    Ok((words, rest))
}

/// The stage that the words of an index entry name.
pub open spec fn stage_of(words: Seq<Seq<char>>) -> Result<int, Seq<char>> {
    if words.len() < 3 {
        Err("missing index stage"@)
    } else {
        match integer::unsigned_value(words[2], 255) {
            Some(n) => Ok(n),
            None => Err("invalid index stage"@),
        }
    }
}

fn read_stage(words: &Vec<Vec<char>>) -> (r: Result<u8, GitveilError>)
    ensures
        match stage_of(text::pieces(words@)) {
            Ok(n) => r matches Ok(stage) && stage == n,
            Err(message) => r matches Err(e) && e@ == command::protocol_fault(message),
        },
{
    if words.len() < 3 {
        return Err(command::protocol_error("missing index stage"));
    }
    assert(text::pieces(words@)[2] == words@[2]@);
    match integer::parse_unsigned(text::string_of(words[2].as_slice()).as_str(), 255) {
        Some(n) => Ok(n as u8),
        None => Err(command::protocol_error("invalid index stage")),
    }
}

/// What one entry of the unmerged listing says: the requested path that has a conflict,
/// if the entry names one.
pub open spec fn unmerged_entry(entry: Seq<u8>, requested: Seq<Seq<char>>) -> Result<
    Option<Seq<char>>,
    Seq<char>,
> {
    if !has_tab(entry) {
        Err("invalid git "@ + "ls-files"@ + " output"@)
    } else if !vstd::utf8::valid_utf8(metadata(entry)) {
        Err("non-UTF-8 git "@ + "ls-files"@ + " metadata"@)
    } else {
        match stage_of(metadata_words(entry)) {
            Err(message) => Err(message),
            Ok(stage) => if 1 <= stage <= 3 {
                Ok(ignore::requested_path(requested, entry_path(entry)))
            } else {
                Err("invalid unmerged index stage"@)
            },
        }
    }
}

fn read_unmerged<'a>(entry: &[u8], requested: &'a [ManagedPath]) -> (r: Result<
    Option<&'a ManagedPath>,
    GitveilError,
>)
    ensures
        match unmerged_entry(entry@, path::path_texts(requested@)) {
            Ok(Some(path)) => r matches Ok(Some(p)) && p@ == path,
            Ok(None) => r matches Ok(None),
            Err(message) => r matches Err(e) && e@ == command::protocol_fault(message),
        },
{
    let (words, rest) = match split_entry(entry, "ls-files") {
        Ok(parts) => parts,
        Err(error) => {
            return Err(error);
        },
    };
    let stage = match read_stage(&words) {
        Ok(stage) => stage,
        Err(error) => {
            return Err(error);
        },
    };
    if !(1 <= stage && stage <= 3) {
        return Err(command::protocol_error("invalid unmerged index stage"));
    }
    Ok(ignore::find_requested(requested, rest.as_slice()))
}

/// The requested paths that the unmerged listing names, each once.
pub open spec fn unmerged_of(entries: Seq<Seq<u8>>, requested: Seq<Seq<char>>) -> Result<
    Seq<Seq<char>>,
    Seq<char>,
>
    decreases entries.len(),
{
    if entries.len() == 0 {
        Ok(Seq::empty())
    } else {
        match unmerged_of(entries.drop_last(), requested) {
            Err(message) => Err(message),
            Ok(list) => match unmerged_entry(entries.last(), requested) {
                Err(message) => Err(message),
                Ok(None) => Ok(list),
                Ok(Some(path)) => if list.contains(path) {
                    Ok(list)
                } else {
                    Ok(list.push(path))
                },
            },
        }
    }
}

proof fn lemma_unmerged_fails(entries: Seq<Seq<u8>>, requested: Seq<Seq<char>>, k: int)
    requires
        0 <= k <= entries.len(),
        unmerged_of(entries.take(k), requested) is Err,
    ensures
        unmerged_of(entries, requested) == unmerged_of(entries.take(k), requested),
    decreases entries.len(),
{
    if k < entries.len() {
        assert(entries.drop_last().take(k) =~= entries.take(k));
        lemma_unmerged_fails(entries.drop_last(), requested, k);
    } else {
        assert(entries.take(k) =~= entries);
    }
}

/// Reads which of the requested paths have unmerged stages.
pub fn unmerged_paths(output: &[u8], requested: &[ManagedPath]) -> (r: Result<
    Vec<ManagedPath>,
    GitveilError,
>)
    ensures
        match unmerged_of(listing(output@), path::path_texts(requested@)) {
            Ok(list) => r matches Ok(v) && path::path_texts(v@) == list,
            Err(message) => r matches Err(e) && e@ == command::protocol_fault(message),
        },
{
    let entries = list_entries(output);
    let ghost all = listing(output@);
    let ghost names = path::path_texts(requested@);
    let mut out: Vec<ManagedPath> = Vec::new();
    let mut i: usize = 0;
    assert(path::path_texts(out@) =~= Seq::empty());
    assert(unmerged_of(all.take(0), names) == Ok::<Seq<Seq<char>>, Seq<char>>(
        path::path_texts(out@),
    ));
    while i < entries.len()
        invariant
            i <= entries.len(),
            all == listing(output@),
            all == bytes::pieces(entries@),
            names == path::path_texts(requested@),
            unmerged_of(all.take(i as int), names) == Ok::<Seq<Seq<char>>, Seq<char>>(
                path::path_texts(out@),
            ),
        decreases entries.len() - i,
    {
        assert(all.take(i + 1).drop_last() =~= all.take(i as int));
        assert(all.take(i + 1).last() == entries@[i as int]@);
        match read_unmerged(entries[i].as_slice(), requested) {
            Ok(Some(path)) => {
                if !path::contains_path(out.as_slice(), path) {
                    let ghost before = out@;
                    out.push(path.clone());
                    assert(path::path_texts(out@) =~= path::path_texts(before).push(path@));
                }
            },
            Ok(None) => {},
            Err(error) => {
                proof {
                    lemma_unmerged_fails(all, names, i + 1);
                }
                return Err(error);
            },
        }
        i = i + 1;
    }
    assert(all.take(i as int) =~= all);
    Ok(out)
}

pub open spec fn hex_digit(c: char) -> bool {
    '0' <= c <= '9' || 'a' <= c <= 'f' || 'A' <= c <= 'F'
}

pub open spec fn all_hex(s: Seq<char>) -> bool {
    forall|i: int| 0 <= i < s.len() ==> hex_digit(#[trigger] s[i])
}

fn is_hex(s: &[char]) -> (r: bool)
    ensures
        r == all_hex(s@),
{
    let mut i: usize = 0;
    while i < s.len()
        invariant
            i <= s.len(),
            forall|j: int| 0 <= j < i ==> hex_digit(#[trigger] s@[j]),
        decreases s.len() - i,
    {
        let c = s[i];
        if !(('0' <= c && c <= '9') || ('a' <= c && c <= 'f') || ('A' <= c && c <= 'F')) {
            assert(!hex_digit(s@[i as int]));
            return false;
        }
        i = i + 1;
    }
    true
}

/// An object id as it is handed back to Git.
pub open spec fn checked_oid(oid: Seq<char>) -> Result<Option<Seq<char>>, Seq<char>> {
    if all_hex(oid) {
        Ok(Some(oid))
    } else {
        Err("invalid Git object id"@)
    }
}

fn check_oid(oid: &Vec<char>) -> (r: Result<Option<String>, GitveilError>)
    ensures
        match checked_oid(oid@) {
            Ok(found) => r matches Ok(s) && text::view_option(s) == found,
            Err(message) => r matches Err(e) && e@ == command::protocol_fault(message),
        },
{
    if is_hex(oid.as_slice()) {
        Ok(Some(text::string_of(oid.as_slice())))
    } else {
        Err(command::protocol_error("invalid Git object id"))
    }
}

/// The object that an index listing has at a stage, if any.
pub open spec fn index_object_of(entries: Seq<Seq<u8>>, stage: int) -> Result<
    Option<Seq<char>>,
    Seq<char>,
>
    decreases entries.len(),
{
    if entries.len() == 0 {
        Ok(None)
    } else {
        let entry = entries[0];
        let words = metadata_words(entry);
        if !has_tab(entry) {
            Err("invalid git "@ + "ls-files"@ + " output"@)
        } else if !vstd::utf8::valid_utf8(metadata(entry)) {
            Err("non-UTF-8 git "@ + "ls-files"@ + " metadata"@)
        } else if words.len() < 2 {
            Err("missing index object id"@)
        } else {
            match stage_of(words) {
                Err(message) => Err(message),
                Ok(n) => if n == stage {
                    checked_oid(words[1])
                } else {
                    index_object_of(entries.skip(1), stage)
                },
            }
        }
    }
}

/// Reads the object that the index holds of a path at a stage.
pub fn index_object(output: &[u8], stage: u8) -> (r: Result<Option<String>, GitveilError>)
    ensures
        match index_object_of(listing(output@), stage as int) {
            Ok(found) => r matches Ok(s) && text::view_option(s) == found,
            Err(message) => r matches Err(e) && e@ == command::protocol_fault(message),
        },
{
    let entries = list_entries(output);
    let ghost all = listing(output@);
    let mut i: usize = 0;
    assert(all.skip(0) =~= all);
    while i < entries.len()
        invariant
            i <= entries.len(),
            all == listing(output@),
            all == bytes::pieces(entries@),
            index_object_of(all, stage as int) == index_object_of(
                all.skip(i as int),
                stage as int,
            ),
        decreases entries.len() - i,
    {
        assert(all.skip(i as int)[0] == entries@[i as int]@);
        assert(all.skip(i as int).skip(1) =~= all.skip(i + 1));
        let (words, _rest) = match split_entry(entries[i].as_slice(), "ls-files") {
            Ok(parts) => parts,
            Err(error) => {
                return Err(error);
            },
        };
        if words.len() < 2 {
            return Err(command::protocol_error("missing index object id"));
        }
        assert(text::pieces(words@)[1] == words@[1]@);
        match read_stage(&words) {
            Ok(n) => {
                if n == stage {
                    return check_oid(&words[1]);
                }
            },
            Err(error) => {
                return Err(error);
            },
        }
        i = i + 1;
    }
    Ok(None)
}

/// A revision that may be asked for: the head, or an object id.
pub open spec fn valid_revision(revision: Seq<char>) -> bool {
    revision == "HEAD"@ || (0 < revision.len() <= 64 && all_hex(revision))
}

pub fn check_revision(revision: &str) -> (r: Result<(), GitveilError>)
    ensures
        if valid_revision(revision@) {
            r.is_ok()
        } else {
            r matches Err(e) && e@ == (
                ErrorCategory::Configuration,
                "invalid revision object id"@,
            )
        },
{
    let chars = text::chars_of(revision);
    if text::eq(revision, "HEAD") || (chars.len() > 0 && chars.len() <= 64 && is_hex(
        chars.as_slice(),
    )) {
        Ok(())
    } else {
        Err(GitveilError::configuration("invalid revision object id"))
    }
}

/// The object that a tree listing names first, if any.
pub open spec fn tree_object_of(entries: Seq<Seq<u8>>) -> Result<Option<Seq<char>>, Seq<char>> {
    if entries.len() == 0 {
        Ok(None)
    } else {
        let words = metadata_words(entries[0]);
        if !has_tab(entries[0]) {
            Err("invalid git "@ + "ls-tree"@ + " output"@)
        } else if !vstd::utf8::valid_utf8(metadata(entries[0])) {
            Err("non-UTF-8 git "@ + "ls-tree"@ + " metadata"@)
        } else if words.len() < 3 {
            Err("missing tree object id"@)
        } else {
            checked_oid(words[2])
        }
    }
}

/// Reads the object that a revision holds of a path. A listing that cannot be read is
/// an error, never an absent object.
pub fn tree_object(output: &[u8]) -> (r: Result<Option<String>, GitveilError>)
    ensures
        match tree_object_of(listing(output@)) {
            Ok(found) => r matches Ok(s) && text::view_option(s) == found,
            Err(message) => r matches Err(e) && e@ == command::protocol_fault(message),
        },
{
    let entries = list_entries(output);
    assert(bytes::pieces(entries@).len() == entries@.len());
    if entries.len() == 0 {
        return Ok(None);
    }
    assert(bytes::pieces(entries@)[0] == entries@[0]@);
    let (words, _rest) = match split_entry(entries[0].as_slice(), "ls-tree") {
        Ok(parts) => parts,
        Err(error) => {
            return Err(error);
        },
    };
    assert(text::pieces(words@).len() == words@.len());
    if words.len() < 3 {
        return Err(command::protocol_error("missing tree object id"));
    }
    assert(text::pieces(words@)[2] == words@[2]@);
    check_oid(&words[2])
}

/// Law: a tree listing that holds anything is never read as an absent object.
pub proof fn law_listed_objects_are_not_absent(output: Seq<u8>)
    ensures
        (tree_object_of(listing(output)) == Ok::<Option<Seq<char>>, Seq<char>>(None)) == (listing(
            output,
        ).len() == 0),
{
}

/// Two texts with the same bytes are the same.
proof fn lemma_same_bytes(a: Seq<char>, b: Seq<char>)
    requires
        vstd::utf8::encode_utf8(a) == vstd::utf8::encode_utf8(b),
    ensures
        a == b,
{
    vstd::utf8::encode_utf8_decode_utf8(a);
    vstd::utf8::encode_utf8_decode_utf8(b);
}

proof fn lemma_request_found(requested: Seq<Seq<char>>, b: Seq<u8>)
    ensures
        ignore::requested_path(requested, b) is None ==> forall|i: int|
            0 <= i < requested.len() ==> vstd::utf8::encode_utf8(#[trigger] requested[i]) != b,
    decreases requested.len(),
{
    if requested.len() > 0 && vstd::utf8::encode_utf8(requested[0]) != b {
        let rest = requested.skip(1);
        lemma_request_found(rest, b);
        assert forall|i: int| 0 <= i < requested.len() && ignore::requested_path(requested, b)
            is None implies vstd::utf8::encode_utf8(#[trigger] requested[i]) != b by {
            if i > 0 {
                assert(rest[i - 1] == requested[i]);
            }
        }
    }
}

/// A listing has an entry that is the bytes of a path.
pub open spec fn lists(entries: Seq<Seq<u8>>, p: Seq<char>) -> bool {
    entries.contains(vstd::utf8::encode_utf8(p))
}

/// Law: the tracked paths are exactly the requested ones that the listing names, each once;
/// a listing that names any other path is refused.
pub proof fn law_tracked_paths_are_listed(
    entries: Seq<Seq<u8>>,
    requested: Seq<Seq<char>>,
    p: Seq<char>,
)
    ensures
        match tracked_of(entries, requested) {
            Some(list) => {
                &&& list.contains(p) <==> requested.contains(p) && lists(entries, p)
                &&& list.no_duplicates()
                &&& forall|i: int|
                    0 <= i < entries.len() ==> ignore::requested_path(
                        requested,
                        #[trigger] entries[i],
                    ) is Some
            },
            None => exists|i: int|
                0 <= i < entries.len() && forall|j: int|
                    0 <= j < requested.len() ==> vstd::utf8::encode_utf8(#[trigger] requested[j])
                        != #[trigger] entries[i],
        },
    decreases entries.len(),
{
    if entries.len() > 0 {
        let before = entries.drop_last();
        let b = entries[entries.len() - 1];
        assert(forall|i: int| 0 <= i < before.len() ==> before[i] == entries[i]);
        law_tracked_paths_are_listed(before, requested, p);
        lemma_request_found(requested, b);
        ignore::lemma_requested_path(requested, b);
        match tracked_of(before, requested) {
            None => {
                let i = choose|i: int|
                    0 <= i < before.len() && forall|j: int|
                        0 <= j < requested.len() ==> vstd::utf8::encode_utf8(
                            #[trigger] requested[j],
                        ) != #[trigger] before[i];
                assert(entries[i] == before[i]);
            },
            Some(list) => {
                match ignore::requested_path(requested, b) {
                    None => {
                        assert(entries[entries.len() - 1] == b);
                    },
                    Some(found) => {
                        law_tracked_paths_are_listed(before, requested, found);
                        let key = vstd::utf8::encode_utf8(p);
                        if before.contains(key) {
                            let i = choose|i: int| 0 <= i < before.len() && before[i] == key;
                            assert(entries[i] == key);
                        }
                        if entries.contains(key) && !before.contains(key) {
                            let i = choose|i: int| 0 <= i < entries.len() && entries[i] == key;
                            if i < before.len() {
                                assert(before[i] == key);
                            }
                            lemma_same_bytes(p, found);
                        }
                        if p == found {
                            assert(entries[entries.len() - 1] == key);
                        }
                        let more = list.push(found);
                        assert(more[list.len() as int] == found);
                        if list.contains(p) {
                            let i = choose|i: int| 0 <= i < list.len() && list[i] == p;
                            assert(more[i] == p);
                        }
                        if more.contains(p) && p != found {
                            let i = choose|i: int| 0 <= i < more.len() && more[i] == p;
                            assert(list[i] == p);
                        }
                        if !list.contains(found) {
                            assert forall|i: int, j: int|
                                0 <= i < more.len() && 0 <= j < more.len() && i
                                    != j implies more[i] != more[j] by {
                                if i == list.len() {
                                    assert(list.contains(list[j]));
                                } else if j == list.len() {
                                    assert(list.contains(list[i]));
                                }
                            }
                        }
                        assert forall|i: int| 0 <= i < entries.len() implies ignore::requested_path(
                            requested,
                            #[trigger] entries[i],
                        ) is Some by {
                            if i < before.len() {
                                assert(before[i] == entries[i]);
                            }
                        }
                    },
                }
            },
        }
    }
}

/// An entry of the unmerged listing names a path.
pub open spec fn names_path(entry: Seq<u8>, p: Seq<char>) -> bool {
    entry_path(entry) == vstd::utf8::encode_utf8(p)
}

/// Law: the paths in conflict are exactly the requested ones that an entry of the unmerged
/// listing names, each once; every entry of an accepted listing is of a stage from one to
/// three.
pub proof fn law_unmerged_paths_are_listed(
    entries: Seq<Seq<u8>>,
    requested: Seq<Seq<char>>,
    p: Seq<char>,
)
    requires
        unmerged_of(entries, requested) is Ok,
    ensures
        ({
            let list = unmerged_of(entries, requested)->Ok_0;
            &&& list.contains(p) <==> requested.contains(p) && exists|i: int|
                0 <= i < entries.len() && names_path(#[trigger] entries[i], p)
            &&& list.no_duplicates()
            &&& forall|i: int|
                0 <= i < entries.len() ==> has_tab(#[trigger] entries[i]) && (stage_of(
                    metadata_words(entries[i]),
                ) matches Ok(stage) && 1 <= stage <= 3)
        }),
    decreases entries.len(),
{
    if entries.len() > 0 {
        let before = entries.drop_last();
        let last = entries[entries.len() - 1];
        assert(forall|i: int| 0 <= i < before.len() ==> before[i] == entries[i]);
        law_unmerged_paths_are_listed(before, requested, p);
        lemma_request_found(requested, entry_path(last));
        ignore::lemma_requested_path(requested, entry_path(last));
        let list = unmerged_of(before, requested)->Ok_0;
        if exists|i: int| 0 <= i < before.len() && names_path(#[trigger] before[i], p) {
            let i = choose|i: int| 0 <= i < before.len() && names_path(#[trigger] before[i], p);
            assert(names_path(entries[i], p));
        }
        if exists|i: int| 0 <= i < entries.len() && names_path(#[trigger] entries[i], p) {
            let i = choose|i: int| 0 <= i < entries.len() && names_path(#[trigger] entries[i], p);
            if i < before.len() {
                assert(names_path(before[i], p));
            }
        }
        match ignore::requested_path(requested, entry_path(last)) {
            None => {
                if requested.contains(p) && names_path(last, p) {
                    let j = choose|j: int| 0 <= j < requested.len() && requested[j] == p;
                    assert(vstd::utf8::encode_utf8(requested[j]) != entry_path(last));
                }
            },
            Some(found) => {
                law_unmerged_paths_are_listed(before, requested, found);
                if names_path(last, p) {
                    lemma_same_bytes(p, found);
                }
                if p == found {
                    assert(names_path(entries[entries.len() - 1], p));
                }
                let more = list.push(found);
                assert(more[list.len() as int] == found);
                if list.contains(p) {
                    let i = choose|i: int| 0 <= i < list.len() && list[i] == p;
                    assert(more[i] == p);
                }
                if more.contains(p) && p != found {
                    let i = choose|i: int| 0 <= i < more.len() && more[i] == p;
                    assert(list[i] == p);
                }
                if !list.contains(found) {
                    assert forall|i: int, j: int|
                        0 <= i < more.len() && 0 <= j < more.len() && i != j implies more[i]
                        != more[j] by {
                        if i == list.len() {
                            assert(list.contains(list[j]));
                        } else if j == list.len() {
                            assert(list.contains(list[i]));
                        }
                    }
                }
            },
        }
        assert forall|i: int| 0 <= i < entries.len() implies has_tab(#[trigger] entries[i]) && (
        stage_of(metadata_words(entries[i])) matches Ok(stage) && 1 <= stage <= 3) by {
            if i < before.len() {
                assert(before[i] == entries[i]);
            }
        }
    }
}

/// Law: the object that is found at a stage is that of the first entry of the stage, and is
/// a hexadecimal text; there is none exactly where no entry is of the stage.
pub proof fn law_objects_are_found_by_stage(entries: Seq<Seq<u8>>, stage: int)
    ensures
        match index_object_of(entries, stage) {
            Ok(Some(oid)) => all_hex(oid) && exists|i: int|
                0 <= i < entries.len() && metadata_words(#[trigger] entries[i])[1] == oid
                    && stage_of(metadata_words(entries[i])) == Ok::<int, Seq<char>>(stage)
                    && forall|j: int|
                    0 <= j < i ==> stage_of(metadata_words(#[trigger] entries[j])) != Ok::<
                        int,
                        Seq<char>,
                    >(stage),
            Ok(None) => forall|i: int|
                0 <= i < entries.len() ==> (stage_of(metadata_words(#[trigger] entries[i]))
                    matches Ok(n) && n != stage),
            Err(_) => entries.len() > 0,
        },
    decreases entries.len(),
{
    if entries.len() > 0 {
        let rest = entries.skip(1);
        assert(forall|i: int| 0 <= i < rest.len() ==> rest[i] == entries[i + 1]);
        law_objects_are_found_by_stage(rest, stage);
        let words = metadata_words(entries[0]);
        if stage_of(words) is Ok && stage_of(words)->Ok_0 != stage {
            match index_object_of(entries, stage) {
                Ok(Some(oid)) => {
                    let i = choose|i: int|
                        0 <= i < rest.len() && metadata_words(#[trigger] rest[i])[1] == oid
                            && stage_of(metadata_words(rest[i])) == Ok::<int, Seq<char>>(stage)
                            && forall|j: int|
                            0 <= j < i ==> stage_of(metadata_words(#[trigger] rest[j])) != Ok::<
                                int,
                                Seq<char>,
                            >(stage);
                    assert(metadata_words(entries[i + 1])[1] == oid);
                    assert forall|j: int| 0 <= j < i + 1 implies stage_of(
                        metadata_words(#[trigger] entries[j]),
                    ) != Ok::<int, Seq<char>>(stage) by {
                        if j > 0 {
                            assert(rest[j - 1] == entries[j]);
                        }
                    }
                },
                Ok(None) => {
                    assert forall|i: int| 0 <= i < entries.len() implies (stage_of(
                        metadata_words(#[trigger] entries[i]),
                    ) matches Ok(n) && n != stage) by {
                        if i > 0 {
                            assert(rest[i - 1] == entries[i]);
                        }
                    }
                },
                Err(_) => {},
            }
        } else if stage_of(words) == Ok::<int, Seq<char>>(stage) {
            assert(metadata_words(entries[0])[1] == words[1]);
        }
    }
}

/// Law: the entries of a listing are its fields that are not empty, in their order.
pub proof fn law_listings_have_no_empty_entries(fields: Seq<Seq<u8>>)
    ensures
        entries_of(fields) == fields.filter(|f: Seq<u8>| f.len() > 0),
    decreases fields.len(),
{
    reveal(Seq::filter);
    if fields.len() > 0 {
        law_listings_have_no_empty_entries(fields.drop_last());
    }
}

/// Law: the object of a revision is the third word of the first entry of the listing, and a
/// hexadecimal text; a listing that cannot be read so is refused.
pub proof fn law_tree_objects_are_read_from_the_listing(entries: Seq<Seq<u8>>, oid: Seq<char>)
    ensures
        tree_object_of(entries) == Ok::<Option<Seq<char>>, Seq<char>>(Some(oid)) <==> {
            &&& entries.len() > 0
            &&& has_tab(entries[0])
            &&& vstd::utf8::valid_utf8(metadata(entries[0]))
            &&& metadata_words(entries[0]).len() > 2
            &&& metadata_words(entries[0])[2] == oid
            &&& forall|i: int| 0 <= i < oid.len() ==> hex_digit(#[trigger] oid[i])
        },
{
}

} // verus!
