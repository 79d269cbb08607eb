//! Finding the repository.

use vstd::prelude::*;

use crate::error::{ErrorCategory, GitveilError};
use crate::git::command;
use crate::segment;
use crate::sops::command as code;
use crate::text;

verus! {

#[derive(Debug)]
pub enum RepositoryDiscoveryError {
    NotRepository,
    Failure(GitveilError),
}

/// Where a repository is: its root, and the directory for private files, which may
/// be relative to where the search began.
#[derive(Debug, PartialEq, Eq)]
pub struct DiscoveredPaths {
    pub root: String,
    pub runtime: String,
}

pub enum DiscoveryModel {
    Found { root: Seq<char>, runtime: Seq<char> },
    NotRepository,
    Failure((ErrorCategory, Seq<char>)),
}

pub open spec fn line_break(c: char) -> bool {
    c == '\r' || c == '\n'
}

/// A text without the line breaks at its end.
pub open spec fn unbroken(s: Seq<char>) -> Seq<char>
    decreases s.len(),
{
    if s.len() > 0 && line_break(s.last()) {
        unbroken(s.drop_last())
    } else {
        s
    }
}

pub fn strip_breaks(s: &[char]) -> (r: Vec<char>)
    ensures
        r@ == unbroken(s@),
{
    let mut n: usize = s.len();
    assert(s@.take(n as int) =~= s@);
    while n > 0 && (s[n - 1] == '\r' || s[n - 1] == '\n')
        invariant
            n <= s.len(),
            unbroken(s@) == unbroken(s@.take(n as int)),
        decreases n,
    {
        assert(s@.take(n as int).last() == s@[n - 1]);
        assert(s@.take(n as int).drop_last() =~= s@.take(n - 1));
        n = n - 1;
    }
    assert(n > 0 ==> s@.take(n as int).last() == s@[n - 1]);
    let out = segment::slice_to_vec(s, 0, n);
    assert(out@ =~= s@.take(n as int));
    out
}

/// What a search for the repository found.
pub open spec fn discovered(success: bool, code: Option<i32>, stdout: Seq<u8>) -> DiscoveryModel {
    if !success {
        if code == Some(128i32) {
            DiscoveryModel::NotRepository
        } else {
            DiscoveryModel::Failure(
                (
                    ErrorCategory::Process,
                    "Git repository discovery failed with exit code "@ + code::code_text(code),
                ),
            )
        }
    } else if !vstd::utf8::valid_utf8(stdout) {
        DiscoveryModel::Failure(command::protocol_fault("non-UTF-8 Git repository path"@))
    } else {
        let lines = segment::lines(unbroken(vstd::utf8::decode_utf8(stdout)));
        if lines.len() != 2 {
            DiscoveryModel::Failure(
                command::protocol_fault("invalid Git repository discovery output"@),
            )
        } else if !text::starts_with(lines[0], "/"@) {
            DiscoveryModel::Failure((ErrorCategory::Path, "Git repository root is not absolute"@))
        } else {
            DiscoveryModel::Found { root: lines[0], runtime: lines[1] }
        }
    }
}

pub open spec fn view_discovery(r: Result<DiscoveredPaths, RepositoryDiscoveryError>) -> DiscoveryModel {
    match r {
        Ok(paths) => DiscoveryModel::Found { root: paths.root@, runtime: paths.runtime@ },
        Err(RepositoryDiscoveryError::NotRepository) => DiscoveryModel::NotRepository,
        Err(RepositoryDiscoveryError::Failure(e)) => DiscoveryModel::Failure(e@),
    }
}

/// Reads what a search for the repository printed.
pub fn discover(success: bool, code: Option<i32>, stdout: &[u8]) -> (r: Result<
    DiscoveredPaths,
    RepositoryDiscoveryError,
>)
    ensures
        view_discovery(r) == discovered(success, code, stdout@),
{
    if !success {
        if matches!(code, Some(128)) {
            return Err(RepositoryDiscoveryError::NotRepository);
        }
        return Err(
            RepositoryDiscoveryError::Failure(
                GitveilError::new(
                    ErrorCategory::Process,
                    text::cat2(
                        "Git repository discovery failed with exit code ",
                        code::show_code(code).as_str(),
                    ),
                ),
            ),
        );
    }
    let s = match text::from_utf8(stdout) {
        Some(s) => s,
        None => {
            return Err(
                RepositoryDiscoveryError::Failure(
                    command::protocol_error("non-UTF-8 Git repository path"),
                ),
            );
        },
    };
    let chars = strip_breaks(text::chars_of(s.as_str()).as_slice());
    let lines = segment::split_lines(chars.as_slice());
    let ghost all = text::pieces(lines@);
    assert(all.len() == lines@.len());
    if lines.len() != 2 {
        return Err(
            RepositoryDiscoveryError::Failure(
                command::protocol_error("invalid Git repository discovery output"),
            ),
        );
    }
    assert(all[0] == lines@[0]@ && all[1] == lines@[1]@);
    let slash = text::chars_of("/");
    if !text::begins(lines[0].as_slice(), slash.as_slice()) {
        return Err(
            RepositoryDiscoveryError::Failure(
                GitveilError::new(
                    ErrorCategory::Path,
                    "Git repository root is not absolute".to_owned(),
                ),
            ),
        );
    }
    Ok(
        DiscoveredPaths {
            root: text::string_of(lines[0].as_slice()),
            runtime: text::string_of(lines[1].as_slice()),
        },
    )
}

/// Law: where Git prints two lines, the first of which is an absolute path, these are the root
/// of the repository and the place of its runtime files, whatever line breaks follow; and
/// there is no repository exactly where Git says so by its code.
pub proof fn law_discovery_reads_two_lines(
    code: Option<i32>,
    root: Seq<char>,
    runtime: Seq<char>,
    stdout: Seq<u8>,
)
    requires
        root.len() > 0 && root[0] == '/',
        runtime.len() > 0,
        forall|i: int| 0 <= i < root.len() ==> !line_break(#[trigger] root[i]),
        forall|i: int| 0 <= i < runtime.len() ==> !line_break(#[trigger] runtime[i]),
    ensures
        discovered(
            true,
            code,
            vstd::utf8::encode_utf8(root.push('\n') + runtime.push('\n')),
        ) == (DiscoveryModel::Found { root, runtime }),
        discovered(false, code, stdout) == DiscoveryModel::NotRepository <==> code == Some(128i32),
        discovered(true, code, stdout) != DiscoveryModel::NotRepository,
{
    let s = root.push('\n') + runtime.push('\n');
    vstd::utf8::encode_utf8_decode_utf8(s);
    vstd::utf8::encode_utf8_valid_utf8(s);
    let t = root.push('\n') + runtime;
    assert(s.last() == '\n');
    assert(s.drop_last() =~= t);
    assert(t.last() == runtime[runtime.len() - 1]);
    assert(!line_break(t.last()));
    assert(unbroken(t) == t);
    assert(unbroken(s) == t);
    assert(!root.contains('\n')) by {
        if root.contains('\n') {
            let i = choose|i: int| 0 <= i < root.len() && root[i] == '\n';
            assert(line_break(root[i]));
        }
    }
    assert(!runtime.contains('\n')) by {
        if runtime.contains('\n') {
            let i = choose|i: int| 0 <= i < runtime.len() && runtime[i] == '\n';
            assert(line_break(runtime[i]));
        }
    }
    segment::law_lines_end_at_line_feeds(root, runtime);
    segment::law_lines_end_at_line_feeds(runtime, Seq::empty());
    assert(!line_break(root[root.len() - 1]));
    assert(segment::lines(t) =~= seq![root, runtime]);
    reveal_strlit("/");
    assert(root.subrange(0, 1) =~= "/"@);
    assert(text::starts_with(root, "/"@));
}

} // verus!
