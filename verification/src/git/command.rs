//! What is handed to Git, and when its answer counts.

use vstd::prelude::*;
use vstd::string::StrSliceExecFns;

use crate::error::{ErrorCategory, GitveilError};
use crate::path;
use crate::path::ManagedPath;
use crate::sops::command;
use crate::text;

verus! {

pub open spec fn protocol_fault(message: Seq<char>) -> (ErrorCategory, Seq<char>) {
    (ErrorCategory::Protocol, message)
}

pub fn protocol_error(message: &str) -> (r: GitveilError)
    ensures
        r@ == protocol_fault(message@),
{
    GitveilError::new(ErrorCategory::Protocol, message.to_owned())
}

fn extend_paths(arguments: &mut Vec<String>, paths: &[ManagedPath])
    ensures
        text::texts(final(arguments)@) == text::texts(old(arguments)@) + path::path_texts(paths@),
{
    let ghost before = text::texts(arguments@);
    let mut i: usize = 0;
    assert(before =~= before + path::path_texts(paths@).take(0));
    while i < paths.len()
        invariant
            i <= paths.len(),
            text::texts(arguments@) == before + path::path_texts(paths@).take(i as int),
        decreases paths.len() - i,
    {
        let ghost held = arguments@;
        arguments.push(paths[i].as_str().to_owned());
        assert(text::texts(arguments@) =~= text::texts(held).push(paths@[i as int]@));
        assert(path::path_texts(paths@).take(i + 1) =~= path::path_texts(paths@).take(
            i as int,
        ).push(paths@[i as int]@));
        i = i + 1;
    }
    assert(path::path_texts(paths@).take(i as int) =~= path::path_texts(paths@));
}

/// The arguments that find the repository from a directory.
pub fn discovery_arguments() -> (r: Vec<String>)
    ensures
        text::texts(r@) == seq!["rev-parse"@, "--show-toplevel"@, "--git-path"@, "gitveil"@],
{
    let r = vec![
        "rev-parse".to_owned(),
        "--show-toplevel".to_owned(),
        "--git-path".to_owned(),
        "gitveil".to_owned(),
    ];
    assert(text::texts(r@) =~= seq![
        "rev-parse"@,
        "--show-toplevel"@,
        "--git-path"@,
        "gitveil"@,
    ]);
    r
}

/// The arguments that list which of some paths are in the index.
pub fn tracked_arguments(paths: &[ManagedPath]) -> (r: Vec<String>)
    ensures
        text::texts(r@) == seq!["ls-files"@, "--cached"@, "-z"@, "--"@] + path::path_texts(paths@),
{
    let mut r = vec![
        "ls-files".to_owned(),
        "--cached".to_owned(),
        "-z".to_owned(),
        "--".to_owned(),
    ];
    assert(text::texts(r@) =~= seq!["ls-files"@, "--cached"@, "-z"@, "--"@]);
    extend_paths(&mut r, paths);
    r
}

/// The arguments that ask for the ignore rules of the paths on standard input.
pub fn ignore_arguments() -> (r: Vec<String>)
    ensures
        text::texts(r@) == seq![
            "check-ignore"@,
            "--no-index"@,
            "--verbose"@,
            "--non-matching"@,
            "-z"@,
            "--stdin"@,
        ],
{
    let r = vec![
        "check-ignore".to_owned(),
        "--no-index".to_owned(),
        "--verbose".to_owned(),
        "--non-matching".to_owned(),
        "-z".to_owned(),
        "--stdin".to_owned(),
    ];
    assert(text::texts(r@) =~= seq![
        "check-ignore"@,
        "--no-index"@,
        "--verbose"@,
        "--non-matching"@,
        "-z"@,
        "--stdin"@,
    ]);
    r
}

/// The exit codes besides success with which an answer on ignore rules counts.
pub fn ignore_codes() -> (r: Vec<i32>)
    ensures
        r@ == seq![1i32],
{
    vec![1]
}

/// Paths as they are handed over on standard input: each with a zero byte behind it.
pub open spec fn path_input(paths: Seq<Seq<char>>) -> Seq<u8>
    decreases paths.len(),
{
    if paths.len() == 0 {
        Seq::empty()
    } else {
        path_input(paths.drop_last()) + vstd::utf8::encode_utf8(paths.last()).push(0u8)
    }
}

pub fn ignore_input(paths: &[ManagedPath]) -> (r: Vec<u8>)
    ensures
        r@ == path_input(path::path_texts(paths@)),
{
    let ghost all = path::path_texts(paths@);
    let mut out: Vec<u8> = Vec::new();
    let mut i: usize = 0;
    assert(out@ =~= path_input(all.take(0)));
    while i < paths.len()
        invariant
            i <= paths.len(),
            all == path::path_texts(paths@),
            out@ == path_input(all.take(i as int)),
        decreases paths.len() - i,
    {
        let ghost before = out@;
        let mut bytes = paths[i].as_str().as_bytes_vec();
        bytes.push(0);
        out.append(&mut bytes);
        assert(all.take(i + 1).drop_last() =~= all.take(i as int));
        assert(all.take(i + 1).last() == paths@[i as int]@);
        i = i + 1;
    }
    assert(all.take(i as int) =~= all);
    out
}

/// The arguments that list the unmerged entries of the index.
pub fn unmerged_arguments() -> (r: Vec<String>)
    ensures
        text::texts(r@) == seq!["ls-files"@, "--unmerged"@, "--stage"@, "-z"@],
{
    let r = vec![
        "ls-files".to_owned(),
        "--unmerged".to_owned(),
        "--stage".to_owned(),
        "-z".to_owned(),
    ];
    assert(text::texts(r@) =~= seq!["ls-files"@, "--unmerged"@, "--stage"@, "-z"@]);
    r
}

/// The arguments that list the index entries of a path.
pub fn index_arguments(path: &ManagedPath) -> (r: Vec<String>)
    ensures
        text::texts(r@) == seq!["ls-files"@, "--stage"@, "-z"@, "--"@, path@],
{
    let r = vec![
        "ls-files".to_owned(),
        "--stage".to_owned(),
        "-z".to_owned(),
        "--".to_owned(),
        path.as_str().to_owned(),
    ];
    assert(text::texts(r@) =~= seq!["ls-files"@, "--stage"@, "-z"@, "--"@, path@]);
    r
}

/// The arguments that list a path in a revision.
pub fn tree_arguments(revision: &str, path: &ManagedPath) -> (r: Vec<String>)
    ensures
        text::texts(r@) == seq!["ls-tree"@, "-z"@, revision@, "--"@, path@],
{
    let r = vec![
        "ls-tree".to_owned(),
        "-z".to_owned(),
        revision.to_owned(),
        "--".to_owned(),
        path.as_str().to_owned(),
    ];
    assert(text::texts(r@) =~= seq!["ls-tree"@, "-z"@, revision@, "--"@, path@]);
    r
}

/// The arguments that read an object.
pub fn blob_arguments(oid: &str) -> (r: Vec<String>)
    ensures
        text::texts(r@) == seq!["cat-file"@, "blob"@, oid@],
{
    let r = vec!["cat-file".to_owned(), "blob".to_owned(), oid.to_owned()];
    assert(text::texts(r@) =~= seq!["cat-file"@, "blob"@, oid@]);
    r
}

/// The failure of a call.
pub open spec fn git_failure_of(code: Option<i32>, stderr: Seq<u8>) -> (
    ErrorCategory,
    Seq<char>,
) {
    (
        ErrorCategory::Process,
        "Git operation failed with exit code "@ + command::code_text(code)
            + command::detail_suffix(stderr),
    )
}

pub fn git_failure(code: Option<i32>, stderr: &[u8]) -> (r: GitveilError)
    ensures
        r@ == git_failure_of(code, stderr@),
{
    GitveilError::new(
        ErrorCategory::Process,
        text::cat3(
            "Git operation failed with exit code ",
            command::show_code(code).as_str(),
            command::show_detail(stderr).as_str(),
        ),
    )
}

/// The answer of a call counts: it succeeded, or ended with an accepted code.
pub open spec fn answered(success: bool, code: Option<i32>, accepted: Seq<i32>) -> bool {
    success || (code matches Some(c) && accepted.contains(c))
}

fn accepts(accepted: &[i32], code: i32) -> (r: bool)
    ensures
        r == accepted@.contains(code),
{
    let mut i: usize = 0;
    while i < accepted.len()
        invariant
            i <= accepted.len(),
            forall|j: int| 0 <= j < i ==> accepted@[j] != code,
        decreases accepted.len() - i,
    {
        if accepted[i] == code {
            return true;
        }
        i = i + 1;
    }
    false
}

/// The output of a call. A failed call reports its own failure; that its input could
/// not be written matters only where Git claims success.
pub fn git_output(
    success: bool,
    code: Option<i32>,
    accepted: &[i32],
    written: Result<(), GitveilError>,
    stdout: Vec<u8>,
    stderr: &[u8],
) -> (r: Result<Vec<u8>, GitveilError>)
    ensures
        if !answered(success, code, accepted@) {
            r matches Err(e) && e@ == git_failure_of(code, stderr@)
        } else {
            match written {
                Ok(_) => r == Ok::<Vec<u8>, GitveilError>(stdout),
                Err(fault) => r matches Err(e) && e@ == fault@,
            }
        },
{
    let counts: bool = success || (match code {
        Some(c) => accepts(accepted, c),
        None => false,
    });
    if counts {
        match written {
            Ok(_) => Ok(stdout),
            Err(error) => Err(error),
        }
    } else {
        Err(git_failure(code, stderr))
    }
}

} // verus!
