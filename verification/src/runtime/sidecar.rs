//! Programs that come with Gitveil.

use vstd::prelude::*;

use crate::error::{ErrorCategory, GitveilError};
use crate::text;

verus! {

/// The path without its last component, if it has a parent.
pub uninterp spec fn path_parent(p: Seq<char>) -> Option<Seq<char>>;

/// `std::path::Path::parent`.
#[verifier::external_body]
fn parent_of(p: &str) -> (r: Option<String>)
    ensures
        text::view_option(r) == path_parent(p@),
{
    let parent = std::path::Path::new(p).parent()?;
    parent.to_str().map(|s| s.to_owned())
}

/// A path under a directory; an absolute path stands for itself.
pub open spec fn joined(directory: Seq<char>, p: Seq<char>) -> Seq<char> {
    if p.len() > 0 && p[0] == '/' {
        p
    } else if directory.len() > 0 && directory.last() != '/' {
        directory + "/"@ + p
    } else {
        directory + p
    }
}

fn join(directory: &str, p: &str) -> (r: String)
    ensures
        r@ == joined(directory@, p@),
{
    let tail = text::chars_of(p);
    if tail.len() > 0 && tail[0] == '/' {
        return p.to_owned();
    }
    let head = text::chars_of(directory);
    if head.len() > 0 && head[head.len() - 1] != '/' {
        return text::cat3(directory, "/", p);
    }
    text::cat2(directory, p)
}

/// The place of a packaged program below an installation prefix.
pub open spec fn packaged(prefix: Seq<char>, name: Seq<char>) -> Seq<char> {
    joined(joined(joined(prefix, "libexec"@), "gitveil"@), name)
}

/// The place of a packaged program, given the directory of the executable and the
/// prefix of the installation.
pub open spec fn sidecar_of(
    bin: Option<Seq<char>>,
    prefix: Option<Seq<char>>,
    name: Seq<char>,
) -> Result<Seq<char>, (ErrorCategory, Seq<char>)> {
    if bin is None {
        Err((ErrorCategory::Dependency, "Gitveil executable has no installation directory"@))
    } else {
        match prefix {
            None => Err(
                (ErrorCategory::Dependency, "Gitveil executable has no installation prefix"@),
            ),
            Some(prefix) => Ok(packaged(prefix, name)),
        }
    }
}

/// The installation prefix of an executable in a directory.
pub open spec fn prefix_of(bin: Option<Seq<char>>) -> Option<Seq<char>> {
    match bin {
        Some(bin) => path_parent(bin),
        None => None,
    }
}

/// Places a packaged program, given the directory of the executable and the prefix of
/// the installation.
pub fn place_sidecar(bin: Option<String>, prefix: Option<String>, name: &str) -> (r: Result<
    String,
    GitveilError,
>)
    ensures
        match sidecar_of(text::view_option(bin), text::view_option(prefix), name@) {
            Ok(p) => r matches Ok(s) && s@ == p,
            Err(fault) => r matches Err(e) && e@ == fault,
        },
{
    if bin.is_none() {
        return Err(GitveilError::dependency("Gitveil executable has no installation directory"));
    }
    match prefix {
        Some(prefix) => {
            let libexec = join(prefix.as_str(), "libexec");
            let own = join(libexec.as_str(), "gitveil");
            Ok(join(own.as_str(), name))
        },
        None => Err(GitveilError::dependency("Gitveil executable has no installation prefix")),
    }
}

/// The place of a program that comes with Gitveil, below the prefix under which
/// Gitveil is installed.
pub fn packaged_sidecar_path(gitveil_binary: &str, name: &str) -> (r: Result<
    String,
    GitveilError,
>)
    ensures
        match sidecar_of(
            path_parent(gitveil_binary@),
            prefix_of(path_parent(gitveil_binary@)),
            name@,
        ) {
            Ok(p) => r matches Ok(s) && s@ == p,
            Err(fault) => r matches Err(e) && e@ == fault,
        },
{
    let bin = parent_of(gitveil_binary);
    let prefix = match &bin {
        Some(bin) => parent_of(bin.as_str()),
        None => None,
    };
    place_sidecar(bin, prefix, name)
}

/// The program that is started: the explicit one, the one that the environment names,
/// or the packaged one where it is there.
pub fn choose_program(
    explicit: Option<String>,
    variable: Option<String>,
    packaged: String,
    packaged_exists: bool,
    program: &str,
) -> (r: Result<String, GitveilError>)
    ensures
        match explicit {
            Some(p) => r == Ok::<String, GitveilError>(p),
            None => match variable {
                Some(p) => r == Ok::<String, GitveilError>(p),
                None => if packaged_exists {
                    r == Ok::<String, GitveilError>(packaged)
                } else {
                    r matches Err(e) && e@ == (
                        ErrorCategory::Dependency,
                        "packaged "@ + program@ + " sidecar was not found at "@ + packaged@
                            + "; reinstall Gitveil"@,
                    )
                },
            },
        },
{
    match explicit {
        Some(p) => {
            return Ok(p);
        },
        None => {},
    }
    match variable {
        Some(p) => {
            return Ok(p);
        },
        None => {},
    }
    if packaged_exists {
        return Ok(packaged);
    }
    Err(
        GitveilError::dependency(
            text::cat5(
                "packaged ",
                program,
                " sidecar was not found at ",
                packaged.as_str(),
                "; reinstall Gitveil",
            ).as_str(),
        ),
    )
}

} // verus!
