//! Versions of the programs that Gitveil calls.

use vstd::prelude::*;

use crate::error::{ErrorCategory, GitveilError};
use crate::segment;
use crate::text;

verus! {

/// A semantic version.
#[derive(Debug, PartialEq, Eq)]
pub struct VersionParts {
    pub major: u64,
    pub minor: u64,
    pub patch: u64,
    pub pre: String,
    pub build: String,
}

pub struct VersionModel {
    pub major: u64,
    pub minor: u64,
    pub patch: u64,
    pub pre: Seq<char>,
    pub build: Seq<char>,
}

impl View for VersionParts {
    type V = VersionModel;

    open spec fn view(&self) -> VersionModel {
        VersionModel {
            major: self.major,
            minor: self.minor,
            patch: self.patch,
            pre: self.pre@,
            build: self.build@,
        }
    }
}

/// The semantic version that a text denotes, if it denotes one.
pub uninterp spec fn semver_parts(s: Seq<char>) -> Option<VersionModel>;

/// `semver::Version::parse`, part by part, without its error.
#[verifier::external_body]
fn parse_version(s: &str) -> (r: Option<VersionParts>)
    ensures
        match r {
            Some(v) => semver_parts(s@) == Some(v@),
            None => semver_parts(s@) is None,
        },
{
    let version = semver::Version::parse(s).ok()?;
    Some(
        VersionParts {
            major: version.major,
            minor: version.minor,
            patch: version.patch,
            pre: version.pre.to_string(),
            build: version.build.to_string(),
        },
    )
}

/// Three numbers with dots between them.
pub open spec fn triple_text(major: u64, minor: u64, patch: u64) -> Seq<char> {
    segment::decimal(major as nat) + "."@ + segment::decimal(minor as nat) + "."@
        + segment::decimal(patch as nat)
}

fn show_triple(major: u64, minor: u64, patch: u64) -> (r: String)
    ensures
        r@ == triple_text(major, minor, patch),
{
    text::cat5(
        segment::decimal_u64(major).as_str(),
        ".",
        segment::decimal_u64(minor).as_str(),
        ".",
        segment::decimal_u64(patch).as_str(),
    )
}

impl VersionModel {
    /// How a version is written.
    pub open spec fn text(self) -> Seq<char> {
        let numbers = triple_text(self.major, self.minor, self.patch);
        let pre = if self.pre.len() == 0 {
            Seq::empty()
        } else {
            "-"@ + self.pre
        };
        let build = if self.build.len() == 0 {
            Seq::empty()
        } else {
            "+"@ + self.build
        };
        numbers + pre + build
    }

    /// The release with the given numbers, and nothing else.
    pub open spec fn is_release(self, major: u64, minor: u64, patch: u64) -> bool {
        self.major == major && self.minor == minor && self.patch == patch && self.pre.len() == 0
            && self.build.len() == 0
    }

    /// A version that comes before a release: by its numbers, or as a pre-release.
    pub open spec fn precedes(self, major: u64, minor: u64, patch: u64) -> bool {
        self.major < major || (self.major == major && (self.minor < minor || (self.minor == minor
            && (self.patch < patch || (self.patch == patch && self.pre.len() > 0)))))
    }
}

fn is_empty(s: &str) -> (r: bool)
    ensures
        r == (s@.len() == 0),
{
    text::chars_of(s).len() == 0
}

impl VersionParts {
    pub fn show(&self) -> (r: String)
        ensures
            r@ == self@.text(),
    {
        let numbers = show_triple(self.major, self.minor, self.patch);
        let pre = if is_empty(self.pre.as_str()) {
            String::new()
        } else {
            text::cat2("-", self.pre.as_str())
        };
        let build = if is_empty(self.build.as_str()) {
            String::new()
        } else {
            text::cat2("+", self.build.as_str())
        };
        text::cat3(numbers.as_str(), pre.as_str(), build.as_str())
    }

    pub fn is_release(&self, major: u64, minor: u64, patch: u64) -> (r: bool)
        ensures
            r == self@.is_release(major, minor, patch),
    {
        self.major == major && self.minor == minor && self.patch == patch && is_empty(
            self.pre.as_str(),
        ) && is_empty(self.build.as_str())
    }

    pub fn precedes(&self, major: u64, minor: u64, patch: u64) -> (r: bool)
        ensures
            r == self@.precedes(major, minor, patch),
    {
        self.major < major || (self.major == major && (self.minor < minor || (self.minor == minor
            && (self.patch < patch || (self.patch == patch && !is_empty(self.pre.as_str()))))))
    }
}

/// A text without its leading letters v.
pub open spec fn unprefixed(s: Seq<char>) -> Seq<char> {
    segment::trim_start_by(s, |c: char| c == 'v')
}

fn strip_prefix(s: &[char]) -> (r: Vec<char>)
    ensures
        r@ == unprefixed(s@),
{
    let mut i: usize = 0;
    assert(s@.skip(0) =~= s@);
    while i < s.len() && s[i] == 'v'
        invariant
            i <= s.len(),
            unprefixed(s@) == unprefixed(s@.skip(i as int)),
        decreases s.len() - i,
    {
        assert(s@.skip(i as int)[0] == s@[i as int]);
        assert(s@.skip(i as int).skip(1) =~= s@.skip(i + 1));
        i = i + 1;
    }
    let out = segment::slice_to_vec(s, i, s.len());
    assert(out@ =~= s@.skip(i as int));
    proof {
        if i < s.len() {
            assert(s@.skip(i as int)[0] == s@[i as int]);
        }
    }
    out
}

/// A word that may be a version: a digit first, behind letters v where these are
/// allowed.
pub open spec fn version_word(w: Seq<char>, prefixed: bool) -> bool {
    let t = if prefixed {
        unprefixed(w)
    } else {
        w
    };
    t.len() > 0 && text::digit(t[0])
}

/// The first word that may be a version.
pub open spec fn first_version(words: Seq<Seq<char>>, prefixed: bool) -> Option<Seq<char>>
    decreases words.len(),
{
    if words.len() == 0 {
        None
    } else if version_word(words[0], prefixed) {
        Some(words[0])
    } else {
        first_version(words.skip(1), prefixed)
    }
}

fn find_version(words: &Vec<Vec<char>>, prefixed: bool) -> (r: Option<Vec<char>>)
    ensures
        match r {
            Some(w) => first_version(text::pieces(words@), prefixed) == Some(w@),
            None => first_version(text::pieces(words@), prefixed) is None,
        },
{
    let ghost all = text::pieces(words@);
    let mut i: usize = 0;
    assert(all.skip(0) =~= all);
    while i < words.len()
        invariant
            all == text::pieces(words@),
            i <= words.len(),
            first_version(all.skip(i as int), prefixed) == first_version(all, prefixed),
        decreases words.len() - i,
    {
        assert(all.skip(i as int)[0] == words@[i as int]@);
        assert(all.skip(i as int).skip(1) =~= all.skip(i + 1));
        let w = words[i].as_slice();
        let whole = segment::slice_to_vec(w, 0, w.len());
        assert(whole@ =~= w@);
        let t = if prefixed {
            strip_prefix(w)
        } else {
            segment::slice_to_vec(w, 0, w.len())
        };
        assert(!prefixed ==> t@ =~= w@);
        if t.len() > 0 && text::is_digit(t[0]) {
            return Some(whole);
        }
        i = i + 1;
    }
    None
}

pub open spec fn dependency(message: Seq<char>) -> (ErrorCategory, Seq<char>) {
    (ErrorCategory::Dependency, message)
}

/// What keeps a version from being the required one, if anything does.
pub open spec fn release_fault(
    program: Seq<char>,
    version: Option<VersionModel>,
    required: (u64, u64, u64),
) -> Option<(ErrorCategory, Seq<char>)> {
    match version {
        None => Some(dependency(program + " version output is unrecognized"@)),
        Some(v) => if v.is_release(required.0, required.1, required.2) {
            None
        } else {
            Some(
                dependency(
                    "unsupported "@ + program + " version "@ + v.text() + "; required "@
                        + triple_text(required.0, required.1, required.2),
                ),
            )
        },
    }
}

pub open spec fn view_version(v: Option<VersionParts>) -> Option<VersionModel> {
    match v {
        Some(v) => Some(v@),
        None => None,
    }
}

/// Judges a version that must be the required one.
pub fn judge_release(program: &str, version: &Option<VersionParts>, required: (u64, u64, u64)) -> (r:
    Result<(), GitveilError>)
    ensures
        match release_fault(program@, view_version(*version), required) {
            Some(fault) => r matches Err(e) && e@ == fault,
            None => r.is_ok(),
        },
{
    match version {
        None => Err(
            GitveilError::dependency(
                text::cat2(program, " version output is unrecognized").as_str(),
            ),
        ),
        Some(v) => if v.is_release(required.0, required.1, required.2) {
            Ok(())
        } else {
            let head = text::cat4("unsupported ", program, " version ", v.show().as_str());
            Err(
                GitveilError::dependency(
                    text::cat3(
                        head.as_str(),
                        "; required ",
                        show_triple(required.0, required.1, required.2).as_str(),
                    ).as_str(),
                ),
            )
        },
    }
}

/// The version that a program's output names.
pub open spec fn named_version(s: Seq<char>, prefixed: bool) -> Option<VersionModel> {
    match first_version(segment::words(s), prefixed) {
        None => None,
        Some(w) => semver_parts(unprefixed(w)),
    }
}

/// What keeps a program from being the required release, if anything does.
pub open spec fn program_fault(
    program: Seq<char>,
    success: bool,
    stdout: Seq<u8>,
    required: (u64, u64, u64),
    prefixed: bool,
) -> Option<(ErrorCategory, Seq<char>)> {
    if !success {
        Some(dependency(program + " version check failed with a non-zero exit code"@))
    } else if !vstd::utf8::valid_utf8(stdout) {
        Some(dependency(program + " version output is not UTF-8"@))
    } else {
        release_fault(
            program,
            named_version(vstd::utf8::decode_utf8(stdout), prefixed),
            required,
        )
    }
}

/// Checks what a program said of its version. `prefixed` tells whether the version
/// may begin with a letter v.
pub fn check_release(
    program: &str,
    success: bool,
    stdout: &[u8],
    required: (u64, u64, u64),
    prefixed: bool,
) -> (r: Result<(), GitveilError>)
    ensures
        match program_fault(program@, success, stdout@, required, prefixed) {
            Some(fault) => r matches Err(e) && e@ == fault,
            None => r.is_ok(),
        },
{
    if !success {
        return Err(
            GitveilError::dependency(
                text::cat2(program, " version check failed with a non-zero exit code").as_str(),
            ),
        );
    }
    let s = match text::from_utf8(stdout) {
        Some(s) => s,
        None => {
            return Err(
                GitveilError::dependency(text::cat2(program, " version output is not UTF-8").as_str()),
            );
        },
    };
    let words = segment::split_words(text::chars_of(s.as_str()).as_slice());
    let version = match find_version(&words, prefixed) {
        Some(w) => parse_version(
            text::string_of(strip_prefix(w.as_slice()).as_slice()).as_str(),
        ),
        None => None,
    };
    judge_release(program, &version, required)
}

/// The first three parts of a dotted word.
pub open spec fn three_parts(w: Seq<char>) -> Seq<char> {
    let parts = segment::split(w, '.');
    segment::join(
        if parts.len() <= 3 {
            parts
        } else {
            parts.take(3)
        },
        "."@,
    )
}

fn take_three_parts(w: &[char]) -> (r: String)
    ensures
        r@ == three_parts(w@),
{
    let parts = segment::split_at_char(w, '.');
    let ghost all = text::pieces(parts@);
    let n: usize = if parts.len() <= 3 {
        parts.len()
    } else {
        3
    };
    let mut out: Vec<String> = Vec::new();
    let mut i: usize = 0;
    while i < n
        invariant
            i <= n <= parts@.len(),
            all == text::pieces(parts@),
            out@.len() == i,
            forall|j: int| 0 <= j < i ==> (#[trigger] out@[j])@ == all[j],
        decreases n - i,
    {
        out.push(text::string_of(parts[i].as_slice()));
        i = i + 1;
    }
    assert(text::texts(out@) =~= all.take(n as int));
    assert(all.take(all.len() as int) =~= all);
    segment::joined(out.as_slice(), ".")
}

/// The version that Git's output names.
pub open spec fn git_version(s: Seq<char>) -> Option<VersionModel> {
    match first_version(segment::words(s), false) {
        None => None,
        Some(w) => semver_parts(three_parts(w)),
    }
}

/// What keeps a version of Git from being recent enough, if anything does.
pub open spec fn git_fault(version: Option<VersionModel>) -> Option<(ErrorCategory, Seq<char>)> {
    match version {
        None => Some(dependency("Git version output is unrecognized"@)),
        Some(v) => if v.precedes(2, 20, 0) {
            Some(
                dependency(
                    "unsupported Git version "@ + v.text() + "; required >= "@ + triple_text(
                        2,
                        20,
                        0,
                    ),
                ),
            )
        } else {
            None
        },
    }
}

/// Judges a version of Git.
pub fn judge_git(version: &Option<VersionParts>) -> (r: Result<(), GitveilError>)
    ensures
        match git_fault(view_version(*version)) {
            Some(fault) => r matches Err(e) && e@ == fault,
            None => r.is_ok(),
        },
{
    match version {
        None => Err(GitveilError::dependency("Git version output is unrecognized")),
        Some(v) => if v.precedes(2, 20, 0) {
            Err(
                GitveilError::dependency(
                    text::cat4(
                        "unsupported Git version ",
                        v.show().as_str(),
                        "; required >= ",
                        show_triple(2, 20, 0).as_str(),
                    ).as_str(),
                ),
            )
        } else {
            Ok(())
        },
    }
}

/// What keeps Git from being usable, if anything does.
pub open spec fn git_program_fault(success: bool, stdout: Seq<u8>) -> Option<
    (ErrorCategory, Seq<char>),
> {
    if !success {
        Some(dependency("Git version check failed"@))
    } else if !vstd::utf8::valid_utf8(stdout) {
        Some(dependency("Git version output is not UTF-8"@))
    } else {
        git_fault(git_version(vstd::utf8::decode_utf8(stdout)))
    }
}

/// Checks what Git said of its version.
pub fn check_git(success: bool, stdout: &[u8]) -> (r: Result<(), GitveilError>)
    ensures
        match git_program_fault(success, stdout@) {
            Some(fault) => r matches Err(e) && e@ == fault,
            None => r.is_ok(),
        },
{
    if !success {
        return Err(GitveilError::dependency("Git version check failed"));
    }
    let s = match text::from_utf8(stdout) {
        Some(s) => s,
        None => {
            return Err(GitveilError::dependency("Git version output is not UTF-8"));
        },
    };
    let words = segment::split_words(text::chars_of(s.as_str()).as_slice());
    let version = match find_version(&words, false) {
        Some(w) => parse_version(take_three_parts(w.as_slice()).as_str()),
        None => None,
    };
    judge_git(&version)
}

/// Law: a version is the required release exactly where its numbers are the required ones
/// and it is neither a pre-release nor a build of its own; it comes before a release exactly
/// where a number of it does, the earlier ones being equal, or where it is a pre-release of
/// it. What comes before a release comes before every later one.
pub proof fn law_versions_are_ordered(v: VersionModel, a: (u64, u64, u64), b: (u64, u64, u64))
    ensures
        v.is_release(a.0, a.1, a.2) ==> !v.precedes(a.0, a.1, a.2),
        v.is_release(a.0, a.1, a.2) && (a.0 < b.0 || (a.0 == b.0 && (a.1 < b.1 || (a.1 == b.1
            && a.2 < b.2)))) ==> v.precedes(b.0, b.1, b.2) && !v.is_release(b.0, b.1, b.2),
        v.precedes(a.0, a.1, a.2) && (a.0 < b.0 || (a.0 == b.0 && (a.1 < b.1 || (a.1 == b.1 && a.2
            <= b.2)))) ==> v.precedes(b.0, b.1, b.2),
        v.is_release(a.0, a.1, a.2) && v.is_release(b.0, b.1, b.2) ==> a == b,
        v.is_release(a.0, a.1, a.2) ==> v.pre.len() == 0 && v.build.len() == 0,
        v.pre.len() == 0 && !v.precedes(a.0, a.1, a.2) && !v.is_release(a.0, a.1, a.2) ==> v.build.len()
            > 0 || v.major > a.0 || v.minor > a.1 || v.patch > a.2,
{
}

/// Law: a program is accepted exactly where its version is the required release.
pub proof fn law_only_the_required_release_is_accepted(
    program: Seq<char>,
    version: Option<VersionModel>,
    required: (u64, u64, u64),
)
    ensures
        release_fault(program, version, required) is None <==> (version matches Some(v) && v.major
            == required.0 && v.minor == required.1 && v.patch == required.2 && v.pre.len() == 0
            && v.build.len() == 0),
        release_fault(program, version, required) matches Some(fault) ==> fault.0
            == ErrorCategory::Dependency,
{
}

/// Law: the version of an output is its first word that begins with a digit, behind letters v
/// where these are allowed.
pub proof fn law_the_first_version_is_taken(words: Seq<Seq<char>>, prefixed: bool)
    ensures
        match first_version(words, prefixed) {
            Some(w) => exists|i: int|
                0 <= i < words.len() && #[trigger] words[i] == w && version_word(w, prefixed)
                    && forall|j: int| 0 <= j < i ==> !version_word(#[trigger] words[j], prefixed),
            None => forall|i: int|
                0 <= i < words.len() ==> !version_word(#[trigger] words[i], prefixed),
        },
    decreases words.len(),
{
    if words.len() > 0 {
        let rest = words.skip(1);
        law_the_first_version_is_taken(rest, prefixed);
        assert(forall|i: int| 0 <= i < rest.len() ==> rest[i] == words[i + 1]);
        if version_word(words[0], prefixed) {
            assert(words[0] == words[0]);
        } else {
            match first_version(rest, prefixed) {
                Some(w) => {
                    let i = choose|i: int|
                        0 <= i < rest.len() && #[trigger] rest[i] == w && version_word(w, prefixed)
                            && forall|j: int|
                            0 <= j < i ==> !version_word(#[trigger] rest[j], prefixed);
                    assert(words[i + 1] == w);
                    assert forall|j: int| 0 <= j < i + 1 implies !version_word(
                        #[trigger] words[j],
                        prefixed,
                    ) by {
                        if j > 0 {
                            assert(rest[j - 1] == words[j]);
                        }
                    }
                },
                None => {
                    assert forall|i: int| 0 <= i < words.len() implies !version_word(
                        #[trigger] words[i],
                        prefixed,
                    ) by {
                        if i > 0 {
                            assert(rest[i - 1] == words[i]);
                        }
                    }
                },
            }
        }
    }
}

} // verus!
