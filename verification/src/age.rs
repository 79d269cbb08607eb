//! The boundary to age-keygen.

use vstd::prelude::*;

use crate::bytes;
use crate::error::{ErrorCategory, GitveilError};
use crate::recipient;
use crate::recipient::AgeRecipient;
use crate::segment;
use crate::text;

verus! {

/// The version of age-keygen that is asked for.
pub const AGE_KEYGEN_VERSION: (u64, u64, u64) = (1, 3, 1);

#[derive(Clone, Copy, Debug, PartialEq, Eq, Structural)]
pub enum GenerationFailure {
    NoSpace,
    PermissionDenied,
    ReadOnlyFilesystem,
    OutputIo,
    Execution,
}

#[derive(Clone, Copy, Debug, PartialEq, Eq, Structural)]
pub enum RecipientFailure {
    IdentityUnavailable,
    InvalidIdentity,
    Protocol,
    Execution,
}

/// Why an identity could not be generated.
pub open spec fn generation_failure(stderr: Seq<u8>) -> GenerationFailure {
    if bytes::mentions(stderr, "no space left on device"@) {
        GenerationFailure::NoSpace
    } else if bytes::mentions(stderr, "permission denied"@) {
        GenerationFailure::PermissionDenied
    } else if bytes::mentions(stderr, "read-only file system"@) {
        GenerationFailure::ReadOnlyFilesystem
    } else if bytes::mentions(stderr, "failed to open output file"@) || bytes::mentions(
        stderr,
        "failed to close output file"@,
    ) {
        GenerationFailure::OutputIo
    } else {
        GenerationFailure::Execution
    }
}

pub fn classify_generation(stderr: &[u8]) -> (r: GenerationFailure)
    ensures
        r == generation_failure(stderr@),
{
    let message = bytes::lower(stderr);
    let m = message.as_slice();
    if bytes::holds_phrase(m, "no space left on device") {
        GenerationFailure::NoSpace
    } else if bytes::holds_phrase(m, "permission denied") {
        GenerationFailure::PermissionDenied
    } else if bytes::holds_phrase(m, "read-only file system") {
        GenerationFailure::ReadOnlyFilesystem
    } else if bytes::holds_phrase(m, "failed to open output file") || bytes::holds_phrase(
        m,
        "failed to close output file",
    ) {
        GenerationFailure::OutputIo
    } else {
        GenerationFailure::Execution
    }
}

/// Why the recipients of an identity could not be listed.
pub open spec fn recipient_failure(stderr: Seq<u8>) -> RecipientFailure {
    if bytes::mentions(stderr, "failed to open input file"@) {
        RecipientFailure::IdentityUnavailable
    } else if bytes::mentions(stderr, "failed to parse input"@) || bytes::mentions(
        stderr,
        "no identities found in the input"@,
    ) {
        RecipientFailure::InvalidIdentity
    } else if bytes::mentions(stderr, "internal error: unexpected identity type"@) {
        RecipientFailure::Protocol
    } else {
        RecipientFailure::Execution
    }
}

pub fn classify_recipient(stderr: &[u8]) -> (r: RecipientFailure)
    ensures
        r == recipient_failure(stderr@),
{
    let message = bytes::lower(stderr);
    let m = message.as_slice();
    if bytes::holds_phrase(m, "failed to open input file") {
        RecipientFailure::IdentityUnavailable
    } else if bytes::holds_phrase(m, "failed to parse input") || bytes::holds_phrase(
        m,
        "no identities found in the input",
    ) {
        RecipientFailure::InvalidIdentity
    } else if bytes::holds_phrase(m, "internal error: unexpected identity type") {
        RecipientFailure::Protocol
    } else {
        RecipientFailure::Execution
    }
}

/// The lines that are not empty.
pub open spec fn nonempty(lines: Seq<Seq<char>>) -> Seq<Seq<char>>
    decreases lines.len(),
{
    if lines.len() == 0 {
        Seq::empty()
    } else {
        let head = nonempty(lines.drop_last());
        if lines.last().len() == 0 {
            head
        } else {
            head.push(lines.last())
        }
    }
}

proof fn lemma_nonempty(lines: Seq<Seq<char>>, k: int)
    requires
        0 <= k <= lines.len(),
    ensures
        nonempty(lines.take(k)).len() <= nonempty(lines).len(),
        forall|i: int|
            0 <= i < nonempty(lines.take(k)).len() ==> #[trigger] nonempty(lines)[i] == nonempty(
                lines.take(k),
            )[i],
    decreases lines.len(),
{
    if k < lines.len() {
        assert(lines.drop_last().take(k) =~= lines.take(k));
        lemma_nonempty(lines.drop_last(), k);
        assert forall|i: int| 0 <= i < nonempty(lines.take(k)).len() implies #[trigger] nonempty(
            lines,
        )[i] == nonempty(lines.take(k))[i] by {
            assert(nonempty(lines)[i] == nonempty(lines.drop_last())[i]);
        }
    } else {
        assert(lines.take(k) =~= lines);
    }
}

/// The recipients that a listing names, or what is wrong with it.
pub open spec fn listed_recipients(stdout: Seq<u8>) -> Result<
    Seq<Seq<char>>,
    (ErrorCategory, Seq<char>),
> {
    if !vstd::utf8::valid_utf8(stdout) {
        Err((ErrorCategory::Protocol, "age-keygen recipient output is not UTF-8"@))
    } else {
        let lines = nonempty(segment::lines(vstd::utf8::decode_utf8(stdout)));
        if !recipient::all_recipients(lines) {
            Err((ErrorCategory::Protocol, "age-keygen returned an invalid public recipient"@))
        } else if lines.len() == 0 {
            Err((ErrorCategory::Protocol, "age-keygen returned no public recipients"@))
        } else {
            Ok(lines)
        }
    }
}

fn protocol(message: &str) -> (r: GitveilError)
    ensures
        r@ == (ErrorCategory::Protocol, message@),
{
    GitveilError::new(ErrorCategory::Protocol, message.to_owned())
}

/// Reads the recipients that age-keygen lists, one on each line.
pub fn parse_recipients(stdout: &[u8]) -> (r: Result<Vec<AgeRecipient>, GitveilError>)
    ensures
        match listed_recipients(stdout@) {
            Ok(list) => r matches Ok(v) && recipient::names(v@) == list,
            Err(fault) => r matches Err(e) && e@ == fault,
        },
{
    let s = match text::from_utf8(stdout) {
        Some(s) => s,
        None => {
            return Err(protocol("age-keygen recipient output is not UTF-8"));
        },
    };
    let lines = segment::split_lines(text::chars_of(s.as_str()).as_slice());
    let ghost all = text::pieces(lines@);
    let mut out: Vec<AgeRecipient> = Vec::new();
    let mut i: usize = 0;
    assert(recipient::names(out@) =~= nonempty(all.take(0)));
    while i < lines.len()
        invariant
            i <= lines.len(),
            all == text::pieces(lines@),
            all == segment::lines(vstd::utf8::decode_utf8(stdout@)),
            vstd::utf8::valid_utf8(stdout@),
            recipient::names(out@) == nonempty(all.take(i as int)),
            recipient::all_recipients(recipient::names(out@)),
        decreases lines.len() - i,
    {
        assert(all.take(i + 1).drop_last() =~= all.take(i as int));
        assert(all.take(i + 1).last() == lines@[i as int]@);
        if lines[i].len() > 0 {
            match AgeRecipient::new(text::string_of(lines[i].as_slice()).as_str()) {
                Ok(item) => {
                    let ghost before = out@;
                    out.push(item);
                    assert(recipient::names(out@) =~= recipient::names(before).push(item@));
                },
                Err(_) => {
                    proof {
                        lemma_nonempty(all, i + 1);
                        let part = nonempty(all.take(i + 1));
                        assert(nonempty(all)[part.len() - 1] == part[part.len() - 1]);
                    }
                    return Err(protocol("age-keygen returned an invalid public recipient"));
                },
            }
        }
        i = i + 1;
    }
    assert(all.take(i as int) =~= all);
    if out.len() == 0 {
        return Err(protocol("age-keygen returned no public recipients"));
    }
    Ok(out)
}

/// What follows from a call that should have generated an identity.
pub fn generation_result(success: bool) -> (r: Result<(), GitveilError>)
    ensures
        if success {
            r.is_ok()
        } else {
            r matches Err(e) && e@ == (
                ErrorCategory::Process,
                "age-keygen identity generation failed"@,
            )
        },
{
    if success {
        Ok(())
    } else {
        Err(
            GitveilError::new(
                ErrorCategory::Process,
                "age-keygen identity generation failed".to_owned(),
            ),
        )
    }
}

/// The recipients that a call listed.
pub fn recipients_result(success: bool, stdout: &[u8]) -> (r: Result<
    Vec<AgeRecipient>,
    GitveilError,
>)
    ensures
        if !success {
            r matches Err(e) && e@ == (
                ErrorCategory::IdentityUnavailable,
                "age-keygen could not derive recipients from the identity file"@,
            )
        } else {
            match listed_recipients(stdout@) {
                Ok(list) => r matches Ok(v) && recipient::names(v@) == list,
                Err(fault) => r matches Err(e) && e@ == fault,
            }
        },
{
    if !success {
        return Err(
            GitveilError::new(
                ErrorCategory::IdentityUnavailable,
                "age-keygen could not derive recipients from the identity file".to_owned(),
            ),
        );
    }
    parse_recipients(stdout)
}

/// Law: the recipients that a program lists are its lines that are not empty, in their order,
/// at least one, and each a valid recipient; any other output is refused.
pub proof fn law_listed_recipients_are_lines(stdout: Seq<u8>, list: Seq<Seq<char>>)
    ensures
        listed_recipients(stdout) == Ok::<Seq<Seq<char>>, (ErrorCategory, Seq<char>)>(list) <==> {
            &&& vstd::utf8::valid_utf8(stdout)
            &&& list == segment::lines(vstd::utf8::decode_utf8(stdout)).filter(
                |line: Seq<char>| line.len() > 0,
            )
            &&& list.len() > 0
            &&& forall|i: int|
                0 <= i < list.len() ==> recipient::recipient_fault(#[trigger] list[i]) is None
        },
        listed_recipients(stdout) matches Err(e) ==> e.0 == ErrorCategory::Protocol,
{
    lemma_nonempty_filter(segment::lines(vstd::utf8::decode_utf8(stdout)));
}

proof fn lemma_nonempty_filter(lines: Seq<Seq<char>>)
    ensures
        nonempty(lines) == lines.filter(|line: Seq<char>| line.len() > 0),
    decreases lines.len(),
{
    reveal(Seq::filter);
    if lines.len() > 0 {
        lemma_nonempty_filter(lines.drop_last());
    }
}

/// Law: a failure is told by what the program printed, in any case of its letters: each
/// meaning needs its own phrase, and what says nothing known is a failed execution.
pub proof fn law_key_failures_are_told_apart(stderr: Seq<u8>)
    ensures
        ({
            let says = |phrase: Seq<char>| bytes::mentions(stderr, phrase);
            let g = generation_failure(stderr);
            let r = recipient_failure(stderr);
            &&& g == GenerationFailure::NoSpace <==> says("no space left on device"@)
            &&& g == GenerationFailure::PermissionDenied <==> says("permission denied"@) && !says(
                "no space left on device"@,
            )
            &&& g == GenerationFailure::ReadOnlyFilesystem ==> says("read-only file system"@)
            &&& g == GenerationFailure::OutputIo ==> says("failed to open output file"@) || says(
                "failed to close output file"@,
            )
            &&& g == GenerationFailure::Execution <==> !says("no space left on device"@) && !says(
                "permission denied"@,
            ) && !says("read-only file system"@) && !says("failed to open output file"@) && !says(
                "failed to close output file"@,
            )
            &&& r == RecipientFailure::IdentityUnavailable <==> says("failed to open input file"@)
            &&& r == RecipientFailure::InvalidIdentity <==> !says("failed to open input file"@) && (
            says("failed to parse input"@) || says("no identities found in the input"@))
            &&& r == RecipientFailure::Protocol ==> says(
                "internal error: unexpected identity type"@,
            )
        }),
{
}

} // verus!
