//! What a failed SOPS call means.

use vstd::prelude::*;

use crate::bytes;
use crate::error::ErrorCategory;

verus! {

#[derive(Clone, Copy, Debug, PartialEq, Eq, Structural)]
pub enum SopsFailure {
    IdentityUnavailable,
    Integrity,
    Configuration,
    Execution,
}

pub open spec fn claims_integrity(stderr: Seq<u8>) -> bool {
    bytes::mentions(stderr, "mac mismatch"@) || bytes::mentions(stderr, "integrity check failed"@)
        || bytes::mentions(stderr, "could not verify data integrity"@)
}

pub open spec fn claims_identity(stderr: Seq<u8>) -> bool {
    bytes::mentions(stderr, "no identity matched"@) || bytes::mentions(
        stderr,
        "failed to load age identities"@,
    ) || bytes::mentions(stderr, "could not decrypt data key"@) || bytes::mentions(
        stderr,
        "cannot get data key"@,
    ) || bytes::mentions(stderr, "0 successful groups required"@) || bytes::mentions(
        stderr,
        "no master key was able to decrypt"@,
    )
}

pub open spec fn claims_configuration(stderr: Seq<u8>) -> bool {
    bytes::mentions(stderr, "config"@) || bytes::mentions(stderr, "creation rule"@)
        || bytes::mentions(stderr, "no matching creation rules"@)
}

/// The meaning of a message. Integrity is checked first and fails closed: a message
/// that also claims an integrity failure is never an unambiguous signal that no
/// identity is available.
pub open spec fn classified(stderr: Seq<u8>) -> SopsFailure {
    if claims_integrity(stderr) {
        SopsFailure::Integrity
    } else if claims_identity(stderr) {
        SopsFailure::IdentityUnavailable
    } else if claims_configuration(stderr) {
        SopsFailure::Configuration
    } else {
        SopsFailure::Execution
    }
}

pub fn classify(stderr: &[u8]) -> (r: SopsFailure)
    ensures
        r == classified(stderr@),
{
    let message = bytes::lower(stderr);
    let m = message.as_slice();
    if bytes::holds_phrase(m, "mac mismatch") || bytes::holds_phrase(m, "integrity check failed")
        || bytes::holds_phrase(m, "could not verify data integrity") {
        SopsFailure::Integrity
    } else if bytes::holds_phrase(m, "no identity matched") || bytes::holds_phrase(
        m,
        "failed to load age identities",
    ) || bytes::holds_phrase(m, "could not decrypt data key") || bytes::holds_phrase(
        m,
        "cannot get data key",
    ) || bytes::holds_phrase(m, "0 successful groups required") || bytes::holds_phrase(
        m,
        "no master key was able to decrypt",
    ) {
        SopsFailure::IdentityUnavailable
    } else if bytes::holds_phrase(m, "config") || bytes::holds_phrase(m, "creation rule")
        || bytes::holds_phrase(m, "no matching creation rules") {
        SopsFailure::Configuration
    } else {
        SopsFailure::Execution
    }
}

/// Law: a message that claims an integrity failure is never taken for a missing
/// identity or a wrong configuration, whatever else it says.
pub proof fn law_integrity_wins(stderr: Seq<u8>)
    requires
        claims_integrity(stderr),
    ensures
        classified(stderr) == SopsFailure::Integrity,
        failure_category(classified(stderr)) == ErrorCategory::Integrity,
{
}

/// The category under which a failure is reported.
pub open spec fn failure_category(failure: SopsFailure) -> ErrorCategory {
    match failure {
        SopsFailure::IdentityUnavailable => ErrorCategory::IdentityUnavailable,
        SopsFailure::Integrity => ErrorCategory::Integrity,
        SopsFailure::Configuration => ErrorCategory::Configuration,
        SopsFailure::Execution => ErrorCategory::Process,
    }
}

pub fn category_of(failure: SopsFailure) -> (r: ErrorCategory)
    ensures
        r == failure_category(failure),
{
    match failure {
        SopsFailure::IdentityUnavailable => ErrorCategory::IdentityUnavailable,
        SopsFailure::Integrity => ErrorCategory::Integrity,
        SopsFailure::Configuration => ErrorCategory::Configuration,
        SopsFailure::Execution => ErrorCategory::Process,
    }
}

/// Law: only a message that says so is taken for a missing identity or a wrong
/// configuration, and one that says neither that nor that content was tampered with is a
/// failure of the process. Each meaning has a category of its own.
pub proof fn law_failures_are_told_apart(stderr: Seq<u8>)
    ensures
        ({
            let says = |phrase: Seq<char>| bytes::mentions(stderr, phrase);
            let tampered = says("mac mismatch"@) || says("integrity check failed"@) || says(
                "could not verify data integrity"@,
            );
            let locked = says("no identity matched"@) || says("failed to load age identities"@)
                || says("could not decrypt data key"@) || says("cannot get data key"@) || says(
                "0 successful groups required"@,
            ) || says("no master key was able to decrypt"@);
            let misconfigured = says("config"@) || says("creation rule"@);
            let category = failure_category(classified(stderr));
            &&& category == ErrorCategory::Integrity <==> tampered
            &&& category == ErrorCategory::IdentityUnavailable <==> locked && !tampered
            &&& category == ErrorCategory::Configuration <==> misconfigured && !locked && !tampered
            &&& category == ErrorCategory::Process <==> !misconfigured && !locked && !tampered
        }),
{
    if bytes::mentions(stderr, "no matching creation rules"@) {
        reveal_strlit("no matching creation rules");
        reveal_strlit("creation rule");
        let (long, short) = (
            bytes::bytes_of("no matching creation rules"@),
            bytes::bytes_of("creation rule"@),
        );
        lemma_inner_phrase();
        let m = bytes::lowered(stderr);
        let i = choose|i: int| crate::text::occurs_at(m, long, i);
        assert(m.subrange(i + 12, i + 25) =~= m.subrange(i, i + long.len()).subrange(12, 25));
        assert(crate::text::occurs_at(m, short, i + 12));
    }
}

proof fn lemma_inner_phrase()
    ensures
        bytes::bytes_of("no matching creation rules"@).len() == 26,
        bytes::bytes_of("creation rule"@).len() == 13,
        bytes::bytes_of("no matching creation rules"@).subrange(12, 25) == bytes::bytes_of(
            "creation rule"@,
        ),
{
    let long = "no matching creation rules"@;
    let short = "creation rule"@;
    reveal_strlit("no matching creation rules");
    reveal_strlit("creation rule");
    assert(vstd::utf8::is_ascii_chars(long));
    assert(vstd::utf8::is_ascii_chars(short));
    vstd::utf8::is_ascii_chars_encode_utf8(long);
    vstd::utf8::is_ascii_chars_encode_utf8(short);
    assert(bytes::bytes_of(long).subrange(12, 25) =~= bytes::bytes_of(short)) by {
        assert forall|i: int| 0 <= i < 13 implies bytes::bytes_of(long)[12 + i] == bytes::bytes_of(
            short,
        )[i] by {
            assert(long[12 + i] == short[i]);
        }
    }
}

} // verus!
