use gitveil::age::{
    classify_generation, classify_recipient, generation_result, parse_recipients,
    recipients_result, GenerationFailure, RecipientFailure,
};
use gitveil::error::ErrorCategory;

#[test]
fn classifies_generation_output_failures_without_exposing_stderr() {
    for (stderr, expected) in [
        (
            "failed to open output file: no space left on device",
            GenerationFailure::NoSpace,
        ),
        (
            "failed to open output file: permission denied",
            GenerationFailure::PermissionDenied,
        ),
        (
            "failed to open output file: read-only file system",
            GenerationFailure::ReadOnlyFilesystem,
        ),
        (
            "failed to close output file: input/output error",
            GenerationFailure::OutputIo,
        ),
        ("unexpected failure", GenerationFailure::Execution),
    ] {
        assert_eq!(classify_generation(stderr.as_bytes()), expected);
    }
    assert_eq!(
        classify_generation(&[0xff, 0xfe]),
        GenerationFailure::Execution
    );
}

#[test]
fn classifies_recipient_failures_without_exposing_stderr() {
    for (stderr, expected) in [
        (
            "failed to open input file: no such file or directory",
            RecipientFailure::IdentityUnavailable,
        ),
        (
            "failed to parse input: malformed identity",
            RecipientFailure::InvalidIdentity,
        ),
        (
            "no identities found in the input",
            RecipientFailure::InvalidIdentity,
        ),
        (
            "internal error: unexpected identity type",
            RecipientFailure::Protocol,
        ),
        ("unexpected failure", RecipientFailure::Execution),
    ] {
        assert_eq!(classify_recipient(stderr.as_bytes()), expected);
    }
    assert_eq!(
        classify_recipient(&[0xff, 0xfe]),
        RecipientFailure::Execution
    );
}

#[test]
fn parses_only_nonempty_native_age_recipients() {
    let recipient = "age1qyqszqgpqyqszqgpqyqszqgpqyqszqgpqyqszqgpqyqszqgpqyqs3290gq";
    let parsed =
        parse_recipients(format!("{recipient}\n\n").as_bytes()).expect("valid recipient output");
    assert_eq!(parsed.len(), 1);
    assert_eq!(parsed[0].as_str(), recipient);
}

#[test]
fn rejects_non_utf8_empty_and_invalid_recipient_output() {
    for output in [&[0xff][..], b"", b"not-an-age-recipient\n"] {
        let error = parse_recipients(output).expect_err("invalid recipient output");
        assert_eq!(error.category(), ErrorCategory::Protocol);
    }
}

#[test]
fn failed_key_generation_is_an_error() {
    assert!(generation_result(true).is_ok());
    assert!(generation_result(false).is_err());
    assert!(recipients_result(false, b"").is_err());
}
