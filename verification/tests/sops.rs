use gitveil::error::{ErrorCategory, SecretBytes};
use gitveil::path::ManagedPath;
use gitveil::recipient::{AgeRecipient, AgeRecipientPolicy, PolicyName};
use gitveil::sops::arguments::{decrypt_arguments, encrypt_arguments, rewrap_arguments};
use gitveil::sops::classify::{classify, SopsFailure};
use gitveil::sops::command::{
    format_from_decrypted, render_editor_script, render_updatekeys_config, require_success,
    shell_quote,
};
use gitveil::sops::edit::{finish_edit, run_edit, EditAction, EditEvent};

#[test]
fn classifies_every_identity_pattern() {
    for stderr in [
        "no identity matched any recipient",
        "failed to load age identities from keyfile",
        "could not decrypt data key with any key group",
        "cannot get data key",
        "0 successful groups required, got 0",
        "no master key was able to decrypt the data key",
    ] {
        assert_eq!(
            classify(stderr.as_bytes()),
            SopsFailure::IdentityUnavailable,
            "stderr: {stderr}"
        );
    }
}

#[test]
fn classifies_every_integrity_pattern() {
    for stderr in [
        "MAC mismatch",
        "integrity check failed",
        "could not verify data integrity",
    ] {
        assert_eq!(
            classify(stderr.as_bytes()),
            SopsFailure::Integrity,
            "stderr: {stderr}"
        );
    }
}

#[test]
fn classifies_every_configuration_pattern() {
    for stderr in [
        "error loading config: no creation rule",
        "no matching creation rules found",
        "config file not found",
    ] {
        assert_eq!(
            classify(stderr.as_bytes()),
            SopsFailure::Configuration,
            "stderr: {stderr}"
        );
    }
}

#[test]
fn classification_is_case_insensitive() {
    assert_eq!(
        classify(b"COULD NOT DECRYPT DATA KEY"),
        SopsFailure::IdentityUnavailable
    );
    assert_eq!(classify(b"Mac Mismatch"), SopsFailure::Integrity);
}

#[test]
fn unknown_and_non_utf8_stderr_fall_back_to_execution() {
    assert_eq!(
        classify(b"unexpected subprocess failure"),
        SopsFailure::Execution
    );
    assert_eq!(classify(b""), SopsFailure::Execution);
    assert_eq!(classify(&[0xff, 0xfe]), SopsFailure::Execution);
}

#[test]
fn integrity_needles_win_over_identity_and_configuration_needles() {
    assert_eq!(
        classify(b"integrity check failed: could not decrypt data key"),
        SopsFailure::Integrity
    );
    assert_eq!(
        classify(b"mac mismatch in config file"),
        SopsFailure::Integrity
    );
}

#[test]
fn identity_needles_win_over_the_broad_configuration_needle() {
    assert_eq!(
        classify(b"failed to load age identities from /home/dev/.config/sops/age/keys.txt"),
        SopsFailure::IdentityUnavailable
    );
}

#[test]
fn editor_script_references_a_token_file_and_never_a_token_value() {
    let script = render_editor_script(
        "/usr/local/bin/gitveil",
        "ns:gitveil-abc",
        "/repo/.git/gitveil/editor-token-xyz",
        "/repo/.git/gitveil",
    );
    assert!(script.starts_with("#!/bin/sh\n"));
    assert!(script.contains("--token-file '/repo/.git/gitveil/editor-token-xyz'"));
    assert!(
        !script.contains("--token '"),
        "the editor wrapper must not pass a token value on argv"
    );
}

#[test]
fn editor_script_quotes_shell_metacharacters_in_paths() {
    let script = render_editor_script(
        "/tmp/it's a binary",
        "fs:/tmp/sock",
        "/tmp/token",
        "/tmp/run",
    );
    assert!(script.contains("'/tmp/it'\\''s a binary'"));
}

#[test]
fn editor_arguments_are_always_quoted() {
    assert_eq!(shell_quote("plain"), "'plain'");
    assert_eq!(shell_quote("a'b"), "'a'\\''b'");
}

const RECIPIENT: &str = "age1qyqszqgpqyqszqgpqyqszqgpqyqszqgpqyqszqgpqyqszqgpqyqs3290gq";

fn policy() -> AgeRecipientPolicy {
    AgeRecipientPolicy::new(
        PolicyName::new("team").expect("name"),
        vec![AgeRecipient::new(RECIPIENT).expect("recipient")],
    )
    .expect("policy")
}

#[test]
fn every_call_names_the_managed_path() {
    let path = ManagedPath::new("a/.env").expect("path");
    assert_eq!(
        decrypt_arguments(&path),
        [
            "--decrypt",
            "--input-type",
            "yaml",
            "--output-type",
            "yaml",
            "--filename-override",
            "a/.env",
        ]
    );
    assert_eq!(
        encrypt_arguments(&path, &policy())[5..],
        [
            "--encrypted-regex",
            ".*",
            "--age",
            RECIPIENT,
            "--filename-override",
            "a/.env",
        ]
    );
    assert_eq!(
        rewrap_arguments(),
        ["updatekeys", "--yes", "--input-type", "yaml"]
    );
    assert_eq!(
        render_updatekeys_config(&policy()),
        format!("creation_rules:\n  - path_regex: .*\n    age: {RECIPIENT}\n")
    );
}

#[test]
fn failures_are_redacted_to_an_exit_code() {
    let output = SecretBytes::new(b"out".to_vec());
    assert_eq!(
        require_success(true, Some(0), &output, b"", "encrypt").ok(),
        Some(b"out".to_vec())
    );
    let error = require_success(false, Some(128), &output, b"MAC mismatch: s3cret", "encrypt")
        .expect_err("failure");
    assert_eq!(error.category(), ErrorCategory::Integrity);
    assert_eq!(error.message(), "SOPS encrypt failed with exit code 128");
    let error = require_success(false, None, &output, b"", "update keys").expect_err("failure");
    assert_eq!(error.category(), ErrorCategory::Process);
    assert_eq!(error.message(), "SOPS update keys failed with exit code -1");
}

#[test]
fn discriminators_tell_the_format() {
    assert!(format_from_decrypted(b"gitveil_v1_json:\n  data: {}\n").is_ok());
    assert!(format_from_decrypted(b"other:\n").is_err());
    assert!(format_from_decrypted(&[0xff]).is_err());
}

#[test]
fn an_edit_delivers_its_payload_once() {
    let (delivered, action) = run_edit(false, EditEvent::Editor(Ok(false)));
    assert!(!delivered);
    assert!(matches!(action, EditAction::PollProcess));
    let (delivered, action) = run_edit(false, EditEvent::Editor(Ok(true)));
    assert!(delivered);
    assert!(matches!(action, EditAction::PollProcess));
    let (_, action) = run_edit(true, EditEvent::Paused);
    assert!(matches!(action, EditAction::RejectReuse));
    let (_, action) = run_edit(true, EditEvent::Editor(Ok(true)));
    assert!(matches!(action, EditAction::Kill(_)));
    assert!(finish_edit(true, true, Some(0), b"").is_ok());
    assert!(finish_edit(false, true, Some(0), b"").is_err());
}
