use gitveil::error::{ErrorCategory, GitveilError};
use gitveil::identity::{
    check_generated, only_recipient, refuse_existing_identity, resolve_identity_path,
    IdentityVariables, Platform,
};
use gitveil::manifest_document::FileKind;
use gitveil::recipient::AgeRecipient;
use gitveil::runtime::ipc::{
    announce, announced, authenticate, check_target, check_token_file, parse_endpoint, read_token,
    EndpointName,
};
use gitveil::runtime::lock::{after_attempt, LockAction};
use gitveil::runtime::packaged_sidecar_path;
use gitveil::runtime::process::{capture_result, process_error, ProcessFault, Stream};
use gitveil::runtime::sidecar::{choose_program, place_sidecar};
use gitveil::runtime::temp::{
    check_runtime_name, is_persistent, remove_residue, wipe_chunk, Removal,
};

#[test]
fn sidecars_are_resolved_from_the_install_prefix() {
    let binary = "/opt/gitveil/bin/gitveil";
    assert_eq!(
        packaged_sidecar_path(binary, "sops").expect("SOPS path"),
        "/opt/gitveil/libexec/gitveil/sops"
    );
    assert_eq!(
        packaged_sidecar_path(binary, "age-keygen").expect("age-keygen path"),
        "/opt/gitveil/libexec/gitveil/age-keygen"
    );
}

#[test]
fn sidecars_need_an_installation() {
    assert_eq!(
        packaged_sidecar_path("/", "sops").expect_err("root").message(),
        "Gitveil executable has no installation directory"
    );
    assert_eq!(
        packaged_sidecar_path("gitveil", "sops")
            .expect_err("bare name")
            .message(),
        "Gitveil executable has no installation prefix"
    );
    assert_eq!(
        place_sidecar(Some("/bin".to_owned()), Some("/".to_owned()), "sops").ok(),
        Some("/libexec/gitveil/sops".to_owned())
    );
}

#[test]
fn programs_are_chosen_explicitly_first() {
    let packaged = || "/p/sops".to_owned();
    let chosen = |explicit: Option<&str>, variable: Option<&str>, there| {
        choose_program(
            explicit.map(str::to_owned),
            variable.map(str::to_owned),
            packaged(),
            there,
            "SOPS",
        )
    };
    assert_eq!(chosen(Some("/e"), Some("/v"), true).ok().as_deref(), Some("/e"));
    assert_eq!(chosen(None, Some("/v"), true).ok().as_deref(), Some("/v"));
    assert_eq!(chosen(None, None, true).ok().as_deref(), Some("/p/sops"));
    let error = chosen(None, None, false).expect_err("missing");
    assert_eq!(error.category(), ErrorCategory::Dependency);
    assert_eq!(
        error.message(),
        "packaged SOPS sidecar was not found at /p/sops; reinstall Gitveil"
    );
}

fn variables(
    file: Option<&str>,
    config: Option<&str>,
    home: Option<&str>,
) -> IdentityVariables {
    let bytes = |value: Option<&str>| value.map(|text| text.as_bytes().to_vec());
    IdentityVariables {
        sops_age_key_file: bytes(file),
        xdg_config_home: bytes(config),
        home: bytes(home),
    }
}

fn identity(requested: Option<&str>, variables: &IdentityVariables) -> Result<String, String> {
    resolve_identity_path(
        b"/work",
        requested.map(str::as_bytes),
        variables,
        Platform::Linux,
    )
    .map(|path| String::from_utf8(path).expect("utf-8"))
    .map_err(|error| error.message().to_owned())
}

#[test]
fn explicit_relative_identity_paths_are_resolved_from_the_current_directory() {
    assert_eq!(
        identity(
            Some("credentials/identity.txt"),
            &variables(None, None, None)
        )
        .expect("identity path"),
        "/work/credentials/identity.txt"
    );
}

#[test]
fn identities_are_looked_up_in_the_environment() {
    assert_eq!(
        identity(None, &variables(Some("keys"), Some("/c"), Some("/h"))).as_deref(),
        Ok("/work/keys")
    );
    assert_eq!(
        identity(None, &variables(None, Some("/c/"), Some("/h"))).as_deref(),
        Ok("/c/sops/age/keys.txt")
    );
    assert_eq!(
        identity(None, &variables(None, None, Some("/h"))).as_deref(),
        Ok("/h/.config/sops/age/keys.txt")
    );
    assert_eq!(
        identity(None, &variables(Some(""), None, None)),
        Err("SOPS_AGE_KEY_FILE cannot be empty".to_owned())
    );
    assert_eq!(
        identity(None, &variables(None, None, None)),
        Err("HOME is unavailable; pass an explicit identity path".to_owned())
    );
    assert_eq!(
        identity(Some(""), &variables(None, None, None)),
        Err("identity path cannot be empty".to_owned())
    );
}

#[test]
fn generated_identities_are_checked() {
    assert!(check_generated(true, 1).is_ok());
    assert!(check_generated(true, 2).is_err());
    assert!(check_generated(false, 1).is_err());
    assert!(refuse_existing_identity(false, "/x").is_ok());
    assert!(refuse_existing_identity(true, "/x").is_err());
    let recipient = || {
        AgeRecipient::new("age1qyqszqgpqyqszqgpqyqszqgpqyqszqgpqyqszqgpqyqszqgpqyqs3290gq")
            .expect("recipient")
    };
    assert!(only_recipient(vec![recipient()]).is_ok());
    assert!(only_recipient(vec![]).is_err());
    assert!(only_recipient(vec![recipient(), recipient()]).is_err());
}

#[test]
fn payload_lengths_are_framed_in_network_order() {
    let frame = announce(513).expect("length");
    assert_eq!(frame, [0, 0, 0, 0, 0, 0, 2, 1]);
    let bytes: [u8; 8] = frame.try_into().expect("eight bytes");
    assert_eq!(announced(&bytes).ok(), Some(513));
    assert!(announce(64 * 1024 * 1024).is_ok());
    assert!(announce(64 * 1024 * 1024 + 1).is_err());
    assert!(announced(&[0xff; 8]).is_err());
}

#[test]
fn the_first_wrong_token_fails() {
    assert!(authenticate("token\n", "token").is_ok());
    assert!(authenticate("tokem\n", "token").is_err());
    assert_eq!(read_token(b"abc\r\n").ok().as_deref(), Some("abc"));
    assert!(read_token(&[0xff]).is_err());
    assert!(check_token_file(FileKind::Regular, 4096).is_ok());
    assert!(check_token_file(FileKind::Regular, 4097).is_err());
    assert!(check_token_file(FileKind::Symlink, 1).is_err());
    assert!(check_target(true, FileKind::Regular).is_ok());
    assert!(check_target(false, FileKind::Regular).is_err());
    assert!(check_target(true, FileKind::Directory).is_err());
}

#[test]
fn endpoints_are_written_and_read_back() {
    for endpoint in [
        EndpointName::Namespaced("gitveil-1".to_owned()),
        EndpointName::FilePath("/run/x.sock".to_owned()),
    ] {
        assert_eq!(parse_endpoint(&endpoint.printable()).ok(), Some(endpoint));
    }
    assert!(parse_endpoint("tcp:1").is_err());
}

#[test]
fn the_lock_is_awaited_until_the_time_is_up() {
    assert!(matches!(after_attempt(true, true), LockAction::Proceed));
    assert!(matches!(after_attempt(false, false), LockAction::Wait));
    assert!(matches!(after_attempt(false, true), LockAction::Fail(_)));
}

#[test]
fn residue_is_removed_but_not_the_state() {
    assert!(is_persistent(Some("operation.lock")));
    assert!(is_persistent(Some("state")));
    assert!(!is_persistent(Some("editor-1")));
    assert!(!is_persistent(None));
    assert_eq!(remove_residue(FileKind::Regular, "x").ok(), Some(Removal::File));
    assert_eq!(remove_residue(FileKind::Directory, "x").ok(), Some(Removal::Tree));
    assert_eq!(
        remove_residue(FileKind::Symlink, "x").expect_err("link").message(),
        "unsafe runtime residue at x"
    );
    assert!(check_runtime_name("operation.lock").is_ok());
    for name in ["a/b", "a\\b", ".", ".."] {
        assert!(check_runtime_name(name).is_err());
    }
}

#[test]
fn secrets_are_overwritten_in_pieces() {
    assert_eq!(wipe_chunk(10_000, 0), Some(8192));
    assert_eq!(wipe_chunk(10_000, 8192), Some(1808));
    assert_eq!(wipe_chunk(10_000, 10_000), None);
}

#[test]
fn process_faults_name_the_program() {
    assert_eq!(
        process_error("Git", &ProcessFault::Start("not found".to_owned())).message(),
        "could not start Git process: not found"
    );
    assert_eq!(
        process_error("Git", &ProcessFault::Read(Stream::Stderr, "broken".to_owned())).message(),
        "could not read Git stderr: broken"
    );
    let broken = || Err(GitveilError::configuration("broken pipe"));
    assert!(capture_result("Git", false, true, Ok(())).is_ok());
    assert!(capture_result("Git", false, true, broken()).is_err());
    assert!(capture_result("Git", false, false, broken()).is_ok());
    assert!(capture_result("Git", true, true, Ok(())).is_err());
}
