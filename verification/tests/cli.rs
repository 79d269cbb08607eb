use gitveil::baseline::BaselineDiff;
use gitveil::cli::{
    error_exit_code, init_line, open_report, paint, report_error, resolve_report, run_outcome,
    seal_report, shell_quote, status_report, status_tone, verify_outcome, RunOutcome, Styling,
    Tone,
};
use gitveil::error::{ErrorCategory, GitveilError};
use gitveil::open::{OpenConflict, OpenOutcome};
use gitveil::path::ManagedPath;
use gitveil::resolve::ResolveOutcome;
use gitveil::seal::SealOutcome;
use gitveil::source::NodePath;
use gitveil::status::{PairDataStatus, PairStatus, RecipientStatus};

#[test]
fn paint_wraps_text_only_when_styling_is_enabled() {
    assert_eq!(paint("clean", Tone::Good, false), "clean");
    assert_eq!(paint("clean", Tone::Good, true), "\x1b[32mclean\x1b[0m");
    assert_eq!(
        paint("up to date", Tone::Quiet, true),
        "\x1b[2mup to date\x1b[0m"
    );
    assert_eq!(
        paint("local edits", Tone::Attention, true),
        "\x1b[33mlocal edits\x1b[0m"
    );
    assert_eq!(
        paint("conflict", Tone::Bad, true),
        "\x1b[31mconflict\x1b[0m"
    );
}

#[test]
fn status_states_map_to_their_severity_tone() {
    assert_eq!(
        status_tone(&PairStatus::new(
            PairDataStatus::Clean,
            RecipientStatus::Aligned
        )),
        Tone::Good
    );
    for attention in [
        PairDataStatus::LocalEdits(BaselineDiff::default()),
        PairDataStatus::Behind(BaselineDiff::default()),
        PairDataStatus::Diverged {
            local: BaselineDiff::default(),
            remote: BaselineDiff::default(),
        },
        PairDataStatus::Differs { keys: Vec::new() },
        PairDataStatus::Unknown,
        PairDataStatus::PlaintextMissing,
        PairDataStatus::CiphertextMissing,
        PairDataStatus::Missing,
    ] {
        assert_eq!(
            status_tone(&PairStatus::new(attention, RecipientStatus::Aligned)),
            Tone::Attention
        );
    }
    assert_eq!(
        status_tone(&PairStatus::new(
            PairDataStatus::Conflicted,
            RecipientStatus::NotApplicable
        )),
        Tone::Bad
    );
    assert_eq!(
        status_tone(&PairStatus::new(
            PairDataStatus::Corrupt(String::new()),
            RecipientStatus::NotApplicable
        )),
        Tone::Bad
    );
}

#[test]
fn next_action_paths_are_shell_quoted_without_interpolation() {
    assert_eq!(shell_quote("packages/api/.env"), "packages/api/.env");
    assert_eq!(shell_quote("secret $HOME.env"), "'secret $HOME.env'");
    assert_eq!(shell_quote("secret'file.env"), "'secret'\"'\"'file.env'");
}

#[test]
fn content_verification_failures_use_exit_three() {
    assert_eq!(error_exit_code(ErrorCategory::Integrity), 3);
    assert_eq!(error_exit_code(ErrorCategory::Ciphertext), 3);
}

#[test]
fn other_runtime_failures_use_exit_one() {
    for category in [
        ErrorCategory::Configuration,
        ErrorCategory::Dependency,
        ErrorCategory::IdentityUnavailable,
        ErrorCategory::Source,
        ErrorCategory::Path,
        ErrorCategory::Concurrency,
        ErrorCategory::Process,
        ErrorCategory::Protocol,
        ErrorCategory::Conflict,
        ErrorCategory::Io,
    ] {
        assert_eq!(error_exit_code(category), 1);
    }
}

const PLAIN: Styling = Styling {
    output: false,
    errors: false,
};

fn env() -> ManagedPath {
    ManagedPath::new(".env").expect("path")
}

#[test]
fn outcomes_have_exit_codes() {
    assert_eq!(RunOutcome::Success.exit_code(), 0);
    assert_eq!(RunOutcome::Attention.exit_code(), 1);
}

#[test]
fn reports_name_the_file_and_what_became_of_it() {
    let opened = open_report(&env(), &Ok(OpenOutcome::Opened), PLAIN);
    assert_eq!(opened.lines, [".env: opened"]);
    assert!(!opened.attention);
    let conflicts = open_report(
        &env(),
        &Ok(OpenOutcome::Conflicts(vec![OpenConflict::Key(
            "A".to_owned(),
        )])),
        PLAIN,
    );
    assert_eq!(
        conflicts.lines,
        [
            ".env: conflicts; edit and run gitveil seal",
            "  key A: changed locally and remotely; local value kept",
        ]
    );
    assert!(conflicts.attention);
    let sealed = seal_report(&env(), &Ok(SealOutcome::Sealed), PLAIN);
    assert_eq!(sealed.lines, [".env: sealed"]);
    let clean = status_report(
        &env(),
        &Ok(PairStatus::new(
            PairDataStatus::Clean,
            RecipientStatus::Aligned,
        )),
        PLAIN,
    );
    assert_eq!(clean.lines, [".env: clean"]);
    let resolved = resolve_report(
        &env(),
        &Ok(ResolveOutcome::ConflictWritten(
            NodePath::root().child_key("A"),
        )),
        PLAIN,
    );
    assert_eq!(
        resolved.lines,
        [".env: conflict at A; edit the plaintext and run gitveil seal"]
    );
    assert_eq!(run_outcome(&[opened, sealed, clean]), RunOutcome::Success);
    assert_eq!(run_outcome(&[resolved]), RunOutcome::Attention);
}

#[test]
fn failures_go_to_the_standard_error() {
    let report = report_error(
        &env(),
        &GitveilError::configuration("broken"),
        Styling {
            output: false,
            errors: true,
        },
    );
    assert!(report.lines.is_empty());
    assert_eq!(
        report.error.as_deref(),
        Some("\x1b[31mgitveil: .env: broken\x1b[0m")
    );
    assert!(report.attention);
}

#[test]
fn violations_fail_the_verification() {
    assert_eq!(verify_outcome(0).ok(), Some(RunOutcome::Success));
    let error = verify_outcome(12).expect_err("violations");
    assert_eq!(error.category(), ErrorCategory::Integrity);
    assert_eq!(error.message(), "12 history violation(s) found");
}

#[test]
fn initialization_counts_recipients() {
    assert_eq!(
        init_line("default", 1),
        "initialized .gitveilrc.json with recipient policy default (1 recipient)"
    );
    assert_eq!(
        init_line("team", 3),
        "initialized .gitveilrc.json with recipient policy team (3 recipients)"
    );
}
