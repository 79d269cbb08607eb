use gitveil::config::SourceFormat;
use gitveil::configure::ignore::{render_managed_ignore, ManagedIgnoreError};
use gitveil::configure::plan::{
    merge_protection_paths, plan_registration, visibility_violations, IgnoreRuleSnapshot,
    IgnoreState, IgnoreStates, RegistrationKind, RegistrationRequest,
};
use gitveil::configure::publish::{Publication, PublishEffect, PublishEvent};
use gitveil::configure::step::{initialize, prepare_ignore, refuse_existing, registration_plan};
use gitveil::error::{ErrorCategory, GitveilError};
use gitveil::git::ignore::parse_ignore_matches;
use gitveil::manifest::Manifest;
use gitveil::manifest_document::ManifestPreparation;
use gitveil::path::ManagedPath;
use gitveil::profile::ProfileName;
use gitveil::recipient::PolicyName;

const RECIPIENT: &str = "age1qyqszqgpqyqszqgpqyqszqgpqyqszqgpqyqszqgpqyqszqgpqyqs3290gq";

fn paths(path: &str) -> Vec<ManagedPath> {
    vec![ManagedPath::new(path).expect("managed path")]
}

fn manifest(files: &str) -> Manifest {
    Manifest::parse(
        format!(
            r#"{{
              "version": 1,
              "recipientPolicies": {{ "default": {{ "age": ["{RECIPIENT}"] }} }},
              "files": [{files}]
            }}"#
        )
        .as_bytes(),
    )
    .expect("manifest")
}

fn request(path: &str) -> RegistrationRequest {
    RegistrationRequest {
        path: ManagedPath::new(path).expect("managed path"),
        format: SourceFormat::Dotenv,
        recipient_policy: PolicyName::new("default").expect("policy"),
        profile: ProfileName::default(),
    }
}

#[test]
fn registration_plan_preserves_order_and_reports_added_and_existing_entries() {
    let existing = r#"{
        "path": "existing.env",
        "format": "dotenv",
        "recipientPolicy": "default"
    }"#;
    let plan = plan_registration(
        manifest(existing),
        vec![request("existing.env"), request("new.env")],
    )
    .expect("registration plan");
    assert_eq!(
        plan.outcomes(),
        [
            (
                ManagedPath::new("existing.env").expect("path"),
                RegistrationKind::AlreadyManaged
            ),
            (
                ManagedPath::new("new.env").expect("path"),
                RegistrationKind::Added
            )
        ]
    );
}

#[test]
fn registration_plan_rejects_case_colliding_requests_as_one_batch() {
    assert!(
        plan_registration(
            manifest(""),
            vec![request("secret.env"), request("SECRET.env")],
        )
        .is_err()
    );
}

#[test]
fn visibility_plan_reports_every_path_with_rule_evidence() {
    let manifest = manifest(
        r#"{
            "path": "a/.env",
            "format": "dotenv",
            "recipientPolicy": "default"
        }, {
            "path": "b/.env",
            "format": "dotenv",
            "recipientPolicy": "default"
        }"#,
    );
    let mut states = IgnoreStates::new();
    for entry in manifest.entries() {
        states.insert(
            entry.path().clone(),
            IgnoreState::Matched(IgnoreRuleSnapshot::new(
                ".gitignore".to_owned(),
                1,
                "*/.env".to_owned(),
                true,
            )),
        );
        states.insert(
            entry.ciphertext_path(),
            IgnoreState::Matched(IgnoreRuleSnapshot::new(
                ".gitignore".to_owned(),
                2,
                "*.gitveil".to_owned(),
                true,
            )),
        );
    }
    let violations = visibility_violations(&manifest, &states).expect("visibility plan");
    assert_eq!(violations.len(), 2);
    assert!(violations[0].describe().contains("a/.env.gitveil"));
    assert!(violations[1].describe().contains("b/.env.gitveil"));
    assert!(
        violations
            .iter()
            .all(|item| item.describe().contains(".gitignore:2:*.gitveil"))
    );
}

#[test]
fn ignore_rule_evidence_escapes_terminal_control_characters() {
    let evidence = IgnoreRuleSnapshot::new(
        "\u{1b}[31m.gitignore".to_owned(),
        4,
        "secret\npattern".to_owned(),
        true,
    )
    .description();
    assert!(!evidence.contains('\u{1b}'));
    assert!(!evidence.contains('\n'));
    assert!(evidence.contains("\\u{1b}"));
    assert!(evidence.contains("secret\\npattern"));
}

#[test]
fn fail_safe_protection_union_keeps_authoritative_order_then_candidate_extras() {
    let authoritative = [
        ManagedPath::new("concurrent.env").expect("path"),
        ManagedPath::new("shared.env").expect("path"),
    ];
    let candidate = [
        ManagedPath::new("SHARED.env").expect("path"),
        ManagedPath::new("requested.env").expect("path"),
    ];
    assert_eq!(
        merge_protection_paths(&authoritative, &candidate),
        [
            ManagedPath::new("concurrent.env").expect("path"),
            ManagedPath::new("shared.env").expect("path"),
            ManagedPath::new("requested.env").expect("path"),
        ]
    );
}

#[test]
fn managed_block_is_moved_to_eof_without_rewriting_user_bytes() {
    let existing =
        b"before\n# BEGIN gitveil managed files\n/old\n# END gitveil managed files\nafter\n";
    let rendered = render_managed_ignore(existing, &paths(".env")).expect("render");
    assert_eq!(
        rendered,
        b"before\nafter\n# BEGIN gitveil managed files\n/.env\n!/.env.gitveil\n# END gitveil managed files\n"
    );
}

#[test]
fn malformed_or_ambiguous_markers_are_rejected() {
    for input in [
        b"# BEGIN gitveil managed files\n".as_slice(),
        b"# END gitveil managed files\n".as_slice(),
        b"# BEGIN gitveil managed files extra\n".as_slice(),
    ] {
        assert_eq!(
            render_managed_ignore(input, &paths(".env")),
            Err(ManagedIgnoreError::MalformedBlock)
        );
    }
}

#[test]
fn trailing_spaces_are_escaped_and_crlf_is_preserved_for_generated_lines() {
    let rendered = render_managed_ignore(b"user-rule\r\n", &paths("secret.env ")).expect("render");
    assert!(
        rendered
            .windows(b"/secret.env\\ \r\n".len())
            .any(|window| { window == b"/secret.env\\ \r\n" })
    );
    assert!(
        !rendered
            .windows(b"# BEGIN gitveil managed files\n".len())
            .any(|window| window == b"# BEGIN gitveil managed files\n")
    );
}

#[test]
fn rendering_again_changes_nothing() {
    let once = render_managed_ignore(b"target/\n*.log\n", &paths("a/.env")).expect("render");
    let twice = render_managed_ignore(&once, &paths("a/.env")).expect("render");
    assert_eq!(once, twice);
    assert!(once.starts_with(b"target/\n*.log\n"));
}

#[test]
fn initialization_writes_one_policy() {
    let outcome = initialize("team", &[RECIPIENT.to_owned()]).expect("init");
    assert_eq!(outcome.policy().as_str(), "team");
    assert_eq!(outcome.recipient_count(), 1);
    let manifest = Manifest::parse(outcome.manifest()).expect("written manifest");
    assert_eq!(manifest.policy_names(), ["team"]);
    assert!(initialize("Team", &[RECIPIENT.to_owned()]).is_err());
    assert!(initialize("team", &["nope".to_owned()]).is_err());
    assert!(refuse_existing(true).is_err());
}

#[test]
fn registrations_are_checked_before_anything_is_written() {
    let plan = |paths: &[&str], format, profile| {
        let paths = paths.iter().map(|p| (*p).to_owned()).collect::<Vec<_>>();
        registration_plan(manifest(""), &paths, format, profile, None)
    };
    assert!(plan(&["a.env"], "dotenv", None).is_ok());
    assert!(plan(&["a.env"], "ini", None).is_err());
    assert!(plan(&["a.env"], "dotenv", Some("Dev")).is_err());
    assert!(plan(&["../a.env"], "dotenv", None).is_err());
}

fn publication(
    ignored: bool,
    meanwhile: Option<&str>,
) -> (Vec<String>, Result<(), GitveilError>) {
    let document = manifest(
        r#"{"path": ".env", "format": "dotenv", "recipientPolicy": "default"}"#,
    );
    let original = document.to_json_bytes().expect("manifest");
    let preparation = ManifestPreparation::new(
        ManagedPath::new(".gitveilrc.json").expect("path"),
        original.clone(),
        0o644,
    );
    let candidate = prepare_ignore(&document, None).expect("rules");
    let mut ignore: Option<Vec<u8>> = None;
    let mut manifest = original;
    let mut steps = Vec::new();
    let existing = vec![ManagedPath::new(".env").expect("path")];
    let (mut run, mut effect) =
        Publication::start(document, preparation, None, candidate, existing);
    loop {
        let event = match effect {
            PublishEffect::AskExisting => {
                assert_eq!(run.existing().len(), 1);
                PublishEvent::Answers(
                    parse_ignore_matches(b".gitignore\x001\x00.env\x00.env\x00", run.existing())
                        .expect("answers"),
                )
            }
            PublishEffect::AskManaged => {
                let answers: &[u8] = if ignored {
                    b".gitignore\x002\x00/.env\x00.env\x00.gitignore\x003\x00!/.env.gitveil\x00.env.gitveil\x00"
                } else {
                    b"\x00\x00\x00.env\x00\x00\x00\x00.env.gitveil\x00"
                };
                if let Some(text) = meanwhile {
                    manifest = text.as_bytes().to_vec();
                }
                PublishEvent::Answers(
                    parse_ignore_matches(answers, &run.managed()).expect("answers"),
                )
            }
            PublishEffect::ReadManifest => PublishEvent::Manifest(Some(manifest.clone())),
            PublishEffect::ReadIgnore => PublishEvent::Ignore(ignore.clone()),
            PublishEffect::WriteIgnore(bytes) => {
                steps.push("write ignore".to_owned());
                ignore = Some(bytes);
                PublishEvent::Done
            }
            PublishEffect::RestoreIgnore => {
                steps.push("restore ignore".to_owned());
                ignore = None;
                PublishEvent::Done
            }
            PublishEffect::TightenPlaintext => {
                steps.push("tighten".to_owned());
                PublishEvent::Done
            }
            PublishEffect::WriteManifest => {
                steps.push("write manifest".to_owned());
                PublishEvent::Done
            }
            PublishEffect::Finish(result) => return (steps, result),
        };
        (run, effect) = run.next(event);
    }
}

#[test]
fn the_manifest_is_written_after_the_rules_hold() {
    let (steps, result) = publication(true, None);
    assert!(result.is_ok());
    assert_eq!(steps, ["write ignore", "tighten", "write manifest"]);
}

#[test]
fn rules_that_do_not_hold_are_taken_back() {
    let (steps, result) = publication(false, None);
    assert_eq!(
        result.err().expect("refused").category(),
        ErrorCategory::Configuration
    );
    assert_eq!(steps, ["write ignore", "restore ignore"]);
}

#[test]
fn another_writer_keeps_its_manifest() {
    let (steps, result) = publication(true, Some("{}"));
    let error = result.err().expect("changed");
    assert_eq!(error.category(), ErrorCategory::Concurrency);
    assert_eq!(
        error.message(),
        ".gitveilrc.json changed while gitveil add was running; retry"
    );
    assert_eq!(steps, ["write ignore"]);
}
