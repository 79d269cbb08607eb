use gitveil::config::SourceFormat;
use gitveil::error::ErrorCategory;
use gitveil::manifest::ManifestEntry;
use gitveil::path::ManagedPath;
use gitveil::profile::ProfileName;
use gitveil::recipient::PolicyName;
use gitveil::verify::{
    check_range, scan_ciphertext, scan_plaintext, touching_arguments,
    touching_commits, validate_revision_range, VerifyReport, Violation,
};

#[test]
fn revision_ranges_reject_flags_whitespace_and_empty_values() {
    assert!(validate_revision_range("origin/main..HEAD").is_ok());
    assert!(validate_revision_range("HEAD~5..HEAD").is_ok());
    for invalid in ["", "--all", "-n1", "a b", "a\0b"] {
        assert!(validate_revision_range(invalid).is_err(), "{invalid:?}");
    }
}

#[test]
fn a_bad_range_is_a_configuration_error() {
    assert!(check_range(None).is_ok());
    assert!(check_range(Some("main..HEAD")).is_ok());
    let error = check_range(Some("--all")).expect_err("range");
    assert_eq!(error.category(), ErrorCategory::Configuration);
}

#[test]
fn commits_are_listed_per_path() {
    let path = ManagedPath::new(".env").expect("path");
    assert!(touching_arguments(None, &path).contains(&"--all".to_owned()));
    assert!(touching_arguments(Some("a..b"), &path).contains(&"a..b".to_owned()));
    let commit = "a".repeat(40);
    assert_eq!(
        touching_commits(format!("{commit}\n").as_bytes()).ok(),
        Some(vec![commit])
    );
}

#[test]
fn leaks_and_bad_ciphertext_are_violations() {
    let path = ManagedPath::new(".env").expect("path");
    let entry = ManifestEntry::new(
        path.clone(),
        SourceFormat::Dotenv,
        PolicyName::new("default").expect("policy"),
        ProfileName::default(),
    );
    let mut report = VerifyReport::default();
    scan_plaintext(&mut report, "c1", &path, None);
    assert!(report.violations.is_empty());
    scan_plaintext(&mut report, "c1", &path, Some(b"A=1\n"));
    scan_ciphertext(&mut report, "c2", &entry, Some(b"not ciphertext"));
    assert_eq!(report.violations.len(), 2);
    assert!(matches!(
        report.violations[0],
        Violation::PlaintextInHistory { .. }
    ));
    assert!(report.violations[0].describe().contains("c1"));
    assert!(report.violations[1].describe().contains(".env.gitveil"));
}
