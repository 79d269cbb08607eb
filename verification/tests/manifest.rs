use gitveil::config::SourceFormat;
use gitveil::manifest::{
    Manifest, ManifestEntry, ManifestEntryAddOutcome, ManifestMutationError, ManifestWriteError,
};
use gitveil::path::ManagedPath;
use gitveil::profile::ProfileName;
use gitveil::recipient::{AgeRecipient, PolicyName};
use gitveil::workspace::{nearest_manifest, select_entries};

const RECIPIENT: &str = "age1qyqszqgpqyqszqgpqyqszqgpqyqszqgpqyqszqgpqyqszqgpqyqs3290gq";

fn manifest() -> Manifest {
    Manifest::parse(
        format!(
            r#"{{
              "version": 1,
              "recipientPolicies": {{ "default": {{ "age": ["{RECIPIENT}"] }} }},
              "files": []
            }}"#
        )
        .as_bytes(),
    )
    .expect("manifest")
}

fn entry(path: &str, policy: &str, profile: &str) -> ManifestEntry {
    ManifestEntry::new(
        ManagedPath::new(path).expect("managed path"),
        SourceFormat::Dotenv,
        PolicyName::new(policy).expect("policy"),
        ProfileName::new(profile).expect("profile"),
    )
}

#[test]
fn mutation_rejects_ciphertext_suffix_paths_like_the_reader() {
    let mut manifest = manifest();
    assert_eq!(
        manifest.add_entry(entry("secret.env.gitveil", "default", "default")),
        Err(ManifestMutationError::CiphertextSuffix(
            ManagedPath::new("secret.env.gitveil").expect("managed path")
        ))
    );
}

#[test]
fn mutation_enforces_reserved_policy_collision_and_conflict_invariants() {
    let mut manifest = manifest();
    assert!(matches!(
        manifest.add_entry(entry(".gitignore", "default", "default")),
        Err(ManifestMutationError::ReservedPath(_))
    ));
    assert!(matches!(
        manifest.add_entry(entry("secret.env", "missing", "default")),
        Err(ManifestMutationError::MissingPolicy(_))
    ));
    assert_eq!(
        manifest
            .add_entry(entry("secret.env", "default", "default"))
            .expect("first registration"),
        ManifestEntryAddOutcome::Added
    );
    assert_eq!(
        manifest
            .add_entry(entry("secret.env", "default", "default"))
            .expect("idempotent registration"),
        ManifestEntryAddOutcome::AlreadyManaged
    );
    assert!(matches!(
        manifest.add_entry(entry("secret.env", "default", "dev")),
        Err(ManifestMutationError::ConflictingEntry(_))
    ));
    assert!(matches!(
        manifest.add_entry(entry("SECRET.env", "default", "default")),
        Err(ManifestMutationError::CaseCollision(_))
    ));
}

#[test]
fn policy_recipient_replacement_enforces_the_reader_invariants() {
    let mut manifest = manifest();
    let name = PolicyName::new("default").expect("policy name");
    let recipient = AgeRecipient::new(RECIPIENT).expect("recipient");
    assert!(matches!(
        manifest.set_policy_recipients(
            &PolicyName::new("missing").expect("policy name"),
            vec![recipient.clone()]
        ),
        Err(ManifestMutationError::MissingPolicy(_))
    ));
    assert!(matches!(
        manifest.set_policy_recipients(&name, Vec::new()),
        Err(ManifestMutationError::Policy { .. })
    ));
    manifest
        .set_policy_recipients(&name, vec![recipient.clone()])
        .expect("replacement");
    assert_eq!(
        manifest
            .recipient_policy(&name)
            .expect("policy")
            .recipients(),
        &[recipient]
    );
    manifest.to_json_bytes().expect("writer round-trip");
}

#[test]
fn writer_reports_reader_disagreement_as_an_internal_invariant() {
    let mut manifest = manifest();
    manifest
        .entries
        .push(entry("secret.env.gitveil", "default", "default"));
    assert_eq!(manifest.to_json_bytes(), Err(ManifestWriteError::Invariant));
}

#[test]
fn a_written_manifest_is_read_back() {
    let mut written = manifest();
    written
        .add_entry(entry("a/.env", "default", "dev"))
        .expect("entry");
    let bytes = written.to_json_bytes().expect("bytes");
    assert_eq!(Manifest::parse(&bytes), Ok(written));
}

fn fault(body: &str) -> String {
    Manifest::parse(body.as_bytes())
        .expect_err("refused manifest")
        .message()
}

#[test]
fn malformed_manifests_are_refused() {
    assert!(fault("{").starts_with("invalid .gitveilrc.json: "));
    let policies = format!(r#""recipientPolicies": {{ "default": {{ "age": ["{RECIPIENT}"] }} }}"#);
    assert!(
        fault(&format!(r#"{{ "version": 2, {policies}, "files": [] }}"#)).contains("version")
    );
    for (files, word) in [
        (
            r#"{ "path": "../a", "format": "dotenv", "recipientPolicy": "default" }"#,
            "path",
        ),
        (
            r#"{ "path": "a.gitveil", "format": "dotenv", "recipientPolicy": "default" }"#,
            "suffix",
        ),
        (
            r#"{ "path": ".gitignore", "format": "dotenv", "recipientPolicy": "default" }"#,
            "reserved",
        ),
        (
            r#"{ "path": "a", "format": "ini", "recipientPolicy": "default" }"#,
            "unsupported manifest format",
        ),
        (
            r#"{ "path": "a", "format": "dotenv", "recipientPolicy": "other" }"#,
            "other",
        ),
        (
            r#"{ "path": "a", "format": "dotenv", "recipientPolicy": "default" },
               { "path": "A", "format": "dotenv", "recipientPolicy": "default" }"#,
            "duplicate",
        ),
    ] {
        let message = fault(&format!(
            r#"{{ "version": 1, {policies}, "files": [{files}] }}"#
        ));
        assert!(message.contains(word), "{message}");
    }
}

#[test]
fn selections_keep_to_paths_and_profile() {
    let mut document = manifest();
    for (path, profile) in [("a.env", "dev"), ("b.env", "prod"), ("c.env", "dev")] {
        document
            .add_entry(entry(path, "default", profile))
            .expect("entry");
    }
    let names = |paths: &[&str], profile| {
        let paths = paths.iter().map(|p| (*p).to_owned()).collect::<Vec<_>>();
        select_entries(&document, &paths, profile).map(|list| {
            list.iter()
                .map(|item| item.path().as_str().to_owned())
                .collect::<Vec<_>>()
        })
    };
    assert_eq!(names(&[], None).expect("all"), ["a.env", "b.env", "c.env"]);
    assert_eq!(names(&[], Some("dev")).expect("dev"), ["a.env", "c.env"]);
    assert_eq!(
        names(&["c.env", "a.env"], None).expect("paths"),
        ["c.env", "a.env"]
    );
    assert_eq!(
        names(&["d.env"], None).expect_err("undeclared").message(),
        "path d.env is not declared in .gitveilrc.json"
    );
    assert!(names(&["b.env"], Some("dev")).is_err());
    assert!(names(&[], Some("test")).is_err());
    assert!(names(&[], Some("Dev")).is_err());
    assert!(names(&["/a.env"], None).is_err());
}

#[test]
fn the_nearest_manifest_counts() {
    assert_eq!(nearest_manifest(&[false, true, true]).ok(), Some(1));
    assert!(nearest_manifest(&[false, false]).is_err());
}
