use gitveil::baseline::{BaselineRecord, CipherSummary};
use gitveil::config::SourceFormat;
use gitveil::envelope::CiphertextEnvelope;
use gitveil::error::ErrorCategory;
use gitveil::manifest::Manifest;
use gitveil::manifest_document::{
    load_manifest, require_fresh, select_recipient_policy, serialize_manifest,
    ManifestPreparation,
};
use gitveil::path::ManagedPath;
use gitveil::source::{parse, SourceDocument};
use gitveil::status::{status_entry, PairDataStatus, PairStatus, RecipientStatus};

const RECIPIENT: &str = "age1qyqszqgpqyqszqgpqyqszqgpqyqszqgpqyqszqgpqyqszqgpqyqs3290gq";
const SECOND: &str = "age1qgpqyqszqgpqyqszqgpqyqszqgpqyqszqgpqyqszqgpqyqszqgpquuzgag";

fn manifest(policies: &[&str]) -> Manifest {
    let list = policies
        .iter()
        .map(|name| format!(r#""{name}":{{"age":["{RECIPIENT}"]}}"#))
        .collect::<Vec<_>>()
        .join(",");
    Manifest::parse(
        format!(
            r#"{{"version":1,"recipientPolicies":{{{list}}},"files":[{{"path":".env","format":"dotenv","recipientPolicy":"{}"}}]}}"#,
            policies[0]
        )
        .as_bytes(),
    )
    .expect("manifest")
}

fn leaf(name: &str) -> String {
    format!("ENC[AES256_GCM,data:{name},iv:i,tag:t,type:str]")
}

fn ciphertext(key: &str, data: &str, recipient: &str) -> String {
    format!(
        "gitveil_v1_dotenv:\n  data:\n    {key}: {}\n  layout: {}\nsops:\n  age:\n    - recipient: {recipient}\n      enc: key\n  lastmodified: x\n  mac: {}\n  encrypted_regex: .*\n  version: 3.13.3\n",
        leaf(data),
        leaf("layout"),
        leaf("mac")
    )
}

fn document(body: &str) -> SourceDocument {
    parse(SourceFormat::Dotenv, body.as_bytes(), Ok(vec![])).expect("document")
}

fn record(body: &str, cipher: &str) -> BaselineRecord {
    let envelope =
        CiphertextEnvelope::parse(cipher.as_bytes(), SourceFormat::Dotenv).expect("envelope");
    BaselineRecord::capture(
        &document(body),
        &CipherSummary::from_envelope(&envelope),
        [1; 32],
    )
}

fn status(
    plain: Option<&str>,
    cipher: Option<&str>,
    unmerged: bool,
    baseline: Option<&BaselineRecord>,
) -> PairStatus {
    let manifest = manifest(&["team"]);
    let pair = manifest
        .resolve_entry(&manifest.entries()[0])
        .expect("policy");
    status_entry(
        &pair,
        plain.map(str::as_bytes),
        Ok(vec![]),
        cipher.map(str::as_bytes),
        unmerged,
        baseline,
    )
}

#[test]
fn a_pair_in_sync_is_clean() {
    let cipher = ciphertext("A", "x", RECIPIENT);
    let baseline = record("A=1\n", &cipher);
    let clean = status(Some("A=1\n"), Some(&cipher), false, Some(&baseline));
    assert_eq!(
        clean,
        PairStatus::new(PairDataStatus::Clean, RecipientStatus::Aligned)
    );
    assert!(clean.is_clean());
    assert_eq!(clean.describe(), "clean");
}

#[test]
fn drift_has_a_direction() {
    let cipher = ciphertext("A", "x", RECIPIENT);
    let newer = ciphertext("A", "y", RECIPIENT);
    let baseline = record("A=1\n", &cipher);
    let edited = status(Some("A=2\n"), Some(&cipher), false, Some(&baseline));
    assert_eq!(edited.describe(), "local edits (changed A); run gitveil seal");
    let behind = status(Some("A=1\n"), Some(&newer), false, Some(&baseline));
    assert_eq!(
        behind.describe(),
        "ciphertext updated (changed A); run gitveil open"
    );
    let diverged = status(Some("A=2\n"), Some(&newer), false, Some(&baseline));
    assert!(diverged.describe().starts_with("diverged"));
    assert!(!diverged.is_clean());
}

#[test]
fn without_a_record_only_keys_are_compared() {
    let cipher = ciphertext("A", "x", RECIPIENT);
    let unknown = status(Some("A=1\n"), Some(&cipher), false, None);
    assert_eq!(
        unknown,
        PairStatus::new(PairDataStatus::Unknown, RecipientStatus::Aligned)
    );
    let differs = status(Some("B=1\n"), Some(&cipher), false, None);
    assert!(differs.describe().contains('A'));
    assert!(differs.describe().contains('B'));
}

#[test]
fn missing_and_damaged_sides_are_told_apart() {
    let cipher = ciphertext("A", "x", RECIPIENT);
    let not_applicable = |data| PairStatus::new(data, RecipientStatus::NotApplicable);
    assert_eq!(
        status(None, None, false, None),
        not_applicable(PairDataStatus::Missing)
    );
    assert_eq!(
        status(Some("A=1\n"), None, false, None),
        not_applicable(PairDataStatus::CiphertextMissing)
    );
    assert_eq!(
        status(None, Some(&cipher), false, None),
        PairStatus::new(PairDataStatus::PlaintextMissing, RecipientStatus::Aligned)
    );
    assert_eq!(
        status(Some("A=1\n"), Some(&cipher), true, None),
        not_applicable(PairDataStatus::Conflicted)
    );
    let corrupt = status(Some("A=1\n"), Some("junk"), false, None);
    assert!(corrupt.is_bad());
    assert!(corrupt.describe().contains(".env.gitveil: "));
}

#[test]
fn other_recipients_are_drift() {
    let cipher = ciphertext("A", "x", SECOND);
    let baseline = record("A=1\n", &cipher);
    let drifted = status(Some("A=1\n"), Some(&cipher), false, Some(&baseline));
    assert!(!drifted.is_clean());
    assert!(drifted.describe().contains("team"));
}

#[test]
fn manifests_are_loaded_and_written_again() {
    assert_eq!(
        load_manifest(None).expect_err("missing").category(),
        ErrorCategory::Configuration
    );
    assert!(load_manifest(Some(b"{")).is_err());
    let bytes = serialize_manifest(&manifest(&["team"])).expect("bytes");
    let read = load_manifest(Some(&bytes)).expect("manifest");
    assert!(read.same(&manifest(&["team"])));
}

#[test]
fn a_policy_is_inferred_only_where_there_is_one() {
    let only = select_recipient_policy(&manifest(&["team"]), None, "--policy").expect("only");
    assert_eq!(only.as_str(), "team");
    let both = manifest(&["alpha", "beta"]);
    let error = select_recipient_policy(&both, None, "--policy").expect_err("ambiguous");
    assert_eq!(
        error.message(),
        "multiple recipient policies are declared (alpha, beta); pass --policy"
    );
    let named = select_recipient_policy(&both, Some("beta"), "--policy").expect("named");
    assert_eq!(named.as_str(), "beta");
    assert!(select_recipient_policy(&both, Some("gamma"), "--policy").is_err());
    assert!(select_recipient_policy(&both, Some("No Name"), "--policy").is_err());
}

#[test]
fn a_changed_document_is_not_replaced() {
    let preparation = ManifestPreparation::new(
        ManagedPath::new(".gitveilrc.json").expect("path"),
        b"{}".to_vec(),
        0o644,
    );
    assert!(require_fresh(&preparation, Some(b"{}"), "gitveil add").is_ok());
    for current in [None, Some(b"{ }".as_slice())] {
        let error = require_fresh(&preparation, current, "gitveil add").expect_err("changed");
        assert_eq!(error.category(), ErrorCategory::Concurrency);
    }
}
