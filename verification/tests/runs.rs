use gitveil::baseline::BaselineRecord;
use gitveil::config::SourceFormat;
use gitveil::error::{ErrorCategory, GitveilError, SecretBytes};
use gitveil::manifest::{Manifest, ManifestEntry};
use gitveil::manifest_document::ManifestPreparation;
use gitveil::open::run::{OpenEffect, OpenEvent, OpenRun};
use gitveil::open::step::OpenOutcome;
use gitveil::path::ManagedPath;
use gitveil::recipient::{AgeRecipient, AgeRecipientPolicy, PolicyName};
use gitveil::recipients::engine::{Engine, EngineEffect, EngineEvent};
use gitveil::recipients::run::{ConvergeEffect, ConvergeEvent, ConvergeRun};
use gitveil::recipients::{ConvergenceAction, RecipientFileOutcome};
use gitveil::resolve::run::{ResolveEffect, ResolveEvent, ResolveRun};
use gitveil::resolve::ResolveOutcome;
use gitveil::seal::run::{SealEffect, SealEvent, SealRun};
use gitveil::seal::step::SealOutcome;
use gitveil::sops::SopsFailure;
use gitveil::source::{parse, SourceDocument};

const RECIPIENT: &str = "age1qyqszqgpqyqszqgpqyqszqgpqyqszqgpqyqszqgpqyqszqgpqyqs3290gq";
const SECOND: &str = "age1qgpqyqszqgpqyqszqgpqyqszqgpqyqszqgpqyqszqgpqyqszqgpquuzgag";

/// Hands out envelopes that look encrypted, and keeps what they stand for.
struct Vault {
    held: Vec<(Vec<u8>, Vec<u8>)>,
}

impl Vault {
    fn new() -> Vault {
        Vault { held: Vec::new() }
    }

    fn encrypt(&mut self, payload: &[u8], recipients: &[&str]) -> Vec<u8> {
        let count = self.held.len();
        let leaf = |name: &str| format!("ENC[AES256_GCM,data:{name}{count},iv:i,tag:t,type:str]");
        let mut text = format!(
            "gitveil_v1_dotenv:\n  data:\n    A: {}\n  layout: {}\nsops:\n  age:\n",
            leaf("a"),
            leaf("l")
        );
        for recipient in recipients {
            text.push_str(&format!("    - recipient: {recipient}\n      enc: key\n"));
        }
        text.push_str(&format!(
            "  lastmodified: x\n  mac: {}\n  encrypted_regex: .*\n  version: 3.13.3\n",
            leaf("m")
        ));
        self.held.push((text.clone().into_bytes(), payload.to_vec()));
        text.into_bytes()
    }

    fn seal(&mut self, body: &str, recipients: &[&str]) -> Vec<u8> {
        let payload = gitveil::pair::desired_envelope(&document(body), &path()).expect("payload");
        self.encrypt(payload.as_slice(), recipients)
    }

    fn decrypt(&self, bytes: &[u8]) -> Result<SecretBytes, SopsFailure> {
        match self.held.iter().find(|(text, _)| text == bytes) {
            Some((_, payload)) => Ok(SecretBytes::new(payload.clone())),
            None => Err(SopsFailure::IdentityUnavailable),
        }
    }
}

fn path() -> ManagedPath {
    ManagedPath::new(".env").expect("path")
}

fn document(body: &str) -> SourceDocument {
    parse(SourceFormat::Dotenv, body.as_bytes(), Ok(vec![])).expect("document")
}

fn manifest(recipients: &[&str]) -> Manifest {
    let list = recipients
        .iter()
        .map(|recipient| format!("\"{recipient}\""))
        .collect::<Vec<_>>()
        .join(",");
    Manifest::parse(
        format!(
            r#"{{"version":1,"recipientPolicies":{{"team":{{"age":[{list}]}}}},"files":[{{"path":".env","format":"dotenv","recipientPolicy":"team"}}]}}"#
        )
        .as_bytes(),
    )
    .expect("manifest")
}

fn entry(manifest: &Manifest) -> &ManifestEntry {
    &manifest.entries()[0]
}

fn policy(recipients: &[&str]) -> AgeRecipientPolicy {
    AgeRecipientPolicy::new(
        PolicyName::new("team").expect("name"),
        recipients
            .iter()
            .map(|recipient| AgeRecipient::new(recipient).expect("recipient"))
            .collect(),
    )
    .expect("policy")
}

fn bytes(text: &str) -> Option<Vec<u8>> {
    Some(text.as_bytes().to_vec())
}

/// Seals a pair, and returns the outcome, the written ciphertext and whether a record
/// was saved.
fn seal(
    vault: &mut Vault,
    plain: Option<&str>,
    existing: Option<Vec<u8>>,
) -> (Result<SealOutcome, GitveilError>, Option<Vec<u8>>, bool) {
    let manifest = manifest(&[RECIPIENT]);
    let pair = manifest.resolve_entry(entry(&manifest)).expect("policy");
    let mut written = None;
    let mut saved = false;
    let (mut run, mut effect) = SealRun::start(&manifest, &pair, true);
    loop {
        let event = match effect {
            SealEffect::ReadPlaintext => SealEvent::Plaintext(
                plain.map(|text| text.as_bytes().to_vec()),
                Ok(vec![]),
            ),
            SealEffect::ReadCiphertext(path) => {
                assert_eq!(path.as_str(), ".env.gitveil");
                SealEvent::Ciphertext(existing.clone())
            }
            SealEffect::Decrypt(bytes) => SealEvent::Decrypted(vault.decrypt(&bytes)),
            SealEffect::EncryptNew(payload) => {
                SealEvent::Encrypted(vault.encrypt(payload.as_slice(), &[RECIPIENT]))
            }
            SealEffect::Edit(bytes, payload) => {
                assert_eq!(Some(bytes), existing);
                SealEvent::Encrypted(vault.encrypt(payload.as_slice(), &[RECIPIENT]))
            }
            SealEffect::WriteCiphertext(bytes) => {
                written = Some(bytes);
                SealEvent::Written
            }
            SealEffect::SaveRecord(record) => {
                assert!(record
                    .diff_plain(&document(plain.expect("plaintext")))
                    .is_empty());
                saved = true;
                SealEvent::Written
            }
            SealEffect::Finish(result) => return (result, written, saved),
        };
        (run, effect) = run.next(event);
    }
}

#[test]
fn a_first_seal_encrypts_checks_and_records() {
    let mut vault = Vault::new();
    let (result, written, saved) = seal(&mut vault, Some("A=1\n"), None);
    assert_eq!(result.expect("sealed"), SealOutcome::Sealed);
    assert_eq!(written, Some(vault.held[0].0.clone()));
    assert!(saved);
}

#[test]
fn an_unchanged_pair_is_not_written() {
    let mut vault = Vault::new();
    let existing = vault.seal("A=1\n", &[RECIPIENT]);
    let (result, written, _) = seal(&mut vault, Some("A=1\n"), Some(existing));
    assert_eq!(result.expect("unchanged"), SealOutcome::Unchanged);
    assert_eq!(written, None);
}

#[test]
fn a_changed_pair_is_edited() {
    let mut vault = Vault::new();
    let existing = vault.seal("A=1\n", &[RECIPIENT]);
    let (result, written, saved) = seal(&mut vault, Some("A=2\n"), Some(existing));
    assert_eq!(result.expect("sealed"), SealOutcome::Sealed);
    assert_eq!(written, Some(vault.held[1].0.clone()));
    assert!(saved);
}

#[test]
fn drift_and_absence_stop_a_seal() {
    let mut vault = Vault::new();
    let foreign = vault.seal("A=1\n", &[RECIPIENT, SECOND]);
    let (result, written, saved) = seal(&mut vault, Some("A=2\n"), Some(foreign));
    assert!(result.is_err());
    assert_eq!((written, saved), (None, false));
    let (result, written, _) = seal(&mut vault, None, None);
    assert!(result.is_err());
    assert_eq!(written, None);
}

#[test]
fn a_result_that_was_not_asked_for_ends_a_run() {
    let manifest = manifest(&[RECIPIENT]);
    let pair = manifest.resolve_entry(entry(&manifest)).expect("policy");
    let (run, _) = SealRun::start(&manifest, &pair, false);
    let (_, effect) = run.next(SealEvent::Written);
    match effect {
        SealEffect::Finish(Err(error)) => assert_eq!(error.category(), ErrorCategory::Integrity),
        _ => panic!("the run goes on"),
    }
    let (run, _) = OpenRun::start(entry(&manifest), false);
    let (_, effect) = run.next(OpenEvent::Failed(GitveilError::configuration("stop")));
    match effect {
        OpenEffect::Finish(Err(error)) => assert_eq!(error.message(), "stop"),
        _ => panic!("the run goes on"),
    }
}

type Opened = (Result<OpenOutcome, GitveilError>, Option<Vec<u8>>, Option<BaselineRecord>);

fn open_under(
    vault: &Vault,
    cipher: Option<Vec<u8>>,
    local: Option<Vec<u8>>,
    mut record: Option<BaselineRecord>,
) -> Opened {
    let manifest = manifest(&[RECIPIENT]);
    let mut written = None;
    let mut saved = None;
    let (mut run, mut effect) = OpenRun::start(entry(&manifest), true);
    loop {
        let event = match effect {
            OpenEffect::ReadCiphertext => OpenEvent::Ciphertext(cipher.clone()),
            OpenEffect::Decrypt(bytes) => OpenEvent::Decrypted(vault.decrypt(&bytes)),
            OpenEffect::ReadPlaintext => OpenEvent::Plaintext(local.clone(), Ok(vec![])),
            OpenEffect::LoadRecord => OpenEvent::Record(record.take()),
            OpenEffect::Deserialize(_) => OpenEvent::Deserialized(Ok(vec![])),
            OpenEffect::WritePlaintext(bytes) => {
                written = Some(bytes);
                OpenEvent::Written
            }
            OpenEffect::SaveRecord(record) => {
                saved = Some(record);
                OpenEvent::Written
            }
            OpenEffect::Finish(result) => return (result, written, saved),
        };
        (run, effect) = run.next(event);
    }
}

fn open(
    vault: &Vault,
    cipher: Option<Vec<u8>>,
    local: Option<Vec<u8>>,
) -> (Result<OpenOutcome, GitveilError>, Option<Vec<u8>>, bool) {
    let (result, written, saved) = open_under(vault, cipher, local, None);
    (result, written, saved.is_some())
}

#[test]
fn a_local_edit_survives_every_opening() {
    let mut vault = Vault::new();
    let cipher = vault.seal("A=1\nB=2\n", &[RECIPIENT]);
    let (_, written, mut record) = open_under(&vault, Some(cipher.clone()), None, None);
    assert_eq!(written, bytes("A=1\nB=2\n"));
    for _ in 0..3 {
        let (result, written, saved) = open_under(
            &vault,
            Some(cipher.clone()),
            bytes("A=local\nMINE=x\n"),
            record,
        );
        assert_eq!(result.expect("opened"), OpenOutcome::UpToDate);
        assert_eq!(written, None);
        record = saved;
        let difference = record
            .as_ref()
            .expect("recorded")
            .diff_plain(&document("A=local\nMINE=x\n"));
        assert_eq!(difference.changed, vec!["A".to_owned()]);
        assert_eq!(difference.added, vec!["MINE".to_owned()]);
        assert_eq!(difference.removed, vec!["B".to_owned()]);
    }
}

#[test]
fn an_empty_value_is_opened_as_it_was_sealed() {
    let mut vault = Vault::new();
    let cipher = vault.seal("A=\n", &[RECIPIENT]);
    let (result, written, saved) = open(&vault, Some(cipher), None);
    assert_eq!(result.expect("opened"), OpenOutcome::Opened);
    assert_eq!(written, bytes("A=\n"));
    assert!(saved);
}

#[test]
fn opening_writes_what_is_missing() {
    let mut vault = Vault::new();
    let cipher = vault.seal("A=1\n", &[RECIPIENT]);
    let (result, written, saved) = open(&vault, Some(cipher), None);
    assert_eq!(result.expect("opened"), OpenOutcome::Opened);
    assert_eq!(written, bytes("A=1\n"));
    assert!(saved);
}

#[test]
fn opening_leaves_what_is_up_to_date() {
    let mut vault = Vault::new();
    let cipher = vault.seal("A=1\n", &[RECIPIENT]);
    let (result, written, saved) = open(&vault, Some(cipher), bytes("A=1\n"));
    assert_eq!(result.expect("up to date"), OpenOutcome::UpToDate);
    assert_eq!(written, None);
    assert!(saved);
}

#[test]
fn conflicts_are_reported_and_not_recorded() {
    let mut vault = Vault::new();
    let cipher = vault.seal("A=1\n", &[RECIPIENT]);
    let (result, written, saved) = open(&vault, Some(cipher), bytes("A=2\n"));
    assert!(matches!(result, Ok(OpenOutcome::Conflicts(_))));
    assert_eq!(written, None);
    assert!(!saved);
}

#[test]
fn opening_needs_ciphertext_and_an_identity() {
    let vault = Vault::new();
    let (result, _, _) = open(&vault, None, None);
    assert_eq!(
        result.err().expect("missing").message(),
        "ciphertext .env.gitveil is missing; run gitveil seal first"
    );
    let mut other = Vault::new();
    let cipher = other.seal("A=1\n", &[RECIPIENT]);
    assert!(open(&vault, Some(cipher), None).0.is_err());
}

struct Resolved {
    result: Result<ResolveOutcome, GitveilError>,
    cipher: Option<Vec<u8>>,
    plain: Option<Vec<u8>>,
    saved: bool,
}

fn resolve(
    vault: &mut Vault,
    base: Option<Vec<u8>>,
    ours: Vec<u8>,
    theirs: Vec<u8>,
    recipients: &[&str],
) -> Resolved {
    let manifest = manifest(&[RECIPIENT]);
    let pair = manifest.resolve_entry(entry(&manifest)).expect("policy");
    let (mut cipher, mut plain, mut saved) = (None, None, false);
    let (mut run, mut effect) = ResolveRun::start(&pair, base, ours, theirs, true);
    loop {
        let event = match effect {
            ResolveEffect::Decrypt(bytes) => ResolveEvent::Decrypted(vault.decrypt(&bytes)),
            ResolveEffect::EncryptNew(payload, policy) => {
                assert_eq!(policy.recipients().len(), 1);
                ResolveEvent::Encrypted(vault.encrypt(payload.as_slice(), recipients))
            }
            ResolveEffect::Edit(_, payload) => {
                ResolveEvent::Encrypted(vault.encrypt(payload.as_slice(), recipients))
            }
            ResolveEffect::WriteCiphertext(bytes) => {
                cipher = Some(bytes);
                ResolveEvent::Written
            }
            ResolveEffect::WritePlaintext(bytes) => {
                plain = Some(bytes);
                ResolveEvent::Written
            }
            ResolveEffect::SaveRecord(_) => {
                saved = true;
                ResolveEvent::Written
            }
            ResolveEffect::Finish(result) => {
                return Resolved {
                    result,
                    cipher,
                    plain,
                    saved,
                }
            }
        };
        (run, effect) = run.next(event);
    }
}

#[test]
fn resolving_merges_and_narrows() {
    let mut vault = Vault::new();
    let base = vault.seal("A=1\nB=1\n", &[RECIPIENT, SECOND]);
    let ours = vault.seal("A=2\nB=1\n", &[RECIPIENT, SECOND]);
    let theirs = vault.seal("A=1\nB=2\n", &[RECIPIENT, SECOND]);
    let resolved = resolve(&mut vault, Some(base), ours, theirs, &[RECIPIENT]);
    assert_eq!(
        resolved.result.expect("resolved"),
        ResolveOutcome::Resolved {
            data_key_rotated: true,
            recipient_drift: false
        }
    );
    assert_eq!(resolved.plain, bytes("A=2\nB=2\n"));
    assert_eq!(resolved.cipher, Some(vault.held[3].0.clone()));
    assert!(resolved.saved);
}

#[test]
fn resolving_never_extends_access() {
    let mut vault = Vault::new();
    let base = vault.seal("A=1\n", &[RECIPIENT]);
    let ours = vault.seal("A=2\n", &[RECIPIENT]);
    let theirs = vault.seal("A=1\n", &[RECIPIENT]);
    let resolved = resolve(&mut vault, Some(base), ours, theirs, &[RECIPIENT, SECOND]);
    assert_eq!(
        resolved.result.err().expect("refused").category(),
        ErrorCategory::Integrity
    );
    assert_eq!(resolved.cipher, None);
}

#[test]
fn a_conflict_keeps_our_ciphertext_and_shows_both_sides() {
    let mut vault = Vault::new();
    let ours = vault.seal("A=ours\n", &[RECIPIENT]);
    let theirs = vault.seal("A=theirs\n", &[RECIPIENT]);
    let resolved = resolve(&mut vault, None, ours.clone(), theirs, &[RECIPIENT]);
    assert!(matches!(
        resolved.result,
        Ok(ResolveOutcome::ConflictWritten(_))
    ));
    assert_eq!(resolved.cipher, Some(ours));
    let shown = String::from_utf8(resolved.plain.expect("document")).expect("utf-8");
    assert!(shown.contains("<<<<<<< "));
    assert!(shown.contains("A=ours"));
    assert!(shown.contains("A=theirs"));
    assert!(!resolved.saved);
}

fn converge(
    vault: &mut Vault,
    before: Vec<u8>,
    action: ConvergenceAction,
    after: Option<Vec<u8>>,
) -> (Result<RecipientFileOutcome, GitveilError>, Option<Vec<u8>>) {
    let manifest = manifest(&[RECIPIENT]);
    let mut written = None;
    let (mut run, mut effect) = ConvergeRun::start(
        entry(&manifest),
        &policy(&[RECIPIENT, SECOND]),
        before,
        document("A=1\n"),
        action,
    );
    loop {
        let event = match effect {
            ConvergeEffect::Rewrap(_) => {
                ConvergeEvent::Encrypted(after.clone().expect("rewrapped"))
            }
            ConvergeEffect::EncryptNew(payload) => ConvergeEvent::Encrypted(
                vault.encrypt(payload.as_slice(), &[SECOND, RECIPIENT]),
            ),
            ConvergeEffect::Decrypt(bytes) => ConvergeEvent::Decrypted(vault.decrypt(&bytes)),
            ConvergeEffect::WriteCiphertext(bytes) => {
                written = Some(bytes);
                ConvergeEvent::Written
            }
            ConvergeEffect::SaveRecord(record) => {
                assert!(record.diff_plain(&document("A=1\n")).is_empty());
                ConvergeEvent::Written
            }
            ConvergeEffect::Finish(result) => return (result, written),
        };
        (run, effect) = run.next(event);
    }
}

#[test]
fn rotation_encrypts_anew_for_the_policy() {
    let mut vault = Vault::new();
    let before = vault.seal("A=1\n", &[RECIPIENT]);
    let (result, written) = converge(&mut vault, before, ConvergenceAction::Rotate, None);
    assert_eq!(
        result.expect("rotated"),
        RecipientFileOutcome::DataKeyRotated
    );
    assert_eq!(written, Some(vault.held[1].0.clone()));
}

#[test]
fn rewrapping_keeps_every_leaf() {
    let mut vault = Vault::new();
    let before = vault.seal("A=1\n", &[RECIPIENT]);
    let wrapped = String::from_utf8(before.clone())
        .expect("utf-8")
        .replace(
            "  lastmodified",
            &format!("    - recipient: {SECOND}\n      enc: key\n  lastmodified"),
        )
        .into_bytes();
    let (result, written) = converge(
        &mut vault,
        before.clone(),
        ConvergenceAction::Rewrap,
        Some(wrapped.clone()),
    );
    assert_eq!(result.expect("rewrapped"), RecipientFileOutcome::Rewrapped);
    assert_eq!(written, Some(wrapped));

    let other = vault.seal("A=1\n", &[RECIPIENT, SECOND]);
    let (result, written) =
        converge(&mut vault, before, ConvergenceAction::Rewrap, Some(other));
    assert_eq!(
        result.err().expect("changed leaves").category(),
        ErrorCategory::Integrity
    );
    assert_eq!(written, None);
}

#[test]
fn an_aligned_file_needs_nothing() {
    let mut vault = Vault::new();
    let before = vault.seal("A=1\n", &[RECIPIENT, SECOND]);
    let (result, written) = converge(&mut vault, before, ConvergenceAction::AlreadyAligned, None);
    assert_eq!(
        result.expect("aligned"),
        RecipientFileOutcome::AlreadyAligned
    );
    assert_eq!(written, None);
}

fn preparation() -> ManifestPreparation {
    ManifestPreparation::new(
        ManagedPath::new(".gitveilrc.json").expect("path"),
        b"{}".to_vec(),
        0o644,
    )
}

/// Runs a convergence of which some files cannot be decrypted, and lists its steps.
fn engine(broken: &[bool], changed: bool, current: &[u8]) -> (Vec<String>, EngineEffect) {
    let mut steps = Vec::new();
    let (mut run, mut effect) = Engine::start(broken.len(), preparation(), changed);
    loop {
        let event = match effect {
            EngineEffect::Decrypt(file) => {
                steps.push(format!("decrypt {file}"));
                EngineEvent::Decrypted(if broken[file] {
                    Err(GitveilError::configuration("no identity"))
                } else {
                    Ok(())
                })
            }
            EngineEffect::ReadManifest => EngineEvent::Manifest(Some(current.to_vec())),
            EngineEffect::Publish => {
                steps.push("publish".to_owned());
                EngineEvent::Published
            }
            EngineEffect::Converge(file) => {
                steps.push(format!("converge {file}"));
                EngineEvent::Converged(Ok(RecipientFileOutcome::Rewrapped))
            }
            finish => return (steps, finish),
        };
        (run, effect) = run.next(event);
    }
}

#[test]
fn the_manifest_is_published_between_trial_and_change() {
    let (steps, finish) = engine(&[false, true, false], true, b"{}");
    assert_eq!(
        steps,
        [
            "decrypt 0",
            "decrypt 1",
            "decrypt 2",
            "publish",
            "converge 0",
            "converge 2"
        ]
    );
    match finish {
        EngineEffect::Finish(Ok(reports)) => {
            assert_eq!(
                reports.iter().map(|report| report.file).collect::<Vec<_>>(),
                [0, 2, 1]
            );
            assert!(reports[2].result.is_err());
        }
        _ => panic!("not finished"),
    }
}

#[test]
fn nothing_is_published_where_nothing_can_be_decrypted() {
    let (steps, finish) = engine(&[true, true], true, b"{}");
    assert_eq!(steps, ["decrypt 0", "decrypt 1"]);
    match finish {
        EngineEffect::Finish(Err(error)) => assert_eq!(error.message(), "no identity"),
        _ => panic!("not refused"),
    }
}

#[test]
fn a_manifest_that_changed_meanwhile_is_not_overwritten() {
    let (steps, finish) = engine(&[false], true, b"{ }");
    assert_eq!(steps, ["decrypt 0"]);
    match finish {
        EngineEffect::Finish(Err(error)) => {
            assert_eq!(error.category(), ErrorCategory::Concurrency)
        }
        _ => panic!("not refused"),
    }
}

#[test]
fn an_unchanged_manifest_is_not_published() {
    assert_eq!(engine(&[false], false, b"").0, ["decrypt 0", "converge 0"]);
    assert!(engine(&[], false, b"").0.is_empty());
    assert_eq!(engine(&[], true, b"{}").0, ["publish"]);
}
