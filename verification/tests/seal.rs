use gitveil::config::SourceFormat;
use gitveil::error::ErrorCategory;
use gitveil::pair::ciphertext_has_conflict_markers;
use gitveil::path::ManagedPath;
use gitveil::recipient::{AgeRecipient, AgeRecipientPolicy, PolicyName};
use gitveil::seal::plan::{plan_seal, resembles_envelope, result_matches, SealAction};
use gitveil::seal::step::{read_desired, read_existing};
use gitveil::source::{parse, SourceDocument};

fn document(value: &str) -> SourceDocument {
    parse(
        SourceFormat::Dotenv,
        format!("A={value}\n").as_bytes(),
        Ok(vec![]),
    )
    .expect("document")
}

#[test]
fn seal_plan_selects_new_preserve_and_edit_actions() {
    let desired = document("desired");
    let same = document("desired");
    let changed = document("baseline");
    assert_eq!(plan_seal(&desired, None), SealAction::EncryptNew);
    assert_eq!(
        plan_seal(&desired, Some(&same)),
        SealAction::PreserveBaseline
    );
    assert_eq!(
        plan_seal(&desired, Some(&changed)),
        SealAction::EditExisting
    );
}

#[test]
fn result_verification_is_semantic_equality() {
    assert!(result_matches(&document("x"), &document("x")));
    assert!(!result_matches(&document("x"), &document("y")));
}

#[test]
fn envelope_lookalikes_are_detected() {
    assert!(resembles_envelope(b"gitveil_v1_dotenv:\n  data: {}\n"));
    assert!(resembles_envelope(b"anything\nsops:\n  mac: x\n"));
    assert!(!resembles_envelope(b"A=1\nB=2\n"));
}

#[test]
fn ciphertext_conflict_markers_are_detected() {
    assert!(ciphertext_has_conflict_markers(
        b"<<<<<<< HEAD\ngitveil_v1_dotenv: {}\n=======\nother\n>>>>>>> branch\n"
    ));
    assert!(!ciphertext_has_conflict_markers(b"gitveil_v1_dotenv: {}\n"));
    assert!(!ciphertext_has_conflict_markers(&[0xff, 0xfe]));
}

#[test]
fn only_plaintext_is_sealed() {
    let path = ManagedPath::new(".env").expect("path");
    let read = |input| read_desired(&path, SourceFormat::Dotenv, input, Ok(vec![]));
    assert!(read(Some(b"A=1\n".as_slice())).is_ok());
    assert!(read(None).is_err());
    assert!(read(Some(b"gitveil_v1_dotenv:\n".as_slice())).is_err());
    let error = read(Some(b"<<<<<<< ours\nA=1\n".as_slice())).err().expect("markers");
    assert_eq!(error.category(), ErrorCategory::Source);
}

#[test]
fn a_missing_ciphertext_is_a_first_seal() {
    let policy = AgeRecipientPolicy::new(
        PolicyName::new("team").expect("name"),
        vec![AgeRecipient::new(
            "age1qyqszqgpqyqszqgpqyqszqgpqyqszqgpqyqszqgpqyqszqgpqyqs3290gq",
        )
        .expect("recipient")],
    )
    .expect("policy");
    let cipher = ManagedPath::new(".env.gitveil").expect("path");
    assert!(
        read_existing(&cipher, SourceFormat::Dotenv, &policy, None)
            .expect("absent")
            .is_none()
    );
    assert!(read_existing(&cipher, SourceFormat::Dotenv, &policy, Some(b"junk")).is_err());
}
