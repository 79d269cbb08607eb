use bech32::{Bech32, Hrp};
use gitveil::path::ManagedPath;
use gitveil::recipient::{AgeRecipient, AgeRecipientPolicy, PolicyName};
use gitveil::recipients::plan::{
    plan_authorization, AuthorizationRejection, ConvergenceAction, FileRecipientFacts, GrantEcho,
    RecipientMutation,
};

fn recipient(seed: u8) -> AgeRecipient {
    let encoded = bech32::encode::<Bech32>(Hrp::parse_unchecked("age"), &[seed; 32])
        .expect("encode age recipient");
    AgeRecipient::new(&encoded).expect("valid age recipient")
}

fn policy(recipients: &[&AgeRecipient]) -> AgeRecipientPolicy {
    AgeRecipientPolicy::new(
        PolicyName::new("team").expect("policy name"),
        recipients.iter().map(|value| (*value).clone()).collect(),
    )
    .expect("policy")
}

fn file(path: &str, envelope: Option<&[&AgeRecipient]>) -> FileRecipientFacts {
    FileRecipientFacts {
        path: ManagedPath::new(path).expect("managed path"),
        envelope_recipients: envelope
            .map(|recipients| recipients.iter().map(|value| (*value).clone()).collect()),
    }
}

#[test]
fn adding_to_an_aligned_state_rewraps_every_existing_ciphertext() {
    let (a, b) = (recipient(1), recipient(2));
    let plan = plan_authorization(
        &policy(&[&a]),
        &RecipientMutation::Add(vec![b.clone()]),
        &[file(".env", Some(&[&a])), file("fresh.env", None)],
    )
    .expect("plan");
    assert_eq!(plan.desired_recipients, vec![a, b.clone()]);
    assert!(plan.manifest_changed);
    assert_eq!(plan.files.len(), 1);
    assert_eq!(plan.files[0].1, ConvergenceAction::Rewrap);
    assert_eq!(plan.grants, vec![GrantEcho::Added(b)]);
}

#[test]
fn an_idempotent_add_reports_already_authorized_and_already_aligned() {
    let (a, b) = (recipient(1), recipient(2));
    let plan = plan_authorization(
        &policy(&[&a, &b]),
        &RecipientMutation::Add(vec![b.clone()]),
        &[file(".env", Some(&[&a, &b]))],
    )
    .expect("plan");
    assert!(!plan.manifest_changed);
    assert_eq!(plan.files[0].1, ConvergenceAction::AlreadyAligned);
    assert_eq!(plan.grants, vec![GrantEcho::AlreadyAuthorized(b)]);
}

#[test]
fn add_converges_a_hand_edited_manifest_when_the_difference_is_named() {
    let (a, b) = (recipient(1), recipient(2));
    let plan = plan_authorization(
        &policy(&[&a, &b]),
        &RecipientMutation::Add(vec![b.clone()]),
        &[file(".env", Some(&[&a]))],
    )
    .expect("plan");
    assert!(!plan.manifest_changed);
    assert_eq!(plan.files[0].1, ConvergenceAction::Rewrap);
}

#[test]
fn an_injected_manifest_addition_is_rejected_and_named() {
    let (a, b, injected) = (recipient(1), recipient(2), recipient(9));
    assert_eq!(
        plan_authorization(
            &policy(&[&a, &injected]),
            &RecipientMutation::Add(vec![b]),
            &[file(".env", Some(&[&a]))],
        ),
        Err(AuthorizationRejection::UnexplainedAddition {
            path: ManagedPath::new(".env").expect("managed path"),
            recipient: injected,
        })
    );
}

#[test]
fn an_injected_manifest_removal_is_rejected_by_add() {
    let (a, b, c) = (recipient(1), recipient(2), recipient(3));
    assert_eq!(
        plan_authorization(
            &policy(&[&a]),
            &RecipientMutation::Add(vec![c]),
            &[file(".env", Some(&[&a, &b]))],
        ),
        Err(AuthorizationRejection::UnexplainedRemoval {
            path: ManagedPath::new(".env").expect("managed path"),
            recipient: b,
        })
    );
}

#[test]
fn removing_a_policy_member_rotates_every_existing_ciphertext() {
    let (a, b) = (recipient(1), recipient(2));
    let plan = plan_authorization(
        &policy(&[&a, &b]),
        &RecipientMutation::Remove(vec![b.clone()]),
        &[file(".env", Some(&[&a, &b]))],
    )
    .expect("plan");
    assert_eq!(plan.desired_recipients, vec![a]);
    assert!(plan.manifest_changed);
    assert_eq!(plan.files[0].1, ConvergenceAction::Rotate);
    assert_eq!(plan.grants, vec![GrantEcho::Removed(b)]);
}

#[test]
fn removing_a_ciphertext_only_recipient_converges_removal_drift() {
    let (a, b) = (recipient(1), recipient(2));
    let plan = plan_authorization(
        &policy(&[&a]),
        &RecipientMutation::Remove(vec![b.clone()]),
        &[file(".env", Some(&[&a, &b]))],
    )
    .expect("plan");
    assert!(!plan.manifest_changed);
    assert_eq!(plan.files[0].1, ConvergenceAction::Rotate);
    assert_eq!(plan.grants, vec![GrantEcho::RemovedFromCiphertext(b)]);
}

#[test]
fn remove_rejects_unknown_recipients_and_an_emptied_policy() {
    let (a, b, unknown) = (recipient(1), recipient(2), recipient(9));
    assert_eq!(
        plan_authorization(
            &policy(&[&a, &b]),
            &RecipientMutation::Remove(vec![unknown.clone()]),
            &[file(".env", Some(&[&a, &b]))],
        ),
        Err(AuthorizationRejection::RemoveNotMember(unknown.clone()))
    );
    assert_eq!(
        plan_authorization(
            &policy(&[&a]),
            &RecipientMutation::Remove(vec![a.clone()]),
            &[file(".env", Some(&[&a]))],
        ),
        Err(AuthorizationRejection::EmptyPolicy)
    );
}

#[test]
fn remove_rejects_an_unexplained_manifest_addition() {
    // The attacker added `injected` to the manifest; a removal of `b`
    // must not silently wrap the data key to `injected`.
    let (a, b, injected) = (recipient(1), recipient(2), recipient(9));
    assert_eq!(
        plan_authorization(
            &policy(&[&a, &b, &injected]),
            &RecipientMutation::Remove(vec![b.clone()]),
            &[file(".env", Some(&[&a, &b]))],
        ),
        Err(AuthorizationRejection::UnexplainedAddition {
            path: ManagedPath::new(".env").expect("managed path"),
            recipient: injected,
        })
    );
}

#[test]
fn duplicate_argv_recipients_are_rejected() {
    let a = recipient(1);
    let b = recipient(2);
    assert_eq!(
        plan_authorization(
            &policy(&[&a]),
            &RecipientMutation::Add(vec![b.clone(), b.clone()]),
            &[],
        ),
        Err(AuthorizationRejection::DuplicateRequest(b))
    );
}

#[test]
fn entries_without_ciphertext_only_change_the_manifest() {
    let (a, b) = (recipient(1), recipient(2));
    let plan = plan_authorization(
        &policy(&[&a]),
        &RecipientMutation::Add(vec![b]),
        &[file(".env", None)],
    )
    .expect("plan");
    assert!(plan.manifest_changed);
    assert!(plan.files.is_empty());
}
