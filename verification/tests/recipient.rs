use gitveil::recipient::{
    set_diff, AgeRecipient, AgeRecipientPolicy, PolicyName, RecipientAction, RecipientError,
    RecipientSetDiff,
};

#[test]
fn set_diff_action_rotates_on_any_removal_and_rewraps_on_additions_only() {
    let drift = |added, removed| RecipientSetDiff { added, removed };
    assert_eq!(drift(0, 0).action(), RecipientAction::Aligned);
    assert_eq!(drift(1, 0).action(), RecipientAction::Rewrap);
    assert_eq!(drift(0, 1).action(), RecipientAction::Rotate);
    // Mixed additions and removals (including a policy switch) rotate.
    assert_eq!(drift(2, 1).action(), RecipientAction::Rotate);
}

/// HRP `age`, 32-byte payload, bech32 checksum: the only shape age accepts.
const CANONICAL: &str = "age1qyqszqgpqyqszqgpqyqszqgpqyqszqgpqyqszqgpqyqszqgpqyqs3290gq";
/// Same HRP and payload as `CANONICAL` but carrying a bech32m checksum.
const BECH32M_CHECKSUM: &str = "age1qyqszqgpqyqszqgpqyqszqgpqyqszqgpqyqszqgpqyqsyk4rdz";
const PAYLOAD_31_BYTES: &str = "age1qyqszqgpqyqszqgpqyqszqgpqyqszqgpqyqszqgpqyqszqgpqyqpeaer";
const PAYLOAD_33_BYTES: &str = "age1qyqszqgpqyqszqgpqyqszqgpqyqszqgpqyqszqgpqyqszqgpqyqsz3hjx6d";
const FOREIGN_HRP: &str = "notage1qyqszqgpqyqszqgpqyqszqgpqyqszqgpqyqszqgpqyqszqgpqyqsuc2584";

#[test]
fn accepts_a_canonical_age_recipient_and_preserves_its_encoding() {
    let recipient = AgeRecipient::new(CANONICAL).expect("canonical age recipient");
    assert_eq!(recipient.as_str(), CANONICAL);
}

#[test]
fn rejects_a_bech32m_checksum() {
    assert_eq!(
        AgeRecipient::new(BECH32M_CHECKSUM),
        Err(RecipientError::InvalidAgeRecipient)
    );
}

#[test]
fn rejects_a_payload_that_is_not_an_x25519_public_key() {
    for value in [PAYLOAD_31_BYTES, PAYLOAD_33_BYTES] {
        assert_eq!(
            AgeRecipient::new(value),
            Err(RecipientError::InvalidAgeRecipient),
            "must reject a {value} payload that is not 32 bytes"
        );
    }
}

#[test]
fn rejects_a_human_readable_part_other_than_age() {
    assert_eq!(
        AgeRecipient::new(FOREIGN_HRP),
        Err(RecipientError::InvalidAgeRecipient)
    );
}

#[test]
fn rejects_a_non_canonical_uppercase_encoding() {
    assert_eq!(
        AgeRecipient::new(&CANONICAL.to_uppercase()),
        Err(RecipientError::NonCanonicalAgeRecipient)
    );
}

#[test]
fn rejects_a_value_that_is_not_bech32_at_all() {
    assert_eq!(
        AgeRecipient::new("not-an-age-recipient"),
        Err(RecipientError::InvalidAgeRecipient)
    );
}

#[test]
fn policies_hold_distinct_recipients() {
    let recipient = AgeRecipient::new(CANONICAL).expect("recipient");
    let name = PolicyName::new("team").expect("name");
    assert_eq!(
        AgeRecipientPolicy::new(name.clone(), vec![]),
        Err(RecipientError::EmptyPolicy)
    );
    assert_eq!(
        AgeRecipientPolicy::new(name.clone(), vec![recipient.clone(), recipient.clone()]),
        Err(RecipientError::DuplicateAgeRecipient)
    );
    let policy = AgeRecipientPolicy::new(name, vec![recipient.clone()]).expect("policy");
    assert!(policy.matches(&[recipient.clone()]));
    assert!(!policy.matches(&[]));
    assert_eq!(
        set_diff(policy.recipients(), &[]),
        RecipientSetDiff {
            added: 1,
            removed: 0
        }
    );
    assert_eq!(
        PolicyName::new("Team"),
        Err(RecipientError::InvalidPolicyName)
    );
}
