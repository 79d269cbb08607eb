use gitveil::error::ErrorCategory;
use gitveil::git::discovery::discover;
use gitveil::git::ignore::{parse_ignore_matches, IgnoreMatch};
use gitveil::git::index::{index_object, tree_object, unmerged_paths};
use gitveil::path::ManagedPath;
use gitveil::version::{check_git, check_release};

#[test]
fn verbose_ignore_protocol_preserves_rule_evidence_and_non_matches() {
    let plaintext = ManagedPath::new(".env").expect("plaintext path");
    let ciphertext = ManagedPath::new(".env.gitveil").expect("ciphertext path");
    let requested = [plaintext.clone(), ciphertext.clone()];
    let output = b".gitignore\x001\x00/.env\x00.env\x00\x00\x00\x00.env.gitveil\x00";
    let matches = parse_ignore_matches(output, &requested).expect("ignore protocol");
    let Some(IgnoreMatch::Rule(rule)) = matches.get(&plaintext) else {
        panic!("plaintext rule")
    };
    assert_eq!(rule.source(), ".gitignore");
    assert_eq!(rule.line(), 1);
    assert_eq!(rule.pattern(), "/.env");
    assert!(rule.is_ignored());
    assert_eq!(matches.get(&ciphertext), Some(&IgnoreMatch::Unmatched));
}

#[test]
fn verbose_ignore_protocol_rejects_missing_or_unrequested_records() {
    let path = ManagedPath::new(".env").expect("path");
    let requested = [path];
    assert!(parse_ignore_matches(b"", &requested).is_err());
    assert!(parse_ignore_matches(b"\0\0\0other.env\0", &requested).is_err());
}

#[test]
fn objects_are_read_from_the_index_and_from_trees() {
    let oid = "0123456789abcdef0123456789abcdef01234567";
    let staged = format!("100644 {oid} 2\t.env.gitveil\0");
    assert_eq!(
        index_object(staged.as_bytes(), 2).expect("stage"),
        Some(oid.to_owned())
    );
    assert_eq!(index_object(staged.as_bytes(), 3).expect("stage"), None);
    let tree = format!("100644 blob {oid}\t.env.gitveil\0");
    assert_eq!(
        tree_object(tree.as_bytes()).expect("tree"),
        Some(oid.to_owned())
    );
    assert_eq!(tree_object(b"").expect("tree"), None);
    assert!(tree_object(b"garbage").is_err());
}

#[test]
fn unmerged_paths_are_matched_with_the_request() {
    let path = ManagedPath::new(".env.gitveil").expect("path");
    let other = ManagedPath::new("b.env.gitveil").expect("path");
    let oid = "0123456789abcdef0123456789abcdef01234567";
    let output = format!("100644 {oid} 1\t.env.gitveil\0100644 {oid} 2\t.env.gitveil\0");
    assert_eq!(
        unmerged_paths(output.as_bytes(), &[path.clone(), other]).expect("unmerged"),
        [path]
    );
}

#[test]
fn repositories_are_found_by_their_top_level() {
    let found = discover(true, Some(0), b"/repo\n.git/gitveil\n").expect("repository");
    assert_eq!(found.root, "/repo");
    assert_eq!(found.runtime, ".git/gitveil");
    assert!(discover(false, Some(128), b"").is_err());
}

#[test]
fn versions_are_checked() {
    assert!(check_git(true, b"git version 2.39.5\n").is_ok());
    let error = check_git(true, b"git version 2.19.0\n").expect_err("old");
    assert_eq!(error.category(), ErrorCategory::Dependency);
    assert!(check_git(true, b"git version 2.39.5 (Apple Git-154)\n").is_ok());
    assert!(check_release("SOPS", true, b"sops 3.13.3\n", (3, 13, 3), false).is_ok());
    assert!(check_release("SOPS", true, b"sops 3.13.4\n", (3, 13, 3), false).is_err());
    assert!(check_release("age-keygen", true, b"v1.3.1\n", (1, 3, 1), true).is_ok());
    assert!(check_release("age-keygen", true, b"v1.3.1-rc.1\n", (1, 3, 1), true).is_err());
    assert!(check_release("age-keygen", false, b"v1.3.1\n", (1, 3, 1), true).is_err());
}
