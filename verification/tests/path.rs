use gitveil::confine::{Walk, WalkAction, WalkEvent};
use gitveil::manifest_document::FileKind;
use gitveil::path::{ManagedPath, PathError};
use gitveil::profile::{ProfileError, ProfileName};

#[test]
fn leading_colon_is_rejected_before_git_can_apply_pathspec_magic() {
    assert_eq!(
        ManagedPath::new(":secret.env"),
        Err(PathError::GitPathspecMagic)
    );
}

#[test]
fn case_collision_key_unifies_case_and_unicode_normalization() {
    let composed = ManagedPath::new("CAFÉ.env").expect("composed path");
    let decomposed = ManagedPath::new("cafe\u{301}.env").expect("decomposed path");
    assert_eq!(
        composed.case_collision_key(),
        decomposed.case_collision_key()
    );
}

#[test]
fn collision_keys_are_normalized_and_lowered() {
    let path = ManagedPath::new("Cafe\u{301}/A.env").expect("path");
    assert_eq!(path.case_collision_key(), "café/a.env");
}

#[test]
fn escaping_paths_are_refused() {
    assert_eq!(ManagedPath::new(""), Err(PathError::Empty));
    for value in ["/etc/passwd", "../a", "a/../b", "a//b", "./a", ".git/config", "a\nb", "a*"] {
        assert!(ManagedPath::new(value).is_err(), "{value:?}");
    }
    for value in ["a", "a/b.env", ".env", "a b.env"] {
        assert_eq!(
            ManagedPath::new(value).map(|path| path.into_string()),
            Ok(value.to_owned())
        );
    }
}

#[test]
fn profile_names_are_kebab_case() {
    assert_eq!(ProfileName::default().as_str(), "default");
    assert!(ProfileName::new("dev-1").is_ok());
    for value in ["", "Dev", "1dev", "a_b"] {
        assert_eq!(
            ProfileName::new(value),
            Err(ProfileError::InvalidName(value.to_owned()))
        );
    }
    assert!(ProfileName::new(&"a".repeat(64)).is_ok());
    assert!(ProfileName::new(&"a".repeat(65)).is_err());
}

#[test]
fn a_walk_opens_every_parent_before_the_leaf() {
    let path = ManagedPath::new("a/b/.env").expect("path");
    let (walk, action) = Walk::start(&path);
    assert!(matches!(action, WalkAction::OpenDirectory(name) if name == "a"));
    let (walk, action) = walk.next(WalkEvent::Opened(FileKind::Directory));
    assert!(matches!(action, WalkAction::ProbeBoundary));
    let (walk, action) = walk.next(WalkEvent::Boundary(false));
    assert!(matches!(action, WalkAction::OpenDirectory(name) if name == "b"));
    let (walk, _) = walk.next(WalkEvent::Opened(FileKind::Directory));
    let (walk, action) = walk.next(WalkEvent::Boundary(false));
    assert!(matches!(action, WalkAction::OpenLeaf(name) if name == ".env"));
    let (_, action) = walk.next(WalkEvent::Opened(FileKind::Regular));
    assert!(matches!(action, WalkAction::Found));
}

#[test]
fn a_walk_refuses_links_and_submodules() {
    let path = ManagedPath::new("a/.env").expect("path");
    let refusal = |event: WalkEvent| {
        let (walk, _) = Walk::start(&path);
        match walk.next(event).1 {
            WalkAction::Refuse(error) => error.message().to_owned(),
            other => panic!("unexpected {other:?}"),
        }
    };
    assert!(refusal(WalkEvent::Boundary(true)).ends_with("submodule boundary is not allowed"));
    assert!(refusal(WalkEvent::Opened(FileKind::Other))
        .ends_with("managed parent is not a directory"));
    assert!(refusal(WalkEvent::OpenFailed("loop".to_owned()))
        .ends_with("component cannot be opened without following links: loop"));
    let (walk, _) = Walk::start(&path);
    assert!(matches!(
        walk.next(WalkEvent::Absent).1,
        WalkAction::Missing
    ));
}
