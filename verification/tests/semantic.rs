use gitveil::semantic::diff::{diff, ChangeKind};
use gitveil::semantic::merge::{merge, MergeResult};
use gitveil::source::line_merge::merge_text_lines;
use gitveil::source::{Layout, LineEnding, Node, NodePath, Scalar};

fn text(value: &str) -> Node {
    Node::Scalar(Scalar::String(value.to_owned()))
}

fn mapping(entries: &[(&str, Node)]) -> Node {
    Node::Mapping(
        entries
            .iter()
            .map(|(key, value)| ((*key).to_owned(), value.clone()))
            .collect(),
    )
}

fn changes(before: &Node, after: &Node) -> Vec<(String, ChangeKind)> {
    diff(before, after)
        .iter()
        .map(|change| (change.path().to_text(), change.kind()))
        .collect()
}

#[test]
fn equal_values_have_no_changes() {
    let value = mapping(&[("a", text("1")), ("b", Node::Sequence(vec![text("x")]))]);
    assert!(diff(&value, &value.clone()).is_empty());
}

#[test]
fn changes_are_found_by_key() {
    let before = mapping(&[("a", text("1")), ("b", text("2")), ("c", text("3"))]);
    let after = mapping(&[("a", text("1")), ("b", text("x")), ("d", text("4"))]);
    let found = changes(&before, &after);
    assert_eq!(found.len(), 3);
    assert!(found.contains(&("b".to_owned(), ChangeKind::Modified)));
    assert!(found.contains(&("c".to_owned(), ChangeKind::Deleted)));
    assert!(found.contains(&("d".to_owned(), ChangeKind::Added)));
}

#[test]
fn both_sides_merge_where_they_differ_elsewhere() {
    let base = mapping(&[("a", text("1")), ("b", text("2"))]);
    let ours = mapping(&[("a", text("ours")), ("b", text("2"))]);
    let theirs = mapping(&[("a", text("1")), ("b", text("theirs"))]);
    match merge(&base, &ours, &theirs) {
        MergeResult::Merged(merged) => {
            assert!(merged.same(&mapping(&[("a", text("ours")), ("b", text("theirs"))])));
        }
        MergeResult::Conflict(_) => panic!("conflict"),
    }
}

#[test]
fn both_sides_of_one_value_are_a_conflict() {
    let base = mapping(&[("a", text("1"))]);
    let ours = mapping(&[("a", text("ours"))]);
    let theirs = mapping(&[("a", text("theirs"))]);
    match merge(&base, &ours, &theirs) {
        MergeResult::Merged(_) => panic!("merged"),
        MergeResult::Conflict(conflicts) => {
            assert_eq!(conflicts.len(), 1);
            assert_eq!(conflicts[0].path().to_text(), "a");
        }
    }
}

#[test]
fn the_same_change_on_both_sides_is_no_conflict() {
    let base = mapping(&[("a", text("1"))]);
    let side = mapping(&[("a", text("2")), ("b", text("3"))]);
    match merge(&base, &side, &side.clone()) {
        MergeResult::Merged(merged) => assert!(merged.same(&side)),
        MergeResult::Conflict(_) => panic!("conflict"),
    }
}

#[test]
fn changes_back_mirror_the_changes_there() {
    let before = mapping(&[
        ("a", text("1")),
        ("b", mapping(&[("x", text("2")), ("y", text("3"))])),
        ("c", text("4")),
    ]);
    let after = mapping(&[
        ("b", mapping(&[("y", text("3")), ("x", text("5")), ("z", text("6"))])),
        ("a", text("1")),
        ("d", text("7")),
    ]);
    let there = changes(&before, &after);
    let back = changes(&after, &before);
    assert_eq!(there.len(), 6);
    assert_eq!(back.len(), 6);
    for (path, kind) in there {
        let mirrored = match kind {
            ChangeKind::Added => ChangeKind::Deleted,
            ChangeKind::Deleted => ChangeKind::Added,
            kind => kind,
        };
        assert!(back.contains(&(path, mirrored)));
    }
}

#[test]
fn a_merge_does_not_depend_on_the_side() {
    let base = mapping(&[("a", text("1")), ("b", text("2"))]);
    let ours = mapping(&[("b", text("2")), ("a", text("x")), ("n", text("o"))]);
    let theirs = mapping(&[("a", text("y")), ("b", text("3")), ("n", text("t"))]);
    let places = |result: MergeResult| match result {
        MergeResult::Merged(_) => panic!("merged"),
        MergeResult::Conflict(list) => {
            let mut places: Vec<String> = list.iter().map(|c| c.path().to_text()).collect();
            places.sort();
            places
        }
    };
    assert_eq!(places(merge(&base, &ours, &theirs)), ["a", "n"]);
    assert_eq!(places(merge(&base, &theirs, &ours)), ["a", "n"]);
    let ours = mapping(&[("a", text("1")), ("b", text("2")), ("m", text("o"))]);
    let theirs = mapping(&[("a", text("1")), ("b", text("3")), ("n", text("t"))]);
    for (one, two) in [(&ours, &theirs), (&theirs, &ours)] {
        match merge(&base, one, two) {
            MergeResult::Merged(merged) => {
                assert!(diff(&merged, &mapping(&[
                    ("a", text("1")),
                    ("b", text("3")),
                    ("m", text("o")),
                    ("n", text("t")),
                ]))
                .iter()
                .all(|change| change.kind() == ChangeKind::OrderChanged));
            }
            MergeResult::Conflict(_) => panic!("conflict"),
        }
    }
}

#[test]
fn paths_are_written_with_keys_and_indices() {
    let path = NodePath::root().child_key("a").child_index(2).child_key("b");
    assert_eq!(path.to_text(), "a[2].b");
    assert_eq!(path.segments().len(), 3);
}

#[test]
fn values_are_found_and_removed_at_paths() {
    let mut value = mapping(&[("a", mapping(&[("b", text("1")), ("c", text("2"))]))]);
    let path = NodePath::root().child_key("a").child_key("b");
    assert!(value.at_path(&path).is_some());
    assert!(value.remove_at_path(&path));
    assert!(value.at_path(&path).is_none());
    assert!(!value.remove_at_path(&path));
    assert!(value.same(&mapping(&[("a", mapping(&[("c", text("2"))]))])));
}

#[test]
fn lines_merge_where_they_do_not_touch() {
    assert_eq!(
        merge_text_lines("a\nb\nc\nd\ne\n", "A\nb\nc\nd\ne\n", "a\nb\nc\nd\nE\n"),
        Some("A\nb\nc\nd\nE\n".to_owned())
    );
    assert_eq!(merge_text_lines("a\n", "b\n", "c\n"), None);
    assert_eq!(
        merge_text_lines("a\n", "b\n", "b\n"),
        Some("b\n".to_owned())
    );
}

#[test]
fn layouts_merge_by_their_parts() {
    let base = Layout::new(LineEnding::Lf, true);
    let ours = Layout::new(LineEnding::CrLf, true);
    let theirs = Layout::new(LineEnding::Lf, false);
    let merged = Layout::merge_three_way(&base, &ours, &theirs).expect("merged");
    assert_eq!(merged.line_ending(), LineEnding::CrLf);
    assert!(!merged.trailing_newline());
}

#[test]
fn no_scalar_is_shown() {
    assert!(!Scalar::String("secret".to_owned()).redacted().contains("secret"));
    assert!(!Scalar::Integer("1234".to_owned()).redacted().contains("1234"));
}
