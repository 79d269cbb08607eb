use gitveil::config::SourceFormat;
use gitveil::resolve::plan::{plan_merge, MergePlan};
use gitveil::source::format::has_conflict_markers;
use gitveil::source::{parse, SourceDocument};

fn document(input: &[u8]) -> SourceDocument {
    parse(SourceFormat::Dotenv, input, Ok(vec![])).expect("document")
}

#[test]
fn different_data_and_layout_changes_produce_one_merged_document() {
    let base = document(b"# a base\nA=base-a\n# b base\nB=base-b\n");
    let ours = document(b"# a ours\nA=ours-a\n# b base\nB=base-b\n");
    let theirs = document(b"# a base\nA=base-a\n# b theirs\nB=theirs-b\n");

    let MergePlan::Merged(merged) = plan_merge(&base, &ours, &theirs, 7).expect("merge plan")
    else {
        panic!("different nodes should merge");
    };
    let generated = String::from_utf8(merged.generate().expect("generate")).expect("UTF-8");
    assert!(generated.contains("A=ours-a"));
    assert!(generated.contains("B=theirs-b"));
    assert!(generated.contains("# a ours"));
    assert!(generated.contains("# b theirs"));
}

#[test]
fn root_conflict_reports_path_and_builds_redacted_secret_document() {
    let base = document(b"A=base\n");
    let ours = document(b"A=ours-secret\n");
    let theirs = document(b"A=theirs-secret\n");

    let MergePlan::Conflict { path, document } =
        plan_merge(&base, &ours, &theirs, 5).expect("merge plan")
    else {
        panic!("same node should conflict");
    };
    assert_eq!(path.to_text(), "A");
    let text = String::from_utf8(document.copy_out()).expect("conflict UTF-8");
    assert!(text.contains("<<<<< ours"));
    assert!(text.contains("====="));
    assert!(text.contains(">>>>> theirs"));
    assert_eq!(document.describe(), "SecretBytes(<redacted>)");
}

#[test]
fn incompatible_layout_changes_conflict_at_root() {
    let base = document(b"# base\nA=value\n");
    let ours = document(b"# ours\nA=value\n");
    let theirs = document(b"# theirs\nA=value\n");

    let MergePlan::Conflict { path, .. } =
        plan_merge(&base, &ours, &theirs, 7).expect("merge plan")
    else {
        panic!("layout changes should conflict");
    };
    assert_eq!(path.to_text(), "$");
}

#[test]
fn marker_size_is_applied_without_entering_diagnostics() {
    let base = document(b"A=base\n");
    let ours = document(b"A=ours\n");
    let theirs = document(b"A=theirs\n");
    let MergePlan::Conflict { document, .. } =
        plan_merge(&base, &ours, &theirs, 3).expect("merge plan")
    else {
        panic!("conflict");
    };
    let text = String::from_utf8(document.copy_out()).expect("UTF-8");
    assert!(text.starts_with("<<< ours\n"));
    assert!(text.contains("\n===\n"));
    assert!(text.ends_with(">>> theirs\n"));
}

#[test]
fn a_conflict_document_cannot_be_read_as_source() {
    let base = document(b"A=base\n");
    let ours = document(b"A=ours\n");
    let theirs = document(b"A=theirs\n");
    let MergePlan::Conflict { document, .. } =
        plan_merge(&base, &ours, &theirs, 7).expect("merge plan")
    else {
        panic!("conflict");
    };
    let text = String::from_utf8(document.copy_out()).expect("UTF-8");
    assert_eq!(
        text,
        "<<<<<<< ours\nA=ours\n=======\nA=theirs\n>>>>>>> theirs\n"
    );
    assert!(has_conflict_markers(&text));
    assert!(parse(SourceFormat::Dotenv, text.as_bytes(), Ok(vec![])).is_err());
}

#[test]
fn a_change_on_one_side_is_taken() {
    let base = document(b"A=1\nB=2\n");
    let ours = document(b"A=1\nB=3\n");
    let MergePlan::Merged(merged) = plan_merge(&base, &ours, &base, 7).expect("merge plan") else {
        panic!("one change");
    };
    assert!(merged.semantic_eq(&ours));
}
