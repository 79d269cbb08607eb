use gitveil::baseline::{BaselineRecord, CipherSummary};
use gitveil::config::SourceFormat;
use gitveil::open::plan::{plan_open, OpenConflict, OpenPlan};
use gitveil::source::strict::{StrictNode, StrictSequence};
use gitveil::source::{parse, NodePath, SourceDocument};

const SALT: [u8; 32] = [3; 32];

fn capture(document: &SourceDocument) -> BaselineRecord {
    BaselineRecord::capture(document, &CipherSummary::empty(), SALT)
}

fn document(body: &str) -> SourceDocument {
    parse(SourceFormat::Dotenv, body.as_bytes(), Ok(vec![])).expect("document")
}

fn rendered(plan: &OpenPlan) -> String {
    String::from_utf8(
        plan.document
            .as_ref()
            .expect("plan document")
            .generate()
            .expect("generate"),
    )
    .expect("utf-8")
}

#[test]
fn missing_local_file_materializes_the_remote_document() {
    let remote = document("# hello\nA=1\n");
    let plan = plan_open(None, &remote, None);
    assert!(plan.conflicts.is_empty());
    assert_eq!(rendered(&plan), "# hello\nA=1\n");
}

#[test]
fn local_unsealed_edit_survives_when_remote_is_unchanged() {
    let base = document("A=1\nB=2\n");
    let baseline = capture(&base);
    let local = document("A=local\nB=2\n");
    let remote = document("A=1\nB=2\n");
    let plan = plan_open(Some(&local), &remote, Some(&baseline));
    assert!(plan.conflicts.is_empty());
    assert!(
        plan.document.is_none(),
        "nothing to write when the local file already holds the result"
    );
}

#[test]
fn stale_local_value_is_updated_from_the_remote_side() {
    let base = document("A=1\nB=2\n");
    let baseline = capture(&base);
    let local = document("A=1\nB=2\n");
    let remote = document("A=remote\nB=2\n");
    let plan = plan_open(Some(&local), &remote, Some(&baseline));
    assert!(plan.conflicts.is_empty());
    assert_eq!(rendered(&plan), "A=remote\nB=2\n");
}

#[test]
fn both_sides_changed_reports_a_conflict_and_keeps_local() {
    let base = document("A=1\n");
    let baseline = capture(&base);
    let local = document("A=local\n");
    let remote = document("A=remote\n");
    let plan = plan_open(Some(&local), &remote, Some(&baseline));
    assert_eq!(plan.conflicts, vec![OpenConflict::Key("A".to_owned())]);
    assert!(plan.document.is_none());
}

#[test]
fn remote_deletion_propagates_only_when_local_is_unchanged() {
    let base = document("A=1\nB=2\n");
    let baseline = capture(&base);

    // Local unchanged: deletion propagates.
    let local = document("A=1\nB=2\n");
    let remote = document("B=2\n");
    let plan = plan_open(Some(&local), &remote, Some(&baseline));
    assert!(plan.conflicts.is_empty());
    assert_eq!(rendered(&plan), "B=2\n");

    // Local modified: deletion is a conflict and the value survives.
    let local = document("A=local\nB=2\n");
    let plan = plan_open(Some(&local), &remote, Some(&baseline));
    assert_eq!(
        plan.conflicts,
        vec![OpenConflict::DeletedRemotely("A".to_owned())]
    );
    assert!(plan.document.is_none());
}

#[test]
fn local_deletion_survives_and_conflicts_with_remote_modification() {
    let base = document("A=1\nB=2\n");
    let baseline = capture(&base);

    // Remote unchanged: local deletion stands, nothing to write.
    let local = document("B=2\n");
    let remote = document("A=1\nB=2\n");
    let plan = plan_open(Some(&local), &remote, Some(&baseline));
    assert!(plan.conflicts.is_empty());
    assert!(plan.document.is_none());

    // Remote modified the deleted key: conflict, deletion kept.
    let remote = document("A=remote\nB=2\n");
    let plan = plan_open(Some(&local), &remote, Some(&baseline));
    assert_eq!(
        plan.conflicts,
        vec![OpenConflict::DeletedLocally("A".to_owned())]
    );
    assert!(plan.document.is_none());
}

#[test]
fn remote_additions_are_inserted_after_their_remote_predecessor() {
    let base = document("A=1\nC=3\n");
    let baseline = capture(&base);
    let local = document("A=1\nC=3\nLOCAL=x\n");
    let remote = document("A=1\n# for B\nB=2\nC=3\n");
    let plan = plan_open(Some(&local), &remote, Some(&baseline));
    assert!(plan.conflicts.is_empty(), "{:?}", plan.conflicts);
    assert_eq!(rendered(&plan), "A=1\n# for B\nB=2\nC=3\nLOCAL=x\n");
}

#[test]
fn remote_addition_without_a_present_predecessor_lands_deterministically() {
    let base = document("A=1\n");
    let baseline = capture(&base);
    let local = document("A=1\n");
    let remote = document("NEW=first\nA=1\nTAIL=last\n");
    let plan = plan_open(Some(&local), &remote, Some(&baseline));
    assert!(plan.conflicts.is_empty());
    // NEW has no preceding remote key, so it lands at the end; TAIL's
    // predecessor A exists, so it follows A.
    assert_eq!(rendered(&plan), "A=1\nTAIL=last\nNEW=first\n");
}

#[test]
fn remote_comment_change_travels_with_its_key() {
    let base = document("A=1\n");
    let baseline = capture(&base);
    let local = document("A=1\n");
    let remote = document("# production, do not touch\nA=1\n");
    let plan = plan_open(Some(&local), &remote, Some(&baseline));
    assert!(plan.conflicts.is_empty());
    assert_eq!(rendered(&plan), "# production, do not touch\nA=1\n");
}

#[test]
fn comment_changed_on_both_sides_conflicts_on_that_key() {
    let base = document("A=1\n");
    let baseline = capture(&base);
    let local = document("# local comment\nA=1\n");
    let remote = document("# remote comment\nA=1\n");
    let plan = plan_open(Some(&local), &remote, Some(&baseline));
    assert_eq!(plan.conflicts, vec![OpenConflict::Key("A".to_owned())]);
    assert!(plan.document.is_none());
}

#[test]
fn concurrent_additions_of_different_keys_merge_without_conflict() {
    let base = document("A=1\n");
    let baseline = capture(&base);
    let local = document("A=1\n# mine\nMINE=x\n");
    let remote = document("A=1\n# theirs\nTHEIRS=y\n");
    let plan = plan_open(Some(&local), &remote, Some(&baseline));
    assert!(plan.conflicts.is_empty(), "{:?}", plan.conflicts);
    assert_eq!(rendered(&plan), "A=1\n# theirs\nTHEIRS=y\n# mine\nMINE=x\n");
}

#[test]
fn residual_layout_changed_on_both_sides_keeps_local_and_reports() {
    let base = document("A=1\n# tail base\n");
    let baseline = capture(&base);
    let local = document("A=1\n# tail local\n");
    let remote = document("A=1\n# tail remote\n");
    let plan = plan_open(Some(&local), &remote, Some(&baseline));
    assert_eq!(plan.conflicts, vec![OpenConflict::Layout]);
    assert!(plan.document.is_none());
}

#[test]
fn conservative_mode_without_baseline_keeps_local_and_reports_disagreements() {
    let local = document("A=local\nONLY_LOCAL=x\n");
    let remote = document("A=remote\nNEW=y\n");
    let plan = plan_open(Some(&local), &remote, None);
    assert_eq!(plan.conflicts, vec![OpenConflict::Key("A".to_owned())]);
    // NEW still syncs down after its remote predecessor A; ONLY_LOCAL
    // survives; A keeps the local value.
    assert_eq!(rendered(&plan), "A=local\nNEW=y\nONLY_LOCAL=x\n");
}

#[test]
fn partial_conflict_still_applies_every_arbitrable_change() {
    let base = document("A=1\nB=2\nC=3\n");
    let baseline = capture(&base);
    let local = document("A=local\nB=2\nC=3\n");
    let remote = document("A=remote\nB=remote\nC=3\nD=4\n");
    let plan = plan_open(Some(&local), &remote, Some(&baseline));
    assert_eq!(plan.conflicts, vec![OpenConflict::Key("A".to_owned())]);
    assert_eq!(rendered(&plan), "A=local\nB=remote\nC=3\nD=4\n");
}

fn numbers(list: &[&str]) -> Result<Vec<StrictNode>, String> {
    let mut out = StrictSequence::new(&NodePath::root());
    for text in list {
        out = out.push(StrictNode::integer((*text).to_owned()));
    }
    Ok(vec![out.finish()])
}

#[test]
fn non_mapping_roots_use_whole_document_arbitration() {
    let base = parse(SourceFormat::Json, b"[1, 2]", numbers(&["1", "2"])).expect("base");
    let baseline = capture(&base);
    let local = parse(SourceFormat::Json, b"[1, 2]", numbers(&["1", "2"])).expect("local");
    let remote =
        parse(SourceFormat::Json, b"[1, 2, 3]", numbers(&["1", "2", "3"])).expect("remote");
    let plan = plan_open(Some(&local), &remote, Some(&baseline));
    assert!(plan.conflicts.is_empty());
    assert_eq!(
        String::from_utf8(
            plan.document
                .expect("document")
                .generate()
                .expect("generate")
        )
        .expect("utf-8"),
        // The JSON generator normalizes sequence roots; what matters is
        // that the remote document (data and layout) won wholesale.
        "[\n  1,\n  2,\n  3\n]"
    );
}
