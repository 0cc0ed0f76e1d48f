use test_lang::{Change, Diff};

#[test]
fn test_diff_identical_is_empty() {
    assert!(Diff::lines("a\nb\nc", "a\nb\nc").is_empty());
}

#[test]
fn test_diff_empty_inputs_is_empty() {
    assert!(Diff::lines("", "").is_empty());
}

#[test]
fn test_diff_single_line_change_reports_both_sides() {
    let diff = Diff::lines("a\nb\nc", "a\nB\nc");
    let changes = diff.changes();
    assert_eq!(
        changes,
        vec![
            (Change::Equal, "a"),
            (Change::Delete, "b"),
            (Change::Insert, "B"),
            (Change::Equal, "c"),
        ]
    );
}

#[test]
fn test_diff_insertion_at_end() {
    let diff = Diff::lines("a\nb", "a\nb\nc");
    let inserted: Vec<_> = diff
        .changes()
        .into_iter()
        .filter(|(c, _)| *c == Change::Insert)
        .map(|(_, l)| l)
        .collect();
    assert_eq!(inserted, vec!["c"]);
}

#[test]
fn test_diff_deletion_at_start() {
    let diff = Diff::lines("a\nb\nc", "b\nc");
    let deleted: Vec<_> = diff
        .changes()
        .into_iter()
        .filter(|(c, _)| *c == Change::Delete)
        .map(|(_, l)| l)
        .collect();
    assert_eq!(deleted, vec!["a"]);
}

#[test]
fn test_diff_all_different() {
    let diff = Diff::lines("a\nb", "x\ny");
    assert!(!diff.is_empty());
    assert_eq!(
        diff.changes().into_iter().filter(|(c, _)| *c == Change::Delete).count(),
        2
    );
    assert_eq!(
        diff.changes().into_iter().filter(|(c, _)| *c == Change::Insert).count(),
        2
    );
}

#[test]
fn test_diff_expected_empty_all_insert() {
    let diff = Diff::lines("", "a\nb");
    let changes = diff.changes();
    assert_eq!(changes, vec![(Change::Insert, "a"), (Change::Insert, "b")]);
}

#[test]
fn test_diff_actual_empty_all_delete() {
    let diff = Diff::lines("a\nb", "");
    let changes = diff.changes();
    assert_eq!(changes, vec![(Change::Delete, "a"), (Change::Delete, "b")]);
}

#[test]
fn test_diff_display_uses_markers() {
    let diff = Diff::lines("a\nb", "a\nc");
    let rendered = diff.to_string();
    assert_eq!(rendered, " a\n-b\n+c");
}

#[test]
fn test_change_marker() {
    assert_eq!(Change::Equal.marker(), ' ');
    assert_eq!(Change::Delete.marker(), '-');
    assert_eq!(Change::Insert.marker(), '+');
}

#[test]
fn test_diff_preserves_common_prefix_and_suffix() {
    let diff = Diff::lines("head\nold\ntail", "head\nnew\ntail");
    let changes = diff.changes();
    assert_eq!(
        changes,
        vec![
            (Change::Equal, "head"),
            (Change::Delete, "old"),
            (Change::Insert, "new"),
            (Change::Equal, "tail"),
        ]
    );
}

#[test]
fn test_diff_lcs_finds_shared_middle() {
    // The shared "keep" line should be matched, not deleted-and-reinserted.
    let diff = Diff::lines("a\nkeep\nb", "x\nkeep\ny");
    assert_eq!(
        diff.changes().into_iter().filter(|(c, _)| *c == Change::Equal).count(),
        1
    );
}
