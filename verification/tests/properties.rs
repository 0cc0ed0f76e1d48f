//! Concrete instances of the library's laws, edge cases of normalization and
//! of the diff, and exact renderings.

use test_lang::{Change, Diff, Snapshot};

/// The lines of one side of a diff: equal lines and the lines of `kind`.
fn side(diff: &Diff, kind: Change) -> String {
    let kept: Vec<&str> = diff
        .changes()
        .into_iter()
        .filter(|(c, _)| *c == Change::Equal || *c == kind)
        .map(|(_, line)| line)
        .collect();
    kept.join("\n")
}

#[test]
fn diff_reconstructs_both_sides() {
    let cases = [
        ("a\nb\nc", "b\nx\nc"),
        ("", "p\nq"),
        ("p\nq", ""),
        ("a\nb\na\nb", "b\na\nb\na"),
        ("x\n\ny", "\n\nx"),
    ];
    for (expected, actual) in cases {
        let diff = Diff::lines(expected, actual);
        assert_eq!(side(&diff, Change::Delete), expected);
        assert_eq!(side(&diff, Change::Insert), actual);
    }
}

#[test]
fn diff_is_empty_exactly_for_equal_texts() {
    assert!(Diff::lines("q\nr", "q\nr").is_empty());
    assert!(!Diff::lines("q\nr", "q\nr\n").is_empty());
    assert!(!Diff::lines("", "\n").is_empty());
    assert!(!Diff::lines("a", "").is_empty());
}

#[test]
fn diff_keeps_a_longest_common_subsequence() {
    // The longest common subsequence of these line sequences is `b d`.
    let diff = Diff::lines("a\nb\nc\nd", "b\nd\ne");
    let kept = diff
        .changes()
        .into_iter()
        .filter(|(c, _)| *c == Change::Equal)
        .count();
    assert_eq!(kept, 2);
}

#[test]
fn diff_deletes_before_inserting_on_ties() {
    let diff = Diff::lines("a\nb", "b\na");
    assert_eq!(
        diff.changes(),
        vec![
            (Change::Delete, "a"),
            (Change::Equal, "b"),
            (Change::Insert, "a"),
        ]
    );
}

#[test]
fn diff_of_changed_middle_with_shared_lines() {
    let diff = Diff::lines("h\na\nk\nb\nt", "h\nx\nk\ny\nt");
    assert_eq!(
        diff.changes(),
        vec![
            (Change::Equal, "h"),
            (Change::Delete, "a"),
            (Change::Insert, "x"),
            (Change::Equal, "k"),
            (Change::Delete, "b"),
            (Change::Insert, "y"),
            (Change::Equal, "t"),
        ]
    );
}

#[test]
fn diff_empty_line_against_nothing() {
    let diff = Diff::lines("\n", "");
    assert_eq!(diff.changes(), vec![(Change::Delete, ""), (Change::Delete, "")]);
}

#[test]
fn diff_rendering_of_empty_diff_is_empty() {
    assert_eq!(Diff::lines("", "").to_string(), "");
    assert_eq!(Diff::lines("x", "x").to_string(), " x");
}

#[test]
fn normalization_is_idempotent() {
    let inputs = [
        "a \t\r\nb\r\r\n\n  c  \n\n",
        "",
        "\r",
        "  \n\t\n",
        "é  \r\nü\t",
    ];
    for input in inputs {
        let once = Snapshot::new(input);
        let twice = Snapshot::new(once.as_str());
        assert_eq!(once.as_str(), twice.as_str());
    }
}

#[test]
fn normalization_edge_cases() {
    assert_eq!(Snapshot::new("a\r\r\nb").as_str(), "a\n\nb");
    assert_eq!(Snapshot::new("\r\n\r\n").as_str(), "");
    assert_eq!(Snapshot::new("  \n\t\n").as_str(), "");
    assert_eq!(Snapshot::new("é  \r\nü\t").as_str(), "é\nü");
    assert_eq!(Snapshot::new("x\n  \ny").as_str(), "x\n\ny");
    assert_eq!(Snapshot::new("\n\nx").as_str(), "\n\nx");
}

#[test]
fn snapshot_matches_its_own_text() {
    for input in ["a  \r\nb\n", "", "\n\n", "x\r\ry"] {
        let snap = Snapshot::new(input);
        assert!(snap.check(snap.as_str()).is_ok());
    }
}

#[test]
fn check_ok_iff_normalized_equal() {
    let pairs = [
        ("a\nb", "a\r\nb\n", true),
        ("a \nb", "a\nb  ", true),
        ("a\nb", "a\n\nb", false),
        ("", "\n\n\r\n", true),
        ("x", "X", false),
    ];
    for (a, b, same) in pairs {
        let sa = Snapshot::new(a);
        let sb = Snapshot::new(b);
        assert_eq!(sa.as_str() == sb.as_str(), same);
        assert_eq!(sa.check(sb.as_str()).is_ok(), same);
    }
}

#[test]
fn per_line_matches_newline_join() {
    let items = vec!["let".to_string(), "x".to_string(), "=".to_string()];
    let snap = Snapshot::per_line(&items);
    assert!(snap.check(&items.join("\n")).is_ok());
}

#[test]
fn per_line_normalizes_the_joined_items() {
    let snap = Snapshot::per_line(&["a  ", "b\r\n", ""]);
    assert_eq!(snap.as_str(), "a\nb");
}

#[test]
fn from_lines_joins_and_normalizes() {
    let lines = vec!["one\t".to_string(), "two".to_string(), String::new()];
    assert_eq!(Snapshot::from_lines(&lines).as_str(), "one\ntwo");
    assert_eq!(Snapshot::from_lines(&Vec::new()).as_str(), "");
}

#[test]
fn mismatch_renders_header_then_diff() {
    let err = Snapshot::new("x").check("y").unwrap_err();
    assert_eq!(err.to_string(), "snapshot mismatch (-expected +actual):\n-y\n+x");
}

#[test]
fn mismatch_diff_is_from_normalized_expected_to_snapshot() {
    let err = Snapshot::new("a\nb").check("a  \r\nc\n").unwrap_err();
    assert_eq!(
        err.diff().changes(),
        vec![
            (Change::Equal, "a"),
            (Change::Delete, "c"),
            (Change::Insert, "b"),
        ]
    );
}

#[test]
fn display_of_str_is_the_text() {
    assert_eq!(Snapshot::display(&"tok  \r\n").as_str(), "tok");
}

#[test]
fn snapshot_clone_keeps_text() {
    let snap = Snapshot::new("a\nb ");
    let copy = snap.clone();
    assert_eq!(copy.as_str(), "a\nb");
}

#[test]
fn clean_text_is_unchanged() {
    for text in ["    indented\n\n  x", "a\n\n\nb", "\tlead", ""] {
        assert_eq!(Snapshot::new(text).as_str(), text);
    }
}

#[test]
fn normalized_text_is_clean() {
    let snap = Snapshot::new("a \r\n\tb\t\r\r\n\n");
    let text = snap.as_str();
    assert!(!text.contains('\r'));
    assert!(!text.ends_with('\n'));
    assert!(text.split('\n').all(|l| !l.ends_with(' ') && !l.ends_with('\t')));
    assert_eq!(text, "a\n\tb");
}

/// A value whose formatting writes some text and then reports an error.
struct Faulty;

impl std::fmt::Display for Faulty {
    fn fmt(&self, f: &mut std::fmt::Formatter<'_>) -> std::fmt::Result {
        f.write_str("part")?;
        Err(std::fmt::Error)
    }
}

impl std::fmt::Debug for Faulty {
    fn fmt(&self, f: &mut std::fmt::Formatter<'_>) -> std::fmt::Result {
        f.write_str("dbg")?;
        Err(std::fmt::Error)
    }
}

#[test]
fn per_line_keeps_text_written_before_a_formatting_error() {
    let snap = Snapshot::per_line(&[Faulty, Faulty]);
    assert_eq!(snap.as_str(), "part\npart");
}

#[test]
fn debug_keeps_text_written_before_a_formatting_error() {
    assert_eq!(Snapshot::debug(&Faulty).as_str(), "dbg");
}

#[test]
fn trailing_line_ends_and_spaces_do_not_change_the_snapshot() {
    for base in ["a\nb", "", "x \r", "  y"] {
        let plain = Snapshot::new(base);
        for tail in ["\n", "\r\n", "\r", " ", "\t"] {
            let text = format!("{base}{tail}");
            assert_eq!(Snapshot::new(&text).as_str(), plain.as_str());
        }
    }
}

#[test]
fn diff_length_is_both_sides_less_kept_lines() {
    // Sides of 4 and 3 lines sharing `b d`: 4 + 3 - 2 entries.
    let diff = Diff::lines("a\nb\nc\nd", "b\nd\ne");
    assert_eq!(diff.changes().len(), 5);
}
