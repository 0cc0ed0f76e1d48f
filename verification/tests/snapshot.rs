use test_lang::Snapshot;

#[derive(Debug)]
#[allow(dead_code)]
struct Node {
    kind: u8,
}

#[test]
fn test_new_normalizes_crlf_to_lf() {
    assert_eq!(Snapshot::new("a\r\nb").as_str(), "a\nb");
}

#[test]
fn test_new_normalizes_lone_cr() {
    assert_eq!(Snapshot::new("a\rb").as_str(), "a\nb");
}

#[test]
fn test_new_strips_trailing_whitespace_per_line() {
    assert_eq!(Snapshot::new("a \t\nb  ").as_str(), "a\nb");
}

#[test]
fn test_new_strips_trailing_newlines() {
    assert_eq!(Snapshot::new("a\nb\n\n\n").as_str(), "a\nb");
}

#[test]
fn test_new_preserves_interior_blank_lines() {
    assert_eq!(Snapshot::new("a\n\nb").as_str(), "a\n\nb");
}

#[test]
fn test_new_preserves_leading_indentation() {
    assert_eq!(Snapshot::new("    indented").as_str(), "    indented");
}

#[test]
fn test_new_empty_input_is_empty() {
    assert_eq!(Snapshot::new("").as_str(), "");
    assert_eq!(Snapshot::new("\n\n").as_str(), "");
}

#[test]
fn test_display_renders_value() {
    assert_eq!(Snapshot::display(&123).as_str(), "123");
}

#[test]
fn test_debug_uses_pretty_form() {
    let snap = Snapshot::debug(&Node { kind: 7 });
    assert!(snap.as_str().contains("kind: 7"));
}

#[test]
fn test_per_line_joins_with_newlines() {
    assert_eq!(Snapshot::per_line(&["a", "b", "c"]).as_str(), "a\nb\nc");
}

#[test]
fn test_per_line_empty_is_empty() {
    let empty: [&str; 0] = [];
    assert_eq!(Snapshot::per_line(&empty).as_str(), "");
}

#[test]
fn test_check_matching_returns_ok() {
    assert!(Snapshot::new("a\nb").check("a\nb").is_ok());
}

#[test]
fn test_check_matching_ignores_trailing_newline_difference() {
    assert!(Snapshot::new("a\nb").check("a\nb\n").is_ok());
}

#[test]
fn test_check_matching_ignores_line_ending_difference() {
    assert!(Snapshot::new("a\nb").check("a\r\nb").is_ok());
}

#[test]
fn test_check_mismatch_returns_err() {
    let err = Snapshot::new("a\nb").check("a\nc").unwrap_err();
    assert!(err.to_string().contains("-c"));
    assert!(err.to_string().contains("+b"));
}

#[test]
fn test_check_mismatch_header_present() {
    let err = Snapshot::new("x").check("y").unwrap_err();
    assert!(err.to_string().starts_with("snapshot mismatch"));
}

#[test]
fn test_mismatch_diff_accessor() {
    let err = Snapshot::new("a").check("b").unwrap_err();
    assert!(!err.diff().is_empty());
}

#[test]
fn test_display_impl_matches_as_str() {
    let snap = Snapshot::new("a\nb");
    assert_eq!(snap.to_string(), snap.as_str());
}
