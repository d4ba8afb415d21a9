use focus_internals::changes::{change_report, is_lint, status_line_path, StatusLineError};

#[test]
fn status_lines_give_their_paths() {
    assert_eq!(status_line_path(" M src/BUILD"), Ok("src/BUILD".to_string()));
    assert_eq!(status_line_path("?? a\tb"), Ok("a".to_string()));
    assert_eq!(status_line_path("\x0cD  x.bzl \r"), Ok("x.bzl".to_string()));
    assert_eq!(status_line_path("   "), Err(StatusLineError::MissingStatus));
    assert_eq!(status_line_path(""), Err(StatusLineError::MissingStatus));
    assert_eq!(status_line_path("M"), Err(StatusLineError::MissingPath));
    for line in [" M a b", "x\u{a0}y z", "a\u{b}b c", "  "] {
        let expected = line.split_ascii_whitespace().nth(1).map(|s| s.to_string());
        assert_eq!(status_line_path(line).ok(), expected);
    }
}

#[test]
fn lint_runs_are_left_alone() {
    assert!(is_lint(&vec!["LINT".to_string(), "x".to_string()]));
    assert!(!is_lint(&vec!["build".to_string()]));
    assert!(!is_lint(&vec![]));
}

#[test]
fn change_reports() {
    let (m, c) = change_report(true, true);
    assert_eq!(c.0, 1);
    assert!(m.starts_with("Committed and uncommitted changes"));
    let (m, c) = change_report(true, false);
    assert_eq!(c.0, 1);
    assert!(m.starts_with("Committed changes"));
    let (m, c) = change_report(false, true);
    assert_eq!(c.0, 1);
    assert!(m.starts_with("Uncommitted changes"));
    let (m, c) = change_report(false, false);
    assert_eq!(c.0, 0);
    assert_eq!(m, "No changes to files affecting the build graph were detected");
}
