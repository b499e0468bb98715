//! Positions, ranges, diagnostics, and the diagnostic-carrying result type.

use renlang::diag::{DiagResult, Diagnostic, DiagnosticLevel, FilePosition, FileRange};
use renlang::semantic::{compilation_failed, count_at, count_at_least, filter_diagnostics};

fn pos(line: usize, column: usize) -> FilePosition {
    FilePosition::new("m.ren".to_string(), (line, column))
}

#[test]
fn compute_range_single_line() {
    let p = pos(3, 5);
    let r = p.compute_range("hello");
    assert_eq!(r.start, (3, 5));
    assert_eq!(r.end, (3, 9));
    assert_eq!(r.path, "m.ren".to_string());
}

#[test]
fn compute_range_multi_line() {
    let p = pos(1, 4);
    // two counted breaks; three characters follow the last one
    let r = p.compute_range("ab\ncd\nefg");
    assert_eq!(r.start, (1, 4));
    assert_eq!(r.end, (3, 3));
}

#[test]
fn compute_range_trailing_newline_belongs_to_last_line() {
    let p = pos(0, 0);
    // the trailing newline is not counted as a break
    let r = p.compute_range("ab\ncd\n");
    assert_eq!(r.end, (1, 3));
}

#[test]
fn compute_range_single_char() {
    let p = pos(2, 2);
    let r = p.compute_range("x");
    assert_eq!(r.end, (2, 2));
}

#[test]
fn next_line_and_column() {
    let p = pos(1, 7);
    assert_eq!(p.next_line().position, (2, 0));
    assert_eq!(p.next_column().position, (1, 8));
}

#[test]
fn merge_takes_earliest_start_and_latest_end() {
    let a = FileRange::new("m.ren".to_string(), (1, 4), (2, 0));
    let b = FileRange::new("m.ren".to_string(), (0, 9), (1, 5));
    let m = a.merge(&b);
    assert_eq!(m.start, (0, 9));
    assert_eq!(m.end, (2, 0));
    // merging is symmetric on the endpoints it picks
    let m2 = b.merge(&a);
    assert_eq!(m2.start, (0, 9));
    assert_eq!(m2.end, (2, 0));
}

#[test]
fn merge_same_line_compares_columns() {
    let a = FileRange::new("m.ren".to_string(), (1, 4), (1, 6));
    let b = FileRange::new("m.ren".to_string(), (1, 2), (1, 9));
    let m = a.merge(&b);
    assert_eq!(m.start, (1, 2));
    assert_eq!(m.end, (1, 9));
}

#[test]
fn diagnostic_defaults_to_error_and_with_level_replaces() {
    let d = Diagnostic::new("boom".to_string(), FileRange::new("m.ren".to_string(), (0, 0), (0, 1)));
    assert!(matches!(d.level, DiagnosticLevel::Error));
    let d2 = d.with_level(DiagnosticLevel::Warning);
    assert!(matches!(d2.level, DiagnosticLevel::Warning));
    assert_eq!(d2.message, "boom".to_string());
}

#[test]
fn diagnostic_from_position_covers_one_point() {
    let d = Diagnostic::new_from_position("msg".to_string(), pos(4, 2));
    assert_eq!(d.location.start, (4, 2));
    assert_eq!(d.location.end, (4, 2));
}

#[test]
fn severity_is_totally_ordered() {
    assert!(DiagnosticLevel::Verbose.severity() < DiagnosticLevel::Message.severity());
    assert!(DiagnosticLevel::Message.severity() < DiagnosticLevel::Warning.severity());
    assert!(DiagnosticLevel::Warning.severity() < DiagnosticLevel::Error.severity());
    assert!(DiagnosticLevel::Error.severity() < DiagnosticLevel::Fatal.severity());
    assert!(DiagnosticLevel::Fatal.at_least(DiagnosticLevel::Error));
    assert!(!DiagnosticLevel::Message.at_least(DiagnosticLevel::Warning));
}

#[test]
fn diag_result_ok_has_value_and_no_diagnostics() {
    let r: DiagResult<u32> = DiagResult::ok(7);
    assert!(r.is_ok());
    assert_eq!(r.value, Some(7));
    assert_eq!(r.diagnostics.len(), 0);
}

fn sample_diags() -> Vec<Diagnostic> {
    let loc = FileRange::new("m.ren".to_string(), (0, 0), (0, 1));
    vec![
        Diagnostic::new("e1".to_string(), loc.duplicate()),
        Diagnostic::new("w1".to_string(), loc.duplicate()).with_level(DiagnosticLevel::Warning),
        Diagnostic::new("v1".to_string(), loc.duplicate()).with_level(DiagnosticLevel::Verbose),
        Diagnostic::new("f1".to_string(), loc).with_level(DiagnosticLevel::Fatal),
    ]
}

#[test]
fn filter_keeps_only_at_or_above_minimum() {
    let diags = sample_diags();
    let kept = filter_diagnostics(&diags, DiagnosticLevel::Warning);
    assert_eq!(kept.len(), 3);
    assert_eq!(kept[0].message, "e1".to_string());
    assert_eq!(kept[1].message, "w1".to_string());
    assert_eq!(kept[2].message, "f1".to_string());
}

#[test]
fn counting_levels() {
    let diags = sample_diags();
    assert_eq!(count_at_least(&diags, DiagnosticLevel::Error), 2);
    assert_eq!(count_at(&diags, DiagnosticLevel::Warning), 1);
    assert!(compilation_failed(&diags));
    let warnings_only = vec![sample_diags().remove(1)];
    assert!(!compilation_failed(&warnings_only));
}
