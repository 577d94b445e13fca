use elm_assist::lint_result::{apply_rule_severity, LintResult};
use elm_assist::rule::{Edit, Fix, LintError, Position, Severity, Span};

fn finding(rule: &str, severity: Severity, fixable: bool) -> LintError {
    let span = Span {
        start: Position { offset: 0, line: 1, column: 1 },
        end: Position { offset: 1, line: 1, column: 2 },
    };
    LintError {
        rule: rule.to_string(),
        severity,
        message: "m".to_string(),
        span,
        fix: if fixable { Some(Fix { edits: vec![Edit::Remove { span }] }) } else { None },
    }
}

#[test]
fn results_are_ordered_by_path_with_totals() {
    let results = vec![
        ("src/B.elm".to_string(), "b".to_string(), vec![finding("R", Severity::Warning, true)]),
        ("src/C.elm".to_string(), "c".to_string(), vec![]),
        (
            "src/A.elm".to_string(),
            "a".to_string(),
            vec![finding("R", Severity::Error, false), finding("S", Severity::Error, true)],
        ),
    ];
    let r = LintResult::from_file_results(results, 2, 3, 4, 17);
    let paths: Vec<&str> = r.file_errors.iter().map(|(p, _)| p.as_str()).collect();
    assert_eq!(paths, vec!["src/A.elm", "src/B.elm"]);
    let sources: Vec<(&str, &str)> = r.sources.iter().map(|(p, s)| (p.as_str(), s.as_str())).collect();
    assert_eq!(sources, vec![("src/A.elm", "a"), ("src/B.elm", "b"), ("src/C.elm", "c")]);
    assert_eq!(r.total_errors, 3);
    assert_eq!(r.total_warnings, 1);
    assert_eq!(r.total_fixable, 2);
    assert!(!r.cached);
    assert_eq!((r.parse_error_count, r.files_linted, r.rules_active, r.elapsed_ns), (2, 3, 4, 17));
}

#[test]
fn configured_severity_overrides_default() {
    let mut errs = vec![finding("R", Severity::Error, false), finding("R", Severity::Warning, false)];
    apply_rule_severity(&mut errs, Some(Severity::Warning), Severity::Error);
    assert!(errs.iter().all(|e| e.severity == Severity::Warning));
    apply_rule_severity(&mut errs, None, Severity::Error);
    assert!(errs.iter().all(|e| e.severity == Severity::Error));
}

#[test]
fn a_file_listed_twice_keeps_its_last_listing() {
    let results = vec![
        ("src/A.elm".to_string(), "first".to_string(), vec![finding("R", Severity::Error, false)]),
        ("src/B.elm".to_string(), "b".to_string(), vec![]),
        ("src/A.elm".to_string(), "second".to_string(), vec![finding("S", Severity::Warning, false)]),
        ("src/A.elm".to_string(), "third".to_string(), vec![]),
    ];
    let r = LintResult::from_file_results(results, 0, 4, 1, 0);
    assert_eq!(r.total_errors, 2);
    assert_eq!(r.total_warnings, 1);
    let sources: Vec<(&str, &str)> = r.sources.iter().map(|(p, s)| (p.as_str(), s.as_str())).collect();
    assert_eq!(sources, vec![("src/A.elm", "third"), ("src/B.elm", "b")]);
    assert_eq!(r.file_errors.len(), 1);
    assert_eq!(r.file_errors[0].0, "src/A.elm");
    assert_eq!(r.file_errors[0].1[0].rule, "S");
}

#[test]
fn elapsed_time_rounds_to_the_nearest_millisecond() {
    let at = |ns: u64| LintResult::from_file_results(Vec::new(), 0, 0, 0, ns).elapsed_whole_ms();
    assert_eq!(at(0), 0);
    assert_eq!(at(1_400_000), 1);
    assert_eq!(at(1_600_000), 2);
    assert_eq!(at(1_500_000), 2);
    assert_eq!(at(2_500_000), 2);
    assert_eq!(at(2_500_001), 3);
    assert_eq!(at(499_999), 0);
}
