use elm_assist::lint_cache::{cached_to_lint_errors, lint_errors_to_cached, CachedError};
use elm_assist::rule::{Edit, Fix, LintError, Position, Severity, Span};

fn finding(rule: &str, severity: Severity, with_fix: bool) -> LintError {
    let span = Span {
        start: Position { offset: 4, line: 2, column: 3 },
        end: Position { offset: 9, line: 2, column: 8 },
    };
    LintError {
        rule: rule.to_string(),
        severity,
        message: format!("{rule} fired"),
        span,
        fix: if with_fix { Some(Fix { edits: vec![Edit::Remove { span }] }) } else { None },
    }
}

#[test]
fn stored_findings_keep_their_fields() {
    let files = vec![(
        "src/A.elm".to_string(),
        vec![finding("NoDebug", Severity::Error, true), finding("NoUnusedImports", Severity::Warning, false)],
    )];
    let cached = lint_errors_to_cached(&files);
    assert_eq!(cached.len(), 1);
    assert_eq!(cached[0].0, "src/A.elm");
    let first = &cached[0].1[0];
    assert_eq!(first.rule, "NoDebug");
    assert_eq!(first.severity, "error");
    assert_eq!((first.start_line, first.start_col, first.start_offset), (2, 3, 4));
    assert_eq!((first.end_line, first.end_col, first.end_offset), (2, 8, 9));
    assert!(first.fixable);
    assert_eq!(cached[0].1[1].severity, "warning");
    assert!(!cached[0].1[1].fixable);
}

#[test]
fn cached_findings_read_back_without_fixes() {
    let files = vec![
        ("src/A.elm".to_string(), vec![finding("NoDebug", Severity::Error, true)]),
        ("src/B.elm".to_string(), vec![finding("NoUnusedImports", Severity::Warning, false)]),
    ];
    let back = cached_to_lint_errors(&lint_errors_to_cached(&files));
    assert_eq!(back.len(), 2);
    for ((p1, e1), (p2, e2)) in files.iter().zip(back.iter()) {
        assert_eq!(p1, p2);
        assert_eq!(e1.len(), e2.len());
        for (a, b) in e1.iter().zip(e2.iter()) {
            assert_eq!(a.rule, b.rule);
            assert_eq!(a.severity, b.severity);
            assert_eq!(a.message, b.message);
            assert_eq!(a.span, b.span);
            assert!(b.fix.is_none());
        }
    }
}

#[test]
fn unknown_cached_severity_reads_as_warning() {
    let entry = CachedError {
        rule: "R".to_string(),
        message: "m".to_string(),
        severity: "bogus".to_string(),
        start_line: 1,
        start_col: 1,
        start_offset: 0,
        end_line: 1,
        end_col: 2,
        end_offset: 1,
        fixable: true,
    };
    let back = cached_to_lint_errors(&vec![("src/C.elm".to_string(), vec![entry])]);
    assert_eq!(back[0].1[0].severity, Severity::Warning);
    assert!(back[0].1[0].fix.is_none());
}
