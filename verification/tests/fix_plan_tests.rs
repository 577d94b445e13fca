use elm_assist::fix::FixError;
use elm_assist::fix_plan::{fix_answer, plan_file_fix, FilePlan, FixAnswer};
use elm_assist::lint_export::{finding_record, finding_records};
use elm_assist::rule::{Edit, Fix, LintError, Position, Severity, Span};

const SRC: &str = "module Main exposing (..)\n\n\nx =\n    1\n";

fn span(start: usize, end: usize) -> Span {
    Span {
        start: Position { offset: start, line: 4, column: 1 },
        end: Position { offset: end, line: 4, column: 2 },
    }
}

#[test]
fn prompt_answers() {
    assert_eq!(fix_answer("q"), FixAnswer::Quit);
    assert_eq!(fix_answer("y"), FixAnswer::Apply);
    assert_eq!(fix_answer("yes"), FixAnswer::Apply);
    assert_eq!(fix_answer("n"), FixAnswer::Skip);
    assert_eq!(fix_answer(""), FixAnswer::Skip);
}

#[test]
fn file_plan_for_each_outcome() {
    assert!(matches!(plan_file_fix("src/Main.elm", SRC, &Vec::new()), FilePlan::NothingToDo));
    let x = SRC.find("x =").unwrap();
    let rename = vec![Edit::Replace { span: span(x, x + 1), replacement: "y".into() }];
    match plan_file_fix("src/Main.elm", SRC, &rename) {
        FilePlan::Write(t) => assert!(t.contains("y =")),
        other => panic!("unexpected plan {other:?}"),
    }
    let breaks = vec![Edit::Remove { span: span(0, 6) }];
    assert!(matches!(plan_file_fix("src/Main.elm", SRC, &breaks), FilePlan::InvalidElm));
    let overlapping = vec![
        Edit::Remove { span: span(0, 5) },
        Edit::Remove { span: span(3, 8) },
    ];
    assert!(matches!(
        plan_file_fix("src/Main.elm", SRC, &overlapping),
        FilePlan::NotApplied(FixError::OverlappingEdits)
    ));
}

#[test]
fn export_records_carry_the_finding() {
    let err = LintError {
        rule: "NoDebug".into(),
        severity: Severity::Warning,
        message: "debug call".into(),
        span: Span {
            start: Position { offset: 3, line: 2, column: 5 },
            end: Position { offset: 8, line: 2, column: 10 },
        },
        fix: Some(Fix { edits: Vec::new() }),
    };
    let r = finding_record(&"src/A.elm".to_string(), &err);
    assert_eq!(r.file, "src/A.elm");
    assert_eq!((r.line, r.column, r.end_line, r.end_column), (2, 5, 2, 10));
    assert_eq!(r.rule, "NoDebug");
    assert_eq!(r.severity, "warning");
    assert_eq!(r.message, "debug call");
    assert!(r.fixable);
    let all = finding_records(&vec![("src/A.elm".to_string(), err)]);
    assert_eq!(all.len(), 1);
}
