use elm_assist::fix_order::{fix_edits_in_order, position_order};
use elm_assist::rule::{Edit, Fix, LintError, Position, Severity, Span};

fn at(line: u32, column: u32, rule: &str, fix_text: Option<&str>) -> LintError {
    let span = Span {
        start: Position { offset: 0, line, column },
        end: Position { offset: 1, line, column: column + 1 },
    };
    LintError {
        rule: rule.to_string(),
        severity: Severity::Warning,
        message: String::new(),
        span,
        fix: fix_text.map(|t| Fix { edits: vec![Edit::Replace { span, replacement: t.to_string() }] }),
    }
}

#[test]
fn findings_are_ordered_by_line_then_column() {
    let errors = vec![at(3, 1, "a", None), at(1, 5, "b", None), at(1, 2, "c", None), at(2, 9, "d", None)];
    assert_eq!(position_order(&errors), vec![2, 1, 3, 0]);
}

#[test]
fn findings_at_the_same_position_keep_their_order() {
    let errors = vec![at(2, 1, "x", None), at(1, 1, "y", None), at(2, 1, "z", None), at(1, 1, "w", None)];
    assert_eq!(position_order(&errors), vec![1, 3, 0, 2]);
}

#[test]
fn fix_edits_follow_the_order_and_skip_unfixable_findings() {
    let errors = vec![at(5, 1, "a", Some("A")), at(1, 1, "b", None), at(2, 1, "c", Some("C"))];
    let order = position_order(&errors);
    let edits = fix_edits_in_order(&errors, &order);
    let texts: Vec<&str> = edits
        .iter()
        .map(|e| match e {
            Edit::Replace { replacement, .. } => replacement.as_str(),
            _ => "",
        })
        .collect();
    assert_eq!(texts, vec!["C", "A"]);
    assert!(position_order(&Vec::new()).is_empty());
}
