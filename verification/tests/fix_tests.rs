use elm_assist::fix::{apply_fixes, remove_line, FixError};
use elm_assist::rule::{Edit, Position, Span};

fn span(start: usize, end: usize) -> Span {
    Span {
        start: Position { offset: start, line: 1, column: 1 },
        end: Position { offset: end, line: 1, column: 1 },
    }
}

#[test]
fn single_replace() {
    let source = "hello world";
    let edits = vec![Edit::Replace { span: span(6, 11), replacement: "rust".into() }];
    let out = apply_fixes(source, &edits).expect("apply_fixes succeeds");
    assert_eq!(out.as_str(), "hello rust");
}

#[test]
fn single_remove() {
    let source = "hello world";
    let edits = vec![Edit::Remove { span: span(5, 11) }];
    let out = apply_fixes(source, &edits).expect("apply_fixes succeeds");
    assert_eq!(out.as_str(), "hello");
}

#[test]
fn single_insert_after() {
    let source = "hello world";
    let edits = vec![Edit::InsertAfter { span: span(5, 5), text: " beautiful".into() }];
    let out = apply_fixes(source, &edits).expect("apply_fixes succeeds");
    assert_eq!(out.as_str(), "hello beautiful world");
}

#[test]
fn multiple_non_overlapping() {
    let source = "aaa bbb ccc";
    let edits = vec![
        Edit::Replace { span: span(0, 3), replacement: "AAA".into() },
        Edit::Replace { span: span(8, 11), replacement: "CCC".into() },
    ];
    let out = apply_fixes(source, &edits).expect("apply_fixes succeeds");
    assert_eq!(out.as_str(), "AAA bbb CCC");
}

#[test]
fn overlapping_edits_rejected() {
    let source = "hello world";
    let edits = vec![
        Edit::Replace { span: span(0, 7), replacement: "hi".into() },
        Edit::Replace { span: span(5, 11), replacement: "there".into() },
    ];
    assert!(matches!(apply_fixes(source, &edits), Err(FixError::OverlappingEdits)));
}

#[test]
fn out_of_bounds_rejected() {
    let source = "hello";
    let edits = vec![Edit::Remove { span: span(0, 100) }];
    assert!(matches!(apply_fixes(source, &edits), Err(FixError::OutOfBounds)));
}

#[test]
fn empty_edits() {
    let source = "hello";
    let out = apply_fixes(source, &Vec::new()).expect("apply_fixes succeeds");
    assert_eq!(out.as_str(), "hello");
}

#[test]
fn remove_line_extends_past_newline() {
    let source = "line1\nline2\nline3";
    let edit = Edit::Remove { span: span(0, 5) };
    let extended = remove_line(source, &edit);
    let result = apply_fixes(source, &vec![extended]).expect("apply_fixes succeeds");
    assert_eq!(result.as_str(), "line2\nline3");
}

#[test]
fn edits_apply_in_offset_order_whatever_their_listing() {
    let source = "aaa bbb ccc";
    let edits = vec![
        Edit::Replace { span: span(8, 11), replacement: "CCC".into() },
        Edit::Replace { span: span(0, 3), replacement: "A".into() },
    ];
    assert_eq!(apply_fixes(source, &edits).unwrap(), "A bbb CCC");
}

#[test]
fn overlap_is_reported_before_bounds() {
    let source = "hello";
    let edits = vec![
        Edit::Remove { span: span(0, 50) },
        Edit::Remove { span: span(10, 60) },
    ];
    assert!(matches!(apply_fixes(source, &edits), Err(FixError::OverlappingEdits)));
}

#[test]
fn reversed_span_is_out_of_bounds() {
    let source = "hello";
    let edits = vec![Edit::Remove { span: span(3, 1) }];
    assert!(matches!(apply_fixes(source, &edits), Err(FixError::OutOfBounds)));
}

#[test]
fn multibyte_replacement_on_char_boundaries() {
    let source = "é = 1";
    let edits = vec![Edit::Replace { span: span(0, 2), replacement: "ü".into() }];
    assert_eq!(apply_fixes(source, &edits).unwrap(), "ü = 1");
}

#[test]
fn remove_line_without_trailing_newline_keeps_end() {
    let source = "line1";
    let edit = Edit::Remove { span: span(0, 5) };
    match remove_line(source, &edit) {
        Edit::Remove { span } => assert_eq!(span.end.offset, 5),
        _ => panic!("expected a removal"),
    }
}

#[test]
fn fix_error_descriptions() {
    assert_eq!(FixError::OverlappingEdits.describe(), "overlapping edits");
    assert_eq!(FixError::OutOfBounds.describe(), "edit span out of bounds");
}

#[test]
fn listing_order_of_edits_does_not_matter() {
    let source = "aaa bbb ccc";
    let a = Edit::Replace { span: span(0, 3), replacement: "AAA".into() };
    let c = Edit::Replace { span: span(8, 11), replacement: "CCC".into() };
    let b = Edit::Remove { span: span(3, 7) };
    let one = apply_fixes(source, &vec![a.clone(), b.clone(), c.clone()]).expect("accepted");
    let other = apply_fixes(source, &vec![c, a, b]).expect("accepted");
    assert_eq!(one, "AAA CCC");
    assert_eq!(one, other);
}

#[test]
fn inserts_at_the_same_offset_follow_the_listing_order() {
    let source = "ab";
    let x = Edit::InsertAfter { span: span(1, 1), text: "X".into() };
    let y = Edit::InsertAfter { span: span(1, 1), text: "Y".into() };
    let xy = apply_fixes(source, &vec![x.clone(), y.clone()]).expect("accepted");
    let yx = apply_fixes(source, &vec![y, x]).expect("accepted");
    assert_ne!(xy, yx);
}

#[test]
fn overlap_error_comes_from_any_two_overlapping_edits() {
    let source = "abcdefgh";
    // An insertion strictly inside a replaced range overlaps it.
    let inside = vec![
        Edit::Replace { span: span(1, 5), replacement: "X".into() },
        Edit::InsertAfter { span: span(3, 3), text: "Y".into() },
    ];
    assert_eq!(apply_fixes(source, &inside), Err(FixError::OverlappingEdits));
    // Ranges that only touch do not overlap.
    let touching = vec![
        Edit::Replace { span: span(0, 2), replacement: "X".into() },
        Edit::Replace { span: span(2, 4), replacement: "Y".into() },
    ];
    assert_eq!(apply_fixes(source, &touching).unwrap(), "XYefgh");
}
