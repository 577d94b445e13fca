use elm_assist::diff::{compute_diff, split_lines, DiffLine};

fn texts(lines: &[DiffLine]) -> Vec<String> {
    lines
        .iter()
        .map(|l| match l {
            DiffLine::Context(s) => format!(" {s}"),
            DiffLine::Added(s) => format!("+{s}"),
            DiffLine::Removed(s) => format!("-{s}"),
        })
        .collect()
}

#[test]
fn equal_texts_have_no_hunk() {
    assert!(compute_diff("a\nb\n", "a\nb\n").is_empty());
    assert!(compute_diff("", "").is_empty());
}

#[test]
fn one_changed_line_with_context() {
    let hunks = compute_diff("a\nb\nc\n", "a\nB\nc\n");
    assert_eq!(hunks.len(), 1);
    let h = &hunks[0];
    assert_eq!((h.old_start, h.old_count, h.new_start, h.new_count), (1, 3, 1, 3));
    assert_eq!(texts(&h.lines), vec![" a", "-b", "+B", " c"]);
}

#[test]
fn context_is_at_most_two_lines() {
    let old = "1\n2\n3\n4\n5\n6\n7\n";
    let new = "1\n2\n3\nX\n5\n6\n7\n";
    let hunks = compute_diff(old, new);
    assert_eq!(hunks.len(), 1);
    let h = &hunks[0];
    assert_eq!((h.old_start, h.old_count, h.new_start, h.new_count), (2, 5, 2, 5));
    assert_eq!(texts(&h.lines), vec![" 2", " 3", "-4", "+X", " 5", " 6"]);
}

#[test]
fn pure_insertion_and_deletion() {
    let hunks = compute_diff("a\nc\n", "a\nb\nc\n");
    assert_eq!(texts(&hunks[0].lines), vec![" a", "+b", " c"]);
    let hunks = compute_diff("a\nb\nc\n", "a\nc\n");
    assert_eq!(texts(&hunks[0].lines), vec![" a", "-b", " c"]);
}

#[test]
fn lines_split_like_str_lines() {
    assert_eq!(split_lines("a\r\nb\n"), vec!["a", "b"]);
    assert_eq!(split_lines("x\r"), vec!["x\r"]);
    assert_eq!(split_lines("\n\nz"), vec!["", "", "z"]);
    assert!(split_lines("").is_empty());
    let sample = "one\ntwo\r\n\nthree";
    assert_eq!(split_lines(sample), sample.lines().collect::<Vec<_>>());
}

#[test]
fn hunk_turns_old_lines_into_new_lines() {
    let old = "a\nb\nc\nd\ne\nf\ng\n";
    let new = "a\nb\nc\nX\nY\ne\nf\ng\n";
    let hunks = compute_diff(old, new);
    assert_eq!(hunks.len(), 1);
    let h = &hunks[0];
    let old_lines: Vec<&str> = old.lines().collect();
    let new_lines: Vec<&str> = new.lines().collect();
    let start = h.old_start - 1;
    let end = start + h.old_count;
    let old_side: Vec<&str> = h
        .lines
        .iter()
        .filter_map(|l| match l {
            DiffLine::Context(s) | DiffLine::Removed(s) => Some(s.as_str()),
            DiffLine::Added(_) => None,
        })
        .collect();
    let new_side: Vec<&str> = h
        .lines
        .iter()
        .filter_map(|l| match l {
            DiffLine::Context(s) | DiffLine::Added(s) => Some(s.as_str()),
            DiffLine::Removed(_) => None,
        })
        .collect();
    assert_eq!(old_side, old_lines[start..end].to_vec());
    assert_eq!(new_side.len(), h.new_count);
    let mut rebuilt: Vec<&str> = old_lines[..start].to_vec();
    rebuilt.extend(new_side);
    rebuilt.extend(&old_lines[end..]);
    assert_eq!(rebuilt, new_lines);
}
