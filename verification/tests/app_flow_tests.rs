use elm_assist::lint_result::LintResult;
use elm_assist::rule::{Edit, Fix, LintError, Position, Severity, Span};
use elm_assist::tui_model::{
    AppState, Command, InputMode, KeyCode, KeyEvent, MouseEvent, MouseEventKind, Msg, Screen, SearchResult,
    TableHitTest, UnusedFinding,
};
use elm_assist::tui_update::update;

fn press(state: &mut AppState, code: KeyCode) -> Command {
    update(state, Msg::KeyPress(KeyEvent { code }))
}

fn span(start: usize, end: usize, line: u32) -> Span {
    Span {
        start: Position { offset: start, line, column: 1 },
        end: Position { offset: end, line, column: 1 },
    }
}

fn finding(rule: &str, message: &str, line: u32) -> LintError {
    finding_fix(rule, message, line, None)
}

fn finding_fix(rule: &str, message: &str, line: u32, fix: Option<Vec<Edit>>) -> LintError {
    LintError {
        rule: rule.to_string(),
        severity: Severity::Error,
        message: message.to_string(),
        span: span(0, 1, line),
        fix: fix.map(|edits| Fix { edits }),
    }
}

fn result(files: Vec<(&str, &str, Vec<LintError>)>) -> LintResult {
    LintResult::from_file_results(
        files.into_iter().map(|(p, s, e)| (p.to_string(), s.to_string(), e)).collect(),
        0,
        0,
        1,
        5_000_000,
    )
}

#[test]
fn stale_clear_status_keeps_newer_message() {
    let mut state = AppState::new("src".into());
    state.loading = false;
    let first = update(&mut state, Msg::StatusInfo("one".into()));
    let Command::ClearStatusAfter(g1) = first else { panic!("expected ClearStatusAfter") };
    let second = update(&mut state, Msg::StatusInfo("two".into()));
    let Command::ClearStatusAfter(g2) = second else { panic!("expected ClearStatusAfter") };
    assert_ne!(g1, g2);
    update(&mut state, Msg::ClearStatus(g1));
    assert_eq!(state.status_message.as_deref(), Some("two"));
    update(&mut state, Msg::ClearStatus(g2));
    assert!(state.status_message.is_none());
}

#[test]
fn clear_status_waits_while_loading() {
    let mut state = AppState::new("src".into());
    let g = state.status_gen;
    assert!(state.loading);
    update(&mut state, Msg::ClearStatus(g));
    assert_eq!(state.status_message.as_deref(), Some("Loading project..."));
}

#[test]
fn lint_complete_reports_and_filters_case_insensitively() {
    let mut state = AppState::new("src".into());
    state.screen = Screen::Lint;
    let r = result(vec![
        ("src/A.elm", "", vec![finding("NoDebug", "Debug.log call", 3)]),
        ("src/B.elm", "", vec![finding("NoUnusedImports", "unused import Html", 1)]),
    ]);
    let cmd = update(&mut state, Msg::LintComplete(r));
    assert!(matches!(cmd, Command::ClearStatusAfter(g) if g == state.status_gen));
    assert_eq!(state.status_message.as_deref(), Some("Lint: 2 findings in 5ms"));
    assert_eq!(state.lint.visible_len(), 2);
    assert_eq!(state.unused.findings.len(), 1);
    assert_eq!(state.unused.findings[0].kind, "NoUnusedImports");

    press(&mut state, KeyCode::Char('/'));
    assert_eq!(state.input_mode, InputMode::LintFilter);
    for c in "DEBUG".chars() {
        press(&mut state, KeyCode::Char(c));
    }
    assert_eq!(state.lint.visible_len(), 1);
    assert_eq!(state.lint.visible_at(0).unwrap().0, "src/A.elm");
}

#[test]
fn lint_complete_keeps_selection_on_same_file_and_line() {
    let mut state = AppState::new("src".into());
    state.screen = Screen::Lint;
    let first = result(vec![
        ("src/A.elm", "", vec![finding("R", "a", 1)]),
        ("src/B.elm", "", vec![finding("R", "b", 7)]),
    ]);
    update(&mut state, Msg::LintComplete(first));
    press(&mut state, KeyCode::Down);
    assert_eq!(state.lint.selected_index, 1);
    // A new finding ahead of the selected one shifts it down a row.
    let second = result(vec![
        ("src/A.elm", "", vec![finding("R", "a", 1), finding("R", "a2", 2)]),
        ("src/B.elm", "", vec![finding("R", "b", 7)]),
    ]);
    update(&mut state, Msg::LintComplete(second));
    assert_eq!(state.lint.selected_index, 2);
    assert_eq!(state.lint.visible_at(2).unwrap().0, "src/B.elm");
}

#[test]
fn fix_review_from_lint_screen_applies_all_after_confirmation() {
    let mut state = AppState::new("src".into());
    state.screen = Screen::Lint;
    let edit1 = Edit::Replace { span: span(0, 3, 1), replacement: "XXX".into() };
    let edit2 = Edit::Remove { span: span(5, 8, 1) };
    let r = result(vec![(
        "src/A.elm",
        "abcdefghij",
        vec![
            finding_fix("R", "one", 1, Some(vec![edit1])),
            finding_fix("R", "no fix", 1, None),
            finding_fix("R", "two", 1, Some(vec![edit2])),
        ],
    )]);
    update(&mut state, Msg::LintComplete(r));
    press(&mut state, KeyCode::Char('f'));
    assert_eq!(state.screen, Screen::FixReview);
    assert_eq!(state.fix_review.items.len(), 2);
    assert_eq!(state.fix_review.items[0].diff.len(), 1);

    let first = press(&mut state, KeyCode::Char('a'));
    assert!(matches!(first, Command::NoOp));
    assert_eq!(
        state.status_message.as_deref(),
        Some("Will apply 2 fixes across 1 files. Press 'a' again to confirm.")
    );
    let second = press(&mut state, KeyCode::Char('a'));
    assert_eq!(state.screen, Screen::Lint);
    assert_eq!(state.status_message.as_deref(), Some("Fix review complete: 2 accepted, 0 skipped"));
    let Command::Batch(cmds) = second else { panic!("expected Batch") };
    assert_eq!(cmds.len(), 2);
    match &cmds[0] {
        Command::ApplyFix(path, fixed) => {
            assert_eq!(path, "src/A.elm");
            assert_eq!(fixed, "XXXdeij");
        }
        _ => panic!("expected ApplyFix"),
    }
    assert!(matches!(cmds[1], Command::RunAnalyses));
}

#[test]
fn fix_review_without_fixes_reports_it() {
    let mut state = AppState::new("src".into());
    state.screen = Screen::Lint;
    update(&mut state, Msg::LintComplete(result(vec![("src/A.elm", "x", vec![finding_fix("R", "m", 1, None)])])));
    press(&mut state, KeyCode::Char('f'));
    assert_eq!(state.screen, Screen::Lint);
    assert_eq!(state.status_message.as_deref(), Some("No fixable errors."));
}

#[test]
fn export_sends_visible_findings() {
    let mut state = AppState::new("src".into());
    state.screen = Screen::Lint;
    let cmd = press(&mut state, KeyCode::Char('e'));
    assert!(matches!(cmd, Command::ClearStatusAfter(_)));
    assert_eq!(state.status_message.as_deref(), Some("No diagnostics to export."));
    update(&mut state, Msg::LintComplete(result(vec![("src/A.elm", "", vec![finding_fix("R", "m", 4, None)])])));
    let cmd = press(&mut state, KeyCode::Char('e'));
    match cmd {
        Command::ExportLintJson(v) => {
            assert_eq!(v.len(), 1);
            assert_eq!(v[0].0, "src/A.elm");
            assert_eq!(v[0].1.span.start.line, 4);
        }
        _ => panic!("expected ExportLintJson"),
    }
}

#[test]
fn mouse_click_selects_row_and_scroll_moves() {
    let mut state = AppState::new("src".into());
    state.screen = Screen::Search;
    state.search.results = (0..5)
        .map(|i| SearchResult { file_path: format!("f{i}.elm"), line: i, context: String::new() })
        .collect();
    state.table_hit = TableHitTest { data_top: 3, visible_rows: 4, scroll: 1 };
    update(&mut state, Msg::MouseEvent(MouseEvent { kind: MouseEventKind::LeftDown, row: 5 }));
    assert_eq!(state.search.selected_index, 3);
    update(&mut state, Msg::MouseEvent(MouseEvent { kind: MouseEventKind::LeftDown, row: 2 }));
    assert_eq!(state.search.selected_index, 3);
    update(&mut state, Msg::MouseEvent(MouseEvent { kind: MouseEventKind::ScrollDown, row: 0 }));
    assert_eq!(state.search.selected_index, 4);
    update(&mut state, Msg::MouseEvent(MouseEvent { kind: MouseEventKind::ScrollUp, row: 0 }));
    assert_eq!(state.search.selected_index, 3);
}

#[test]
fn deps_tree_click_skips_expanded_imports() {
    let mut state = AppState::new("src".into());
    state.screen = Screen::Deps;
    state.deps.sub_view = elm_assist::tui_model::DepsSubView::Tree;
    state.deps.graph_data = Some(vec![
        ("A".to_string(), vec!["B".to_string(), "C".to_string()]),
        ("B".to_string(), vec![]),
        ("C".to_string(), vec![]),
    ]);
    state.table_hit = TableHitTest { data_top: 0, visible_rows: 10, scroll: 0 };
    // Row 1 is A's first import: nothing happens.
    update(&mut state, Msg::MouseEvent(MouseEvent { kind: MouseEventKind::LeftDown, row: 1 }));
    assert_eq!(state.deps.selected_index, 0);
    // Row 3 is module B.
    update(&mut state, Msg::MouseEvent(MouseEvent { kind: MouseEventKind::LeftDown, row: 3 }));
    assert_eq!(state.deps.selected_index, 1);
}

#[test]
fn previews_follow_the_selection() {
    let mut state = AppState::new("src".into());
    state.screen = Screen::Unused;
    state.unused.findings = vec![
        UnusedFinding { kind: "NoUnusedImports".into(), name: "x".into(), file_path: "a.elm".into(), line: 2 },
        UnusedFinding { kind: "NoUnusedImports".into(), name: "y".into(), file_path: "b.elm".into(), line: 9 },
    ];
    let cmd = press(&mut state, KeyCode::Enter);
    assert!(matches!(cmd, Command::LoadPreview(ref p, 2) if p == "a.elm"));
    update(&mut state, Msg::PreviewLoaded { file_path: "b.elm".into(), line: 9, source: "stale".into() });
    assert!(state.unused.preview.is_none());
    update(&mut state, Msg::PreviewLoaded { file_path: "a.elm".into(), line: 2, source: "src".into() });
    assert_eq!(state.unused.preview.as_ref().unwrap().source, "src");
    let cmd = press(&mut state, KeyCode::Down);
    assert!(matches!(cmd, Command::LoadPreview(ref p, 9) if p == "b.elm"));
    let cmd = press(&mut state, KeyCode::Enter);
    assert!(matches!(cmd, Command::NoOp));
    assert!(state.unused.preview.is_none());
}

#[test]
fn search_complete_counts_files() {
    let mut state = AppState::new("src".into());
    let results = vec![
        SearchResult { file_path: "a.elm".into(), line: 1, context: String::new() },
        SearchResult { file_path: "b.elm".into(), line: 2, context: String::new() },
        SearchResult { file_path: "a.elm".into(), line: 3, context: String::new() },
    ];
    update(&mut state, Msg::SearchComplete(results));
    assert_eq!(state.status_message.as_deref(), Some("Search: 3 results in 2 files"));
    assert!(!state.loading);
    update(&mut state, Msg::SearchComplete(Vec::new()));
    assert_eq!(state.status_message.as_deref(), Some("Search: no results found"));
}

#[test]
fn file_change_labels() {
    let mut state = AppState::new("src".into());
    update(&mut state, Msg::FileChanged(vec!["a.elm".into(), "b.elm".into()]));
    assert_eq!(state.status_message.as_deref(), Some("Re-linting (2 files changed)..."));
    update(&mut state, Msg::FileChanged(vec!["src/Page/Home.elm".into()]));
    assert_eq!(state.status_message.as_deref(), Some("Re-linting (Home.elm changed)..."));
    let cmd = update(&mut state, Msg::FileChanged(vec!["a.elm".into(), "proj/./elm-assist.toml/".into()]));
    assert!(matches!(cmd, Command::ScanProject));
}

#[test]
fn rerun_is_blocked_while_loading() {
    let mut state = AppState::new("src".into());
    assert!(state.loading);
    let cmd = press(&mut state, KeyCode::Char('r'));
    assert!(matches!(cmd, Command::NoOp));
    state.loading = false;
    let cmd = press(&mut state, KeyCode::Char('r'));
    assert!(matches!(cmd, Command::ScanProject));
    assert!(state.loading);
    assert_eq!(state.status_message.as_deref(), Some("Re-running all analyses..."));
}

#[test]
fn project_scanned_runs_lint() {
    let mut state = AppState::new("src".into());
    let cmd = update(
        &mut state,
        Msg::ProjectScanned { module_count: 3, file_count: 4, parse_error_count: 1, parse_errors: vec!["x".into()] },
    );
    assert!(matches!(cmd, Command::RunAnalyses));
    assert_eq!((state.module_count, state.file_count, state.parse_error_count), (3, 4, 1));
    assert_eq!(state.status_message.as_deref(), Some("Running lint..."));
}

#[test]
fn fixes_that_split_a_character_are_left_out_of_review() {
    let mut state = AppState::new("src".into());
    state.screen = Screen::Lint;
    // "é" takes two bytes: an edit ending after its first byte would split it.
    let splitting = finding_fix("R", "m", 1, Some(vec![Edit::Remove { span: span(0, 1, 1) }]));
    let r = result(vec![("src/A.elm", "é", vec![splitting])]);
    update(&mut state, Msg::LintComplete(r));
    press(&mut state, KeyCode::Char('f'));
    assert_eq!(state.screen, Screen::Lint);
    assert_eq!(state.status_message.as_deref(), Some("No fixable errors."));
}

#[test]
fn filter_lowercases_non_ascii_text() {
    let mut state = AppState::new("src".into());
    state.screen = Screen::Lint;
    let r = result(vec![
        ("src/A.elm", "", vec![finding("NoDebug", "ÉTAT inconnu", 3)]),
        ("src/B.elm", "", vec![finding("NoUnusedImports", "unused import Html", 1)]),
    ]);
    update(&mut state, Msg::LintComplete(r));
    press(&mut state, KeyCode::Char('/'));
    for c in "état".chars() {
        press(&mut state, KeyCode::Char(c));
    }
    assert_eq!(state.lint.visible_len(), 1);
}

#[test]
fn lint_summary_rounds_the_elapsed_time() {
    let mut state = AppState::new("src".into());
    let r = LintResult::from_file_results(Vec::new(), 0, 0, 1, 1_600_000);
    update(&mut state, Msg::LintComplete(r));
    assert_eq!(state.status_message.as_deref(), Some("Lint: 0 findings in 2ms"));
}
