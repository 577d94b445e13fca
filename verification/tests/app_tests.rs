use elm_assist::lint_result::LintResult;
use elm_assist::rule::{Edit, Fix, LintError, Position, Severity, Span};
use elm_assist::tui_data::rebuild_base_errors;
use elm_assist::tui_keys::{complete_search_prefix, handle_filter_input};
use elm_assist::tui_model::{
    AppState, Command, DepsSubView, FixReviewItem, FixReviewState, InputMode, KeyCode, KeyEvent, Msg,
    Screen,
};
use elm_assist::tui_update::update;

fn key(code: KeyCode) -> KeyEvent {
    KeyEvent { code }
}

fn dummy_error(rule: &str, message: &str, line: u32) -> LintError {
    LintError {
        rule: rule.to_string(),
        severity: Severity::Error,
        message: message.to_string(),
        span: Span {
            start: Position { offset: 0, line, column: 1 },
            end: Position { offset: 10, line, column: 11 },
        },
        fix: None,
    }
}

fn dummy_fix_item(file: &str, mut error: LintError) -> FixReviewItem {
    // A benign fix replacing the whole "old" source with "new".
    let span = Span {
        start: Position { offset: 0, line: 1, column: 1 },
        end: Position { offset: 3, line: 1, column: 4 },
    };
    error.fix = Some(Fix { edits: vec![Edit::Replace { span, replacement: "new".into() }] });
    FixReviewItem {
        file_path: file.into(),
        error,
        original_source: "old".into(),
        diff: Vec::new(),
    }
}

fn empty_result() -> LintResult {
    LintResult {
        file_errors: Vec::new(),
        sources: Vec::new(),
        total_errors: 0,
        total_warnings: 0,
        total_fixable: 0,
        cached: false,
        elapsed_ns: 0,
        parse_error_count: 0,
        files_linted: 0,
        rules_active: 0,
    }
}

fn state_with_errors(errors: Vec<(&str, LintError)>) -> AppState {
    let mut state = AppState::new("src".into());
    state.screen = Screen::Lint;

    let mut file_errors: Vec<(String, Vec<LintError>)> = Vec::new();
    for (path, err) in &errors {
        match file_errors.iter_mut().find(|(p, _)| p == path) {
            Some(entry) => entry.1.push(err.clone()),
            None => file_errors.push((path.to_string(), vec![err.clone()])),
        }
    }
    file_errors.sort_by(|a, b| a.0.cmp(&b.0));
    let sources = file_errors.iter().map(|(k, _)| (k.clone(), String::new())).collect();

    let mut result = empty_result();
    result.file_errors = file_errors;
    result.sources = sources;
    state.lint.result = Some(result);

    // Populate base_errors + filter_haystacks through the production path.
    rebuild_base_errors(&mut state);
    state.lint.filtered = (0..state.lint.base_errors.len()).collect();

    state
}

fn fix_review_state(items: Vec<FixReviewItem>, accepted: Option<Vec<bool>>) -> FixReviewState {
    let n = items.len();
    let accepted_mask = accepted.unwrap_or_else(|| vec![false; n]);
    assert_eq!(accepted_mask.len(), n);
    let accepted_count = accepted_mask.iter().filter(|&&b| b).count();
    FixReviewState {
        items,
        accepted_mask,
        current_index: 0,
        accepted_count,
        skipped_count: 0,
        confirm_accept_all: false,
    }
}

fn press(state: &mut AppState, code: KeyCode) -> Command {
    update(state, Msg::KeyPress(key(code)))
}

// ── Screen navigation ──────────────────────────────────────────

#[test]
fn number_keys_switch_screens() {
    let mut state = AppState::new("src".into());

    press(&mut state, KeyCode::Char('2'));
    assert_eq!(state.screen, Screen::Lint);

    press(&mut state, KeyCode::Char('3'));
    assert_eq!(state.screen, Screen::Deps);

    press(&mut state, KeyCode::Char('4'));
    assert_eq!(state.screen, Screen::Unused);

    press(&mut state, KeyCode::Char('5'));
    assert_eq!(state.screen, Screen::Search);

    press(&mut state, KeyCode::Char('1'));
    assert_eq!(state.screen, Screen::Dashboard);
}

#[test]
fn esc_goes_back_to_previous_screen() {
    let mut state = AppState::new("src".into());
    assert_eq!(state.screen, Screen::Dashboard);

    press(&mut state, KeyCode::Char('2'));
    assert_eq!(state.screen, Screen::Lint);
    assert_eq!(state.previous_screen, Screen::Dashboard);

    press(&mut state, KeyCode::Esc);
    assert_eq!(state.screen, Screen::Dashboard);
}

#[test]
fn help_toggle() {
    let mut state = AppState::new("src".into());

    press(&mut state, KeyCode::Char('?'));
    assert_eq!(state.screen, Screen::Help);

    press(&mut state, KeyCode::Esc);
    assert_eq!(state.screen, Screen::Dashboard);
}

#[test]
fn q_quits_from_dashboard() {
    let mut state = AppState::new("src".into());
    press(&mut state, KeyCode::Char('q'));
    assert!(state.quit);
}

// ── Input modes ────────────────────────────────────────────────

#[test]
fn slash_enters_filter_mode_on_lint_screen() {
    let mut state = AppState::new("src".into());
    state.screen = Screen::Lint;

    press(&mut state, KeyCode::Char('/'));
    assert_eq!(state.input_mode, InputMode::LintFilter);
}

#[test]
fn slash_enters_search_mode_on_search_screen() {
    let mut state = AppState::new("src".into());
    state.screen = Screen::Search;

    press(&mut state, KeyCode::Char('/'));
    assert_eq!(state.input_mode, InputMode::SearchQuery);
}

#[test]
fn filter_input_appends_and_esc_exits() {
    let mut state = state_with_errors(vec![("src/A.elm", dummy_error("NoDebug", "debug log", 1))]);
    state.input_mode = InputMode::LintFilter;

    press(&mut state, KeyCode::Char('d'));
    assert_eq!(state.lint.filter_text, "d");
    assert_eq!(state.input_mode, InputMode::LintFilter);

    press(&mut state, KeyCode::Esc);
    assert_eq!(state.input_mode, InputMode::Normal);
    // Filter text preserved after Esc.
    assert_eq!(state.lint.filter_text, "d");
}

#[test]
fn backspace_to_empty_exits_filter_mode() {
    let mut state = state_with_errors(vec![("src/A.elm", dummy_error("NoDebug", "debug log", 1))]);
    state.input_mode = InputMode::LintFilter;
    state.lint.filter_text = "x".into();

    press(&mut state, KeyCode::Backspace);
    assert_eq!(state.lint.filter_text, "");
    assert_eq!(state.input_mode, InputMode::Normal);
}

#[test]
fn search_input_accumulates_and_enter_submits() {
    let mut state = AppState::new("src".into());
    state.screen = Screen::Search;
    state.input_mode = InputMode::SearchQuery;

    press(&mut state, KeyCode::Char('d'));
    press(&mut state, KeyCode::Char('e'));
    press(&mut state, KeyCode::Char('f'));
    assert_eq!(state.search.query, "def");

    let cmd = press(&mut state, KeyCode::Enter);
    assert_eq!(state.input_mode, InputMode::Normal);
    assert!(matches!(cmd, Command::RunSearch(q) if q == "def"));
}

// ── List navigation ────────────────────────────────────────────

#[test]
fn select_next_wraps_at_end() {
    let mut state = state_with_errors(vec![
        ("src/A.elm", dummy_error("R1", "msg1", 1)),
        ("src/B.elm", dummy_error("R2", "msg2", 2)),
    ]);

    assert_eq!(state.lint.selected_index, 0);

    press(&mut state, KeyCode::Down);
    assert_eq!(state.lint.selected_index, 1);

    // At the end, stays at last item.
    press(&mut state, KeyCode::Down);
    assert_eq!(state.lint.selected_index, 1);
}

#[test]
fn select_prev_stops_at_zero() {
    let mut state = state_with_errors(vec![("src/A.elm", dummy_error("R1", "msg1", 1))]);

    press(&mut state, KeyCode::Up);
    assert_eq!(state.lint.selected_index, 0);
}

#[test]
fn select_last_and_first() {
    let mut state = state_with_errors(vec![
        ("src/A.elm", dummy_error("R1", "msg1", 1)),
        ("src/B.elm", dummy_error("R2", "msg2", 2)),
        ("src/C.elm", dummy_error("R3", "msg3", 3)),
    ]);

    press(&mut state, KeyCode::Char('G'));
    assert_eq!(state.lint.selected_index, 2);

    press(&mut state, KeyCode::Char('g'));
    assert_eq!(state.lint.selected_index, 0);
}

#[test]
fn navigation_on_empty_list_does_not_panic() {
    let mut state = state_with_errors(vec![]);

    press(&mut state, KeyCode::Down);
    assert_eq!(state.lint.selected_index, 0);

    press(&mut state, KeyCode::Char('G'));
    assert_eq!(state.lint.selected_index, 0);
}

// ── Filter rebuilding ──────────────────────────────────────────

#[test]
fn filter_narrows_results() {
    let mut state = state_with_errors(vec![
        ("src/A.elm", dummy_error("NoDebug", "found debug log", 1)),
        ("src/B.elm", dummy_error("NoUnused", "unused import", 2)),
    ]);
    state.input_mode = InputMode::LintFilter;

    for c in ['d', 'e', 'b', 'u', 'g'] {
        press(&mut state, KeyCode::Char(c));
    }

    // Only the debug error should match.
    assert_eq!(state.lint.visible_len(), 1);
    assert_eq!(state.lint.visible_at(0).unwrap().1.rule, "NoDebug");
}

#[test]
fn filter_resets_selection_index() {
    let mut state = state_with_errors(vec![
        ("src/A.elm", dummy_error("NoDebug", "debug", 1)),
        ("src/B.elm", dummy_error("NoUnused", "unused", 2)),
    ]);
    state.lint.selected_index = 1;
    state.input_mode = InputMode::LintFilter;

    press(&mut state, KeyCode::Char('x'));
    assert_eq!(state.lint.selected_index, 0);
}

// ── Fix review state machine ───────────────────────────────────

fn review_state(items: Vec<FixReviewItem>, accepted: Option<Vec<bool>>) -> AppState {
    let mut state = AppState::new("src".into());
    state.screen = Screen::FixReview;
    state.previous_screen = Screen::Lint;
    state.fix_review = fix_review_state(items, accepted);
    state
}

#[test]
fn fix_review_skip_advances() {
    let mut state = review_state(
        vec![
            dummy_fix_item("a.elm", dummy_error("R", "msg", 1)),
            dummy_fix_item("b.elm", dummy_error("R", "msg", 2)),
        ],
        None,
    );

    press(&mut state, KeyCode::Char('n'));
    assert_eq!(state.fix_review.current_index, 1);
    assert_eq!(state.fix_review.skipped_count, 1);
}

#[test]
fn fix_review_accept_defers_apply_until_finish() {
    let mut state = review_state(
        vec![
            dummy_fix_item("a.elm", dummy_error("R", "msg", 1)),
            dummy_fix_item("b.elm", dummy_error("R", "msg", 2)),
        ],
        None,
    );

    let cmd = press(&mut state, KeyCode::Char('y'));
    assert_eq!(state.fix_review.accepted_count, 1);
    assert_eq!(state.fix_review.current_index, 1);
    assert!(state.fix_review.accepted_mask[0]);
    assert!(!state.fix_review.accepted_mask[1]);
    assert!(matches!(cmd, Command::NoOp));
}

#[test]
fn fix_review_last_accept_exits_and_relints() {
    let mut state = review_state(vec![dummy_fix_item("a.elm", dummy_error("R", "msg", 1))], None);

    let cmd = press(&mut state, KeyCode::Char('y'));
    assert_eq!(state.screen, Screen::Lint);
    assert!(matches!(cmd, Command::Batch(_)));
}

#[test]
fn fix_review_last_skip_exits() {
    let mut state = review_state(vec![dummy_fix_item("a.elm", dummy_error("R", "msg", 1))], None);

    press(&mut state, KeyCode::Char('n'));
    assert_eq!(state.screen, Screen::Lint);
    assert_eq!(state.fix_review.skipped_count, 1);
}

#[test]
fn fix_review_q_exits_and_flushes_if_accepted() {
    // Item 0 was accepted; `q` on item 1 still flushes it.
    let mut state = review_state(
        vec![
            dummy_fix_item("a.elm", dummy_error("R", "msg", 1)),
            dummy_fix_item("b.elm", dummy_error("R", "msg", 2)),
        ],
        Some(vec![true, false]),
    );
    state.fix_review.current_index = 1;

    let cmd = press(&mut state, KeyCode::Char('q'));
    assert_eq!(state.screen, Screen::Lint);
    assert!(matches!(cmd, Command::Batch(_)));
}

#[test]
fn fix_review_multi_fix_same_file_merges_edits() {
    // Two accepted fixes on one file collapse into a single ApplyFix that
    // carries both edits.
    let source = "abcdefghij".to_string();
    let span1 = Span {
        start: Position { offset: 0, line: 1, column: 1 },
        end: Position { offset: 3, line: 1, column: 4 },
    };
    let span2 = Span {
        start: Position { offset: 5, line: 1, column: 6 },
        end: Position { offset: 8, line: 1, column: 9 },
    };

    let mut err1 = dummy_error("R", "msg1", 1);
    err1.span = span1;
    err1.fix = Some(Fix { edits: vec![Edit::Replace { span: span1, replacement: "XXX".into() }] });
    let mut err2 = dummy_error("R", "msg2", 1);
    err2.span = span2;
    err2.fix = Some(Fix { edits: vec![Edit::Replace { span: span2, replacement: "YYY".into() }] });

    let item1 = FixReviewItem {
        file_path: "same.elm".into(),
        error: err1,
        original_source: source.clone(),
        diff: Vec::new(),
    };
    let item2 = FixReviewItem {
        file_path: "same.elm".into(),
        error: err2,
        original_source: source,
        diff: Vec::new(),
    };

    let mut state = review_state(vec![item1, item2], None);

    press(&mut state, KeyCode::Char('y'));
    let cmd = press(&mut state, KeyCode::Char('y'));

    let Command::Batch(cmds) = cmd else {
        panic!("expected Batch, got different command");
    };
    let applies: Vec<&Command> = cmds.iter().filter(|c| matches!(c, Command::ApplyFix(_, _))).collect();
    assert_eq!(
        applies.len(),
        1,
        "two accepted fixes on the same file must collapse to a single ApplyFix"
    );
    if let Command::ApplyFix(_, fixed) = applies[0] {
        assert!(
            fixed.contains("XXX") && fixed.contains("YYY"),
            "merged apply_fixes output must include both replacements, got: {fixed:?}"
        );
    }
}

// ── Msg handlers ───────────────────────────────────────────────

#[test]
fn lint_complete_populates_state() {
    let mut state = AppState::new("src".into());
    state.loading = true;

    let mut result = empty_result();
    result.file_errors = vec![("src/A.elm".to_string(), vec![dummy_error("NoDebug", "debug", 1)])];
    result.total_errors = 1;
    result.files_linted = 1;
    result.rules_active = 1;

    update(&mut state, Msg::LintComplete(result));
    assert!(!state.loading);
    assert_eq!(state.lint.visible_len(), 1);
    assert!(state.lint.result.is_some());
}

#[test]
fn status_error_sets_message() {
    let mut state = AppState::new("src".into());
    state.loading = true;

    update(&mut state, Msg::StatusError("something broke".to_string()));
    assert_eq!(state.status_message.as_deref(), Some("something broke"));
    assert!(!state.loading);
}

#[test]
fn file_changed_triggers_relint() {
    let mut state = AppState::new("src".into());
    let cmd = update(&mut state, Msg::FileChanged(vec!["src/Main.elm".into()]));
    assert!(state.loading);
    assert!(matches!(cmd, Command::RunAnalyses));
    // .elm changes skip ScanProject, go straight to the unified analyses pass.
    assert!(state.status_message.as_ref().unwrap().contains("Main.elm"));
}

#[test]
fn search_tab_completes_unique_prefix() {
    let mut q = "ret".to_string();
    complete_search_prefix(&mut q);
    assert_eq!(q, "returns:");
}

#[test]
fn search_tab_completes_longest_common_prefix() {
    // "un" matches only "unused-args:" — unique match.
    let mut q = "un".to_string();
    complete_search_prefix(&mut q);
    assert_eq!(q, "unused-args:");
}

#[test]
fn search_tab_noop_after_colon() {
    let mut q = "returns:Maybe".to_string();
    complete_search_prefix(&mut q);
    assert_eq!(q, "returns:Maybe");
}

#[test]
fn config_changed_triggers_full_rescan() {
    let mut state = AppState::new("src".into());
    let cmd = update(&mut state, Msg::FileChanged(vec!["elm-assist.toml".into()]));
    assert!(state.loading);
    assert!(matches!(cmd, Command::ScanProject));
    assert!(state.status_message.as_ref().unwrap().contains("Config changed"));
}

// ── Deps sub-view cycling ──────────────────────────────────────

#[test]
fn tab_cycles_deps_sub_views() {
    let mut state = AppState::new("src".into());
    state.screen = Screen::Deps;
    assert_eq!(state.deps.sub_view, DepsSubView::Stats);

    press(&mut state, KeyCode::Tab);
    assert_eq!(state.deps.sub_view, DepsSubView::Cycles);

    press(&mut state, KeyCode::Tab);
    assert_eq!(state.deps.sub_view, DepsSubView::Tree);

    press(&mut state, KeyCode::Tab);
    assert_eq!(state.deps.sub_view, DepsSubView::Stats);
}

#[test]
fn question_mark_toggles_help_off() {
    let mut state = AppState::new("src".into());
    press(&mut state, KeyCode::Char('2'));
    press(&mut state, KeyCode::Char('?'));
    assert_eq!(state.screen, Screen::Help);
    press(&mut state, KeyCode::Char('?'));
    assert_eq!(state.screen, Screen::Lint);
    press(&mut state, KeyCode::Char('?'));
    assert_eq!(state.screen, Screen::Help);
    press(&mut state, KeyCode::Esc);
    assert_eq!(state.screen, Screen::Lint);
}

#[test]
fn search_tab_twice_changes_nothing_more() {
    for start in ["c", "CA", "u", "un", "U", "x", "ty", "ca"] {
        let mut q = start.to_string();
        complete_search_prefix(&mut q);
        let once = q.clone();
        complete_search_prefix(&mut q);
        assert_eq!(q, once, "completing {start:?} twice");
    }
}

#[test]
fn search_tab_completes_upper_case_input_in_lower_case() {
    let mut q = "C".to_string();
    complete_search_prefix(&mut q);
    assert_eq!(q, "ca");
    let mut q = "CA".to_string();
    complete_search_prefix(&mut q);
    assert_eq!(q, "CA");
    let mut q = "UN".to_string();
    complete_search_prefix(&mut q);
    assert_eq!(q, "unused-args:");
}

#[test]
fn filter_input_handler_edits_the_filter() {
    let mut state = state_with_errors(vec![
        ("src/A.elm", dummy_error("NoDebug", "debug log", 1)),
        ("src/B.elm", dummy_error("NoUnused", "unused import", 2)),
    ]);
    state.input_mode = InputMode::LintFilter;
    assert!(matches!(handle_filter_input(&mut state, key(KeyCode::Char('d'))), Command::NoOp));
    assert_eq!(state.lint.filter_text, "d");
    assert_eq!(state.lint.selected_index, 0);
    assert_eq!(state.input_mode, InputMode::LintFilter);
    handle_filter_input(&mut state, key(KeyCode::Enter));
    assert_eq!(state.input_mode, InputMode::Normal);
    assert_eq!(state.lint.filter_text, "d");
    state.input_mode = InputMode::LintFilter;
    handle_filter_input(&mut state, key(KeyCode::Backspace));
    assert_eq!(state.lint.filter_text, "");
    assert_eq!(state.input_mode, InputMode::Normal);
    assert_eq!(state.lint.visible_len(), 2);
}
