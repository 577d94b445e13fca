//! Status messages, list navigation, screen switching and the lint filter
//! of the interactive assistant.

use vstd::prelude::*;

use crate::text::{chars_of, contains_chars, has_substring, lowercase, to_lowercase};
use crate::tui_model::{AppState, Command, LintState, Screen};

verus! {

/// The status generation after `g` (wrapping).
pub open spec fn next_gen(g: u64) -> u64 {
    if g == u64::MAX {
        0
    } else {
        (g + 1) as u64
    }
}

/// `new` is `old` with the status message `msg` and the next generation.
pub open spec fn with_status(old: AppState, msg: String) -> AppState {
    AppState { status_message: Some(msg), status_gen: next_gen(old.status_gen), ..old }
}

/// Set the status message and bump the generation counter.
pub fn set_status(state: &mut AppState, msg: String)
    ensures
        *final(state) == with_status(*old(state), msg),
{
    state.status_message = Some(msg);
    state.status_gen = if state.status_gen == u64::MAX {
        0
    } else {
        state.status_gen + 1
    };
}

// ── Navigation ───────────────────────────────────────────────────────

/// Length of the list shown on the current screen (0 if it has none).
pub open spec fn list_len(s: AppState) -> int {
    match s.screen {
        Screen::Lint | Screen::FixReview => s.lint.filtered@.len() as int,
        Screen::Unused => s.unused.findings@.len() as int,
        Screen::Search => s.search.results@.len() as int,
        Screen::Deps => match s.deps.graph_data {
            Some(d) => d@.len() as int,
            None => 0,
        },
        _ => 0,
    }
}

/// The selected row of the current screen's list, if it has one.
pub open spec fn selection(s: AppState) -> Option<usize> {
    match s.screen {
        Screen::Lint | Screen::FixReview => Some(s.lint.selected_index),
        Screen::Unused => Some(s.unused.selected_index),
        Screen::Search => Some(s.search.selected_index),
        Screen::Deps => Some(s.deps.selected_index),
        _ => None,
    }
}

/// `s` with the current screen's selection set to `v` (unchanged on
/// screens without a list).
pub open spec fn with_selection(s: AppState, v: usize) -> AppState {
    match s.screen {
        Screen::Lint | Screen::FixReview => AppState { lint: LintState { selected_index: v, ..s.lint }, ..s },
        Screen::Unused => AppState { unused: crate::tui_model::UnusedState { selected_index: v, ..s.unused }, ..s },
        Screen::Search => AppState { search: crate::tui_model::SearchState { selected_index: v, ..s.search }, ..s },
        Screen::Deps => AppState { deps: crate::tui_model::DepsState { selected_index: v, ..s.deps }, ..s },
        _ => s,
    }
}

/// The selection moved down by `step` rows, stopping at the last row.
pub open spec fn moved_down(s: AppState, step: int) -> AppState {
    let len = list_len(s);
    match selection(s) {
        Some(i) if len > 0 => with_selection(s, if i + step < len { (i + step) as usize } else { (len - 1) as usize }),
        _ => s,
    }
}

/// The selection moved up by `step` rows, stopping at the first row.
pub open spec fn moved_up(s: AppState, step: int) -> AppState {
    match selection(s) {
        Some(i) => with_selection(s, if i >= step { (i - step) as usize } else { 0 }),
        None => s,
    }
}

/// The selection on the first row.
pub open spec fn moved_first(s: AppState) -> AppState {
    match selection(s) {
        Some(i) => with_selection(s, 0),
        None => s,
    }
}

/// The selection on the last row (unchanged for an empty list).
pub open spec fn moved_last(s: AppState) -> AppState {
    let len = list_len(s);
    match selection(s) {
        Some(i) if len > 0 => with_selection(s, (len - 1) as usize),
        _ => s,
    }
}

/// Length of the current screen's list.
pub fn current_list_len(state: &AppState) -> (n: usize)
    ensures
        n == list_len(*state),
{
    match state.screen {
        Screen::Lint | Screen::FixReview => state.lint.filtered.len(),
        Screen::Unused => state.unused.findings.len(),
        Screen::Search => state.search.results.len(),
        Screen::Deps => match &state.deps.graph_data {
            Some(d) => d.len(),
            None => 0,
        },
        _ => 0,
    }
}

/// The current screen's selection.
pub fn current_selection(state: &AppState) -> (r: Option<usize>)
    ensures
        r == selection(*state),
{
    match state.screen {
        Screen::Lint | Screen::FixReview => Some(state.lint.selected_index),
        Screen::Unused => Some(state.unused.selected_index),
        Screen::Search => Some(state.search.selected_index),
        Screen::Deps => Some(state.deps.selected_index),
        _ => None,
    }
}

/// Set the current screen's selection.
pub fn set_selection(state: &mut AppState, v: usize)
    ensures
        *final(state) == with_selection(*old(state), v),
{
    match state.screen {
        Screen::Lint | Screen::FixReview => state.lint.selected_index = v,
        Screen::Unused => state.unused.selected_index = v,
        Screen::Search => state.search.selected_index = v,
        Screen::Deps => state.deps.selected_index = v,
        _ => {},
    }
}

/// Move the selection down by `step` rows, stopping at the last row.
pub fn move_down(state: &mut AppState, step: usize)
    ensures
        *final(state) == moved_down(*old(state), step as int),
{
    let len = current_list_len(state);
    if len == 0 {
        return;
    }
    if let Some(i) = current_selection(state) {
        let v = if i < len && len - i > step {
            i + step
        } else {
            len - 1
        };
        set_selection(state, v);
    }
}

/// Move the selection up by `step` rows, stopping at the first row.
pub fn move_up(state: &mut AppState, step: usize)
    ensures
        *final(state) == moved_up(*old(state), step as int),
{
    if let Some(i) = current_selection(state) {
        let v = if i >= step {
            i - step
        } else {
            0
        };
        set_selection(state, v);
    }
}

/// Select the next row.
pub fn select_next(state: &mut AppState)
    ensures
        *final(state) == moved_down(*old(state), 1),
{
    move_down(state, 1);
}

/// Select the previous row.
pub fn select_prev(state: &mut AppState)
    ensures
        *final(state) == moved_up(*old(state), 1),
{
    move_up(state, 1);
}

/// Rows a page key moves the selection.
pub open spec fn page_rows() -> int {
    20
}

/// Move the selection one page down.
pub fn page_down(state: &mut AppState)
    ensures
        *final(state) == moved_down(*old(state), page_rows()),
{
    move_down(state, 20);
}

/// Move the selection one page up.
pub fn page_up(state: &mut AppState)
    ensures
        *final(state) == moved_up(*old(state), page_rows()),
{
    move_up(state, 20);
}

/// Select the first row.
pub fn select_first(state: &mut AppState)
    ensures
        *final(state) == moved_first(*old(state)),
{
    if let Some(_) = current_selection(state) {
        set_selection(state, 0);
    }
}

/// Select the last row.
pub fn select_last(state: &mut AppState)
    ensures
        *final(state) == moved_last(*old(state)),
{
    let len = current_list_len(state);
    if len == 0 {
        return;
    }
    if let Some(_) = current_selection(state) {
        set_selection(state, len - 1);
    }
}

/// On Unused and Search, the request to load the preview of the selected
/// row (nothing when no row is selected); nothing on other screens.
pub open spec fn selected_row_preview(s: AppState) -> Command {
    match s.screen {
        Screen::Unused => if s.unused.selected_index < s.unused.findings@.len() {
            Command::LoadPreview(
                s.unused.findings@[s.unused.selected_index as int].file_path,
                s.unused.findings@[s.unused.selected_index as int].line,
            )
        } else {
            Command::NoOp
        },
        Screen::Search => if s.search.selected_index < s.search.results@.len() {
            Command::LoadPreview(
                s.search.results@[s.search.selected_index as int].file_path,
                s.search.results@[s.search.selected_index as int].line,
            )
        } else {
            Command::NoOp
        },
        _ => Command::NoOp,
    }
}

/// The command that keeps an open source preview on Unused or Search in
/// sync with the selected row.
pub open spec fn preview_reload(s: AppState) -> Command {
    match s.screen {
        Screen::Unused if s.unused.preview is Some => selected_row_preview(s),
        Screen::Search if s.search.preview is Some => selected_row_preview(s),
        _ => Command::NoOp,
    }
}

/// When a source preview is visible on Unused or Search, ask to load the
/// preview of whatever is now selected.
pub fn reload_preview_if_open(state: &AppState) -> (cmd: Command)
    ensures
        cmd == preview_reload(*state),
{
    match state.screen {
        Screen::Unused => {
            if state.unused.preview.is_some() && state.unused.selected_index < state.unused.findings.len() {
                let f = &state.unused.findings[state.unused.selected_index];
                Command::LoadPreview(f.file_path.clone(), f.line)
            } else {
                Command::NoOp
            }
        },
        Screen::Search => {
            if state.search.preview.is_some() && state.search.selected_index < state.search.results.len() {
                let r = &state.search.results[state.search.selected_index];
                Command::LoadPreview(r.file_path.clone(), r.line)
            } else {
                Command::NoOp
            }
        },
        _ => Command::NoOp,
    }
}

/// `s` showing `screen`, remembering the current one.
pub open spec fn switched(s: AppState, screen: Screen) -> AppState {
    AppState { previous_screen: s.screen, screen, ..s }
}

/// Show `screen`, remembering the current one.
pub fn switch_screen(state: &mut AppState, screen: Screen)
    ensures
        *final(state) == switched(*old(state), screen),
{
    state.previous_screen = state.screen;
    state.screen = screen;
}

// ── Lint filter ──────────────────────────────────────────────────────

/// The base-error indices the current filter keeps, ascending: all of them
/// for an empty filter, else those whose haystack contains the lower-cased
/// filter text.
pub open spec fn filter_matches(l: LintState) -> Seq<int> {
    let pat = lowercase(l.filter_text@);
    let all = Seq::new(l.base_errors@.len(), |i: int| i);
    if pat.len() == 0 {
        all
    } else {
        all.filter(|i: int| has_substring(l.filter_haystacks@[i]@, pat))
    }
}

/// `t` is a finding's text: its file path, a NUL, its rule, a NUL, and its
/// message.
pub open spec fn finding_text(t: Seq<char>, path: Seq<char>, rule: Seq<char>, message: Seq<char>) -> bool {
    let a = path.len() as int;
    let b = a + 1 + rule.len();
    &&& t.len() == b + 1 + message.len()
    &&& t.take(a) == path
    &&& t[a] == '\0'
    &&& t.subrange(a + 1, b) == rule
    &&& t[b] == '\0'
    &&& t.skip(b + 1) == message
}

proof fn lemma_finding_text_unique(t: Seq<char>, path: Seq<char>, rule: Seq<char>, message: Seq<char>)
    requires
        finding_text(t, path, rule, message),
    ensures
        t == path + seq!['\0'] + rule + seq!['\0'] + message,
{
    let a = path.len() as int;
    let b = a + 1 + rule.len();
    let u = path + seq!['\0'] + rule + seq!['\0'] + message;
    assert forall|i: int| 0 <= i < t.len() implies t[i] == u[i] by {
        if i < a {
            assert(t.take(a)[i] == t[i]);
        } else if a < i < b {
            assert(t.subrange(a + 1, b)[i - a - 1] == t[i]);
        } else if i > b {
            assert(t.skip(b + 1)[i - b - 1] == t[i]);
        }
    }
    assert(t =~= u);
}

/// The filter searches each finding's file path as well as its rule and
/// message: with a filter, a finding is listed exactly when the lower-cased
/// filter occurs in the lower-cased text of its path, rule and message.
pub proof fn lemma_filter_searches_path_rule_message(l: LintState, i: int)
    requires
        l.wf(),
        lowercase(l.filter_text@).len() > 0,
    ensures
        filter_matches(l).contains(i) <==> 0 <= i < l.base_errors@.len() && exists|t: Seq<char>|
            finding_text(t, l.base_errors@[i].0@, l.base_errors@[i].1.rule@, l.base_errors@[i].1.message@)
                && #[trigger] has_substring(lowercase(t), lowercase(l.filter_text@)),
{
    let pat = lowercase(l.filter_text@);
    let all = Seq::new(l.base_errors@.len(), |k: int| k);
    let pred = |k: int| has_substring(l.filter_haystacks@[k]@, pat);
    if 0 <= i < l.base_errors@.len() {
        let e = l.base_errors@[i];
        let t0 = e.0@ + seq!['\0'] + e.1.rule@ + seq!['\0'] + e.1.message@;
        let a = e.0@.len() as int;
        let b = a + 1 + e.1.rule@.len();
        assert(t0.take(a) =~= e.0@);
        assert(t0.subrange(a + 1, b) =~= e.1.rule@);
        assert(t0.skip(b + 1) =~= e.1.message@);
        assert(finding_text(t0, e.0@, e.1.rule@, e.1.message@));
        assert(l.filter_haystacks@[i]@ == lowercase(t0));
        assert(all[i] == i);
        if pred(i) {
            all.lemma_filter_contains(pred, i);
        }
        if exists|t: Seq<char>|
            finding_text(t, e.0@, e.1.rule@, e.1.message@) && #[trigger] has_substring(lowercase(t), pat) {
            let t = choose|t: Seq<char>|
                finding_text(t, e.0@, e.1.rule@, e.1.message@) && #[trigger] has_substring(lowercase(t), pat);
            lemma_finding_text_unique(t, e.0@, e.1.rule@, e.1.message@);
            all.lemma_filter_contains(pred, i);
        }
        if filter_matches(l).contains(i) {
            broadcast use vstd::seq_lib::group_filter_ensures;
            let k = choose|k: int| 0 <= k < all.filter(pred).len() && all.filter(pred)[k] == i;
            assert(pred(all.filter(pred)[k]));
        }
    } else {
        if filter_matches(l).contains(i) {
            all.lemma_filter_contains_rev(pred, i);
        }
    }
}

/// The filtered indices as integers.
pub open spec fn index_view(v: Seq<usize>) -> Seq<int> {
    v.map_values(|i: usize| i as int)
}

/// Reapply the current filter to the base errors and select the first row.
pub fn apply_filter(state: &mut AppState)
    requires
        old(state).lint.filter_haystacks@.len() == old(state).lint.base_errors@.len(),
    ensures
        *final(state) == (AppState {
            lint: LintState { filtered: final(state).lint.filtered, selected_index: 0, ..old(state).lint },
            ..*old(state)
        }),
        index_view(final(state).lint.filtered@) == filter_matches(old(state).lint),
        forall|k: int| 0 <= k < final(state).lint.filtered@.len() ==> #[trigger] final(state).lint.filtered@[k]
            < final(state).lint.base_errors@.len(),
{
    let pat_s = to_lowercase(state.lint.filter_text.as_str());
    let pat = chars_of(pat_s.as_str());
    let n = state.lint.base_errors.len();
    let ghost all = Seq::new(n as nat, |i: int| i);
    let ghost keep = |i: int| has_substring(state.lint.filter_haystacks@[i]@, pat@);
    let mut filtered: Vec<usize> = Vec::new();
    for i in 0..n
        invariant
            n == state.lint.base_errors@.len(),
            n == state.lint.filter_haystacks@.len(),
            all == Seq::new(n as nat, |i: int| i),
            keep == (|i: int| has_substring(state.lint.filter_haystacks@[i]@, pat@)),
            pat@.len() == 0 ==> index_view(filtered@) == all.take(i as int),
            pat@.len() > 0 ==> index_view(filtered@) == all.take(i as int).filter(keep),
            forall|k: int| 0 <= k < filtered@.len() ==> #[trigger] filtered@[k] < n,
    {
        proof {
            reveal(Seq::filter);
            assert(all.take(i + 1).drop_last() == all.take(i as int));
            assert(all.take(i + 1).last() == i);
            assert(all.take(i + 1) == all.take(i as int).push(i as int));
        }
        let ghost f0 = filtered@;
        if pat.len() == 0 {
            filtered.push(i);
            assert(index_view(filtered@) == index_view(f0).push(i as int));
        } else {
            let h = chars_of(state.lint.filter_haystacks[i].as_str());
            if contains_chars(&h, &pat) {
                filtered.push(i);
                assert(index_view(filtered@) == index_view(f0).push(i as int));
            } else {
                assert(index_view(filtered@) == index_view(f0));
            }
        }
    }
    assert(all.take(n as int) == all);
    state.lint.filtered = filtered;
    state.lint.selected_index = 0;
}

} // verus!
