//! The update function of the interactive assistant: how each message
//! changes the state and which side effect it asks for.

use vstd::prelude::*;

use crate::lint_result::{rounded_ms, LintResult};
use crate::rule::LintError;
use crate::text::{
    chars_of,
    count_distinct,
    decimal,
    distinct_count,
    push_decimal,
    push_str,
    str_views,
    string_from_chars,
};
use crate::tui_data::{
    derive_unused_findings,
    finding_view,
    findings_sorted,
    rebuild_base_errors,
    unused_candidates,
};
use crate::tui_keys::{handle_key, key_post, shows_status};
use crate::tui_model::{
    entry_view,
    AppState,
    Command,
    DepsState,
    DepsSubView,
    FixReviewState,
    InputMode,
    LintState,
    MouseEvent,
    MouseEventKind,
    Msg,
    Screen,
    SearchResult,
    SearchState,
    SourcePreview,
    TableHitTest,
    UnusedFinding,
    UnusedState,
};
use crate::tui_nav::{
    selection,
    apply_filter,
    current_list_len,
    filter_matches,
    index_view,
    list_len,
    moved_down,
    moved_up,
    next_gen,
    select_next,
    select_prev,
    set_selection,
    set_status,
    with_selection,
    with_status,
};

verus! {

// ── Construction ─────────────────────────────────────────────────────

impl AppState {
    /// The state at start-up: the dashboard, nothing analysed yet, the
    /// status "Loading project..." while loading.
    pub fn new(src_dir: String) -> (s: AppState)
        ensures
            s.wf(),
            s.screen == Screen::Dashboard,
            s.previous_screen == Screen::Dashboard,
            !s.quit,
            s.input_mode == InputMode::Normal,
            s.src_dir == src_dir,
            s.module_count == 0 && s.file_count == 0 && s.parse_error_count == 0,
            s.parse_errors@.len() == 0,
            s.lint.result is None,
            s.lint.selected_index == 0,
            s.lint.filter_text@.len() == 0,
            s.lint.base_errors@.len() == 0,
            s.lint.filter_haystacks@.len() == 0,
            s.lint.filtered@.len() == 0,
            s.lint.show_preview,
            s.fix_review.items@.len() == 0 && s.fix_review.accepted_mask@.len() == 0,
            s.fix_review.current_index == 0 && s.fix_review.accepted_count == 0 && s.fix_review.skipped_count == 0,
            !s.fix_review.confirm_accept_all,
            s.deps.stats is None && s.deps.graph_data is None,
            s.deps.sub_view == DepsSubView::Stats,
            s.deps.selected_index == 0,
            s.unused.findings@.len() == 0 && s.unused.selected_index == 0 && s.unused.preview is None,
            s.search.query@.len() == 0 && s.search.results@.len() == 0,
            s.search.selected_index == 0 && s.search.preview is None,
            s.status_message matches Some(m) && m@ == "Loading project..."@,
            s.status_gen == 1,
            s.loading,
            s.table_hit == (TableHitTest { data_top: 0, visible_rows: 0, scroll: 0 }),
    {
        let mut status = String::new();
        push_str(&mut status, "Loading project...");
        AppState {
            screen: Screen::Dashboard,
            previous_screen: Screen::Dashboard,
            quit: false,
            input_mode: InputMode::Normal,
            src_dir,
            module_count: 0,
            file_count: 0,
            parse_error_count: 0,
            parse_errors: Vec::new(),
            lint: LintState {
                result: None,
                selected_index: 0,
                filter_text: String::new(),
                base_errors: Vec::new(),
                filter_haystacks: Vec::new(),
                filtered: Vec::new(),
                show_preview: true,
            },
            fix_review: FixReviewState {
                items: Vec::new(),
                accepted_mask: Vec::new(),
                current_index: 0,
                accepted_count: 0,
                skipped_count: 0,
                confirm_accept_all: false,
            },
            deps: DepsState { stats: None, graph_data: None, sub_view: DepsSubView::Stats, selected_index: 0 },
            unused: UnusedState { findings: Vec::new(), selected_index: 0, preview: None },
            search: SearchState { query: String::new(), results: Vec::new(), selected_index: 0, preview: None },
            status_message: Some(status),
            status_gen: 1,
            loading: true,
            table_hit: TableHitTest { data_top: 0, visible_rows: 0, scroll: 0 },
        }
    }
}

impl LintState {
    /// Number of rows the (filtered) list shows.
    pub fn visible_len(&self) -> (n: usize)
        ensures
            n == self.filtered@.len(),
    {
        self.filtered.len()
    }

    /// The finding on row `i` of the (filtered) list.
    pub fn visible_at(&self, i: usize) -> (r: Option<&(String, LintError)>)
        ensures
            i < self.filtered@.len() && self.filtered@[i as int] < self.base_errors@.len() ==> r == Some(
                &self.base_errors@[self.filtered@[i as int] as int],
            ),
            !(i < self.filtered@.len() && self.filtered@[i as int] < self.base_errors@.len()) ==> r is None,
    {
        if i < self.filtered.len() && self.filtered[i] < self.base_errors.len() {
            Some(&self.base_errors[self.filtered[i]])
        } else {
            None
        }
    }
}

// ── Mouse ────────────────────────────────────────────────────────────

/// The list row a click on visible row `row` selects, if any. On the deps
/// tree the selected module's imports are shown as extra rows below it:
/// clicks on them select nothing, and rows below them map past them.
pub open spec fn click_target(s: AppState, row: int) -> Option<int> {
    let hit = s.table_hit;
    if s.screen == Screen::Deps {
        let sel = s.deps.selected_index as int;
        let n_imports = match s.deps.graph_data {
            Some(g) => if sel < g@.len() {
                g@[sel].1@.len() as int
            } else {
                0
            },
            None => 0,
        };
        if sel < hit.scroll {
            Some(hit.scroll + row)
        } else {
            let sel_row = sel - hit.scroll;
            if row <= sel_row {
                Some(hit.scroll + row)
            } else if row <= sel_row + n_imports {
                None
            } else {
                Some(hit.scroll + row - n_imports)
            }
        }
    } else {
        Some(hit.scroll + row)
    }
}

/// What a mouse event does: on list screens (and only the tree of the
/// deps screen) a left click selects the clicked row, scrolling moves the
/// selection.
pub open spec fn mouse_post(old: AppState, new: AppState, m: MouseEvent) -> bool {
    let list_screen = old.screen == Screen::Lint || old.screen == Screen::Unused || old.screen == Screen::Search
        || old.screen == Screen::Deps;
    if !list_screen || (old.screen == Screen::Deps && old.deps.sub_view != DepsSubView::Tree) {
        new == old
    } else {
        match m.kind {
            MouseEventKind::LeftDown => {
                let hit = old.table_hit;
                if hit.visible_rows == 0 || m.row < hit.data_top || m.row - hit.data_top >= hit.visible_rows {
                    new == old
                } else {
                    match click_target(old, m.row - hit.data_top) {
                        Some(t) => if 0 <= t < list_len(old) {
                            new == with_selection(old, t as usize)
                        } else {
                            new == old
                        },
                        None => new == old,
                    }
                }
            },
            MouseEventKind::ScrollDown => new == moved_down(old, 1),
            MouseEventKind::ScrollUp => new == moved_up(old, 1),
            MouseEventKind::Other => new == old,
        }
    }
}

fn handle_mouse(state: &mut AppState, mouse: MouseEvent) -> (cmd: Command)
    requires
        old(state).wf(),
    ensures
        final(state).wf(),
        mouse_post(*old(state), *final(state), mouse),
        cmd == Command::NoOp,
{
    let is_list_screen = state.screen == Screen::Lint || state.screen == Screen::Unused || state.screen
        == Screen::Search || state.screen == Screen::Deps;
    if !is_list_screen {
        return Command::NoOp;
    }
    if state.screen == Screen::Deps && state.deps.sub_view != DepsSubView::Tree {
        return Command::NoOp;
    }
    match mouse.kind {
        MouseEventKind::LeftDown => {
            let hit = state.table_hit;
            if hit.visible_rows == 0 || mouse.row < hit.data_top {
                return Command::NoOp;
            }
            let row_within = (mouse.row - hit.data_top) as usize;
            if row_within >= hit.visible_rows as usize {
                return Command::NoOp;
            }
            let len = current_list_len(state);
            let target: Option<usize> = if state.screen == Screen::Deps {
                let sel = state.deps.selected_index;
                let n_imports: usize = match &state.deps.graph_data {
                    Some(g) => if sel < g.len() {
                        g[sel].1.len()
                    } else {
                        0
                    },
                    None => 0,
                };
                if sel < hit.scroll {
                    if hit.scroll <= usize::MAX - row_within {
                        Some(hit.scroll + row_within)
                    } else {
                        None
                    }
                } else {
                    let sel_row = sel - hit.scroll;
                    if row_within <= sel_row {
                        Some(hit.scroll + row_within)
                    } else if row_within - sel_row <= n_imports {
                        return Command::NoOp;
                    } else {
                        let d = row_within - sel_row - n_imports;
                        if sel <= usize::MAX - d {
                            Some(sel + d)
                        } else {
                            None
                        }
                    }
                }
            } else {
                if hit.scroll <= usize::MAX - row_within {
                    Some(hit.scroll + row_within)
                } else {
                    None
                }
            };
            match target {
                Some(t) => {
                    if t < len {
                        set_selection(state, t);
                    }
                },
                None => {},
            }
            Command::NoOp
        },
        MouseEventKind::ScrollDown => {
            select_next(state);
            Command::NoOp
        },
        MouseEventKind::ScrollUp => {
            select_prev(state);
            Command::NoOp
        },
        MouseEventKind::Other => Command::NoOp,
    }
}

// ── File changes ─────────────────────────────────────────────────────

/// Where the last component of `p[..j]` ends once trailing separators and
/// `.` components are dropped.
pub open spec fn trimmed_end(p: Seq<char>, j: int) -> int
    decreases j,
{
    if j <= 0 {
        0
    } else if p[j - 1] == '/' {
        trimmed_end(p, j - 1)
    } else if p[j - 1] == '.' && (j == 1 || p[j - 2] == '/') && (j == p.len() || p[j] == '/') {
        trimmed_end(p, j - 1)
    } else {
        j
    }
}

/// Where the component ending at `k` starts (just after the `'/'` before it).
pub open spec fn component_start(p: Seq<char>, k: int) -> int
    decreases k,
{
    if k <= 0 {
        0
    } else if p[k - 1] == '/' {
        k
    } else {
        component_start(p, k - 1)
    }
}

/// The file name of a path as `Path::file_name` sees it: its last
/// component, ignoring trailing separators and `.` components.
pub open spec fn file_name_of(p: Seq<char>) -> Seq<char> {
    let end = trimmed_end(p, p.len() as int);
    p.subrange(component_start(p, end), end)
}

/// The text after the last `'/'` of `p` (all of `p` without one).
pub open spec fn after_last_slash(p: Seq<char>) -> Seq<char> {
    p.skip(component_start(p, p.len() as int))
}

/// The name of the assistant's configuration file.
pub open spec fn config_file_name() -> Seq<char> {
    "elm-assist.toml"@
}

proof fn lemma_component_bounds(p: Seq<char>, k: int)
    requires
        0 <= k <= p.len(),
    ensures
        0 <= component_start(p, k) <= k,
        0 <= trimmed_end(p, k) <= k,
    decreases k,
{
    if k > 0 {
        lemma_component_bounds(p, k - 1);
    }
}

/// Whether the file name of path `p` is the configuration file's name.
fn is_config_path(p: &str) -> (r: bool)
    ensures
        r == (file_name_of(p@) == config_file_name()),
{
    let c = chars_of(p);
    let n = c.len();
    let mut j = n;
    proof {
        lemma_component_bounds(c@, n as int);
    }
    loop
        invariant
            j <= n,
            n == c@.len(),
            trimmed_end(c@, n as int) == trimmed_end(c@, j as int),
        ensures
            j <= n,
            trimmed_end(c@, n as int) == j,
        decreases j,
    {
        if j == 0 {
            break;
        }
        if c[j - 1] == '/' {
            j = j - 1;
        } else if c[j - 1] == '.' && (j == 1 || c[j - 2] == '/') && (j == n || c[j] == '/') {
            j = j - 1;
        } else {
            break;
        }
    }
    let mut i = j;
    while i > 0 && c[i - 1] != '/'
        invariant
            i <= j <= n,
            n == c@.len(),
            component_start(c@, j as int) == component_start(c@, i as int),
        decreases i,
    {
        i = i - 1;
    }
    assert(component_start(c@, i as int) == i);
    assert(file_name_of(p@) == c@.subrange(i as int, j as int));
    let name = chars_of("elm-assist.toml");
    if j - i != name.len() {
        return false;
    }
    let mut k: usize = 0;
    while k < name.len()
        invariant
            i <= j <= n,
            n == c@.len(),
            j - i == name@.len(),
            k <= name@.len(),
            c@ == p@,
            name@ == config_file_name(),
            file_name_of(p@) == c@.subrange(i as int, j as int),
            forall|q: int| 0 <= q < k ==> c@[i + q] == name@[q],
        decreases name.len() - k,
    {
        if c[i + k] != name[k] {
            assert(c@.subrange(i as int, j as int)[k as int] != name@[k as int]);
            return false;
        }
        k = k + 1;
    }
    assert(c@.subrange(i as int, j as int) =~= name@);
    true
}

/// Whether any changed path is the configuration file.
fn any_config_path(paths: &Vec<String>) -> (r: bool)
    ensures
        r == exists|k: int| 0 <= k < paths@.len() && file_name_of(#[trigger] paths@[k]@) == config_file_name(),
{
    for k in 0..paths.len()
        invariant
            forall|q: int| 0 <= q < k ==> file_name_of(#[trigger] paths@[q]@) != config_file_name(),
    {
        if is_config_path(paths[k].as_str()) {
            return true;
        }
    }
    false
}

/// What a file change does: a changed configuration file rescans the
/// project; otherwise the analyses run again, the status naming the changed
/// file (or how many changed).
pub open spec fn file_changed_post(old: AppState, new: AppState, paths: Seq<String>, cmd: Command) -> bool {
    let loading = AppState { loading: true, ..old };
    if exists|k: int| 0 <= k < paths.len() && file_name_of(#[trigger] paths[k]@) == config_file_name() {
        shows_status(loading, new, "Config changed, re-scanning..."@) && cmd == Command::ScanProject
    } else {
        let label = if paths.len() == 1 {
            after_last_slash(paths[0]@)
        } else {
            decimal(paths.len()) + " files"@
        };
        shows_status(loading, new, "Re-linting ("@ + label + " changed)..."@) && cmd == Command::RunAnalyses
    }
}

fn file_changed(state: &mut AppState, paths: Vec<String>) -> (cmd: Command)
    requires
        old(state).wf(),
    ensures
        final(state).wf(),
        file_changed_post(*old(state), *final(state), paths@, cmd),
{
    if any_config_path(&paths) {
        state.loading = true;
        let mut msg = String::new();
        push_str(&mut msg, "Config changed, re-scanning...");
        set_status(state, msg);
        Command::ScanProject
    } else {
        let n = paths.len();
        let mut msg = String::new();
        push_str(&mut msg, "Re-linting (");
        if n == 1 {
            let c = chars_of(paths[0].as_str());
            let mut i = c.len();
            proof {
                lemma_component_bounds(c@, c@.len() as int);
            }
            while i > 0 && c[i - 1] != '/'
                invariant
                    i <= c@.len(),
                    component_start(c@, c@.len() as int) == component_start(c@, i as int),
                decreases i,
            {
                i = i - 1;
            }
            let mut tail: Vec<char> = Vec::new();
            let mut k = i;
            while k < c.len()
                invariant
                    i <= k <= c@.len(),
                    tail@ == c@.subrange(i as int, k as int),
                decreases c.len() - k,
            {
                tail.push(c[k]);
                k = k + 1;
                assert(c@.subrange(i as int, k as int) == c@.subrange(i as int, k - 1).push(c@[k - 1]));
            }
            assert(c@.subrange(i as int, c@.len() as int) == c@.skip(i as int));
            let label = string_from_chars(&tail);
            assert(label@ == after_last_slash(paths@[0]@));
            push_str(&mut msg, label.as_str());
            assert(msg@ == "Re-linting ("@ + after_last_slash(paths@[0]@));
        } else {
            push_decimal(&mut msg, n as u64);
            push_str(&mut msg, " files");
            assert(msg@ == "Re-linting ("@ + (decimal(paths@.len()) + " files"@));
        }
        push_str(&mut msg, " changed)...");
        let ghost label = if paths@.len() == 1 {
            after_last_slash(paths@[0]@)
        } else {
            decimal(paths@.len()) + " files"@
        };
        assert(msg@ == "Re-linting ("@ + label + " changed)..."@);
        state.loading = true;
        set_status(state, msg);
        Command::RunAnalyses
    }
}

// ── Lint results ─────────────────────────────────────────────────────

/// The status after a lint run.
pub open spec fn lint_summary(r: LintResult) -> Seq<char> {
    "Lint: "@ + decimal(r.total_errors as nat) + " findings in "@ + decimal(rounded_ms(r.elapsed_ns as nat)) + "ms"@ + if r.cached {
        " (cached)"@
    } else {
        Seq::empty()
    }
}

/// The (path, line) of the finding on row `i` of the list, if there is one.
pub open spec fn anchor_at(l: LintState, i: int) -> Option<(Seq<char>, u32)> {
    if 0 <= i < l.filtered@.len() && l.filtered@[i] < l.base_errors@.len() {
        let e = l.base_errors@[l.filtered@[i] as int];
        Some((e.0@, e.1.span.start.line))
    } else {
        None
    }
}

/// The first row at or after `k` whose finding is at `a`, if any.
pub open spec fn anchor_row_from(l: LintState, a: (Seq<char>, u32), k: int) -> Option<int>
    decreases l.filtered@.len() - k,
{
    if k < 0 || k >= l.filtered@.len() {
        None
    } else if anchor_at(l, k) == Some(a) {
        Some(k)
    } else {
        anchor_row_from(l, a, k + 1)
    }
}

proof fn lemma_anchor_row_same(l1: LintState, l2: LintState, a: (Seq<char>, u32), k: int)
    requires
        l1.filtered == l2.filtered,
        l1.base_errors == l2.base_errors,
    ensures
        anchor_row_from(l1, a, k) == anchor_row_from(l2, a, k),
    decreases l1.filtered@.len() - k,
{
    if 0 <= k < l1.filtered@.len() {
        lemma_anchor_row_same(l1, l2, a, k + 1);
    }
}

/// The row selected after a new lint result: the old row if it still shows
/// the same file and line, else the first row that does, else the first.
pub open spec fn restored_row(old: LintState, new: LintState) -> usize {
    match anchor_at(old, old.selected_index as int) {
        None => 0,
        Some(a) => if anchor_at(new, old.selected_index as int) == Some(a) {
            old.selected_index
        } else {
            match anchor_row_from(new, a, 0) {
                Some(k) => k as usize,
                None => 0,
            }
        },
    }
}

/// What a finished lint run does: keep the result, rebuild and refilter
/// the finding list, derive the unused-code findings, restore the
/// selection near the same file and line, and report the run.
pub open spec fn lint_complete_post(old: AppState, new: AppState, r: LintResult, cmd: Command) -> bool {
    let nl = new.lint;
    &&& new == (AppState {
        lint: LintState {
            result: Some(r),
            base_errors: nl.base_errors,
            filter_haystacks: nl.filter_haystacks,
            filtered: nl.filtered,
            selected_index: nl.selected_index,
            ..old.lint
        },
        unused: UnusedState {
            findings: new.unused.findings,
            selected_index: if old.unused.selected_index >= new.unused.findings@.len() {
                0
            } else {
                old.unused.selected_index
            },
            preview: None,
        },
        loading: false,
        status_message: new.status_message,
        status_gen: next_gen(old.status_gen),
        ..old
    })
    &&& nl.base_errors@.map_values(|e: (String, LintError)| entry_view(e)) == crate::tui_data::flat_errors(
        r.file_errors@,
    )
    &&& index_view(nl.filtered@) == filter_matches(nl)
    &&& nl.selected_index == restored_row(old.lint, nl)
    &&& findings_sorted(new.unused.findings@.map_values(|f: UnusedFinding| finding_view(f)))
    &&& new.unused.findings@.map_values(|f: UnusedFinding| finding_view(f)).to_multiset() == unused_candidates(
        nl.base_errors@.map_values(|e: (String, LintError)| entry_view(e)),
    ).to_multiset()
    &&& new.status_message matches Some(m) && m@ == lint_summary(r)
    &&& cmd == Command::ClearStatusAfter(new.status_gen)
}

fn lint_complete(state: &mut AppState, result: LintResult) -> (cmd: Command)
    requires
        old(state).wf(),
        result.wf(),
    ensures
        final(state).wf(),
        lint_complete_post(*old(state), *final(state), result, cmd),
{
    let ghost old_lint = state.lint;
    let ghost r0 = result;
    let mut summary = String::new();
    push_str(&mut summary, "Lint: ");
    push_decimal(&mut summary, result.total_errors as u64);
    push_str(&mut summary, " findings in ");
    let ms = result.elapsed_whole_ms();
    push_decimal(&mut summary, ms);
    push_str(&mut summary, "ms");
    if result.cached {
        push_str(&mut summary, " (cached)");
    }
    assert(summary@ == lint_summary(r0));
    let prev_index = state.lint.selected_index;
    let prev_anchor: Option<(String, u32)> = match state.lint.visible_at(prev_index) {
        Some(e) => Some((e.0.clone(), e.1.span.start.line)),
        None => None,
    };
    let ghost ga = prev_anchor;
    assert(prev_anchor matches Some(pa) ==> anchor_at(old_lint, prev_index as int) == Some((pa.0@, pa.1)));
    assert(prev_anchor is None ==> anchor_at(old_lint, prev_index as int) is None);
    state.lint.result = Some(result);
    rebuild_base_errors(state);
    apply_filter(state);
    let findings = derive_unused_findings(&state.lint.base_errors);
    state.unused.findings = findings;
    if state.unused.selected_index >= state.unused.findings.len() {
        state.unused.selected_index = 0;
    }
    state.unused.preview = None;
    let ghost mid_lint = state.lint;
    match prev_anchor {
        Some((prev_path, prev_line)) => {
            let still_valid = match state.lint.visible_at(prev_index) {
                Some(e) => e.0 == prev_path && e.1.span.start.line == prev_line,
                None => false,
            };
            if still_valid {
                state.lint.selected_index = prev_index;
            } else {
                let mut k: usize = 0;
                let mut found: Option<usize> = None;
                let ghost a = (prev_path@, prev_line);
                while k < state.lint.filtered.len()
                    invariant_except_break
                        found is None,
                    invariant
                        state.lint == mid_lint,
                        k <= mid_lint.filtered@.len(),
                        anchor_row_from(mid_lint, a, 0) == anchor_row_from(mid_lint, a, k as int),
                        a == (prev_path@, prev_line),
                    ensures
                        found matches Some(f) ==> anchor_row_from(mid_lint, a, 0) == Some(f as int),
                        found is None ==> anchor_row_from(mid_lint, a, 0) is None,
                    decreases mid_lint.filtered@.len() - k,
                {
                    match state.lint.visible_at(k) {
                        Some(e) => {
                            if e.0 == prev_path && e.1.span.start.line == prev_line {
                                found = Some(k);
                                break;
                            }
                        },
                        None => {},
                    }
                    k = k + 1;
                }
                state.lint.selected_index = match found {
                    Some(f) => f,
                    None => 0,
                };
            }
        },
        None => {},
    }
    state.loading = false;
    set_status(state, summary);
    proof {
        assert(state.lint.filtered == mid_lint.filtered);
        let nl = state.lint;
        assert(nl.base_errors@.map_values(|e: (String, LintError)| entry_view(e)) == crate::tui_data::flat_errors(r0.file_errors@));
        assert(index_view(nl.filtered@) == filter_matches(nl));
        if let Some(pa) = ga {
            lemma_anchor_row_same(nl, mid_lint, (pa.0@, pa.1), 0);
        }
        assert(nl.selected_index == restored_row(old_lint, nl));
        assert(state.status_message.unwrap()@ == lint_summary(r0));
    }
    Command::ClearStatusAfter(state.status_gen)
}

// ── Search results and previews ──────────────────────────────────────

/// The file paths of search results.
pub open spec fn result_paths(v: Seq<SearchResult>) -> Seq<Seq<char>> {
    v.map_values(|r: SearchResult| r.file_path@)
}

/// What a finished search does: show its results from the top without a
/// preview, and report how many there are in how many files.
pub open spec fn search_complete_post(old: AppState, new: AppState, results: Vec<SearchResult>, cmd: Command) -> bool {
    let n = results@.len();
    let mid = AppState {
        search: SearchState { results, selected_index: 0, preview: None, ..old.search },
        loading: false,
        ..old
    };
    &&& shows_status(
        mid,
        new,
        if n > 0 {
            "Search: "@ + decimal(n) + " results in "@ + decimal(distinct_count(result_paths(results@))) + " files"@
        } else {
            "Search: no results found"@
        },
    )
    &&& cmd == Command::ClearStatusAfter(new.status_gen)
}

fn search_complete(state: &mut AppState, results: Vec<SearchResult>) -> (cmd: Command)
    requires
        old(state).wf(),
    ensures
        final(state).wf(),
        search_complete_post(*old(state), *final(state), results, cmd),
{
    let n = results.len();
    let mut paths: Vec<&str> = Vec::new();
    for i in 0..results.len()
        invariant
            str_views(paths@) == result_paths(results@).take(i as int),
    {
        let ghost p0 = paths@;
        paths.push(results[i].file_path.as_str());
        assert(str_views(paths@) == str_views(p0).push(results@[i as int].file_path@));
        assert(result_paths(results@).take(i + 1) == result_paths(results@).take(i as int).push(results@[i as int].file_path@));
    }
    assert(result_paths(results@).take(n as int) == result_paths(results@));
    let file_count = count_distinct(&paths);
    state.search.results = results;
    state.search.selected_index = 0;
    state.search.preview = None;
    let mut msg = String::new();
    if n > 0 {
        push_str(&mut msg, "Search: ");
        push_decimal(&mut msg, n as u64);
        push_str(&mut msg, " results in ");
        push_decimal(&mut msg, file_count as u64);
        push_str(&mut msg, " files");
    } else {
        push_str(&mut msg, "Search: no results found");
    }
    state.loading = false;
    set_status(state, msg);
    Command::ClearStatusAfter(state.status_gen)
}

/// What a loaded preview does: shown on Unused or Search only if it is
/// still the preview of the selected row there; otherwise dropped.
pub open spec fn preview_loaded_post(old: AppState, new: AppState, file_path: String, line: usize, source: String) -> bool {
    let p = SourcePreview { file_path, line, source };
    match old.screen {
        Screen::Unused => if old.unused.selected_index < old.unused.findings@.len() && old.unused.findings@[old.unused.selected_index as int].file_path@
            == file_path@ && old.unused.findings@[old.unused.selected_index as int].line == line {
            new == (AppState { unused: UnusedState { preview: Some(p), ..old.unused }, ..old })
        } else {
            new == old
        },
        Screen::Search => if old.search.selected_index < old.search.results@.len() && old.search.results@[old.search.selected_index as int].file_path@
            == file_path@ && old.search.results@[old.search.selected_index as int].line == line {
            new == (AppState { search: SearchState { preview: Some(p), ..old.search }, ..old })
        } else {
            new == old
        },
        _ => new == old,
    }
}

fn preview_loaded(state: &mut AppState, file_path: String, line: usize, source: String)
    requires
        old(state).wf(),
    ensures
        final(state).wf(),
        preview_loaded_post(*old(state), *final(state), file_path, line, source),
{
    match state.screen {
        Screen::Unused => {
            let i = state.unused.selected_index;
            if i < state.unused.findings.len() && state.unused.findings[i].file_path == file_path
                && state.unused.findings[i].line == line {
                state.unused.preview = Some(SourcePreview { file_path, line, source });
            }
        },
        Screen::Search => {
            let i = state.search.selected_index;
            if i < state.search.results.len() && state.search.results[i].file_path == file_path
                && state.search.results[i].line == line {
                state.search.preview = Some(SourcePreview { file_path, line, source });
            }
        },
        _ => {},
    }
}

// ── Update ───────────────────────────────────────────────────────────

/// What `update` does with each message.
pub open spec fn update_post(old: AppState, new: AppState, msg: Msg, cmd: Command) -> bool {
    match msg {
        Msg::Quit => new == (AppState { quit: true, ..old }) && cmd == Command::NoOp,
        Msg::Tick => new == old && cmd == Command::NoOp,
        Msg::KeyPress(key) => key_post(old, new, key.code, cmd),
        Msg::MouseEvent(m) => mouse_post(old, new, m) && cmd == Command::NoOp,
        Msg::StatusError(text) | Msg::StatusInfo(text) => new == with_status(AppState { loading: false, ..old }, text)
            && cmd == Command::ClearStatusAfter(new.status_gen),
        Msg::ClearStatus(g) => cmd == Command::NoOp && if g == old.status_gen && !old.loading {
            new == (AppState { status_message: None, ..old })
        } else {
            new == old
        },
        Msg::FileChanged(paths) => file_changed_post(old, new, paths@, cmd),
        Msg::LintComplete(r) => lint_complete_post(old, new, r, cmd),
        Msg::DepsComplete { stats, graph_data } => new == (AppState {
            deps: DepsState { stats: Some(stats), graph_data: Some(graph_data), ..old.deps },
            ..old
        }) && cmd == Command::NoOp,
        Msg::SearchComplete(results) => search_complete_post(old, new, results, cmd),
        Msg::PreviewLoaded { file_path, line, source } => preview_loaded_post(old, new, file_path, line, source)
            && cmd == Command::NoOp,
        Msg::ProjectScanned { module_count, file_count, parse_error_count, parse_errors } => shows_status(
            AppState { module_count, file_count, parse_error_count, parse_errors, ..old },
            new,
            "Running lint..."@,
        ) && cmd == Command::RunAnalyses,
    }
}

/// The messages `update` accepts in a well-formed state: a lint result must
/// itself be well formed.
pub open spec fn msg_wf(msg: Msg) -> bool {
    match msg {
        Msg::LintComplete(r) => r.wf(),
        _ => true,
    }
}

/// Apply a message to the state and return the side effect to run.
pub fn update(state: &mut AppState, msg: Msg) -> (cmd: Command)
    requires
        old(state).wf(),
        msg_wf(msg),
    ensures
        final(state).wf(),
        update_post(*old(state), *final(state), msg, cmd),
{
    match msg {
        Msg::Quit => {
            state.quit = true;
            Command::NoOp
        },
        Msg::Tick => Command::NoOp,
        Msg::KeyPress(key) => handle_key(state, key),
        Msg::MouseEvent(mouse) => handle_mouse(state, mouse),
        Msg::StatusError(text) => {
            state.loading = false;
            set_status(state, text);
            Command::ClearStatusAfter(state.status_gen)
        },
        Msg::StatusInfo(text) => {
            state.loading = false;
            set_status(state, text);
            Command::ClearStatusAfter(state.status_gen)
        },
        Msg::ClearStatus(g) => {
            if g == state.status_gen && !state.loading {
                state.status_message = None;
            }
            Command::NoOp
        },
        Msg::FileChanged(paths) => file_changed(state, paths),
        Msg::LintComplete(result) => lint_complete(state, result),
        Msg::DepsComplete { stats, graph_data } => {
            state.deps.stats = Some(stats);
            state.deps.graph_data = Some(graph_data);
            Command::NoOp
        },
        Msg::SearchComplete(results) => search_complete(state, results),
        Msg::PreviewLoaded { file_path, line, source } => {
            preview_loaded(state, file_path, line, source);
            Command::NoOp
        },
        Msg::ProjectScanned { module_count, file_count, parse_error_count, parse_errors } => {
            state.module_count = module_count;
            state.file_count = file_count;
            state.parse_error_count = parse_error_count;
            state.parse_errors = parse_errors;
            let mut msg = String::new();
            push_str(&mut msg, "Running lint...");
            set_status(state, msg);
            Command::RunAnalyses
        },
    }
}


// ── Laws ─────────────────────────────────────────────────────────────

/// A delayed `ClearStatus` clears only the message it was scheduled for:
/// once the generation moved on (any newer status message), it changes
/// nothing.
pub proof fn lemma_stale_clear_keeps_status(old: AppState, new: AppState, g: u64, cmd: Command)
    requires
        update_post(old, new, Msg::ClearStatus(g), cmd),
        g != old.status_gen,
    ensures
        new == old,
        cmd == Command::NoOp,
{
}

/// Every status message `update` shows moves the generation on, and the
/// `ClearStatusAfter` it asks for carries the new generation.
pub proof fn lemma_status_write_bumps_generation(old: AppState, new: AppState, text: String, cmd: Command)
    requires
        update_post(old, new, Msg::StatusInfo(text), cmd),
    ensures
        new.status_gen == next_gen(old.status_gen),
        new.status_gen != old.status_gen,
        new.status_message == Some(text),
        cmd == Command::ClearStatusAfter(new.status_gen),
{
}

/// Moving down, to the last row or (from a row of the list) up keeps the
/// selection on a row of a non-empty list; the list itself is unchanged.
pub proof fn lemma_navigation_stays_in_list(s: AppState, k: int)
    requires
        list_len(s) > 0,
        selection(s) is Some,
        k >= 0,
    ensures
        list_len(moved_down(s, k)) == list_len(s),
        selection(moved_down(s, k)) matches Some(i) && i < list_len(s),
        selection(crate::tui_nav::moved_last(s)) == Some((list_len(s) - 1) as usize),
        selection(s).unwrap() < list_len(s) ==> (selection(moved_up(s, k)) matches Some(i) && i < list_len(s)),
        selection(crate::tui_nav::moved_first(s)) == Some(0usize),
{
}
} // verus!
