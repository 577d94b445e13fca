//! Key handling of the interactive assistant: the lint filter input, the
//! search query input and the normal-mode key bindings.

use vstd::prelude::*;
use vstd::string::StringSliceAdditionalSpecFns;

use crate::rule::LintError;
use crate::text::{
    ascii_lower_text,
    chars_of,
    has_prefix,
    lowercase,
    pop_char,
    push_char,
    push_str,
    starts_with_chars,
    string_from_chars,
    to_lowercase,
};
use crate::tui_model::{
    entry_view,
    AppState,
    Command,
    DepsState,
    DepsSubView,
    InputMode,
    KeyCode,
    KeyEvent,
    LintState,
    Screen,
    SearchState,
    UnusedState,
};
use crate::tui_nav::{
    apply_filter,
    filter_matches,
    index_view,
    moved_down,
    moved_first,
    moved_last,
    moved_up,
    next_gen,
    page_down,
    page_rows,
    page_up,
    preview_reload,
    selected_row_preview,
    reload_preview_if_open,
    select_first,
    select_last,
    select_next,
    select_prev,
    set_status,
    switch_screen,
    switched,
    with_status,
};
use crate::tui_review::{
    accept_all_fixes,
    accept_all_post,
    accept_fix,
    accept_post,
    cancel_fix_review,
    enter_fix_review,
    enter_review_post,
    review_ended,
    skip_fix,
    skip_post,
};
use vstd::utf8::encode_utf8;

verus! {

// ── Lint filter input ────────────────────────────────────────────────

/// `new` is `old` with filter text `text` and input mode `mode`, the
/// filter reapplied and the first row selected.
pub open spec fn refiltered(old: AppState, new: AppState, text: Seq<char>, mode: InputMode) -> bool {
    &&& new.lint.filter_text@ == text
    &&& new == (AppState {
        input_mode: mode,
        lint: LintState {
            filter_text: new.lint.filter_text,
            filtered: new.lint.filtered,
            selected_index: 0,
            ..old.lint
        },
        ..old
    })
    &&& index_view(new.lint.filtered@) == filter_matches(new.lint)
}

/// What a key does while the lint filter is being typed.
pub open spec fn filter_key_post(old: AppState, new: AppState, key: KeyCode) -> bool {
    match key {
        KeyCode::Esc | KeyCode::Enter => new == (AppState { input_mode: InputMode::Normal, ..old }),
        KeyCode::Char(c) => refiltered(old, new, old.lint.filter_text@.push(c), old.input_mode),
        KeyCode::Backspace => {
            let t = if old.lint.filter_text@.len() == 0 {
                old.lint.filter_text@
            } else {
                old.lint.filter_text@.drop_last()
            };
            refiltered(old, new, t, if t.len() == 0 { InputMode::Normal } else { old.input_mode })
        },
        KeyCode::Down => new == moved_down(old, 1),
        KeyCode::Up => new == moved_up(old, 1),
        _ => new == old,
    }
}

/// Handle a key while the lint filter is being typed: a character extends
/// the filter, Backspace shortens it (leaving the input when it becomes
/// empty), Esc and Enter leave the input keeping the filter, and Up and Down
/// move the selection.
pub fn handle_filter_input(state: &mut AppState, key: KeyEvent) -> (cmd: Command)
    requires
        old(state).wf(),
    ensures
        final(state).wf(),
        filter_key_post(*old(state), *final(state), key.code),
        cmd == Command::NoOp,
{
    match key.code {
        KeyCode::Esc | KeyCode::Enter => {
            state.input_mode = InputMode::Normal;
        },
        KeyCode::Char(c) => {
            push_char(&mut state.lint.filter_text, c);
            apply_filter(state);
        },
        KeyCode::Backspace => {
            pop_char(&mut state.lint.filter_text);
            if state.lint.filter_text.as_str().is_empty() {
                state.input_mode = InputMode::Normal;
            }
            apply_filter(state);
        },
        KeyCode::Down => select_next(state),
        KeyCode::Up => select_prev(state),
        _ => {},
    }
    Command::NoOp
}

// ── Search query input ───────────────────────────────────────────────

/// The query type prefixes Tab completes.
pub open spec fn search_prefixes() -> Seq<Seq<char>> {
    seq![
        "returns:"@,
        "type:"@,
        "case-on:"@,
        "update:"@,
        "calls:"@,
        "unused-args:"@,
        "lambda:"@,
        "uses:"@,
        "def:"@,
        "expr:"@,
    ]
}

/// The query type prefixes, in order.
fn prefix_table() -> (v: Vec<&'static str>)
    ensures
        v@.map_values(|s: &str| s@) == search_prefixes(),
{
    let v: Vec<&'static str> = vec![
        "returns:",
        "type:",
        "case-on:",
        "update:",
        "calls:",
        "unused-args:",
        "lambda:",
        "uses:",
        "def:",
        "expr:",
    ];
    assert(v@.map_values(|s: &str| s@) =~= search_prefixes());
    v
}

/// Every query type prefix is lower-case ASCII text and holds a `':'`.
proof fn lemma_search_prefixes_shape()
    ensures
        forall|j: int|
            0 <= j < search_prefixes().len() ==> ascii_lower_text(#[trigger] search_prefixes()[j])
                && search_prefixes()[j].contains(':'),
{
    reveal_strlit("returns:");
    reveal_strlit("type:");
    reveal_strlit("case-on:");
    reveal_strlit("update:");
    reveal_strlit("calls:");
    reveal_strlit("unused-args:");
    reveal_strlit("lambda:");
    reveal_strlit("uses:");
    reveal_strlit("def:");
    reveal_strlit("expr:");
    let p = search_prefixes();
    assert forall|j: int| 0 <= j < p.len() implies ascii_lower_text(#[trigger] p[j]) && p[j].contains(':') by {
        let t = p[j];
        assert(t[t.len() - 1] == ':');
        assert(ascii_lower_text(t));
    }
}

/// Number of leading positions, from `k` on, where every sequence of `m`
/// has the same character as `m[0]`.
pub open spec fn common_from(m: Seq<Seq<char>>, k: int) -> nat
    decreases m[0].len() - k,
{
    if m.len() > 0 && 0 <= k < m[0].len() && forall|j: int| 0 <= j < m.len() ==> k < (#[trigger] m[j]).len()
        && m[j][k] == m[0][k] {
        1 + common_from(m, k + 1)
    } else {
        0
    }
}

/// The query after Tab: unchanged once it holds a `':'`; else the one
/// prefix that starts with the lower-cased query, or, when several do,
/// their longest common prefix if it is longer than the query (in bytes).
pub open spec fn completed_query(q: Seq<char>) -> Seq<char> {
    if q.contains(':') {
        q
    } else {
        let m = search_prefixes().filter(|p: Seq<char>| has_prefix(p, lowercase(q)));
        if m.len() == 0 {
            q
        } else if m.len() == 1 {
            m[0]
        } else {
            let l = common_from(m, 0);
            if l > encode_utf8(q).len() {
                m[0].take(l as int)
            } else {
                q
            }
        }
    }
}

/// Every sequence of `m` has the first one's character at position `t`.
pub open spec fn agree_at(m: Seq<Seq<char>>, t: int) -> bool {
    forall|j: int| 0 <= j < m.len() ==> t < (#[trigger] m[j]).len() && m[j][t] == m[0][t]
}

/// Over the positions `common_from` counts, every sequence has the first
/// one's character, and they lie within the first one.
proof fn lemma_common_from_agree(m: Seq<Seq<char>>, k: int)
    requires
        m.len() > 0,
        0 <= k <= m[0].len(),
    ensures
        k + common_from(m, k) <= m[0].len(),
        forall|t: int| k <= t < k + common_from(m, k) ==> #[trigger] agree_at(m, t),
    decreases m[0].len() - k,
{
    if common_from(m, k) > 0 {
        assert(agree_at(m, k));
        lemma_common_from_agree(m, k + 1);
    }
}

/// Where all sequences share the first one's characters on `k..n`,
/// `common_from` counts at least those.
proof fn lemma_common_from_at_least(m: Seq<Seq<char>>, k: int, n: int)
    requires
        m.len() > 0,
        0 <= k <= n <= m[0].len(),
        forall|t: int| k <= t < n ==> #[trigger] agree_at(m, t),
    ensures
        common_from(m, k) >= n - k,
    decreases n - k,
{
    if k < n {
        lemma_common_from_at_least(m, k + 1, n);
        assert(agree_at(m, k));
        assert(forall|j: int| 0 <= j < m.len() ==> k < (#[trigger] m[j]).len() && m[j][k] == m[0][k]);
        assert(common_from(m, k) == 1 + common_from(m, k + 1));
    }
}

/// The longest common prefix of several matches is lower-case ASCII text,
/// and completing it again leaves it as it is, given that lower-casing such
/// text leaves it unchanged.
proof fn lemma_common_completion_settles(q: Seq<char>)
    requires
        !q.contains(':'),
        search_prefixes().filter(|p: Seq<char>| has_prefix(p, lowercase(q))).len() > 1,
        common_from(search_prefixes().filter(|p: Seq<char>| has_prefix(p, lowercase(q))), 0) > encode_utf8(q).len(),
        ({
            let m = search_prefixes().filter(|p: Seq<char>| has_prefix(p, lowercase(q)));
            let c = m[0].take(common_from(m, 0) as int);
            ascii_lower_text(c) ==> lowercase(c) == c
        }),
    ensures
        ({
            let m = search_prefixes().filter(|p: Seq<char>| has_prefix(p, lowercase(q)));
            let c = m[0].take(common_from(m, 0) as int);
            ascii_lower_text(c) && completed_query(c) == c
        }),
{
    broadcast use vstd::seq_lib::group_filter_ensures;
    broadcast use vstd::utf8::group_utf8_lib;

    let lq = lowercase(q);
    let keep = |p: Seq<char>| has_prefix(p, lq);
    let all = search_prefixes();
    let m = all.filter(keep);
    let l = common_from(m, 0);
    let c = m[0].take(l as int);
    lemma_search_prefixes_shape();
    lemma_common_from_agree(m, 0);
    assert(keep(m[0]));
    assert(m.contains(m[0]));
    all.lemma_filter_contains_rev(keep, m[0]);
    let j0 = choose|j0: int| 0 <= j0 < all.len() && all[j0] == m[0];
    assert(ascii_lower_text(all[j0]));
    assert(ascii_lower_text(c)) by {
        assert forall|i: int| 0 <= i < c.len() implies '\0' <= #[trigger] c[i] <= '\u{7f}' by {
            assert(c[i] == m[0][i]);
        }
        assert forall|i: int| 0 <= i < c.len() implies !('A' <= #[trigger] c[i] <= 'Z') by {
            assert(c[i] == m[0][i]);
        }
    }
    vstd::utf8::is_ascii_chars_encode_utf8(c);
    if !c.contains(':') {
        // Every match starts with the lower-cased query, so the matches share
        // at least its length.
        assert(lq.len() <= m[0].len());
        assert forall|t: int| 0 <= t < lq.len() implies #[trigger] agree_at(m, t) by {
            assert forall|j: int| 0 <= j < m.len() implies t < (#[trigger] m[j]).len() && m[j][t] == m[0][t] by {
                assert(keep(m[j]));
                assert(keep(m[0]));
                assert(m[j].take(lq.len() as int)[t] == m[j][t]);
                assert(m[0].take(lq.len() as int)[t] == m[0][t]);
            }
        }
        lemma_common_from_at_least(m, 0, lq.len() as int);
        assert forall|t: int| 0 <= t < lq.len() implies c[t] == lq[t] by {
            assert(m[0][t] == lq[t]);
        }
        let keep2 = |p: Seq<char>| has_prefix(p, lowercase(c));
        assert(c.len() == l);
        assert(lq.len() <= l);
        assert forall|i: int| 0 <= i < all.len() implies keep2(all[i]) == keep(all[i]) by {
            let p = all[i];
            if keep(p) {
                all.lemma_filter_contains(keep, i);
                let jm = choose|jm: int| 0 <= jm < m.len() && m[jm] == p;
                if l > 0 {
                    assert(agree_at(m, l - 1));
                    assert(l - 1 < m[jm].len());
                }
                assert forall|t: int| 0 <= t < c.len() implies p[t] == c[t] by {
                    assert(agree_at(m, t));
                    assert(t < m[jm].len() && m[jm][t] == m[0][t]);
                }
                assert(p.take(c.len() as int) =~= c);
                assert(has_prefix(p, lowercase(c)));
            }
            if keep2(p) {
                assert(has_prefix(p, c));
                assert forall|t: int| 0 <= t < lq.len() implies p[t] == lq[t] by {
                    assert(p.take(c.len() as int)[t] == p[t]);
                    assert(c[t] == m[0][t]);
                    assert(m[0].take(lq.len() as int)[t] == m[0][t]);
                }
                assert(p.take(lq.len() as int) =~= lq);
            }
        }
        lemma_filter_agree(all, keep2, keep);
        assert(all.filter(keep2) == m);
    }
}

/// Filtering by predicates that agree on every element gives the same.
proof fn lemma_filter_agree(s: Seq<Seq<char>>, f: spec_fn(Seq<char>) -> bool, g: spec_fn(Seq<char>) -> bool)
    requires
        forall|i: int| 0 <= i < s.len() ==> f(#[trigger] s[i]) == g(s[i]),
    ensures
        s.filter(f) == s.filter(g),
    decreases s.len(),
{
    reveal(Seq::filter);
    if s.len() > 0 {
        assert forall|i: int| 0 <= i < s.drop_last().len() implies f(#[trigger] s.drop_last()[i]) == g(
            s.drop_last()[i],
        ) by {
            assert(s.drop_last()[i] == s[i]);
        }
        lemma_filter_agree(s.drop_last(), f, g);
        assert(f(s[s.len() - 1]) == g(s[s.len() - 1]));
    }
}

/// Complete a search query type prefix on Tab.
pub fn complete_search_prefix(query: &mut String)
    ensures
        final(query)@ == completed_query(old(query)@),
        completed_query(final(query)@) == final(query)@,
{
    let q = chars_of(query.as_str());
    let mut k: usize = 0;
    while k < q.len()
        invariant
            k <= q@.len(),
            q@ == query@,
            query@ == old(query)@,
            forall|j: int| 0 <= j < k ==> q@[j] != ':',
        decreases q.len() - k,
    {
        if q[k] == ':' {
            assert(q@[k as int] == ':');
            assert(q@.contains(':'));
            assert(q@ == query@);
            assert(completed_query(query@) == query@);
            return;
        }
        k = k + 1;
    }
    assert(!q@.contains(':'));
    let input_s = to_lowercase(query.as_str());
    let input = chars_of(input_s.as_str());
    let table = prefix_table();
    let ghost keep = |p: Seq<char>| has_prefix(p, lowercase(q@));
    let mut matches: Vec<Vec<char>> = Vec::new();
    for i in 0..table.len()
        invariant
            table@.map_values(|s: &str| s@) == search_prefixes(),
            input@ == lowercase(q@),
            keep == (|p: Seq<char>| has_prefix(p, lowercase(q@))),
            matches@.map_values(|c: Vec<char>| c@) == search_prefixes().take(i as int).filter(keep),
    {
        proof {
            reveal(Seq::filter);
            assert(search_prefixes().take(i + 1).drop_last() == search_prefixes().take(i as int));
            assert(search_prefixes().take(i + 1).last() == table@[i as int]@);
        }
        let p = chars_of(table[i]);
        let ghost m0 = matches@;
        if starts_with_chars(&p, &input) {
            matches.push(p);
            assert(matches@.map_values(|c: Vec<char>| c@) == m0.map_values(|c: Vec<char>| c@).push(table@[i as int]@));
        }
    }
    assert(search_prefixes().take(10) == search_prefixes());
    let ghost m = search_prefixes().filter(keep);
    assert(matches@.map_values(|c: Vec<char>| c@) == m);
    if matches.len() == 0 {
        return;
    }
    assert(matches@[0]@ == m[0]);
    if matches.len() == 1 {
        proof {
            lemma_search_prefixes_shape();
            assert(m.contains(m[0]));
            search_prefixes().lemma_filter_contains_rev(keep, m[0]);
        }
        *query = string_from_chars(&matches[0]);
        return;
    }
    let first = &matches[0];
    let mut l: usize = 0;
    proof {
        assert forall|j: int| 0 <= j < matches@.len() implies #[trigger] matches@[j]@ == m[j] by {}
    }
    loop
        invariant
            l <= first@.len(),
            matches@.len() > 1,
            first@ == m[0],
            m.len() == matches@.len(),
            forall|j: int| 0 <= j < matches@.len() ==> #[trigger] matches@[j]@ == m[j],
            common_from(m, 0) == l + common_from(m, l as int),
        ensures
            common_from(m, 0) == l,
        decreases first.len() - l,
    {
        if l >= first.len() {
            break;
        }
        let c = first[l];
        let mut all = true;
        let mut j: usize = 0;
        while j < matches.len()
            invariant
                j <= matches@.len(),
                l < first@.len(),
                c == first@[l as int],
                all == (forall|jj: int| 0 <= jj < j ==> l < (#[trigger] matches@[jj])@.len() && matches@[jj]@[l as int] == c),
            decreases matches.len() - j,
        {
            if !(l < matches[j].len() && matches[j][l] == c) {
                all = false;
            }
            j = j + 1;
        }
        if !all {
            proof {
                assert(!(forall|jj: int| 0 <= jj < m.len() ==> l < (#[trigger] m[jj]).len() && m[jj][l as int] == m[0][l as int])) by {
                    let jj = choose|jj: int| 0 <= jj < matches@.len() && !(l < (#[trigger] matches@[jj])@.len() && matches@[jj]@[l as int] == c);
                    assert(matches@[jj]@ == m[jj]);
                }
            }
            break;
        }
        proof {
            assert forall|jj: int| 0 <= jj < m.len() implies l < (#[trigger] m[jj]).len() && m[jj][l as int] == m[0][l as int] by {
                assert(matches@[jj]@ == m[jj]);
            }
        }
        l = l + 1;
    }
    assert(common_from(m, 0) == l);
    if l > query.as_str().as_bytes().len() {
        let mut pre: Vec<char> = Vec::new();
        for i in 0..l
            invariant
                l <= first@.len(),
                pre@ == first@.take(i as int),
        {
            pre.push(first[i]);
            assert(first@.take(i + 1) == first@.take(i as int).push(first@[i as int]));
        }
        // The common prefix is lower case already, so completing it again
        // matches the same prefixes.
        let completed = string_from_chars(&pre);
        *query = to_lowercase(completed.as_str());
        proof {
            lemma_common_completion_settles(q@);
        }
    }
}

/// What a key does while the search query is being typed.
pub open spec fn search_key_post(old: AppState, new: AppState, key: KeyCode, cmd: Command) -> bool {
    match key {
        KeyCode::Esc => new == (AppState { input_mode: InputMode::Normal, ..old }) && cmd == Command::NoOp,
        KeyCode::Enter => {
            let q = old.search.query;
            let s1 = AppState { input_mode: InputMode::Normal, ..old };
            if q@.len() == 0 {
                new == s1 && cmd == Command::NoOp
            } else {
                &&& new.status_message matches Some(m) && m@ == "Searching: "@ + q@ + "..."@
                &&& new == with_status(s1, new.status_message.unwrap())
                &&& cmd == Command::RunSearch(q)
            }
        },
        KeyCode::Tab => {
            &&& new == (AppState { search: SearchState { query: new.search.query, ..old.search }, ..old })
            &&& new.search.query@ == completed_query(old.search.query@)
            &&& cmd == Command::NoOp
        },
        KeyCode::Char(c) => {
            &&& new == (AppState { search: SearchState { query: new.search.query, ..old.search }, ..old })
            &&& new.search.query@ == old.search.query@.push(c)
            &&& cmd == Command::NoOp
        },
        KeyCode::Backspace => {
            &&& new == (AppState { search: SearchState { query: new.search.query, ..old.search }, ..old })
            &&& new.search.query@ == if old.search.query@.len() == 0 {
                old.search.query@
            } else {
                old.search.query@.drop_last()
            }
            &&& cmd == Command::NoOp
        },
        _ => new == old && cmd == Command::NoOp,
    }
}

fn handle_search_input(state: &mut AppState, key: KeyEvent) -> (cmd: Command)
    requires
        old(state).wf(),
    ensures
        final(state).wf(),
        search_key_post(*old(state), *final(state), key.code, cmd),
{
    match key.code {
        KeyCode::Esc => {
            state.input_mode = InputMode::Normal;
            Command::NoOp
        },
        KeyCode::Enter => {
            state.input_mode = InputMode::Normal;
            let query = state.search.query.clone();
            if query.as_str().is_empty() {
                Command::NoOp
            } else {
                let mut msg = String::new();
                push_str(&mut msg, "Searching: ");
                push_str(&mut msg, query.as_str());
                push_str(&mut msg, "...");
                set_status(state, msg);
                Command::RunSearch(query)
            }
        },
        KeyCode::Tab => {
            complete_search_prefix(&mut state.search.query);
            Command::NoOp
        },
        KeyCode::Char(c) => {
            push_char(&mut state.search.query, c);
            Command::NoOp
        },
        KeyCode::Backspace => {
            pop_char(&mut state.search.query);
            Command::NoOp
        },
        _ => Command::NoOp,
    }
}


// ── Normal mode ──────────────────────────────────────────────────────

/// The screen a number key (or `?`, away from the help screen) switches to.
pub open spec fn screen_key(c: char) -> Option<Screen> {
    if c == '1' {
        Some(Screen::Dashboard)
    } else if c == '2' {
        Some(Screen::Lint)
    } else if c == '3' {
        Some(Screen::Deps)
    } else if c == '4' {
        Some(Screen::Unused)
    } else if c == '5' {
        Some(Screen::Search)
    } else if c == '?' {
        Some(Screen::Help)
    } else {
        None
    }
}

/// The deps sub-view after Tab.
pub open spec fn next_sub_view(v: DepsSubView) -> DepsSubView {
    match v {
        DepsSubView::Tree => DepsSubView::Stats,
        DepsSubView::Stats => DepsSubView::Cycles,
        DepsSubView::Cycles => DepsSubView::Tree,
    }
}

/// `new` shows status `text` (the generation bumped) and is otherwise
/// `mid`.
pub open spec fn shows_status(mid: AppState, new: AppState, text: Seq<char>) -> bool {
    &&& new.status_message matches Some(m) && m@ == text
    &&& new == with_status(mid, new.status_message.unwrap())
}

/// What `e` does on the lint screen: export the visible findings, or say
/// that there are none.
pub open spec fn export_post(old: AppState, new: AppState, cmd: Command) -> bool {
    if old.lint.filtered@.len() == 0 {
        shows_status(old, new, "No diagnostics to export."@) && cmd == Command::ClearStatusAfter(new.status_gen)
    } else {
        &&& shows_status(old, new, "Exporting diagnostics..."@)
        &&& cmd matches Command::ExportLintJson(v) && v@.map_values(|e: (String, LintError)| entry_view(e))
            == old.lint.visible().map_values(|e: (String, LintError)| entry_view(e))
    }
}

/// What Enter does on Unused and Search: close an open preview, or ask to
/// load the preview of the selected row.
pub open spec fn enter_key_post(old: AppState, new: AppState, cmd: Command) -> bool {
    match old.screen {
        Screen::Unused => if old.unused.preview is Some {
            new == (AppState { unused: UnusedState { preview: None, ..old.unused }, ..old }) && cmd == Command::NoOp
        } else {
            new == old && cmd == selected_row_preview(old)
        },
        Screen::Search => if old.search.preview is Some {
            new == (AppState { search: SearchState { preview: None, ..old.search }, ..old }) && cmd == Command::NoOp
        } else {
            new == old && cmd == selected_row_preview(old)
        },
        _ => new == old && cmd == Command::NoOp,
    }
}

/// What a character key does in normal mode.
pub open spec fn char_key_post(old: AppState, new: AppState, c: char, cmd: Command) -> bool {
    let in_review = old.screen == Screen::FixReview;
    if c == 'q' {
        if in_review {
            review_ended(old, new, cmd, "Fix review cancelled: "@)
        } else {
            new == (AppState { quit: true, ..old }) && cmd == Command::NoOp
        }
    } else if c == '?' && old.screen == Screen::Help {
        new == (AppState { screen: old.previous_screen, previous_screen: old.screen, ..old }) && cmd
            == Command::NoOp
    } else if screen_key(c) is Some && !in_review {
        new == switched(old, screen_key(c).unwrap()) && cmd == Command::NoOp
    } else if c == 'j' {
        new == moved_down(old, 1) && cmd == preview_reload(new)
    } else if c == 'k' {
        new == moved_up(old, 1) && cmd == preview_reload(new)
    } else if c == 'g' {
        new == moved_first(old) && cmd == preview_reload(new)
    } else if c == 'G' {
        new == moved_last(old) && cmd == preview_reload(new)
    } else if c == 'f' && old.screen == Screen::Lint {
        enter_review_post(old, new) && cmd == Command::NoOp
    } else if c == 'p' && old.screen == Screen::Lint {
        new == (AppState { lint: LintState { show_preview: !old.lint.show_preview, ..old.lint }, ..old })
            && cmd == Command::NoOp
    } else if c == 'e' && old.screen == Screen::Lint {
        export_post(old, new, cmd)
    } else if c == '/' && old.screen == Screen::Lint {
        new == (AppState { input_mode: InputMode::LintFilter, ..old }) && cmd == Command::NoOp
    } else if c == '/' && old.screen == Screen::Search {
        new == (AppState { input_mode: InputMode::SearchQuery, ..old }) && cmd == Command::NoOp
    } else if c == 'y' && in_review {
        accept_post(old, new, cmd)
    } else if c == 'n' && in_review {
        skip_post(old, new, cmd)
    } else if c == 'a' && in_review {
        accept_all_post(old, new, cmd)
    } else if c == 'r' && !in_review && !old.loading {
        shows_status(AppState { loading: true, ..old }, new, "Re-running all analyses..."@) && cmd
            == Command::ScanProject
    } else {
        new == old && cmd == Command::NoOp
    }
}

/// What a key does in normal mode.
pub open spec fn normal_key_post(old: AppState, new: AppState, key: KeyCode, cmd: Command) -> bool {
    match key {
        KeyCode::Char(c) => char_key_post(old, new, c, cmd),
        KeyCode::Esc => if old.screen == Screen::FixReview {
            review_ended(old, new, cmd, "Fix review cancelled: "@)
        } else if old.lint.filter_text@.len() > 0 && old.screen == Screen::Lint {
            refiltered(old, new, Seq::empty(), old.input_mode) && cmd == Command::NoOp
        } else {
            new == (AppState { screen: old.previous_screen, previous_screen: old.screen, ..old }) && cmd
                == Command::NoOp
        },
        KeyCode::Down => new == moved_down(old, 1) && cmd == preview_reload(new),
        KeyCode::Up => new == moved_up(old, 1) && cmd == preview_reload(new),
        KeyCode::PageDown => new == moved_down(old, page_rows()) && cmd == preview_reload(new),
        KeyCode::PageUp => new == moved_up(old, page_rows()) && cmd == preview_reload(new),
        KeyCode::Home => new == moved_first(old) && cmd == preview_reload(new),
        KeyCode::End => new == moved_last(old) && cmd == preview_reload(new),
        KeyCode::Enter => enter_key_post(old, new, cmd),
        KeyCode::Tab => cmd == Command::NoOp && if old.screen == Screen::Deps {
            new == (AppState { deps: DepsState { sub_view: next_sub_view(old.deps.sub_view), ..old.deps }, ..old })
        } else {
            new == old
        },
        _ => new == old && cmd == Command::NoOp,
    }
}

/// Copies of the findings the lint list shows.
fn visible_entries(lint: &LintState) -> (v: Vec<(String, LintError)>)
    requires
        lint.wf(),
    ensures
        v@.map_values(|e: (String, LintError)| entry_view(e)) == lint.visible().map_values(
            |e: (String, LintError)| entry_view(e),
        ),
{
    let mut v: Vec<(String, LintError)> = Vec::new();
    for k in 0..lint.filtered.len()
        invariant
            lint.wf(),
            v@.map_values(|e: (String, LintError)| entry_view(e)) == lint.visible().take(k as int).map_values(
                |e: (String, LintError)| entry_view(e),
            ),
    {
        let i = lint.filtered[k];
        let e = (lint.base_errors[i].0.clone(), lint.base_errors[i].1.duplicate());
        let ghost v0 = v@;
        v.push(e);
        proof {
            assert(lint.visible().take(k + 1) == lint.visible().take(k as int).push(lint.visible()[k as int]));
            assert(v@.map_values(|e: (String, LintError)| entry_view(e)) == v0.map_values(|e: (String, LintError)| entry_view(e)).push(entry_view(e)));
        }
    }
    assert(lint.visible().take(lint.filtered@.len() as int) == lint.visible());
    v
}

fn handle_normal_key(state: &mut AppState, key: KeyEvent) -> (cmd: Command)
    requires
        old(state).wf(),
    ensures
        final(state).wf(),
        normal_key_post(*old(state), *final(state), key.code, cmd),
{
    let in_review = state.screen == Screen::FixReview;
    match key.code {
        KeyCode::Char(c) => {
            if c == 'q' {
                if in_review {
                    return cancel_fix_review(state);
                }
                state.quit = true;
                Command::NoOp
            } else if c == '?' && state.screen == Screen::Help {
                // `?` toggles help: on the help screen it goes back.
                let prev = state.previous_screen;
                state.previous_screen = state.screen;
                state.screen = prev;
                Command::NoOp
            } else if !in_review && (c == '1' || c == '2' || c == '3' || c == '4' || c == '5' || c == '?') {
                let target = if c == '1' {
                    Screen::Dashboard
                } else if c == '2' {
                    Screen::Lint
                } else if c == '3' {
                    Screen::Deps
                } else if c == '4' {
                    Screen::Unused
                } else if c == '5' {
                    Screen::Search
                } else {
                    Screen::Help
                };
                switch_screen(state, target);
                Command::NoOp
            } else if c == 'j' {
                select_next(state);
                reload_preview_if_open(state)
            } else if c == 'k' {
                select_prev(state);
                reload_preview_if_open(state)
            } else if c == 'g' {
                select_first(state);
                reload_preview_if_open(state)
            } else if c == 'G' {
                select_last(state);
                reload_preview_if_open(state)
            } else if c == 'f' && state.screen == Screen::Lint {
                enter_fix_review(state);
                Command::NoOp
            } else if c == 'p' && state.screen == Screen::Lint {
                state.lint.show_preview = !state.lint.show_preview;
                Command::NoOp
            } else if c == 'e' && state.screen == Screen::Lint {
                if state.lint.filtered.len() == 0 {
                    let mut msg = String::new();
                    push_str(&mut msg, "No diagnostics to export.");
                    set_status(state, msg);
                    return Command::ClearStatusAfter(state.status_gen);
                }
                let mut msg = String::new();
                push_str(&mut msg, "Exporting diagnostics...");
                set_status(state, msg);
                let payload = visible_entries(&state.lint);
                Command::ExportLintJson(payload)
            } else if c == '/' && state.screen == Screen::Lint {
                state.input_mode = InputMode::LintFilter;
                Command::NoOp
            } else if c == '/' && state.screen == Screen::Search {
                state.input_mode = InputMode::SearchQuery;
                Command::NoOp
            } else if c == 'y' && in_review {
                accept_fix(state)
            } else if c == 'n' && in_review {
                skip_fix(state)
            } else if c == 'a' && in_review {
                accept_all_fixes(state)
            } else if c == 'r' && !in_review && !state.loading {
                state.loading = true;
                let mut msg = String::new();
                push_str(&mut msg, "Re-running all analyses...");
                set_status(state, msg);
                Command::ScanProject
            } else {
                Command::NoOp
            }
        },
        KeyCode::Esc => {
            if in_review {
                return cancel_fix_review(state);
            }
            if !state.lint.filter_text.as_str().is_empty() && state.screen == Screen::Lint {
                state.lint.filter_text = String::new();
                apply_filter(state);
            } else {
                let prev = state.previous_screen;
                state.previous_screen = state.screen;
                state.screen = prev;
            }
            Command::NoOp
        },
        KeyCode::Down => {
            select_next(state);
            reload_preview_if_open(state)
        },
        KeyCode::Up => {
            select_prev(state);
            reload_preview_if_open(state)
        },
        KeyCode::PageDown => {
            page_down(state);
            reload_preview_if_open(state)
        },
        KeyCode::PageUp => {
            page_up(state);
            reload_preview_if_open(state)
        },
        KeyCode::Home => {
            select_first(state);
            reload_preview_if_open(state)
        },
        KeyCode::End => {
            select_last(state);
            reload_preview_if_open(state)
        },
        KeyCode::Enter => {
            match state.screen {
                Screen::Unused => {
                    if state.unused.preview.is_some() {
                        state.unused.preview = None;
                        return Command::NoOp;
                    }
                    if state.unused.selected_index < state.unused.findings.len() {
                        let f = &state.unused.findings[state.unused.selected_index];
                        return Command::LoadPreview(f.file_path.clone(), f.line);
                    }
                    Command::NoOp
                },
                Screen::Search => {
                    if state.search.preview.is_some() {
                        state.search.preview = None;
                        return Command::NoOp;
                    }
                    if state.search.selected_index < state.search.results.len() {
                        let r = &state.search.results[state.search.selected_index];
                        return Command::LoadPreview(r.file_path.clone(), r.line);
                    }
                    Command::NoOp
                },
                _ => Command::NoOp,
            }
        },
        KeyCode::Tab => {
            if state.screen == Screen::Deps {
                state.deps.sub_view = match state.deps.sub_view {
                    DepsSubView::Tree => DepsSubView::Stats,
                    DepsSubView::Stats => DepsSubView::Cycles,
                    DepsSubView::Cycles => DepsSubView::Tree,
                };
            }
            Command::NoOp
        },
        _ => Command::NoOp,
    }
}

/// What a key does, by the current input mode.
pub open spec fn key_post(old: AppState, new: AppState, key: KeyCode, cmd: Command) -> bool {
    match old.input_mode {
        InputMode::LintFilter => filter_key_post(old, new, key) && cmd == Command::NoOp,
        InputMode::SearchQuery => search_key_post(old, new, key, cmd),
        InputMode::Normal => normal_key_post(old, new, key, cmd),
    }
}

/// Interpret a key press according to the current input mode.
pub fn handle_key(state: &mut AppState, key: KeyEvent) -> (cmd: Command)
    requires
        old(state).wf(),
    ensures
        final(state).wf(),
        key_post(*old(state), *final(state), key.code, cmd),
{
    match state.input_mode {
        InputMode::LintFilter => handle_filter_input(state, key),
        InputMode::SearchQuery => handle_search_input(state, key),
        InputMode::Normal => handle_normal_key(state, key),
    }
}
} // verus!
