//! The fix review: stepping through the fixable findings, accepting or
//! skipping each, and applying the accepted fixes file by file at the end.

use vstd::prelude::*;

use crate::diff::{compute_diff, is_diff_of};
use crate::fix::{apply_fixes, edit_ops, edits_accepted, fixed_bytes, on_char_boundaries};
use crate::fix_plan::edits_on_char_boundaries;
use crate::lint_result::LintResult;
use crate::rule::{duplicate_edits, Edit, LintError, LintErrorModel};
use crate::text::{decimal, push_decimal, push_str};
use crate::tui_model::{AppState, Command, FixReviewItem, FixReviewState, Screen};
use crate::tui_nav::{set_status, with_status};
use vstd::utf8::{decode_utf8, encode_utf8, is_char_boundary};

verus! {

// ── Building the review ──────────────────────────────────────────────

/// The source text listed for `path`, if any.
pub open spec fn source_for(sources: Seq<(String, String)>, path: Seq<char>) -> Option<Seq<char>>
    decreases sources.len(),
{
    if sources.len() == 0 {
        None
    } else if sources[0].0@ == path {
        Some(sources[0].1@)
    } else {
        source_for(sources.drop_first(), path)
    }
}

/// The text a fix produces from `src` when its edits apply cleanly.
pub open spec fn fixed_text(src: Seq<char>, edits: Seq<Edit>) -> Seq<char> {
    decode_utf8(fixed_bytes(src, edits))
}

/// A finding of a file with source `src` yields a review item: it has a
/// fix whose edits apply cleanly to `src` and start and end on character
/// boundaries of it (a fix that would split a character is left out).
pub open spec fn reviewable(e: LintError, src: Seq<char>) -> bool {
    e.fix is Some && edits_accepted(e.fix.unwrap().edits@, encode_utf8(src).len() as int)
        && on_char_boundaries(encode_utf8(src), edit_ops(e.fix.unwrap().edits@))
}

/// A review item taken by its path, finding and original source.
pub open spec fn item_view(it: FixReviewItem) -> (Seq<char>, LintErrorModel, Seq<char>) {
    (it.file_path@, it.error@, it.original_source@)
}

/// The review items of one file's findings, in order.
pub open spec fn file_items(path: Seq<char>, src: Seq<char>, errs: Seq<LintError>) -> Seq<
    (Seq<char>, LintErrorModel, Seq<char>),
> {
    errs.filter(|e: LintError| reviewable(e, src)).map_values(|e: LintError| (path, e@, src))
}

/// The review items of the first `n` files with findings: every reviewable
/// finding of a file whose source is known, file by file.
pub open spec fn review_items(fe: Seq<(String, Vec<LintError>)>, sources: Seq<(String, String)>, n: int) -> Seq<
    (Seq<char>, LintErrorModel, Seq<char>),
>
    decreases n,
{
    if n <= 0 {
        Seq::empty()
    } else {
        review_items(fe, sources, n - 1) + match source_for(sources, fe[n - 1].0@) {
            Some(src) => file_items(fe[n - 1].0@, src, fe[n - 1].1@),
            None => Seq::empty(),
        }
    }
}

/// Index of the source of `path`, if listed.
fn find_source(sources: &Vec<(String, String)>, path: &String) -> (r: Option<usize>)
    ensures
        r matches Some(k) ==> k < sources@.len() && sources@[k as int].0@ == path@ && source_for(sources@, path@)
            == Some(sources@[k as int].1@),
        r is None ==> source_for(sources@, path@) is None,
{
    let mut k: usize = 0;
    assert(sources@.skip(0) == sources@);
    while k < sources.len()
        invariant
            k <= sources@.len(),
            source_for(sources@, path@) == source_for(sources@.skip(k as int), path@),
        decreases sources.len() - k,
    {
        assert(sources@.skip(k as int).drop_first() == sources@.skip(k + 1));
        assert(sources@.skip(k as int)[0] == sources@[k as int]);
        if sources[k].0 == *path {
            return Some(k);
        }
        k = k + 1;
    }
    assert(sources@.skip(k as int).len() == 0);
    None
}

/// The review items of one file: each finding with a fix that applies
/// cleanly, with the diff of that fix alone.
fn file_review_items(
    path: &String,
    src: &String,
    errs: &Vec<LintError>,
    items: &mut Vec<FixReviewItem>,
)
    ensures
        final(items)@.map_values(|it: FixReviewItem| item_view(it)) == old(items)@.map_values(
            |it: FixReviewItem| item_view(it),
        ) + file_items(path@, src@, errs@),
        final(items)@.len() >= old(items)@.len(),
        forall|i: int| 0 <= i < old(items)@.len() ==> #[trigger] final(items)@[i] == old(items)@[i],
        forall|i: int|
            old(items)@.len() <= i < final(items)@.len() ==> (#[trigger] final(items)@[i]).wf()
                && final(items)@[i].file_path@ == path@ && final(items)@[i].original_source@ == src@ && is_diff_of(
                final(items)@[i].diff@,
                src@,
                fixed_text(src@, final(items)@[i].error.fix.unwrap().edits@),
            ),
{
    let ghost i0 = items@;
    let ghost v0 = items@.map_values(|it: FixReviewItem| item_view(it));
    let ghost keep = |e: LintError| reviewable(e, src@);
    let ghost mk = |e: LintError| (path@, e@, src@);
    for k in 0..errs.len()
        invariant
            keep == (|e: LintError| reviewable(e, src@)),
            mk == (|e: LintError| (path@, e@, src@)),
            items@.map_values(|it: FixReviewItem| item_view(it)) == v0 + errs@.take(k as int).filter(keep).map_values(mk),
            items@.len() >= i0.len(),
            forall|i: int| 0 <= i < i0.len() ==> #[trigger] items@[i] == i0[i],
            forall|i: int|
                i0.len() <= i < items@.len() ==> (#[trigger] items@[i]).wf()
                    && items@[i].file_path@ == path@ && items@[i].original_source@ == src@ && is_diff_of(
                    items@[i].diff@,
                    src@,
                    fixed_text(src@, items@[i].error.fix.unwrap().edits@),
                ),
    {
        let err = &errs[k];
        proof {
            reveal(Seq::filter);
            assert(errs@.take(k + 1).drop_last() == errs@.take(k as int));
            assert(errs@.take(k + 1).last() == errs@[k as int]);
        }
        let ghost before = items@;
        let mut added = false;
        if let Some(fix) = &err.fix {
            if edits_on_char_boundaries(src.as_str(), &fix.edits) {
            match apply_fixes(src.as_str(), &fix.edits) {
                Ok(fixed) => {
                    let diff = compute_diff(src.as_str(), fixed.as_str());
                    let item = FixReviewItem {
                        file_path: path.clone(),
                        error: err.duplicate(),
                        original_source: src.clone(),
                        diff,
                    };
                    proof {
                        assert(item.error@ == err@);
                        assert(item.error.fix is Some);
                        assert(item.error.fix.unwrap().edits@ == fix.edits@);
                    }
                    items.push(item);
                    added = true;
                },
                Err(_) => {},
            }
            }
        }
        proof {
            let e = errs@[k as int];
            let pre = errs@.take(k as int).filter(keep);
            if added {
                assert(keep(e));
                assert(errs@.take(k + 1).filter(keep) == pre.push(e));
                assert(pre.push(e).map_values(mk) == pre.map_values(mk).push(mk(e)));
                assert(items@.map_values(|it: FixReviewItem| item_view(it)) == before.map_values(|it: FixReviewItem| item_view(it)).push(item_view(items@.last())));
            } else {
                assert(!keep(e));
                assert(errs@.take(k + 1).filter(keep) == pre);
                assert(items@ == before);
            }
        }
    }
    assert(errs@.take(errs.len() as int) == errs@);
}

/// The review items of a lint result, file by file in path order.
fn build_review_items(r: &LintResult) -> (items: Vec<FixReviewItem>)
    requires
        r.wf(),
    ensures
        items@.map_values(|it: FixReviewItem| item_view(it)) == review_items(
            r.file_errors@,
            r.sources@,
            r.file_errors@.len() as int,
        ),
        forall|i: int|
            0 <= i < items@.len() ==> (#[trigger] items@[i]).wf() && source_for(r.sources@, items@[i].file_path@)
                == Some(items@[i].original_source@) && is_diff_of(
                items@[i].diff@,
                items@[i].original_source@,
                fixed_text(items@[i].original_source@, items@[i].error.fix.unwrap().edits@),
            ),
{
    let mut items: Vec<FixReviewItem> = Vec::new();
    for f in 0..r.file_errors.len()
        invariant
            r.wf(),
            items@.map_values(|it: FixReviewItem| item_view(it)) == review_items(
                r.file_errors@,
                r.sources@,
                f as int,
            ),
            forall|i: int|
                0 <= i < items@.len() ==> (#[trigger] items@[i]).wf() && source_for(r.sources@, items@[i].file_path@)
                    == Some(items@[i].original_source@) && is_diff_of(
                    items@[i].diff@,
                    items@[i].original_source@,
                    fixed_text(items@[i].original_source@, items@[i].error.fix.unwrap().edits@),
                ),
    {
        let path = &r.file_errors[f].0;
        let errs = &r.file_errors[f].1;
        match find_source(&r.sources, path) {
            Some(k) => {
                let src = &r.sources[k].1;
                let ghost before = items@;
                file_review_items(path, src, errs, &mut items);
                proof {
                    assert forall|i: int| 0 <= i < items@.len() implies (#[trigger] items@[i]).wf() && source_for(
                        r.sources@,
                        items@[i].file_path@,
                    ) == Some(items@[i].original_source@) && is_diff_of(
                        items@[i].diff@,
                        items@[i].original_source@,
                        fixed_text(items@[i].original_source@, items@[i].error.fix.unwrap().edits@),
                    ) by {
                        if i >= before.len() {
                            assert(items@[i].file_path@ == path@);
                            assert(items@[i].original_source@ == src@);
                        }
                    }
                }
            },
            None => {},
        }
    }
    items
}

/// `new` is `old` showing a fresh review of `items` on the fix review
/// screen, entered from `old`'s screen.
pub open spec fn review_started(old: AppState, new: AppState, items: Seq<FixReviewItem>) -> bool {
    &&& new.fix_review.items@ == items
    &&& new.fix_review.accepted_mask@ == Seq::new(items.len(), |i: int| false)
    &&& new.fix_review.current_index == 0
    &&& new.fix_review.accepted_count == 0
    &&& new.fix_review.skipped_count == 0
    &&& !new.fix_review.confirm_accept_all
    &&& new == (AppState { fix_review: new.fix_review, previous_screen: old.screen, screen: Screen::FixReview, ..old })
}

/// What entering the fix review does: nothing without a lint result; with
/// one, either the status "No fixable errors." or a review of every
/// reviewable finding (see `review_items`), each with the diff of its fix.
pub open spec fn enter_review_post(old: AppState, new: AppState) -> bool {
    match old.lint.result {
        None => new == old,
        Some(r) => {
            let expected = review_items(r.file_errors@, r.sources@, r.file_errors@.len() as int);
            if expected.len() == 0 {
                new == with_status(old, new.status_message.unwrap()) && new.status_message.unwrap()@
                    == "No fixable errors."@
            } else {
                &&& new.fix_review.items@.map_values(|it: FixReviewItem| item_view(it)) == expected
                &&& forall|i: int|
                    0 <= i < new.fix_review.items@.len() ==> #[trigger] is_diff_of(
                        new.fix_review.items@[i].diff@,
                        new.fix_review.items@[i].original_source@,
                        fixed_text(
                            new.fix_review.items@[i].original_source@,
                            new.fix_review.items@[i].error.fix.unwrap().edits@,
                        ),
                    )
                &&& review_started(old, new, new.fix_review.items@)
            }
        },
    }
}

/// Start reviewing the fixable findings of the current lint result.
pub fn enter_fix_review(state: &mut AppState)
    requires
        old(state).wf(),
        old(state).screen == Screen::Lint,
    ensures
        final(state).wf(),
        enter_review_post(*old(state), *final(state)),
{
    let items = match &state.lint.result {
        None => {
            return;
        },
        Some(r) => build_review_items(r),
    };
    if items.len() == 0 {
        let mut msg = String::new();
        push_str(&mut msg, "No fixable errors.");
        set_status(state, msg);
        return;
    }
    let n = items.len();
    let ghost iv = items@;
    let mut mask: Vec<bool> = Vec::new();
    for i in 0..n
        invariant
            mask@ == Seq::new(i as nat, |j: int| false),
    {
        mask.push(false);
        assert(mask@ =~= Seq::new((i + 1) as nat, |j: int| false));
    }
    state.fix_review = FixReviewState {
        items,
        accepted_mask: mask,
        current_index: 0,
        accepted_count: 0,
        skipped_count: 0,
        confirm_accept_all: false,
    };
    state.previous_screen = state.screen;
    state.screen = Screen::FixReview;
    proof {
        let fr = state.fix_review;
        let r = old(state).lint.result.unwrap();
        assert forall|i: int, j: int|
            0 <= i < fr.items@.len() && 0 <= j < fr.items@.len() && #[trigger] fr.items@[i].file_path@
                == #[trigger] fr.items@[j].file_path@ implies fr.items@[i].original_source@
                == fr.items@[j].original_source@ by {
            assert(source_for(r.sources@, fr.items@[i].file_path@) == Some(fr.items@[i].original_source@));
            assert(source_for(r.sources@, fr.items@[j].file_path@) == Some(fr.items@[j].original_source@));
        }
    }
}


// ── Applying the accepted fixes ──────────────────────────────────────

/// The edits of an item's fix.
pub open spec fn item_edits(it: FixReviewItem) -> Seq<Edit> {
    it.error.fix.unwrap().edits@
}

/// `g` with the edits of `it` added to the group of its file, or a new
/// group for that file (with the item's original source) at the end.
pub open spec fn merge_group(g: Seq<(Seq<char>, Seq<char>, Seq<Edit>)>, it: FixReviewItem) -> Seq<
    (Seq<char>, Seq<char>, Seq<Edit>),
> {
    let p = it.file_path@;
    if exists|k: int| 0 <= k < g.len() && #[trigger] g[k].0 == p {
        let k = choose|k: int| 0 <= k < g.len() && #[trigger] g[k].0 == p;
        g.update(k, (p, g[k].1, g[k].2 + item_edits(it)))
    } else {
        g.push((p, it.original_source@, item_edits(it)))
    }
}

/// The accepted items among the first `n`, grouped by file in order of
/// each file's first accepted item: (path, original source, edits).
pub open spec fn fix_groups(items: Seq<FixReviewItem>, mask: Seq<bool>, n: int) -> Seq<
    (Seq<char>, Seq<char>, Seq<Edit>),
>
    decreases n,
{
    if n <= 0 {
        Seq::empty()
    } else {
        let g = fix_groups(items, mask, n - 1);
        if mask[n - 1] {
            merge_group(g, items[n - 1])
        } else {
            g
        }
    }
}

/// The files the groups rewrite: those whose merged edits apply cleanly,
/// with the fixed text.
pub open spec fn applied_fixes(groups: Seq<(Seq<char>, Seq<char>, Seq<Edit>)>) -> Seq<(Seq<char>, Seq<char>)> {
    groups.filter(|g: (Seq<char>, Seq<char>, Seq<Edit>)| edits_accepted(g.2, encode_utf8(g.1).len() as int)).map_values(
        |g: (Seq<char>, Seq<char>, Seq<Edit>)| (g.0, fixed_text(g.1, g.2)),
    )
}

/// The path and text of an `ApplyFix` command.
pub open spec fn apply_fix_view(c: Command) -> (Seq<char>, Seq<char>) {
    match c {
        Command::ApplyFix(p, f) => (p@, f@),
        _ => (Seq::empty(), Seq::empty()),
    }
}

/// What flushing a review asks for: nothing when no fix was accepted;
/// else one `ApplyFix` per file whose merged accepted edits apply cleanly
/// (see `fix_groups`), then `RunAnalyses`.
pub open spec fn flush_command(fr: FixReviewState, cmd: Command) -> bool {
    if fr.accepted_count == 0 {
        cmd == Command::NoOp
    } else {
        cmd matches Command::Batch(cs) && cs@.len() >= 1 && cs@.last() == Command::RunAnalyses
            && (forall|k: int| 0 <= k < cs@.len() - 1 ==> #[trigger] cs@[k] is ApplyFix)
            && cs@.drop_last().map_values(|c: Command| apply_fix_view(c)) == applied_fixes(
            fix_groups(fr.items@, fr.accepted_mask@, fr.items@.len() as int),
        )
    }
}

proof fn lemma_boundaries_concat(bytes: Seq<u8>, a: Seq<Edit>, b: Seq<Edit>)
    requires
        on_char_boundaries(bytes, edit_ops(a)),
        on_char_boundaries(bytes, edit_ops(b)),
    ensures
        on_char_boundaries(bytes, edit_ops(a + b)),
{
    assert(edit_ops(a + b) =~= edit_ops(a) + edit_ops(b));
    assert forall|q: int| 0 <= q < edit_ops(a + b).len() implies is_char_boundary(
        bytes,
        #[trigger] edit_ops(a + b)[q].0,
    ) && is_char_boundary(bytes, edit_ops(a + b)[q].1) by {
        if q < edit_ops(a).len() {
            assert(edit_ops(a + b)[q] == edit_ops(a)[q]);
        } else {
            assert(edit_ops(a + b)[q] == edit_ops(b)[q - edit_ops(a).len()]);
        }
    }
}

/// A group as plain values.
pub open spec fn group_view(g: (String, String, Vec<Edit>)) -> (Seq<char>, Seq<char>, Seq<Edit>) {
    (g.0@, g.1@, g.2@)
}

/// Group edits of accepted items by file and apply each group in one
/// `apply_fixes` call against the original source.
fn flush_accepted_fixes(fr: &FixReviewState) -> (cmd: Command)
    requires
        fr.wf(),
    ensures
        flush_command(*fr, cmd),
{
    if fr.accepted_count == 0 {
        return Command::NoOp;
    }
    let mut groups: Vec<(String, String, Vec<Edit>)> = Vec::new();
    for i in 0..fr.items.len()
        invariant
            fr.wf(),
            groups@.map_values(|g: (String, String, Vec<Edit>)| group_view(g)) == fix_groups(
                fr.items@,
                fr.accepted_mask@,
                i as int,
            ),
            forall|a: int, b: int| 0 <= a < b < groups@.len() ==> #[trigger] groups@[a].0@ != #[trigger] groups@[b].0@,
            forall|a: int|
                0 <= a < groups@.len() ==> on_char_boundaries(
                    encode_utf8((#[trigger] groups@[a]).1@),
                    edit_ops(groups@[a].2@),
                ),
            forall|a: int, j: int|
                0 <= a < groups@.len() && 0 <= j < fr.items@.len() && #[trigger] fr.items@[j].file_path@
                    == #[trigger] groups@[a].0@ ==> groups@[a].1@ == fr.items@[j].original_source@,
    {
        let ghost gv = groups@.map_values(|g: (String, String, Vec<Edit>)| group_view(g));
        if fr.accepted_mask[i] {
            let item = &fr.items[i];
            assert(item.wf());
            let edits: &Vec<Edit> = match &item.error.fix {
                Some(f) => &f.edits,
                None => {
                    proof {
                        assert(false);
                    }
                    return Command::NoOp;
                },
            };
            let mut k: usize = 0;
            let mut found = false;
            while k < groups.len()
                invariant_except_break
                    !found,
                    forall|q: int| 0 <= q < k ==> groups@[q].0@ != item.file_path@,
                invariant
                    k <= groups@.len(),
                ensures
                    found ==> k < groups@.len() && groups@[k as int].0@ == item.file_path@,
                    !found ==> forall|q: int| 0 <= q < groups@.len() ==> groups@[q].0@ != item.file_path@,
                decreases groups.len() - k,
            {
                if groups[k].0 == item.file_path {
                    found = true;
                    break;
                }
                k = k + 1;
            }
            let extra = duplicate_edits(edits);
            let ghost g0 = groups@;
            if found {
                let mut merged = duplicate_edits(&groups[k].2);
                let ghost m0 = merged@;
                for e in 0..extra.len()
                    invariant
                        merged@ == m0 + extra@.take(e as int),
                {
                    merged.push(extra[e].duplicate());
                    assert(extra@.take(e + 1) == extra@.take(e as int).push(extra@[e as int]));
                }
                assert(extra@.take(extra.len() as int) == extra@);
                let entry = (groups[k].0.clone(), groups[k].1.clone(), merged);
                groups.set(k, entry);
                proof {
                    assert(gv[k as int].0 == item.file_path@);
                    let kk = choose|kk: int| 0 <= kk < gv.len() && #[trigger] gv[kk].0 == item.file_path@;
                    assert(kk == k) by {
                        if kk != k {
                            assert(g0[kk].0@ == gv[kk].0);
                            if kk < k {
                                assert(g0[kk].0@ != g0[k as int].0@);
                            } else {
                                assert(g0[k as int].0@ != g0[kk].0@);
                            }
                        }
                    }
                    assert(groups@.map_values(|g: (String, String, Vec<Edit>)| group_view(g)) =~= merge_group(gv, *item));
                    assert(edit_ops(merged@) =~= edit_ops(m0) + edit_ops(extra@));
                    assert(g0[k as int].1@ == item.original_source@);
                    let bytes = encode_utf8(g0[k as int].1@);
                    assert(on_char_boundaries(bytes, edit_ops(g0[k as int].2@)));
                    assert(m0 == g0[k as int].2@);
                    assert(extra@ == item.error.fix.unwrap().edits@);
                    assert(on_char_boundaries(bytes, edit_ops(extra@)));
                    assert(groups@[k as int].1@ == g0[k as int].1@);
                    lemma_boundaries_concat(bytes, m0, extra@);
                    assert(merged@ == m0 + extra@);
                    assert forall|a: int|
                        0 <= a < groups@.len() implies on_char_boundaries(
                        encode_utf8((#[trigger] groups@[a]).1@),
                        edit_ops(groups@[a].2@),
                    ) by {
                        if a != k {
                            assert(groups@[a] == g0[a]);
                        }
                    }
                }
            } else {
                groups.push((item.file_path.clone(), item.original_source.clone(), extra));
                proof {
                    assert(!(exists|kk: int| 0 <= kk < gv.len() && #[trigger] gv[kk].0 == item.file_path@)) by {
                        if exists|kk: int| 0 <= kk < gv.len() && #[trigger] gv[kk].0 == item.file_path@ {
                            let kk = choose|kk: int| 0 <= kk < gv.len() && #[trigger] gv[kk].0 == item.file_path@;
                            assert(g0[kk].0@ == gv[kk].0);
                        }
                    }
                    assert(groups@.map_values(|g: (String, String, Vec<Edit>)| group_view(g)) =~= merge_group(gv, *item));
                }
            }
        }
    }
    let ghost all_groups = groups@.map_values(|g: (String, String, Vec<Edit>)| group_view(g));
    let mut cmds: Vec<Command> = Vec::new();
    let ghost keep = |g: (Seq<char>, Seq<char>, Seq<Edit>)| edits_accepted(g.2, encode_utf8(g.1).len() as int);
    let ghost mk = |g: (Seq<char>, Seq<char>, Seq<Edit>)| (g.0, fixed_text(g.1, g.2));
    for a in 0..groups.len()
        invariant
            all_groups == groups@.map_values(|g: (String, String, Vec<Edit>)| group_view(g)),
            keep == (|g: (Seq<char>, Seq<char>, Seq<Edit>)| edits_accepted(g.2, encode_utf8(g.1).len() as int)),
            mk == (|g: (Seq<char>, Seq<char>, Seq<Edit>)| (g.0, fixed_text(g.1, g.2))),
            forall|b: int|
                0 <= b < groups@.len() ==> on_char_boundaries(
                    encode_utf8((#[trigger] groups@[b]).1@),
                    edit_ops(groups@[b].2@),
                ),
            forall|k: int| 0 <= k < cmds@.len() ==> #[trigger] cmds@[k] is ApplyFix,
            cmds@.map_values(|c: Command| apply_fix_view(c)) == all_groups.take(a as int).filter(keep).map_values(mk),
    {
        proof {
            reveal(Seq::filter);
            assert(all_groups.take(a + 1).drop_last() == all_groups.take(a as int));
            assert(all_groups.take(a + 1).last() == all_groups[a as int]);
        }
        let ghost c0 = cmds@;
        let g = &groups[a];
        match apply_fixes(g.1.as_str(), &g.2) {
            Ok(fixed) => {
                cmds.push(Command::ApplyFix(g.0.clone(), fixed));
                proof {
                    let pre = all_groups.take(a as int).filter(keep);
                    assert(keep(all_groups[a as int]));
                    assert(pre.push(all_groups[a as int]).map_values(mk) == pre.map_values(mk).push(mk(all_groups[a as int])));
                    assert(cmds@.map_values(|c: Command| apply_fix_view(c)) == c0.map_values(|c: Command| apply_fix_view(c)).push(apply_fix_view(cmds@.last())));
                }
            },
            Err(_) => {
                assert(!keep(all_groups[a as int]));
            },
        }
    }
    assert(all_groups.take(groups.len() as int) == all_groups);
    let ghost c1 = cmds@;
    cmds.push(Command::RunAnalyses);
    assert(cmds@.drop_last() == c1);
    Command::Batch(cmds)
}

// ── Review steps ─────────────────────────────────────────────────────

/// The status text at the end of a review: the heading, then the counts.
pub open spec fn review_summary(heading: Seq<char>, accepted: usize, skipped: usize) -> Seq<char> {
    heading + decimal(accepted as nat) + " accepted, "@ + decimal(skipped as nat) + " skipped"@
}

/// `new` is `s` after the review ended: the summary under `heading` in the
/// status bar, the lint screen shown, and `cmd` flushing the accepted fixes.
pub open spec fn review_ended(s: AppState, new: AppState, cmd: Command, heading: Seq<char>) -> bool {
    &&& new.status_message matches Some(m) && m@ == review_summary(
        heading,
        s.fix_review.accepted_count,
        s.fix_review.skipped_count,
    )
    &&& new == (AppState { screen: Screen::Lint, ..with_status(s, new.status_message.unwrap()) })
    &&& flush_command(s.fix_review, cmd)
}

/// End the review: show the summary under `heading`, flush the accepted
/// fixes and return to the lint screen.
fn end_fix_review(state: &mut AppState, heading: &str) -> (cmd: Command)
    requires
        old(state).fix_review.wf(),
    ensures
        review_ended(*old(state), *final(state), cmd, heading@),
{
    let mut msg = String::new();
    push_str(&mut msg, heading);
    push_decimal(&mut msg, state.fix_review.accepted_count as u64);
    push_str(&mut msg, " accepted, ");
    push_decimal(&mut msg, state.fix_review.skipped_count as u64);
    push_str(&mut msg, " skipped");
    set_status(state, msg);
    let cmd = flush_accepted_fixes(&state.fix_review);
    state.screen = Screen::Lint;
    cmd
}

/// Called when the review reaches its end via y/n/a.
pub fn finish_fix_review(state: &mut AppState) -> (cmd: Command)
    requires
        old(state).fix_review.wf(),
    ensures
        review_ended(*old(state), *final(state), cmd, "Fix review complete: "@),
{
    end_fix_review(state, "Fix review complete: ")
}

/// Called when the user leaves the review with q/Esc. Fixes accepted so
/// far are still applied: cancelling ends the review, not the accepts.
pub fn cancel_fix_review(state: &mut AppState) -> (cmd: Command)
    requires
        old(state).fix_review.wf(),
    ensures
        review_ended(*old(state), *final(state), cmd, "Fix review cancelled: "@),
{
    end_fix_review(state, "Fix review cancelled: ")
}

/// What `y` does in the review: accept the current item and move on,
/// ending the review after the last one.
pub open spec fn accept_post(old: AppState, new: AppState, cmd: Command) -> bool {
    let fr = old.fix_review;
    let idx = fr.current_index;
    let mid = AppState {
        fix_review: FixReviewState {
            accepted_mask: new.fix_review.accepted_mask,
            accepted_count: (fr.accepted_count + 1) as usize,
            current_index: (idx + 1) as usize,
            confirm_accept_all: false,
            ..fr
        },
        ..old
    };
    &&& new.fix_review.accepted_mask@ == fr.accepted_mask@.update(idx as int, true)
    &&& if idx + 1 >= fr.items@.len() {
        review_ended(mid, new, cmd, "Fix review complete: "@)
    } else {
        new == mid && cmd == Command::NoOp
    }
}

/// Accept the current fix.
pub fn accept_fix(state: &mut AppState) -> (cmd: Command)
    requires
        old(state).wf(),
        old(state).screen == Screen::FixReview,
    ensures
        final(state).wf(),
        accept_post(*old(state), *final(state), cmd),
{
    let ghost s0 = *state;
    state.fix_review.confirm_accept_all = false;
    let idx = state.fix_review.current_index;
    let total = state.fix_review.items.len();
    state.fix_review.accepted_mask.set(idx, true);
    state.fix_review.accepted_count = state.fix_review.accepted_count + 1;
    state.fix_review.current_index = state.fix_review.current_index + 1;
    if state.fix_review.current_index >= total {
        let cmd = finish_fix_review(state);
        return cmd;
    }
    Command::NoOp
}

/// What `n` does in the review: skip the current item and move on, ending
/// the review after the last one.
pub open spec fn skip_post(old: AppState, new: AppState, cmd: Command) -> bool {
    let fr = old.fix_review;
    let idx = fr.current_index;
    let mid = AppState {
        fix_review: FixReviewState {
            skipped_count: (fr.skipped_count + 1) as usize,
            current_index: (idx + 1) as usize,
            confirm_accept_all: false,
            ..fr
        },
        ..old
    };
    if idx + 1 >= fr.items@.len() {
        review_ended(mid, new, cmd, "Fix review complete: "@)
    } else {
        new == mid && cmd == Command::NoOp
    }
}

/// Skip the current fix.
pub fn skip_fix(state: &mut AppState) -> (cmd: Command)
    requires
        old(state).wf(),
        old(state).screen == Screen::FixReview,
    ensures
        final(state).wf(),
        skip_post(*old(state), *final(state), cmd),
{
    let total = state.fix_review.items.len();
    state.fix_review.confirm_accept_all = false;
    state.fix_review.skipped_count = state.fix_review.skipped_count + 1;
    state.fix_review.current_index = state.fix_review.current_index + 1;
    if state.fix_review.current_index >= state.fix_review.items.len() {
        return finish_fix_review(state);
    }
    Command::NoOp
}

/// The files of the items from the current one on.
pub open spec fn remaining_paths(fr: FixReviewState) -> Seq<Seq<char>> {
    fr.items@.subrange(fr.current_index as int, fr.items@.len() as int).map_values(|it: FixReviewItem| it.file_path@)
}

/// The dry-run summary of `a`: how many fixes remain, across how many files.
pub open spec fn accept_all_prompt(fr: FixReviewState) -> Seq<char> {
    "Will apply "@ + decimal((fr.items@.len() - fr.current_index) as nat) + " fixes across "@ + decimal(
        crate::text::distinct_count(remaining_paths(fr)),
    ) + " files. Press 'a' again to confirm."@
}

/// What `a` does in the review: the first press shows a dry-run summary
/// and asks for confirmation; the second accepts every remaining item and
/// ends the review.
pub open spec fn accept_all_post(old: AppState, new: AppState, cmd: Command) -> bool {
    let fr = old.fix_review;
    let idx = fr.current_index;
    let total = fr.items@.len();
    if !fr.confirm_accept_all {
        &&& new.status_message matches Some(m) && m@ == accept_all_prompt(fr)
        &&& new == with_status(
            AppState { fix_review: FixReviewState { confirm_accept_all: true, ..fr }, ..old },
            new.status_message.unwrap(),
        )
        &&& cmd == Command::NoOp
    } else {
        let mid = AppState {
            fix_review: FixReviewState {
                accepted_mask: new.fix_review.accepted_mask,
                accepted_count: (fr.accepted_count + (total - idx)) as usize,
                current_index: total as usize,
                confirm_accept_all: false,
                ..fr
            },
            ..old
        };
        &&& new.fix_review.accepted_mask@ == Seq::new(
            total,
            |i: int|
                if i >= idx {
                    true
                } else {
                    fr.accepted_mask@[i]
                },
        )
        &&& review_ended(mid, new, cmd, "Fix review complete: "@)
    }
}

/// Accept all remaining fixes (after a confirming second press).
pub fn accept_all_fixes(state: &mut AppState) -> (cmd: Command)
    requires
        old(state).wf(),
        old(state).screen == Screen::FixReview,
    ensures
        final(state).wf(),
        accept_all_post(*old(state), *final(state), cmd),
{
    let idx = state.fix_review.current_index;
    let total = state.fix_review.items.len();
    if !state.fix_review.confirm_accept_all {
        let fix_count = total - idx;
        let mut paths: Vec<&str> = Vec::new();
        let mut i = idx;
        while i < total
            invariant
                idx <= i <= total,
                total == state.fix_review.items@.len(),
                crate::text::str_views(paths@) == state.fix_review.items@.subrange(idx as int, i as int).map_values(
                    |it: FixReviewItem| it.file_path@,
                ),
            decreases total - i,
        {
            let ghost p0 = paths@;
            paths.push(state.fix_review.items[i].file_path.as_str());
            proof {
                assert(crate::text::str_views(paths@) == crate::text::str_views(p0).push(state.fix_review.items@[i as int].file_path@));
                assert(state.fix_review.items@.subrange(idx as int, i + 1) == state.fix_review.items@.subrange(idx as int, i as int).push(state.fix_review.items@[i as int]));
            }
            i = i + 1;
        }
        let file_count = crate::text::count_distinct(&paths);
        let mut msg = String::new();
        push_str(&mut msg, "Will apply ");
        push_decimal(&mut msg, fix_count as u64);
        push_str(&mut msg, " fixes across ");
        push_decimal(&mut msg, file_count as u64);
        push_str(&mut msg, " files. Press 'a' again to confirm.");
        state.fix_review.confirm_accept_all = true;
        set_status(state, msg);
        return Command::NoOp;
    }
    state.fix_review.confirm_accept_all = false;
    let additional = total - idx;
    let mut mask: Vec<bool> = Vec::new();
    for q in 0..total
        invariant
            total == state.fix_review.accepted_mask@.len(),
            mask@ == Seq::new(
                q as nat,
                |i: int|
                    if i >= idx {
                        true
                    } else {
                        state.fix_review.accepted_mask@[i]
                    },
            ),
    {
        let v = if q >= idx {
            true
        } else {
            state.fix_review.accepted_mask[q]
        };
        mask.push(v);
        assert(mask@ =~= Seq::new(
            (q + 1) as nat,
            |i: int|
                if i >= idx {
                    true
                } else {
                    state.fix_review.accepted_mask@[i]
                },
        ));
    }
    state.fix_review.accepted_mask = mask;
    state.fix_review.accepted_count = state.fix_review.accepted_count + additional;
    state.fix_review.current_index = total;
    finish_fix_review(state)
}

// ── Laws ─────────────────────────────────────────────────────────────

proof fn lemma_fix_groups_distinct(items: Seq<FixReviewItem>, mask: Seq<bool>, n: int)
    requires
        0 <= n <= items.len(),
        n <= mask.len(),
    ensures
        forall|a: int, b: int|
            0 <= a < b < fix_groups(items, mask, n).len() ==> #[trigger] fix_groups(items, mask, n)[a].0
                != #[trigger] fix_groups(items, mask, n)[b].0,
    decreases n,
{
    if n > 0 {
        lemma_fix_groups_distinct(items, mask, n - 1);
        let g = fix_groups(items, mask, n - 1);
        if mask[n - 1] {
            let it = items[n - 1];
            let p = it.file_path@;
            let g1 = merge_group(g, it);
            if exists|k: int| 0 <= k < g.len() && #[trigger] g[k].0 == p {
                let k = choose|k: int| 0 <= k < g.len() && #[trigger] g[k].0 == p;
                assert forall|a: int, b: int| 0 <= a < b < g1.len() implies #[trigger] g1[a].0 != #[trigger] g1[b].0 by {
                    assert(g1[a].0 == g[a].0);
                    assert(g1[b].0 == g[b].0);
                }
            } else {
                assert forall|a: int, b: int| 0 <= a < b < g1.len() implies #[trigger] g1[a].0 != #[trigger] g1[b].0 by {
                    if b == g.len() {
                        assert(g1[a] == g[a]);
                    } else {
                        assert(g1[a] == g[a] && g1[b] == g[b]);
                    }
                }
            }
        }
    }
}

proof fn lemma_filter_keeps_distinct_paths(
    g: Seq<(Seq<char>, Seq<char>, Seq<Edit>)>,
    keep: spec_fn((Seq<char>, Seq<char>, Seq<Edit>)) -> bool,
)
    requires
        forall|a: int, b: int| 0 <= a < b < g.len() ==> #[trigger] g[a].0 != #[trigger] g[b].0,
    ensures
        forall|a: int, b: int| 0 <= a < b < g.filter(keep).len() ==> #[trigger] g.filter(keep)[a].0
            != #[trigger] g.filter(keep)[b].0,
    decreases g.len(),
{
    reveal(Seq::filter);
    if g.len() > 0 {
        let d = g.drop_last();
        assert forall|a: int, b: int| 0 <= a < b < d.len() implies #[trigger] d[a].0 != #[trigger] d[b].0 by {
            assert(d[a] == g[a] && d[b] == g[b]);
        }
        lemma_filter_keeps_distinct_paths(d, keep);
        let fd = d.filter(keep);
        if keep(g.last()) {
            let f = fd.push(g.last());
            assert(g.filter(keep) == f);
            assert forall|a: int, b: int| 0 <= a < b < f.len() implies #[trigger] f[a].0 != #[trigger] f[b].0 by {
                if b == fd.len() {
                    assert(fd.contains(fd[a]));
                    d.lemma_filter_contains_rev(keep, fd[a]);
                    assert(d.contains(fd[a]));
                    let i = choose|i: int| 0 <= i < d.len() && d[i] == fd[a];
                    assert(g[i] == d[i]);
                    assert(g[i].0 != g[g.len() - 1].0);
                } else {
                    assert(f[a] == fd[a] && f[b] == fd[b]);
                }
            }
        }
    }
}

/// Flushing a review writes every file at most once: the `ApplyFix`
/// commands it issues name pairwise different files, however many accepted
/// fixes a file had.
pub proof fn lemma_flush_writes_each_file_once(fr: FixReviewState, cmd: Command)
    requires
        fr.wf(),
        flush_command(fr, cmd),
        cmd is Batch,
    ensures
        forall|a: int, b: int|
            0 <= a < b < cmd->Batch_0@.len() - 1 ==> #[trigger] apply_fix_view(cmd->Batch_0@[a]).0
                != #[trigger] apply_fix_view(cmd->Batch_0@[b]).0,
{
    let cs = cmd->Batch_0@;
    let groups = fix_groups(fr.items@, fr.accepted_mask@, fr.items@.len() as int);
    lemma_fix_groups_distinct(fr.items@, fr.accepted_mask@, fr.items@.len() as int);
    let keep = |g: (Seq<char>, Seq<char>, Seq<Edit>)| edits_accepted(g.2, encode_utf8(g.1).len() as int);
    lemma_filter_keeps_distinct_paths(groups, keep);
    let views = cs.drop_last().map_values(|c: Command| apply_fix_view(c));
    assert(views == applied_fixes(groups));
    let mk = |g: (Seq<char>, Seq<char>, Seq<Edit>)| (g.0, fixed_text(g.1, g.2));
    assert(applied_fixes(groups) == groups.filter(keep).map_values(mk));
    assert forall|a: int, b: int| 0 <= a < b < cs.len() - 1 implies #[trigger] apply_fix_view(cs[a]).0
        != #[trigger] apply_fix_view(cs[b]).0 by {
        let fk = groups.filter(keep);
        assert(views == fk.map_values(mk));
        assert(views.len() == fk.len());
        assert(views[a] == apply_fix_view(cs[a]));
        assert(views[b] == apply_fix_view(cs[b]));
        assert(views[a] == mk(fk[a]));
        assert(views[b] == mk(fk[b]));
    }
}
} // verus!
