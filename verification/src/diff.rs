//! Line-based unified diffs between two versions of a source text.

use vstd::prelude::*;

use crate::text::{chars_of, string_from_chars};

verus! {

/// A line in a unified diff.
#[derive(Clone, Debug)]
pub enum DiffLine {
    Context(String),
    Added(String),
    Removed(String),
}

/// A hunk in a unified diff.
#[derive(Clone, Debug)]
pub struct DiffHunk {
    pub old_start: usize,
    pub old_count: usize,
    pub new_start: usize,
    pub new_count: usize,
    pub lines: Vec<DiffLine>,
}

/// A diff line taken by its text.
pub enum LineChange {
    Context(Seq<char>),
    Added(Seq<char>),
    Removed(Seq<char>),
}

impl View for DiffLine {
    type V = LineChange;

    open spec fn view(&self) -> LineChange {
        match self {
            DiffLine::Context(s) => LineChange::Context(s@),
            DiffLine::Added(s) => LineChange::Added(s@),
            DiffLine::Removed(s) => LineChange::Removed(s@),
        }
    }
}

/// The lines of a hunk, each by its view.
pub open spec fn hunk_lines(h: DiffHunk) -> Seq<LineChange> {
    h.lines@.map_values(|d: DiffLine| d@)
}

/// `l` without one trailing carriage return.
pub open spec fn strip_cr(l: Seq<char>) -> Seq<char> {
    if l.len() > 0 && l.last() == '\r' {
        l.drop_last()
    } else {
        l
    }
}

/// Index of the first `'\n'` at or after `k`, or `s.len()` if there is none.
pub open spec fn newline_at_or_after(s: Seq<char>, k: int) -> int
    decreases s.len() - k,
{
    if k >= s.len() {
        s.len() as int
    } else if s[k] == '\n' {
        k
    } else {
        newline_at_or_after(s, k + 1)
    }
}

pub proof fn lemma_newline_bounds(s: Seq<char>, k: int)
    requires
        0 <= k,
    ensures
        k <= newline_at_or_after(s, k) <= s.len() || (k > s.len() && newline_at_or_after(s, k) == s.len()),
        newline_at_or_after(s, k) < s.len() ==> s[newline_at_or_after(s, k)] == '\n',
    decreases s.len() - k,
{
    if k < s.len() && s[k] != '\n' {
        lemma_newline_bounds(s, k + 1);
    }
}

/// The lines of `s` as `str::lines` yields them: split at `'\n'`, a `'\r'`
/// right before the `'\n'` dropped, and no empty last line after a final
/// line ending.
pub open spec fn lines_of(s: Seq<char>) -> Seq<Seq<char>>
    decreases s.len(),
{
    if s.len() == 0 {
        Seq::empty()
    } else {
        let e = newline_at_or_after(s, 0);
        proof {
            lemma_newline_bounds(s, 0);
        }
        if e >= s.len() {
            seq![s]
        } else {
            seq![strip_cr(s.take(e))] + lines_of(s.skip(e + 1))
        }
    }
}

/// Length of the longest common prefix of `a` and `b`, counted from `k`.
pub open spec fn common_prefix_from(a: Seq<Seq<char>>, b: Seq<Seq<char>>, k: int) -> int
    decreases a.len() - k,
{
    if k < 0 || k >= a.len() || k >= b.len() || a[k] != b[k] {
        0
    } else {
        1 + common_prefix_from(a, b, k + 1)
    }
}

/// Number of leading lines `a` and `b` share.
pub open spec fn common_prefix(a: Seq<Seq<char>>, b: Seq<Seq<char>>) -> int {
    common_prefix_from(a, b, 0)
}

/// Number of trailing lines `a` and `b` share.
pub open spec fn common_suffix(a: Seq<Seq<char>>, b: Seq<Seq<char>>) -> int {
    common_prefix(a.reverse(), b.reverse())
}

/// Lines of context shown around a change.
pub open spec fn diff_context() -> int {
    2
}

/// `ls` as diff lines of one kind: context (0), removed (1) or added (2).
pub open spec fn changes(kind: u8, ls: Seq<Seq<char>>) -> Seq<LineChange> {
    if kind == 0 {
        ls.map_values(|l: Seq<char>| LineChange::Context(l))
    } else if kind == 1 {
        ls.map_values(|l: Seq<char>| LineChange::Removed(l))
    } else {
        ls.map_values(|l: Seq<char>| LineChange::Added(l))
    }
}

/// The single hunk `compute_diff` reports for `old` and `new`, or none when
/// their lines are equal.
pub open spec fn diff_of(old: Seq<char>, new: Seq<char>) -> Option<(int, int, int, int, Seq<LineChange>)> {
    let a = lines_of(old);
    let b = lines_of(new);
    let p = common_prefix(a, b);
    let q0 = common_suffix(a, b);
    let q = if q0 < a.len() - p { q0 } else { a.len() - p };
    let q = if q < b.len() - p { q } else { b.len() - p };
    let a_end = a.len() - q;
    let b_end = b.len() - q;
    if p == a_end && p == b_end {
        None
    } else {
        let start = if p >= diff_context() { p - diff_context() } else { 0 };
        let a_ctx_end = if a_end + diff_context() <= a.len() { a_end + diff_context() } else { a.len() as int };
        let b_ctx_end = if b_end + diff_context() <= b.len() { b_end + diff_context() } else { b.len() as int };
        let lines = changes(0, a.subrange(start, p)) + changes(1, a.subrange(p, a_end))
            + changes(2, b.subrange(p, b_end)) + changes(0, a.subrange(a_end, a_ctx_end));
        Some((start + 1, a_ctx_end - start, start + 1, b_ctx_end - start, lines))
    }
}

/// `hunks` is the diff `compute_diff` gives for `old` and `new`.
pub open spec fn is_diff_of(hunks: Seq<DiffHunk>, old: Seq<char>, new: Seq<char>) -> bool {
    match diff_of(old, new) {
        None => hunks.len() == 0,
        Some(h) => hunks.len() == 1 && hunks[0].old_start == h.0 && hunks[0].old_count == h.1
            && hunks[0].new_start == h.2 && hunks[0].new_count == h.3 && hunk_lines(hunks[0]) == h.4,
    }
}

/// The lines of `s`, as `str::lines` splits them.
pub fn split_lines(s: &str) -> (out: Vec<String>)
    ensures
        out@.map_values(|l: String| l@) == lines_of(s@),
{
    let cs = chars_of(s);
    let n = cs.len();
    let mut out: Vec<String> = Vec::new();
    let mut start: usize = 0;
    proof {
        assert(cs@.skip(0) == cs@);
    }
    while start < n
        invariant
            n == cs@.len(),
            cs@ == s@,
            start <= n,
            out@.map_values(|l: String| l@) + lines_of(cs@.skip(start as int)) == lines_of(s@),
        decreases n - start,
    {
        let ghost rest = cs@.skip(start as int);
        let mut e: usize = start;
        while e < n && cs[e] != '\n'
            invariant
                start <= e <= n,
                n == cs@.len(),
                rest == cs@.skip(start as int),
                newline_at_or_after(rest, (e - start) as int) == newline_at_or_after(rest, 0),
                forall|k: int| start <= k < e ==> cs@[k] != '\n',
            decreases n - e,
        {
            e = e + 1;
        }
        let ghost off = (e - start) as int;
        assert(newline_at_or_after(rest, 0) == off);
        let mut line: Vec<char> = Vec::new();
        let mut k: usize = start;
        while k < e
            invariant
                start <= k <= e <= n,
                n == cs@.len(),
                line@ == cs@.subrange(start as int, k as int),
            decreases e - k,
        {
            line.push(cs[k]);
            k = k + 1;
            assert(cs@.subrange(start as int, k as int) == cs@.subrange(start as int, k - 1).push(cs@[k - 1]));
        }
        let ghost o0 = out@.map_values(|l: String| l@);
        if e < n {
            if line.len() > 0 && line[line.len() - 1] == '\r' {
                line.pop();
            }
            out.push(string_from_chars(&line));
            proof {
                assert(rest.take(off) == cs@.subrange(start as int, e as int));
                assert(rest.skip(off + 1) == cs@.skip(e + 1));
                assert(lines_of(rest) == seq![strip_cr(rest.take(off))] + lines_of(rest.skip(off + 1)));
                assert(out@.map_values(|l: String| l@) == o0.push(strip_cr(rest.take(off))));
                assert(o0 + lines_of(rest) == o0.push(strip_cr(rest.take(off))) + lines_of(rest.skip(off + 1)));
            }
            start = e + 1;
        } else {
            out.push(string_from_chars(&line));
            proof {
                assert(rest == cs@.subrange(start as int, e as int));
                assert(lines_of(rest) == seq![rest]);
                assert(cs@.skip(n as int) == Seq::<char>::empty());
                assert(out@.map_values(|l: String| l@) == o0.push(rest));
                assert(o0 + lines_of(rest) == o0.push(rest) + lines_of(cs@.skip(n as int)));
            }
            start = n;
        }
    }
    proof {
        assert(cs@.skip(start as int) == Seq::<char>::empty());
        assert(out@.map_values(|l: String| l@) + Seq::<Seq<char>>::empty() == out@.map_values(|l: String| l@));
    }
    out
}


/// The view of each line.
pub open spec fn line_views(v: Seq<String>) -> Seq<Seq<char>> {
    v.map_values(|l: String| l@)
}

proof fn lemma_prefix_step(a: Seq<Seq<char>>, b: Seq<Seq<char>>, k: int)
    requires
        0 <= k < a.len(),
        k < b.len(),
        a[k] == b[k],
    ensures
        common_prefix_from(a, b, k) == 1 + common_prefix_from(a, b, k + 1),
{
}

proof fn lemma_prefix_bound(a: Seq<Seq<char>>, b: Seq<Seq<char>>, k: int)
    requires
        0 <= k,
    ensures
        common_prefix_from(a, b, k) >= 0,
        k <= a.len() ==> k + common_prefix_from(a, b, k) <= a.len(),
        k <= b.len() ==> k + common_prefix_from(a, b, k) <= b.len(),
    decreases a.len() - k,
{
    if k < a.len() && k < b.len() && a[k] == b[k] {
        lemma_prefix_bound(a, b, k + 1);
    }
}

/// Copy `lines[from..to]` into `out` as diff lines of one kind (see
/// `changes`).
fn push_lines(out: &mut Vec<DiffLine>, lines: &Vec<String>, from: usize, to: usize, kind: u8)
    requires
        from <= to <= lines@.len(),
    ensures
        final(out)@.map_values(|d: DiffLine| d@) == old(out)@.map_values(|d: DiffLine| d@)
            + changes(kind, line_views(lines@).subrange(from as int, to as int)),
{
    let ghost o0 = out@.map_values(|d: DiffLine| d@);
    let mut i: usize = from;
    while i < to
        invariant
            from <= i <= to <= lines@.len(),
            out@.map_values(|d: DiffLine| d@) == o0 + changes(kind, line_views(lines@).subrange(from as int, i as int)),
        decreases to - i,
    {
        let text = lines[i].clone();
        let d = if kind == 0 {
            DiffLine::Context(text)
        } else if kind == 1 {
            DiffLine::Removed(text)
        } else {
            DiffLine::Added(text)
        };
        let ghost before = out@;
        out.push(d);
        proof {
            let sub0 = line_views(lines@).subrange(from as int, i as int);
            let sub1 = line_views(lines@).subrange(from as int, i + 1);
            assert(sub1 == sub0.push(lines@[i as int]@));
            assert(out@.map_values(|d: DiffLine| d@) == before.map_values(|d: DiffLine| d@).push(d@));
            assert(changes(kind, sub1) == changes(kind, sub0).push(d@));
        }
        i = i + 1;
    }
}

/// Compute a unified diff between two strings.
///
/// Unchanged leading and trailing lines are trimmed; what remains becomes one
/// hunk with up to two lines of context on each side. Equal line sequences
/// give no hunk.
///
/// With a hunk, its old side is the old lines of its range, and the old lines
/// before that range, then its new side (context and added lines), then the
/// old lines after that range are the new lines.
pub fn compute_diff(old: &str, new: &str) -> (hunks: Vec<DiffHunk>)
    ensures
        is_diff_of(hunks@, old@, new@),
        hunks@.len() == 0 <==> lines_of(old@) == lines_of(new@),
        hunks@.len() == 1 ==> {
            let h = hunks@[0];
            let a = lines_of(old@);
            let start = h.old_start - 1;
            let end = start + h.old_count;
            &&& h.new_start == h.old_start
            &&& 0 <= start <= end <= a.len()
            &&& old_side(hunk_lines(h)) == a.subrange(start, end)
            &&& new_side(hunk_lines(h)).len() == h.new_count
            &&& lines_of(new@) == a.take(start) + new_side(hunk_lines(h)) + a.skip(end)
        },
{
    let hunks = diff_hunks(old, new);
    proof {
        lemma_hunk_turns_old_into_new(hunks@, old@, new@);
        if lines_of(old@) == lines_of(new@) {
            lemma_diff_of_same_text(old@);
            assert(diff_of(old@, new@) == diff_of(old@, old@));
        }
    }
    hunks
}

/// The hunk for the lines that differ, with its context.
#[verifier::spinoff_prover]
#[verifier::rlimit(40)]
fn diff_hunks(old: &str, new: &str) -> (hunks: Vec<DiffHunk>)
    ensures
        is_diff_of(hunks@, old@, new@),
{
    let a = split_lines(old);
    let b = split_lines(new);
    let ghost av = lines_of(old@);
    let ghost bv = lines_of(new@);
    assert(line_views(a@) == av);
    assert(line_views(b@) == bv);
    let mut p: usize = 0;
    while p < a.len() && p < b.len() && a[p] == b[p]
        invariant
            p <= a@.len(),
            p <= b@.len(),
            line_views(a@) == av,
            line_views(b@) == bv,
            common_prefix(av, bv) == p + common_prefix_from(av, bv, p as int),
        decreases a.len() - p,
    {
        proof {
            assert(av[p as int] == a@[p as int]@);
            assert(bv[p as int] == b@[p as int]@);
            lemma_prefix_step(av, bv, p as int);
        }
        p = p + 1;
    }
    assert(common_prefix_from(av, bv, p as int) == 0) by {
        if p < a.len() && p < b.len() {
            assert(av[p as int] == a@[p as int]@);
            assert(bv[p as int] == b@[p as int]@);
        }
    }
    let ghost ar = av.reverse();
    let ghost br = bv.reverse();
    let mut q: usize = 0;
    while q < a.len() && q < b.len() && a[a.len() - 1 - q] == b[b.len() - 1 - q]
        invariant
            q <= a@.len(),
            q <= b@.len(),
            line_views(a@) == av,
            line_views(b@) == bv,
            ar == av.reverse(),
            br == bv.reverse(),
            common_prefix(ar, br) == q + common_prefix_from(ar, br, q as int),
        decreases a.len() - q,
    {
        proof {
            assert(ar[q as int] == a@[a@.len() - 1 - q]@);
            assert(br[q as int] == b@[b@.len() - 1 - q]@);
            lemma_prefix_step(ar, br, q as int);
        }
        q = q + 1;
    }
    assert(common_prefix_from(ar, br, q as int) == 0) by {
        if q < a.len() && q < b.len() {
            assert(ar[q as int] == a@[a@.len() - 1 - q]@);
            assert(br[q as int] == b@[b@.len() - 1 - q]@);
        }
    }
    if q > a.len() - p {
        q = a.len() - p;
    }
    if q > b.len() - p {
        q = b.len() - p;
    }
    let a_end = a.len() - q;
    let b_end = b.len() - q;
    if p == a_end && p == b_end {
        return Vec::new();
    }
    let start = if p >= 2 { p - 2 } else { 0 };
    let a_ctx_end = if a.len() - a_end >= 2 { a_end + 2 } else { a.len() };
    let b_ctx_end = if b.len() - b_end >= 2 { b_end + 2 } else { b.len() };
    let mut lines: Vec<DiffLine> = Vec::new();
    push_lines(&mut lines, &a, start, p, 0);
    push_lines(&mut lines, &a, p, a_end, 1);
    push_lines(&mut lines, &b, p, b_end, 2);
    push_lines(&mut lines, &a, a_end, a_ctx_end, 0);
    let hunk = DiffHunk {
        old_start: start + 1,
        old_count: a_ctx_end - start,
        new_start: start + 1,
        new_count: b_ctx_end - start,
        lines,
    };
    let mut hunks: Vec<DiffHunk> = Vec::new();
    hunks.push(hunk);
    proof {
        assert(Seq::<DiffLine>::empty().map_values(|d: DiffLine| d@) =~= Seq::<LineChange>::empty());
        let c0 = changes(0, av.subrange(start as int, p as int));
        assert(Seq::<LineChange>::empty() + c0 =~= c0);
    }
    hunks
}

proof fn lemma_common_prefix_self(a: Seq<Seq<char>>, k: int)
    requires
        0 <= k <= a.len(),
    ensures
        common_prefix_from(a, a, k) == a.len() - k,
    decreases a.len() - k,
{
    if k < a.len() {
        lemma_common_prefix_self(a, k + 1);
    }
}

/// A text compared with itself has no hunk.
pub proof fn lemma_diff_of_same_text(s: Seq<char>)
    ensures
        diff_of(s, s) is None,
{
    let a = lines_of(s);
    lemma_common_prefix_self(a, 0);
    lemma_prefix_bound(a.reverse(), a.reverse(), 0);
}

/// The lines a diff keeps from the old text: context and removed lines.
pub open spec fn old_side(ls: Seq<LineChange>) -> Seq<Seq<char>>
    decreases ls.len(),
{
    if ls.len() == 0 {
        Seq::empty()
    } else {
        let rest = old_side(ls.drop_last());
        match ls.last() {
            LineChange::Context(l) => rest.push(l),
            LineChange::Removed(l) => rest.push(l),
            LineChange::Added(_) => rest,
        }
    }
}

/// The lines a diff gives the new text: context and added lines.
pub open spec fn new_side(ls: Seq<LineChange>) -> Seq<Seq<char>>
    decreases ls.len(),
{
    if ls.len() == 0 {
        Seq::empty()
    } else {
        let rest = new_side(ls.drop_last());
        match ls.last() {
            LineChange::Context(l) => rest.push(l),
            LineChange::Added(l) => rest.push(l),
            LineChange::Removed(_) => rest,
        }
    }
}

proof fn lemma_sides_concat(x: Seq<LineChange>, y: Seq<LineChange>)
    ensures
        old_side(x + y) == old_side(x) + old_side(y),
        new_side(x + y) == new_side(x) + new_side(y),
    decreases y.len(),
{
    if y.len() == 0 {
        assert(x + y =~= x);
        assert(old_side(x) + old_side(y) =~= old_side(x));
        assert(new_side(x) + new_side(y) =~= new_side(x));
    } else {
        lemma_sides_concat(x, y.drop_last());
        assert((x + y).drop_last() =~= x + y.drop_last());
        assert((x + y).last() == y.last());
        assert(old_side(x) + old_side(y.drop_last()).push(y.last()->Context_0) =~= (old_side(x)
            + old_side(y.drop_last())).push(y.last()->Context_0));
        assert(old_side(x) + old_side(y.drop_last()).push(y.last()->Removed_0) =~= (old_side(x)
            + old_side(y.drop_last())).push(y.last()->Removed_0));
        assert(new_side(x) + new_side(y.drop_last()).push(y.last()->Context_0) =~= (new_side(x)
            + new_side(y.drop_last())).push(y.last()->Context_0));
        assert(new_side(x) + new_side(y.drop_last()).push(y.last()->Added_0) =~= (new_side(x)
            + new_side(y.drop_last())).push(y.last()->Added_0));
    }
}

proof fn lemma_sides_of_changes(kind: u8, ls: Seq<Seq<char>>)
    ensures
        old_side(changes(kind, ls)) == (if kind <= 1 { ls } else { Seq::<Seq<char>>::empty() }),
        new_side(changes(kind, ls)) == (if kind == 1 { Seq::<Seq<char>>::empty() } else { ls }),
    decreases ls.len(),
{
    let c = changes(kind, ls);
    if ls.len() > 0 {
        lemma_sides_of_changes(kind, ls.drop_last());
        assert(c.drop_last() =~= changes(kind, ls.drop_last()));
        assert(ls.drop_last().push(ls.last()) =~= ls);
        if kind == 0 {
            assert(c.last() == LineChange::Context(ls.last()));
            assert(old_side(c) == old_side(c.drop_last()).push(ls.last()));
        } else if kind == 1 {
            assert(c.last() == LineChange::Removed(ls.last()));
            assert(old_side(c) == old_side(c.drop_last()).push(ls.last()));
        } else {
            assert(c.last() == LineChange::Added(ls.last()));
            assert(old_side(c) == old_side(c.drop_last()));
        }
    } else {
        assert(c =~= Seq::<LineChange>::empty());
        assert(ls =~= Seq::<Seq<char>>::empty());
    }
}

proof fn lemma_prefix_equal(a: Seq<Seq<char>>, b: Seq<Seq<char>>, k: int)
    requires
        0 <= k,
    ensures
        forall|i: int| k <= i < k + common_prefix_from(a, b, k) ==> a[i] == b[i],
    decreases a.len() - k,
{
    if k < a.len() && k < b.len() && a[k] == b[k] {
        lemma_prefix_equal(a, b, k + 1);
    }
}

/// The first `p` lines agree when `p` is within the common prefix.
proof fn lemma_prefix_take(a: Seq<Seq<char>>, b: Seq<Seq<char>>, p: int)
    requires
        0 <= p <= common_prefix(a, b),
        p <= a.len(),
        p <= b.len(),
    ensures
        a.take(p) == b.take(p),
{
    lemma_prefix_equal(a, b, 0);
    assert(a.take(p) =~= b.take(p));
}

/// The last `q` lines agree when `q` is within the common suffix.
proof fn lemma_suffix_skip(a: Seq<Seq<char>>, b: Seq<Seq<char>>, q: int)
    requires
        0 <= q <= common_suffix(a, b),
        q <= a.len(),
        q <= b.len(),
    ensures
        a.skip(a.len() - q) == b.skip(b.len() - q),
{
    lemma_prefix_equal(a.reverse(), b.reverse(), 0);
    assert forall|j: int| 0 <= j < q implies #[trigger] a.skip(a.len() - q)[j] == b.skip(b.len() - q)[j] by {
        let i = q - 1 - j;
        assert(a.reverse()[i] == b.reverse()[i]);
    }
    assert(a.skip(a.len() - q) =~= b.skip(b.len() - q));
}

/// The sides of the hunk `diff_of` builds from the prefix `p` and the
/// suffix start `a_end`/`b_end`.
proof fn lemma_hunk_sides(
    a: Seq<Seq<char>>,
    b: Seq<Seq<char>>,
    start: int,
    p: int,
    a_end: int,
    b_end: int,
    a_ctx_end: int,
    b_ctx_end: int,
)
    requires
        0 <= start <= p <= a_end <= a_ctx_end <= a.len(),
        p <= b_end <= b_ctx_end <= b.len(),
        a.len() - a_end == b.len() - b_end,
        a_ctx_end - a_end == b_ctx_end - b_end,
        a.take(p) == b.take(p),
        a.skip(a_end) == b.skip(b_end),
    ensures
        ({
            let ls = changes(0, a.subrange(start, p)) + changes(1, a.subrange(p, a_end)) + changes(
                2,
                b.subrange(p, b_end),
            ) + changes(0, a.subrange(a_end, a_ctx_end));
            &&& old_side(ls) == a.subrange(start, a_ctx_end)
            &&& new_side(ls) == b.subrange(start, b_ctx_end)
        }),
{
    let c0 = changes(0, a.subrange(start, p));
    let c1 = changes(1, a.subrange(p, a_end));
    let c2 = changes(2, b.subrange(p, b_end));
    let c3 = changes(0, a.subrange(a_end, a_ctx_end));
    lemma_sides_of_changes(0, a.subrange(start, p));
    lemma_sides_of_changes(1, a.subrange(p, a_end));
    lemma_sides_of_changes(2, b.subrange(p, b_end));
    lemma_sides_of_changes(0, a.subrange(a_end, a_ctx_end));
    lemma_sides_concat(c0, c1);
    lemma_sides_concat(c0 + c1, c2);
    lemma_sides_concat(c0 + c1 + c2, c3);
    assert(old_side(c0 + c1 + c2 + c3) =~= a.subrange(start, a_ctx_end));
    assert(a.subrange(start, p) =~= a.take(p).skip(start));
    assert(b.subrange(start, p) =~= b.take(p).skip(start));
    assert(a.subrange(a_end, a_ctx_end) =~= a.skip(a_end).take(a_ctx_end - a_end));
    assert(b.subrange(b_end, b_ctx_end) =~= b.skip(b_end).take(b_ctx_end - b_end));
    assert(new_side(c0 + c1 + c2 + c3) =~= b.subrange(start, b_ctx_end));
}

/// The diff's hunk covers the change: its old side is the old text's lines
/// in the hunk's range, and putting its new side in place of that range
/// gives the new text's lines. Without a hunk the lines are equal.
#[verifier::rlimit(50)]
pub proof fn lemma_hunk_turns_old_into_new(hunks: Seq<DiffHunk>, old: Seq<char>, new: Seq<char>)
    requires
        is_diff_of(hunks, old, new),
    ensures
        hunks.len() == 0 ==> lines_of(old) == lines_of(new),
        hunks.len() == 1 ==> {
            let h = hunks[0];
            let a = lines_of(old);
            let start = h.old_start - 1;
            let end = start + h.old_count;
            &&& h.new_start == h.old_start
            &&& 0 <= start <= end <= a.len()
            &&& old_side(hunk_lines(h)) == a.subrange(start, end)
            &&& new_side(hunk_lines(h)).len() == h.new_count
            &&& lines_of(new) == a.take(start) + new_side(hunk_lines(h)) + a.skip(end)
        },
{
    let a = lines_of(old);
    let b = lines_of(new);
    let p = common_prefix(a, b);
    let q0 = common_suffix(a, b);
    lemma_prefix_bound(a, b, 0);
    lemma_prefix_bound(a.reverse(), b.reverse(), 0);
    let q1 = if q0 < a.len() - p { q0 } else { a.len() - p };
    let q = if q1 < b.len() - p { q1 } else { b.len() - p };
    let a_end = a.len() - q;
    let b_end = b.len() - q;
    lemma_prefix_take(a, b, p);
    lemma_suffix_skip(a, b, q);
    if p == a_end && p == b_end {
        assert(a =~= a.take(p) + a.skip(a_end));
        assert(b =~= b.take(p) + b.skip(b_end));
    } else {
        let start = if p >= diff_context() { p - diff_context() } else { 0 };
        let a_ctx_end = if a_end + diff_context() <= a.len() { a_end + diff_context() } else { a.len() as int };
        let b_ctx_end = if b_end + diff_context() <= b.len() { b_end + diff_context() } else { b.len() as int };
        lemma_hunk_sides(a, b, start, p, a_end, b_end, a_ctx_end, b_ctx_end);
        assert(a.take(start) =~= b.take(start)) by {
            assert(a.take(start) =~= a.take(p).take(start));
            assert(b.take(start) =~= b.take(p).take(start));
        }
        assert(a.skip(a_ctx_end) =~= b.skip(b_ctx_end)) by {
            assert(a.skip(a_ctx_end) =~= a.skip(a_end).skip(a_ctx_end - a_end));
            assert(b.skip(b_ctx_end) =~= b.skip(b_end).skip(b_ctx_end - b_end));
        }
        assert(b =~= b.take(start) + b.subrange(start, b_ctx_end) + b.skip(b_ctx_end));
    }
}
} // verus!
