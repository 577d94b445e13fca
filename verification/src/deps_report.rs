//! Text reports of a dependency graph: the module summary, Graphviz DOT,
//! Mermaid, the cycle list and the coupling statistics, line by line.

use vstd::prelude::*;

use crate::elm::{joined, join_strings, strs};
use crate::graph::{distinct_names, find_cycles, name_seq};
use crate::stats::{counts_view, DepsStats};
use crate::text::{chars_lt, chars_of, decimal, lex_lt, push_char, push_decimal, push_str};

verus! {

/// A graph taken by module names and import names.
pub open spec fn gview(g: Seq<(String, Vec<String>)>) -> Seq<(Seq<char>, Seq<Seq<char>>)> {
    g.map_values(|e: (String, Vec<String>)| (e.0@, strs(e.1@)))
}

/// Index of the first entry with the smallest name.
pub open spec fn min_name_index(s: Seq<(Seq<char>, Seq<Seq<char>>)>) -> int
    decreases s.len(),
{
    if s.len() <= 1 {
        0
    } else {
        let m = min_name_index(s.drop_last());
        if lex_lt(s.last().0, s[m].0) {
            s.len() - 1
        } else {
            m
        }
    }
}

pub proof fn lemma_min_name_index_range(s: Seq<(Seq<char>, Seq<Seq<char>>)>)
    requires
        s.len() > 0,
    ensures
        0 <= min_name_index(s) < s.len(),
    decreases s.len(),
{
    if s.len() > 1 {
        lemma_min_name_index_range(s.drop_last());
    }
}

/// The entries ordered by module name (selection of the first smallest name).
pub open spec fn by_name(s: Seq<(Seq<char>, Seq<Seq<char>>)>) -> Seq<(Seq<char>, Seq<Seq<char>>)>
    decreases s.len(),
{
    if s.len() == 0 {
        Seq::empty()
    } else {
        proof {
            lemma_min_name_index_range(s);
        }
        let m = min_name_index(s);
        seq![s[m]] + by_name(s.remove(m))
    }
}

proof fn lemma_min_name_index_min(s: Seq<(Seq<char>, Seq<Seq<char>>)>)
    requires
        s.len() > 0,
    ensures
        forall|k: int| 0 <= k < s.len() ==> !lex_lt(#[trigger] s[k].0, s[min_name_index(s)].0),
    decreases s.len(),
{
    lemma_min_name_index_range(s);
    if s.len() > 1 {
        let init = s.drop_last();
        lemma_min_name_index_min(init);
        lemma_min_name_index_range(init);
        let m0 = min_name_index(init);
        assert forall|k: int| 0 <= k < s.len() implies !lex_lt(#[trigger] s[k].0, s[min_name_index(s)].0) by {
            if k < s.len() - 1 {
                assert(s[k] == init[k]);
                assert(!lex_lt(init[k].0, init[m0].0));
                if lex_lt(s.last().0, s[m0].0) {
                    if lex_lt(s[k].0, s.last().0) {
                        crate::text::lemma_lex_trans(s[k].0, s.last().0, s[m0].0);
                    }
                }
            } else {
                crate::text::lemma_lex_order(s[k].0, s[k].0);
                crate::text::lemma_lex_order(s[k].0, s[m0].0);
            }
        }
    } else {
        crate::text::lemma_lex_order(s[0].0, s[0].0);
    }
}

/// Ordering by name keeps every entry, as often as it occurs, and puts no
/// entry after one whose name is greater.
pub proof fn lemma_by_name_sorts(s: Seq<(Seq<char>, Seq<Seq<char>>)>)
    ensures
        by_name(s).to_multiset() == s.to_multiset(),
        by_name(s).len() == s.len(),
        forall|a: int, b: int| 0 <= a < b < s.len() ==> !lex_lt(#[trigger] by_name(s)[b].0, #[trigger] by_name(s)[a].0),
    decreases s.len(),
{
    broadcast use vstd::seq_lib::group_to_multiset_ensures;

    if s.len() == 0 {
        assert(by_name(s) =~= s);
    } else {
        lemma_min_name_index_range(s);
        lemma_min_name_index_min(s);
        let m = min_name_index(s);
        let x = s[m];
        let r = s.remove(m);
        let bn = by_name(r);
        lemma_by_name_sorts(r);
        assert(by_name(s) == seq![x] + bn);
        assert(seq![x] + bn =~= bn.insert(0, x));
        vstd::seq_lib::to_multiset_insert(bn, 0, x);
        vstd::seq_lib::to_multiset_remove(s, m);
        assert(s.to_multiset().count(x) > 0);
        assert(r.to_multiset().insert(x) =~= s.to_multiset());
        vstd::seq_lib::to_multiset_len(bn);
        vstd::seq_lib::to_multiset_len(r);
        assert forall|a: int, b: int| 0 <= a < b < s.len() implies !lex_lt(
            #[trigger] by_name(s)[b].0,
            #[trigger] by_name(s)[a].0,
        ) by {
            if a == 0 {
                let y = bn[b - 1];
                assert(by_name(s)[b] == y);
                assert(bn.to_multiset().count(y) > 0);
                assert(r.contains(y));
                let q = choose|q: int| 0 <= q < r.len() && r[q] == y;
                let k = if q < m { q } else { q + 1 };
                assert(s[k] == y);
            } else {
                assert(by_name(s)[a] == bn[a - 1]);
                assert(by_name(s)[b] == bn[b - 1]);
            }
        }
    }
}

/// Copies of strings.
fn copy_strings(v: &Vec<String>) -> (out: Vec<String>)
    ensures
        strs(out@) == strs(v@),
{
    let mut out: Vec<String> = Vec::new();
    for i in 0..v.len()
        invariant
            strs(out@) == strs(v@).take(i as int),
    {
        out.push(v[i].clone());
        assert(strs(v@).take(i + 1) == strs(v@).take(i as int).push(v@[i as int]@));
    }
    assert(strs(v@).take(v.len() as int) == strs(v@));
    out
}

/// The graph's entries ordered by module name.
pub fn sorted_entries(graph: &Vec<(String, Vec<String>)>) -> (out: Vec<(String, Vec<String>)>)
    ensures
        gview(out@) == by_name(gview(graph@)),
{
    let mut rem: Vec<(String, Vec<String>)> = Vec::new();
    for i in 0..graph.len()
        invariant
            gview(rem@) == gview(graph@).take(i as int),
    {
        rem.push((graph[i].0.clone(), copy_strings(&graph[i].1)));
        assert(gview(graph@).take(i + 1) == gview(graph@).take(i as int).push(gview(graph@)[i as int]));
    }
    assert(gview(graph@).take(graph.len() as int) == gview(graph@));
    let mut out: Vec<(String, Vec<String>)> = Vec::new();
    while rem.len() > 0
        invariant
            gview(out@) + by_name(gview(rem@)) == by_name(gview(graph@)),
        decreases rem.len(),
    {
        let ghost rv = gview(rem@);
        let mut m: usize = 0;
        let mut j: usize = 1;
        let mut mname = chars_of(rem[0].0.as_str());
        while j < rem.len()
            invariant
                1 <= j <= rem@.len(),
                m < j,
                rv == gview(rem@),
                m == min_name_index(rv.take(j as int)),
                mname@ == rv[m as int].0,
            decreases rem.len() - j,
        {
            let c = chars_of(rem[j].0.as_str());
            proof {
                assert(rv.take(j + 1).drop_last() == rv.take(j as int));
                assert(rv.take(j + 1).last() == rv[j as int]);
                assert(rv.take(j as int)[m as int] == rv[m as int]);
            }
            if chars_lt(&c, &mname) {
                m = j;
                mname = c;
            }
            j = j + 1;
        }
        assert(rv.take(rem.len() as int) == rv);
        let e = rem.remove(m);
        let ghost o0 = gview(out@);
        out.push(e);
        proof {
            assert(gview(rem@) == rv.remove(m as int));
            assert(gview(out@) == o0.push(rv[m as int]));
            assert(by_name(rv) == seq![rv[m as int]] + by_name(rv.remove(m as int)));
            assert(o0.push(rv[m as int]) + by_name(rv.remove(m as int)) == o0 + (seq![rv[m as int]] + by_name(rv.remove(m as int))));
        }
    }
    assert(by_name(gview(rem@)) == Seq::<(Seq<char>, Seq<Seq<char>>)>::empty());
    assert(gview(out@) + Seq::<(Seq<char>, Seq<Seq<char>>)>::empty() == gview(out@));
    out
}

// ── Lines ────────────────────────────────────────────────────────────

/// The characters of each line.
pub open spec fn lines_view(v: Seq<String>) -> Seq<Seq<char>> {
    strs(v)
}

/// `s` with every `'.'` replaced by `'_'` (a Graphviz-safe identifier).
pub open spec fn dot_safe(s: Seq<char>) -> Seq<char> {
    s.map_values(|c: char| if c == '.' { '_' } else { c })
}

/// Replace every `'.'` by `'_'`.
fn dot_safe_name(s: &String) -> (r: String)
    ensures
        r@ == dot_safe(s@),
{
    let cs = chars_of(s.as_str());
    let mut r = String::new();
    for i in 0..cs.len()
        invariant
            cs@ == s@,
            r@ == dot_safe(s@).take(i as int),
    {
        let c = if cs[i] == '.' { '_' } else { cs[i] };
        push_char(&mut r, c);
        assert(dot_safe(s@).take(i + 1) == dot_safe(s@).take(i as int).push(c));
    }
    assert(dot_safe(s@).take(cs.len() as int) == dot_safe(s@));
    r
}

/// The lines the summary prints for each module: its name, marked when it
/// has no internal import, then one `  -> dep` line per import.
pub open spec fn summary_module_lines(sorted: Seq<(Seq<char>, Seq<Seq<char>>)>) -> Seq<Seq<char>>
    decreases sorted.len(),
{
    if sorted.len() == 0 {
        Seq::empty()
    } else {
        let (m, deps) = sorted.last();
        summary_module_lines(sorted.drop_last()) + if deps.len() == 0 {
            seq![m + " (no internal imports)"@]
        } else {
            seq![m] + deps.map_values(|d: Seq<char>| "  -> "@ + d)
        }
    }
}

/// The number of imports of all entries.
pub open spec fn import_total(s: Seq<(Seq<char>, Seq<Seq<char>>)>) -> nat
    decreases s.len(),
{
    if s.len() == 0 {
        0
    } else {
        import_total(s.drop_last()) + s.last().1.len()
    }
}

/// The line naming a module in the summary: its name, marked when it has
/// no internal import.
pub open spec fn summary_header(e: (Seq<char>, Seq<Seq<char>>)) -> Seq<char> {
    if e.1.len() == 0 {
        e.0 + " (no internal imports)"@
    } else {
        e.0
    }
}

proof fn lemma_import_total_prefix(s: Seq<(Seq<char>, Seq<Seq<char>>)>, i: int)
    requires
        0 <= i < s.len(),
    ensures
        import_total(s.take(i + 1)) == import_total(s.take(i)) + s[i].1.len(),
        import_total(s.take(i + 1)) <= import_total(s),
    decreases s.len(),
{
    assert(s.take(i + 1).drop_last() =~= s.take(i));
    if i + 1 == s.len() {
        assert(s.take(i + 1) =~= s);
    } else {
        let init = s.drop_last();
        lemma_import_total_prefix(init, i);
        assert(init.take(i + 1) =~= s.take(i + 1));
        assert(init.take(i) =~= s.take(i));
    }
}

proof fn lemma_summary_len(s: Seq<(Seq<char>, Seq<Seq<char>>)>)
    ensures
        summary_module_lines(s).len() == s.len() + import_total(s),
    decreases s.len(),
{
    if s.len() > 0 {
        lemma_summary_len(s.drop_last());
    }
}

proof fn lemma_summary_entry(s: Seq<(Seq<char>, Seq<Seq<char>>)>, i: int)
    requires
        0 <= i < s.len(),
    ensures
        summary_module_lines(s)[i + import_total(s.take(i))] == summary_header(s[i]),
        forall|j: int|
            0 <= j < s[i].1.len() ==> summary_module_lines(s)[i + import_total(s.take(i)) + 1 + j] == "  -> "@
                + #[trigger] s[i].1[j],
    decreases s.len(),
{
    let n = s.len() - 1;
    let init = s.drop_last();
    let (m, deps) = s.last();
    let before = summary_module_lines(init);
    let block = if deps.len() == 0 {
        seq![m + " (no internal imports)"@]
    } else {
        seq![m] + deps.map_values(|d: Seq<char>| "  -> "@ + d)
    };
    assert(summary_module_lines(s) == before + block);
    lemma_summary_len(init);
    if i == n {
        assert(s.take(n) =~= init);
    } else {
        lemma_summary_entry(init, i);
        lemma_import_total_prefix(init, i);
        assert(init[i] == s[i]);
        assert(init.take(i) =~= s.take(i));
    }
}

/// The summary lists, entry by entry, each module's line and then one
/// `"  -> d"` line for each of its imports `d`, in order: entry `i`'s lines
/// start after the lines of the entries before it (one line each, plus one
/// per import), and the summary has one line per entry and one per import.
pub proof fn lemma_summary_lists_each_import(s: Seq<(Seq<char>, Seq<Seq<char>>)>)
    ensures
        summary_module_lines(s).len() == s.len() + import_total(s),
        forall|i: int|
            #![trigger s[i]]
            0 <= i < s.len() ==> summary_module_lines(s)[i + import_total(s.take(i))] == summary_header(s[i]),
        forall|i: int, j: int|
            #![trigger s[i].1[j]]
            0 <= i < s.len() && 0 <= j < s[i].1.len() ==> summary_module_lines(s)[i + import_total(s.take(i)) + 1 + j]
                == "  -> "@ + s[i].1[j],
{
    lemma_summary_len(s);
    assert forall|i: int| #![trigger s[i]] 0 <= i < s.len() implies summary_module_lines(s)[i + import_total(
        s.take(i),
    )] == summary_header(s[i]) by {
        lemma_summary_entry(s, i);
    }
    assert forall|i: int, j: int| #![trigger s[i].1[j]] 0 <= i < s.len() && 0 <= j < s[i].1.len() implies summary_module_lines(s)[i
        + import_total(s.take(i)) + 1 + j] == "  -> "@ + s[i].1[j] by {
        lemma_summary_entry(s, i);
    }
}

/// One `  {from} {arrow} {to}` line per import, module by module.
pub open spec fn edge_lines(
    sorted: Seq<(Seq<char>, Seq<Seq<char>>)>,
    arrow: Seq<char>,
    suffix: Seq<char>,
    safe: bool,
) -> Seq<Seq<char>>
    decreases sorted.len(),
{
    if sorted.len() == 0 {
        Seq::empty()
    } else {
        let (m, deps) = sorted.last();
        edge_lines(sorted.drop_last(), arrow, suffix, safe) + deps.map_values(
            |d: Seq<char>|
                if safe {
                    "  "@ + dot_safe(m) + arrow + dot_safe(d) + suffix
                } else {
                    "  "@ + m + arrow + d + suffix
                },
        )
    }
}

/// The Mermaid diagram of a graph.
pub open spec fn mermaid_lines(g: Seq<(Seq<char>, Seq<Seq<char>>)>) -> Seq<Seq<char>> {
    seq!["graph LR"@] + edge_lines(by_name(g), " --> "@, Seq::empty(), false)
}

/// The Graphviz DOT diagram of a graph.
pub open spec fn dot_lines(g: Seq<(Seq<char>, Seq<Seq<char>>)>) -> Seq<Seq<char>> {
    seq![
        "digraph elm_deps {"@,
        "  rankdir=LR;"@,
        "  node [shape=box, style=filled, fillcolor=lightblue];"@,
    ] + by_name(g).map_values(
        |e: (Seq<char>, Seq<Seq<char>>)| "  "@ + dot_safe(e.0) + " [label=\""@ + e.0 + "\"];"@,
    ) + edge_lines(by_name(g), " -> "@, ";"@, true) + seq!["}"@]
}

/// The cycle report: a line saying there is none, or a count line (ending
/// in `tail`) and one `  a -> b -> a` line per cycle.
pub open spec fn cycle_lines(cycles: Seq<Seq<Seq<char>>>, tail: Seq<char>) -> Seq<Seq<char>> {
    if cycles.len() == 0 {
        seq!["No circular dependencies found."@]
    } else {
        seq![decimal(cycles.len()) + " circular dependency chain(s)"@ + tail] + cycles.map_values(
            |c: Seq<Seq<char>>| "  "@ + joined(c, " -> "@),
        )
    }
}

/// Appends each module's edge lines (see `edge_lines`).
fn push_edge_lines(
    out: &mut Vec<String>,
    sorted: &Vec<(String, Vec<String>)>,
    arrow: &str,
    suffix: &str,
    safe: bool,
)
    ensures
        lines_view(final(out)@) == lines_view(old(out)@) + edge_lines(gview(sorted@), arrow@, suffix@, safe),
{
    let ghost o0 = lines_view(out@);
    let ghost sv = gview(sorted@);
    for i in 0..sorted.len()
        invariant
            sv == gview(sorted@),
            lines_view(out@) == o0 + edge_lines(sv.take(i as int), arrow@, suffix@, safe),
    {
        let ghost t = sv.take(i + 1);
        assert(t.drop_last() == sv.take(i as int));
        assert(t.last() == sv[i as int]);
        let m = &sorted[i].0;
        let deps = &sorted[i].1;
        let ghost base = lines_view(out@);
        let ghost f = |d: Seq<char>|
            if safe {
                "  "@ + dot_safe(m@) + arrow@ + dot_safe(d) + suffix@
            } else {
                "  "@ + m@ + arrow@ + d + suffix@
            };
        for k in 0..deps.len()
            invariant
                f == (|d: Seq<char>|
                    if safe {
                        "  "@ + dot_safe(m@) + arrow@ + dot_safe(d) + suffix@
                    } else {
                        "  "@ + m@ + arrow@ + d + suffix@
                    }),
                lines_view(out@) == base + strs(deps@).take(k as int).map_values(f),
        {
            let mut line = String::new();
            push_str(&mut line, "  ");
            if safe {
                let a = dot_safe_name(m);
                push_str(&mut line, a.as_str());
                push_str(&mut line, arrow);
                let b = dot_safe_name(&deps[k]);
                push_str(&mut line, b.as_str());
            } else {
                push_str(&mut line, m.as_str());
                push_str(&mut line, arrow);
                push_str(&mut line, deps[k].as_str());
            }
            push_str(&mut line, suffix);
            let ghost q0 = out@;
            out.push(line);
            proof {
                assert(line@ == f(deps@[k as int]@));
                assert(lines_view(out@) == lines_view(q0).push(line@));
                assert(strs(deps@).take(k + 1) == strs(deps@).take(k as int).push(deps@[k as int]@));
            }
        }
        proof {
            assert(strs(deps@).take(deps.len() as int) == strs(deps@));
            assert(strs(deps@).map_values(f) =~= t.last().1.map_values(
                |d: Seq<char>|
                    if safe {
                        "  "@ + dot_safe(t.last().0) + arrow@ + dot_safe(d) + suffix@
                    } else {
                        "  "@ + t.last().0 + arrow@ + d + suffix@
                    },
            ));
        }
    }
    assert(sv.take(sorted.len() as int) == sv);
}

/// Appends one line per string.
fn push_line(out: &mut Vec<String>, text: &str)
    ensures
        lines_view(final(out)@) == lines_view(old(out)@).push(text@),
{
    let mut line = String::new();
    push_str(&mut line, text);
    out.push(line);
}

/// The Mermaid diagram of a graph, line by line.
pub fn render_mermaid(graph: &Vec<(String, Vec<String>)>) -> (lines: Vec<String>)
    ensures
        lines_view(lines@) == mermaid_lines(gview(graph@)),
{
    let sorted = sorted_entries(graph);
    let mut out: Vec<String> = Vec::new();
    push_line(&mut out, "graph LR");
    push_edge_lines(&mut out, &sorted, " --> ", "", false);
    proof {
        reveal_strlit("");
        assert(""@ == Seq::<char>::empty());
    }
    out
}

/// The Graphviz DOT diagram of a graph, line by line.
pub fn render_dot(graph: &Vec<(String, Vec<String>)>) -> (lines: Vec<String>)
    ensures
        lines_view(lines@) == dot_lines(gview(graph@)),
{
    let sorted = sorted_entries(graph);
    let mut out: Vec<String> = Vec::new();
    push_line(&mut out, "digraph elm_deps {");
    push_line(&mut out, "  rankdir=LR;");
    push_line(&mut out, "  node [shape=box, style=filled, fillcolor=lightblue];");
    let ghost sv = gview(sorted@);
    let ghost head = lines_view(out@);
    let ghost f = |e: (Seq<char>, Seq<Seq<char>>)| "  "@ + dot_safe(e.0) + " [label=\""@ + e.0 + "\"];"@;
    for i in 0..sorted.len()
        invariant
            sv == gview(sorted@),
            f == (|e: (Seq<char>, Seq<Seq<char>>)| "  "@ + dot_safe(e.0) + " [label=\""@ + e.0 + "\"];"@),
            lines_view(out@) == head + sv.take(i as int).map_values(f),
    {
        let mut line = String::new();
        push_str(&mut line, "  ");
        let safe = dot_safe_name(&sorted[i].0);
        push_str(&mut line, safe.as_str());
        push_str(&mut line, " [label=\"");
        push_str(&mut line, sorted[i].0.as_str());
        push_str(&mut line, "\"];");
        let ghost q0 = out@;
        out.push(line);
        proof {
            assert(line@ == f(sv[i as int]));
            assert(lines_view(out@) == lines_view(q0).push(line@));
            assert(sv.take(i + 1) == sv.take(i as int).push(sv[i as int]));
        }
    }
    assert(sv.take(sorted.len() as int) == sv);
    push_edge_lines(&mut out, &sorted, " -> ", ";", true);
    push_line(&mut out, "}");
    proof {
        assert(seq![
            "digraph elm_deps {"@,
            "  rankdir=LR;"@,
            "  node [shape=box, style=filled, fillcolor=lightblue];"@,
        ] == head);
    }
    out
}

/// The cycle report, line by line; `tail` ends the count line.
pub fn render_cycle_list(cycles: &Vec<Vec<String>>, tail: &str) -> (lines: Vec<String>)
    ensures
        lines_view(lines@) == cycle_lines(cycles@.map_values(|c: Vec<String>| strs(c@)), tail@),
{
    let ghost cv = cycles@.map_values(|c: Vec<String>| strs(c@));
    let mut out: Vec<String> = Vec::new();
    if cycles.len() == 0 {
        push_line(&mut out, "No circular dependencies found.");
        return out;
    }
    let mut head = String::new();
    push_decimal(&mut head, cycles.len() as u64);
    push_str(&mut head, " circular dependency chain(s)");
    push_str(&mut head, tail);
    out.push(head);
    let ghost f = |c: Seq<Seq<char>>| "  "@ + joined(c, " -> "@);
    let ghost h = lines_view(out@);
    for i in 0..cycles.len()
        invariant
            cv == cycles@.map_values(|c: Vec<String>| strs(c@)),
            f == (|c: Seq<Seq<char>>| "  "@ + joined(c, " -> "@)),
            lines_view(out@) == h + cv.take(i as int).map_values(f),
    {
        let mut line = String::new();
        push_str(&mut line, "  ");
        let j = join_strings(&cycles[i], " -> ");
        push_str(&mut line, j.as_str());
        let ghost q0 = out@;
        out.push(line);
        proof {
            assert(line@ == f(cv[i as int]));
            assert(lines_view(out@) == lines_view(q0).push(line@));
            assert(cv.take(i + 1) == cv.take(i as int).push(cv[i as int]));
        }
    }
    assert(cv.take(cycles.len() as int) == cv);
    out
}

/// `line` shows a circular dependency of `g` in import order: two spaces,
/// then modules joined with `" -> "`, each of which (but the last) imports
/// the next, the last being the first again.
pub open spec fn shows_cycle(g: Seq<(String, Vec<String>)>, line: Seq<char>) -> bool {
    exists|c: Seq<Seq<char>>| #[trigger] crate::graph::is_dependency_cycle(g, c) && line == "  "@ + joined(c, " -> "@)
}

/// Every line of a cycle report after its count line shows a circular
/// dependency of the graph in import order.
pub proof fn lemma_cycle_lines_follow_imports(g: Seq<(String, Vec<String>)>, cycles: Seq<Seq<Seq<char>>>, tail: Seq<char>)
    requires
        forall|k: int| 0 <= k < cycles.len() ==> crate::graph::is_dependency_cycle(g, #[trigger] cycles[k]),
    ensures
        cycle_lines(cycles, tail).len() == if cycles.len() == 0 { 1 } else { cycles.len() + 1 },
        forall|k: int| 1 <= k < cycle_lines(cycles, tail).len() ==> #[trigger] shows_cycle(g, cycle_lines(cycles, tail)[k]),
{
    assert forall|k: int| 1 <= k < cycle_lines(cycles, tail).len() implies #[trigger] shows_cycle(
        g,
        cycle_lines(cycles, tail)[k],
    ) by {
        assert(crate::graph::is_dependency_cycle(g, cycles[k - 1]));
    }
}

/// The circular dependencies of a graph, as the `--cycles` report.
pub fn render_cycles(graph: &Vec<(String, Vec<String>)>) -> (lines: Vec<String>)
    requires
        distinct_names(graph@),
    ensures
        exists|cycles: Seq<Seq<Seq<char>>>|
            #[trigger] lines_view(lines@) == cycle_lines(cycles, ":"@) && (cycles.len() > 0
                <==> crate::graph::has_dependency_cycle(graph@)) && (forall|k: int|
                0 <= k < cycles.len() ==> crate::graph::is_dependency_cycle(graph@, #[trigger] cycles[k]))
                && (forall|x: int, y: int|
                0 <= x < y < cycles.len() ==> !crate::cycles::same_cycle(#[trigger] cycles[x], #[trigger] cycles[y]))
                && (forall|nc: Seq<Seq<char>>|
                #[trigger] crate::graph::is_simple_dependency_cycle(graph@, nc) ==> exists|k: int|
                    0 <= k < cycles.len() && #[trigger] crate::cycles::same_cycle(cycles[k], nc)),
        forall|k: int| 1 <= k < lines@.len() ==> #[trigger] shows_cycle(graph@, lines@[k]@),
{
    let cycles = find_cycles(graph);
    let lines = render_cycle_list(&cycles, ":");
    proof {
        let cv = cycles@.map_values(|c: Vec<String>| strs(c@));
        assert forall|k: int| 0 <= k < cv.len() implies crate::graph::is_dependency_cycle(graph@, #[trigger] cv[k]) by {
            assert(cv[k] == name_seq(cycles@[k]@));
        }
        assert forall|nc: Seq<Seq<char>>|
            #[trigger] crate::graph::is_simple_dependency_cycle(graph@, nc) implies exists|k: int|
                0 <= k < cv.len() && #[trigger] crate::cycles::same_cycle(cv[k], nc) by {
            let k = choose|k: int| 0 <= k < cycles@.len() && #[trigger] crate::cycles::same_cycle(name_seq(cycles@[k]@), nc);
            assert(cv[k] == name_seq(cycles@[k]@));
        }
        assert forall|x: int, y: int| 0 <= x < y < cv.len() implies !crate::cycles::same_cycle(
            #[trigger] cv[x],
            #[trigger] cv[y],
        ) by {
            assert(cv[x] == name_seq(cycles@[x]@));
            assert(cv[y] == name_seq(cycles@[y]@));
        }
        lemma_cycle_lines_follow_imports(graph@, cv, ":"@);
        assert forall|k: int| 1 <= k < lines@.len() implies #[trigger] shows_cycle(graph@, lines@[k]@) by {
            assert(lines@[k]@ == lines_view(lines@)[k]);
        }
    }
    lines
}


/// The summary's module list, line by line (see `summary_module_lines`).
pub fn render_module_list(graph: &Vec<(String, Vec<String>)>) -> (lines: Vec<String>)
    ensures
        lines_view(lines@) == summary_module_lines(by_name(gview(graph@))),
{
    let sorted = sorted_entries(graph);
    let ghost sv = gview(sorted@);
    let mut out: Vec<String> = Vec::new();
    for i in 0..sorted.len()
        invariant
            sv == gview(sorted@),
            lines_view(out@) == summary_module_lines(sv.take(i as int)),
    {
        let ghost t = sv.take(i + 1);
        assert(t.drop_last() == sv.take(i as int));
        assert(t.last() == sv[i as int]);
        let m = &sorted[i].0;
        let deps = &sorted[i].1;
        if deps.len() == 0 {
            let mut line = String::new();
            push_str(&mut line, m.as_str());
            push_str(&mut line, " (no internal imports)");
            out.push(line);
        } else {
            let ghost base = lines_view(out@);
            push_line(&mut out, m.as_str());
            let ghost f = |d: Seq<char>| "  -> "@ + d;
            for k in 0..deps.len()
                invariant
                    f == (|d: Seq<char>| "  -> "@ + d),
                    lines_view(out@) == base.push(m@) + strs(deps@).take(k as int).map_values(f),
            {
                let mut line = String::new();
                push_str(&mut line, "  -> ");
                push_str(&mut line, deps[k].as_str());
                let ghost q0 = out@;
                out.push(line);
                proof {
                    assert(lines_view(out@) == lines_view(q0).push(f(deps@[k as int]@)));
                    assert(strs(deps@).take(k + 1) == strs(deps@).take(k as int).push(deps@[k as int]@));
                }
            }
            assert(strs(deps@).take(deps.len() as int) == strs(deps@));
            assert(base.push(m@) + strs(deps@).map_values(f) =~= base + (seq![m@] + strs(deps@).map_values(f)));
        }
    }
    assert(sv.take(sorted.len() as int) == sv);
    out
}

/// `n` right-aligned in three columns.
pub open spec fn padded3(n: nat) -> Seq<char> {
    let d = decimal(n);
    if d.len() >= 3 {
        d
    } else if d.len() == 2 {
        seq![' '] + d
    } else {
        seq![' ', ' '] + d
    }
}

/// A coupling line: the count right-aligned in three columns, then the module.
pub open spec fn coupling_line(e: (Seq<char>, int)) -> Seq<char> {
    "  "@ + padded3(e.1 as nat) + " "@ + e.0
}

/// At most the first five entries.
pub open spec fn top5<T>(s: Seq<T>) -> Seq<T> {
    if s.len() > 5 {
        s.take(5)
    } else {
        s
    }
}

/// The statistics report; `avg` is the average number of imports per
/// module as displayed (shown only for a non-empty graph).
pub open spec fn stats_lines(st: DepsStats, avg: Seq<char>) -> Seq<Seq<char>> {
    let top_imports = top5(counts_view(st.most_imports@).filter(|e: (Seq<char>, int)| e.1 > 0));
    let top_depended = top5(counts_view(st.most_depended_on@));
    seq![
        "Dependency statistics:"@,
        "  "@ + decimal(st.total_modules as nat) + " modules, "@ + decimal(st.total_edges as nat) + " internal edges"@,
    ] + (if st.total_modules > 0 {
        seq!["  "@ + avg + " avg imports per module"@]
    } else {
        Seq::empty()
    }) + seq![
        "  "@ + decimal(st.leaf_count as nat) + " leaf modules (no internal imports)"@,
        "  "@ + decimal(st.root_count as nat) + " root modules (not imported by others)"@,
    ] + coupling_block("Most imports (highest afferent coupling):"@, top_imports) + coupling_block(
        "Most depended on (highest efferent coupling):"@,
        top_depended,
    ) + seq![
        Seq::empty(),
        if st.cycle_count == 0 {
            "No circular dependencies."@
        } else {
            decimal(st.cycle_count as nat) + " circular dependency chain(s)."@
        },
    ]
}

/// Appends one coupling line.
fn push_coupling_line(out: &mut Vec<String>, name: &String, count: usize)
    ensures
        lines_view(final(out)@) == lines_view(old(out)@).push(coupling_line((name@, count as int))),
{
    proof {
        reveal_strlit("  ");
        reveal_strlit(" ");
        assert("  "@ == seq![' ', ' ']);
        assert(" "@ == seq![' ']);
        lemma_decimal_len(count as nat);
    }
    let mut line = String::new();
    push_str(&mut line, "  ");
    let ghost l0 = line@;
    if count < 10 {
        push_str(&mut line, "  ");
    } else if count < 100 {
        push_str(&mut line, " ");
    }
    let ghost pad = if count < 10 {
        seq![' ', ' ']
    } else if count < 100 {
        seq![' ']
    } else {
        Seq::<char>::empty()
    };
    assert(line@ == l0 + pad);
    push_decimal(&mut line, count as u64);
    assert(pad + decimal(count as nat) == padded3(count as nat));
    push_str(&mut line, " ");
    push_str(&mut line, name.as_str());
    assert(line@ == "  "@ + padded3(count as nat) + " "@ + name@);
    out.push(line);
}

/// The number of digits of `n`: one below 10, two below 100, else three or more.
pub proof fn lemma_decimal_len(n: nat)
    ensures
        n < 10 ==> decimal(n).len() == 1,
        10 <= n < 100 ==> decimal(n).len() == 2,
        n >= 100 ==> decimal(n).len() >= 3,
    decreases n,
{
    if n >= 10 {
        lemma_decimal_len(n / 10);
    }
}

/// Appends a line.
fn push_owned(out: &mut Vec<String>, line: String)
    ensures
        lines_view(final(out)@) == lines_view(old(out)@).push(line@),
{
    let ghost o0 = out@;
    out.push(line);
    assert(lines_view(out@) =~= lines_view(o0).push(line@));
}

/// The first lines of the statistics report: the counts.
fn stats_header(st: &DepsStats, avg: &str) -> (lines: Vec<String>)
    ensures
        lines_view(lines@) == seq![
            "Dependency statistics:"@,
            "  "@ + decimal(st.total_modules as nat) + " modules, "@ + decimal(st.total_edges as nat) + " internal edges"@,
        ] + (if st.total_modules > 0 {
            seq!["  "@ + avg@ + " avg imports per module"@]
        } else {
            Seq::empty()
        }) + seq![
            "  "@ + decimal(st.leaf_count as nat) + " leaf modules (no internal imports)"@,
            "  "@ + decimal(st.root_count as nat) + " root modules (not imported by others)"@,
        ],
{
    let mut out: Vec<String> = Vec::new();
    push_line(&mut out, "Dependency statistics:");
    let mut l = String::new();
    push_str(&mut l, "  ");
    push_decimal(&mut l, st.total_modules as u64);
    push_str(&mut l, " modules, ");
    push_decimal(&mut l, st.total_edges as u64);
    push_str(&mut l, " internal edges");
    push_owned(&mut out, l);
    if st.total_modules > 0 {
        let mut a = String::new();
        push_str(&mut a, "  ");
        push_str(&mut a, avg);
        push_str(&mut a, " avg imports per module");
        push_owned(&mut out, a);
    }
    let mut lf = String::new();
    push_str(&mut lf, "  ");
    push_decimal(&mut lf, st.leaf_count as u64);
    push_str(&mut lf, " leaf modules (no internal imports)");
    push_owned(&mut out, lf);
    let mut rt = String::new();
    push_str(&mut rt, "  ");
    push_decimal(&mut rt, st.root_count as u64);
    push_str(&mut rt, " root modules (not imported by others)");
    push_owned(&mut out, rt);
    out
}

/// A block of coupling lines under a heading (nothing for no entries).
pub open spec fn coupling_block(heading: Seq<char>, entries: Seq<(Seq<char>, int)>) -> Seq<Seq<char>> {
    if entries.len() > 0 {
        seq![Seq::empty(), heading] + entries.map_values(|e: (Seq<char>, int)| coupling_line(e))
    } else {
        Seq::empty()
    }
}

/// The block of modules with most imports: the first five with at least one.
fn top_imports_block(st: &DepsStats) -> (lines: Vec<String>)
    ensures
        lines_view(lines@) == coupling_block(
            "Most imports (highest afferent coupling):"@,
            top5(counts_view(st.most_imports@).filter(|e: (Seq<char>, int)| e.1 > 0)),
        ),
{
    let ghost cv = counts_view(st.most_imports@);
    let ghost pos = |e: (Seq<char>, int)| e.1 > 0;
    let mut top: Vec<usize> = Vec::new();
    let mut i: usize = 0;
    while i < st.most_imports.len() && top.len() < 5
        invariant
            i <= st.most_imports@.len(),
            cv == counts_view(st.most_imports@),
            pos == (|e: (Seq<char>, int)| e.1 > 0),
            top@.len() <= 5,
            top@.len() == cv.take(i as int).filter(pos).len(),
            forall|k: int| 0 <= k < top@.len() ==> #[trigger] top@[k] < i && cv[top@[k] as int] == cv.take(i as int).filter(pos)[k],
        decreases st.most_imports.len() - i,
    {
        proof {
            reveal(Seq::filter);
            assert(cv.take(i + 1).drop_last() == cv.take(i as int));
            assert(cv.take(i + 1).last() == cv[i as int]);
        }
        if st.most_imports[i].1 > 0 {
            top.push(i);
        }
        i = i + 1;
    }
    let ghost flt = cv.filter(pos);
    proof {
        lemma_filter_prefix(cv, pos, i as int);
        if top@.len() < 5 {
            assert(cv.take(i as int) == cv);
        }
    }
    assert(top@.len() == top5(flt).len());
    assert(forall|q: int| 0 <= q < top@.len() ==> cv[#[trigger] top@[q] as int] == top5(flt)[q]);
    let mut out: Vec<String> = Vec::new();
    if top.len() > 0 {
        push_owned(&mut out, String::new());
        push_line(&mut out, "Most imports (highest afferent coupling):");
    }
    let ghost p3 = lines_view(out@);
    for k in 0..top.len()
        invariant
            top@.len() <= 5,
            top@.len() == top5(flt).len(),
            forall|q: int| 0 <= q < top@.len() ==> #[trigger] top@[q] < st.most_imports@.len() && cv[top@[q] as int] == top5(flt)[q],
            cv == counts_view(st.most_imports@),
            lines_view(out@) == p3 + top5(flt).take(k as int).map_values(|e: (Seq<char>, int)| coupling_line(e)),
    {
        let j = top[k];
        push_coupling_line(&mut out, &st.most_imports[j].0, st.most_imports[j].1);
        assert(top5(flt).take(k + 1) == top5(flt).take(k as int).push(top5(flt)[k as int]));
    }
    assert(top5(flt).take(top@.len() as int) == top5(flt));
    assert(flt == counts_view(st.most_imports@).filter(|e: (Seq<char>, int)| e.1 > 0));
    out
}

/// The block of modules most depended on: the first five.
fn top_depended_block(st: &DepsStats) -> (lines: Vec<String>)
    ensures
        lines_view(lines@) == coupling_block(
            "Most depended on (highest efferent coupling):"@,
            top5(counts_view(st.most_depended_on@)),
        ),
{
    let dn = st.most_depended_on.len();
    let ghost dv = counts_view(st.most_depended_on@);
    let mut out: Vec<String> = Vec::new();
    if dn > 0 {
        push_owned(&mut out, String::new());
        push_line(&mut out, "Most depended on (highest efferent coupling):");
    }
    let lim = if dn > 5 {
        5
    } else {
        dn
    };
    let ghost p5 = lines_view(out@);
    for k in 0..lim
        invariant
            lim == top5(dv).len(),
            dv == counts_view(st.most_depended_on@),
            lim <= st.most_depended_on@.len(),
            lines_view(out@) == p5 + top5(dv).take(k as int).map_values(|e: (Seq<char>, int)| coupling_line(e)),
    {
        push_coupling_line(&mut out, &st.most_depended_on[k].0, st.most_depended_on[k].1);
        assert(top5(dv).take(k + 1) == top5(dv).take(k as int).push(top5(dv)[k as int]));
        assert(top5(dv)[k as int] == dv[k as int]);
    }
    assert(top5(dv).take(lim as int) == top5(dv));
    out
}

/// Appends all lines of `more`.
fn append_lines(out: &mut Vec<String>, more: Vec<String>)
    ensures
        lines_view(final(out)@) == lines_view(old(out)@) + lines_view(more@),
{
    let mut more = more;
    let ghost o0 = out@;
    let ghost m0 = more@;
    out.append(&mut more);
    assert(lines_view(out@) =~= lines_view(o0) + lines_view(m0));
}

/// The statistics report, line by line.
pub fn render_stats(st: &DepsStats, avg: &str) -> (lines: Vec<String>)
    ensures
        lines_view(lines@) == stats_lines(*st, avg@),
{
    let mut out = stats_header(st, avg);
    append_lines(&mut out, top_imports_block(st));
    append_lines(&mut out, top_depended_block(st));
    push_owned(&mut out, String::new());
    if st.cycle_count == 0 {
        push_line(&mut out, "No circular dependencies.");
    } else {
        let mut c = String::new();
        push_decimal(&mut c, st.cycle_count as u64);
        push_str(&mut c, " circular dependency chain(s).");
        push_owned(&mut out, c);
    }
    out
}

/// Filtering a prefix that already holds `n` kept elements gives the first
/// `n` of the filtered whole.
proof fn lemma_filter_prefix(s: Seq<(Seq<char>, int)>, pred: spec_fn((Seq<char>, int)) -> bool, i: int)
    requires
        0 <= i <= s.len(),
    ensures
        s.take(i).filter(pred).len() <= s.filter(pred).len(),
        s.take(i).filter(pred) == s.filter(pred).take(s.take(i).filter(pred).len() as int),
    decreases s.len() - i,
{
    reveal(Seq::filter);
    if i < s.len() {
        lemma_filter_prefix(s, pred, i + 1);
        assert(s.take(i + 1).drop_last() == s.take(i));
        assert(s.take(i + 1).last() == s[i]);
        let a = s.take(i).filter(pred);
        let b = s.take(i + 1).filter(pred);
        let f = s.filter(pred);
        assert(b == if pred(s[i]) { a.push(s[i]) } else { a });
        assert(a == b.take(a.len() as int));
        assert(f.take(b.len() as int).take(a.len() as int) =~= f.take(a.len() as int));
        assert(a == f.take(a.len() as int));
    } else {
        assert(s.take(i) == s);
        assert(s.filter(pred).take(s.filter(pred).len() as int) == s.filter(pred));
    }
}
} // verus!
