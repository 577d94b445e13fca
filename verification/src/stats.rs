//! Coupling statistics of an internal dependency graph.

use vstd::prelude::*;

use crate::graph::{
    distinct_names,
    entry_deps,
    find_cycles,
    has_dependency_cycle,
    is_dependency_cycle,
    name_seq,
};

verus! {

broadcast use vstd::seq_lib::group_to_multiset_ensures;

/// Dependency graph statistics.
///
/// The average number of imports per module is `total_edges / total_modules`
/// (zero for an empty graph); callers that display it compute the quotient.
pub struct DepsStats {
    pub total_modules: usize,
    pub total_edges: usize,
    pub leaf_count: usize,
    pub root_count: usize,
    /// Modules with most imports (afferent coupling), sorted descending.
    pub most_imports: Vec<(String, usize)>,
    /// Modules most depended on (efferent coupling), sorted descending.
    pub most_depended_on: Vec<(String, usize)>,
    pub cycle_count: usize,
    pub cycles: Vec<Vec<String>>,
}

/// Every import of every entry, entry by entry.
pub open spec fn all_deps(g: Seq<(String, Vec<String>)>) -> Seq<Seq<char>>
    decreases g.len(),
{
    if g.len() == 0 {
        Seq::empty()
    } else {
        all_deps(g.drop_last()) + entry_deps(g.last())
    }
}

/// How often `n` occurs in `s`.
pub open spec fn occurrences(s: Seq<Seq<char>>, n: Seq<char>) -> nat
    decreases s.len(),
{
    if s.len() == 0 {
        0
    } else {
        occurrences(s.drop_last(), n) + if s.last() == n { 1nat } else { 0nat }
    }
}

/// A (name, count) list taken by the characters of each name.
pub open spec fn counts_view(v: Seq<(String, usize)>) -> Seq<(Seq<char>, int)> {
    v.map_values(|e: (String, usize)| (e.0@, e.1 as int))
}

/// The counts are non-increasing along the list.
pub open spec fn sorted_desc(v: Seq<(Seq<char>, int)>) -> bool {
    forall|a: int, b: int| 0 <= a < b < v.len() ==> #[trigger] v[a].1 >= #[trigger] v[b].1
}

/// Each module with its number of imports, in graph order.
pub open spec fn import_counts(g: Seq<(String, Vec<String>)>) -> Seq<(Seq<char>, int)> {
    g.map_values(|e: (String, Vec<String>)| (e.0@, e.1@.len() as int))
}

/// Entries that import no project module.
pub open spec fn leaves(g: Seq<(String, Vec<String>)>) -> Seq<(String, Vec<String>)> {
    g.filter(|e: (String, Vec<String>)| e.1@.len() == 0)
}

/// Entries that no entry imports.
pub open spec fn roots(g: Seq<(String, Vec<String>)>) -> Seq<(String, Vec<String>)> {
    g.filter(|e: (String, Vec<String>)| !all_deps(g).contains(e.0@))
}

/// The total number of import edges.
pub open spec fn edge_total(g: Seq<(String, Vec<String>)>) -> nat {
    all_deps(g).len()
}

proof fn lemma_all_deps_step(g: Seq<(String, Vec<String>)>, i: int)
    requires
        0 <= i < g.len(),
    ensures
        all_deps(g.take(i + 1)) == all_deps(g.take(i)) + entry_deps(g[i]),
{
    assert(g.take(i + 1).drop_last() == g.take(i));
}

proof fn lemma_all_deps_prefix(g: Seq<(String, Vec<String>)>, i: int)
    requires
        0 <= i <= g.len(),
    ensures
        all_deps(g.take(i)).len() <= all_deps(g).len(),
    decreases g.len() - i,
{
    if i < g.len() {
        lemma_all_deps_step(g, i);
        lemma_all_deps_prefix(g, i + 1);
    } else {
        assert(g.take(i) == g);
    }
}

/// All imports of the graph flattened into one list.
fn flatten_deps(graph: &Vec<(String, Vec<String>)>) -> (all: Vec<String>)
    ensures
        name_seq(all@) == all_deps(graph@),
{
    let mut all: Vec<String> = Vec::new();
    for i in 0..graph.len()
        invariant
            name_seq(all@) == all_deps(graph@.take(i as int)),
    {
        proof {
            lemma_all_deps_step(graph@, i as int);
        }
        let deps = &graph[i].1;
        let ghost a0 = name_seq(all@);
        for k in 0..deps.len()
            invariant
                deps == graph@[i as int].1,
                name_seq(all@) == a0 + name_seq(deps@).take(k as int),
        {
            let ghost a1 = all@;
            all.push(deps[k].clone());
            proof {
                assert(name_seq(all@) == name_seq(a1).push(deps@[k as int]@));
                assert(name_seq(deps@).take(k + 1) == name_seq(deps@).take(k as int).push(deps@[k as int]@));
            }
        }
        assert(name_seq(deps@).take(deps.len() as int) == name_seq(deps@));
    }
    assert(graph@.take(graph.len() as int) == graph@);
    all
}

/// `cv` lists each name of `s` once, with the number of times it occurs in `s`.
pub open spec fn is_tally(cv: Seq<(Seq<char>, int)>, s: Seq<Seq<char>>) -> bool {
    &&& forall|a: int, b: int| 0 <= a < b < cv.len() ==> #[trigger] cv[a].0 != #[trigger] cv[b].0
    &&& forall|n: Seq<char>| #[trigger] s.contains(n) <==> exists|p: int| 0 <= p < cv.len() && cv[p].0 == n
    &&& forall|p: int| 0 <= p < cv.len() ==> #[trigger] cv[p].1 == occurrences(s, cv[p].0)
}

/// Count the occurrences of each imported module, in order of first occurrence.
fn tally(all: &Vec<String>) -> (counts: Vec<(String, usize)>)
    ensures
        is_tally(counts_view(counts@), name_seq(all@)),
{
    let mut counts: Vec<(String, usize)> = Vec::new();
    for k in 0..all.len()
        invariant
            is_tally(counts_view(counts@), name_seq(all@).take(k as int)),
            forall|p: int| 0 <= p < counts@.len() ==> #[trigger] counts@[p].1 <= k,
    {
        let ghost c0 = counts_view(counts@);
        let ghost pre = name_seq(all@).take(k as int);
        let ghost x = all@[k as int]@;
        assert(name_seq(all@).take(k + 1) == pre.push(x));
        assert(pre.push(x).drop_last() == pre);
        let mut found = false;
        let mut p: usize = 0;
        while p < counts.len()
            invariant_except_break
                forall|q: int| 0 <= q < p ==> #[trigger] c0[q].0 != x,
                !found,
            invariant
                counts_view(counts@) == c0,
                p <= counts@.len(),
                k < all@.len(),
                x == all@[k as int]@,
            ensures
                found ==> p < counts@.len() && c0[p as int].0 == x,
                !found ==> forall|q: int| 0 <= q < counts@.len() ==> #[trigger] c0[q].0 != x,
            decreases counts.len() - p,
        {
            if counts[p].0 == all[k] {
                found = true;
                break;
            }
            p = p + 1;
        }
        if found {
            let c = counts[p].1;
            let name = counts[p].0.clone();
            let ghost raw0 = counts@;
            counts.set(p, (name, c + 1));
            proof {
                let cv = counts_view(counts@);
                assert(counts@ == raw0.update(p as int, (name, (c + 1) as usize)));
                assert(cv =~= c0.update(p as int, (x, c0[p as int].1 + 1)));
                assert forall|q: int| 0 <= q < cv.len() implies #[trigger] cv[q].1 == occurrences(pre.push(x), cv[q].0) by {
                    if q != p {
                        assert(c0[q].0 != x);
                    }
                }
                assert forall|n: Seq<char>| #[trigger] pre.push(x).contains(n) <==> exists|q: int| 0 <= q < cv.len() && cv[q].0 == n by {
                    crate::graph::lemma_push_contains(pre, x, n);
                    if pre.contains(n) {
                        let q = choose|q: int| 0 <= q < c0.len() && c0[q].0 == n;
                        assert(cv[q].0 == n);
                    }
                    if exists|q: int| 0 <= q < cv.len() && cv[q].0 == n {
                        let q = choose|q: int| 0 <= q < cv.len() && cv[q].0 == n;
                        if q != p {
                            assert(c0[q].0 == n);
                        }
                    }
                }
            }
        } else {
            counts.push((all[k].clone(), 1));
            proof {
                let cv = counts_view(counts@);
                assert(cv == c0.push((x, 1int)));
                assert(!pre.contains(x));
                lemma_occurrences_absent(pre, x);
                assert forall|q: int| 0 <= q < cv.len() implies #[trigger] cv[q].1 == occurrences(pre.push(x), cv[q].0) by {
                    if q < c0.len() {
                        assert(c0[q].0 != x) by {
                            assert(pre.contains(c0[q].0));
                        }
                    }
                }
                assert forall|n: Seq<char>| #[trigger] pre.push(x).contains(n) <==> exists|q: int| 0 <= q < cv.len() && cv[q].0 == n by {
                    crate::graph::lemma_push_contains(pre, x, n);
                    if pre.contains(n) {
                        let q = choose|q: int| 0 <= q < c0.len() && c0[q].0 == n;
                        assert(cv[q].0 == n);
                    }
                    if n == x {
                        assert(cv[c0.len() as int].0 == n);
                    }
                    if exists|q: int| 0 <= q < cv.len() && cv[q].0 == n {
                        let q = choose|q: int| 0 <= q < cv.len() && cv[q].0 == n;
                        if q < c0.len() {
                            assert(c0[q].0 == n);
                        }
                    }
                }
                assert forall|a: int, b: int| 0 <= a < b < cv.len() implies #[trigger] cv[a].0 != #[trigger] cv[b].0 by {
                    if b == c0.len() {
                        assert(pre.contains(c0[a].0));
                    }
                }
            }
        }
    }
    assert(name_seq(all@).take(all.len() as int) == name_seq(all@));
    counts
}

/// Reordering a tally (same multiset of pairs) gives a tally of the same list.
proof fn lemma_tally_permuted(c1: Seq<(Seq<char>, int)>, c2: Seq<(Seq<char>, int)>, s: Seq<Seq<char>>)
    requires
        is_tally(c1, s),
        c1.to_multiset() == c2.to_multiset(),
    ensures
        is_tally(c2, s),
{
    assert forall|p: int| 0 <= p < c2.len() implies #[trigger] c2[p].1 == occurrences(s, c2[p].0) by {
        assert(c2.contains(c2[p]));
        assert(c2.to_multiset().count(c2[p]) > 0);
        assert(c1.contains(c2[p]));
    }
    assert forall|n: Seq<char>| #[trigger] s.contains(n) <==> exists|p: int| 0 <= p < c2.len() && c2[p].0 == n by {
        if s.contains(n) {
            let q = choose|q: int| 0 <= q < c1.len() && c1[q].0 == n;
            assert(c1.contains(c1[q]));
            assert(c1.to_multiset().count(c1[q]) > 0);
            assert(c2.contains(c1[q]));
            let p = choose|p: int| 0 <= p < c2.len() && c2[p] == c1[q];
            assert(c2[p].0 == n);
        }
        if exists|p: int| 0 <= p < c2.len() && c2[p].0 == n {
            let p = choose|p: int| 0 <= p < c2.len() && c2[p].0 == n;
            assert(c2.contains(c2[p]));
            assert(c2.to_multiset().count(c2[p]) > 0);
            assert(c1.contains(c2[p]));
            let q = choose|q: int| 0 <= q < c1.len() && c1[q] == c2[p];
            assert(c1[q].0 == n);
        }
    }
    assert(c1.no_duplicates()) by {
        assert forall|a: int, b: int| 0 <= a < c1.len() && 0 <= b < c1.len() && a != b implies c1[a] != c1[b] by {
            if a < b {
                assert(c1[a].0 != c1[b].0);
            } else {
                assert(c1[b].0 != c1[a].0);
            }
        }
    }
    c1.lemma_multiset_has_no_duplicates();
    c2.lemma_multiset_has_no_duplicates_conv();
    assert forall|a: int, b: int| 0 <= a < b < c2.len() implies #[trigger] c2[a].0 != #[trigger] c2[b].0 by {
        if c2[a].0 == c2[b].0 {
            assert(c2[a].1 == occurrences(s, c2[a].0));
            assert(c2[b].1 == occurrences(s, c2[b].0));
            assert(c2[a] == c2[b]);
        }
    }
}

proof fn lemma_occurrences_absent(s: Seq<Seq<char>>, n: Seq<char>)
    requires
        !s.contains(n),
    ensures
        occurrences(s, n) == 0,
    decreases s.len(),
{
    if s.len() > 0 {
        assert(s.drop_last().contains(n) ==> s.contains(n)) by {
            if s.drop_last().contains(n) {
                let j = choose|j: int| 0 <= j < s.drop_last().len() && s.drop_last()[j] == n;
                assert(s[j] == n);
            }
        }
        assert(s[s.len() - 1] == s.last());
        lemma_occurrences_absent(s.drop_last(), n);
    }
}

/// Sort (name, count) pairs by count, largest first; pairs with equal counts
/// keep their order.
fn sort_by_count_desc(v: Vec<(String, usize)>) -> (out: Vec<(String, usize)>)
    ensures
        sorted_desc(counts_view(out@)),
        counts_view(out@).to_multiset() == counts_view(v@).to_multiset(),
{
    let mut out: Vec<(String, usize)> = Vec::new();
    for i in 0..v.len()
        invariant
            sorted_desc(counts_view(out@)),
            counts_view(out@).to_multiset() == counts_view(v@.take(i as int)).to_multiset(),
    {
        let c = v[i].1;
        let mut p: usize = 0;
        while p < out.len() && out[p].1 >= c
            invariant
                p <= out@.len(),
                forall|q: int| 0 <= q < p ==> #[trigger] out@[q].1 >= c,
            decreases out.len() - p,
        {
            p = p + 1;
        }
        let ghost o0 = out@;
        out.insert(p, (v[i].0.clone(), c));
        proof {
            let e = (v@[i as int].0@, c as int);
            assert(counts_view(out@) == counts_view(o0).insert(p as int, e));
            assert(counts_view(v@.take(i + 1)) == counts_view(v@.take(i as int)).push(e));
            assert(counts_view(v@.take(i as int)).push(e) == counts_view(v@.take(i as int)).insert(i as int, e));
            assert forall|a: int, b: int| 0 <= a < b < counts_view(out@).len() implies #[trigger] counts_view(out@)[a].1 >= #[trigger] counts_view(out@)[b].1 by {
                if b < p {
                } else if b == p {
                    assert(o0[a].1 >= c);
                } else if a < p {
                    assert(counts_view(o0)[a].1 >= counts_view(o0)[b - 1].1);
                } else if a == p {
                    if p < o0.len() {
                        assert(!(o0[p as int].1 >= c));
                        assert(counts_view(o0)[p as int].1 >= counts_view(o0)[b - 1].1 || b - 1 == p);
                    }
                } else {
                    assert(counts_view(o0)[a - 1].1 >= counts_view(o0)[b - 1].1);
                }
            }
        }
    }
    assert(v@.take(v.len() as int) == v@);
    out
}

/// Compute dependency statistics from an internal graph.
pub fn compute_stats(graph: &Vec<(String, Vec<String>)>) -> (stats: DepsStats)
    requires
        distinct_names(graph@),
    ensures
        stats.total_modules == graph@.len(),
        stats.total_edges == edge_total(graph@),
        stats.leaf_count == leaves(graph@).len(),
        stats.root_count == roots(graph@).len(),
        sorted_desc(counts_view(stats.most_imports@)),
        counts_view(stats.most_imports@).to_multiset() == import_counts(graph@).to_multiset(),
        sorted_desc(counts_view(stats.most_depended_on@)),
        is_tally(counts_view(stats.most_depended_on@), all_deps(graph@)),
        stats.cycle_count == stats.cycles@.len(),
        forall|k: int|
            0 <= k < stats.cycles@.len() ==> is_dependency_cycle(graph@, #[trigger] name_seq(stats.cycles@[k]@)),
        stats.cycles@.len() > 0 <==> has_dependency_cycle(graph@),
        forall|k: int|
            0 <= k < stats.cycles@.len() ==> #[trigger] name_seq(stats.cycles@[k]@).take(
                stats.cycles@[k]@.len() - 1,
            ).no_duplicates(),
        forall|x: int, y: int|
            0 <= x < y < stats.cycles@.len() ==> !crate::cycles::same_cycle(
                name_seq(#[trigger] stats.cycles@[x]@),
                name_seq(#[trigger] stats.cycles@[y]@),
            ),
        forall|nc: Seq<Seq<char>>|
            #[trigger] crate::graph::is_simple_dependency_cycle(graph@, nc) ==> exists|k: int|
                0 <= k < stats.cycles@.len() && #[trigger] crate::cycles::same_cycle(name_seq(stats.cycles@[k]@), nc),
        crate::graph::lists_each_cycle(graph@, crate::graph::cycles_view(stats.cycles@)),
{
    let all = flatten_deps(graph);
    let total_edges = all.len();

    let mut import_counts_v: Vec<(String, usize)> = Vec::new();
    let mut leaf_count: usize = 0;
    let mut root_count: usize = 0;
    for i in 0..graph.len()
        invariant
            name_seq(all@) == all_deps(graph@),
            counts_view(import_counts_v@) == import_counts(graph@.take(i as int)),
            leaf_count == leaves(graph@.take(i as int)).len(),
            root_count == graph@.take(i as int).filter(|e: (String, Vec<String>)| !all_deps(graph@).contains(e.0@)).len(),
            leaf_count <= i,
            root_count <= i,
    {
        let ghost e = graph@[i as int];
        proof {
            reveal(Seq::filter);
            assert(graph@.take(i + 1).drop_last() == graph@.take(i as int));
            assert(graph@.take(i + 1).last() == e);
        }
        let ghost v0 = import_counts_v@;
        import_counts_v.push((graph[i].0.clone(), graph[i].1.len()));
        assert(counts_view(import_counts_v@) == counts_view(v0).push((e.0@, e.1@.len() as int)));
        assert(import_counts(graph@.take(i + 1)) == import_counts(graph@.take(i as int)).push((e.0@, e.1@.len() as int)));
        if graph[i].1.len() == 0 {
            leaf_count = leaf_count + 1;
        }
        if !crate::graph::contains_name(&all, &graph[i].0) {
            root_count = root_count + 1;
        }
    }
    assert(graph@.take(graph.len() as int) == graph@);

    let most_imports = sort_by_count_desc(import_counts_v);
    let depended = tally(&all);
    let ghost dv = counts_view(depended@);
    let most_depended_on = sort_by_count_desc(depended);
    proof {
        lemma_tally_permuted(dv, counts_view(most_depended_on@), all_deps(graph@));
    }
    let cycles = find_cycles(graph);
    DepsStats {
        total_modules: graph.len(),
        total_edges,
        leaf_count,
        root_count,
        most_imports,
        most_depended_on,
        cycle_count: cycles.len(),
        cycles,
    }
}

} // verus!
