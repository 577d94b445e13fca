//! Module dependency graphs: building the internal graph from parsed
//! modules, finding circular dependencies and computing coupling statistics.

use vstd::prelude::*;

use crate::cycles::{
    adj_ok,
    adj_view,
    dedup_cycles,
    find_cycle_walks,
    graph_has_cycle,
    has_edge,
    is_closed_walk,
    is_simple_cycle,
    is_walk,
    first_min,
    is_cycle_of,
    is_rooted_cycle,
    lemma_first_min,
    lemma_normalized_rooted,
    lemma_rooted_normal,
    lemma_rotated_index,
    lemma_rotation_same_normal,
    normal_forms,
    normalized,
    rotated,
    same_cycle,
};
use crate::text::{chars_lt, chars_of};

verus! {

/// The characters of each string.
pub open spec fn name_seq(v: Seq<String>) -> Seq<Seq<char>> {
    v.map_values(|s: String| s@)
}

/// The imports listed for one graph entry.
pub open spec fn entry_deps(e: (String, Vec<String>)) -> Seq<Seq<char>> {
    name_seq(e.1@)
}

/// The module names of the graph's entries, in order.
pub open spec fn graph_names(g: Seq<(String, Vec<String>)>) -> Seq<Seq<char>> {
    g.map_values(|e: (String, Vec<String>)| e.0@)
}

/// No module name occurs twice among the entries (the graph is a map).
pub open spec fn distinct_names(g: Seq<(String, Vec<String>)>) -> bool {
    graph_names(g).no_duplicates()
}

/// Module `a` has an entry that lists `b` among its imports.
pub open spec fn depends_on(g: Seq<(String, Vec<String>)>, a: Seq<char>, b: Seq<char>) -> bool {
    exists|i: int| 0 <= i < g.len() && g[i].0@ == a && #[trigger] entry_deps(g[i]).contains(b)
}

/// `c` is a chain `m0 -> m1 -> ... -> m0` of imports that returns to its start.
pub open spec fn is_dependency_cycle(g: Seq<(String, Vec<String>)>, c: Seq<Seq<char>>) -> bool {
    &&& c.len() >= 2
    &&& c[0] == c[c.len() - 1]
    &&& forall|i: int| 0 <= i < c.len() - 1 ==> #[trigger] depends_on(g, c[i], c[i + 1])
}

/// A circular dependency whose modules are distinct before it closes.
pub open spec fn is_simple_dependency_cycle(g: Seq<(String, Vec<String>)>, c: Seq<Seq<char>>) -> bool {
    is_dependency_cycle(g, c) && c.take(c.len() - 1).no_duplicates()
}

/// The module names of each listed cycle.
pub open spec fn cycles_view(cs: Seq<Vec<String>>) -> Seq<Seq<Seq<char>>> {
    cs.map_values(|c: Vec<String>| name_seq(c@))
}

/// `cs` lists each circular dependency of `g` whose modules are distinct,
/// once up to the module it is entered at, and nothing else.
pub open spec fn lists_each_cycle(g: Seq<(String, Vec<String>)>, cs: Seq<Seq<Seq<char>>>) -> bool {
    &&& forall|k: int| 0 <= k < cs.len() ==> is_dependency_cycle(g, #[trigger] cs[k])
    &&& forall|k: int| 0 <= k < cs.len() ==> (#[trigger] cs[k]).take(cs[k].len() - 1).no_duplicates()
    &&& forall|x: int, y: int| 0 <= x < y < cs.len() ==> !same_cycle(#[trigger] cs[x], #[trigger] cs[y])
    &&& forall|nc: Seq<Seq<char>>|
        #[trigger] is_simple_dependency_cycle(g, nc) ==> exists|k: int| 0 <= k < cs.len() && #[trigger] same_cycle(cs[k], nc)
}

/// The graph has a circular dependency.
pub open spec fn has_dependency_cycle(g: Seq<(String, Vec<String>)>) -> bool {
    exists|c: Seq<Seq<char>>| is_dependency_cycle(g, c)
}

/// Index of the entry named `name`, if any.
fn key_index(graph: &Vec<(String, Vec<String>)>, name: &String) -> (r: Option<usize>)
    ensures
        r matches Some(k) ==> k < graph@.len() && graph@[k as int].0@ == name@,
        r is None ==> forall|k: int| 0 <= k < graph@.len() ==> graph@[k].0@ != name@,
{
    let mut k: usize = 0;
    while k < graph.len()
        invariant
            k <= graph@.len(),
            forall|q: int| 0 <= q < k ==> graph@[q].0@ != name@,
        decreases graph.len() - k,
    {
        if graph[k].0 == *name {
            return Some(k);
        }
        k = k + 1;
    }
    None
}

/// Entry indices ordered by module name (ascending), the order in which the
/// search visits the modules.
fn sorted_order(graph: &Vec<(String, Vec<String>)>) -> (order: Vec<usize>)
    ensures
        order@.len() == graph@.len(),
        forall|i: int| 0 <= i < order@.len() ==> #[trigger] order@[i] < graph@.len(),
        forall|v: usize| v < graph@.len() ==> #[trigger] order@.contains(v),
{
    let n = graph.len();
    let mut names: Vec<Vec<char>> = Vec::new();
    let mut rem: Vec<usize> = Vec::new();
    for i in 0..n
        invariant
            n == graph@.len(),
            names@.len() == i,
            rem@.len() == i,
            forall|q: int| 0 <= q < i ==> #[trigger] rem@[q] == q,
    {
        names.push(chars_of(graph[i].0.as_str()));
        rem.push(i);
    }
    let mut order: Vec<usize> = Vec::new();
    proof {
        assert forall|v: usize| v < n implies order@.contains(v) || #[trigger] rem@.contains(v) by {
            assert(rem@[v as int] == v);
        }
    }
    while rem.len() > 0
        invariant
            n == graph@.len(),
            names@.len() == n,
            order@.len() + rem@.len() == n,
            forall|i: int| 0 <= i < order@.len() ==> #[trigger] order@[i] < n,
            forall|i: int| 0 <= i < rem@.len() ==> #[trigger] rem@[i] < n,
            forall|v: usize| v < n ==> order@.contains(v) || #[trigger] rem@.contains(v),
        decreases rem.len(),
    {
        let mut m: usize = 0;
        let mut j: usize = 1;
        while j < rem.len()
            invariant
                1 <= j <= rem@.len(),
                m < j,
                names@.len() == n,
                forall|i: int| 0 <= i < rem@.len() ==> #[trigger] rem@[i] < n,
            decreases rem.len() - j,
        {
            if chars_lt(&names[rem[j]], &names[rem[m]]) {
                m = j;
            }
            j = j + 1;
        }
        let ghost r0 = rem@;
        let ghost o0 = order@;
        let x = rem.remove(m);
        order.push(x);
        proof {
            assert forall|v: usize| v < n implies order@.contains(v) || #[trigger] rem@.contains(v) by {
                if o0.contains(v) {
                    let i = choose|i: int| 0 <= i < o0.len() && o0[i] == v;
                    assert(order@[i] == v);
                } else {
                    assert(r0.contains(v));
                    let i = choose|i: int| 0 <= i < r0.len() && r0[i] == v;
                    if i == m {
                        assert(order@[order@.len() - 1] == v);
                    } else if i < m {
                        assert(rem@[i] == v);
                    } else {
                        assert(rem@[i - 1] == v);
                    }
                }
            }
            assert forall|i: int| 0 <= i < order@.len() implies #[trigger] order@[i] < n by {
                if i < o0.len() {
                    assert(order@[i] == o0[i]);
                }
            }
            assert forall|i: int| 0 <= i < rem@.len() implies #[trigger] rem@[i] < n by {
                if i < m {
                    assert(rem@[i] == r0[i]);
                } else {
                    assert(rem@[i] == r0[i + 1]);
                }
            }
        }
    }
    proof {
        assert forall|v: usize| v < n implies #[trigger] order@.contains(v) by {
            if rem@.contains(v) {
                let i = choose|i: int| 0 <= i < rem@.len() && rem@[i] == v;
            }
        }
    }
    order
}

/// Entry indices of the imports of entry `i` that are themselves entries of
/// the graph, in import order.
fn internal_targets(graph: &Vec<(String, Vec<String>)>, i: usize) -> (out: Vec<usize>)
    requires
        i < graph@.len(),
        distinct_names(graph@),
    ensures
        forall|q: int| 0 <= q < out@.len() ==> #[trigger] out@[q] < graph@.len(),
        forall|k: usize|
            k < graph@.len() ==> (#[trigger] out@.contains(k) <==> entry_deps(graph@[i as int]).contains(
                graph@[k as int].0@,
            )),
{
    let deps = &graph[i].1;
    let ghost ds = entry_deps(graph@[i as int]);
    let mut out: Vec<usize> = Vec::new();
    for t in 0..deps.len()
        invariant
            deps@ == graph@[i as int].1@,
            ds == entry_deps(graph@[i as int]),
            ds.len() == deps@.len(),
            distinct_names(graph@),
            forall|q: int| 0 <= q < out@.len() ==> #[trigger] out@[q] < graph@.len(),
            forall|k: usize|
                k < graph@.len() ==> (#[trigger] out@.contains(k) <==> ds.take(t as int).contains(
                    graph@[k as int].0@,
                )),
    {
        let ghost o0 = out@;
        assert(ds.take(t + 1) == ds.take(t as int).push(ds[t as int]));
        assert(ds[t as int] == deps@[t as int]@);
        match key_index(graph, &deps[t]) {
            Some(k) => {
                out.push(k);
                proof {
                    assert forall|k2: usize| k2 < graph@.len() implies (#[trigger] out@.contains(k2)
                        <==> ds.take(t + 1).contains(graph@[k2 as int].0@)) by {
                        if k2 == k {
                            assert(out@[out@.len() - 1] == k);
                            assert(ds.take(t + 1)[t as int] == graph@[k2 as int].0@);
                        } else {
                            assert(graph_names(graph@)[k2 as int] != graph_names(graph@)[k as int]);
                            if out@.contains(k2) {
                                let q = choose|q: int| 0 <= q < out@.len() && out@[q] == k2;
                                assert(o0[q] == k2);
                            }
                            if o0.contains(k2) {
                                let q = choose|q: int| 0 <= q < o0.len() && o0[q] == k2;
                                assert(out@[q] == k2);
                            }
                            if ds.take(t + 1).contains(graph@[k2 as int].0@) {
                                let q = choose|q: int| 0 <= q < t + 1 && #[trigger] ds.take(t + 1)[q] == graph@[k2 as int].0@;
                                if q < t {
                                    assert(ds.take(t as int)[q] == graph@[k2 as int].0@);
                                }
                            }
                        }
                    }
                    assert forall|q: int| 0 <= q < out@.len() implies #[trigger] out@[q] < graph@.len() by {
                        if q < o0.len() {
                            assert(out@[q] == o0[q]);
                        }
                    }
                }
            },
            None => {
                proof {
                    assert forall|k2: usize| k2 < graph@.len() implies (#[trigger] out@.contains(k2)
                        <==> ds.take(t + 1).contains(graph@[k2 as int].0@)) by {
                        if ds.take(t + 1).contains(graph@[k2 as int].0@) {
                            let q = choose|q: int| 0 <= q < t + 1 && #[trigger] ds.take(t + 1)[q] == graph@[k2 as int].0@;
                            if q < t {
                                assert(ds.take(t as int)[q] == graph@[k2 as int].0@);
                            } else {
                                assert(graph@[k2 as int].0@ != deps@[t as int]@);
                            }
                        }
                    }
                }
            },
        }
    }
    assert(ds.take(deps.len() as int) == ds);
    out
}

/// The module names along a cycle of entry indices.
fn cycle_names(graph: &Vec<(String, Vec<String>)>, cycle: &Vec<usize>) -> (out: Vec<String>)
    requires
        forall|i: int| 0 <= i < cycle@.len() ==> #[trigger] cycle@[i] < graph@.len(),
    ensures
        out@.len() == cycle@.len(),
        forall|i: int| 0 <= i < cycle@.len() ==> #[trigger] out@[i]@ == graph@[cycle@[i] as int].0@,
{
    let mut out: Vec<String> = Vec::new();
    for i in 0..cycle.len()
        invariant
            forall|q: int| 0 <= q < cycle@.len() ==> #[trigger] cycle@[q] < graph@.len(),
            out@.len() == i,
            forall|q: int| 0 <= q < i ==> #[trigger] out@[q]@ == graph@[cycle@[q] as int].0@,
    {
        out.push(graph[cycle[i]].0.clone());
    }
    out
}

/// Find all cycles in a directed graph.
///
/// Every circular dependency whose modules are distinct (before it closes)
/// is reported exactly once, up to rotation, as `[m, ..., m]`. The search
/// takes the modules in ascending name order and extends simple import
/// paths from each, in listed import order.
#[verifier::spinoff_prover]
#[verifier::rlimit(50)]
pub fn find_cycles(graph: &Vec<(String, Vec<String>)>) -> (cycles: Vec<Vec<String>>)
    requires
        distinct_names(graph@),
    ensures
        forall|k: int|
            0 <= k < cycles@.len() ==> is_dependency_cycle(graph@, #[trigger] name_seq(cycles@[k]@)),
        forall|k: int|
            0 <= k < cycles@.len() ==> #[trigger] name_seq(cycles@[k]@).take(
                cycles@[k]@.len() - 1,
            ).no_duplicates(),
        cycles@.len() > 0 <==> has_dependency_cycle(graph@),
        forall|x: int, y: int|
            0 <= x < y < cycles@.len() ==> !same_cycle(
                name_seq(#[trigger] cycles@[x]@),
                name_seq(#[trigger] cycles@[y]@),
            ),
        forall|nc: Seq<Seq<char>>|
            #[trigger] is_simple_dependency_cycle(graph@, nc) ==> exists|k: int|
                0 <= k < cycles@.len() && #[trigger] same_cycle(name_seq(cycles@[k]@), nc),
        lists_each_cycle(graph@, cycles_view(cycles@)),
{
    let n = graph.len();
    let order = sorted_order(graph);
    let mut adj: Vec<Vec<usize>> = Vec::new();
    for i in 0..n
        invariant
            n == graph@.len(),
            distinct_names(graph@),
            adj@.len() == i,
            forall|x: int, j: int| 0 <= x < i && 0 <= j < adj@[x]@.len() ==> #[trigger] adj@[x]@[j] < n,
            forall|x: int, k: usize|
                0 <= x < i && k < n ==> (#[trigger] adj@[x]@.contains(k) <==> entry_deps(graph@[x]).contains(
                    graph@[k as int].0@,
                )),
    {
        let t = internal_targets(graph, i);
        adj.push(t);
    }
    let ghost a = adj_view(adj@);
    proof {
        assert forall|x: int, j: int| 0 <= x < a.len() && 0 <= j < a[x].len() implies #[trigger] a[x][j] < a.len() by {
            assert(a[x] == adj@[x]@);
        }
        assert forall|x: usize, k: usize| x < n && k < n implies (has_edge(a, x, k) <==> entry_deps(graph@[x as int]).contains(graph@[k as int].0@)) by {
            assert(a[x as int] == adj@[x as int]@);
            if adj@[x as int]@.contains(k) {}
        }
    }
    let walks = find_cycle_walks(&adj, &order);
    let ghost walks_v = adj_view(walks@);
    let unique = dedup_cycles(walks);
    proof {
        assert forall|q: int| 0 <= q < unique@.len() implies #[trigger] is_rooted_cycle(a, unique@[q]@) by {
            assert(walks_v.contains(unique@[q]@));
            let w = choose|w: int| 0 <= w < walks_v.len() && walks_v[w] == unique@[q]@;
            assert(walks_v[w] == walks@[w]@);
        }
    }
    let mut cycles: Vec<Vec<String>> = Vec::new();
    for k in 0..unique.len()
        invariant
            n == graph@.len(),
            a == adj_view(adj@),
            adj_ok(a),
            a.len() == n,
            distinct_names(graph@),
            forall|x: usize, y: usize| x < n && y < n ==> (#[trigger] has_edge(a, x, y) <==> entry_deps(graph@[x as int]).contains(graph@[y as int].0@)),
            forall|q: int| 0 <= q < unique@.len() ==> #[trigger] is_simple_cycle(a, unique@[q]@),
            cycles@.len() == k,
            k <= unique@.len(),
            forall|q: int|
                0 <= q < k ==> is_dependency_cycle(graph@, #[trigger] name_seq(cycles@[q]@)),
            forall|q: int|
                0 <= q < k ==> #[trigger] name_seq(cycles@[q]@).take(cycles@[q]@.len() - 1).no_duplicates(),
            forall|q: int|
                0 <= q < k ==> #[trigger] cycles@[q]@.len() == unique@[q]@.len(),
            forall|q: int, i: int|
                0 <= q < k && 0 <= i < unique@[q]@.len() ==> #[trigger] cycles@[q]@[i]@ == graph@[unique@[q]@[i] as int].0@,
    {
        proof {
            lemma_simple_cycle_nodes(a, unique@[k as int]@);
        }
        let names = cycle_names(graph, &unique[k]);
        proof {
            lemma_names_cycle(graph@, a, unique@[k as int]@, names@);
        }
        cycles.push(names);
    }
    proof {
        if cycles@.len() > 0 {
            assert(is_dependency_cycle(graph@, name_seq(cycles@[0]@)));
        }
        if has_dependency_cycle(graph@) {
            let c = choose|c: Seq<Seq<char>>| is_dependency_cycle(graph@, c);
            lemma_cycle_to_walk(graph@, a, c);
            assert(walks_v.len() > 0);
            assert(crate::cycles::normal_forms(adj_view(unique@)).contains(
                crate::cycles::normalized(walks_v[0]),
            ));
        }
        assert forall|nc: Seq<Seq<char>>|
            #[trigger] is_simple_dependency_cycle(graph@, nc) implies exists|k: int|
                0 <= k < cycles@.len() && #[trigger] same_cycle(name_seq(cycles@[k]@), nc) by {
            lemma_cycle_listed(graph@, a, walks_v, adj_view(unique@), cycles@, nc);
        }
        assert forall|x: int, y: int| 0 <= x < y < cycles@.len() implies !same_cycle(
            name_seq(#[trigger] cycles@[x]@),
            name_seq(#[trigger] cycles@[y]@),
        ) by {
            lemma_simple_cycle_nodes(a, unique@[x]@);
            lemma_simple_cycle_nodes(a, unique@[y]@);
            lemma_distinct_walks_distinct_names(graph@, unique@[x]@, unique@[y]@, cycles@[x]@, cycles@[y]@);
        }
        lemma_listing_of_names(graph@, cycles@);
    }
    cycles
}

/// The listing `find_cycles` states, in terms of the cycles' names.
proof fn lemma_listing_of_names(g: Seq<(String, Vec<String>)>, cycles: Seq<Vec<String>>)
    requires
        forall|k: int| 0 <= k < cycles.len() ==> is_dependency_cycle(g, #[trigger] name_seq(cycles[k]@)),
        forall|k: int| 0 <= k < cycles.len() ==> #[trigger] name_seq(cycles[k]@).take(cycles[k]@.len() - 1).no_duplicates(),
        forall|x: int, y: int|
            0 <= x < y < cycles.len() ==> !same_cycle(name_seq(#[trigger] cycles[x]@), name_seq(#[trigger] cycles[y]@)),
        forall|nc: Seq<Seq<char>>|
            #[trigger] is_simple_dependency_cycle(g, nc) ==> exists|k: int|
                0 <= k < cycles.len() && #[trigger] same_cycle(name_seq(cycles[k]@), nc),
    ensures
        lists_each_cycle(g, cycles_view(cycles)),
{
    let cs = cycles_view(cycles);
    assert forall|k: int| 0 <= k < cs.len() implies is_dependency_cycle(g, #[trigger] cs[k]) by {
        assert(cs[k] == name_seq(cycles[k]@));
    }
    assert forall|k: int| 0 <= k < cs.len() implies (#[trigger] cs[k]).take(cs[k].len() - 1).no_duplicates() by {
        assert(cs[k] == name_seq(cycles[k]@));
        assert(name_seq(cycles[k]@).take(cycles[k]@.len() - 1).no_duplicates());
    }
    assert forall|x: int, y: int| 0 <= x < y < cs.len() implies !same_cycle(#[trigger] cs[x], #[trigger] cs[y]) by {
        assert(cs[x] == name_seq(cycles[x]@));
        assert(cs[y] == name_seq(cycles[y]@));
        assert(!same_cycle(name_seq(cycles[x]@), name_seq(cycles[y]@)));
    }
    assert forall|nc: Seq<Seq<char>>| #[trigger] is_simple_dependency_cycle(g, nc) implies exists|k: int|
        0 <= k < cs.len() && #[trigger] same_cycle(cs[k], nc) by {
        let k = choose|k: int| 0 <= k < cycles.len() && #[trigger] same_cycle(name_seq(cycles[k]@), nc);
        assert(cs[k] == name_seq(cycles[k]@));
    }
}

/// The cycle `d` is in `cs`, entered perhaps at another module.
pub open spec fn lists_cycle(cs: Seq<Seq<Seq<char>>>, d: Seq<Seq<char>>) -> bool {
    exists|j: int| 0 <= j < cs.len() && #[trigger] same_cycle(cs[j], d)
}

/// Every cycle of `ds` is in `cs`, entered perhaps at another module.
pub open spec fn holds_each_of(cs: Seq<Seq<Seq<char>>>, ds: Seq<Seq<Seq<char>>>) -> bool {
    forall|k: int| 0 <= k < ds.len() ==> #[trigger] lists_cycle(cs, ds[k])
}

/// Entering a cycle at another module can be undone.
proof fn lemma_same_cycle_symmetric(a: Seq<Seq<char>>, b: Seq<Seq<char>>)
    requires
        same_cycle(a, b),
    ensures
        same_cycle(b, a),
{
    let n = a.len() - 1;
    let ca = a.take(n);
    let cb = b.take(n);
    let k = choose|k: int| 0 <= k < n && #[trigger] rotated(cb, k) == ca;
    let k2 = if k == 0 { 0 } else { n - k };
    assert forall|i: int| 0 <= i < n implies rotated(ca, k2)[i] == cb[i] by {
        lemma_rotated_index(ca, k2, i);
        let p = if i + k2 < n { i + k2 } else { i + k2 - n };
        lemma_rotated_index(cb, k, p);
    }
    assert(rotated(ca, k2) =~= cb);
}

/// Entering a cycle at one module and then at another is entering it at
/// the second.
proof fn lemma_same_cycle_transitive(a: Seq<Seq<char>>, b: Seq<Seq<char>>, c: Seq<Seq<char>>)
    requires
        same_cycle(a, b),
        same_cycle(b, c),
    ensures
        same_cycle(a, c),
{
    let n = a.len() - 1;
    let ca = a.take(n);
    let cb = b.take(n);
    let cc = c.take(n);
    let k1 = choose|k: int| 0 <= k < n && #[trigger] rotated(cb, k) == ca;
    let k2 = choose|k: int| 0 <= k < n && #[trigger] rotated(cc, k) == cb;
    let k3 = if k1 + k2 < n { k1 + k2 } else { k1 + k2 - n };
    assert forall|i: int| 0 <= i < n implies rotated(cc, k3)[i] == ca[i] by {
        lemma_rotated_index(cc, k3, i);
        lemma_rotated_index(cb, k1, i);
        let p = if i + k1 < n { i + k1 } else { i + k1 - n };
        lemma_rotated_index(cc, k2, p);
    }
    assert(rotated(cc, k3) =~= ca);
}

/// A list of cycles, no two the same, each of which is in `ds`, is no
/// longer than `ds`.
proof fn lemma_listing_len(cs: Seq<Seq<Seq<char>>>, ds: Seq<Seq<Seq<char>>>)
    requires
        forall|x: int, y: int| 0 <= x < y < cs.len() ==> !same_cycle(#[trigger] cs[x], #[trigger] cs[y]),
        holds_each_of(ds, cs),
    ensures
        cs.len() <= ds.len(),
    decreases cs.len(),
{
    if cs.len() > 0 {
        let last = cs.len() - 1;
        assert(lists_cycle(ds, cs[last]));
        let j = choose|j: int| 0 <= j < ds.len() && #[trigger] same_cycle(ds[j], cs[last]);
        let cs1 = cs.drop_last();
        let ds1 = ds.remove(j);
        assert forall|k: int| 0 <= k < cs1.len() implies #[trigger] lists_cycle(ds1, cs1[k]) by {
            assert(cs1[k] == cs[k]);
            assert(lists_cycle(ds, cs[k]));
            let jk = choose|jk: int| 0 <= jk < ds.len() && #[trigger] same_cycle(ds[jk], cs[k]);
            if jk == j {
                lemma_same_cycle_symmetric(ds[j], cs[k]);
                lemma_same_cycle_transitive(cs[k], ds[j], cs[last]);
                assert(!same_cycle(cs[k], cs[last]));
            }
            let jj = if jk < j { jk } else { jk - 1 };
            assert(ds1[jj] == ds[jk]);
        }
        assert forall|x: int, y: int| 0 <= x < y < cs1.len() implies !same_cycle(#[trigger] cs1[x], #[trigger] cs1[y]) by {
            assert(cs1[x] == cs[x] && cs1[y] == cs[y]);
        }
        lemma_listing_len(cs1, ds1);
    }
}

/// Two listings of each cycle of a graph, such as the cycles of
/// `compute_stats` and those of `find_cycles`, list the same cycles: as many,
/// and each cycle of one is in the other, entered perhaps at another module.
pub proof fn lemma_cycle_listings_agree(g: Seq<(String, Vec<String>)>, c1: Seq<Seq<Seq<char>>>, c2: Seq<Seq<Seq<char>>>)
    requires
        lists_each_cycle(g, c1),
        lists_each_cycle(g, c2),
    ensures
        holds_each_of(c1, c2),
        holds_each_of(c2, c1),
        c1.len() == c2.len(),
{
    lemma_listing_holds(g, c2, c1);
    lemma_listing_holds(g, c1, c2);
    lemma_listing_len(c1, c2);
    lemma_listing_len(c2, c1);
}

/// A listing of each cycle holds every cycle of another such listing.
proof fn lemma_listing_holds(g: Seq<(String, Vec<String>)>, cs: Seq<Seq<Seq<char>>>, ds: Seq<Seq<Seq<char>>>)
    requires
        lists_each_cycle(g, cs),
        lists_each_cycle(g, ds),
    ensures
        holds_each_of(cs, ds),
{
    assert forall|k: int| 0 <= k < ds.len() implies #[trigger] lists_cycle(cs, ds[k]) by {
        let d = ds[k];
        assert(is_dependency_cycle(g, d));
        assert(d.take(d.len() - 1).no_duplicates());
        assert(is_simple_dependency_cycle(g, d));
    }
    assert(holds_each_of(cs, ds));
}

/// Two simple cycles of entry indices with different normal forms name
/// cycles of modules that are not rotations of each other.
proof fn lemma_distinct_walks_distinct_names(
    g: Seq<(String, Vec<String>)>,
    ua: Seq<usize>,
    ub: Seq<usize>,
    na: Seq<String>,
    nb: Seq<String>,
)
    requires
        distinct_names(g),
        ua.len() >= 2,
        ub.len() >= 2,
        ub.take(ub.len() - 1).no_duplicates(),
        forall|i: int| 0 <= i < ua.len() ==> #[trigger] ua[i] < g.len(),
        forall|i: int| 0 <= i < ub.len() ==> #[trigger] ub[i] < g.len(),
        na.len() == ua.len(),
        nb.len() == ub.len(),
        forall|i: int| 0 <= i < ua.len() ==> #[trigger] na[i]@ == g[ua[i] as int].0@,
        forall|i: int| 0 <= i < ub.len() ==> #[trigger] nb[i]@ == g[ub[i] as int].0@,
        normalized(ua) != normalized(ub),
    ensures
        !same_cycle(name_seq(na), name_seq(nb)),
{
    if same_cycle(name_seq(na), name_seq(nb)) {
        let n = na.len() - 1;
        let k = choose|k: int|
            0 <= k < n && #[trigger] rotated(name_seq(nb).take(n), k) == name_seq(na).take(n);
        let ca = ua.take(n);
        let cb = ub.take(n);
        assert forall|i: int| 0 <= i < n implies #[trigger] rotated(cb, k)[i] == ca[i] by {
            let j = if i + k < n { i + k } else { i + k - n };
            lemma_rotated_index(name_seq(nb).take(n), k, i);
            lemma_rotated_index(cb, k, i);
            assert(rotated(name_seq(nb).take(n), k)[i] == name_seq(na).take(n)[i]);
            assert(graph_names(g)[ua[i] as int] == g[ua[i] as int].0@);
            assert(graph_names(g)[ub[j] as int] == g[ub[j] as int].0@);
        }
        assert(rotated(cb, k) =~= ca);
        lemma_rotation_same_normal(ua, ub, k);
    }
}

/// Every node of a simple cycle is a node of the graph.
proof fn lemma_simple_cycle_nodes(a: Seq<Seq<usize>>, c: Seq<usize>)
    requires
        adj_ok(a),
        is_simple_cycle(a, c),
    ensures
        forall|i: int| 0 <= i < c.len() ==> #[trigger] c[i] < a.len(),
{
    assert forall|i: int| 0 <= i < c.len() implies #[trigger] c[i] < a.len() by {
        if i < c.len() - 1 {
            assert(has_edge(a, c[i], c[i + 1]));
        } else {
            assert(has_edge(a, c[i - 1], c[(i - 1) + 1]));
            let j = choose|j: int| 0 <= j < a[c[i - 1] as int].len() && #[trigger] a[c[i - 1] as int][j] == c[i];
        }
    }
}

/// A simple cycle of entry indices names a circular dependency whose modules
/// (before it closes) are distinct.
proof fn lemma_names_cycle(
    g: Seq<(String, Vec<String>)>,
    a: Seq<Seq<usize>>,
    c: Seq<usize>,
    names: Seq<String>,
)
    requires
        distinct_names(g),
        a.len() == g.len(),
        forall|x: usize, y: usize|
            x < g.len() && y < g.len() ==> (#[trigger] has_edge(a, x, y) <==> entry_deps(g[x as int]).contains(g[y as int].0@)),
        is_simple_cycle(a, c),
        forall|i: int| 0 <= i < c.len() ==> #[trigger] c[i] < g.len(),
        names.len() == c.len(),
        forall|i: int| 0 <= i < c.len() ==> #[trigger] names[i]@ == g[c[i] as int].0@,
    ensures
        is_dependency_cycle(g, name_seq(names)),
        name_seq(names).take(names.len() - 1).no_duplicates(),
{
    let ns = name_seq(names);
    assert forall|i: int| 0 <= i < ns.len() - 1 implies #[trigger] depends_on(g, ns[i], ns[i + 1]) by {
        assert(has_edge(a, c[i], c[i + 1]));
        assert(entry_deps(g[c[i] as int]).contains(g[c[i + 1] as int].0@));
    }
    let core = ns.take(ns.len() - 1);
    assert forall|p: int, q: int| 0 <= p < core.len() && 0 <= q < core.len() && p != q implies core[p] != core[q] by {
        assert(c.take(c.len() - 1)[p] == c[p]);
        assert(c.take(c.len() - 1)[q] == c[q]);
        assert(c[p] != c[q]);
        assert(graph_names(g)[c[p] as int] != graph_names(g)[c[q] as int]);
    }
}

/// A circular dependency gives a closed walk over entry indices.
proof fn lemma_cycle_to_walk(g: Seq<(String, Vec<String>)>, a: Seq<Seq<usize>>, cn: Seq<Seq<char>>) -> (c: Seq<usize>)
    requires
        g.len() <= usize::MAX,
        distinct_names(g),
        a.len() == g.len(),
        forall|x: usize, y: usize|
            x < g.len() && y < g.len() ==> (#[trigger] has_edge(a, x, y) <==> entry_deps(g[x as int]).contains(g[y as int].0@)),
        is_dependency_cycle(g, cn),
    ensures
        graph_has_cycle(a),
        is_closed_walk(a, c),
        c.len() == cn.len(),
        forall|i: int| 0 <= i < c.len() ==> #[trigger] c[i] < g.len() && g[c[i] as int].0@ == cn[i],
{
    let idx = |name: Seq<char>| -> usize { (choose|k: usize| k < g.len() && g[k as int].0@ == name) };
    // Every module on the cycle has an entry.
    assert forall|i: int| 0 <= i < cn.len() implies (#[trigger] idx(cn[i])) < g.len() && g[idx(cn[i]) as int].0@ == cn[i] by {
        let i0 = if i < cn.len() - 1 { i } else { 0 };
        assert(cn[i0] == cn[i]);
        assert(depends_on(g, cn[i0], cn[i0 + 1]));
        let e = choose|e: int| 0 <= e < g.len() && g[e].0@ == cn[i0] && #[trigger] entry_deps(g[e]).contains(cn[i0 + 1]);
        assert(g[(e as usize) as int].0@ == cn[i]);
    }
    let c = Seq::new(cn.len(), |i: int| idx(cn[i]));
    assert forall|i: int| 0 <= i < c.len() - 1 implies #[trigger] has_edge(a, c[i], c[i + 1]) by {
        assert(depends_on(g, cn[i], cn[i + 1]));
        let e = choose|e: int| 0 <= e < g.len() && g[e].0@ == cn[i] && #[trigger] entry_deps(g[e]).contains(cn[i + 1]);
        assert(idx(cn[i]) < g.len());
        assert(graph_names(g)[e] == graph_names(g)[idx(cn[i]) as int]);
        assert(e == idx(cn[i]) as int);
        assert(idx(cn[i + 1]) < g.len());
        assert(g[idx(cn[i + 1]) as int].0@ == cn[i + 1]);
    }
    assert(is_closed_walk(a, c));
    c
}

/// A simple dependency cycle is listed, up to rotation, once the simple
/// cycles of the index graph are all found and deduplicated.
proof fn lemma_cycle_listed(
    g: Seq<(String, Vec<String>)>,
    a: Seq<Seq<usize>>,
    walks: Seq<Seq<usize>>,
    unique: Seq<Seq<usize>>,
    cycles: Seq<Vec<String>>,
    nc: Seq<Seq<char>>,
)
    requires
        g.len() <= usize::MAX,
        distinct_names(g),
        a.len() == g.len(),
        forall|x: usize, y: usize|
            x < g.len() && y < g.len() ==> (#[trigger] has_edge(a, x, y) <==> entry_deps(g[x as int]).contains(g[y as int].0@)),
        forall|c: Seq<usize>| #[trigger] is_cycle_of(a, c) ==> walks.contains(normalized(c)),
        forall|w: int| 0 <= w < walks.len() ==> normal_forms(unique).contains(normalized(#[trigger] walks[w])),
        forall|q: int| 0 <= q < unique.len() ==> #[trigger] is_rooted_cycle(a, unique[q]),
        cycles.len() == unique.len(),
        forall|q: int| 0 <= q < cycles.len() ==> #[trigger] cycles[q]@.len() == unique[q].len(),
        forall|q: int, i: int|
            0 <= q < cycles.len() && 0 <= i < unique[q].len() ==> #[trigger] cycles[q]@[i]@ == g[unique[q][i] as int].0@,
        is_simple_dependency_cycle(g, nc),
    ensures
        exists|k: int| 0 <= k < cycles.len() && #[trigger] same_cycle(name_seq(cycles[k]@), nc),
{
    let c = lemma_cycle_to_walk(g, a, nc);
    let cn = c.len() - 1;
    assert forall|i: int, j: int| 0 <= i < cn && 0 <= j < cn && i != j implies c.take(cn)[i] != c.take(cn)[j] by {
        if c[i] == c[j] {
            assert(nc.take(cn)[i] == nc.take(cn)[j]);
        }
    }
    assert(is_cycle_of(a, c));
    assert(walks.contains(normalized(c)));
    let w = choose|w: int| 0 <= w < walks.len() && walks[w] == normalized(c);
    lemma_normalized_rooted(a, c);
    lemma_rooted_normal(a, normalized(c));
    assert(normal_forms(unique).contains(normalized(walks[w])));
    let u = choose|u: int| 0 <= u < normal_forms(unique).len() && normal_forms(unique)[u] == normalized(c);
    assert(normal_forms(unique)[u] == normalized(unique[u]));
    lemma_rooted_normal(a, unique[u]);
    assert(unique[u] == normalized(c));
    lemma_first_min(c.take(cn));
    assert(normalized(c).len() == c.len());
    assert(cycles[u]@.len() == c.len());
    assert forall|i: int| 0 <= i < c.len() implies #[trigger] cycles[u]@[i]@ == g[normalized(c)[i] as int].0@ by {
        assert(cycles[u]@[i]@ == g[unique[u][i] as int].0@);
    }
    lemma_names_rotation(g, c, nc, cycles[u]@);
}

/// The names of a simple cycle's normal form are a rotation of the
/// cycle's names.
proof fn lemma_names_rotation(
    g: Seq<(String, Vec<String>)>,
    c: Seq<usize>,
    nc: Seq<Seq<char>>,
    names: Seq<String>,
)
    requires
        c.len() == nc.len(),
        c.len() >= 2,
        forall|i: int| 0 <= i < c.len() ==> #[trigger] c[i] < g.len() && g[c[i] as int].0@ == nc[i],
        names.len() == c.len(),
        forall|i: int| 0 <= i < c.len() ==> #[trigger] names[i]@ == g[normalized(c)[i] as int].0@,
    ensures
        same_cycle(name_seq(names), nc),
{
    let n = c.len() - 1;
    let core = c.take(n);
    lemma_first_min(core);
    let m = first_min(core);
    let ns = name_seq(names);
    assert(normalized(c) == rotated(core, m) + seq![core[m]]);
    assert forall|i: int| 0 <= i < n implies ns.take(n)[i] == rotated(nc.take(n), m)[i] by {
        lemma_rotated_index(core, m, i);
        lemma_rotated_index(nc.take(n), m, i);
        let p = if i + m < n { i + m } else { i + m - n };
        assert(normalized(c)[i] == core[p]);
        assert(names[i]@ == g[core[p] as int].0@);
    }
    assert(ns.take(n) =~= rotated(nc.take(n), m));
    assert(ns.len() == nc.len());
}

/// `name` occurs in `names`; membership test over strings.
pub(crate) fn contains_name(names: &Vec<String>, name: &String) -> (r: bool)
    ensures
        r == name_seq(names@).contains(name@),
{
    let mut k: usize = 0;
    while k < names.len()
        invariant
            k <= names@.len(),
            forall|q: int| 0 <= q < k ==> names@[q]@ != name@,
        decreases names.len() - k,
    {
        if names[k] == *name {
            proof {
                assert(name_seq(names@)[k as int] == name@);
            }
            return true;
        }
        k = k + 1;
    }
    proof {
        if name_seq(names@).contains(name@) {
            let q = choose|q: int| 0 <= q < names@.len() && name_seq(names@)[q] == name@;
            assert(names@[q]@ == name@);
        }
    }
    false
}

/// The imports of `e` that are module names of the project.
pub open spec fn internal_imports(e: (String, Vec<String>), project: Seq<Seq<char>>) -> Seq<Seq<char>> {
    entry_deps(e).filter(|d: Seq<char>| project.contains(d))
}

/// Keep the imports that are project modules, in order.
fn filter_internal(imports: &Vec<String>, project: &Vec<String>) -> (out: Vec<String>)
    ensures
        name_seq(out@) == name_seq(imports@).filter(|d: Seq<char>| name_seq(project@).contains(d)),
{
    let ghost p = |d: Seq<char>| name_seq(project@).contains(d);
    let mut out: Vec<String> = Vec::new();
    for i in 0..imports.len()
        invariant
            p == (|d: Seq<char>| name_seq(project@).contains(d)),
            name_seq(out@) == name_seq(imports@).take(i as int).filter(p),
    {
        proof {
            reveal(Seq::filter);
            assert(name_seq(imports@).take(i + 1).drop_last() == name_seq(imports@).take(i as int));
            assert(name_seq(imports@).take(i + 1).last() == imports@[i as int]@);
        }
        if contains_name(project, &imports[i]) {
            let ghost o0 = out@;
            out.push(imports[i].clone());
            assert(name_seq(out@) == name_seq(o0).push(imports@[i as int]@));
        }
    }
    assert(name_seq(imports@).take(imports.len() as int) == name_seq(imports@));
    out
}

/// The module names of a list of (module, imports) pairs.
pub open spec fn module_names(modules: Seq<(String, Vec<String>)>) -> Seq<Seq<char>> {
    graph_names(modules)
}

/// Build a dependency graph from parsed Elm modules.
///
/// Returns the internal graph, mapping each module name to its imports that
/// are themselves project modules (a module listed twice takes its last
/// listing), and the set of project module names.
pub fn build_graph(modules: &Vec<(String, Vec<String>)>) -> (r: (Vec<(String, Vec<String>)>, Vec<String>))
    ensures
        name_seq(r.1@).no_duplicates(),
        forall|nm: Seq<char>| #[trigger] name_seq(r.1@).contains(nm) <==> module_names(modules@).contains(nm),
        distinct_names(r.0@),
        forall|nm: Seq<char>| #[trigger] graph_names(r.0@).contains(nm) <==> module_names(modules@).contains(nm),
        forall|i: int, j: int|
            0 <= i < r.0@.len() && 0 <= j < modules@.len() && #[trigger] is_last_listing(modules@, j, r.0@[i].0@)
                ==> entry_deps(#[trigger] r.0@[i]) == internal_imports(modules@[j], module_names(modules@)),
        forall|i: int, d: Seq<char>|
            0 <= i < r.0@.len() && #[trigger] entry_deps(r.0@[i]).contains(d) ==> name_seq(r.1@).contains(d),
{
    // Project module names, each once, in first-listing order.
    let mut project: Vec<String> = Vec::new();
    for i in 0..modules.len()
        invariant
            name_seq(project@).no_duplicates(),
            forall|nm: Seq<char>| #[trigger] name_seq(project@).contains(nm) <==> module_names(modules@).take(i as int).contains(nm),
    {
        let ghost p0 = project@;
        proof {
            assert(module_names(modules@).take(i + 1) == module_names(modules@).take(i as int).push(modules@[i as int].0@));
        }
        if !contains_name(&project, &modules[i].0) {
            project.push(modules[i].0.clone());
            proof {
                assert(name_seq(project@) == name_seq(p0).push(modules@[i as int].0@));
                assert forall|nm: Seq<char>| #[trigger] name_seq(project@).contains(nm) <==> module_names(modules@).take(i + 1).contains(nm) by {
                    lemma_push_contains(name_seq(p0), modules@[i as int].0@, nm);
                    lemma_push_contains(module_names(modules@).take(i as int), modules@[i as int].0@, nm);
                }
                lemma_push_no_dup(name_seq(p0), modules@[i as int].0@);
            }
        } else {
            proof {
                assert forall|nm: Seq<char>| #[trigger] name_seq(project@).contains(nm) <==> module_names(modules@).take(i + 1).contains(nm) by {
                    lemma_push_contains(module_names(modules@).take(i as int), modules@[i as int].0@, nm);
                }
            }
        }
    }
    assert(module_names(modules@).take(modules.len() as int) == module_names(modules@));
    let ghost proj = module_names(modules@);
    // Internal graph; a later listing of a module replaces the earlier one.
    // `src[i]` is the listing that entry `i` was last taken from.
    let mut graph: Vec<(String, Vec<String>)> = Vec::new();
    let ghost mut src: Seq<int> = Seq::empty();
    for j in 0..modules.len()
        invariant
            forall|nm: Seq<char>| #[trigger] name_seq(project@).contains(nm) <==> proj.contains(nm),
            proj == module_names(modules@),
            distinct_names(graph@),
            forall|nm: Seq<char>| #[trigger] graph_names(graph@).contains(nm) <==> proj.take(j as int).contains(nm),
            listed_from(modules@.take(j as int), proj, graph@, src),
    {
        let internal = filter_internal(&modules[j].1, &project);
        proof {
            assert(name_seq(project@) =~= name_seq(project@));
            assert((|d: Seq<char>| name_seq(project@).contains(d)) =~= (|d: Seq<char>| proj.contains(d)));
            assert(modules@.take(j + 1)[j as int] == modules@[j as int]);
        }
        let ghost g0 = graph@;
        let ghost s0 = src;
        match key_index(&graph, &modules[j].0) {
            Some(p) => {
                graph.set(p, (modules[j].0.clone(), internal));
                proof {
                    src = s0.update(p as int, j as int);
                    lemma_listing_step(modules@.take(j + 1), proj, j as int, g0, graph@, s0, src, p as int);
                }
            },
            None => {
                graph.push((modules[j].0.clone(), internal));
                proof {
                    src = s0.push(j as int);
                    lemma_listing_step(modules@.take(j + 1), proj, j as int, g0, graph@, s0, src, g0.len() as int);
                }
            },
        }
    }
    assert(modules@.take(modules.len() as int) == modules@);
    assert(proj.take(modules.len() as int) == proj);
    proof {
        assert forall|i: int, j: int|
            0 <= i < graph@.len() && 0 <= j < modules@.len() && #[trigger] is_last_listing(modules@, j, graph@[i].0@)
                implies entry_deps(#[trigger] graph@[i]) == internal_imports(modules@[j], proj) by {
            lemma_last_listing_unique(modules@, j, src[i], graph@[i].0@);
        }
        assert forall|i: int, d: Seq<char>|
            0 <= i < graph@.len() && #[trigger] entry_deps(graph@[i]).contains(d) implies name_seq(project@).contains(d) by {
            let deps = entry_deps(graph@[i]);
            let t = choose|t: int| 0 <= t < deps.len() && deps[t] == d;
            let pred = |x: Seq<char>| proj.contains(x);
            assert(deps == entry_deps(modules@[src[i]]).filter(pred));
            entry_deps(modules@[src[i]]).lemma_filter_pred(pred, t);
        }
    }
    (graph, project)
}

/// Index `j` is the last listing of module `nm` in `modules`.
pub open spec fn is_last_listing(modules: Seq<(String, Vec<String>)>, j: int, nm: Seq<char>) -> bool {
    &&& 0 <= j < modules.len()
    &&& modules[j].0@ == nm
    &&& forall|q: int| j < q < modules.len() ==> #[trigger] modules[q].0@ != nm
}

/// Entry `i` of `g` was built from listing `src[i]` of `modules`, its last
/// listing, keeping the imports that are project modules.
spec fn listed_from(
    modules: Seq<(String, Vec<String>)>,
    proj: Seq<Seq<char>>,
    g: Seq<(String, Vec<String>)>,
    src: Seq<int>,
) -> bool {
    &&& src.len() == g.len()
    &&& forall|i: int| #![trigger g[i]] 0 <= i < g.len() ==> is_last_listing(modules, src[i], g[i].0@)
        && entry_deps(g[i]) == internal_imports(modules[src[i]], proj)
}

/// A module has at most one last listing.
proof fn lemma_last_listing_unique(modules: Seq<(String, Vec<String>)>, a: int, b: int, nm: Seq<char>)
    requires
        is_last_listing(modules, a, nm),
        is_last_listing(modules, b, nm),
    ensures
        a == b,
{
    if a < b {
        assert(modules[b].0@ == nm);
    } else if b < a {
        assert(modules[a].0@ == nm);
    }
}

/// One step of `build_graph`: entry `p` of the new graph now holds the
/// newest listing `j` (replacing the entry of the same name, or appended
/// after the others).
proof fn lemma_listing_step(
    m1: Seq<(String, Vec<String>)>,
    proj: Seq<Seq<char>>,
    j: int,
    g0: Seq<(String, Vec<String>)>,
    g1: Seq<(String, Vec<String>)>,
    s0: Seq<int>,
    s1: Seq<int>,
    p: int,
)
    requires
        m1.len() == j + 1,
        0 <= j < proj.len(),
        proj[j] == m1[j].0@,
        distinct_names(g0),
        forall|nm: Seq<char>| #[trigger] graph_names(g0).contains(nm) <==> proj.take(j).contains(nm),
        listed_from(m1.take(j), proj, g0, s0),
        0 <= p <= g0.len(),
        p < g0.len() ==> g1.len() == g0.len() && g0[p].0@ == m1[j].0@ && s1 == s0.update(p, j),
        p == g0.len() ==> g1.len() == g0.len() + 1 && s1 == s0.push(j)
            && forall|k: int| 0 <= k < g0.len() ==> g0[k].0@ != m1[j].0@,
        forall|i: int| 0 <= i < g1.len() && i != p ==> g1[i] == g0[i],
        g1[p].0@ == m1[j].0@,
        entry_deps(g1[p]) == internal_imports(m1[j], proj),
    ensures
        distinct_names(g1),
        forall|nm: Seq<char>| #[trigger] graph_names(g1).contains(nm) <==> proj.take(j + 1).contains(nm),
        listed_from(m1, proj, g1, s1),
{
    let nm_j = m1[j].0@;
    let m0 = m1.take(j);
    assert(proj.take(j + 1) == proj.take(j).push(nm_j));
    if p < g0.len() {
        assert(graph_names(g1) == graph_names(g0).update(p, nm_j));
        assert(graph_names(g1) =~= graph_names(g0));
        assert forall|nm: Seq<char>| #[trigger] graph_names(g1).contains(nm) <==> proj.take(j + 1).contains(nm) by {
            lemma_push_contains(proj.take(j), nm_j, nm);
            assert(graph_names(g0)[p] == nm_j);
        }
    } else {
        assert(graph_names(g1) =~= graph_names(g0).push(nm_j));
        assert(!graph_names(g0).contains(nm_j));
        lemma_push_no_dup(graph_names(g0), nm_j);
        assert forall|nm: Seq<char>| #[trigger] graph_names(g1).contains(nm) <==> proj.take(j + 1).contains(nm) by {
            lemma_push_contains(graph_names(g0), nm_j, nm);
            lemma_push_contains(proj.take(j), nm_j, nm);
        }
    }
    assert forall|i: int| #![trigger g1[i]] 0 <= i < g1.len() implies is_last_listing(m1, s1[i], g1[i].0@)
        && entry_deps(g1[i]) == internal_imports(m1[s1[i]], proj) by {
        if i == p {
            assert(s1[i] == j);
        } else {
            let q = s0[i];
            assert(s1[i] == q);
            assert(g1[i] == g0[i]);
            assert(is_last_listing(m0, q, g0[i].0@));
            assert(g0[i].0@ != nm_j) by {
                if p < g0.len() {
                    assert(graph_names(g0)[i] == g0[i].0@);
                    assert(graph_names(g0)[p] == g0[p].0@);
                }
            }
            assert forall|k: int| q < k < m1.len() implies #[trigger] m1[k].0@ != g1[i].0@ by {
                if k < j {
                    assert(m0[k] == m1[k]);
                }
            }
            assert(m0[q] == m1[q]);
        }
    }
}

pub(crate) proof fn lemma_push_contains<T>(s: Seq<T>, x: T, y: T)
    ensures
        s.push(x).contains(y) <==> (s.contains(y) || x == y),
{
    if s.contains(y) {
        let i = choose|i: int| 0 <= i < s.len() && s[i] == y;
        assert(s.push(x)[i] == y);
    }
    if x == y {
        assert(s.push(x)[s.len() as int] == y);
    }
    if s.push(x).contains(y) {
        let i = choose|i: int| 0 <= i < s.push(x).len() && s.push(x)[i] == y;
        if i < s.len() {
            assert(s[i] == y);
        }
    }
}

pub(crate) proof fn lemma_push_no_dup<T>(s: Seq<T>, x: T)
    requires
        s.no_duplicates(),
        !s.contains(x),
    ensures
        s.push(x).no_duplicates(),
{
    assert forall|a: int, b: int| 0 <= a < s.push(x).len() && 0 <= b < s.push(x).len() && a != b implies s.push(x)[a] != s.push(x)[b] by {
        if a == s.len() {
            assert(s[b] == s.push(x)[b]);
        } else if b == s.len() {
            assert(s[a] == s.push(x)[a]);
        }
    }
}

} // verus!
