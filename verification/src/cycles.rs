//! Cycle enumeration on a graph whose nodes are the indices `0 .. n` and
//! whose edges are given as adjacency lists: every simple cycle, found
//! once from its smallest node by extending simple paths.

use vstd::prelude::*;

verus! {

/// The adjacency lists as sequences.
pub open spec fn adj_view(a: Seq<Vec<usize>>) -> Seq<Seq<usize>> {
    a.map_values(|v: Vec<usize>| v@)
}

/// Every adjacency entry names a node of the graph.
pub open spec fn adj_ok(adj: Seq<Seq<usize>>) -> bool {
    forall|x: int, j: int| 0 <= x < adj.len() && 0 <= j < adj[x].len() ==> #[trigger] adj[x][j] < adj.len()
}

/// There is an edge `u -> v`.
pub open spec fn has_edge(adj: Seq<Seq<usize>>, u: usize, v: usize) -> bool {
    u < adj.len() && adj[u as int].contains(v)
}

/// Consecutive nodes of `p` are joined by edges.
pub open spec fn is_walk(adj: Seq<Seq<usize>>, p: Seq<usize>) -> bool {
    forall|i: int| 0 <= i < p.len() - 1 ==> #[trigger] has_edge(adj, p[i], p[i + 1])
}

/// A walk that returns to its first node.
pub open spec fn is_closed_walk(adj: Seq<Seq<usize>>, c: Seq<usize>) -> bool {
    &&& c.len() >= 2
    &&& c[0] == c[c.len() - 1]
    &&& is_walk(adj, c)
}

/// A closed walk that visits no node twice before returning.
pub open spec fn is_simple_cycle(adj: Seq<Seq<usize>>, c: Seq<usize>) -> bool {
    is_closed_walk(adj, c) && c.take(c.len() - 1).no_duplicates()
}

/// The graph contains a cycle.
pub open spec fn graph_has_cycle(adj: Seq<Seq<usize>>) -> bool {
    exists|c: Seq<usize>| is_closed_walk(adj, c)
}

/// Number of `false` entries.
pub open spec fn count_false(s: Seq<bool>) -> nat
    decreases s.len(),
{
    if s.len() == 0 {
        0
    } else {
        count_false(s.drop_last()) + if s.last() {
            0nat
        } else {
            1nat
        }
    }
}

proof fn lemma_count_false_mono(a: Seq<bool>, b: Seq<bool>, w: int)
    requires
        a.len() == b.len(),
        forall|i: int| 0 <= i < a.len() && #[trigger] a[i] ==> b[i],
    ensures
        count_false(b) <= count_false(a),
        0 <= w < a.len() && !a[w] && b[w] ==> count_false(b) < count_false(a),
    decreases a.len(),
{
    if a.len() > 0 {
        let a2 = a.drop_last();
        let b2 = b.drop_last();
        assert forall|i: int| 0 <= i < a2.len() && #[trigger] a2[i] implies b2[i] by {
            assert(a[i]);
        }
        lemma_count_false_mono(a2, b2, w);
    }
}

/// `c` is a simple cycle of the graph (named apart from `is_simple_cycle`
/// so that statements about all simple cycles fire only on purpose).
pub open spec fn is_cycle_of(adj: Seq<Seq<usize>>, c: Seq<usize>) -> bool {
    is_simple_cycle(adj, c)
}

/// A simple cycle that starts (and ends) at its smallest node.
pub open spec fn is_rooted_cycle(adj: Seq<Seq<usize>>, c: Seq<usize>) -> bool {
    &&& is_simple_cycle(adj, c)
    &&& forall|i: int| 1 <= i < c.len() - 1 ==> #[trigger] c[i] > c[0]
}

/// `c` is a rooted cycle that goes on from the simple path `path`.
pub open spec fn continues(adj: Seq<Seq<usize>>, path: Seq<usize>, c: Seq<usize>) -> bool {
    &&& is_rooted_cycle(adj, c)
    &&& path.len() < c.len()
    &&& c.take(path.len() as int) == path
}

/// `n` keeps the entries of `o` and may add more after them.
pub open spec fn extends(o: Seq<Seq<usize>>, n: Seq<Seq<usize>>) -> bool {
    &&& o.len() <= n.len()
    &&& forall|k: int| 0 <= k < o.len() ==> #[trigger] n[k] == o[k]
}

proof fn lemma_extends_contains(o: Seq<Seq<usize>>, n: Seq<Seq<usize>>, c: Seq<usize>)
    requires
        extends(o, n),
        o.contains(c),
    ensures
        n.contains(c),
{
    let k = choose|k: int| 0 <= k < o.len() && o[k] == c;
    assert(n[k] == c);
}

/// A simple path from its first node through larger nodes.
pub open spec fn rooted_path(adj: Seq<Seq<usize>>, p: Seq<usize>) -> bool {
    &&& p.len() >= 1
    &&& p.no_duplicates()
    &&& forall|i: int| 0 <= i < p.len() ==> #[trigger] p[i] < adj.len()
    &&& forall|i: int| 1 <= i < p.len() ==> #[trigger] p[i] > p[0]
    &&& is_walk(adj, p)
}

/// Record every rooted cycle that goes on from `path`: follow each edge out
/// of the path's last node back to its first node (a cycle) or on to a
/// larger node not yet on the path.
#[verifier::spinoff_prover]
#[verifier::rlimit(60)]
fn extend_path(adj: &Vec<Vec<usize>>, path: &mut Vec<usize>, on_path: &mut Vec<bool>, out: &mut Vec<Vec<usize>>)
    requires
        adj_ok(adj_view(adj@)),
        rooted_path(adj_view(adj@), old(path)@),
        old(on_path)@.len() == adj@.len(),
        forall|v: usize| v < adj@.len() ==> (#[trigger] old(on_path)@[v as int] <==> old(path)@.contains(v)),
        forall|k: int| 0 <= k < old(out)@.len() ==> is_rooted_cycle(adj_view(adj@), #[trigger] old(out)@[k]@),
    ensures
        final(path)@ == old(path)@,
        final(on_path)@ == old(on_path)@,
        extends(adj_view(old(out)@), adj_view(final(out)@)),
        forall|k: int| 0 <= k < final(out)@.len() ==> is_rooted_cycle(adj_view(adj@), #[trigger] final(out)@[k]@),
        forall|c: Seq<usize>| #[trigger] continues(adj_view(adj@), old(path)@, c) ==> adj_view(final(out)@).contains(c),
    decreases count_false(on_path@),
{
    let ghost a = adj_view(adj@);
    let ghost p0 = path@;
    let ghost op0 = on_path@;
    let ghost o0 = adj_view(out@);
    let ghost l = p0.len() as int;
    let s = path[0];
    let last = path[path.len() - 1];
    assert(a[last as int] == adj@[last as int]@);
    let degree = adj[last].len();
    for j in 0..degree
        invariant
            a == adj_view(adj@),
            adj_ok(a),
            rooted_path(a, p0),
            l == p0.len(),
            s == p0[0],
            last == p0[l - 1],
            last < adj@.len(),
            a[last as int] == adj@[last as int]@,
            degree == adj@[last as int]@.len(),
            path@ == p0,
            on_path@ == op0,
            op0 == old(on_path)@,
            op0.len() == adj@.len(),
            forall|v: usize| v < adj@.len() ==> (#[trigger] op0[v as int] <==> p0.contains(v)),
            extends(o0, adj_view(out@)),
            forall|k: int| 0 <= k < out@.len() ==> is_rooted_cycle(a, #[trigger] out@[k]@),
            forall|c: Seq<usize>|
                #[trigger] continues(a, p0, c) && adj@[last as int]@.take(j as int).contains(c[l])
                    ==> adj_view(out@).contains(c),
    {
        let w = adj[last][j];
        let ghost ob = adj_view(out@);
        assert(has_edge(a, last, w)) by {
            assert(a[last as int][j as int] == w);
        }
        if w == s {
            let mut c = copy_nodes(path);
            c.push(s);
            let ghost cv = c@;
            proof {
                assert(cv == p0.push(s));
                assert(cv.take(cv.len() - 1) =~= p0);
                assert forall|i: int| 0 <= i < cv.len() - 1 implies #[trigger] has_edge(a, cv[i], cv[i + 1]) by {
                    if i < l - 1 {
                        assert(has_edge(a, p0[i], p0[i + 1]));
                    }
                }
                assert(is_rooted_cycle(a, cv));
            }
            out.push(c);
            proof {
                let on = adj_view(out@);
                assert(on == ob.push(cv));
                assert(on[ob.len() as int] == cv);
                assert forall|k: int| 0 <= k < out@.len() implies is_rooted_cycle(a, #[trigger] out@[k]@) by {
                    if k < ob.len() {
                        assert(out@[k]@ == on[k]);
                    }
                }
                assert forall|c2: Seq<usize>|
                    #[trigger] continues(a, p0, c2) && adj@[last as int]@.take(j + 1).contains(c2[l])
                        implies on.contains(c2) by {
                    if adj@[last as int]@.take(j as int).contains(c2[l]) {
                        lemma_extends_contains(ob, on, c2);
                    } else {
                        let q = choose|q: int| 0 <= q < j + 1 && #[trigger] adj@[last as int]@.take(j + 1)[q] == c2[l];
                        assert(q == j);
                        assert(c2[l] == s);
                        let core = c2.take(c2.len() - 1);
                        if l < c2.len() - 1 {
                            assert(core[l] == core[0]);
                        }
                        assert(c2 =~= c2.take(l).push(c2[l]));
                    }
                }
            }
        } else if w > s && !on_path[w] {
            proof {
                assert(w < adj@.len());
                assert(!p0.contains(w));
            }
            path.push(w);
            on_path.set(w, true);
            let ghost p1 = path@;
            proof {
                assert(p1 == p0.push(w));
                assert forall|i: int| 0 <= i < p1.len() - 1 implies #[trigger] has_edge(a, p1[i], p1[i + 1]) by {
                    if i < l - 1 {
                        assert(has_edge(a, p0[i], p0[i + 1]));
                    }
                }
                assert(on_path@ == op0.update(w as int, true));
                assert forall|v: usize| v < adj@.len() implies (#[trigger] on_path@[v as int] <==> p1.contains(v)) by {
                    assert(p1[l] == w);
                    if v != w {
                        assert(on_path@[v as int] == op0[v as int]);
                    }
                    if p1.contains(v) && v != w {
                        let i = choose|i: int| 0 <= i < p1.len() && p1[i] == v;
                        assert(p0[i] == v);
                    }
                    if p0.contains(v) {
                        let i = choose|i: int| 0 <= i < p0.len() && p0[i] == v;
                        assert(p1[i] == v);
                    }
                }
                lemma_count_false_mono(op0, on_path@, w as int);
                assert(count_false(on_path@) < count_false(op0));
                assert(rooted_path(a, p1));
            }
            extend_path(adj, path, on_path, out);
            proof {
                let on = adj_view(out@);
                assert forall|c2: Seq<usize>|
                    #[trigger] continues(a, p0, c2) && adj@[last as int]@.take(j + 1).contains(c2[l])
                        implies on.contains(c2) by {
                    if adj@[last as int]@.take(j as int).contains(c2[l]) {
                        lemma_extends_contains(ob, on, c2);
                    } else {
                        let q = choose|q: int| 0 <= q < j + 1 && #[trigger] adj@[last as int]@.take(j + 1)[q] == c2[l];
                        assert(q == j);
                        assert(c2[l] == w);
                        assert(c2[c2.len() - 1] == c2[0]);
                        assert(c2.take(l + 1) =~= p1);
                        assert(continues(a, p1, c2));
                    }
                }
                assert forall|k: int| 0 <= k < o0.len() implies #[trigger] on[k] == o0[k] by {
                    assert(ob[k] == o0[k]);
                    assert(on[k] == ob[k]);
                }
            }
            path.pop();
            on_path.set(w, false);
            proof {
                assert(path@ =~= p0);
                assert(on_path@ =~= op0);
            }
        } else {
            proof {
                assert forall|c2: Seq<usize>|
                    #[trigger] continues(a, p0, c2) && adj@[last as int]@.take(j + 1).contains(c2[l])
                        implies adj_view(out@).contains(c2) by {
                    if !adj@[last as int]@.take(j as int).contains(c2[l]) {
                        let q = choose|q: int| 0 <= q < j + 1 && #[trigger] adj@[last as int]@.take(j + 1)[q] == c2[l];
                        assert(q == j);
                        assert(c2[l] == w);
                        assert(c2[c2.len() - 1] == c2[0]);
                        assert(l < c2.len() - 1);
                        assert(c2[l] > c2[0]);
                        assert(op0[w as int]);
                        let i = choose|i: int| 0 <= i < p0.len() && p0[i] == w;
                        let core = c2.take(c2.len() - 1);
                        assert(core[i] == core[l]);
                    }
                }
            }
        }
    }
    proof {
        assert(adj@[last as int]@.take(adj@[last as int]@.len() as int) == adj@[last as int]@);
        assert forall|c: Seq<usize>| #[trigger] continues(a, p0, c) implies adj_view(out@).contains(c) by {
            let core = c.take(c.len() - 1);
            assert(has_edge(a, c[l - 1], c[(l - 1) + 1]));
            assert(c[l - 1] == last);
        }
    }
}

/// A closed walk contains a simple cycle.
proof fn lemma_simple_within(adj: Seq<Seq<usize>>, c: Seq<usize>)
    requires
        is_closed_walk(adj, c),
    ensures
        exists|d: Seq<usize>| is_simple_cycle(adj, d),
    decreases c.len(),
{
    let core = c.take(c.len() - 1);
    if core.no_duplicates() {
        assert(is_simple_cycle(adj, c));
    } else {
        let (i0, j0) = choose|i: int, j: int| 0 <= i < core.len() && 0 <= j < core.len() && i != j && core[i] == core[j];
        let i = if i0 < j0 { i0 } else { j0 };
        let j = if i0 < j0 { j0 } else { i0 };
        let d = c.subrange(i, j + 1);
        assert forall|k: int| 0 <= k < d.len() - 1 implies #[trigger] has_edge(adj, d[k], d[k + 1]) by {
            assert(has_edge(adj, c[i + k], c[i + k + 1]));
        }
        assert(is_closed_walk(adj, d));
        lemma_simple_within(adj, d);
    }
}

/// Rotating a simple cycle to start at its smallest node gives a rooted
/// cycle.
pub proof fn lemma_normalized_rooted(adj: Seq<Seq<usize>>, c: Seq<usize>)
    requires
        is_simple_cycle(adj, c),
    ensures
        is_rooted_cycle(adj, normalized(c)),
{
    let n = c.len() - 1;
    let core = c.take(n);
    lemma_first_min(core);
    let m = first_min(core);
    let r = rotated(core, m);
    let nc = normalized(c);
    assert(nc == r + seq![core[m]]);
    assert forall|i: int| 0 <= i < n implies #[trigger] r[i] == core[if i + m < n { i + m } else { i + m - n }] by {
        lemma_rotated_index(core, m, i);
    }
    assert(nc.len() == n + 1);
    assert(nc.take(n) =~= r);
    assert forall|i: int, j: int| 0 <= i < n && 0 <= j < n && i != j implies r[i] != r[j] by {
        let pi = if i + m < n { i + m } else { i + m - n };
        let pj = if j + m < n { j + m } else { j + m - n };
        assert(r[i] == core[pi] && r[j] == core[pj]);
    }
    assert(r.no_duplicates());
    assert forall|i: int| 0 <= i < nc.len() - 1 implies #[trigger] has_edge(adj, nc[i], nc[i + 1]) by {
        let pi = if i + m < n { i + m } else { i + m - n };
        assert(nc[i] == r[i]);
        if pi < n - 1 {
            assert(has_edge(adj, c[pi], c[pi + 1]));
            if i < n - 1 {
                assert(nc[i + 1] == r[i + 1]);
            } else {
                assert(nc[i + 1] == core[m]);
            }
        } else {
            assert(has_edge(adj, c[n - 1], c[(n - 1) + 1]));
            assert(c[n] == c[0]);
            if i < n - 1 {
                assert(nc[i + 1] == r[i + 1]);
            } else {
                assert(nc[i + 1] == core[m]);
            }
        }
    }
    assert forall|i: int| 1 <= i < nc.len() - 1 implies #[trigger] nc[i] > nc[0] by {
        assert(nc[i] == r[i] && nc[0] == r[0]);
        let pi = if i + m < n { i + m } else { i + m - n };
        assert(core[m] <= core[pi]);
    }
}

/// A rooted cycle is its own normal form.
pub proof fn lemma_rooted_normal(adj: Seq<Seq<usize>>, c: Seq<usize>)
    requires
        is_rooted_cycle(adj, c),
    ensures
        normalized(c) == c,
{
    let core = c.take(c.len() - 1);
    lemma_first_min(core);
    let m = first_min(core);
    if m > 0 {
        assert(core[m] <= core[0]);
        assert(core[m] > core[0]);
    }
    assert(normalized(c) =~= c);
}

/// Every simple cycle of the graph, each recorded once from its smallest
/// node (starting from the nodes of `roots` in turn), as a closed walk
/// `[v0, v1, ..., v0]` along graph edges.
pub fn find_cycle_walks(adj: &Vec<Vec<usize>>, roots: &Vec<usize>) -> (cycles: Vec<Vec<usize>>)
    requires
        adj_ok(adj_view(adj@)),
        forall|i: int| 0 <= i < roots@.len() ==> #[trigger] roots@[i] < adj@.len(),
        forall|v: usize| v < adj@.len() ==> #[trigger] roots@.contains(v),
    ensures
        forall|k: int| 0 <= k < cycles@.len() ==> is_rooted_cycle(adj_view(adj@), #[trigger] cycles@[k]@),
        forall|c: Seq<usize>|
            #[trigger] is_cycle_of(adj_view(adj@), c) ==> adj_view(cycles@).contains(normalized(c)),
        cycles@.len() == 0 <==> !graph_has_cycle(adj_view(adj@)),
{
    let ghost a = adj_view(adj@);
    let n = adj.len();
    let mut on_path: Vec<bool> = Vec::new();
    for i in 0..n
        invariant
            on_path@.len() == i,
            forall|v: int| 0 <= v < i ==> !on_path@[v],
    {
        on_path.push(false);
    }
    let mut out: Vec<Vec<usize>> = Vec::new();
    for r in 0..roots.len()
        invariant
            a == adj_view(adj@),
            adj_ok(a),
            n == adj@.len(),
            on_path@.len() == n,
            forall|v: int| 0 <= v < n ==> !on_path@[v],
            forall|i: int| 0 <= i < roots@.len() ==> #[trigger] roots@[i] < n,
            forall|k: int| 0 <= k < out@.len() ==> is_rooted_cycle(a, #[trigger] out@[k]@),
            forall|c: Seq<usize>|
                #[trigger] is_rooted_cycle(a, c) && roots@.take(r as int).contains(c[0]) ==> adj_view(out@).contains(c),
    {
        let s = roots[r];
        let ghost ob = adj_view(out@);
        let ghost opb = on_path@;
        let mut path: Vec<usize> = Vec::new();
        path.push(s);
        on_path.set(s, true);
        proof {
            assert forall|v: usize| v < adj@.len() implies (#[trigger] on_path@[v as int] <==> path@.contains(v)) by {
                if path@.contains(v) {
                    assert(path@[0] == v);
                }
                if v == s {
                    assert(path@[0] == s);
                }
            }
            assert(rooted_path(a, path@));
        }
        extend_path(adj, &mut path, &mut on_path, &mut out);
        on_path.set(s, false);
        proof {
            assert forall|v: int| 0 <= v < n implies !on_path@[v] by {
                assert(opb[v] == false);
            }
            assert forall|c: Seq<usize>|
                #[trigger] is_rooted_cycle(a, c) && roots@.take(r + 1).contains(c[0]) implies adj_view(out@).contains(c) by {
                if roots@.take(r as int).contains(c[0]) {
                    lemma_extends_contains(ob, adj_view(out@), c);
                } else {
                    let q = choose|q: int| 0 <= q < r + 1 && #[trigger] roots@.take(r + 1)[q] == c[0];
                    assert(q == r);
                    assert(c.take(1) =~= seq![s]);
                    assert(continues(a, seq![s], c));
                }
            }
        }
    }
    proof {
        assert(roots@.take(roots@.len() as int) == roots@);
        assert forall|c: Seq<usize>| #[trigger] is_cycle_of(a, c) implies adj_view(out@).contains(normalized(c)) by {
            lemma_normalized_rooted(a, c);
            let nc = normalized(c);
            assert(has_edge(a, nc[0], nc[1]));
            assert(roots@.contains(nc[0]));
        }
        if out@.len() > 0 {
            assert(is_rooted_cycle(a, out@[0]@));
            assert(is_closed_walk(a, out@[0]@));
        }
        if graph_has_cycle(a) {
            let c = choose|c: Seq<usize>| is_closed_walk(a, c);
            lemma_simple_within(a, c);
            let d = choose|d: Seq<usize>| is_simple_cycle(a, d);
            assert(is_cycle_of(a, d));
            assert(adj_view(out@).contains(normalized(d)));
        }
    }
    out
}

/// Index of the first smallest element.
pub open spec fn first_min(s: Seq<usize>) -> int
    decreases s.len(),
{
    if s.len() <= 1 {
        0
    } else {
        let m = first_min(s.drop_last());
        if s.last() < s[m] {
            s.len() - 1
        } else {
            m
        }
    }
}

/// The first smallest element lies inside a non-empty sequence and no element is smaller.
pub proof fn lemma_first_min(s: Seq<usize>)
    ensures
        s.len() > 0 ==> 0 <= first_min(s) < s.len(),
        forall|i: int| 0 <= i < s.len() ==> s[first_min(s)] <= #[trigger] s[i],
        forall|i: int| 0 <= i < first_min(s) ==> s[first_min(s)] < #[trigger] s[i],
    decreases s.len(),
{
    if s.len() > 1 {
        let t = s.drop_last();
        lemma_first_min(t);
        let m = first_min(t);
        assert forall|i: int| 0 <= i < t.len() implies t[i] == s[i] by {}
        if s.last() < s[m] {
            assert forall|i: int| 0 <= i < s.len() implies s[first_min(s)] <= #[trigger] s[i] by {
                if i < t.len() {
                    assert(t[m] <= t[i]);
                }
            }
            assert forall|i: int| 0 <= i < first_min(s) implies s[first_min(s)] < #[trigger] s[i] by {
                assert(t[m] <= t[i]);
            }
        } else {
            assert forall|i: int| 0 <= i < s.len() implies s[first_min(s)] <= #[trigger] s[i] by {
                if i < t.len() {
                    assert(t[m] <= t[i]);
                }
            }
            assert forall|i: int| 0 <= i < first_min(s) implies s[first_min(s)] < #[trigger] s[i] by {
                assert(t[m] < t[i]);
            }
        }
    }
}

/// A closed walk `[v0, ..., vk, v0]` rotated so that its smallest node comes
/// first, and closed again with that node.
pub open spec fn normalized(c: Seq<usize>) -> Seq<usize> {
    if c.len() <= 1 {
        c
    } else {
        let core = c.take(c.len() - 1);
        let m = first_min(core);
        core.skip(m) + core.take(m) + seq![core[m]]
    }
}

/// Rotate a cycle so that its smallest node comes first; see `normalized`.
#[verifier::spinoff_prover]
#[verifier::rlimit(40)]
pub fn normalize_cycle(cycle: &Vec<usize>) -> (out: Vec<usize>)
    ensures
        out@ == normalized(cycle@),
{
    let len = cycle.len();
    if len <= 1 {
        let mut out: Vec<usize> = Vec::new();
        for i in 0..len
            invariant
                len == cycle@.len(),
                out@ == cycle@.take(i as int),
        {
            out.push(cycle[i]);
            assert(cycle@.take(i + 1) == cycle@.take(i as int).push(cycle@[i as int]));
        }
        assert(cycle@.take(len as int) == cycle@);
        return out;
    }
    let ghost core = cycle@.take(len - 1);
    let mut m: usize = 0;
    let mut j: usize = 1;
    while j < len - 1
        invariant
            len == cycle@.len(),
            core == cycle@.take(len - 1),
            len >= 2,
            1 <= j <= len - 1,
            m < j,
            m as int == first_min(core.take(j as int)),
        decreases len - 1 - j,
    {
        assert(core.take(j + 1).drop_last() == core.take(j as int));
        if cycle[j] < cycle[m] {
            m = j;
        }
        j = j + 1;
    }
    assert(core.take(len - 1) == core);
    let mut out: Vec<usize> = Vec::new();
    let mut i = m;
    while i < len - 1
        invariant
            len == cycle@.len(),
            len >= 2,
            core == cycle@.take(len - 1),
            m <= i <= len - 1,
            out@ == core.subrange(m as int, i as int),
        decreases len - 1 - i,
    {
        out.push(cycle[i]);
        assert(core.subrange(m as int, i + 1) == core.subrange(m as int, i as int).push(core[i as int]));
        i = i + 1;
    }
    let mut i: usize = 0;
    while i < m
        invariant
            len == cycle@.len(),
            len >= 2,
            m < len - 1,
            core == cycle@.take(len - 1),
            i <= m,
            out@ == core.skip(m as int) + core.take(i as int),
        decreases m - i,
    {
        out.push(cycle[i]);
        assert(core.take(i + 1) == core.take(i as int).push(core[i as int]));
        assert((core.skip(m as int) + core.take(i as int)).push(core[i as int]) =~= core.skip(
            m as int,
        ) + core.take(i + 1));
        i = i + 1;
    }
    out.push(cycle[m]);
    proof {
        assert(core.subrange(m as int, core.len() as int) == core.skip(m as int));
    }
    out
}

/// Element-wise equality of two node sequences.
fn same_nodes(a: &Vec<usize>, b: &Vec<usize>) -> (r: bool)
    ensures
        r == (a@ == b@),
{
    if a.len() != b.len() {
        return false;
    }
    let mut i: usize = 0;
    while i < a.len()
        invariant
            a@.len() == b@.len(),
            i <= a@.len(),
            forall|k: int| 0 <= k < i ==> a@[k] == b@[k],
        decreases a.len() - i,
    {
        if a[i] != b[i] {
            return false;
        }
        i = i + 1;
    }
    assert(a@ =~= b@);
    true
}

/// `us` is `cs[src[0]], cs[src[1]], ...` with `src` ascending, and each
/// `cs[src[k]]` is the first cycle of `cs` with its normal form.
pub open spec fn first_of_each(cs: Seq<Seq<usize>>, us: Seq<Seq<usize>>, src: Seq<int>) -> bool {
    &&& src.len() == us.len()
    &&& forall|k: int| 0 <= k < us.len() ==> 0 <= #[trigger] src[k] < cs.len() && us[k] == cs[src[k]]
    &&& forall|a: int, b: int| 0 <= a < b < src.len() ==> #[trigger] src[a] < #[trigger] src[b]
    &&& forall|k: int, i: int|
        0 <= k < us.len() && 0 <= i < #[trigger] src[k] ==> normalized(#[trigger] cs[i]) != normalized(us[k])
}

/// The normal form of every cycle, in order.
pub open spec fn normal_forms(cs: Seq<Seq<usize>>) -> Seq<Seq<usize>> {
    cs.map_values(|c: Seq<usize>| normalized(c))
}

/// Keep the first cycle of every group of cycles with the same normal form.
#[verifier::spinoff_prover]
#[verifier::rlimit(40)]
pub fn dedup_cycles(cycles: Vec<Vec<usize>>) -> (unique: Vec<Vec<usize>>)
    ensures
        forall|u: int| 0 <= u < unique@.len() ==> adj_view(cycles@).contains(#[trigger] unique@[u]@),
        forall|a: int, b: int|
            0 <= a < b < unique@.len() ==> normalized(#[trigger] unique@[a]@) != normalized(#[trigger] unique@[b]@),
        forall|c: int| 0 <= c < cycles@.len() ==> normal_forms(adj_view(unique@)).contains(normalized(#[trigger] cycles@[c]@)),
        exists|src: Seq<int>| #[trigger] first_of_each(adj_view(cycles@), adj_view(unique@), src),
{
    let mut unique: Vec<Vec<usize>> = Vec::new();
    let mut norms: Vec<Vec<usize>> = Vec::new();
    let ghost mut src: Seq<int> = Seq::empty();
    let ghost mut rep: Seq<int> = Seq::empty();
    let mut j: usize = 0;
    while j < cycles.len()
        invariant
            j <= cycles@.len(),
            norms@.len() == unique@.len(),
            src.len() == unique@.len(),
            rep.len() == j,
            forall|k: int| 0 <= k < norms@.len() ==> #[trigger] norms@[k]@ == normalized(unique@[k]@),
            forall|k: int|
                0 <= k < unique@.len() ==> 0 <= #[trigger] src[k] < j && unique@[k]@ == cycles@[src[k]]@,
            forall|a: int, b: int| 0 <= a < b < src.len() ==> #[trigger] src[a] < #[trigger] src[b],
            forall|k: int, i: int|
                0 <= k < unique@.len() && 0 <= i < #[trigger] src[k] ==> normalized(#[trigger] cycles@[i]@)
                    != norms@[k]@,
            forall|a: int, b: int| 0 <= a < b < norms@.len() ==> #[trigger] norms@[a]@ != #[trigger] norms@[b]@,
            forall|i: int|
                0 <= i < j ==> 0 <= #[trigger] rep[i] < norms@.len() && normalized(cycles@[i]@) == norms@[rep[i]]@,
        decreases cycles.len() - j,
    {
        let nz = normalize_cycle(&cycles[j]);
        let mut found: Option<usize> = None;
        let mut k: usize = 0;
        while k < norms.len()
            invariant
                k <= norms@.len(),
                found matches Some(q) ==> q < norms@.len() && norms@[q as int]@ == nz@,
                found is None ==> forall|q: int| 0 <= q < k ==> #[trigger] norms@[q]@ != nz@,
            decreases norms.len() - k,
        {
            if found.is_none() && same_nodes(&norms[k], &nz) {
                found = Some(k);
            }
            k = k + 1;
        }
        match found {
            Some(q) => {
                proof {
                    rep = rep.push(q as int);
                }
            },
            None => {
                let ghost n0 = norms@;
                let ghost u0 = unique@;
                let c = copy_nodes(&cycles[j]);
                unique.push(c);
                norms.push(nz);
                proof {
                    src = src.push(j as int);
                    rep = rep.push(n0.len() as int);
                    assert forall|k: int| 0 <= k < norms@.len() implies #[trigger] norms@[k]@ == normalized(unique@[k]@) by {
                        if k < n0.len() {
                            assert(norms@[k] == n0[k]);
                            assert(unique@[k] == u0[k]);
                        }
                    }
                    assert forall|a: int, b: int| 0 <= a < b < norms@.len() implies #[trigger] norms@[a]@ != #[trigger] norms@[b]@ by {
                        assert(norms@[a] == n0[a]);
                        if b < n0.len() {
                            assert(norms@[b] == n0[b]);
                        }
                    }
                    assert forall|i: int| 0 <= i < j + 1 implies 0 <= #[trigger] rep[i] < norms@.len() && normalized(cycles@[i]@) == norms@[rep[i]]@ by {
                        if i < j {
                            assert(norms@[rep[i]] == n0[rep[i]]);
                        }
                    }
                    assert forall|k: int| 0 <= k < unique@.len() implies 0 <= #[trigger] src[k] < j + 1 && unique@[k]@ == cycles@[src[k]]@ by {
                        if k < u0.len() {
                            assert(unique@[k] == u0[k]);
                        }
                    }
                    assert forall|k: int, i: int|
                        0 <= k < unique@.len() && 0 <= i < #[trigger] src[k] implies normalized(#[trigger] cycles@[i]@)
                            != norms@[k]@ by {
                        if k < u0.len() {
                            assert(norms@[k] == n0[k]);
                        } else {
                            assert(norms@[n0.len() as int] == nz);
                            assert(normalized(cycles@[i]@) == n0[rep[i]]@);
                        }
                    }
                }
            },
        }
        j = j + 1;
    }
    proof {
        assert forall|k: int| 0 <= k < unique@.len() implies adj_view(cycles@).contains(#[trigger] unique@[k]@) by {
            assert(adj_view(cycles@)[src[k]] == unique@[k]@);
        }
        assert forall|i: int| 0 <= i < cycles@.len() implies normal_forms(adj_view(unique@)).contains(normalized(#[trigger] cycles@[i]@)) by {
            assert(normal_forms(adj_view(unique@))[rep[i]] == normalized(cycles@[i]@));
        }
        assert forall|a: int, b: int|
            0 <= a < b < unique@.len() implies normalized(#[trigger] unique@[a]@) != normalized(#[trigger] unique@[b]@) by {
            assert(norms@[a]@ != norms@[b]@);
        }
        let cv = adj_view(cycles@);
        let uv = adj_view(unique@);
        assert forall|k: int, i: int|
            0 <= k < uv.len() && 0 <= i < #[trigger] src[k] implies normalized(#[trigger] cv[i]) != normalized(uv[k]) by {
            assert(cv[i] == cycles@[i]@);
            assert(norms@[k]@ == normalized(unique@[k]@));
        }
        assert forall|k: int| 0 <= k < uv.len() implies 0 <= #[trigger] src[k] < cv.len() && uv[k] == cv[src[k]] by {
            assert(unique@[k]@ == cycles@[src[k]]@);
        }
        assert(first_of_each(cv, uv, src));
    }
    unique
}

fn copy_nodes(v: &Vec<usize>) -> (out: Vec<usize>)
    ensures
        out@ == v@,
{
    let mut out: Vec<usize> = Vec::new();
    for i in 0..v.len()
        invariant
            out@ == v@.take(i as int),
    {
        out.push(v[i]);
        assert(v@.take(i + 1) == v@.take(i as int).push(v@[i as int]));
    }
    assert(v@.take(v.len() as int) == v@);
    out
}


/// `s` entered at position `k`: `s[k..] + s[..k]`.
pub open spec fn rotated<T>(s: Seq<T>, k: int) -> Seq<T> {
    s.skip(k) + s.take(k)
}

/// `c1` and `c2` are the same closed walk `[m0, ..., m0]` entered at
/// possibly different nodes.
pub open spec fn same_cycle<T>(c1: Seq<T>, c2: Seq<T>) -> bool {
    &&& c1.len() == c2.len()
    &&& c1.len() >= 1
    &&& exists|k: int| 0 <= k < c1.len() - 1 && #[trigger] rotated(c2.take(c2.len() - 1), k) == c1.take(c1.len() - 1)
}

pub(crate) proof fn lemma_rotated_index<T>(s: Seq<T>, k: int, i: int)
    requires
        0 <= k < s.len(),
        0 <= i < s.len(),
    ensures
        rotated(s, k).len() == s.len(),
        rotated(s, k)[i] == if i + k < s.len() {
            s[i + k]
        } else {
            s[i + k - s.len()]
        },
{
}

/// Cycles with distinct nodes that are the same walk entered at different
/// nodes have the same normal form.
pub proof fn lemma_rotation_same_normal(c1: Seq<usize>, c2: Seq<usize>, k: int)
    requires
        c1.len() == c2.len(),
        c2.len() >= 2,
        c2.take(c2.len() - 1).no_duplicates(),
        0 <= k < c2.len() - 1,
        c1.take(c1.len() - 1) == rotated(c2.take(c2.len() - 1), k),
    ensures
        normalized(c1) == normalized(c2),
{
    let n = c2.len() - 1;
    let core1 = c1.take(n);
    let core2 = c2.take(n);
    assert forall|i: int| 0 <= i < n implies core1[i] == if i + k < n {
        core2[i + k]
    } else {
        core2[i + k - n]
    } by {
        lemma_rotated_index(core2, k, i);
    }
    lemma_first_min(core1);
    lemma_first_min(core2);
    let m1 = first_min(core1);
    let m2 = first_min(core2);
    // The position of core2's minimum in core1.
    let j2 = if m2 >= k { m2 - k } else { m2 - k + n };
    assert(core1[j2] == core2[m2]);
    // The position in core2 of core1's minimum.
    let j1 = if m1 + k < n { m1 + k } else { m1 + k - n };
    assert(core2[j1] == core1[m1]);
    assert(core1[m1] <= core1[j2]);
    assert(core2[m2] <= core2[j1]);
    assert(core1[m1] == core2[m2]);
    assert(m1 == j2) by {
        if m1 != j2 {
            // Two positions of core1 holding the same value: core2 repeats it too.
            let i1 = j1;
            let i2 = m2;
            assert(core2[i1] == core2[i2]);
            assert(i1 != i2);
        }
    }
    let r1 = rotated(core1, m1);
    let r2 = rotated(core2, m2);
    assert forall|i: int| 0 <= i < n implies r1[i] == r2[i] by {
        lemma_rotated_index(core1, m1, i);
        lemma_rotated_index(core2, m2, i);
        let p1 = if i + m1 < n { i + m1 } else { i + m1 - n };
        lemma_rotated_index(core2, k, p1);
    }
    assert(r1 =~= r2);
    assert(normalized(c1) == r1 + seq![core1[m1]]);
    assert(normalized(c2) == r2 + seq![core2[m2]]);
}
} // verus!
