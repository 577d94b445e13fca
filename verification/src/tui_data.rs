//! Data derived from a lint result for the assistant's lists: the flat
//! finding list, its filter haystacks and the unused-code findings.

use vstd::prelude::*;

use crate::rule::{LintError, LintErrorModel};
use crate::text::{
    chars_lt,
    chars_of,
    has_prefix,
    lemma_lex_order,
    lemma_lex_trans,
    lex_lt,
    starts_with_chars,
    string_from_chars,
    to_lowercase,
};
use crate::tui_model::{entry_view, haystack_of, AppState, LintState, UnusedFinding};

verus! {

broadcast use vstd::seq_lib::group_to_multiset_ensures;

/// The findings of each file with the file's path, file by file.
pub open spec fn flat_errors(fe: Seq<(String, Vec<LintError>)>) -> Seq<(Seq<char>, LintErrorModel)>
    decreases fe.len(),
{
    if fe.len() == 0 {
        Seq::empty()
    } else {
        flat_errors(fe.drop_last()) + fe.last().1@.map_values(|e: LintError| (fe.last().0@, e@))
    }
}

/// The lower-case filter haystack of one finding (full Unicode lower-casing,
/// as the filter text is lower-cased).
fn haystack(path: &String, err: &LintError) -> (h: String)
    ensures
        h@ == haystack_of((*path, *err)),
{
    let mut raw: Vec<char> = chars_of(path.as_str());
    raw.push('\0');
    let r = chars_of(err.rule.as_str());
    let m = chars_of(err.message.as_str());
    let ghost p0 = raw@;
    for i in 0..r.len()
        invariant
            raw@ == p0 + r@.take(i as int),
    {
        raw.push(r[i]);
        assert(r@.take(i + 1) == r@.take(i as int).push(r@[i as int]));
    }
    assert(r@.take(r.len() as int) == r@);
    raw.push('\0');
    let ghost p1 = raw@;
    for i in 0..m.len()
        invariant
            raw@ == p1 + m@.take(i as int),
    {
        raw.push(m[i]);
        assert(m@.take(i + 1) == m@.take(i as int).push(m@[i as int]));
    }
    assert(m@.take(m.len() as int) == m@);
    let ghost full = path@ + seq!['\0'] + err.rule@ + seq!['\0'] + err.message@;
    assert(raw@ == full);
    let joined = string_from_chars(&raw);
    to_lowercase(joined.as_str())
}

/// `new` is `old` with the flat findings (and their haystacks) rebuilt from
/// the current lint result.
pub open spec fn rebuilt(old: AppState, new: AppState) -> bool {
    &&& new == (AppState {
        lint: LintState {
            base_errors: new.lint.base_errors,
            filter_haystacks: new.lint.filter_haystacks,
            ..old.lint
        },
        ..old
    })
    &&& new.lint.base_errors@.map_values(|e: (String, LintError)| entry_view(e)) == match old.lint.result {
        Some(r) => flat_errors(r.file_errors@),
        None => Seq::empty(),
    }
    &&& new.lint.filter_haystacks@.len() == new.lint.base_errors@.len()
    &&& forall|i: int| 0 <= i < new.lint.base_errors@.len() ==> #[trigger] new.lint.filter_haystacks@[i]@
        == haystack_of(new.lint.base_errors@[i])
}

/// Rebuild the flat finding list and its filter haystacks from the current
/// lint result.
pub fn rebuild_base_errors(state: &mut AppState)
    ensures
        rebuilt(*old(state), *final(state)),
{
    let mut flat: Vec<(String, LintError)> = Vec::new();
    let mut hays: Vec<String> = Vec::new();
    match &state.lint.result {
        Some(r) => {
            for f in 0..r.file_errors.len()
                invariant
                    flat@.map_values(|e: (String, LintError)| entry_view(e)) == flat_errors(r.file_errors@.take(f as int)),
                    hays@.len() == flat@.len(),
                    forall|i: int| 0 <= i < flat@.len() ==> #[trigger] hays@[i]@ == haystack_of(flat@[i]),
            {
                let path = &r.file_errors[f].0;
                let errs = &r.file_errors[f].1;
                let ghost fe1 = r.file_errors@.take(f + 1);
                assert(fe1.drop_last() == r.file_errors@.take(f as int));
                assert(fe1.last() == r.file_errors@[f as int]);
                let ghost base = flat@.map_values(|e: (String, LintError)| entry_view(e));
                let ghost mk = |e: LintError| (path@, e@);
                for k in 0..errs.len()
                    invariant
                        mk == (|e: LintError| (path@, e@)),
                        flat@.map_values(|e: (String, LintError)| entry_view(e)) == base + errs@.take(k as int).map_values(mk),
                        hays@.len() == flat@.len(),
                        forall|i: int| 0 <= i < flat@.len() ==> #[trigger] hays@[i]@ == haystack_of(flat@[i]),
                {
                    let e = errs[k].duplicate();
                    let h = haystack(path, &errs[k]);
                    let ghost f0 = flat@;
                    let entry = (path.clone(), e);
                    proof {
                        assert(haystack_of(entry) == haystack_of((*path, errs@[k as int])));
                    }
                    flat.push(entry);
                    hays.push(h);
                    proof {
                        assert(flat@.map_values(|e: (String, LintError)| entry_view(e)) == f0.map_values(|e: (String, LintError)| entry_view(e)).push(entry_view(flat@.last())));
                        assert(errs@.take(k + 1).map_values(mk) == errs@.take(k as int).map_values(mk).push(mk(errs@[k as int])));
                        assert(errs@.take(k + 1) == errs@.take(k as int).push(errs@[k as int]));
                    }
                }
                assert(errs@.take(errs.len() as int) == errs@);
                assert(errs@.map_values(mk) =~= fe1.last().1@.map_values(|e: LintError| (fe1.last().0@, e@)));
                assert(flat_errors(fe1) == flat_errors(r.file_errors@.take(f as int)) + errs@.map_values(mk));
            }
            assert(r.file_errors@.take(r.file_errors.len() as int) == r.file_errors@);
        },
        None => {
            assert(flat@.map_values(|e: (String, LintError)| entry_view(e)) =~= Seq::<(Seq<char>, LintErrorModel)>::empty());
        },
    }
    state.lint.base_errors = flat;
    state.lint.filter_haystacks = hays;
}

// ── Unused-code findings ─────────────────────────────────────────────

/// Rules whose findings are unused-code findings start with this name.
pub open spec fn unused_rule_prefix() -> Seq<char> {
    "NoUnused"@
}

/// An unused-code finding taken by (kind, name, path, line).
pub open spec fn finding_view(f: UnusedFinding) -> (Seq<char>, Seq<char>, Seq<char>, int) {
    (f.kind@, f.name@, f.file_path@, f.line as int)
}

/// The unused-code finding of a flat lint finding.
pub open spec fn finding_of(e: (Seq<char>, LintErrorModel)) -> (Seq<char>, Seq<char>, Seq<char>, int) {
    (e.1.rule, e.1.message, e.0, e.1.span.start.line as int)
}

/// The flat findings of an unused-code rule, as unused-code findings.
pub open spec fn unused_candidates(base: Seq<(Seq<char>, LintErrorModel)>) -> Seq<(Seq<char>, Seq<char>, Seq<char>, int)> {
    base.filter(|e: (Seq<char>, LintErrorModel)| has_prefix(e.1.rule, unused_rule_prefix())).map_values(
        |e: (Seq<char>, LintErrorModel)| finding_of(e),
    )
}

/// `a` sorts before `b`: by path, then by line.
pub open spec fn finding_lt(a: (Seq<char>, Seq<char>, Seq<char>, int), b: (Seq<char>, Seq<char>, Seq<char>, int)) -> bool {
    lex_lt(a.2, b.2) || (a.2 == b.2 && a.3 < b.3)
}

/// No finding sorts before an earlier one.
pub open spec fn findings_sorted(v: Seq<(Seq<char>, Seq<char>, Seq<char>, int)>) -> bool {
    forall|a: int, b: int| 0 <= a < b < v.len() ==> !finding_lt(#[trigger] v[b], #[trigger] v[a])
}

proof fn lemma_finding_order(
    x: (Seq<char>, Seq<char>, Seq<char>, int),
    y: (Seq<char>, Seq<char>, Seq<char>, int),
    z: (Seq<char>, Seq<char>, Seq<char>, int),
)
    ensures
        finding_lt(x, y) && finding_lt(y, z) ==> finding_lt(x, z),
        finding_lt(x, y) ==> !finding_lt(y, x),
{
    lemma_lex_order(x.2, y.2);
    lemma_lex_order(y.2, z.2);
    lemma_lex_order(x.2, z.2);
    if lex_lt(x.2, y.2) && lex_lt(y.2, z.2) {
        lemma_lex_trans(x.2, y.2, z.2);
    }
}

/// Flat findings, each by its path and content.
pub open spec fn flat_view(v: Seq<(String, LintError)>) -> Seq<(Seq<char>, LintErrorModel)> {
    v.map_values(|e: (String, LintError)| entry_view(e))
}

/// Unused-code findings, each as (kind, name, path, line).
pub open spec fn findings_view(v: Seq<UnusedFinding>) -> Seq<(Seq<char>, Seq<char>, Seq<char>, int)> {
    v.map_values(|f: UnusedFinding| finding_view(f))
}

/// `v` lists `src` reordered by `perm` (each index of `src` once), and
/// findings at the same path and line keep their order in `src`.
pub open spec fn stable_reorder(
    src: Seq<(Seq<char>, Seq<char>, Seq<char>, int)>,
    v: Seq<(Seq<char>, Seq<char>, Seq<char>, int)>,
    perm: Seq<int>,
) -> bool {
    &&& perm.len() == v.len()
    &&& v.len() == src.len()
    &&& perm.no_duplicates()
    &&& forall|a: int| 0 <= a < perm.len() ==> 0 <= #[trigger] perm[a] < src.len()
    &&& forall|a: int| 0 <= a < v.len() ==> #[trigger] v[a] == src[perm[a]]
    &&& forall|a: int, b: int|
        0 <= a < b < v.len() && !finding_lt(#[trigger] v[a], #[trigger] v[b]) && !finding_lt(v[b], v[a])
            ==> perm[a] < perm[b]
}

proof fn lemma_before_not_after(
    x: (Seq<char>, Seq<char>, Seq<char>, int),
    y: (Seq<char>, Seq<char>, Seq<char>, int),
    z: (Seq<char>, Seq<char>, Seq<char>, int),
)
    requires
        finding_lt(x, y),
        !finding_lt(z, y),
    ensures
        finding_lt(x, z),
{
    lemma_lex_order(x.2, y.2);
    lemma_lex_order(y.2, z.2);
    lemma_lex_order(x.2, z.2);
    lemma_lex_order(z.2, y.2);
    if lex_lt(x.2, y.2) && lex_lt(y.2, z.2) {
        lemma_lex_trans(x.2, y.2, z.2);
    }
}

/// Whether `a` sorts before `b` (by path, then line).
fn finding_before(a: &UnusedFinding, b: &UnusedFinding) -> (r: bool)
    ensures
        r == finding_lt(finding_view(*a), finding_view(*b)),
{
    let pa = chars_of(a.file_path.as_str());
    let pb = chars_of(b.file_path.as_str());
    if chars_lt(&pa, &pb) {
        true
    } else if chars_lt(&pb, &pa) {
        false
    } else {
        proof {
            lemma_lex_order(pa@, pb@);
        }
        a.line < b.line
    }
}

/// Derive the unused-code findings from the flat lint findings: those of
/// rules named `NoUnused...`, ordered by path and line.
pub fn derive_unused_findings(base_errors: &Vec<(String, LintError)>) -> (findings: Vec<UnusedFinding>)
    ensures
        findings_sorted(findings@.map_values(|f: UnusedFinding| finding_view(f))),
        findings@.map_values(|f: UnusedFinding| finding_view(f)).to_multiset() == unused_candidates(
            base_errors@.map_values(|e: (String, LintError)| entry_view(e)),
        ).to_multiset(),
        exists|perm: Seq<int>|
            #[trigger] stable_reorder(unused_candidates(flat_view(base_errors@)), findings_view(findings@), perm),
{
    let ghost bv = base_errors@.map_values(|e: (String, LintError)| entry_view(e));
    let ghost keep = |e: (Seq<char>, LintErrorModel)| has_prefix(e.1.rule, unused_rule_prefix());
    let ghost fv = |e: (Seq<char>, LintErrorModel)| finding_of(e);
    let prefix = chars_of("NoUnused");
    let mut out: Vec<UnusedFinding> = Vec::new();
    let ghost mut perm: Seq<int> = Seq::empty();
    for i in 0..base_errors.len()
        invariant
            stable_reorder(
                bv.take(i as int).filter(keep).map_values(fv),
                out@.map_values(|f: UnusedFinding| finding_view(f)),
                perm,
            ),
            bv == base_errors@.map_values(|e: (String, LintError)| entry_view(e)),
            keep == (|e: (Seq<char>, LintErrorModel)| has_prefix(e.1.rule, unused_rule_prefix())),
            fv == (|e: (Seq<char>, LintErrorModel)| finding_of(e)),
            prefix@ == unused_rule_prefix(),
            findings_sorted(out@.map_values(|f: UnusedFinding| finding_view(f))),
            out@.map_values(|f: UnusedFinding| finding_view(f)).to_multiset() == bv.take(i as int).filter(keep).map_values(
                fv,
            ).to_multiset(),
    {
        proof {
            reveal(Seq::filter);
            assert(bv.take(i + 1).drop_last() == bv.take(i as int));
            assert(bv.take(i + 1).last() == bv[i as int]);
        }
        let (path, err) = (&base_errors[i].0, &base_errors[i].1);
        let rule = chars_of(err.rule.as_str());
        let ghost pre = bv.take(i as int).filter(keep);
        if starts_with_chars(&rule, &prefix) {
            let f = UnusedFinding {
                kind: err.rule.clone(),
                name: err.message.clone(),
                file_path: path.clone(),
                line: err.span.start.line as usize,
            };
            let mut p: usize = 0;
            while p < out.len() && !finding_before(&f, &out[p])
                invariant
                    p <= out@.len(),
                    forall|q: int| 0 <= q < p ==> !finding_lt(finding_view(f), #[trigger] finding_view(out@[q])),
                decreases out.len() - p,
            {
                p = p + 1;
            }
            let ghost o0 = out@.map_values(|f: UnusedFinding| finding_view(f));
            let ghost x = finding_view(f);
            out.insert(p, f);
            proof {
                let o1 = out@.map_values(|f: UnusedFinding| finding_view(f));
                assert(o1 == o0.insert(p as int, x));
                assert(x == fv(bv[i as int]));
                assert(bv.take(i + 1).filter(keep) == pre.push(bv[i as int]));
                assert(pre.push(bv[i as int]).map_values(fv) == pre.map_values(fv).push(x));
                assert(pre.map_values(fv).push(x) == pre.map_values(fv).insert(pre.map_values(fv).len() as int, x));
                assert forall|a: int, b: int| 0 <= a < b < o1.len() implies !finding_lt(#[trigger] o1[b], #[trigger] o1[a]) by {
                    if b < p {
                        assert(o1[a] == o0[a] && o1[b] == o0[b]);
                    } else if b == p {
                        assert(o1[a] == o0[a]);
                        assert(finding_view(out@[a]) == o0[a]);
                    } else if a < p {
                        assert(o1[a] == o0[a] && o1[b] == o0[b - 1]);
                    } else if a == p {
                        assert(o1[b] == o0[b - 1]);
                        if p < o0.len() {
                            assert(finding_lt(x, o0[p as int]));
                            if b - 1 > p {
                                assert(!finding_lt(o0[b - 1], o0[p as int]));
                            }
                            lemma_finding_order(o0[b - 1], x, o0[p as int]);
                            lemma_finding_order(x, o0[p as int], o0[p as int]);
                        }
                    } else {
                        assert(o1[a] == o0[a - 1] && o1[b] == o0[b - 1]);
                    }
                }
                let c0 = pre.map_values(fv);
                let c1 = c0.push(x);
                let m = c0.len() as int;
                let perm1 = perm.insert(p as int, m);
                assert(bv.take(i + 1).filter(keep).map_values(fv) == c1);
                assert forall|a: int| 0 <= a < perm1.len() implies 0 <= #[trigger] perm1[a] < c1.len() by {
                    if a < p {
                        assert(perm1[a] == perm[a]);
                    } else if a > p {
                        assert(perm1[a] == perm[a - 1]);
                    }
                }
                assert forall|a: int| 0 <= a < o1.len() implies #[trigger] o1[a] == c1[perm1[a]] by {
                    if a < p {
                        assert(perm1[a] == perm[a] && o1[a] == o0[a]);
                    } else if a > p {
                        assert(perm1[a] == perm[a - 1] && o1[a] == o0[a - 1]);
                    }
                }
                assert forall|a: int, b: int| 0 <= a < b < perm1.len() implies #[trigger] perm1[a] != #[trigger] perm1[b] by {
                    if a < p && b < p {
                        assert(perm1[a] == perm[a] && perm1[b] == perm[b]);
                    } else if a < p && b == p {
                        assert(perm1[a] == perm[a]);
                    } else if a < p {
                        assert(perm1[a] == perm[a] && perm1[b] == perm[b - 1]);
                    } else if a == p {
                        assert(perm1[b] == perm[b - 1]);
                    } else {
                        assert(perm1[a] == perm[a - 1] && perm1[b] == perm[b - 1]);
                    }
                }
                assert forall|a: int, b: int|
                    0 <= a < b < o1.len() && !finding_lt(#[trigger] o1[a], #[trigger] o1[b]) && !finding_lt(o1[b], o1[a])
                    implies perm1[a] < perm1[b] by {
                    if a < p && b < p {
                        assert(perm1[a] == perm[a] && perm1[b] == perm[b]);
                        assert(o1[a] == o0[a] && o1[b] == o0[b]);
                    } else if a < p && b == p {
                        assert(perm1[a] == perm[a]);
                    } else if a < p {
                        assert(perm1[a] == perm[a] && perm1[b] == perm[b - 1]);
                        assert(o1[a] == o0[a] && o1[b] == o0[b - 1]);
                    } else if a == p {
                        assert(o1[b] == o0[b - 1]);
                        assert(p < o0.len());
                        assert(finding_lt(x, o0[p as int]));
                        if b - 1 > p {
                            assert(!finding_lt(o0[b - 1], o0[p as int]));
                            lemma_before_not_after(x, o0[p as int], o0[b - 1]);
                        }
                    } else {
                        assert(perm1[a] == perm[a - 1] && perm1[b] == perm[b - 1]);
                        assert(o1[a] == o0[a - 1] && o1[b] == o0[b - 1]);
                    }
                }
                assert(stable_reorder(c1, o1, perm1));
                perm = perm1;
            }
        } else {
            proof {
                assert(!keep(bv[i as int]));
                assert(bv.take(i + 1).filter(keep) == pre);
            }
        }
    }
    assert(bv.take(base_errors.len() as int) == bv);
    assert(stable_reorder(unused_candidates(flat_view(base_errors@)), findings_view(out@), perm));
    out
}


/// A list of distinct indices below its length names every index below it.
proof fn lemma_perm_onto(perm: Seq<int>, i: int)
    requires
        perm.no_duplicates(),
        forall|a: int| 0 <= a < perm.len() ==> 0 <= #[trigger] perm[a] < perm.len(),
        0 <= i < perm.len(),
    ensures
        exists|a: int| 0 <= a < perm.len() && perm[a] == i,
{
    let n = perm.len() as int;
    let r = vstd::set_lib::set_int_range(0, n);
    vstd::set_lib::lemma_int_range(0, n);
    perm.unique_seq_to_set();
    assert(perm.to_set().subset_of(r)) by {
        assert forall|x: int| perm.to_set().contains(x) implies r.contains(x) by {
            assert(perm.contains(x));
            let a = choose|a: int| 0 <= a < perm.len() && perm[a] == x;
            assert(0 <= perm[a] < n);
        }
    }
    perm.lemma_cardinality_of_set();
    vstd::set_lib::lemma_subset_equality(perm.to_set(), r);
    assert(r.contains(i));
    assert(perm.to_set().contains(i));
    assert(perm.contains(i));
}

proof fn lemma_stable_orders_agree(
    src: Seq<(Seq<char>, Seq<char>, Seq<char>, int)>,
    v1: Seq<(Seq<char>, Seq<char>, Seq<char>, int)>,
    p1: Seq<int>,
    v2: Seq<(Seq<char>, Seq<char>, Seq<char>, int)>,
    p2: Seq<int>,
    n: int,
)
    requires
        findings_sorted(v1),
        findings_sorted(v2),
        stable_reorder(src, v1, p1),
        stable_reorder(src, v2, p2),
        0 <= n <= src.len(),
    ensures
        forall|k: int| 0 <= k < n ==> #[trigger] p1[k] == p2[k],
    decreases n,
{
    if n > 0 {
        lemma_stable_orders_agree(src, v1, p1, v2, p2, n - 1);
        let a = n - 1;
        let i1 = p1[a];
        let i2 = p2[a];
        if i1 != i2 {
            lemma_perm_onto(p1, i2);
            let c = choose|c: int| 0 <= c < p1.len() && p1[c] == i2;
            lemma_perm_onto(p2, i1);
            let c2 = choose|c2: int| 0 <= c2 < p2.len() && p2[c2] == i1;
            if c < a {
                assert(p1[c] == p2[c]);
                assert(p2[c] != p2[a]);
            }
            if c2 < a {
                assert(p1[c2] == p2[c2]);
                assert(p1[c2] != p1[a]);
            }
            assert(c > a && c2 > a);
            assert(v1[a] == src[i1] && v1[c] == src[i2]);
            assert(v2[a] == src[i2] && v2[c2] == src[i1]);
            assert(!finding_lt(v1[c], v1[a]));
            assert(!finding_lt(v2[c2], v2[a]));
            assert(p1[a] < p1[c]);
            assert(p2[a] < p2[c2]);
        }
    }
}

/// The sorted, stable reordering of a list of findings is unique: two
/// results that are each sorted by path and line and keep equal keys in
/// their source order are the same list.
pub proof fn lemma_stable_sort_unique(
    src: Seq<(Seq<char>, Seq<char>, Seq<char>, int)>,
    v1: Seq<(Seq<char>, Seq<char>, Seq<char>, int)>,
    p1: Seq<int>,
    v2: Seq<(Seq<char>, Seq<char>, Seq<char>, int)>,
    p2: Seq<int>,
)
    requires
        findings_sorted(v1),
        findings_sorted(v2),
        stable_reorder(src, v1, p1),
        stable_reorder(src, v2, p2),
    ensures
        v1 == v2,
{
    lemma_stable_orders_agree(src, v1, p1, v2, p2, src.len() as int);
    assert forall|k: int| 0 <= k < v1.len() implies v1[k] == v2[k] by {
        assert(p1[k] == p2[k]);
    }
    assert(v1 =~= v2);
}
} // verus!
