//! The outcome of a lint run: findings and sources per file, with totals.

use vstd::prelude::*;

use crate::fix::{edit_ops, edits_accepted, on_char_boundaries};
use crate::rule::{LintError, LintErrorModel, Severity};
use crate::sorting::{keys_sorted, sort_by_key};
use crate::text::{lemma_lex_order, lex_lt};
use vstd::utf8::encode_utf8;

verus! {

/// The result of a lint run.
///
/// `file_errors` holds the files with at least one finding and `sources` the
/// text of every linted file; both are ordered by path, each path once.
pub struct LintResult {
    /// Per-file lint errors.
    pub file_errors: Vec<(String, Vec<LintError>)>,
    /// Per-file source text.
    pub sources: Vec<(String, String)>,
    /// Total number of findings (errors and warnings).
    pub total_errors: usize,
    /// Total warning count.
    pub total_warnings: usize,
    /// Total fixable finding count.
    pub total_fixable: usize,
    /// Whether the result came from cache.
    pub cached: bool,
    /// Duration of the lint run, in nanoseconds.
    pub elapsed_ns: u64,
    /// Number of files that failed to parse.
    pub parse_error_count: usize,
    /// Number of files linted.
    pub files_linted: usize,
    /// Number of active rules.
    pub rules_active: usize,
}

/// The paths of a per-file list strictly ascend (so each occurs once).
pub open spec fn paths_ascending<T>(v: Seq<(String, T)>) -> bool {
    forall|a: int, b: int| 0 <= a < b < v.len() ==> lex_lt(#[trigger] v[a].0@, #[trigger] v[b].0@)
}

impl LintResult {
    /// Files and sources are each listed once, by ascending path.
    pub open spec fn wf(self) -> bool {
        &&& paths_ascending(self.file_errors@)
        &&& paths_ascending(self.sources@)
    }
}

/// A duration given in nanoseconds, rounded to the nearest whole millisecond;
/// a duration exactly halfway between two goes to the even one.
pub open spec fn rounded_ms(ns: nat) -> nat {
    let q = ns / 1_000_000;
    let r = ns % 1_000_000;
    if r > 500_000 || (r == 500_000 && q % 2 == 1) {
        q + 1
    } else {
        q
    }
}

impl LintResult {
    /// The duration of the run in whole milliseconds, rounded to nearest.
    pub fn elapsed_whole_ms(&self) -> (ms: u64)
        ensures
            ms == rounded_ms(self.elapsed_ns as nat),
    {
        let q: u64 = self.elapsed_ns / 1_000_000;
        let r: u64 = self.elapsed_ns % 1_000_000;
        if r > 500_000 || (r == 500_000 && q % 2 == 1) {
            q + 1
        } else {
            q
        }
    }
}


broadcast use vstd::seq_lib::group_to_multiset_ensures;

/// The findings of each file's results, file by file.
pub open spec fn findings_of(results: Seq<(String, String, Vec<LintError>)>) -> Seq<LintError>
    decreases results.len(),
{
    if results.len() == 0 {
        Seq::empty()
    } else {
        findings_of(results.drop_last()) + results.last().2@
    }
}

/// How many findings are warnings.
pub open spec fn warning_count(s: Seq<LintError>) -> nat {
    s.filter(|e: LintError| e.severity == Severity::Warning).len()
}

/// How many findings carry a fix.
pub open spec fn fixable_count(s: Seq<LintError>) -> nat {
    s.filter(|e: LintError| e.fix is Some).len()
}

/// Give every finding of a rule the severity configured for it, or the
/// rule's default severity when none is configured.
pub fn apply_rule_severity(errors: &mut Vec<LintError>, configured: Option<Severity>, default: Severity)
    ensures
        final(errors)@.len() == old(errors)@.len(),
        forall|i: int|
            0 <= i < old(errors)@.len() ==> (#[trigger] final(errors)@[i])@ == (LintErrorModel {
                severity: match configured {
                    Some(s) => s,
                    None => default,
                },
                ..old(errors)@[i]@
            }),
{
    let sev = match configured {
        Some(s) => s,
        None => default,
    };
    let mut out: Vec<LintError> = Vec::new();
    for i in 0..errors.len()
        invariant
            out@.len() == i,
            forall|k: int| 0 <= k < i ==> (#[trigger] out@[k])@ == (LintErrorModel { severity: sev, ..errors@[k]@ }),
    {
        let mut e = errors[i].duplicate();
        e.severity = sev;
        out.push(e);
    }
    *errors = out;
}

/// Some result is for file `p`.
pub open spec fn path_listed(t: Seq<(String, String, Vec<LintError>)>, p: Seq<char>) -> bool {
    exists|j: int| 0 <= j < t.len() && #[trigger] t[j].0@ == p
}

/// Some result with at least one finding is for file `p`.
pub open spec fn findings_listed(t: Seq<(String, String, Vec<LintError>)>, p: Seq<char>) -> bool {
    exists|j: int| 0 <= j < t.len() && #[trigger] t[j].0@ == p && t[j].2@.len() > 0
}

/// The (path, source) pair of the last result for each file, in order.
pub open spec fn result_sources(results: Seq<(String, String, Vec<LintError>)>) -> Seq<(String, String)>
    decreases results.len(),
{
    if results.len() == 0 {
        Seq::empty()
    } else {
        let rest = result_sources(results.drop_first());
        if path_listed(results.drop_first(), results[0].0@) {
            rest
        } else {
            seq![(results[0].0, results[0].1)] + rest
        }
    }
}

/// The (path, findings) pair of the last result with findings for each
/// file, in order.
pub open spec fn result_findings(results: Seq<(String, String, Vec<LintError>)>) -> Seq<(String, Vec<LintError>)>
    decreases results.len(),
{
    if results.len() == 0 {
        Seq::empty()
    } else {
        let rest = result_findings(results.drop_first());
        if results[0].2@.len() == 0 || findings_listed(results.drop_first(), results[0].0@) {
            rest
        } else {
            seq![(results[0].0, results[0].2)] + rest
        }
    }
}

/// A pair list has an entry for `p`.
pub open spec fn has_key<T>(v: Seq<(String, T)>, p: Seq<char>) -> bool {
    exists|a: int| 0 <= a < v.len() && #[trigger] v[a].0@ == p
}

/// Whether `v` has an entry for `p`.
fn key_present<T>(v: &Vec<(String, T)>, p: &String) -> (r: bool)
    ensures
        r == has_key(v@, p@),
{
    let mut a: usize = 0;
    while a < v.len()
        invariant
            a <= v@.len(),
            forall|q: int| 0 <= q < a ==> v@[q].0@ != p@,
        decreases v.len() - a,
    {
        if v[a].0 == *p {
            assert(v@[a as int].0@ == p@);
            return true;
        }
        a = a + 1;
    }
    false
}

proof fn lemma_push_new_key<T>(s0: Seq<(String, T)>, x: (String, T))
    requires
        forall|a: int, b: int| 0 <= a < b < s0.len() ==> #[trigger] s0[a].0@ != #[trigger] s0[b].0@,
        !has_key(s0, x.0@),
    ensures
        forall|a: int, b: int| 0 <= a < b < s0.push(x).len() ==> #[trigger] s0.push(x)[a].0@ != #[trigger] s0.push(
            x,
        )[b].0@,
{
    let s1 = s0.push(x);
    assert forall|a: int, b: int| 0 <= a < b < s1.len() implies #[trigger] s1[a].0@ != #[trigger] s1[b].0@ by {
        assert(s1[a] == s0[a]);
        if b < s0.len() {
            assert(s1[b] == s0[b]);
            assert(s0[a].0@ != s0[b].0@);
        } else {
            assert(b == s0.len());
            assert(s1[b] == x);
            if s0[a].0@ == x.0@ {
                assert(has_key(s0, x.0@));
            }
        }
    }
}

proof fn lemma_listed_cons(t: Seq<(String, String, Vec<LintError>)>, m: int, p: Seq<char>)
    requires
        0 <= m < t.len(),
    ensures
        path_listed(t.skip(m), p) <==> t[m].0@ == p || path_listed(t.skip(m + 1), p),
        findings_listed(t.skip(m), p) <==> (t[m].0@ == p && t[m].2@.len() > 0) || findings_listed(t.skip(m + 1), p),
{
    let u = t.skip(m);
    let w = t.skip(m + 1);
    assert(u[0] == t[m]);
    assert forall|j: int| 0 <= j < w.len() implies #[trigger] w[j] == u[j + 1] by {}
    if path_listed(u, p) {
        let j = choose|j: int| 0 <= j < u.len() && #[trigger] u[j].0@ == p;
        if j > 0 {
            assert(w[j - 1] == u[j]);
        }
    }
    if path_listed(w, p) {
        let j = choose|j: int| 0 <= j < w.len() && #[trigger] w[j].0@ == p;
        assert(u[j + 1] == w[j]);
    }
    if findings_listed(u, p) {
        let j = choose|j: int| 0 <= j < u.len() && #[trigger] u[j].0@ == p && u[j].2@.len() > 0;
        if j > 0 {
            assert(w[j - 1] == u[j]);
        }
    }
    if findings_listed(w, p) {
        let j = choose|j: int| 0 <= j < w.len() && #[trigger] w[j].0@ == p && w[j].2@.len() > 0;
        assert(u[j + 1] == w[j]);
    }
}

proof fn lemma_sorted_distinct_ascending<T>(v: Seq<(String, T)>)
    requires
        keys_sorted(v),
        forall|a: int, b: int| 0 <= a < b < v.len() ==> #[trigger] v[a].0@ != #[trigger] v[b].0@,
    ensures
        paths_ascending(v),
{
    assert forall|a: int, b: int| 0 <= a < b < v.len() implies lex_lt(#[trigger] v[a].0@, #[trigger] v[b].0@) by {
        lemma_lex_order(v[a].0@, v[b].0@);
    }
}

proof fn lemma_distinct_keys_kept<T>(v: Seq<(String, T)>, w: Seq<(String, T)>)
    requires
        v.to_multiset() == w.to_multiset(),
        forall|a: int, b: int| 0 <= a < b < w.len() ==> #[trigger] w[a].0@ != #[trigger] w[b].0@,
    ensures
        forall|a: int, b: int| 0 <= a < b < v.len() ==> #[trigger] v[a].0@ != #[trigger] v[b].0@,
{
    assert forall|a: int, b: int| 0 <= a < b < v.len() implies #[trigger] v[a].0@ != #[trigger] v[b].0@ by {
        if v[a].0@ == v[b].0@ {
            assert(w.contains(v[a])) by {
                assert(v.contains(v[a]));
                assert(v.to_multiset().count(v[a]) > 0);
            }
            assert(w.contains(v[b])) by {
                assert(v.contains(v[b]));
                assert(v.to_multiset().count(v[b]) > 0);
            }
            let i = choose|i: int| 0 <= i < w.len() && w[i] == v[a];
            let j = choose|j: int| 0 <= j < w.len() && w[j] == v[b];
            if i == j {
                assert(w.no_duplicates() ==> false) by {
                    if w.no_duplicates() {
                        assert(v[a] == v[b]);
                        let s = v.subrange(0, b);
                        assert(v =~= s + v.subrange(b, v.len() as int));
                        vstd::seq_lib::lemma_multiset_commutative(s, v.subrange(b, v.len() as int));
                        w.lemma_multiset_has_no_duplicates();
                        assert(v.subrange(b, v.len() as int)[0] == v[b]);
                        assert(s[a] == v[a]);
                        assert(s.to_multiset().count(v[a]) >= 1);
                        assert(v.subrange(b, v.len() as int).to_multiset().count(v[b]) >= 1);
                        assert(v.to_multiset().count(v[a]) >= 2);
                    }
                }
                assert(w.no_duplicates()) by {
                    assert forall|x: int, y: int| 0 <= x < w.len() && 0 <= y < w.len() && x != y implies w[x] != w[y] by {
                        if x < y {
                            assert(w[x].0@ != w[y].0@);
                        } else {
                            assert(w[y].0@ != w[x].0@);
                        }
                    }
                }
            } else if i < j {
                assert(w[i].0@ != w[j].0@);
            } else {
                assert(w[j].0@ != w[i].0@);
            }
        }
    }
}

/// Warnings among the findings of one file.
fn count_warnings(errs: &Vec<LintError>) -> (n: usize)
    ensures
        n == warning_count(errs@),
{
    let ghost pred = |e: LintError| e.severity == Severity::Warning;
    let mut n: usize = 0;
    for i in 0..errs.len()
        invariant
            pred == (|e: LintError| e.severity == Severity::Warning),
            n == errs@.take(i as int).filter(pred).len(),
            n <= i,
    {
        proof {
            reveal(Seq::filter);
            assert(errs@.take(i + 1).drop_last() == errs@.take(i as int));
            assert(errs@.take(i + 1).last() == errs@[i as int]);
        }
        if errs[i].severity == Severity::Warning {
            n = n + 1;
        }
    }
    assert(errs@.take(errs.len() as int) == errs@);
    n
}

/// Findings with a fix among the findings of one file.
fn count_fixable(errs: &Vec<LintError>) -> (n: usize)
    ensures
        n == fixable_count(errs@),
{
    let ghost pred = |e: LintError| e.fix is Some;
    let mut n: usize = 0;
    for i in 0..errs.len()
        invariant
            pred == (|e: LintError| e.fix is Some),
            n == errs@.take(i as int).filter(pred).len(),
            n <= i,
    {
        proof {
            reveal(Seq::filter);
            assert(errs@.take(i + 1).drop_last() == errs@.take(i as int));
            assert(errs@.take(i + 1).last() == errs@[i as int]);
        }
        if errs[i].fix.is_some() {
            n = n + 1;
        }
    }
    assert(errs@.take(errs.len() as int) == errs@);
    n
}

proof fn lemma_counts_bounded(s: Seq<LintError>)
    ensures
        warning_count(s) <= s.len(),
        fixable_count(s) <= s.len(),
{
    s.lemma_filter_len(|e: LintError| e.severity == Severity::Warning);
    s.lemma_filter_len(|e: LintError| e.fix is Some);
}

impl LintResult {
    /// Assemble the result of a lint run from each file's (path, source,
    /// findings): files with findings and all sources, ordered by path, and
    /// the totals (all findings, warnings, fixable findings). A file listed
    /// more than once keeps its last source and its last non-empty findings;
    /// the totals count every listing.
    pub fn from_file_results(
        results: Vec<(String, String, Vec<LintError>)>,
        parse_error_count: usize,
        files_linted: usize,
        rules_active: usize,
        elapsed_ns: u64,
    ) -> (r: LintResult)
        requires
            findings_of(results@).len() <= usize::MAX,
        ensures
            paths_ascending(r.file_errors@),
            paths_ascending(r.sources@),
            r.file_errors@.to_multiset() == result_findings(results@).to_multiset(),
            r.sources@.to_multiset() == result_sources(results@).to_multiset(),
            r.total_errors == findings_of(results@).len(),
            r.total_warnings == warning_count(findings_of(results@)),
            r.total_fixable == fixable_count(findings_of(results@)),
            r.total_warnings <= r.total_errors,
            r.total_fixable <= r.total_errors,
            !r.cached,
            r.elapsed_ns == elapsed_ns,
            r.parse_error_count == parse_error_count,
            r.files_linted == files_linted,
            r.rules_active == rules_active,
    {
        let ghost orig = results@;
        let mut v = results;
        let mut fe: Vec<(String, Vec<LintError>)> = Vec::new();
        let mut srcs: Vec<(String, String)> = Vec::new();
        let mut total: usize = 0;
        let mut warnings: usize = 0;
        let mut fixable: usize = 0;
        proof {
            assert(orig.take(orig.len() as int) == orig);
            lemma_counts_bounded(findings_of(orig));
            assert(orig.skip(orig.len() as int) =~= Seq::<(String, String, Vec<LintError>)>::empty());
            assert(fe@.to_multiset() =~= result_findings(orig.skip(orig.len() as int)).to_multiset());
            assert(srcs@.to_multiset() =~= result_sources(orig.skip(orig.len() as int)).to_multiset());
        }
        while v.len() > 0
            invariant
                v@.len() <= orig.len(),
                v@ == orig.take(v@.len() as int),
                findings_of(orig).len() <= usize::MAX,
                warning_count(findings_of(orig)) <= findings_of(orig).len(),
                fixable_count(findings_of(orig)) <= findings_of(orig).len(),
                total + findings_of(v@).len() == findings_of(orig).len(),
                warnings + warning_count(findings_of(v@)) == warning_count(findings_of(orig)),
                fixable + fixable_count(findings_of(v@)) == fixable_count(findings_of(orig)),
                fe@.to_multiset() == result_findings(orig.skip(v@.len() as int)).to_multiset(),
                srcs@.to_multiset() == result_sources(orig.skip(v@.len() as int)).to_multiset(),
                forall|a: int, b: int| 0 <= a < b < fe@.len() ==> #[trigger] fe@[a].0@ != #[trigger] fe@[b].0@,
                forall|a: int, b: int| 0 <= a < b < srcs@.len() ==> #[trigger] srcs@[a].0@ != #[trigger] srcs@[b].0@,
                forall|p: Seq<char>| #[trigger] has_key(fe@, p) <==> findings_listed(orig.skip(v@.len() as int), p),
                forall|p: Seq<char>| #[trigger] has_key(srcs@, p) <==> path_listed(orig.skip(v@.len() as int), p),
            decreases v.len(),
        {
            let ghost v0 = v@;
            let (path, source, errs) = v.pop().unwrap();
            let ghost x = (path, source, errs);
            let ghost m = v@.len() as int;
            let ghost t0 = orig.skip(m + 1);
            let ghost t1 = orig.skip(m);
            proof {
                assert(v0 == v@.push(x));
                assert(v0.drop_last() == v@);
                assert(v@ =~= orig.take(v@.len() as int));
                assert(x == orig[m]);
                assert(findings_of(v0) == findings_of(v@) + errs@);
                let wp = |e: LintError| e.severity == Severity::Warning;
                let fp = |e: LintError| e.fix is Some;
                Seq::filter_distributes_over_add(findings_of(v@), errs@, wp);
                Seq::filter_distributes_over_add(findings_of(v@), errs@, fp);
                lemma_counts_bounded(errs@);
                assert(t1[0] == x);
                assert(t1.drop_first() =~= t0);
                assert(v0.len() == m + 1);
                assert forall|p: Seq<char>| #[trigger] path_listed(t1, p) <==> x.0@ == p || path_listed(t0, p) by {
                    lemma_listed_cons(orig, m, p);
                }
                assert forall|p: Seq<char>|
                    #[trigger] findings_listed(t1, p) <==> (x.0@ == p && x.2@.len() > 0) || findings_listed(t0, p) by {
                    lemma_listed_cons(orig, m, p);
                }
            }
            let w = count_warnings(&errs);
            let f = count_fixable(&errs);
            total = total + errs.len();
            warnings = warnings + w;
            fixable = fixable + f;
            if !key_present(&srcs, &path) {
                let ghost s0 = srcs@;
                srcs.push((path.clone(), source));
                proof {
                    assert(!path_listed(t0, path@));
                    assert(result_sources(t1) == seq![(path, x.1)] + result_sources(t0));
                    assert(seq![(path, x.1)] + result_sources(t0) =~= result_sources(t0).insert(0, (path, x.1)));
                    vstd::seq_lib::to_multiset_insert(result_sources(t0), 0, (path, x.1));
                    assert(srcs@.to_multiset() =~= result_sources(t1).to_multiset());
                    assert(srcs@ == s0.push((path, x.1)));
                    lemma_push_new_key(s0, (path, x.1));
                    assert forall|p: Seq<char>| #[trigger] has_key(srcs@, p) <==> path_listed(t1, p) by {
                        if has_key(srcs@, p) {
                            let q = choose|q: int| 0 <= q < srcs@.len() && #[trigger] srcs@[q].0@ == p;
                            if q < s0.len() {
                                assert(srcs@[q] == s0[q]);
                            }
                        }
                        if has_key(s0, p) {
                            let q = choose|q: int| 0 <= q < s0.len() && #[trigger] s0[q].0@ == p;
                            assert(srcs@[q] == s0[q]);
                        }
                        assert(srcs@[s0.len() as int].0@ == path@);
                    }
                }
            } else {
                proof {
                    assert(path_listed(t0, path@));
                    assert(result_sources(t1) == result_sources(t0));
                    assert forall|p: Seq<char>| #[trigger] has_key(srcs@, p) <==> path_listed(t1, p) by {}
                }
            }
            let ghost f0 = fe@;
            if errs.len() > 0 && !key_present(&fe, &path) {
                fe.push((path, errs));
                proof {
                    assert(!findings_listed(t0, x.0@));
                    assert(result_findings(t1) == seq![(x.0, x.2)] + result_findings(t0));
                    assert(seq![(x.0, x.2)] + result_findings(t0) =~= result_findings(t0).insert(0, (x.0, x.2)));
                    vstd::seq_lib::to_multiset_insert(result_findings(t0), 0, (x.0, x.2));
                    assert(fe@.to_multiset() =~= result_findings(t1).to_multiset());
                    assert(fe@ == f0.push((x.0, x.2)));
                    lemma_push_new_key(f0, (x.0, x.2));
                    assert forall|p: Seq<char>| #[trigger] has_key(fe@, p) <==> findings_listed(t1, p) by {
                        if has_key(fe@, p) {
                            let q = choose|q: int| 0 <= q < fe@.len() && #[trigger] fe@[q].0@ == p;
                            if q < f0.len() {
                                assert(fe@[q] == f0[q]);
                            }
                        }
                        if has_key(f0, p) {
                            let q = choose|q: int| 0 <= q < f0.len() && #[trigger] f0[q].0@ == p;
                            assert(fe@[q] == f0[q]);
                        }
                        assert(fe@[f0.len() as int].0@ == x.0@);
                    }
                }
            } else {
                proof {
                    assert(result_findings(t1) == result_findings(t0));
                    assert forall|p: Seq<char>| #[trigger] has_key(fe@, p) <==> findings_listed(t1, p) by {}
                }
            }
        }
        proof {
            assert(findings_of(v@).len() == 0);
            assert(orig.skip(0) =~= orig);
        }
        proof {
            lemma_counts_bounded(findings_of(orig));
        }
        let ghost fe0 = fe@;
        let ghost srcs0 = srcs@;
        let file_errors = sort_by_key(fe);
        let sources = sort_by_key(srcs);
        proof {
            lemma_distinct_keys_kept(file_errors@, fe0);
            lemma_distinct_keys_kept(sources@, srcs0);
            lemma_sorted_distinct_ascending(file_errors@);
            lemma_sorted_distinct_ascending(sources@);
        }
        LintResult {
            file_errors,
            sources,
            total_errors: total,
            total_warnings: warnings,
            total_fixable: fixable,
            cached: false,
            elapsed_ns,
            parse_error_count,
            files_linted,
            rules_active,
        }
    }
}
} // verus!
