//! Ordering keyed lists by their string keys.

use vstd::prelude::*;

use crate::text::{chars_lt, chars_of, lemma_lex_order, lemma_lex_trans, lex_lt};

verus! {

broadcast use vstd::seq_lib::group_to_multiset_ensures;

/// No key sorts before the key of an earlier entry.
pub open spec fn keys_sorted<T>(v: Seq<(String, T)>) -> bool {
    forall|a: int, b: int| 0 <= a < b < v.len() ==> !lex_lt(#[trigger] v[b].0@, #[trigger] v[a].0@)
}

/// Whether key `a` sorts before key `b`.
fn key_lt(a: &String, b: &String) -> (r: bool)
    ensures
        r == lex_lt(a@, b@),
{
    let ca = chars_of(a.as_str());
    let cb = chars_of(b.as_str());
    chars_lt(&ca, &cb)
}

/// The entries of `v` ordered by key (entries with equal keys keep their
/// relative order).
pub fn sort_by_key<T>(v: Vec<(String, T)>) -> (out: Vec<(String, T)>)
    ensures
        keys_sorted(out@),
        out@.to_multiset() == v@.to_multiset(),
{
    let mut v = v;
    let ghost orig = v@;
    let mut out: Vec<(String, T)> = Vec::new();
    while v.len() > 0
        invariant
            keys_sorted(out@),
            out@.to_multiset().add(v@.to_multiset()) == orig.to_multiset(),
        decreases v.len(),
    {
        let ghost v0 = v@;
        let e = v.pop().unwrap();
        proof {
            assert(v0 == v@.push(e));
        }
        let mut p: usize = 0;
        while p < out.len() && key_lt(&out[p].0, &e.0)
            invariant
                p <= out@.len(),
                forall|q: int| 0 <= q < p ==> lex_lt(#[trigger] out@[q].0@, e.0@),
            decreases out.len() - p,
        {
            p = p + 1;
        }
        let ghost o0 = out@;
        out.insert(p, e);
        proof {
            let o1 = out@;
            assert(o1 == o0.insert(p as int, e));
            assert forall|a: int, b: int| 0 <= a < b < o1.len() implies !lex_lt(#[trigger] o1[b].0@, #[trigger] o1[a].0@) by {
                if b < p {
                    assert(o1[a] == o0[a] && o1[b] == o0[b]);
                } else if b == p {
                    assert(o1[a] == o0[a]);
                    lemma_lex_order(o0[a].0@, e.0@);
                } else if a < p {
                    assert(o1[a] == o0[a] && o1[b] == o0[b - 1]);
                } else if a == p {
                    assert(o1[b] == o0[b - 1]);
                    if p < o0.len() {
                        assert(!lex_lt(o0[p as int].0@, e.0@));
                        if b - 1 > p {
                            assert(!lex_lt(o0[b - 1].0@, o0[p as int].0@));
                        }
                        lemma_lex_order(o0[b - 1].0@, o0[p as int].0@);
                        lemma_lex_order(e.0@, o0[p as int].0@);
                        lemma_lex_order(o0[b - 1].0@, e.0@);
                        if lex_lt(o0[b - 1].0@, e.0@) && b - 1 > p {
                            lemma_lex_order(o0[p as int].0@, o0[b - 1].0@);
                            if o0[p as int].0@ != o0[b - 1].0@ {
                                lemma_lex_trans(o0[p as int].0@, o0[b - 1].0@, e.0@);
                            }
                        }
                    }
                } else {
                    assert(o1[a] == o0[a - 1] && o1[b] == o0[b - 1]);
                }
            }
            assert(o1.to_multiset() == o0.to_multiset().insert(e));
            assert(v0.to_multiset() == v@.to_multiset().insert(e));
            assert(o1.to_multiset().add(v@.to_multiset()) =~= o0.to_multiset().add(v0.to_multiset()));
        }
    }
    assert(v@.to_multiset() =~= vstd::multiset::Multiset::<(String, T)>::empty());
    assert(out@.to_multiset() =~= out@.to_multiset().add(v@.to_multiset()));
    out
}

} // verus!
