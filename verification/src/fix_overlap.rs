//! Laws of applying auto-fix edits: the check `apply_fixes` makes on
//! neighbours in application order finds exactly the edits whose byte ranges
//! overlap, and accepted edits replace their ranges of the original text
//! piece by piece.

use vstd::prelude::*;

use crate::fix::{
    apply_ops,
    desc_ordered,
    edits_accepted,
    fixed_bytes,
    has_out_of_bounds,
    splice,
    edit_op,
    edit_ops,
    has_overlap,
    lemma_sort_desc_sorts,
    op_key_gt,
    sort_desc,
    ByteOp,
};
use crate::rule::Edit;
use vstd::utf8::encode_utf8;

verus! {

/// The byte ranges of two ops overlap.
pub open spec fn ops_overlap(a: ByteOp, b: ByteOp) -> bool {
    a.0 < b.1 && b.0 < a.1
}

/// Two of the ops (at different positions) overlap.
pub open spec fn some_pair_overlaps(ops: Seq<ByteOp>) -> bool {
    exists|i: int, j: int|
        0 <= i < ops.len() && 0 <= j < ops.len() && i != j && ops_overlap(#[trigger] ops[i], #[trigger] ops[j])
}

/// Two positions of a sequence hold, at two positions, the same values in
/// any rearrangement of it.
pub(crate) proof fn lemma_pair_in_permutation(s: Seq<ByteOp>, o: Seq<ByteOp>, i: int, j: int)
    requires
        s.to_multiset() == o.to_multiset(),
        0 <= i < s.len(),
        0 <= j < s.len(),
        i != j,
    ensures
        exists|i2: int, j2: int|
            0 <= i2 < o.len() && 0 <= j2 < o.len() && i2 != j2 && #[trigger] o[i2] == s[i] && #[trigger] o[j2] == s[j],
{
    broadcast use vstd::seq_lib::group_to_multiset_ensures;

    let x = s[i];
    let y = s[j];
    assert(s.to_multiset().count(x) > 0);
    assert(o.contains(x));
    let i2 = choose|i2: int| 0 <= i2 < o.len() && o[i2] == x;
    let sr = s.remove(i);
    let or = o.remove(i2);
    assert(sr.to_multiset() == s.to_multiset().remove(x));
    assert(or.to_multiset() == o.to_multiset().remove(x));
    let jr = if j < i { j } else { j - 1 };
    assert(sr[jr] == y);
    assert(sr.to_multiset().count(y) > 0);
    assert(or.contains(y));
    let k = choose|k: int| 0 <= k < or.len() && or[k] == y;
    let j2 = if k < i2 { k } else { k + 1 };
    assert(o[j2] == y);
}

/// In application order, an op starting before the end of a later op makes
/// some pair of neighbours fail the overlap check.
proof fn lemma_overlap_reaches_neighbours(s: Seq<ByteOp>, i: int, j: int)
    requires
        desc_ordered(s),
        forall|k: int| 0 <= k < s.len() ==> #[trigger] s[k].0 <= s[k].1,
        0 <= i < j < s.len(),
        s[i].0 < s[j].1,
    ensures
        has_overlap(s),
    decreases j - i,
{
    if s[i + 1].1 > s[i].0 {
        assert(s[(i) + 1].1 > s[i].0);
    } else {
        assert(!op_key_gt(s[j], s[i + 1]) || j == i + 1);
        lemma_overlap_reaches_neighbours(s, i + 1, j);
    }
}

/// The overlap error is exactly two edits whose byte ranges overlap, when
/// every edit's range starts no later than it ends.
pub proof fn lemma_overlap_is_pairwise(edits: Seq<Edit>)
    requires
        forall|k: int| 0 <= k < edits.len() ==> #[trigger] edit_op(edits[k]).0 <= edit_op(edits[k]).1,
    ensures
        has_overlap(sort_desc(edit_ops(edits))) <==> some_pair_overlaps(edit_ops(edits)),
{
    broadcast use vstd::seq_lib::group_to_multiset_ensures;

    let o = edit_ops(edits);
    lemma_sort_desc_sorts(o);
    let s = sort_desc(o);
    vstd::seq_lib::to_multiset_len(s);
    vstd::seq_lib::to_multiset_len(o);
    assert forall|k: int| 0 <= k < o.len() implies #[trigger] o[k].0 <= o[k].1 by {
        assert(o[k] == edit_op(edits[k]));
    }
    assert forall|k: int| 0 <= k < s.len() implies #[trigger] s[k].0 <= s[k].1 by {
        assert(s.to_multiset().count(s[k]) > 0);
        assert(o.contains(s[k]));
        let q = choose|q: int| 0 <= q < o.len() && o[q] == s[k];
        assert(o[q].0 <= o[q].1);
    }
    if has_overlap(s) {
        let k = choose|k: int| 0 <= k < s.len() - 1 && #[trigger] s[k + 1].1 > s[k].0;
        assert(!op_key_gt(s[k + 1], s[k]));
        assert(ops_overlap(s[k], s[k + 1]));
        lemma_pair_in_permutation(s, o, k, k + 1);
        let (i2, j2) = choose|i2: int, j2: int|
            0 <= i2 < o.len() && 0 <= j2 < o.len() && i2 != j2 && #[trigger] o[i2] == s[k] && #[trigger] o[j2] == s[k + 1];
        assert(ops_overlap(o[i2], o[j2]));
    }
    if some_pair_overlaps(o) {
        let (i, j) = choose|i: int, j: int|
            0 <= i < o.len() && 0 <= j < o.len() && i != j && ops_overlap(#[trigger] o[i], #[trigger] o[j]);
        lemma_pair_in_permutation(o, s, i, j);
        let (i2, j2) = choose|i2: int, j2: int|
            0 <= i2 < s.len() && 0 <= j2 < s.len() && i2 != j2 && #[trigger] s[i2] == o[i] && #[trigger] s[j2] == o[j];
        if i2 < j2 {
            lemma_overlap_reaches_neighbours(s, i2, j2);
        } else {
            lemma_overlap_reaches_neighbours(s, j2, i2);
        }
    }
}


/// The text rebuilt from the original `s` and ops in application order
/// (each ending before the start of the one before it): the text before
/// the last op rebuilt from the remaining ops, then the op's replacement,
/// then the original after it. Unfolded, with the ops ascending as
/// `(s1, e1, r1) .. (sk, ek, rk)`, it is
/// `s[..s1] + r1 + s[e1..s2] + r2 + ... + rk + s[ek..]`.
pub open spec fn rebuilt(s: Seq<u8>, d: Seq<ByteOp>) -> Seq<u8>
    decreases d.len(),
{
    if d.len() == 0 {
        s
    } else if 0 <= d[0].0 <= s.len() {
        rebuilt(s.take(d[0].0), d.drop_first()) + d[0].2 + s.skip(d[0].1)
    } else {
        s
    }
}

/// Ops in application order that do not overlap and lie in `0 ..= len`.
pub open spec fn chained(d: Seq<ByteOp>, len: int) -> bool {
    &&& forall|k: int| 0 <= k < d.len() ==> 0 <= #[trigger] d[k].0 <= d[k].1 <= len
    &&& forall|k: int| 0 <= k < d.len() - 1 ==> #[trigger] d[k + 1].1 <= d[k].0
}

proof fn lemma_chained_tail(d: Seq<ByteOp>, len: int)
    requires
        chained(d, len),
        d.len() > 0,
    ensures
        chained(d.drop_first(), d[0].0),
        forall|k: int| 0 <= k < d.len() ==> #[trigger] d[k].1 <= d[0].1,
    decreases d.len(),
{
    let t = d.drop_first();
    assert forall|k: int| 0 <= k < d.len() implies #[trigger] d[k].1 <= d[0].1 && (k > 0 ==> d[k].1 <= d[0].0) by {
        lemma_ends_below(d, len, k);
    }
    assert forall|k: int| 0 <= k < t.len() implies 0 <= #[trigger] t[k].0 <= t[k].1 <= d[0].0 by {
        assert(t[k] == d[k + 1]);
    }
    assert forall|k: int| 0 <= k < t.len() - 1 implies #[trigger] t[k + 1].1 <= t[k].0 by {
        assert(t[k] == d[k + 1] && t[k + 1] == d[k + 2]);
    }
}

proof fn lemma_ends_below(d: Seq<ByteOp>, len: int, k: int)
    requires
        chained(d, len),
        0 <= k < d.len(),
    ensures
        d[k].1 <= d[0].1,
        k > 0 ==> d[k].1 <= d[0].0,
    decreases k,
{
    if k > 0 {
        lemma_ends_below(d, len, k - 1);
        assert(d[(k - 1) + 1].1 <= d[k - 1].0);
    }
}

/// Ops that stay inside a prefix `p` leave what follows it alone.
proof fn lemma_apply_in_prefix(p: Seq<u8>, q: Seq<u8>, d: Seq<ByteOp>)
    requires
        chained(d, p.len() as int),
    ensures
        apply_ops(p + q, d) == apply_ops(p, d) + q,
    decreases d.len(),
{
    if d.len() > 0 {
        let o = d[0];
        lemma_chained_tail(d, p.len() as int);
        let p2 = splice(p, o);
        assert(splice(p + q, o) =~= p2 + q);
        assert(p2.len() >= o.0);
        let t = d.drop_first();
        assert forall|k: int| 0 <= k < t.len() implies 0 <= #[trigger] t[k].0 <= t[k].1 <= p2.len() by {
            assert(0 <= t[k].0 <= t[k].1 <= o.0);
        }
        lemma_apply_in_prefix(p2, q, t);
    }
}

/// Applying chained ops one after the other rebuilds the text piecewise.
proof fn lemma_apply_is_rebuilt(s: Seq<u8>, d: Seq<ByteOp>)
    requires
        chained(d, s.len() as int),
    ensures
        apply_ops(s, d) == rebuilt(s, d),
    decreases d.len(),
{
    if d.len() > 0 {
        let o = d[0];
        let t = d.drop_first();
        lemma_chained_tail(d, s.len() as int);
        let p = s.take(o.0);
        let q = o.2 + s.skip(o.1);
        assert(splice(s, o) =~= p + q);
        lemma_apply_in_prefix(p, q, t);
        lemma_apply_is_rebuilt(p, t);
        assert(apply_ops(p, t) + q =~= rebuilt(p, t) + o.2 + s.skip(o.1));
    }
}

/// Accepted edits replace their byte ranges of the original text: the
/// result is the original with each range, in order, replaced by its text
/// (`rebuilt`), whatever order the edits were listed in.
pub proof fn lemma_fixes_replace_ranges(source: Seq<char>, edits: Seq<Edit>)
    requires
        edits_accepted(edits, encode_utf8(source).len() as int),
    ensures
        fixed_bytes(source, edits) == rebuilt(encode_utf8(source), sort_desc(edit_ops(edits))),
{
    let s = encode_utf8(source);
    let d = sort_desc(edit_ops(edits));
    assert forall|k: int| 0 <= k < d.len() implies 0 <= #[trigger] d[k].0 <= d[k].1 <= s.len() by {
        if !(d[k].0 <= s.len() && d[k].1 <= s.len() && d[k].0 <= d[k].1) {
            assert(has_out_of_bounds(d, s.len() as int));
        }
        if d[k].0 < 0 {
            lemma_sort_desc_sorts(edit_ops(edits));
            assert(d.to_multiset().count(d[k]) > 0) by {
                broadcast use vstd::seq_lib::group_to_multiset_ensures;
            }
            assert(edit_ops(edits).contains(d[k])) by {
                broadcast use vstd::seq_lib::group_to_multiset_ensures;
            }
            let j = choose|j: int| 0 <= j < edit_ops(edits).len() && edit_ops(edits)[j] == d[k];
            assert(edit_ops(edits)[j] == edit_op(edits[j]));
        }
    }
    assert forall|k: int| 0 <= k < d.len() - 1 implies #[trigger] d[k + 1].1 <= d[k].0 by {
        if d[k + 1].1 > d[k].0 {
            assert(has_overlap(d));
        }
    }
    lemma_apply_is_rebuilt(s, d);
}
} // verus!
