//! The order in which the linter offers and applies fixes within a file:
//! findings by position (line, then column), findings at the same position
//! in the order they were reported.

use vstd::prelude::*;

use crate::rule::{Edit, LintError};

verus! {

/// A finding's position: line, then column.
pub open spec fn pos_key(e: LintError) -> (u32, u32) {
    (e.span.start.line, e.span.start.column)
}

/// `a` comes no later than `b`.
pub open spec fn key_le(a: (u32, u32), b: (u32, u32)) -> bool {
    a.0 < b.0 || (a.0 == b.0 && a.1 <= b.1)
}

/// `order` lists every index of `errs` once, by position, and findings at
/// the same position by index.
pub open spec fn is_position_order(errs: Seq<LintError>, order: Seq<usize>) -> bool {
    &&& order.len() == errs.len()
    &&& order.no_duplicates()
    &&& forall|i: int| 0 <= i < order.len() ==> #[trigger] order[i] < errs.len()
    &&& forall|i: int, j: int|
        0 <= i < j < order.len() ==> key_le(pos_key(errs[#[trigger] order[i] as int]), pos_key(errs[#[trigger] order[j] as int]))
    &&& forall|i: int, j: int|
        0 <= i < j < order.len() && pos_key(errs[#[trigger] order[i] as int]) == pos_key(errs[#[trigger] order[j] as int])
            ==> order[i] < order[j]
}

fn key_of(e: &LintError) -> (k: (u32, u32))
    ensures
        k == pos_key(*e),
{
    (e.span.start.line, e.span.start.column)
}

fn key_gt(a: (u32, u32), b: (u32, u32)) -> (r: bool)
    ensures
        r == !key_le(a, b),
{
    a.0 > b.0 || (a.0 == b.0 && a.1 > b.1)
}

/// The indices of `errors` in position order (a stable sort by line and
/// column).
pub fn position_order(errors: &Vec<LintError>) -> (order: Vec<usize>)
    ensures
        is_position_order(errors@, order@),
{
    let mut order: Vec<usize> = Vec::new();
    let ghost errs = errors@;
    for k in 0..errors.len()
        invariant
            errs == errors@,
            order@.len() == k,
            order@.no_duplicates(),
            forall|i: int| 0 <= i < order@.len() ==> #[trigger] order@[i] < k,
            forall|i: int, j: int|
                0 <= i < j < order@.len() ==> key_le(
                    pos_key(errs[#[trigger] order@[i] as int]),
                    pos_key(errs[#[trigger] order@[j] as int]),
                ),
            forall|i: int, j: int|
                0 <= i < j < order@.len() && pos_key(errs[#[trigger] order@[i] as int]) == pos_key(
                    errs[#[trigger] order@[j] as int],
                ) ==> order@[i] < order@[j],
    {
        let kk = key_of(&errors[k]);
        // First place whose finding comes strictly after finding `k`.
        let mut p: usize = 0;
        while p < order.len() && !key_gt(key_of(&errors[order[p]]), kk)
            invariant
                errs == errors@,
                p <= order@.len(),
                kk == pos_key(errs[k as int]),
                k < errs.len(),
                forall|i: int| 0 <= i < order@.len() ==> #[trigger] order@[i] < k,
                forall|i: int| 0 <= i < p ==> key_le(pos_key(errs[#[trigger] order@[i] as int]), kk),
            decreases order@.len() - p,
        {
            p = p + 1;
        }
        let ghost o0 = order@;
        proof {
            if p < o0.len() {
                assert(!key_le(pos_key(errs[o0[p as int] as int]), kk));
            }
        }
        order.insert(p, k);
        proof {
            let o1 = order@;
            assert(o1 == o0.insert(p as int, k));
            assert forall|i: int| 0 <= i < o1.len() implies #[trigger] o1[i] < k + 1 by {
                if i < p {
                    assert(o1[i] == o0[i]);
                } else if i > p {
                    assert(o1[i] == o0[i - 1]);
                }
            }
            assert forall|i: int, j: int| 0 <= i < j < o1.len() implies #[trigger] o1[i] != #[trigger] o1[j] by {
                if i < p && j < p {
                    assert(o1[i] == o0[i] && o1[j] == o0[j]);
                } else if i < p && j == p {
                    assert(o1[i] == o0[i]);
                } else if i < p {
                    assert(o1[i] == o0[i] && o1[j] == o0[j - 1]);
                } else if i == p {
                    assert(o1[j] == o0[j - 1]);
                } else {
                    assert(o1[i] == o0[i - 1] && o1[j] == o0[j - 1]);
                }
            }
            assert forall|i: int, j: int| 0 <= i < j < o1.len() implies key_le(
                pos_key(errs[#[trigger] o1[i] as int]),
                pos_key(errs[#[trigger] o1[j] as int]),
            ) && (pos_key(errs[o1[i] as int]) == pos_key(errs[o1[j] as int]) ==> o1[i] < o1[j]) by {
                if i < p && j < p {
                    assert(o1[i] == o0[i] && o1[j] == o0[j]);
                } else if i < p && j == p {
                    assert(o1[i] == o0[i]);
                } else if i < p {
                    assert(o1[i] == o0[i] && o1[j] == o0[j - 1]);
                    assert(key_le(pos_key(errs[o0[i] as int]), pos_key(errs[o0[j - 1] as int])));
                } else if i == p {
                    assert(o1[j] == o0[j - 1]);
                    assert(key_le(pos_key(errs[o0[p as int] as int]), pos_key(errs[o0[j - 1] as int])) || j - 1
                        == p);
                } else {
                    assert(o1[i] == o0[i - 1] && o1[j] == o0[j - 1]);
                }
            }
        }
    }
    order
}

/// The edits of the fixable findings, finding by finding, in the given
/// order.
pub open spec fn ordered_fix_edits(errs: Seq<LintError>, order: Seq<usize>) -> Seq<Edit>
    decreases order.len(),
{
    if order.len() == 0 {
        Seq::empty()
    } else {
        ordered_fix_edits(errs, order.drop_last()) + match errs[order.last() as int].fix {
            Some(f) => f.edits@,
            None => Seq::empty(),
        }
    }
}

/// All fix edits of `errors`, taking the findings in `order`.
pub fn fix_edits_in_order(errors: &Vec<LintError>, order: &Vec<usize>) -> (edits: Vec<Edit>)
    requires
        forall|i: int| 0 <= i < order@.len() ==> #[trigger] order@[i] < errors@.len(),
    ensures
        edits@ == ordered_fix_edits(errors@, order@),
{
    let mut edits: Vec<Edit> = Vec::new();
    for k in 0..order.len()
        invariant
            forall|i: int| 0 <= i < order@.len() ==> #[trigger] order@[i] < errors@.len(),
            edits@ == ordered_fix_edits(errors@, order@.take(k as int)),
    {
        let e = &errors[order[k]];
        let ghost before = edits@;
        match &e.fix {
            Some(f) => {
                for j in 0..f.edits.len()
                    invariant
                        edits@ == before + f.edits@.take(j as int),
                {
                    edits.push(f.edits[j].duplicate());
                    assert(f.edits@.take(j + 1) == f.edits@.take(j as int).push(f.edits@[j as int]));
                }
                assert(f.edits@.take(f.edits@.len() as int) == f.edits@);
            },
            None => {
                assert(before + Seq::<Edit>::empty() == before);
            },
        }
        assert(order@.take(k + 1).drop_last() == order@.take(k as int));
    }
    assert(order@.take(order@.len() as int) == order@);
    edits
}

} // verus!
