//! Applying auto-fix edits to source text.

use vstd::prelude::*;
use vstd::multiset::Multiset;
use vstd::string::StringSliceAdditionalSpecFns;
use vstd::utf8::*;

use crate::fix_overlap::{lemma_overlap_is_pairwise, lemma_pair_in_permutation, ops_overlap, some_pair_overlaps};
use crate::rule::{Edit, Span};

verus! {

broadcast use {encode_utf8_valid_utf8, encode_utf8_decode_utf8, is_char_boundary_start_end_of_seq};

/// Why a set of edits could not be applied.
#[derive(Clone, Copy, Debug, PartialEq, Eq, Structural)]
pub enum FixError {
    /// Two edits have overlapping byte ranges.
    OverlappingEdits,
    /// An edit's span is out of bounds for the source text.
    OutOfBounds,
}

impl FixError {
    /// The error as a phrase.
    pub fn describe(&self) -> (s: String)
        ensures
            s@ == match self {
                FixError::OverlappingEdits => "overlapping edits"@,
                FixError::OutOfBounds => "edit span out of bounds"@,
            },
    {
        let mut s = String::new();
        match self {
            FixError::OverlappingEdits => crate::text::push_str(&mut s, "overlapping edits"),
            FixError::OutOfBounds => crate::text::push_str(&mut s, "edit span out of bounds"),
        }
        s
    }
}

/// A byte-level replacement: start offset, end offset, replacement bytes.
pub type ByteOp = (int, int, Seq<u8>);

/// The replacement an edit stands for, in bytes.
pub open spec fn edit_op(e: Edit) -> ByteOp {
    match e {
        Edit::Replace { span, replacement } => (
            span.start.offset as int,
            span.end.offset as int,
            encode_utf8(replacement@),
        ),
        Edit::InsertAfter { span, text } => (
            span.end.offset as int,
            span.end.offset as int,
            encode_utf8(text@),
        ),
        Edit::Remove { span } => (span.start.offset as int, span.end.offset as int, Seq::empty()),
    }
}

/// The replacements of a list of edits, in the same order.
pub open spec fn edit_ops(edits: Seq<Edit>) -> Seq<ByteOp> {
    edits.map_values(|e: Edit| edit_op(e))
}

/// `a` comes after `b` in the application order: higher start offset, or
/// equal start and higher end offset.
pub open spec fn op_key_gt(a: ByteOp, b: ByteOp) -> bool {
    a.0 > b.0 || (a.0 == b.0 && a.1 > b.1)
}

/// Index of the first op whose (start, end) key is maximal.
pub open spec fn first_max(ops: Seq<ByteOp>) -> int
    decreases ops.len(),
{
    if ops.len() <= 1 {
        0
    } else {
        let m = first_max(ops.drop_last());
        if op_key_gt(ops.last(), ops[m]) {
            ops.len() - 1
        } else {
            m
        }
    }
}

/// The ops in descending order of (start, end); ops with equal keys keep
/// their input order (a stable descending sort).
pub open spec fn sort_desc(ops: Seq<ByteOp>) -> Seq<ByteOp>
    decreases ops.len(),
{
    if ops.len() == 0 {
        Seq::empty()
    } else {
        proof {
            lemma_first_max_range(ops);
        }
        let m = first_max(ops);
        seq![ops[m]] + sort_desc(ops.remove(m))
    }
}

/// Some op (in application order) ends after the start of the op applied
/// just before it.
pub open spec fn has_overlap(sorted: Seq<ByteOp>) -> bool {
    exists|k: int| 0 <= k < sorted.len() - 1 && #[trigger] sorted[k + 1].1 > sorted[k].0
}

/// Some op reaches past `len` or has its start after its end.
pub open spec fn has_out_of_bounds(ops: Seq<ByteOp>, len: int) -> bool {
    exists|k: int|
        0 <= k < ops.len() && (#[trigger] ops[k].0 > len || ops[k].1 > len || ops[k].0 > ops[k].1)
}

proof fn lemma_no_out_of_bounds(ops: Seq<ByteOp>, len: int)
    requires
        forall|q: int| 0 <= q < ops.len() ==> !(#[trigger] ops[q].0 > len || ops[q].1 > len || ops[q].0 > ops[q].1),
    ensures
        !has_out_of_bounds(ops, len),
{
    assert forall|k: int| 0 <= k < ops.len() implies !(#[trigger] ops[k].0 > len || ops[k].1 > len || ops[k].0
        > ops[k].1) by {}
}

/// Replace `s[op.0 .. op.1]` by `op.2`.
pub open spec fn splice(s: Seq<u8>, op: ByteOp) -> Seq<u8> {
    s.take(op.0) + op.2 + s.skip(op.1)
}

/// Apply the ops one after the other, in the given order.
pub open spec fn apply_ops(s: Seq<u8>, ops: Seq<ByteOp>) -> Seq<u8>
    decreases ops.len(),
{
    if ops.len() == 0 {
        s
    } else {
        apply_ops(splice(s, ops[0]), ops.drop_first())
    }
}

/// The edits pass both checks of `apply_fixes` against a source of `len` bytes.
pub open spec fn edits_accepted(edits: Seq<Edit>, len: int) -> bool {
    let sorted = sort_desc(edit_ops(edits));
    !has_overlap(sorted) && !has_out_of_bounds(sorted, len)
}

/// Every offset the ops touch lies on a character boundary of `bytes`.
pub open spec fn on_char_boundaries(bytes: Seq<u8>, ops: Seq<ByteOp>) -> bool {
    forall|k: int|
        0 <= k < ops.len() ==> is_char_boundary(bytes, #[trigger] ops[k].0) && is_char_boundary(
            bytes,
            ops[k].1,
        )
}

/// The bytes `apply_fixes` produces from `source` and `edits` when it succeeds.
pub open spec fn fixed_bytes(source: Seq<char>, edits: Seq<Edit>) -> Seq<u8> {
    apply_ops(encode_utf8(source), sort_desc(edit_ops(edits)))
}

proof fn lemma_apply_ops_push(s: Seq<u8>, ops: Seq<ByteOp>, o: ByteOp)
    ensures
        apply_ops(s, ops.push(o)) == splice(apply_ops(s, ops), o),
    decreases ops.len(),
{
    if ops.len() == 0 {
        assert(ops.push(o).drop_first() =~= Seq::<ByteOp>::empty());
        assert(ops.push(o)[0] == o);
        assert(apply_ops(splice(s, o), Seq::<ByteOp>::empty()) == splice(s, o));
    } else {
        assert(ops.push(o).drop_first() =~= ops.drop_first().push(o));
        assert(ops.push(o)[0] == ops[0]);
        lemma_apply_ops_push(splice(s, ops[0]), ops.drop_first(), o);
    }
}

/// A char boundary of `bytes` below `hi` is also one of `bytes.take(hi)`.
proof fn lemma_boundary_take(bytes: Seq<u8>, hi: int, i: int)
    requires
        valid_utf8(bytes),
        is_char_boundary(bytes, hi),
        is_char_boundary(bytes, i),
        0 <= i <= hi <= bytes.len(),
    ensures
        valid_utf8(bytes.take(hi)),
        is_char_boundary(bytes.take(hi), i),
{
    valid_utf8_split(bytes, hi);
    assert(bytes.take(hi) == bytes.subrange(0, hi));
    let t = bytes.take(hi);
    if i < hi {
        is_char_boundary_iff_not_is_continuation_byte(bytes, i);
        is_char_boundary_iff_not_is_continuation_byte(t, i);
    } else {
        is_char_boundary_start_end_of_seq(t);
    }
}

/// The bytes between two char boundaries form valid UTF-8.
proof fn lemma_valid_between(bytes: Seq<u8>, lo: int, hi: int)
    requires
        valid_utf8(bytes),
        is_char_boundary(bytes, hi),
        is_char_boundary(bytes, lo),
        0 <= lo <= hi <= bytes.len(),
    ensures
        valid_utf8(bytes.subrange(lo, hi)),
{
    lemma_boundary_take(bytes, hi, lo);
    let t = bytes.take(hi);
    valid_utf8_split(t, lo);
    assert(t.subrange(lo, t.len() as int) =~= bytes.subrange(lo, hi));
}

/// The exec form of a byte op.
pub open spec fn op_view(o: (usize, usize, Vec<u8>)) -> ByteOp {
    (o.0 as int, o.1 as int, o.2@)
}

pub open spec fn ops_view(v: Seq<(usize, usize, Vec<u8>)>) -> Seq<ByteOp> {
    v.map_values(|o: (usize, usize, Vec<u8>)| op_view(o))
}

fn copy_bytes(v: &Vec<u8>) -> (out: Vec<u8>)
    ensures
        out@ == v@,
{
    let mut out: Vec<u8> = Vec::new();
    for i in 0..v.len()
        invariant
            out@ == v@.take(i as int),
    {
        out.push(v[i]);
        assert(v@.take(i + 1) == v@.take(i as int).push(v@[i as int]));
    }
    assert(v@.take(v.len() as int) == v@);
    out
}

/// `bytes[lo .. hi]` as a new vector.
fn slice_bytes(bytes: &[u8], lo: usize, hi: usize) -> (out: Vec<u8>)
    requires
        lo <= hi <= bytes@.len(),
    ensures
        out@ == bytes@.subrange(lo as int, hi as int),
{
    let mut out: Vec<u8> = Vec::new();
    let mut i = lo;
    while i < hi
        invariant
            lo <= i <= hi <= bytes@.len(),
            out@ == bytes@.subrange(lo as int, i as int),
        decreases hi - i,
    {
        out.push(bytes[i]);
        assert(bytes@.subrange(lo as int, i + 1) == bytes@.subrange(lo as int, i as int).push(
            bytes@[i as int],
        ));
        i = i + 1;
    }
    out
}

/// Converts UTF-8 bytes to a `String` with `String::from_utf8`, which
/// succeeds exactly on valid UTF-8 and then holds the decoded characters.
#[verifier::external_body]
fn string_from_utf8(bytes: Vec<u8>) -> (r: Option<String>)
    ensures
        match r {
            Some(s) => valid_utf8(bytes@) && s@ == decode_utf8(bytes@),
            None => !valid_utf8(bytes@),
        },
{
    String::from_utf8(bytes).ok()
}

/// The exec byte op of an edit.
fn edit_to_op(e: &Edit) -> (o: (usize, usize, Vec<u8>))
    ensures
        op_view(o) == edit_op(*e),
{
    match e {
        Edit::Replace { span, replacement } => (
            span.start.offset,
            span.end.offset,
            replacement.as_str().as_bytes_vec(),
        ),
        Edit::InsertAfter { span, text } => (
            span.end.offset,
            span.end.offset,
            text.as_str().as_bytes_vec(),
        ),
        Edit::Remove { span } => (span.start.offset, span.end.offset, Vec::new()),
    }
}

fn key_gt(a: &(usize, usize, Vec<u8>), b: &(usize, usize, Vec<u8>)) -> (r: bool)
    ensures
        r == op_key_gt(op_view(*a), op_view(*b)),
{
    a.0 > b.0 || (a.0 == b.0 && a.1 > b.1)
}

/// Stable descending sort of the ops by (start, end), as `sort_desc` describes.
fn sort_ops_desc(ops: Vec<(usize, usize, Vec<u8>)>) -> (out: Vec<(usize, usize, Vec<u8>)>)
    ensures
        ops_view(out@) == sort_desc(ops_view(ops@)),
{
    let ghost orig = sort_desc(ops_view(ops@));
    let mut rem = ops;
    let mut out: Vec<(usize, usize, Vec<u8>)> = Vec::new();
    assert(ops_view(out@) =~= Seq::<ByteOp>::empty());
    assert(ops_view(out@) + sort_desc(ops_view(rem@)) =~= orig);
    while rem.len() > 0
        invariant
            ops_view(out@) + sort_desc(ops_view(rem@)) == orig,
        decreases rem.len(),
    {
        let ghost rv = ops_view(rem@);
        let mut m: usize = 0;
        let mut j: usize = 1;
        while j < rem.len()
            invariant
                rv == ops_view(rem@),
                1 <= j <= rem.len(),
                m < j,
                m as int == first_max(rv.take(j as int)),
            decreases rem.len() - j,
        {
            assert(rv.take(j + 1).drop_last() == rv.take(j as int));
            if key_gt(&rem[j], &rem[m]) {
                m = j;
            }
            j = j + 1;
        }
        assert(rv.take(rem.len() as int) == rv);
        let x = rem.remove(m);
        assert(ops_view(rem@) == rv.remove(m as int));
        assert(ops_view(out@.push(x)) == ops_view(out@).push(op_view(x)));
        out.push(x);
        assert(ops_view(out@) + sort_desc(ops_view(rem@)) =~= (ops_view(out@).drop_last() + sort_desc(rv)));
    }
    assert(ops_view(rem@) =~= Seq::<ByteOp>::empty());
    assert(ops_view(out@) + sort_desc(ops_view(rem@)) =~= ops_view(out@));
    out
}

/// Apply a set of edits to source text, returning the modified source.
///
/// The edits become byte replacements, which are applied from the end of the
/// file backwards (descending start, then end offset) so that byte offsets
/// remain valid. Overlapping edits are rejected first, then edits whose
/// offsets fall outside the source. Where every edit's range starts no later
/// than it ends, the overlap error comes exactly when some two of the edits
/// have overlapping byte ranges, whatever their order in the list.
pub fn apply_fixes(source: &str, edits: &Vec<Edit>) -> (res: Result<String, FixError>)
    requires
        edits_accepted(edits@, encode_utf8(source@).len() as int) ==> on_char_boundaries(
            encode_utf8(source@),
            edit_ops(edits@),
        ),
    ensures
        res is Ok <==> edits_accepted(edits@, encode_utf8(source@).len() as int),
        res matches Ok(out) ==> encode_utf8(out@) == fixed_bytes(source@, edits@) && out@
            == decode_utf8(fixed_bytes(source@, edits@)),
        res matches Err(e) ==> (e == FixError::OverlappingEdits <==> has_overlap(
            sort_desc(edit_ops(edits@)),
        )),
        res matches Err(e) ==> (e == FixError::OutOfBounds <==> !has_overlap(
            sort_desc(edit_ops(edits@)),
        ) && has_out_of_bounds(sort_desc(edit_ops(edits@)), encode_utf8(source@).len() as int)),
        (forall|k: int| 0 <= k < edits@.len() ==> #[trigger] edit_op(edits@[k]).0 <= edit_op(edits@[k]).1)
            ==> (res == Err::<String, FixError>(FixError::OverlappingEdits) <==> some_pair_overlaps(
            edit_ops(edits@),
        )),
{
    let res = apply_sorted_edits(source, edits);
    proof {
        if forall|k: int| 0 <= k < edits@.len() ==> #[trigger] edit_op(edits@[k]).0 <= edit_op(edits@[k]).1 {
            lemma_overlap_is_pairwise(edits@);
        }
    }
    res
}

/// The edits' byte replacements, checked and applied in application order.
fn apply_sorted_edits(source: &str, edits: &Vec<Edit>) -> (res: Result<String, FixError>)
    requires
        edits_accepted(edits@, encode_utf8(source@).len() as int) ==> on_char_boundaries(
            encode_utf8(source@),
            edit_ops(edits@),
        ),
    ensures
        res is Ok <==> edits_accepted(edits@, encode_utf8(source@).len() as int),
        res matches Ok(out) ==> encode_utf8(out@) == fixed_bytes(source@, edits@) && out@
            == decode_utf8(fixed_bytes(source@, edits@)),
        res matches Err(e) ==> (e == FixError::OverlappingEdits <==> has_overlap(
            sort_desc(edit_ops(edits@)),
        )),
        res matches Err(e) ==> (e == FixError::OutOfBounds <==> !has_overlap(
            sort_desc(edit_ops(edits@)),
        ) && has_out_of_bounds(sort_desc(edit_ops(edits@)), encode_utf8(source@).len() as int)),
{
    let ghost bytes = encode_utf8(source@);
    if edits.len() == 0 {
        proof {
            assert(edit_ops(edits@) =~= Seq::<ByteOp>::empty());
            assert(sort_desc(edit_ops(edits@)) =~= Seq::<ByteOp>::empty());
        }
        return Ok(source.to_owned());
    }
    let mut ops: Vec<(usize, usize, Vec<u8>)> = Vec::new();
    for i in 0..edits.len()
        invariant
            ops_view(ops@) == edit_ops(edits@.take(i as int)),
    {
        let o = edit_to_op(&edits[i]);
        assert(edits@.take(i + 1) == edits@.take(i as int).push(edits@[i as int]));
        assert(ops_view(ops@.push(o)) == ops_view(ops@).push(op_view(o)));
        assert(edit_ops(edits@.take(i + 1)) == edit_ops(edits@.take(i as int)).push(
            edit_op(edits@[i as int]),
        ));
        ops.push(o);
    }
    assert(edits@.take(edits.len() as int) == edits@);
    let sorted = sort_ops_desc(ops);
    let ghost sv = ops_view(sorted@);
    assert(sv == sort_desc(edit_ops(edits@)));

    // Overlap check on neighbours in application order.
    let n = sorted.len();
    for k in 0..n - 1
        invariant
            n == sorted.len(),
            n >= 1,
            sv == ops_view(sorted@),
            sv == sort_desc(edit_ops(edits@)),
            forall|q: int| 0 <= q < k ==> #[trigger] sv[q + 1].1 <= sv[q].0,
    {
        if sorted[k + 1].1 > sorted[k].0 {
            assert(sv[k + 1].1 > sv[k as int].0);
            return Err(FixError::OverlappingEdits);
        }
    }
    assert(!has_overlap(sv));

    // Bounds check.
    let src = source.as_bytes();
    let len = src.len();
    assert(src@ == bytes);
    let mut k: usize = 0;
    while k < n
        invariant
            k <= n,
            n == sorted.len(),
            sv == ops_view(sorted@),
            sv == sort_desc(edit_ops(edits@)),
            bytes == encode_utf8(source@),
            !has_overlap(sv),
            len == bytes.len(),
            forall|q: int| 0 <= q < k ==> !(#[trigger] sv[q].0 > len || sv[q].1 > len || sv[q].0 > sv[q].1),
        decreases n - k,
    {
        if sorted[k].0 > len || sorted[k].1 > len || sorted[k].0 > sorted[k].1 {
            assert(sv[k as int].0 > len || sv[k as int].1 > len || sv[k as int].0 > sv[k as int].1);
            return Err(FixError::OutOfBounds);
        }
        proof {
            assert(sv[k as int] == op_view(sorted@[k as int]));
            assert(!(sv[k as int].0 > len || sv[k as int].1 > len || sv[k as int].0 > sv[k as int].1));
            assert forall|q: int| 0 <= q < k + 1 implies !(#[trigger] sv[q].0 > len || sv[q].1 > len || sv[q].0
                > sv[q].1) by {
                if q == k {
                    assert(sv[k as int].0 == sv[q].0);
                }
            }
        }
        k = k + 1;
    }
    assert(sv.len() == n);
    proof {
        lemma_no_out_of_bounds(sv, len as int);
    }
    assert(edits_accepted(edits@, bytes.len() as int));
    proof {
        // Every offset is a char boundary: the sorted ops are the edits' ops.
        assert forall|k: int| 0 <= k < sv.len() implies is_char_boundary(bytes, #[trigger] sv[k].0)
            && is_char_boundary(bytes, sv[k].1) by {
            lemma_sort_desc_members(edit_ops(edits@), k);
        }
    }

    // Apply from the back: the result is bytes[..hi] + tail.
    let mut tail: Vec<u8> = Vec::new();
    let mut hi: usize = len;
    for k in 0..n
        invariant
            n == sorted.len(),
            sv == ops_view(sorted@),
            sv == sort_desc(edit_ops(edits@)),
            bytes == encode_utf8(source@),
            src@ == bytes,
            valid_utf8(bytes),
            len == bytes.len(),
            hi <= len,
            is_char_boundary(bytes, hi as int),
            valid_utf8(tail@),
            bytes.take(hi as int) + tail@ == apply_ops(bytes, sv.take(k as int)),
            k == 0 ==> hi == len,
            k > 0 ==> hi == sv[k - 1].0,
            !has_overlap(sv),
            !has_out_of_bounds(sv, len as int),
            forall|q: int|
                0 <= q < sv.len() ==> is_char_boundary(bytes, #[trigger] sv[q].0) && is_char_boundary(
                    bytes,
                    sv[q].1,
                ),
    {
        let s = sorted[k].0;
        let e = sorted[k].1;
        assert(!(sv[k as int].0 > len || sv[k as int].1 > len || sv[k as int].0 > sv[k as int].1));
        if k > 0 {
            assert(!(sv[k - 1 + 1].1 > sv[k - 1].0));
        }
        assert(e <= hi);
        let mut piece = copy_bytes(&sorted[k].2);
        let mut mid = slice_bytes(src, e, hi);
        proof {
            lemma_valid_between(bytes, e as int, hi as int);
            assert(valid_utf8(piece@)) by {
                lemma_sort_desc_members(edit_ops(edits@), k as int);
                let j = choose|j: int|
                    0 <= j < edit_ops(edits@).len() && edit_ops(edits@)[j] == #[trigger] sort_desc(
                        edit_ops(edits@),
                    )[k as int];
                assert(edit_ops(edits@)[j] == edit_op(edits@[j]));
                assert(valid_utf8(Seq::<u8>::empty()));
            }
            valid_utf8_concat(piece@, mid@);
            valid_utf8_concat(piece@ + mid@, tail@);
            lemma_apply_ops_push(bytes, sv.take(k as int), sv[k as int]);
            assert(sv.take(k + 1) == sv.take(k as int).push(sv[k as int]));
            let cur = bytes.take(hi as int) + tail@;
            assert(cur.take(s as int) =~= bytes.take(s as int));
            assert(cur.skip(e as int) =~= bytes.subrange(e as int, hi as int) + tail@);
        }
        let ghost old_tail = tail@;
        piece.append(&mut mid);
        piece.append(&mut tail);
        tail = piece;
        proof {
            assert(tail@ == sv[k as int].2 + bytes.subrange(e as int, hi as int) + old_tail);
        }
        let ghost old_hi = hi;
        hi = s;
        proof {
            let cur_old = bytes.take(old_hi as int) + old_tail;
            let op = sv[k as int];
            assert(splice(cur_old, op) =~= bytes.take(s as int) + tail@);
        }
    }
    assert(sv.take(n as int) == sv);
    let mut out = slice_bytes(src, 0, hi);
    proof {
        lemma_valid_between(bytes, 0, hi as int);
        assert(bytes.subrange(0, hi as int) == bytes.take(hi as int));
        valid_utf8_concat(out@, tail@);
    }
    out.append(&mut tail);
    match string_from_utf8(out) {
        Some(s) => {
            proof {
                decode_utf8_encode_utf8(fixed_bytes(source@, edits@));
            }
            Ok(s)
        },
        None => {
            proof {
                assert(false);
            }
            Err(FixError::OutOfBounds)
        },
    }
}

/// Every element of `sort_desc(ops)` is an element of `ops`.
proof fn lemma_sort_desc_members(ops: Seq<ByteOp>, k: int)
    requires
        0 <= k < sort_desc(ops).len(),
    ensures
        sort_desc(ops).len() == ops.len(),
        exists|j: int| 0 <= j < ops.len() && ops[j] == #[trigger] sort_desc(ops)[k],
    decreases ops.len(),
{
    lemma_first_max_range(ops);
    let m = first_max(ops);
    let rest = ops.remove(m);
    if k == 0 {
        assert(sort_desc(ops)[0] == ops[m]);
        if rest.len() > 0 {
            lemma_sort_desc_members(rest, 0);
        } else {
            assert(sort_desc(rest) =~= Seq::<ByteOp>::empty());
        }
    } else {
        lemma_sort_desc_members(rest, k - 1);
        let j2 = choose|j: int| 0 <= j < rest.len() && rest[j] == #[trigger] sort_desc(rest)[k - 1];
        if j2 < m {
            assert(ops[j2] == sort_desc(ops)[k]);
        } else {
            assert(ops[j2 + 1] == sort_desc(ops)[k]);
        }
    }
}

/// The first maximal index lies inside a non-empty sequence.
pub proof fn lemma_first_max_range(ops: Seq<ByteOp>)
    ensures
        ops.len() > 0 ==> 0 <= first_max(ops) < ops.len(),
    decreases ops.len(),
{
    if ops.len() > 1 {
        lemma_first_max_range(ops.drop_last());
    }
}

/// Create a Remove edit that also consumes the trailing newline (if any),
/// so removing an import line doesn't leave a blank line.
pub fn remove_line(source: &str, edit: &Edit) -> (r: Edit)
    ensures
        ({
            let span = edit.spec_span();
            let end = span.end.offset;
            let bytes = encode_utf8(source@);
            let new_end = if end < bytes.len() && bytes[end as int] == 10u8 {
                end + 1
            } else {
                end as int
            };
            r == Edit::Remove {
                span: Span {
                    start: span.start,
                    end: crate::rule::Position { offset: new_end as usize, ..span.end },
                },
            }
        }),
{
    let span = edit.span();
    let end = span.end.offset;
    let bytes = source.as_bytes();
    let extended_end = if end < bytes.len() && bytes[end] == 10u8 {
        end + 1
    } else {
        end
    };
    let mut extended_span = span;
    extended_span.end.offset = extended_end;
    Edit::Remove { span: extended_span }
}


/// Applying no edits is accepted and gives back the source unchanged.
pub proof fn lemma_no_edits_keep_source(source: Seq<char>)
    ensures
        edits_accepted(Seq::<Edit>::empty(), encode_utf8(source).len() as int),
        fixed_bytes(source, Seq::<Edit>::empty()) == encode_utf8(source),
        decode_utf8(fixed_bytes(source, Seq::<Edit>::empty())) == source,
{
    assert(edit_ops(Seq::<Edit>::empty()) =~= Seq::<ByteOp>::empty());
    assert(sort_desc(Seq::<ByteOp>::empty()) =~= Seq::<ByteOp>::empty());
}

/// A single edit is accepted exactly when its range lies inside the source
/// with its start before its end, and then it replaces that range of the
/// original text.
pub proof fn lemma_single_edit_splices_source(source: Seq<char>, e: Edit)
    ensures
        edits_accepted(seq![e], encode_utf8(source).len() as int) <==> (edit_op(e).0 <= edit_op(e).1
            <= encode_utf8(source).len()),
        fixed_bytes(source, seq![e]) == splice(encode_utf8(source), edit_op(e)),
{
    let ops = edit_ops(seq![e]);
    assert(ops =~= seq![edit_op(e)]);
    assert(ops.remove(0) =~= Seq::<ByteOp>::empty());
    assert(sort_desc(ops) =~= seq![edit_op(e)]) by {
        assert(first_max(ops) == 0);
        assert(sort_desc(Seq::<ByteOp>::empty()) =~= Seq::<ByteOp>::empty());
    }
    let sorted = sort_desc(ops);
    assert(!has_overlap(sorted));
    if !(edit_op(e).0 <= edit_op(e).1 <= encode_utf8(source).len()) {
        assert(sorted[0] == edit_op(e));
        assert(has_out_of_bounds(sorted, encode_utf8(source).len() as int));
    }
    assert(sorted.drop_first() =~= Seq::<ByteOp>::empty());
    assert(apply_ops(encode_utf8(source), sorted) == apply_ops(
        splice(encode_utf8(source), edit_op(e)),
        Seq::<ByteOp>::empty(),
    ));
}

/// No op comes after one with a smaller (start, end) key.
pub open spec fn desc_ordered(ops: Seq<ByteOp>) -> bool {
    forall|i: int, j: int| 0 <= i < j < ops.len() ==> !op_key_gt(#[trigger] ops[j], #[trigger] ops[i])
}

/// Ops that share a (start, end) key are the same op.
pub open spec fn keys_distinct(m: Multiset<ByteOp>) -> bool {
    forall|a: ByteOp, b: ByteOp|
        #[trigger] m.contains(a) && #[trigger] m.contains(b) && a.0 == b.0 && a.1 == b.1 ==> a == b
}

proof fn lemma_first_max_is_max(ops: Seq<ByteOp>)
    requires
        ops.len() > 0,
    ensures
        forall|k: int| 0 <= k < ops.len() ==> !op_key_gt(#[trigger] ops[k], ops[first_max(ops)]),
    decreases ops.len(),
{
    lemma_first_max_range(ops);
    if ops.len() > 1 {
        let init = ops.drop_last();
        lemma_first_max_is_max(init);
        lemma_first_max_range(init);
        assert forall|k: int| 0 <= k < ops.len() implies !op_key_gt(#[trigger] ops[k], ops[first_max(ops)]) by {
            if k < ops.len() - 1 {
                assert(ops[k] == init[k]);
            }
        }
    }
}

/// `sort_desc` rearranges its ops into application order.
pub(crate) proof fn lemma_sort_desc_sorts(ops: Seq<ByteOp>)
    ensures
        sort_desc(ops).to_multiset() == ops.to_multiset(),
        desc_ordered(sort_desc(ops)),
    decreases ops.len(),
{
    broadcast use vstd::seq_lib::group_to_multiset_ensures;

    if ops.len() == 0 {
        assert(sort_desc(ops) =~= Seq::<ByteOp>::empty());
        assert(ops =~= Seq::<ByteOp>::empty());
    } else {
        lemma_first_max_range(ops);
        lemma_first_max_is_max(ops);
        let m = first_max(ops);
        let x = ops[m];
        let rest = ops.remove(m);
        lemma_sort_desc_sorts(rest);
        let sr = sort_desc(rest);
        let s = sort_desc(ops);
        assert(s == seq![x] + sr);
        assert(s =~= sr.insert(0, x));
        vstd::seq_lib::to_multiset_insert(sr, 0, x);
        assert(s.to_multiset() =~= ops.to_multiset());
        assert forall|i: int, j: int| 0 <= i < j < s.len() implies !op_key_gt(#[trigger] s[j], #[trigger] s[i]) by {
            assert(s[j] == sr[j - 1]);
            if i == 0 {
                assert(sr.to_multiset().count(sr[j - 1]) > 0);
                assert(rest.contains(sr[j - 1]));
                let r = choose|r: int| 0 <= r < rest.len() && rest[r] == sr[j - 1];
                if r < m {
                    assert(rest[r] == ops[r]);
                } else {
                    assert(rest[r] == ops[r + 1]);
                }
            } else {
                assert(s[i] == sr[i - 1]);
            }
        }
    }
}

/// Two arrangements in application order of the same ops with distinct
/// keys are the same.
proof fn lemma_desc_unique(s1: Seq<ByteOp>, s2: Seq<ByteOp>)
    requires
        s1.to_multiset() == s2.to_multiset(),
        keys_distinct(s1.to_multiset()),
        desc_ordered(s1),
        desc_ordered(s2),
    ensures
        s1 == s2,
    decreases s1.len(),
{
    broadcast use vstd::seq_lib::group_to_multiset_ensures;

    vstd::seq_lib::to_multiset_len(s1);
    vstd::seq_lib::to_multiset_len(s2);
    if s1.len() > 0 {
        let x = s1[0];
        let y = s2[0];
        assert(s2.to_multiset().count(y) > 0);
        assert(s1.contains(y));
        let k1 = choose|k: int| 0 <= k < s1.len() && s1[k] == y;
        assert(k1 == 0 || !op_key_gt(s1[k1], s1[0]));
        assert(s1.to_multiset().count(x) > 0);
        assert(s2.contains(x));
        let k2 = choose|k: int| 0 <= k < s2.len() && s2[k] == x;
        assert(k2 == 0 || !op_key_gt(s2[k2], s2[0]));
        assert(s1.to_multiset().contains(x) && s1.to_multiset().contains(y));
        assert(x == y);
        let t1 = s1.remove(0);
        let t2 = s2.remove(0);
        assert(t1.to_multiset() == s1.to_multiset().remove(x));
        assert(t2.to_multiset() == s2.to_multiset().remove(y));
        assert forall|a: ByteOp, b: ByteOp|
            #[trigger] t1.to_multiset().contains(a) && #[trigger] t1.to_multiset().contains(b) && a.0 == b.0 && a.1
                == b.1 implies a == b by {
            assert(s1.to_multiset().contains(a) && s1.to_multiset().contains(b));
        }
        assert forall|i: int, j: int| 0 <= i < j < t1.len() implies !op_key_gt(#[trigger] t1[j], #[trigger] t1[i]) by {
            assert(t1[i] == s1[i + 1] && t1[j] == s1[j + 1]);
        }
        assert forall|i: int, j: int| 0 <= i < j < t2.len() implies !op_key_gt(#[trigger] t2[j], #[trigger] t2[i]) by {
            assert(t2[i] == s2[i + 1] && t2[j] == s2[j + 1]);
        }
        lemma_desc_unique(t1, t2);
        assert(s1 =~= t1.insert(0, x));
        assert(s2 =~= t2.insert(0, y));
    }
}

/// The same edits listed in another order give the same ops, up to order.
proof fn lemma_edit_ops_multiset(a: Seq<Edit>, b: Seq<Edit>)
    requires
        a.to_multiset() == b.to_multiset(),
    ensures
        edit_ops(a).to_multiset() == edit_ops(b).to_multiset(),
    decreases a.len(),
{
    broadcast use vstd::seq_lib::group_to_multiset_ensures;

    vstd::seq_lib::to_multiset_len(a);
    vstd::seq_lib::to_multiset_len(b);
    if a.len() == 0 {
        assert(edit_ops(a) =~= Seq::<ByteOp>::empty());
        assert(edit_ops(b) =~= Seq::<ByteOp>::empty());
    } else {
        let x = a.last();
        assert(a.to_multiset().count(x) > 0);
        assert(b.contains(x));
        let k = choose|k: int| 0 <= k < b.len() && b[k] == x;
        let a1 = a.drop_last();
        let b1 = b.remove(k);
        assert(a1.push(x) =~= a);
        assert(a1.to_multiset() =~= a.to_multiset().remove(x)) by {
            assert(a.remove(a.len() - 1) =~= a1);
        }
        assert(b1.to_multiset() == b.to_multiset().remove(x));
        lemma_edit_ops_multiset(a1, b1);
        assert(edit_ops(a) =~= edit_ops(a1).push(edit_op(x)));
        assert(edit_ops(b1) =~= edit_ops(b).remove(k));
        assert(edit_ops(b)[k] == edit_op(x));
        assert(edit_ops(b1).to_multiset() == edit_ops(b).to_multiset().remove(edit_op(x)));
        assert(edit_ops(b).to_multiset().count(edit_op(x)) > 0) by {
            assert(edit_ops(b).contains(edit_op(x)));
        }
        assert(edit_ops(a).to_multiset() =~= edit_ops(b).to_multiset());
    }
}

/// An edit whose range starts after it ends is refused.
proof fn lemma_reversed_range_refused(e: Seq<Edit>, k: int, len: int)
    requires
        0 <= k < e.len(),
        edit_op(e[k]).0 > edit_op(e[k]).1,
    ensures
        !edits_accepted(e, len),
{
    broadcast use vstd::seq_lib::group_to_multiset_ensures;

    let o = edit_ops(e);
    lemma_sort_desc_sorts(o);
    let s = sort_desc(o);
    assert(o[k] == edit_op(e[k]));
    assert(o.to_multiset().count(o[k]) > 0);
    assert(s.contains(o[k]));
    let q = choose|q: int| 0 <= q < s.len() && s[q] == o[k];
    assert(s[q].0 > s[q].1);
}

/// With every range starting no later than it ends, the same edits in
/// another order overlap alike.
proof fn lemma_overlap_same_either_order(e1: Seq<Edit>, e2: Seq<Edit>)
    requires
        e1.to_multiset() == e2.to_multiset(),
    ensures
        (forall|k: int| 0 <= k < e1.len() ==> #[trigger] edit_op(e1[k]).0 <= edit_op(e1[k]).1) ==> has_overlap(
            sort_desc(edit_ops(e1)),
        ) == has_overlap(sort_desc(edit_ops(e2))),
{
    broadcast use vstd::seq_lib::group_to_multiset_ensures;

    let o1 = edit_ops(e1);
    let o2 = edit_ops(e2);
    if forall|k: int| 0 <= k < e1.len() ==> #[trigger] edit_op(e1[k]).0 <= edit_op(e1[k]).1 {
        lemma_edit_ops_multiset(e1, e2);
        assert forall|k: int| 0 <= k < e2.len() implies #[trigger] edit_op(e2[k]).0 <= edit_op(e2[k]).1 by {
            assert(o2[k] == edit_op(e2[k]));
            assert(o2.to_multiset().count(o2[k]) > 0);
            assert(o1.contains(o2[k]));
            let q = choose|q: int| 0 <= q < o1.len() && o1[q] == o2[k];
            assert(o1[q] == edit_op(e1[q]));
        }
        lemma_overlap_is_pairwise(e1);
        lemma_overlap_is_pairwise(e2);
        if some_pair_overlaps(o1) {
            let (i, j) = choose|i: int, j: int|
                0 <= i < o1.len() && 0 <= j < o1.len() && i != j && ops_overlap(#[trigger] o1[i], #[trigger] o1[j]);
            lemma_pair_in_permutation(o1, o2, i, j);
            let (i2, j2) = choose|i2: int, j2: int|
                0 <= i2 < o2.len() && 0 <= j2 < o2.len() && i2 != j2 && #[trigger] o2[i2] == o1[i] && #[trigger] o2[j2] == o1[j];
            assert(ops_overlap(o2[i2], o2[j2]));
        }
        if some_pair_overlaps(o2) {
            let (i, j) = choose|i: int, j: int|
                0 <= i < o2.len() && 0 <= j < o2.len() && i != j && ops_overlap(#[trigger] o2[i], #[trigger] o2[j]);
            lemma_pair_in_permutation(o2, o1, i, j);
            let (i2, j2) = choose|i2: int, j2: int|
                0 <= i2 < o1.len() && 0 <= j2 < o1.len() && i2 != j2 && #[trigger] o1[i2] == o2[i] && #[trigger] o1[j2] == o2[j];
            assert(ops_overlap(o1[i2], o1[j2]));
        }
    }
}

/// `apply_fixes` does not depend on the order in which the edits are listed:
/// the same edits in any order are accepted or refused alike (where every
/// range starts no later than it ends, with the same error), and when
/// accepted give the same text. The one exception is two
/// insertions of different text at the same offset, which are made in the
/// order they are listed.
pub proof fn lemma_apply_fixes_order_irrelevant(source: Seq<char>, e1: Seq<Edit>, e2: Seq<Edit>)
    requires
        e1.to_multiset() == e2.to_multiset(),
        forall|i: int, j: int|
            0 <= i < j < e1.len() && edit_op(#[trigger] e1[i]).0 == edit_op(#[trigger] e1[j]).0
                && edit_op(e1[i]).1 == edit_op(e1[j]).1 && edit_op(e1[i]).0 == edit_op(e1[i]).1
                ==> edit_op(e1[i]) == edit_op(e1[j]),
    ensures
        edits_accepted(e1, encode_utf8(source).len() as int) == edits_accepted(e2, encode_utf8(source).len() as int),
        edits_accepted(e1, encode_utf8(source).len() as int) ==> fixed_bytes(source, e1) == fixed_bytes(source, e2),
        (forall|k: int| 0 <= k < e1.len() ==> #[trigger] edit_op(e1[k]).0 <= edit_op(e1[k]).1) ==> has_overlap(
            sort_desc(edit_ops(e1)),
        ) == has_overlap(sort_desc(edit_ops(e2))),
{
    broadcast use vstd::seq_lib::group_to_multiset_ensures;

    lemma_overlap_same_either_order(e1, e2);
    let len = encode_utf8(source).len() as int;
    let o1 = edit_ops(e1);
    let o2 = edit_ops(e2);
    lemma_edit_ops_multiset(e1, e2);
    lemma_sort_desc_sorts(o1);
    lemma_sort_desc_sorts(o2);
    let s1 = sort_desc(o1);
    let s2 = sort_desc(o2);
    if keys_distinct(s1.to_multiset()) {
        lemma_desc_unique(s1, s2);
    } else {
        let (a, b) = choose|a: ByteOp, b: ByteOp|
            #[trigger] s1.to_multiset().contains(a) && #[trigger] s1.to_multiset().contains(b) && a.0 == b.0
                && a.1 == b.1 && a != b;
        assert(o1.contains(a) && o1.contains(b));
        let i = choose|i: int| 0 <= i < o1.len() && o1[i] == a;
        let j = choose|j: int| 0 <= j < o1.len() && o1[j] == b;
        assert(o1[i] == edit_op(e1[i]) && o1[j] == edit_op(e1[j]));
        assert(a.0 != a.1) by {
            if i < j {
            } else {
            }
        }
        if exists|k: int| 0 <= k < e1.len() && #[trigger] edit_op(e1[k]).0 > edit_op(e1[k]).1 {
            let k = choose|k: int| 0 <= k < e1.len() && #[trigger] edit_op(e1[k]).0 > edit_op(e1[k]).1;
            lemma_reversed_range_refused(e1, k, len);
            assert(o1[k] == edit_op(e1[k]));
            assert(o1.to_multiset().count(o1[k]) > 0);
            assert(o2.contains(o1[k]));
            let k2 = choose|k2: int| 0 <= k2 < o2.len() && o2[k2] == o1[k];
            assert(o2[k2] == edit_op(e2[k2]));
            lemma_reversed_range_refused(e2, k2, len);
        } else {
            assert forall|k: int| 0 <= k < e2.len() implies #[trigger] edit_op(e2[k]).0 <= edit_op(e2[k]).1 by {
                assert(o2[k] == edit_op(e2[k]));
                assert(o2.to_multiset().count(o2[k]) > 0);
                assert(o1.contains(o2[k]));
                let q = choose|q: int| 0 <= q < o1.len() && o1[q] == o2[k];
                assert(o1[q] == edit_op(e1[q]));
            }
            assert(a.0 < a.1);
            lemma_overlap_is_pairwise(e1);
            lemma_overlap_is_pairwise(e2);
            assert(ops_overlap(o1[i], o1[j]));
            assert(i != j);
            lemma_pair_in_permutation(o1, o2, i, j);
            let (i2, j2) = choose|i2: int, j2: int|
                0 <= i2 < o2.len() && 0 <= j2 < o2.len() && i2 != j2 && #[trigger] o2[i2] == o1[i] && #[trigger] o2[j2] == o1[j];
            assert(ops_overlap(o2[i2], o2[j2]));
        }
    }
}

} // verus!
