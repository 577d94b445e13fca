//! The linter's decisions when it applies fixes file by file: what an
//! answer to the "apply fix?" prompt means, and what to do with one file's
//! collected edits.

use vstd::prelude::*;
use vstd::utf8::*;

use crate::elm::{check_fixed_source, elm_outline};
use crate::fix::{apply_fixes, edit_ops, edits_accepted, fixed_bytes, has_overlap, on_char_boundaries, sort_desc, FixError};
use crate::rule::Edit;
use vstd::string::StringSliceAdditionalSpecFns;
use crate::text::{chars_eq, chars_of};

verus! {

/// What an answer to the "apply fix?" prompt asks for.
#[derive(Clone, Copy, Debug, PartialEq, Eq, Structural)]
pub enum FixAnswer {
    Apply,
    Skip,
    Quit,
}

/// The meaning of a (trimmed, lower-cased) answer: `q` quits, `y` or `yes`
/// applies the fix, anything else skips it.
pub fn fix_answer(answer: &str) -> (r: FixAnswer)
    ensures
        r == (if answer@ == "q"@ {
            FixAnswer::Quit
        } else if answer@ == "y"@ || answer@ == "yes"@ {
            FixAnswer::Apply
        } else {
            FixAnswer::Skip
        }),
{
    let a = chars_of(answer);
    if chars_eq(&a, &chars_of("q")) {
        FixAnswer::Quit
    } else if chars_eq(&a, &chars_of("y")) || chars_eq(&a, &chars_of("yes")) {
        FixAnswer::Apply
    } else {
        FixAnswer::Skip
    }
}

/// Whether every edit starts and ends on a character boundary of `source`.
pub fn edits_on_char_boundaries(source: &str, edits: &Vec<Edit>) -> (r: bool)
    ensures
        r == on_char_boundaries(encode_utf8(source@), edit_ops(edits@)),
{
    let ghost bytes = encode_utf8(source@);
    let ghost ops = edit_ops(edits@);
    assert(source.spec_bytes() == bytes);
    let mut k: usize = 0;
    while k < edits.len()
        invariant
            k <= edits@.len(),
            ops == edit_ops(edits@),
            ops.len() == edits@.len(),
            bytes == encode_utf8(source@),
            source.spec_bytes() == bytes,
            forall|q: int| 0 <= q < k ==> is_char_boundary(bytes, #[trigger] ops[q].0) && is_char_boundary(bytes, ops[q].1),
        decreases edits.len() - k,
    {
        let (a, b) = match &edits[k] {
            Edit::Replace { span, .. } => (span.start.offset, span.end.offset),
            Edit::InsertAfter { span, .. } => (span.end.offset, span.end.offset),
            Edit::Remove { span } => (span.start.offset, span.end.offset),
        };
        assert(ops[k as int].0 == a && ops[k as int].1 == b);
        let ok_a = source.is_char_boundary(a);
        let ok_b = source.is_char_boundary(b);
        if !ok_a || !ok_b {
            assert(!(is_char_boundary(bytes, ops[k as int].0) && is_char_boundary(bytes, ops[k as int].1)));
            return false;
        }
        assert(is_char_boundary(bytes, ops[k as int].0) && is_char_boundary(bytes, ops[k as int].1));
        assert forall|q: int| 0 <= q < k + 1 implies is_char_boundary(bytes, #[trigger] ops[q].0) && is_char_boundary(
            bytes,
            ops[q].1,
        ) by {
            if q == k {
                assert(ops[q] == ops[k as int]);
            }
        }
        k = k + 1;
    }
    true
}

/// What to do with one file once its edits are collected.
#[derive(Clone, Debug)]
pub enum FilePlan {
    /// No edit was chosen.
    NothingToDo,
    /// Write this fixed text.
    Write(String),
    /// The fixed text no longer parses; leave the file alone.
    InvalidElm,
    /// The edits could not be applied.
    NotApplied(FixError),
}

/// Apply one file's chosen edits and check the result still parses before
/// it is written.
pub fn plan_file_fix(path: &str, source: &str, edits: &Vec<Edit>) -> (r: FilePlan)
    requires
        edits_accepted(edits@, encode_utf8(source@).len() as int) ==> on_char_boundaries(
            encode_utf8(source@),
            edit_ops(edits@),
        ),
    ensures
        edits@.len() == 0 <==> r is NothingToDo,
        r is NotApplied <==> edits@.len() > 0 && !edits_accepted(edits@, encode_utf8(source@).len() as int),
        r matches FilePlan::NotApplied(e) ==> (e == FixError::OverlappingEdits <==> has_overlap(
            sort_desc(edit_ops(edits@)),
        )),
        r is InvalidElm <==> edits@.len() > 0 && edits_accepted(edits@, encode_utf8(source@).len() as int)
            && elm_outline(decode_utf8(fixed_bytes(source@, edits@))) is Err,
        r matches FilePlan::Write(t) ==> t@ == decode_utf8(fixed_bytes(source@, edits@)) && elm_outline(t@) is Ok,
{
    if edits.len() == 0 {
        return FilePlan::NothingToDo;
    }
    match apply_fixes(source, edits) {
        Ok(fixed) => {
            match check_fixed_source(path, fixed.as_str()) {
                Ok(()) => FilePlan::Write(fixed),
                Err(_) => FilePlan::InvalidElm,
            }
        },
        Err(e) => FilePlan::NotApplied(e),
    }
}

} // verus!
