//! Findings as the flat records the JSON export writes: position, rule,
//! severity as text, message and whether a fix exists.

use vstd::prelude::*;

use crate::lint_cache::severity_text;
use crate::rule::{LintError, Severity};

verus! {

/// One exported finding.
#[derive(Clone, Debug)]
pub struct FindingRecord {
    pub file: String,
    pub line: u32,
    pub column: u32,
    pub end_line: u32,
    pub end_column: u32,
    pub rule: String,
    pub severity: String,
    pub message: String,
    pub fixable: bool,
}

/// The record of a finding in `path`.
pub open spec fn record_of(path: Seq<char>, e: LintError) -> (Seq<char>, u32, u32, u32, u32, Seq<char>, Seq<char>, Seq<char>, bool) {
    (
        path,
        e.span.start.line,
        e.span.start.column,
        e.span.end.line,
        e.span.end.column,
        e.rule@,
        severity_text(e.severity),
        e.message@,
        e.fix is Some,
    )
}

/// A record by its fields.
pub open spec fn record_view(r: FindingRecord) -> (Seq<char>, u32, u32, u32, u32, Seq<char>, Seq<char>, Seq<char>, bool) {
    (r.file@, r.line, r.column, r.end_line, r.end_column, r.rule@, r.severity@, r.message@, r.fixable)
}

/// The export record of one finding.
pub fn finding_record(path: &String, err: &LintError) -> (r: FindingRecord)
    ensures
        record_view(r) == record_of(path@, *err),
{
    let severity = match err.severity {
        Severity::Error => "error".to_string(),
        Severity::Warning => "warning".to_string(),
    };
    FindingRecord {
        file: path.clone(),
        line: err.span.start.line,
        column: err.span.start.column,
        end_line: err.span.end.line,
        end_column: err.span.end.column,
        rule: err.rule.clone(),
        severity,
        message: err.message.clone(),
        fixable: err.fix.is_some(),
    }
}

/// The export records of the findings, in order.
pub fn finding_records(errors: &Vec<(String, LintError)>) -> (out: Vec<FindingRecord>)
    ensures
        out@.map_values(|r: FindingRecord| record_view(r)) == errors@.map_values(
            |e: (String, LintError)| record_of(e.0@, e.1),
        ),
{
    let mut out: Vec<FindingRecord> = Vec::new();
    for i in 0..errors.len()
        invariant
            out@.map_values(|r: FindingRecord| record_view(r)) == errors@.take(i as int).map_values(
                |e: (String, LintError)| record_of(e.0@, e.1),
            ),
    {
        let ghost o0 = out@;
        out.push(finding_record(&errors[i].0, &errors[i].1));
        assert(out@.map_values(|r: FindingRecord| record_view(r)) == o0.map_values(|r: FindingRecord| record_view(r)).push(
            record_of(errors@[i as int].0@, errors@[i as int].1),
        ));
        assert(errors@.take(i + 1) == errors@.take(i as int).push(errors@[i as int]));
    }
    assert(errors@.take(errors.len() as int) == errors@);
    out
}

} // verus!
