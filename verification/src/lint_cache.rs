//! Findings in the form the lint cache keeps them: plain fields, the
//! severity as text and, in place of the fix, whether there was one.
//! Reading a stored finding back gives the same finding without its fix.

use vstd::prelude::*;

use crate::rule::{LintError, LintErrorModel, Position, Severity, Span};
use crate::text::{chars_eq, chars_of};

verus! {

/// A finding as the cache stores it.
#[derive(Clone, Debug)]
pub struct CachedError {
    pub rule: String,
    pub message: String,
    pub severity: String,
    pub start_line: u32,
    pub start_col: u32,
    pub start_offset: usize,
    pub end_line: u32,
    pub end_col: u32,
    pub end_offset: usize,
    pub fixable: bool,
}

/// The content of a cached finding: its texts and its span.
pub struct CachedErrorModel {
    pub rule: Seq<char>,
    pub message: Seq<char>,
    pub severity: Seq<char>,
    pub span: Span,
    pub fixable: bool,
}

impl View for CachedError {
    type V = CachedErrorModel;

    open spec fn view(&self) -> CachedErrorModel {
        CachedErrorModel {
            rule: self.rule@,
            message: self.message@,
            severity: self.severity@,
            span: Span {
                start: Position { offset: self.start_offset, line: self.start_line, column: self.start_col },
                end: Position { offset: self.end_offset, line: self.end_line, column: self.end_col },
            },
            fixable: self.fixable,
        }
    }
}

/// How a severity is written in the cache.
pub open spec fn severity_text(s: Severity) -> Seq<char> {
    match s {
        Severity::Error => "error"@,
        Severity::Warning => "warning"@,
    }
}

/// What the cache stores of a finding.
pub open spec fn stored(e: LintErrorModel) -> CachedErrorModel {
    CachedErrorModel {
        rule: e.rule,
        message: e.message,
        severity: severity_text(e.severity),
        span: e.span,
        fixable: e.fix is Some,
    }
}

/// The finding a stored entry reads back as: any severity text other than
/// `error` reads as a warning, and no fix comes back.
pub open spec fn restored(c: CachedErrorModel) -> LintErrorModel {
    LintErrorModel {
        rule: c.rule,
        severity: if c.severity == "error"@ {
            Severity::Error
        } else {
            Severity::Warning
        },
        message: c.message,
        span: c.span,
        fix: None,
    }
}

/// Each file's findings as stored entries.
pub open spec fn stored_files(files: Seq<(String, Vec<LintError>)>) -> Seq<(Seq<char>, Seq<CachedErrorModel>)> {
    files.map_values(
        |f: (String, Vec<LintError>)| (f.0@, f.1@.map_values(|e: LintError| stored(e@))),
    )
}

/// Each file's stored entries as findings.
pub open spec fn restored_files(files: Seq<(String, Vec<CachedError>)>) -> Seq<(Seq<char>, Seq<LintErrorModel>)> {
    files.map_values(
        |f: (String, Vec<CachedError>)| (f.0@, f.1@.map_values(|c: CachedError| restored(c@))),
    )
}

/// Each file's stored entries, by their content.
pub open spec fn cached_files_view(files: Seq<(String, Vec<CachedError>)>) -> Seq<(Seq<char>, Seq<CachedErrorModel>)> {
    files.map_values(
        |f: (String, Vec<CachedError>)| (f.0@, f.1@.map_values(|c: CachedError| c@)),
    )
}

/// Each file's findings, by their content.
pub open spec fn error_files_view(files: Seq<(String, Vec<LintError>)>) -> Seq<(Seq<char>, Seq<LintErrorModel>)> {
    files.map_values(
        |f: (String, Vec<LintError>)| (f.0@, f.1@.map_values(|e: LintError| e@)),
    )
}

fn severity_string(s: Severity) -> (t: String)
    ensures
        t@ == severity_text(s),
{
    match s {
        Severity::Error => "error".to_string(),
        Severity::Warning => "warning".to_string(),
    }
}

fn to_cached(e: &LintError) -> (c: CachedError)
    ensures
        c@ == stored(e@),
{
    CachedError {
        rule: e.rule.clone(),
        message: e.message.clone(),
        severity: severity_string(e.severity),
        start_line: e.span.start.line,
        start_col: e.span.start.column,
        start_offset: e.span.start.offset,
        end_line: e.span.end.line,
        end_col: e.span.end.column,
        end_offset: e.span.end.offset,
        fixable: e.fix.is_some(),
    }
}

fn from_cached(c: &CachedError) -> (e: LintError)
    ensures
        e@ == restored(c@),
{
    let is_error = chars_eq(&chars_of(c.severity.as_str()), &chars_of("error"));
    LintError {
        rule: c.rule.clone(),
        severity: if is_error {
            Severity::Error
        } else {
            Severity::Warning
        },
        message: c.message.clone(),
        span: Span {
            start: Position { offset: c.start_offset, line: c.start_line, column: c.start_col },
            end: Position { offset: c.end_offset, line: c.end_line, column: c.end_col },
        },
        fix: None,
    }
}

/// Convert each file's findings into the entries the cache stores.
pub fn lint_errors_to_cached(file_errors: &Vec<(String, Vec<LintError>)>) -> (out: Vec<(String, Vec<CachedError>)>)
    ensures
        cached_files_view(out@) == stored_files(file_errors@),
{
    let mut out: Vec<(String, Vec<CachedError>)> = Vec::new();
    for i in 0..file_errors.len()
        invariant
            cached_files_view(out@) == stored_files(file_errors@.take(i as int)),
    {
        let (path, errors) = &file_errors[i];
        let mut cached: Vec<CachedError> = Vec::new();
        for j in 0..errors.len()
            invariant
                cached@.map_values(|c: CachedError| c@) == errors@.take(j as int).map_values(
                    |e: LintError| stored(e@),
                ),
        {
            let ghost c0 = cached@;
            cached.push(to_cached(&errors[j]));
            assert(cached@.map_values(|c: CachedError| c@) == c0.map_values(|c: CachedError| c@).push(
                stored(errors@[j as int]@),
            ));
            assert(errors@.take(j + 1) == errors@.take(j as int).push(errors@[j as int]));
        }
        assert(errors@.take(errors.len() as int) == errors@);
        let ghost o0 = out@;
        out.push((path.clone(), cached));
        assert(cached_files_view(out@) == cached_files_view(o0).push(
            (path@, errors@.map_values(|e: LintError| stored(e@))),
        ));
        assert(file_errors@.take(i + 1) == file_errors@.take(i as int).push(file_errors@[i as int]));
    }
    assert(file_errors@.take(file_errors.len() as int) == file_errors@);
    out
}

/// Convert stored entries back into each file's findings (without fixes).
pub fn cached_to_lint_errors(cached: &Vec<(String, Vec<CachedError>)>) -> (out: Vec<(String, Vec<LintError>)>)
    ensures
        error_files_view(out@) == restored_files(cached@),
{
    let mut out: Vec<(String, Vec<LintError>)> = Vec::new();
    for i in 0..cached.len()
        invariant
            error_files_view(out@) == restored_files(cached@.take(i as int)),
    {
        let (path, entries) = &cached[i];
        let mut errors: Vec<LintError> = Vec::new();
        for j in 0..entries.len()
            invariant
                errors@.map_values(|e: LintError| e@) == entries@.take(j as int).map_values(
                    |c: CachedError| restored(c@),
                ),
        {
            let ghost e0 = errors@;
            errors.push(from_cached(&entries[j]));
            assert(errors@.map_values(|e: LintError| e@) == e0.map_values(|e: LintError| e@).push(
                restored(entries@[j as int]@),
            ));
            assert(entries@.take(j + 1) == entries@.take(j as int).push(entries@[j as int]));
        }
        assert(entries@.take(entries.len() as int) == entries@);
        let ghost o0 = out@;
        out.push((path.clone(), errors));
        assert(error_files_view(out@) == error_files_view(o0).push(
            (path@, entries@.map_values(|c: CachedError| restored(c@))),
        ));
        assert(cached@.take(i + 1) == cached@.take(i as int).push(cached@[i as int]));
    }
    assert(cached@.take(cached.len() as int) == cached@);
    out
}

/// A finding stored in the cache reads back as the same finding without
/// its fix.
pub proof fn lemma_cache_round_trip(e: LintErrorModel)
    ensures
        restored(stored(e)) == (LintErrorModel { fix: None, ..e }),
{
    reveal_strlit("error");
    reveal_strlit("warning");
    assert("error"@ != "warning"@) by {
        assert("error"@[0] != "warning"@[0]);
    }
}


/// Each file's findings with their fixes dropped.
pub open spec fn without_fixes(files: Seq<(Seq<char>, Seq<LintErrorModel>)>) -> Seq<(Seq<char>, Seq<LintErrorModel>)> {
    files.map_values(
        |f: (Seq<char>, Seq<LintErrorModel>)| (f.0, f.1.map_values(|e: LintErrorModel| LintErrorModel { fix: None, ..e })),
    )
}

/// Reading back what was stored for a set of files gives each file's
/// findings, in order, without their fixes.
pub proof fn lemma_files_round_trip(files: Seq<(String, Vec<LintError>)>, cached: Seq<(String, Vec<CachedError>)>)
    requires
        cached_files_view(cached) == stored_files(files),
    ensures
        restored_files(cached) == without_fixes(error_files_view(files)),
{
    let lhs = restored_files(cached);
    let rhs = without_fixes(error_files_view(files));
    assert(cached_files_view(cached).len() == cached.len());
    assert(stored_files(files).len() == files.len());
    assert forall|i: int| 0 <= i < cached.len() implies #[trigger] lhs[i] == rhs[i] by {
        assert(cached_files_view(cached)[i] == stored_files(files)[i]);
        let cs = cached[i].1@;
        let es = files[i].1@;
        assert(cs.map_values(|c: CachedError| c@) == es.map_values(|e: LintError| stored(e@)));
        assert(cs.len() == es.len()) by {
            assert(cs.map_values(|c: CachedError| c@).len() == es.map_values(|e: LintError| stored(e@)).len());
        }
        assert forall|j: int| 0 <= j < cs.len() implies #[trigger] lhs[i].1[j] == rhs[i].1[j] by {
            assert(cs.map_values(|c: CachedError| c@)[j] == es.map_values(|e: LintError| stored(e@))[j]);
            lemma_cache_round_trip(es[j]@);
        }
        assert(lhs[i].1 =~= rhs[i].1);
    }
    assert(lhs =~= rhs);
}
} // verus!
