//! The data a lint rule reports: source positions, spans, edits, fixes and
//! the findings themselves.

use vstd::prelude::*;

verus! {

/// A position in a source file: byte offset plus 1-based line and column.
#[derive(Clone, Copy, Debug, PartialEq, Eq, Structural)]
pub struct Position {
    pub offset: usize,
    pub line: u32,
    pub column: u32,
}

/// A half-open byte range `start.offset .. end.offset` with its line/column ends.
#[derive(Clone, Copy, Debug, PartialEq, Eq, Structural)]
pub struct Span {
    pub start: Position,
    pub end: Position,
}

/// How serious a finding is.
#[derive(Clone, Copy, Debug, PartialEq, Eq, Structural)]
pub enum Severity {
    Error,
    Warning,
}

/// One textual change proposed by an auto-fix.
#[derive(Clone, Debug)]
pub enum Edit {
    /// Replace the bytes of `span` by `replacement`.
    Replace { span: Span, replacement: String },
    /// Insert `text` right after the end of `span`.
    InsertAfter { span: Span, text: String },
    /// Delete the bytes of `span`.
    Remove { span: Span },
}

/// An auto-fix: a set of edits applied together.
#[derive(Clone, Debug)]
pub struct Fix {
    pub edits: Vec<Edit>,
}

/// A finding reported by a lint rule for one file.
#[derive(Clone, Debug)]
pub struct LintError {
    pub rule: String,
    pub severity: Severity,
    pub message: String,
    pub span: Span,
    pub fix: Option<Fix>,
}

impl Edit {
    /// The span the edit is anchored at.
    pub open spec fn spec_span(self) -> Span {
        match self {
            Edit::Replace { span, .. } => span,
            Edit::InsertAfter { span, .. } => span,
            Edit::Remove { span } => span,
        }
    }

    /// The span the edit is anchored at.
    pub fn span(&self) -> (s: Span)
        ensures
            s == self.spec_span(),
    {
        match self {
            Edit::Replace { span, .. } => *span,
            Edit::InsertAfter { span, .. } => *span,
            Edit::Remove { span } => *span,
        }
    }

    /// An identical copy of the edit.
    pub fn duplicate(&self) -> (e: Edit)
        ensures
            e == *self,
    {
        match self {
            Edit::Replace { span, replacement } => Edit::Replace {
                span: *span,
                replacement: replacement.clone(),
            },
            Edit::InsertAfter { span, text } => Edit::InsertAfter { span: *span, text: text.clone() },
            Edit::Remove { span } => Edit::Remove { span: *span },
        }
    }
}

/// A copy of `edits`, element by element.
pub fn duplicate_edits(edits: &Vec<Edit>) -> (out: Vec<Edit>)
    ensures
        out@ == edits@,
{
    let mut out: Vec<Edit> = Vec::new();
    for i in 0..edits.len()
        invariant
            out@ == edits@.take(i as int),
    {
        out.push(edits[i].duplicate());
        assert(edits@.take(i + 1) == edits@.take(i as int).push(edits@[i as int]));
    }
    assert(edits@.take(edits.len() as int) == edits@);
    out
}

/// The mathematical content of a finding: its text as character sequences and
/// its fix as the sequence of its edits.
pub struct LintErrorModel {
    pub rule: Seq<char>,
    pub severity: Severity,
    pub message: Seq<char>,
    pub span: Span,
    pub fix: Option<Seq<Edit>>,
}

impl View for Fix {
    type V = Seq<Edit>;

    open spec fn view(&self) -> Seq<Edit> {
        self.edits@
    }
}

impl View for LintError {
    type V = LintErrorModel;

    open spec fn view(&self) -> LintErrorModel {
        LintErrorModel {
            rule: self.rule@,
            severity: self.severity,
            message: self.message@,
            span: self.span,
            fix: match self.fix {
                Some(f) => Some(f@),
                None => None,
            },
        }
    }
}

impl Fix {
    /// An identical copy of the fix.
    pub fn duplicate(&self) -> (f: Fix)
        ensures
            f@ == self@,
    {
        Fix { edits: duplicate_edits(&self.edits) }
    }
}

impl LintError {
    /// An identical copy of the finding.
    pub fn duplicate(&self) -> (e: LintError)
        ensures
            e@ == self@,
    {
        let fix = match &self.fix {
            Some(f) => Some(f.duplicate()),
            None => None,
        };
        LintError {
            rule: self.rule.clone(),
            severity: self.severity,
            message: self.message.clone(),
            span: self.span,
            fix,
        }
    }
}

} // verus!
