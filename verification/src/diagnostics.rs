//! Diagnostics reported by the analysis passes.
//!
//! A diagnostic carries a severity, the number of its semantic code (`S001`
//! is code 1), a message and the span it points at.

use vstd::prelude::*;
use crate::ast::Span;

verus! {

/// `S001`: a type reference that resolves to nothing.
pub const UNRESOLVED_TYPE: u16 = 1;
/// `S002`: a name declared twice in one file.
pub const DUPLICATE_DECLARATION: u16 = 2;
/// `S003`: a concept that inherits from itself.
pub const CIRCULAR_INHERITANCE: u16 = 3;
/// `S004`: a `sub` parent that is not a concept.
pub const PARENT_NOT_CONCEPT: u16 = 4;
/// `S005`: a property domain that is not a concept.
pub const DOMAIN_NOT_CONCEPT: u16 = 5;
/// `S006`: a cardinality range whose minimum exceeds its maximum.
pub const INVALID_CARDINALITY: u16 = 6;

/// How serious a diagnostic is.
#[derive(Clone, Copy, Debug, PartialEq, Eq, Structural)]
pub enum Severity {
    Hint,
    Info,
    Warning,
    Error,
}

/// A single diagnostic.
#[derive(Debug)]
pub struct Diagnostic {
    pub severity: Severity,
    /// The number of the semantic code: 1 for `S001`.
    pub code: u16,
    pub message: String,
    /// The span the diagnostic points at; `None` means the whole file.
    pub span: Option<Span>,
}

/// A diagnostic as a mathematical value.
pub struct DiagnosticView {
    pub severity: Severity,
    pub code: u16,
    pub message: Seq<char>,
    pub span: Option<Span>,
}

impl View for Diagnostic {
    type V = DiagnosticView;

    open spec fn view(&self) -> DiagnosticView {
        DiagnosticView { severity: self.severity, code: self.code, message: self.message@, span: self.span }
    }
}

/// The error with the given code, message and span.
pub open spec fn error_view(code: u16, message: Seq<char>, span: Option<Span>) -> DiagnosticView {
    DiagnosticView { severity: Severity::Error, code, message, span }
}

/// The views of a list of diagnostics.
pub open spec fn diagnostic_views(s: Seq<Diagnostic>) -> Seq<DiagnosticView> {
    s.map_values(|d: Diagnostic| d@)
}

impl Diagnostic {
    /// An error with the given code, message and span.
    pub fn error(code: u16, message: String, span: Option<Span>) -> (r: Diagnostic)
        ensures
            r@ == error_view(code, message@, span),
    {
        Diagnostic { severity: Severity::Error, code, message, span }
    }
}

/// Appends the diagnostics of `more` to `diags`.
pub fn append_diagnostics(diags: &mut Vec<Diagnostic>, more: Vec<Diagnostic>)
    ensures
        diagnostic_views(final(diags)@) == diagnostic_views(old(diags)@) + diagnostic_views(more@),
{
    let mut more = more;
    let ghost m0 = more@;
    let ghost d0 = diags@;
    diags.append(&mut more);
    assert(diagnostic_views(diags@) =~= diagnostic_views(d0) + diagnostic_views(m0));
}

} // verus!
