use vstd::prelude::*;

verus! {

/// A half-open byte range `[start, end)` of the input.
#[derive(Debug, Clone, Copy, PartialEq, Eq, Structural)]
pub struct Span {
    pub start: usize,
    pub end: usize,
}

#[derive(Debug, Clone, Copy, PartialEq, Eq, Structural)]
pub enum Severity {
    Error,
    Warning,
}

/// The most diagnostics a single run reports.
pub const MAX_DIAGNOSTICS: usize = 100;

#[derive(Debug, Clone)]
pub struct Diagnostic {
    pub code: &'static str,
    pub message: String,
    pub span: Span,
    pub hint: Option<String>,
    pub severity: Severity,
    /// Secondary location, e.g. the first occurrence of a duplicated key.
    pub related: Option<Span>,
}

/// The mathematical content of a diagnostic.
pub struct DiagModel {
    pub code: Seq<char>,
    pub message: Seq<char>,
    pub span: Span,
    pub hint: Option<Seq<char>>,
    pub severity: Severity,
    pub related: Option<Span>,
}

pub open spec fn opt_string_view(o: Option<String>) -> Option<Seq<char>> {
    match o {
        Some(s) => Some(s@),
        None => None,
    }
}

impl View for Diagnostic {
    type V = DiagModel;

    open spec fn view(&self) -> DiagModel {
        DiagModel {
            code: self.code@,
            message: self.message@,
            span: self.span,
            hint: opt_string_view(self.hint),
            severity: self.severity,
            related: self.related,
        }
    }
}

pub open spec fn diags_view(v: Seq<Diagnostic>) -> Seq<DiagModel> {
    v.map_values(|d: Diagnostic| d@)
}

} // verus!
