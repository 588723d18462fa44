//! User-facing findings.

use vstd::prelude::*;

use crate::span::Span;

verus! {

#[derive(Debug, Clone, Copy, PartialEq, Eq, Structural)]
pub enum Severity {
    Error,
    Warning,
}

/// One user-facing finding. A stage may produce any number of diagnostics;
/// a pipeline continues only when none of them is an error.
#[derive(Debug, PartialEq)]
pub struct Diagnostic {
    pub severity: Severity,
    pub message: String,
    pub span: Option<Span>,
}

pub struct DiagnosticView {
    pub severity: Severity,
    pub message: Seq<char>,
    pub span: Option<Span>,
}

impl View for Diagnostic {
    type V = DiagnosticView;

    open spec fn view(&self) -> DiagnosticView {
        DiagnosticView { severity: self.severity, message: self.message@, span: self.span }
    }
}

pub open spec fn error_view(message: Seq<char>, span: Option<Span>) -> DiagnosticView {
    DiagnosticView { severity: Severity::Error, message, span }
}

pub open spec fn warning_view(message: Seq<char>, span: Option<Span>) -> DiagnosticView {
    DiagnosticView { severity: Severity::Warning, message, span }
}

/// The findings of a list, in order.
pub open spec fn views(diags: Seq<Diagnostic>) -> Seq<DiagnosticView> {
    Seq::new(diags.len(), |i: int| diags[i]@)
}

pub proof fn lemma_views_push(diags: Seq<Diagnostic>, d: Diagnostic)
    ensures
        views(diags.push(d)) == views(diags).push(d@),
{
    assert(views(diags.push(d)) =~= views(diags).push(d@));
}

/// Whether a list holds an error.
pub open spec fn any_error(diags: Seq<DiagnosticView>) -> bool {
    exists|i: int| 0 <= i < diags.len() && (#[trigger] diags[i]).severity == Severity::Error
}

impl Clone for Diagnostic {
    fn clone(&self) -> (r: Self)
        ensures
            r@ == self@,
    {
        Diagnostic { severity: self.severity, message: self.message.clone(), span: self.span }
    }
}

impl Diagnostic {
    pub fn error(message: String, span: Option<Span>) -> (r: Diagnostic)
        ensures
            r@ == error_view(message@, span),
    {
        Diagnostic { severity: Severity::Error, message, span }
    }

    pub fn warning(message: String, span: Option<Span>) -> (r: Diagnostic)
        ensures
            r@ == warning_view(message@, span),
    {
        Diagnostic { severity: Severity::Warning, message, span }
    }

    pub fn is_error(&self) -> (r: bool)
        ensures
            r == (self@.severity == Severity::Error),
    {
        self.severity == Severity::Error
    }
}

/// True when any diagnostic is an error.
pub fn has_errors(diags: &[Diagnostic]) -> (r: bool)
    ensures
        r == any_error(views(diags@)),
{
    let mut i: usize = 0;
    while i < diags.len()
        invariant
            i <= diags@.len(),
            forall|k: int| 0 <= k < i ==> (#[trigger] views(diags@)[k]).severity != Severity::Error,
        decreases diags@.len() - i,
    {
        if diags[i].is_error() {
            assert(views(diags@)[i as int].severity == Severity::Error);
            return true;
        }
        i = i + 1;
    }
    false
}

} // verus!
