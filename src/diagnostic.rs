use vstd::prelude::*;
use crate::source_unit::SourceUnitId;
use crate::tok::tokbuf::Key;
use crate::util::inline_vec::InlineVec;

verus! {

/// A problem found in a source unit, seen uniformly by renderers.
pub trait Diagnostic {
    /// How severe the diagnostic is.
    spec fn spec_severity(&self) -> DiagnosticSeverity;

    /// The title a renderer shows.
    spec fn spec_title(&self) -> Seq<char>;

    fn view(&self) -> (r: DiagnosticView)
        ensures
            r.severity == self.spec_severity(),
            r.title@ == self.spec_title(),
    ;
}

/// The title of a missing-token diagnostic.
pub open spec fn missing_tok_title() -> Seq<char> {
    "Missing token"@
}

/// `v` is the view of a missing-token diagnostic: an error titled "Missing token" that quotes
/// the one token `at` of `source_unit`.
pub open spec fn is_missing_tok_view(v: DiagnosticView, source_unit: SourceUnitId, at: Key) -> bool {
    &&& v.severity == DiagnosticSeverity::Error
    &&& v.title@ == missing_tok_title()
    &&& v.elements@.len() == 1
    &&& v.elements@[0] matches DiagnosticViewElement::SourceQuote(q) && q.source_unit == source_unit
        && q.indicated_toks@ == seq![at]
}

/// What a renderer shows of a diagnostic.
pub struct DiagnosticView {
    pub severity: DiagnosticSeverity,
    pub title: &'static str,
    pub elements: InlineVec<DiagnosticViewElement, 3>,
}

pub enum DiagnosticViewElement {
    SourceQuote(SourceQuote),
    StaticMessage(&'static str),
}

/// Tokens of a source unit to show.
pub struct SourceQuote {
    pub source_unit: SourceUnitId,
    pub indicated_toks: InlineVec<Key, 3>,
}

#[derive(Clone, Copy, PartialEq, Eq, Structural)]
pub enum DiagnosticSeverity {
    Error,
    Warning,
}

/// Every kind of diagnostic.
pub enum AnyDiagnostic {
    MissingTok(MissingTok),
}

impl AnyDiagnostic {
    pub fn view(&self) -> (r: DiagnosticView)
        ensures
            match self {
                AnyDiagnostic::MissingTok(m) => is_missing_tok_view(r, m.source_unit, m.at),
            },
    {
        match self {
            AnyDiagnostic::MissingTok(diag) => diag.view_missing(),
        }
    }
}

/// The parser expected a token at `at` that was not there. `at` may also be the position just
/// past the last token.
pub struct MissingTok {
    pub source_unit: SourceUnitId,
    pub at: Key,
}

impl MissingTok {
    pub fn new(source_unit: SourceUnitId, tok: Key) -> (r: Self)
        ensures
            r.source_unit == source_unit,
            r.at == tok,
    {
        MissingTok { source_unit, at: tok }
    }

    fn view_missing(&self) -> (r: DiagnosticView)
        ensures
            is_missing_tok_view(r, self.source_unit, self.at),
    {
        let mut indicated_toks: InlineVec<Key, 3> = InlineVec::new();
        indicated_toks.push(self.at);
        let mut elements: InlineVec<DiagnosticViewElement, 3> = InlineVec::new();
        elements.push(
            DiagnosticViewElement::SourceQuote(
                SourceQuote { source_unit: self.source_unit, indicated_toks },
            ),
        );
        DiagnosticView { severity: DiagnosticSeverity::Error, title: "Missing token", elements }
    }
}

impl Diagnostic for MissingTok {
    open spec fn spec_severity(&self) -> DiagnosticSeverity {
        DiagnosticSeverity::Error
    }

    open spec fn spec_title(&self) -> Seq<char> {
        missing_tok_title()
    }

    fn view(&self) -> (r: DiagnosticView) {
        self.view_missing()
    }
}

} // verus!
