//! Analysis of a single file against its own symbol table, with hover and
//! completion on the result.

use vstd::prelude::*;
use crate::ast::{Location, OntologyFile};
use crate::completion::{candidates, completions_at, item_views, keywords_first, sorted_by_label, CompletionItem};
use crate::diagnostics::{diagnostic_views, Diagnostic, DiagnosticView};
use crate::hover::{file_hover, hover_at, opt_text};
use crate::index::{file_symbol_map, SymbolView};
use crate::resolver::{resolve, undeclared_diagnostics};
use crate::symbols::SymbolTable;
use crate::validate::{circular_diagnostics, duplicate_diagnostics};

verus! {

/// The result of analysing one file.
pub struct AnalysisResult {
    /// All symbols declared in the file.
    pub symbols: SymbolTable,
    /// The diagnostics of the file.
    pub diagnostics: Vec<Diagnostic>,
    /// The analysed file, kept for hover.
    file: OntologyFile,
}

impl AnalysisResult {
    /// The analysed file.
    pub closed spec fn source(&self) -> OntologyFile {
        self.file
    }

    /// The symbol table is well formed.
    pub closed spec fn wf(&self) -> bool {
        self.symbols.wf()
    }

    /// The symbol table as a map.
    pub closed spec fn table(&self) -> Map<Seq<char>, SymbolView> {
        self.symbols@
    }

    /// The diagnostics as values.
    pub closed spec fn diagnostic_list(&self) -> Seq<DiagnosticView> {
        diagnostic_views(self.diagnostics@)
    }

    /// The hover text for the symbol under `position`, if any.
    pub fn hover(&self, position: Location) -> (r: Option<String>)
        requires
            self.wf(),
        ensures
            opt_text(r) == file_hover(self.source(), self.table(), position),
    {
        hover_at(&self.file, &self.symbols, position)
    }

    /// The completion candidates beginning with `prefix` (empty for all),
    /// sorted by label, a keyword before a symbol of the same name.
    pub fn completions(&self, prefix: &str) -> (r: Vec<CompletionItem>)
        requires
            self.wf(),
        ensures
            sorted_by_label(item_views(r@)),
            keywords_first(item_views(r@)),
            item_views(r@).to_multiset() == candidates(self.table(), prefix@),
    {
        completions_at(&self.symbols, prefix)
    }
}

/// Analyses a file: builds its symbol table and checks it for duplicate
/// declarations, undeclared types and circular inheritance.
pub fn analyze(file: OntologyFile) -> (r: AnalysisResult)
    ensures
        r.wf(),
        r.table() == file_symbol_map(file, None),
        r.diagnostic_list() == duplicate_diagnostics(file.declarations@) + undeclared_diagnostics(
            file,
            file_symbol_map(file, None),
        ) + circular_diagnostics(file.declarations@),
        r.source() == file,
{
    let symbols = SymbolTable::build(&file);
    let diagnostics = resolve(&file, &symbols);
    AnalysisResult { symbols, diagnostics, file }
}

} // verus!
