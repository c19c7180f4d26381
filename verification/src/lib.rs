//! Semantic analysis for the Dolfin ontology language.
//!
//! A parsed ontology file goes through four passes:
//!
//! - [`index::SymbolIndex`] collects every declared symbol (across files);
//! - [`resolve::resolve_file`] resolves every type reference against it;
//! - [`validate::validate`] reports structural errors (`S001`–`S003`);
//! - [`types::check_types`] reports type-level errors (`S004`–`S006`).

pub mod analyzer;
pub mod assoc;
pub mod ast;
pub mod completion;
pub mod diagnostics;
pub mod hover;
pub mod index;
pub mod references;
pub mod resolve;
pub mod resolver;
pub mod symbols;
pub mod text;
pub mod types;
pub mod validate;

use vstd::prelude::*;
use crate::ast::OntologyFile;
use crate::diagnostics::{append_diagnostics, diagnostic_views, Diagnostic, DiagnosticView};
use crate::index::{single_file_index, SymbolIndex, SymbolView};
use crate::resolve::file_refs;
use crate::types::type_diagnostics;
use crate::validate::{circular_diagnostics, duplicate_diagnostics, unresolved_diagnostics};

verus! {

/// Everything a full semantic analysis of one file produces.
pub struct AnalysisResult {
    /// The symbols of the file (and of any files indexed before).
    pub index: SymbolIndex,
    /// The diagnostics of resolution, validation and type checking.
    pub diagnostics: Vec<Diagnostic>,
}

/// The diagnostics of a file analysed against the global table `g`: the
/// unresolved references, the duplicate declarations, the circular
/// inheritance, then the type-level errors.
pub open spec fn analysis_diagnostics(f: OntologyFile, g: Map<Seq<char>, SymbolView>) -> Seq<DiagnosticView> {
    unresolved_diagnostics(file_refs(f, g)) + duplicate_diagnostics(f.declarations@) + circular_diagnostics(
        f.declarations@,
    ) + type_diagnostics(f, g)
}

/// Analyses a file on its own: its symbols are indexed under the empty
/// path, with no file recorded.
pub fn analyze(file: OntologyFile) -> (r: AnalysisResult)
    ensures
        r.index.wf(),
        r.index@ == single_file_index(file),
        diagnostic_views(r.diagnostics@) == analysis_diagnostics(file, single_file_index(file).global),
{
    let index = SymbolIndex::from_file(&file);
    analyze_with_index(file, index)
}

/// Analyses a file against an index built beforehand, possibly from many
/// files, so that references to other files resolve.
pub fn analyze_with_index(file: OntologyFile, index: SymbolIndex) -> (r: AnalysisResult)
    requires
        index.wf(),
    ensures
        r.index.wf(),
        r.index@ == index@,
        diagnostic_views(r.diagnostics@) == analysis_diagnostics(file, index@.global),
{
    let resolved = resolve::resolve_file(&file, &index);
    let mut diagnostics = validate::validate(&file, &index, &resolved);
    let more = types::check_types(&file, &index);
    append_diagnostics(&mut diagnostics, more);
    AnalysisResult { index, diagnostics }
}

} // verus!
