//! Checks of a single file against its own symbol table: duplicate
//! declarations, references to undeclared types, circular inheritance.

use vstd::prelude::*;
use crate::assoc::{concat, lemma_concat_push};
use crate::ast::{Declaration, HasDeclaration, OntologyFile, TypeRef};
use crate::diagnostics::{append_diagnostics, diagnostic_views, error_view, Diagnostic, DiagnosticView, UNRESOLVED_TYPE};
use crate::index::{KindView, SymbolView};
use crate::symbols::SymbolTable;
use crate::validate::{check_duplicates, circular_diagnostics, circular_errors, duplicate_diagnostics, unresolved_message};

verus! {

/// Whether `table` declares `name` as a type, that is a concept.
pub open spec fn declares_type(table: Map<Seq<char>, SymbolView>, name: Seq<char>) -> bool {
    table.contains_key(name) && table[name].kind == KindView::Concept
}

/// An `S001` error for a named type whose last segment and full name are
/// both no declared type.
pub open spec fn undeclared_diagnostic(t: TypeRef, table: Map<Seq<char>, SymbolView>) -> Seq<DiagnosticView> {
    match t {
        TypeRef::Named { name, span } => if !declares_type(table, name.last_name()) && !declares_type(
            table,
            name.full_name(),
        ) {
            seq![error_view(UNRESOLVED_TYPE, unresolved_message(name.full_name()), span)]
        } else {
            Seq::empty()
        },
        _ => Seq::empty(),
    }
}

/// The `S001` errors of a declaration: a concept's parents then its `has`
/// types, a property's domain then its range.
pub open spec fn undeclared_in_declaration(d: Declaration, table: Map<Seq<char>, SymbolView>) -> Seq<DiagnosticView> {
    match d {
        Declaration::Concept(c) => concat(c.parents@.map_values(|t: TypeRef| undeclared_diagnostic(t, table))) + concat(
            c.has_declarations@.map_values(|h: HasDeclaration| undeclared_diagnostic(h.type_ref, table)),
        ),
        Declaration::Property(p) => undeclared_diagnostic(p.domain, table) + undeclared_diagnostic(p.range, table),
        _ => Seq::empty(),
    }
}

/// The `S001` errors of a file, declaration by declaration.
pub open spec fn undeclared_diagnostics(f: OntologyFile, table: Map<Seq<char>, SymbolView>) -> Seq<DiagnosticView> {
    concat(f.declarations@.map_values(|d: Declaration| undeclared_in_declaration(d, table)))
}

fn check_type_ref(t: &TypeRef, table: &SymbolTable, diags: &mut Vec<Diagnostic>)
    requires
        table.wf(),
    ensures
        diagnostic_views(final(diags)@) == diagnostic_views(old(diags)@) + undeclared_diagnostic(*t, table@),
{
    let ghost d0 = diagnostic_views(diags@);
    if let TypeRef::Named { name, span } = t {
        let full = name.full();
        let last = name.last();
        if !table.is_declared_type(last.as_str()) && !table.is_declared_type(full.as_str()) {
            let mut message = "type `".to_owned();
            message.append(full.as_str());
            message.append("` is not declared");
            diags.push(Diagnostic::error(UNRESOLVED_TYPE, message, *span));
        }
    }
    assert(diagnostic_views(diags@) =~= d0 + undeclared_diagnostic(*t, table@));
}

fn check_type_refs(ts: &Vec<TypeRef>, table: &SymbolTable, diags: &mut Vec<Diagnostic>)
    requires
        table.wf(),
    ensures
        diagnostic_views(final(diags)@) == diagnostic_views(old(diags)@) + concat(
            ts@.map_values(|t: TypeRef| undeclared_diagnostic(t, table@)),
        ),
{
    let ghost d0 = diagnostic_views(diags@);
    let ghost parts = ts@.map_values(|t: TypeRef| undeclared_diagnostic(t, table@));
    let mut i: usize = 0;
    while i < ts.len()
        invariant
            i <= ts@.len(),
            table.wf(),
            parts == ts@.map_values(|t: TypeRef| undeclared_diagnostic(t, table@)),
            diagnostic_views(diags@) == d0 + concat(parts.take(i as int)),
        decreases ts.len() - i,
    {
        check_type_ref(&ts[i], table, diags);
        proof {
            assert(parts.take(i + 1) =~= parts.take(i as int).push(parts[i as int]));
            lemma_concat_push(parts.take(i as int), parts[i as int]);
            assert(diagnostic_views(diags@) =~= d0 + concat(parts.take(i + 1)));
        }
        i = i + 1;
    }
    assert(parts.take(ts@.len() as int) =~= parts);
}

fn check_has(hs: &Vec<HasDeclaration>, table: &SymbolTable, diags: &mut Vec<Diagnostic>)
    requires
        table.wf(),
    ensures
        diagnostic_views(final(diags)@) == diagnostic_views(old(diags)@) + concat(
            hs@.map_values(|h: HasDeclaration| undeclared_diagnostic(h.type_ref, table@)),
        ),
{
    let ghost d0 = diagnostic_views(diags@);
    let ghost parts = hs@.map_values(|h: HasDeclaration| undeclared_diagnostic(h.type_ref, table@));
    let mut i: usize = 0;
    while i < hs.len()
        invariant
            i <= hs@.len(),
            table.wf(),
            parts == hs@.map_values(|h: HasDeclaration| undeclared_diagnostic(h.type_ref, table@)),
            diagnostic_views(diags@) == d0 + concat(parts.take(i as int)),
        decreases hs.len() - i,
    {
        check_type_ref(&hs[i].type_ref, table, diags);
        proof {
            assert(parts.take(i + 1) =~= parts.take(i as int).push(parts[i as int]));
            lemma_concat_push(parts.take(i as int), parts[i as int]);
            assert(diagnostic_views(diags@) =~= d0 + concat(parts.take(i + 1)));
        }
        i = i + 1;
    }
    assert(parts.take(hs@.len() as int) =~= parts);
}

/// The diagnostics of a file against its own symbol table: duplicate
/// declarations (`S002`), then type references that name no declared type
/// (`S001`), then circular inheritance (`S003`).
pub fn resolve(f: &OntologyFile, table: &SymbolTable) -> (r: Vec<Diagnostic>)
    requires
        table.wf(),
    ensures
        diagnostic_views(r@) == duplicate_diagnostics(f.declarations@) + undeclared_diagnostics(*f, table@)
            + circular_diagnostics(f.declarations@),
{
    let mut diags: Vec<Diagnostic> = Vec::new();
    check_duplicates(f, &mut diags);
    let ghost d1 = diagnostic_views(diags@);
    let ghost parts = f.declarations@.map_values(|d: Declaration| undeclared_in_declaration(d, table@));
    let mut i: usize = 0;
    while i < f.declarations.len()
        invariant
            i <= f.declarations@.len(),
            table.wf(),
            parts == f.declarations@.map_values(|d: Declaration| undeclared_in_declaration(d, table@)),
            diagnostic_views(diags@) == d1 + concat(parts.take(i as int)),
        decreases f.declarations.len() - i,
    {
        let ghost d0 = diagnostic_views(diags@);
        match &f.declarations[i] {
            Declaration::Concept(c) => {
                check_type_refs(&c.parents, table, &mut diags);
                check_has(&c.has_declarations, table, &mut diags);
            },
            Declaration::Property(p) => {
                check_type_ref(&p.domain, table, &mut diags);
                check_type_ref(&p.range, table, &mut diags);
            },
            _ => {},
        }
        proof {
            assert(diagnostic_views(diags@) =~= d0 + parts[i as int]);
            assert(parts.take(i + 1) =~= parts.take(i as int).push(parts[i as int]));
            lemma_concat_push(parts.take(i as int), parts[i as int]);
        }
        i = i + 1;
    }
    assert(parts.take(f.declarations@.len() as int) =~= parts);
    let cyc = circular_errors(&f.declarations);
    append_diagnostics(&mut diags, cyc);
    proof {
        assert(diagnostic_views(Seq::<Diagnostic>::empty()) =~= Seq::<DiagnosticView>::empty());
    }
    diags
}

} // verus!
