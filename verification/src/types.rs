//! Type-level checks: types used correctly, not merely declared.
//!
//! - `S004` a `sub` parent that is not a concept;
//! - `S005` a property domain that is not a concept;
//! - `S006` a cardinality range with `min > max`.

use vstd::prelude::*;
use crate::assoc::{concat, lemma_add_has, lemma_concat_has, lemma_concat_push};
use crate::ast::{Cardinality, ConceptDef, Declaration, HasDeclaration, OntologyFile, QualifiedName, Span, TypeRef};
use crate::diagnostics::{
    diagnostic_views, error_view, Diagnostic, DiagnosticView, DOMAIN_NOT_CONCEPT, INVALID_CARDINALITY,
    PARENT_NOT_CONCEPT,
};
use crate::index::{KindView, SymbolIndex, SymbolKind, SymbolView};
use crate::resolve::type_ref_resolution;
use crate::text::{decimal, decimal_text};

verus! {

/// The word for a symbol kind.
pub open spec fn kind_word(k: KindView) -> Seq<char> {
    match k {
        KindView::Concept => "concept"@,
        KindView::Property => "property"@,
        KindView::Rule => "rule"@,
        KindView::Prefix => "prefix"@,
        KindView::Individual(_) => "individual"@,
    }
}

/// The word for a symbol kind, as used in messages.
pub fn kind_label(kind: &SymbolKind) -> (r: &'static str)
    ensures
        r@ == kind_word(kind@),
{
    match kind {
        SymbolKind::Concept => "concept",
        SymbolKind::Property => "property",
        SymbolKind::Rule => "rule",
        SymbolKind::Prefix => "prefix",
        SymbolKind::Individual { .. } => "individual",
    }
}

/// The symbol a name resolves to in `g`: its last segment first, then its
/// full name.
pub open spec fn resolve_name(g: Map<Seq<char>, SymbolView>, name: QualifiedName) -> Option<SymbolView> {
    if g.contains_key(name.last_name()) {
        Some(g[name.last_name()])
    } else if g.contains_key(name.full_name()) {
        Some(g[name.full_name()])
    } else {
        None
    }
}

/// ``` `<name>` is a <kind>, not a concept; only concepts can appear after `sub` ```.
pub open spec fn parent_message(name: Seq<char>, k: KindView) -> Seq<char> {
    "`"@ + name + "` is a "@ + kind_word(k) + ", not a concept; only concepts can appear after `sub`"@
}

/// ``property domain `<name>` must be a concept, not a <kind>``.
pub open spec fn domain_message(name: Seq<char>, k: KindView) -> Seq<char> {
    "property domain `"@ + name + "` must be a concept, not a "@ + kind_word(k)
}

/// `invalid cardinality range <min>..<max>: min must be ≤ max`.
pub open spec fn cardinality_message(min: nat, max: nat) -> Seq<char> {
    "invalid cardinality range "@ + decimal(min) + ".."@ + decimal(max) + ": min must be ≤ max"@
}

/// The error for a named type that resolves to a symbol other than a
/// concept, with code `code` and the message `msg` gives.
pub open spec fn not_concept_diagnostics(
    t: TypeRef,
    g: Map<Seq<char>, SymbolView>,
    code: u16,
    msg: spec_fn(Seq<char>, KindView) -> Seq<char>,
) -> Seq<DiagnosticView> {
    match t {
        TypeRef::Named { name, span } => match resolve_name(g, name) {
            Some(sym) => if sym.kind != KindView::Concept {
                seq![error_view(code, msg(name.last_name(), sym.kind), span)]
            } else {
                Seq::empty()
            },
            None => Seq::empty(),
        },
        _ => Seq::empty(),
    }
}

/// An `S006` error when `card` is a range whose minimum exceeds its
/// maximum.
pub open spec fn cardinality_diagnostics(card: Option<Cardinality>, span: Option<Span>) -> Seq<DiagnosticView> {
    match card {
        Some(Cardinality::Range { min, max: Some(max) }) => if min > max {
            seq![error_view(INVALID_CARDINALITY, cardinality_message(min as nat, max as nat), span)]
        } else {
            Seq::empty()
        },
        _ => Seq::empty(),
    }
}

/// The type errors of a concept: its parents, then its `has` cardinalities.
pub open spec fn concept_type_diagnostics(c: ConceptDef, g: Map<Seq<char>, SymbolView>) -> Seq<DiagnosticView> {
    concat(
        c.parents@.map_values(
            |t: TypeRef| not_concept_diagnostics(t, g, PARENT_NOT_CONCEPT, |n: Seq<char>, k: KindView| parent_message(n, k)),
        ),
    ) + concat(
        c.has_declarations@.map_values(|h: HasDeclaration| cardinality_diagnostics(h.cardinality, h.span)),
    )
}

/// The type errors of a declaration.
pub open spec fn declaration_type_diagnostics(d: Declaration, g: Map<Seq<char>, SymbolView>) -> Seq<DiagnosticView> {
    match d {
        Declaration::Concept(c) => concept_type_diagnostics(c, g),
        Declaration::Property(p) => not_concept_diagnostics(
            p.domain,
            g,
            DOMAIN_NOT_CONCEPT,
            |n: Seq<char>, k: KindView| domain_message(n, k),
        ) + cardinality_diagnostics(p.domain_cardinality, p.span) + cardinality_diagnostics(
            p.range_cardinality,
            p.span,
        ),
        _ => Seq::empty(),
    }
}

/// The type errors of a file, declaration by declaration.
pub open spec fn type_diagnostics(f: OntologyFile, g: Map<Seq<char>, SymbolView>) -> Seq<DiagnosticView> {
    concat(f.declarations@.map_values(|d: Declaration| declaration_type_diagnostics(d, g)))
}

fn check_cardinality(card: &Option<Cardinality>, span: Option<Span>, diags: &mut Vec<Diagnostic>)
    ensures
        diagnostic_views(final(diags)@) == diagnostic_views(old(diags)@) + cardinality_diagnostics(*card, span),
{
    let ghost d0 = diagnostic_views(diags@);
    if let Some(Cardinality::Range { min, max: Some(max) }) = card {
        if *min > *max {
            let mut message = "invalid cardinality range ".to_owned();
            let a = decimal_text(*min);
            message.append(a.as_str());
            message.append("..");
            let b = decimal_text(*max);
            message.append(b.as_str());
            message.append(": min must be ≤ max");
            diags.push(Diagnostic::error(INVALID_CARDINALITY, message, span));
        }
    }
    assert(diagnostic_views(diags@) =~= d0 + cardinality_diagnostics(*card, span));
}

/// Resolves a qualified name: its last segment first, then its full name.
fn resolve_qualified<'a>(index: &'a SymbolIndex, name: &QualifiedName) -> (r: Option<&'a crate::index::Symbol>)
    requires
        index.wf(),
    ensures
        match r {
            Some(s) => resolve_name(index@.global, *name) == Some(s@),
            None => resolve_name(index@.global, *name) is None,
        },
{
    let last = name.last();
    match index.get(last.as_str()) {
        Some(s) => Some(s),
        None => {
            let full = name.full();
            index.get(full.as_str())
        },
    }
}

fn check_parent(t: &TypeRef, index: &SymbolIndex, diags: &mut Vec<Diagnostic>)
    requires
        index.wf(),
    ensures
        diagnostic_views(final(diags)@) == diagnostic_views(old(diags)@) + not_concept_diagnostics(
            *t,
            index@.global,
            PARENT_NOT_CONCEPT,
            |n: Seq<char>, k: KindView| parent_message(n, k),
        ),
{
    let ghost d0 = diagnostic_views(diags@);
    if let TypeRef::Named { name, span } = t {
        if let Some(sym) = resolve_qualified(index, name) {
            if !sym.kind.is_concept() {
                let mut message = "`".to_owned();
                let last = name.last();
                message.append(last.as_str());
                message.append("` is a ");
                message.append(kind_label(&sym.kind));
                message.append(", not a concept; only concepts can appear after `sub`");
                diags.push(Diagnostic::error(PARENT_NOT_CONCEPT, message, *span));
            }
        }
    }
    assert(diagnostic_views(diags@) =~= d0 + not_concept_diagnostics(
        *t,
        index@.global,
        PARENT_NOT_CONCEPT,
        |n: Seq<char>, k: KindView| parent_message(n, k),
    ));
}

fn check_domain(t: &TypeRef, index: &SymbolIndex, diags: &mut Vec<Diagnostic>)
    requires
        index.wf(),
    ensures
        diagnostic_views(final(diags)@) == diagnostic_views(old(diags)@) + not_concept_diagnostics(
            *t,
            index@.global,
            DOMAIN_NOT_CONCEPT,
            |n: Seq<char>, k: KindView| domain_message(n, k),
        ),
{
    let ghost d0 = diagnostic_views(diags@);
    if let TypeRef::Named { name, span } = t {
        if let Some(sym) = resolve_qualified(index, name) {
            if !sym.kind.is_concept() {
                let mut message = "property domain `".to_owned();
                let last = name.last();
                message.append(last.as_str());
                message.append("` must be a concept, not a ");
                message.append(kind_label(&sym.kind));
                diags.push(Diagnostic::error(DOMAIN_NOT_CONCEPT, message, *span));
            }
        }
    }
    assert(diagnostic_views(diags@) =~= d0 + not_concept_diagnostics(
        *t,
        index@.global,
        DOMAIN_NOT_CONCEPT,
        |n: Seq<char>, k: KindView| domain_message(n, k),
    ));
}

fn check_concept(c: &ConceptDef, index: &SymbolIndex, diags: &mut Vec<Diagnostic>)
    requires
        index.wf(),
    ensures
        diagnostic_views(final(diags)@) == diagnostic_views(old(diags)@) + concept_type_diagnostics(*c, index@.global),
{
    let ghost d0 = diagnostic_views(diags@);
    let ghost g = index@.global;
    let ghost ps = c.parents@.map_values(
        |t: TypeRef| not_concept_diagnostics(t, g, PARENT_NOT_CONCEPT, |n: Seq<char>, k: KindView| parent_message(n, k)),
    );
    let mut i: usize = 0;
    while i < c.parents.len()
        invariant
            i <= c.parents@.len(),
            index.wf(),
            g == index@.global,
            ps == c.parents@.map_values(
                |t: TypeRef| not_concept_diagnostics(t, g, PARENT_NOT_CONCEPT, |n: Seq<char>, k: KindView| parent_message(n, k)),
            ),
            diagnostic_views(diags@) == d0 + concat(ps.take(i as int)),
        decreases c.parents.len() - i,
    {
        check_parent(&c.parents[i], index, diags);
        proof {
            assert(ps.take(i + 1) =~= ps.take(i as int).push(ps[i as int]));
            lemma_concat_push(ps.take(i as int), ps[i as int]);
            assert(diagnostic_views(diags@) =~= d0 + concat(ps.take(i + 1)));
        }
        i = i + 1;
    }
    assert(ps.take(c.parents@.len() as int) =~= ps);
    let ghost d1 = diagnostic_views(diags@);
    let ghost hs = c.has_declarations@.map_values(|h: HasDeclaration| cardinality_diagnostics(h.cardinality, h.span));
    let mut j: usize = 0;
    while j < c.has_declarations.len()
        invariant
            j <= c.has_declarations@.len(),
            hs == c.has_declarations@.map_values(|h: HasDeclaration| cardinality_diagnostics(h.cardinality, h.span)),
            diagnostic_views(diags@) == d1 + concat(hs.take(j as int)),
        decreases c.has_declarations.len() - j,
    {
        check_cardinality(&c.has_declarations[j].cardinality, c.has_declarations[j].span, diags);
        proof {
            assert(hs.take(j + 1) =~= hs.take(j as int).push(hs[j as int]));
            lemma_concat_push(hs.take(j as int), hs[j as int]);
            assert(diagnostic_views(diags@) =~= d1 + concat(hs.take(j + 1)));
        }
        j = j + 1;
    }
    assert(hs.take(c.has_declarations@.len() as int) =~= hs);
    assert(diagnostic_views(diags@) =~= d0 + concept_type_diagnostics(*c, g));
}

/// Runs the type-level checks on every declaration of `f`.
pub fn check_types(f: &OntologyFile, index: &SymbolIndex) -> (r: Vec<Diagnostic>)
    requires
        index.wf(),
    ensures
        diagnostic_views(r@) == type_diagnostics(*f, index@.global),
{
    let mut diags: Vec<Diagnostic> = Vec::new();
    let ghost g = index@.global;
    let ghost parts = f.declarations@.map_values(|d: Declaration| declaration_type_diagnostics(d, g));
    let mut i: usize = 0;
    while i < f.declarations.len()
        invariant
            i <= f.declarations@.len(),
            index.wf(),
            g == index@.global,
            parts == f.declarations@.map_values(|d: Declaration| declaration_type_diagnostics(d, g)),
            diagnostic_views(diags@) == concat(parts.take(i as int)),
        decreases f.declarations.len() - i,
    {
        let ghost d0 = diagnostic_views(diags@);
        match &f.declarations[i] {
            Declaration::Concept(c) => {
                check_concept(c, index, &mut diags);
            },
            Declaration::Property(p) => {
                check_domain(&p.domain, index, &mut diags);
                check_cardinality(&p.domain_cardinality, p.span, &mut diags);
                check_cardinality(&p.range_cardinality, p.span, &mut diags);
            },
            _ => {},
        }
        proof {
            assert(diagnostic_views(diags@) =~= d0 + parts[i as int]);
            assert(parts.take(i + 1) =~= parts.take(i as int).push(parts[i as int]));
            lemma_concat_push(parts.take(i as int), parts[i as int]);
        }
        i = i + 1;
    }
    assert(parts.take(f.declarations@.len() as int) =~= parts);
    diags
}


// ── Laws ─────────────────────────────────────────────────────────────────────

/// Resolution and the type checks look a name up the same way: a named
/// reference resolves exactly when `resolve_name` finds a symbol, and to the
/// entry of that symbol; so a reference reported as unresolved (`S001`) is
/// never also reported as not being a concept (`S004`, `S005`).
pub proof fn lemma_resolution_agrees(
    t: TypeRef,
    g: Map<Seq<char>, SymbolView>,
    code: u16,
    msg: spec_fn(Seq<char>, KindView) -> Seq<char>,
)
    requires
        t is Named,
    ensures
        type_ref_resolution(t, g).len() == 1,
        (type_ref_resolution(t, g)[0].resolved is None) <==> (resolve_name(g, t->name) is None),
        type_ref_resolution(t, g)[0].resolved matches Some(n) ==> g.contains_key(n) && resolve_name(g, t->name)
            == Some(g[n]),
        type_ref_resolution(t, g)[0].resolved is None ==> not_concept_diagnostics(t, g, code, msg).len() == 0,
{
}

/// The bounds of a cardinality that is a range whose minimum exceeds its
/// maximum.
pub open spec fn inverted_range(card: Option<Cardinality>) -> Option<(nat, nat)> {
    match card {
        Some(Cardinality::Range { min, max: Some(max) }) => if min > max {
            Some((min as nat, max as nat))
        } else {
            None
        },
        _ => None,
    }
}

/// The `S006` error for the range `bounds.0..bounds.1` at `span`.
pub open spec fn inverted_error(bounds: (nat, nat), span: Option<Span>) -> DiagnosticView {
    error_view(
        INVALID_CARDINALITY,
        "invalid cardinality range "@ + decimal(bounds.0) + ".."@ + decimal(bounds.1) + ": min must be ≤ max"@,
        span,
    )
}

proof fn lemma_inverted_has(hs: Seq<HasDeclaration>, j: int)
    requires
        0 <= j < hs.len(),
        inverted_range(hs[j].cardinality) is Some,
    ensures
        concat(hs.map_values(|h: HasDeclaration| cardinality_diagnostics(h.cardinality, h.span))).contains(
            inverted_error(inverted_range(hs[j].cardinality)->0, hs[j].span),
        ),
{
    let parts = hs.map_values(|h: HasDeclaration| cardinality_diagnostics(h.cardinality, h.span));
    let x = inverted_error(inverted_range(hs[j].cardinality)->0, hs[j].span);
    assert(parts[j] == cardinality_diagnostics(hs[j].cardinality, hs[j].span));
    assert(parts[j][0] == x);
    lemma_concat_has(parts, j, x);
}

/// Every cardinality range whose minimum exceeds its maximum gives an
/// `S006` error: at the `has` declaration's span for a concept's `has`
/// cardinality, at the property's span for a property's domain or range
/// cardinality.
pub proof fn lemma_inverted_ranges_reported(f: OntologyFile, g: Map<Seq<char>, SymbolView>, i: int)
    requires
        0 <= i < f.declarations@.len(),
    ensures
        f.declarations@[i] matches Declaration::Property(p) ==> (inverted_range(p.domain_cardinality) is Some
            ==> type_diagnostics(f, g).contains(
            inverted_error(inverted_range(p.domain_cardinality)->0, p.span),
        )) && (inverted_range(p.range_cardinality) is Some ==> type_diagnostics(f, g).contains(
            inverted_error(inverted_range(p.range_cardinality)->0, p.span),
        )),
        f.declarations@[i] matches Declaration::Concept(c) ==> forall|j: int|
            0 <= j < c.has_declarations@.len() && inverted_range((#[trigger] c.has_declarations@[j]).cardinality) is Some
                ==> type_diagnostics(f, g).contains(
                inverted_error(inverted_range(c.has_declarations@[j].cardinality)->0,
                    c.has_declarations@[j].span,
                ),
            ),
{
    let parts = f.declarations@.map_values(|d: Declaration| declaration_type_diagnostics(d, g));
    assert(parts[i] == declaration_type_diagnostics(f.declarations@[i], g));
    match f.declarations@[i] {
        Declaration::Property(p) => {
            let a = not_concept_diagnostics(p.domain, g, DOMAIN_NOT_CONCEPT, |n: Seq<char>, k: KindView| domain_message(n, k));
            let b = cardinality_diagnostics(p.domain_cardinality, p.span);
            let c = cardinality_diagnostics(p.range_cardinality, p.span);
            assert(parts[i] == a + b + c);
            if inverted_range(p.domain_cardinality) is Some {
                let x = inverted_error(inverted_range(p.domain_cardinality)->0, p.span);
                assert(b[0] == x);
                lemma_add_has(a, b, x);
                lemma_add_has(a + b, c, x);
                lemma_concat_has(parts, i, x);
            }
            if inverted_range(p.range_cardinality) is Some {
                let x = inverted_error(inverted_range(p.range_cardinality)->0, p.span);
                assert(c[0] == x);
                lemma_add_has(a + b, c, x);
                lemma_concat_has(parts, i, x);
            }
        },
        Declaration::Concept(c) => {
            let a = concat(
                c.parents@.map_values(
                    |t: TypeRef| not_concept_diagnostics(t, g, PARENT_NOT_CONCEPT, |n: Seq<char>, k: KindView| parent_message(n, k)),
                ),
            );
            let b = concat(c.has_declarations@.map_values(|h: HasDeclaration| cardinality_diagnostics(h.cardinality, h.span)));
            assert(parts[i] == a + b);
            assert forall|j: int|
                0 <= j < c.has_declarations@.len() && inverted_range((#[trigger] c.has_declarations@[j]).cardinality) is Some
                    implies type_diagnostics(f, g).contains(
                    inverted_error(inverted_range(c.has_declarations@[j].cardinality)->0,
                        c.has_declarations@[j].span,
                    ),
                ) by {
                let x = inverted_error(inverted_range(c.has_declarations@[j].cardinality)->0,
                    c.has_declarations@[j].span,
                );
                lemma_inverted_has(c.has_declarations@, j);
                lemma_add_has(a, b, x);
                lemma_concat_has(parts, i, x);
            }
        },
        _ => {},
    }
}
} // verus!
