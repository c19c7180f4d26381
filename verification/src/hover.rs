//! Hover information: a markdown description of the symbol under a source
//! position.

use vstd::prelude::*;
use crate::assoc::{
    first_some, lemma_first_some_at, lemma_first_some_found, lemma_first_some_none, lemma_first_some_prefix,
    lemma_first_some_step,
};
use crate::ast::{
    primitive_name, primitive_text, ConceptDef, Declaration, HasDeclaration, Location, OntologyFile, Span, TypeRef,
};
use crate::index::SymbolView;
use crate::symbols::{Symbol, SymbolTable};

verus! {

/// Whether `pos` lies in `span`, both ends included.
pub open spec fn span_contains(span: Option<Span>, pos: Location) -> bool {
    match span {
        Some(s) => s.start.offset <= pos.offset && pos.offset <= s.end.offset,
        None => false,
    }
}

/// A description as a `dolfin` code block.
pub open spec fn markdown(detail: Seq<char>) -> Seq<char> {
    "```dolfin\n"@ + detail + "\n```"@
}

/// The hover text of the symbol named `name`, if the table has one.
pub open spec fn symbol_hover(table: Map<Seq<char>, SymbolView>, name: Seq<char>) -> Option<Seq<char>> {
    if table.contains_key(name) {
        Some(markdown(table[name].detail))
    } else {
        None
    }
}

/// The hover text of a type reference under `pos`: a named type's symbol
/// (by last segment, then by full name), or the primitive kind.
pub open spec fn type_hover(t: TypeRef, table: Map<Seq<char>, SymbolView>, pos: Location) -> Option<Seq<char>> {
    match t {
        TypeRef::Named { name, span } => if span_contains(span, pos) {
            match symbol_hover(table, name.last_name()) {
                Some(h) => Some(h),
                None => symbol_hover(table, name.full_name()),
            }
        } else {
            None
        },
        TypeRef::Primitive { kind, span } => if span_contains(span, pos) {
            Some("```dolfin\nprimitive "@ + primitive_name(kind) + "\n```"@)
        } else {
            None
        },
        _ => None,
    }
}

/// The hover text of a `has` declaration under `pos`: its property's symbol
/// when the declaration's span holds `pos` and the table knows the name,
/// else its type's.
pub open spec fn has_hover(h: HasDeclaration, table: Map<Seq<char>, SymbolView>, pos: Location) -> Option<Seq<char>> {
    if span_contains(h.span, pos) && table.contains_key(h.name@) {
        symbol_hover(table, h.name@)
    } else {
        type_hover(h.type_ref, table, pos)
    }
}

/// The hover text of a declaration under `pos`. When the declaration's span
/// holds `pos`, the declared symbol's (possibly none); otherwise a concept's
/// parents then `has` declarations, a property's domain then range.
pub open spec fn declaration_hover(d: Declaration, table: Map<Seq<char>, SymbolView>, pos: Location) -> Option<Seq<char>> {
    match d {
        Declaration::Concept(c) => if span_contains(c.span, pos) {
            symbol_hover(table, c.name@)
        } else {
            match first_some(c.parents@, |t: TypeRef| type_hover(t, table, pos)) {
                Some(h) => Some(h),
                None => first_some(c.has_declarations@, |h: HasDeclaration| has_hover(h, table, pos)),
            }
        },
        Declaration::Property(p) => if span_contains(p.span, pos) {
            symbol_hover(table, p.name@)
        } else {
            match type_hover(p.domain, table, pos) {
                Some(h) => Some(h),
                None => type_hover(p.range, table, pos),
            }
        },
        Declaration::Rule(r) => if span_contains(r.span, pos) {
            symbol_hover(table, r.name@)
        } else {
            None
        },
        _ => None,
    }
}

/// The hover text at `pos`: the first declaration, in order, that gives one.
pub open spec fn file_hover(f: OntologyFile, table: Map<Seq<char>, SymbolView>, pos: Location) -> Option<Seq<char>> {
    first_some(f.declarations@, |d: Declaration| declaration_hover(d, table, pos))
}

/// The view of an optional string.
pub open spec fn opt_text(s: Option<String>) -> Option<Seq<char>> {
    match s {
        Some(x) => Some(x@),
        None => None,
    }
}

fn contains(span: Option<Span>, pos: Location) -> (r: bool)
    ensures
        r == span_contains(span, pos),
{
    match span {
        Some(s) => s.start.offset <= pos.offset && pos.offset <= s.end.offset,
        None => false,
    }
}

/// The description of a symbol as a `dolfin` code block.
pub fn markdown_symbol(sym: &Symbol) -> (r: String)
    ensures
        r@ == markdown(sym@.detail),
{
    let mut r = "```dolfin\n".to_owned();
    r.append(sym.detail.as_str());
    r.append("\n```");
    r
}

fn symbol_markdown(table: &SymbolTable, name: &str) -> (r: Option<String>)
    requires
        table.wf(),
    ensures
        opt_text(r) == symbol_hover(table@, name@),
{
    match table.get(name) {
        Some(s) => Some(markdown_symbol(s)),
        None => None,
    }
}

fn hover_type_ref(t: &TypeRef, table: &SymbolTable, pos: Location) -> (r: Option<String>)
    requires
        table.wf(),
    ensures
        opt_text(r) == type_hover(*t, table@, pos),
{
    match t {
        TypeRef::Named { name, span } => {
            if contains(*span, pos) {
                let last = name.last();
                match symbol_markdown(table, last.as_str()) {
                    Some(h) => Some(h),
                    None => {
                        let full = name.full();
                        symbol_markdown(table, full.as_str())
                    },
                }
            } else {
                None
            }
        },
        TypeRef::Primitive { kind, span } => {
            if contains(*span, pos) {
                let mut r = "```dolfin\nprimitive ".to_owned();
                let k = primitive_text(*kind);
                r.append(k.as_str());
                r.append("\n```");
                Some(r)
            } else {
                None
            }
        },
        _ => None,
    }
}

fn hover_has(h: &HasDeclaration, table: &SymbolTable, pos: Location) -> (r: Option<String>)
    requires
        table.wf(),
    ensures
        opt_text(r) == has_hover(*h, table@, pos),
{
    if contains(h.span, pos) {
        if let Some(text) = symbol_markdown(table, h.name.as_str()) {
            return Some(text);
        }
    }
    hover_type_ref(&h.type_ref, table, pos)
}

fn hover_in_decl(d: &Declaration, table: &SymbolTable, pos: Location) -> (r: Option<String>)
    requires
        table.wf(),
    ensures
        opt_text(r) == declaration_hover(*d, table@, pos),
{
    match d {
        Declaration::Concept(c) => {
            if contains(c.span, pos) {
                return symbol_markdown(table, c.name.as_str());
            }
            let ghost f = |t: TypeRef| type_hover(t, table@, pos);
            let mut i: usize = 0;
            while i < c.parents.len()
                invariant
                    i <= c.parents@.len(),
                    table.wf(),
                    f == (|t: TypeRef| type_hover(t, table@, pos)),
                    first_some(c.parents@.take(i as int), f) is None,
                    *d == Declaration::Concept(*c),
                    !span_contains(c.span, pos),
                decreases c.parents.len() - i,
            {
                let h = hover_type_ref(&c.parents[i], table, pos);
                proof {
                    lemma_first_some_step(c.parents@, f, i as int);
                }
                if h.is_some() {
                    proof {
                        lemma_first_some_prefix(c.parents@, f, i + 1);
                    }
                    return h;
                }
                i = i + 1;
            }
            assert(c.parents@.take(c.parents@.len() as int) =~= c.parents@);
            assert(first_some(c.parents@, |t: TypeRef| type_hover(t, table@, pos)) is None);
            let ghost g = |h: HasDeclaration| has_hover(h, table@, pos);
            let mut j: usize = 0;
            while j < c.has_declarations.len()
                invariant
                    j <= c.has_declarations@.len(),
                    table.wf(),
                    g == (|h: HasDeclaration| has_hover(h, table@, pos)),
                    first_some(c.has_declarations@.take(j as int), g) is None,
                    *d == Declaration::Concept(*c),
                    !span_contains(c.span, pos),
                    first_some(c.parents@, |t: TypeRef| type_hover(t, table@, pos)) is None,
                decreases c.has_declarations.len() - j,
            {
                let h = hover_has(&c.has_declarations[j], table, pos);
                proof {
                    lemma_first_some_step(c.has_declarations@, g, j as int);
                }
                if h.is_some() {
                    proof {
                        lemma_first_some_prefix(c.has_declarations@, g, j + 1);
                    }
                    return h;
                }
                j = j + 1;
            }
            assert(c.has_declarations@.take(c.has_declarations@.len() as int) =~= c.has_declarations@);
            None
        },
        Declaration::Property(p) => {
            if contains(p.span, pos) {
                return symbol_markdown(table, p.name.as_str());
            }
            match hover_type_ref(&p.domain, table, pos) {
                Some(h) => Some(h),
                None => hover_type_ref(&p.range, table, pos),
            }
        },
        Declaration::Rule(r) => {
            if contains(r.span, pos) {
                symbol_markdown(table, r.name.as_str())
            } else {
                None
            }
        },
        _ => None,
    }
}

/// The hover text for the symbol under `position`, if any: the first
/// declaration, in order, that gives one.
pub fn hover_at(f: &OntologyFile, table: &SymbolTable, position: Location) -> (r: Option<String>)
    requires
        table.wf(),
    ensures
        opt_text(r) == file_hover(*f, table@, position),
{
    let ghost g = |d: Declaration| declaration_hover(d, table@, position);
    let mut i: usize = 0;
    while i < f.declarations.len()
        invariant
            i <= f.declarations@.len(),
            table.wf(),
            g == (|d: Declaration| declaration_hover(d, table@, position)),
            first_some(f.declarations@.take(i as int), g) is None,
        decreases f.declarations.len() - i,
    {
        let h = hover_in_decl(&f.declarations[i], table, position);
        proof {
            lemma_first_some_step(f.declarations@, g, i as int);
        }
        if h.is_some() {
            proof {
                lemma_first_some_prefix(f.declarations@, g, i + 1);
            }
            return h;
        }
        i = i + 1;
    }
    assert(f.declarations@.take(f.declarations@.len() as int) =~= f.declarations@);
    None
}


// ── Laws ─────────────────────────────────────────────────────────────────────

/// Whether `pos` lies in the span of a named or primitive type reference.
pub open spec fn type_ref_holds(t: TypeRef, pos: Location) -> bool {
    match t {
        TypeRef::Named { span, .. } => span_contains(span, pos),
        TypeRef::Primitive { span, .. } => span_contains(span, pos),
        _ => false,
    }
}

/// Whether `pos` lies in one of the spans of a declaration that hover looks
/// at: the declaration's own, a concept's parents and `has` declarations
/// (and their types), a property's domain and range.
pub open spec fn declaration_holds(d: Declaration, pos: Location) -> bool {
    match d {
        Declaration::Concept(c) => span_contains(c.span, pos) || (exists|i: int|
            0 <= i < c.parents@.len() && type_ref_holds(#[trigger] c.parents@[i], pos)) || (exists|j: int|
            0 <= j < c.has_declarations@.len() && (span_contains((#[trigger] c.has_declarations@[j]).span, pos)
                || type_ref_holds(c.has_declarations@[j].type_ref, pos))),
        Declaration::Property(p) => span_contains(p.span, pos) || type_ref_holds(p.domain, pos) || type_ref_holds(
            p.range,
            pos,
        ),
        Declaration::Rule(r) => span_contains(r.span, pos),
        _ => false,
    }
}

proof fn lemma_type_hover_holds(t: TypeRef, table: Map<Seq<char>, SymbolView>, pos: Location)
    requires
        type_hover(t, table, pos) is Some,
    ensures
        type_ref_holds(t, pos),
{
}

proof fn lemma_declaration_hover_holds(d: Declaration, table: Map<Seq<char>, SymbolView>, pos: Location)
    requires
        declaration_hover(d, table, pos) is Some,
    ensures
        declaration_holds(d, pos),
{
    match d {
        Declaration::Concept(c) => {
            if !span_contains(c.span, pos) {
                let f = |t: TypeRef| type_hover(t, table, pos);
                let g = |h: HasDeclaration| has_hover(h, table, pos);
                if first_some(c.parents@, f) is Some {
                    lemma_first_some_found(c.parents@, f);
                    let i = choose|i: int| 0 <= i < c.parents@.len() && #[trigger] f(c.parents@[i]) == first_some(c.parents@, f);
                    lemma_type_hover_holds(c.parents@[i], table, pos);
                } else {
                    lemma_first_some_found(c.has_declarations@, g);
                    let j = choose|j: int|
                        0 <= j < c.has_declarations@.len() && #[trigger] g(c.has_declarations@[j]) == first_some(
                            c.has_declarations@,
                            g,
                        );
                    let h = c.has_declarations@[j];
                    if !span_contains(h.span, pos) {
                        lemma_type_hover_holds(h.type_ref, table, pos);
                    }
                }
            }
        },
        Declaration::Property(p) => {
            if !span_contains(p.span, pos) {
                if type_hover(p.domain, table, pos) is Some {
                    lemma_type_hover_holds(p.domain, table, pos);
                } else {
                    lemma_type_hover_holds(p.range, table, pos);
                }
            }
        },
        _ => {},
    }
}

/// Hover gives a text only where the position lies in a span of one of the
/// file's declarations.
pub proof fn lemma_hover_only_on_spans(f: OntologyFile, table: Map<Seq<char>, SymbolView>, pos: Location)
    requires
        file_hover(f, table, pos) is Some,
    ensures
        exists|i: int| 0 <= i < f.declarations@.len() && declaration_holds(#[trigger] f.declarations@[i], pos),
{
    let g = |d: Declaration| declaration_hover(d, table, pos);
    lemma_first_some_found(f.declarations@, g);
    let i = choose|i: int| 0 <= i < f.declarations@.len() && #[trigger] g(f.declarations@[i]) == first_some(f.declarations@, g);
    lemma_declaration_hover_holds(f.declarations@[i], table, pos);
}

/// Hover over the named type of a `has` declaration: when the position lies
/// in the span of that type, the table has no symbol named like the `has`
/// declaration, and the position lies in no span of an earlier declaration,
/// of the concept itself, of its parents, or of its earlier `has`
/// declarations and their types, hover gives the description of the table's
/// symbol for the type, found by its last segment, else by its full name.
pub proof fn lemma_hover_on_has_type(
    f: OntologyFile,
    table: Map<Seq<char>, SymbolView>,
    pos: Location,
    i: int,
    c: ConceptDef,
    j: int,
)
    requires
        0 <= i < f.declarations@.len(),
        f.declarations@[i] == Declaration::Concept(c),
        0 <= j < c.has_declarations@.len(),
        c.has_declarations@[j].type_ref is Named,
        span_contains(c.has_declarations@[j].type_ref->Named_span, pos),
        !table.contains_key(c.has_declarations@[j].name@),
        table.contains_key(c.has_declarations@[j].type_ref->name.last_name()) || table.contains_key(
            c.has_declarations@[j].type_ref->name.full_name(),
        ),
        forall|k: int| 0 <= k < i ==> !declaration_holds(#[trigger] f.declarations@[k], pos),
        !span_contains(c.span, pos),
        forall|k: int| 0 <= k < c.parents@.len() ==> !type_ref_holds(#[trigger] c.parents@[k], pos),
        forall|k: int|
            0 <= k < j ==> !span_contains((#[trigger] c.has_declarations@[k]).span, pos) && !type_ref_holds(
                c.has_declarations@[k].type_ref,
                pos,
            ),
    ensures
        file_hover(f, table, pos) == Some(
            "```dolfin\n"@ + (if table.contains_key(c.has_declarations@[j].type_ref->name.last_name()) {
                table[c.has_declarations@[j].type_ref->name.last_name()].detail
            } else {
                table[c.has_declarations@[j].type_ref->name.full_name()].detail
            }) + "\n```"@,
        ),
{
    let h = c.has_declarations@[j];
    let name = h.type_ref->name;
    let expected = Some(
        "```dolfin\n"@ + (if table.contains_key(name.last_name()) {
            table[name.last_name()].detail
        } else {
            table[name.full_name()].detail
        }) + "\n```"@,
    );
    let ft = |t: TypeRef| type_hover(t, table, pos);
    let fh = |x: HasDeclaration| has_hover(x, table, pos);
    let fd = |d: Declaration| declaration_hover(d, table, pos);
    assert forall|k: int| 0 <= k < c.parents@.len() implies ft(#[trigger] c.parents@[k]) is None by {
        if type_hover(c.parents@[k], table, pos) is Some {
            lemma_type_hover_holds(c.parents@[k], table, pos);
        }
    }
    lemma_first_some_none(c.parents@, ft);
    assert forall|k: int| 0 <= k < j implies fh(#[trigger] c.has_declarations@[k]) is None by {
        let hk = c.has_declarations@[k];
        if type_hover(hk.type_ref, table, pos) is Some {
            lemma_type_hover_holds(hk.type_ref, table, pos);
        }
    }
    assert(fh(h) == expected);
    lemma_first_some_at(c.has_declarations@, fh, j);
    assert(fd(f.declarations@[i]) == expected);
    assert forall|k: int| 0 <= k < i implies fd(#[trigger] f.declarations@[k]) is None by {
        if declaration_hover(f.declarations@[k], table, pos) is Some {
            lemma_declaration_hover_holds(f.declarations@[k], table, pos);
        }
    }
    lemma_first_some_at(f.declarations@, fd, i);
}
} // verus!
