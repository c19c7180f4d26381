//! Name resolution.
//!
//! Walks every type reference of a file and resolves it against the global
//! table of a [`SymbolIndex`]: the last segment of the name first, then the
//! full qualified name.

use vstd::prelude::*;
use crate::assoc::{concat, lemma_add_has, lemma_concat_all, lemma_concat_has, lemma_concat_push};
use vstd::multiset::Multiset;
use crate::ast::{Declaration, HasDeclaration, OntologyFile, QualifiedName, Span, TypeRef};
use crate::index::{SymbolIndex, SymbolView};

verus! {

/// A name reference found in the source and what it resolved to.
#[derive(Debug)]
pub struct ResolvedRef {
    /// The name as written in source: the last component of a qualified
    /// name.
    pub name: String,
    /// Span of the reference.
    pub source_span: Option<Span>,
    /// The name in the index the reference resolved to, if any.
    pub resolved: Option<String>,
}

/// A resolved reference as a mathematical value.
pub struct RefView {
    pub name: Seq<char>,
    pub source_span: Option<Span>,
    pub resolved: Option<Seq<char>>,
}

impl View for ResolvedRef {
    type V = RefView;

    open spec fn view(&self) -> RefView {
        RefView {
            name: self.name@,
            source_span: self.source_span,
            resolved: match self.resolved {
                Some(s) => Some(s@),
                None => None,
            },
        }
    }
}

impl Clone for ResolvedRef {
    fn clone(&self) -> (r: Self)
        ensures
            r@ == self@,
    {
        ResolvedRef {
            name: self.name.clone(),
            source_span: self.source_span,
            resolved: match &self.resolved {
                Some(s) => Some(s.clone()),
                None => None,
            },
        }
    }
}

impl ResolvedRef {
    /// Whether the reference resolved to nothing.
    pub fn is_unresolved(&self) -> (r: bool)
        ensures
            r == (self@.resolved is None),
    {
        self.resolved.is_none()
    }
}

/// The views of a list of references.
pub open spec fn ref_views(s: Seq<ResolvedRef>) -> Seq<RefView> {
    s.map_values(|r: ResolvedRef| r@)
}

/// The views of a list of borrowed references.
pub open spec fn borrowed_ref_views(s: Seq<&ResolvedRef>) -> Seq<RefView> {
    s.map_values(|r: &ResolvedRef| r@)
}

/// The references of `s` that resolved (`want` true) or did not.
pub open spec fn refs_where(s: Seq<RefView>, want: bool) -> Seq<RefView>
    decreases s.len(),
{
    if s.len() == 0 {
        Seq::empty()
    } else if (s.last().resolved is Some) == want {
        refs_where(s.drop_last(), want).push(s.last())
    } else {
        refs_where(s.drop_last(), want)
    }
}

/// All name references of a file with their resolution outcome.
#[derive(Debug)]
pub struct ResolvedFile {
    pub refs: Vec<ResolvedRef>,
}

impl Default for ResolvedFile {
    /// No references.
    fn default() -> (r: ResolvedFile)
        ensures
            r.refs@.len() == 0,
    {
        ResolvedFile { refs: Vec::new() }
    }
}

fn refs_matching<'a>(refs: &'a Vec<ResolvedRef>, want: bool) -> (r: Vec<&'a ResolvedRef>)
    ensures
        borrowed_ref_views(r@) == refs_where(ref_views(refs@), want),
{
    let ghost rv = ref_views(refs@);
    let mut r: Vec<&ResolvedRef> = Vec::new();
    let mut i: usize = 0;
    while i < refs.len()
        invariant
            i <= refs@.len(),
            rv == ref_views(refs@),
            borrowed_ref_views(r@) == refs_where(rv.take(i as int), want),
        decreases refs.len() - i,
    {
        let ghost b = borrowed_ref_views(r@);
        proof {
            assert(rv.take(i + 1).drop_last() =~= rv.take(i as int));
            assert(rv.take(i + 1).last() == refs@[i as int]@);
        }
        if refs[i].resolved.is_some() == want {
            r.push(&refs[i]);
            assert(borrowed_ref_views(r@) =~= b.push(refs@[i as int]@));
        }
        i = i + 1;
    }
    assert(rv.take(refs@.len() as int) =~= rv);
    r
}

impl ResolvedFile {
    /// The references that failed to resolve, in order.
    pub fn unresolved(&self) -> (r: Vec<&ResolvedRef>)
        ensures
            borrowed_ref_views(r@) == refs_where(ref_views(self.refs@), false),
    {
        refs_matching(&self.refs, false)
    }

    /// The references that resolved, in order.
    pub fn resolved(&self) -> (r: Vec<&ResolvedRef>)
        ensures
            borrowed_ref_views(r@) == refs_where(ref_views(self.refs@), true),
    {
        refs_matching(&self.refs, true)
    }
}

/// What a type reference resolves to against the global table `g`: a named
/// reference gives one entry, named by its last segment and resolved to that
/// segment if `g` has it, else to its full name if `g` has that; other
/// references give none.
pub open spec fn type_ref_resolution(t: TypeRef, g: Map<Seq<char>, SymbolView>) -> Seq<RefView> {
    match t {
        TypeRef::Named { name, span } => seq![
            RefView {
                name: name.last_name(),
                source_span: span,
                resolved: if g.contains_key(name.last_name()) {
                    Some(name.last_name())
                } else if g.contains_key(name.full_name()) {
                    Some(name.full_name())
                } else {
                    None
                },
            },
        ],
        _ => Seq::empty(),
    }
}

/// The references of a list of type references, in order.
pub open spec fn type_refs_resolution(ts: Seq<TypeRef>, g: Map<Seq<char>, SymbolView>) -> Seq<RefView> {
    concat(ts.map_values(|t: TypeRef| type_ref_resolution(t, g)))
}

/// The references of the `has` declarations of a concept, in order.
pub open spec fn has_refs_resolution(hs: Seq<HasDeclaration>, g: Map<Seq<char>, SymbolView>) -> Seq<RefView> {
    concat(hs.map_values(|h: HasDeclaration| type_ref_resolution(h.type_ref, g)))
}

/// The references of a declaration: a concept's parents then its `has`
/// types, a property's domain then its range.
pub open spec fn declaration_refs(d: Declaration, g: Map<Seq<char>, SymbolView>) -> Seq<RefView> {
    match d {
        Declaration::Concept(c) => type_refs_resolution(c.parents@, g) + has_refs_resolution(
            c.has_declarations@,
            g,
        ),
        Declaration::Property(p) => type_ref_resolution(p.domain, g) + type_ref_resolution(p.range, g),
        _ => Seq::empty(),
    }
}

/// The references of a file, declaration by declaration.
pub open spec fn file_refs(f: OntologyFile, g: Map<Seq<char>, SymbolView>) -> Seq<RefView> {
    concat(f.declarations@.map_values(|d: Declaration| declaration_refs(d, g)))
}

fn resolve_type_ref(t: &TypeRef, index: &SymbolIndex, out: &mut Vec<ResolvedRef>)
    requires
        index.wf(),
    ensures
        ref_views(final(out)@) == ref_views(old(out)@) + type_ref_resolution(*t, index@.global),
{
    let ghost o0 = ref_views(out@);
    if let TypeRef::Named { name, span } = t {
        let full = name.full();
        let last = name.last();
        let resolved = if index.get(last.as_str()).is_some() {
            Some(last.clone())
        } else if index.get(full.as_str()).is_some() {
            Some(full)
        } else {
            None
        };
        out.push(ResolvedRef { name: last, source_span: *span, resolved });
    }
    assert(ref_views(out@) =~= o0 + type_ref_resolution(*t, index@.global));
}

fn resolve_type_refs(ts: &Vec<TypeRef>, index: &SymbolIndex, out: &mut Vec<ResolvedRef>)
    requires
        index.wf(),
    ensures
        ref_views(final(out)@) == ref_views(old(out)@) + type_refs_resolution(ts@, index@.global),
{
    let ghost o0 = ref_views(out@);
    let ghost g = index@.global;
    let ghost parts = ts@.map_values(|t: TypeRef| type_ref_resolution(t, g));
    let mut i: usize = 0;
    while i < ts.len()
        invariant
            i <= ts@.len(),
            index.wf(),
            g == index@.global,
            parts == ts@.map_values(|t: TypeRef| type_ref_resolution(t, g)),
            ref_views(out@) == o0 + concat(parts.take(i as int)),
        decreases ts.len() - i,
    {
        resolve_type_ref(&ts[i], index, out);
        proof {
            assert(parts.take(i + 1) =~= parts.take(i as int).push(parts[i as int]));
            lemma_concat_push(parts.take(i as int), parts[i as int]);
            assert(ref_views(out@) =~= o0 + concat(parts.take(i + 1)));
        }
        i = i + 1;
    }
    assert(parts.take(ts@.len() as int) =~= parts);
}

fn resolve_has(hs: &Vec<HasDeclaration>, index: &SymbolIndex, out: &mut Vec<ResolvedRef>)
    requires
        index.wf(),
    ensures
        ref_views(final(out)@) == ref_views(old(out)@) + has_refs_resolution(hs@, index@.global),
{
    let ghost o0 = ref_views(out@);
    let ghost g = index@.global;
    let ghost parts = hs@.map_values(|h: HasDeclaration| type_ref_resolution(h.type_ref, g));
    let mut i: usize = 0;
    while i < hs.len()
        invariant
            i <= hs@.len(),
            index.wf(),
            g == index@.global,
            parts == hs@.map_values(|h: HasDeclaration| type_ref_resolution(h.type_ref, g)),
            ref_views(out@) == o0 + concat(parts.take(i as int)),
        decreases hs.len() - i,
    {
        resolve_type_ref(&hs[i].type_ref, index, out);
        proof {
            assert(parts.take(i + 1) =~= parts.take(i as int).push(parts[i as int]));
            lemma_concat_push(parts.take(i as int), parts[i as int]);
            assert(ref_views(out@) =~= o0 + concat(parts.take(i + 1)));
        }
        i = i + 1;
    }
    assert(parts.take(hs@.len() as int) =~= parts);
}

/// Resolves every type reference of `f` against the global table of
/// `index`.
pub fn resolve_file(f: &OntologyFile, index: &SymbolIndex) -> (r: ResolvedFile)
    requires
        index.wf(),
    ensures
        ref_views(r.refs@) == file_refs(*f, index@.global),
{
    let mut out: Vec<ResolvedRef> = Vec::new();
    let ghost g = index@.global;
    let ghost parts = f.declarations@.map_values(|d: Declaration| declaration_refs(d, g));
    let mut i: usize = 0;
    while i < f.declarations.len()
        invariant
            i <= f.declarations@.len(),
            index.wf(),
            g == index@.global,
            parts == f.declarations@.map_values(|d: Declaration| declaration_refs(d, g)),
            ref_views(out@) == concat(parts.take(i as int)),
        decreases f.declarations.len() - i,
    {
        let ghost o0 = ref_views(out@);
        match &f.declarations[i] {
            Declaration::Concept(c) => {
                resolve_type_refs(&c.parents, index, &mut out);
                resolve_has(&c.has_declarations, index, &mut out);
            },
            Declaration::Property(p) => {
                resolve_type_ref(&p.domain, index, &mut out);
                resolve_type_ref(&p.range, index, &mut out);
            },
            _ => {},
        }
        proof {
            assert(ref_views(out@) =~= o0 + parts[i as int]);
            assert(parts.take(i + 1) =~= parts.take(i as int).push(parts[i as int]));
            lemma_concat_push(parts.take(i as int), parts[i as int]);
        }
        i = i + 1;
    }
    assert(parts.take(f.declarations@.len() as int) =~= parts);
    ResolvedFile { refs: out }
}


// ── Laws of resolution ───────────────────────────────────────────────────────

/// Every reference is either resolved or unresolved: the two lists together
/// hold each reference exactly once.
pub proof fn lemma_refs_partition(s: Seq<RefView>)
    ensures
        refs_where(s, false).to_multiset().add(refs_where(s, true).to_multiset()) == s.to_multiset(),
    decreases s.len(),
{
    broadcast use vstd::seq_lib::group_to_multiset_ensures, vstd::multiset::group_multiset_axioms;
    if s.len() == 0 {
        assert(refs_where(s, false).to_multiset() =~= Multiset::empty());
        assert(refs_where(s, true).to_multiset() =~= Multiset::empty());
        assert(s.to_multiset() =~= Multiset::empty());
    } else {
        let p = s.drop_last();
        lemma_refs_partition(p);
        assert(p.push(s.last()) =~= s);
        assert(refs_where(s, false).to_multiset().add(refs_where(s, true).to_multiset()) =~= s.to_multiset());
    }
}

/// Whether a reference that resolved names an entry of `g`.
pub open spec fn resolved_in(r: RefView, g: Map<Seq<char>, SymbolView>) -> bool {
    r.resolved matches Some(n) ==> g.contains_key(n)
}

proof fn lemma_type_refs_resolved_in(ts: Seq<TypeRef>, g: Map<Seq<char>, SymbolView>)
    ensures
        forall|i: int| 0 <= i < type_refs_resolution(ts, g).len() ==> resolved_in(#[trigger] type_refs_resolution(ts, g)[i], g),
{
    let parts = ts.map_values(|t: TypeRef| type_ref_resolution(t, g));
    lemma_concat_all(parts, |r: RefView| resolved_in(r, g));
}

proof fn lemma_has_refs_resolved_in(hs: Seq<HasDeclaration>, g: Map<Seq<char>, SymbolView>)
    ensures
        forall|i: int| 0 <= i < has_refs_resolution(hs, g).len() ==> resolved_in(#[trigger] has_refs_resolution(hs, g)[i], g),
{
    let parts = hs.map_values(|h: HasDeclaration| type_ref_resolution(h.type_ref, g));
    lemma_concat_all(parts, |r: RefView| resolved_in(r, g));
}

proof fn lemma_declaration_refs_resolved_in(d: Declaration, g: Map<Seq<char>, SymbolView>)
    ensures
        forall|i: int| 0 <= i < declaration_refs(d, g).len() ==> resolved_in(#[trigger] declaration_refs(d, g)[i], g),
{
    match d {
        Declaration::Concept(c) => {
            lemma_type_refs_resolved_in(c.parents@, g);
            lemma_has_refs_resolved_in(c.has_declarations@, g);
            let a = type_refs_resolution(c.parents@, g);
            let b = has_refs_resolution(c.has_declarations@, g);
            assert forall|i: int| 0 <= i < (a + b).len() implies resolved_in(#[trigger] (a + b)[i], g) by {
                if i < a.len() {
                    assert((a + b)[i] == a[i]);
                } else {
                    assert((a + b)[i] == b[i - a.len()]);
                }
            }
        },
        Declaration::Property(p) => {
            let a = type_ref_resolution(p.domain, g);
            let b = type_ref_resolution(p.range, g);
            assert forall|i: int| 0 <= i < (a + b).len() implies resolved_in(#[trigger] (a + b)[i], g) by {
                if i < a.len() {
                    assert((a + b)[i] == a[i]);
                } else {
                    assert((a + b)[i] == b[i - a.len()]);
                }
            }
        },
        _ => {},
    }
}

/// A reference that resolves names an entry of the global table it was
/// resolved against.
pub proof fn lemma_resolved_in_table(f: OntologyFile, g: Map<Seq<char>, SymbolView>, i: int)
    requires
        0 <= i < file_refs(f, g).len(),
        file_refs(f, g)[i].resolved is Some,
    ensures
        g.contains_key(file_refs(f, g)[i].resolved->0),
{
    let parts = f.declarations@.map_values(|d: Declaration| declaration_refs(d, g));
    assert forall|j: int, k: int| 0 <= j < parts.len() && 0 <= k < parts[j].len() implies resolved_in(#[trigger] parts[j][k], g) by {
        lemma_declaration_refs_resolved_in(f.declarations@[j], g);
    }
    lemma_concat_all(parts, |r: RefView| resolved_in(r, g));
    assert(resolved_in(file_refs(f, g)[i], g));
}

/// The reference a named type with `name` and `span` is expected to give
/// against `g`: named by its last segment, resolved to that segment when `g`
/// has it, else to the full name when `g` has that, else unresolved.
pub open spec fn expected_reference(name: QualifiedName, span: Option<Span>, g: Map<Seq<char>, SymbolView>) -> RefView {
    RefView {
        name: name.last_name(),
        source_span: span,
        resolved: if g.contains_key(name.last_name()) {
            Some(name.last_name())
        } else if g.contains_key(name.full_name()) {
            Some(name.full_name())
        } else {
            None
        },
    }
}

proof fn lemma_named_in_list(ts: Seq<TypeRef>, g: Map<Seq<char>, SymbolView>, j: int)
    requires
        0 <= j < ts.len(),
        ts[j] is Named,
    ensures
        type_refs_resolution(ts, g).contains(expected_reference(ts[j]->name, ts[j]->Named_span, g)),
{
    let parts = ts.map_values(|t: TypeRef| type_ref_resolution(t, g));
    assert(parts[j] == type_ref_resolution(ts[j], g));
    assert(parts[j][0] == expected_reference(ts[j]->name, ts[j]->Named_span, g));
    lemma_concat_has(parts, j, expected_reference(ts[j]->name, ts[j]->Named_span, g));
}

proof fn lemma_named_in_has(hs: Seq<HasDeclaration>, g: Map<Seq<char>, SymbolView>, j: int)
    requires
        0 <= j < hs.len(),
        hs[j].type_ref is Named,
    ensures
        has_refs_resolution(hs, g).contains(
            expected_reference(hs[j].type_ref->name, hs[j].type_ref->Named_span, g),
        ),
{
    let parts = hs.map_values(|h: HasDeclaration| type_ref_resolution(h.type_ref, g));
    let x = expected_reference(hs[j].type_ref->name, hs[j].type_ref->Named_span, g);
    assert(parts[j] == type_ref_resolution(hs[j].type_ref, g));
    assert(parts[j][0] == x);
    lemma_concat_has(parts, j, x);
}

/// Every named type reference of a declaration (a concept's parents and
/// `has` types, a property's domain and range) gives its reference, named by
/// its last segment, at its span, resolved as `expected_reference` says,
/// among the references of the file.
pub proof fn lemma_declaration_references(f: OntologyFile, g: Map<Seq<char>, SymbolView>, i: int)
    requires
        0 <= i < f.declarations@.len(),
    ensures
        f.declarations@[i] matches Declaration::Property(p) ==> (p.domain is Named ==> file_refs(f, g).contains(
            expected_reference(p.domain->name, p.domain->Named_span, g),
        )) && (p.range is Named ==> file_refs(f, g).contains(
            expected_reference(p.range->name, p.range->Named_span, g),
        )),
        f.declarations@[i] matches Declaration::Concept(c) ==> (forall|j: int|
            0 <= j < c.parents@.len() && #[trigger] c.parents@[j] is Named ==> file_refs(f, g).contains(
                expected_reference(c.parents@[j]->name, c.parents@[j]->Named_span, g),
            )) && (forall|j: int|
            0 <= j < c.has_declarations@.len() && (#[trigger] c.has_declarations@[j]).type_ref is Named
                ==> file_refs(f, g).contains(
                expected_reference(
                    c.has_declarations@[j].type_ref->name,
                    c.has_declarations@[j].type_ref->Named_span,
                    g,
                ),
            )),
{
    let parts = f.declarations@.map_values(|d: Declaration| declaration_refs(d, g));
    assert(parts[i] == declaration_refs(f.declarations@[i], g));
    match f.declarations@[i] {
        Declaration::Property(p) => {
            let a = type_ref_resolution(p.domain, g);
            let b = type_ref_resolution(p.range, g);
            if p.domain is Named {
                let x = expected_reference(p.domain->name, p.domain->Named_span, g);
                assert(a[0] == x);
                lemma_add_has(a, b, x);
                lemma_concat_has(parts, i, x);
            }
            if p.range is Named {
                let x = expected_reference(p.range->name, p.range->Named_span, g);
                assert(b[0] == x);
                lemma_add_has(a, b, x);
                lemma_concat_has(parts, i, x);
            }
        },
        Declaration::Concept(c) => {
            let a = type_refs_resolution(c.parents@, g);
            let b = has_refs_resolution(c.has_declarations@, g);
            assert forall|j: int| 0 <= j < c.parents@.len() && #[trigger] c.parents@[j] is Named implies file_refs(
                f,
                g,
            ).contains(expected_reference(c.parents@[j]->name, c.parents@[j]->Named_span, g)) by {
                let x = expected_reference(c.parents@[j]->name, c.parents@[j]->Named_span, g);
                lemma_named_in_list(c.parents@, g, j);
                lemma_add_has(a, b, x);
                lemma_concat_has(parts, i, x);
            }
            assert forall|j: int|
                0 <= j < c.has_declarations@.len() && (#[trigger] c.has_declarations@[j]).type_ref is Named implies file_refs(
                f,
                g,
            ).contains(
                expected_reference(
                    c.has_declarations@[j].type_ref->name,
                    c.has_declarations@[j].type_ref->Named_span,
                    g,
                ),
            ) by {
                let x = expected_reference(
                    c.has_declarations@[j].type_ref->name,
                    c.has_declarations@[j].type_ref->Named_span,
                    g,
                );
                lemma_named_in_has(c.has_declarations@, g, j);
                lemma_add_has(a, b, x);
                lemma_concat_has(parts, i, x);
            }
        },
        _ => {},
    }
}
} // verus!
