//! Finding every place a file refers to a name.
//!
//! A name reference matches the target when its full name or its last
//! segment equals the target, so both `"Far"` and `"there.Far"` find
//! `there.Far`.

use vstd::prelude::*;
use crate::assoc::{concat, lemma_add_has, lemma_concat_has, lemma_concat_push};
use crate::ast::{
    Declaration, HasDeclaration, OntologyFile, Pattern, QualifiedName, RuleDef, Span, ThenItem, TypeRef,
};
use crate::text::str_eq;

verus! {

/// Whether `name` refers to `target`.
pub open spec fn name_matches(name: QualifiedName, target: Seq<char>) -> bool {
    name.full_name() == target || name.last_name() == target
}

/// `span`, as a one-element list when the name matches and has a span.
pub open spec fn span_if(matches: bool, span: Option<Span>) -> Seq<Span> {
    if matches && span is Some {
        seq![span->0]
    } else {
        Seq::empty()
    }
}

/// The reference spans of a type reference.
pub open spec fn type_ref_refs(t: TypeRef, target: Seq<char>) -> Seq<Span> {
    match t {
        TypeRef::Named { name, span } => span_if(name_matches(name, target), span),
        _ => Seq::empty(),
    }
}

/// The reference spans of a match pattern: a type pattern's type, a
/// quantifier's nested patterns, a triple's property.
pub open spec fn pattern_refs(p: Pattern, target: Seq<char>) -> Seq<Span>
    decreases p, 1nat,
{
    match p {
        Pattern::Type { type_ref, .. } => type_ref_refs(type_ref, target),
        Pattern::Quantified { patterns, .. } => patterns_refs(patterns@, target),
        Pattern::Triple { property, .. } => span_if(name_matches(property, target), property.span),
        _ => Seq::empty(),
    }
}

/// The reference spans of a list of patterns, in order.
pub open spec fn patterns_refs(ps: Seq<Pattern>, target: Seq<char>) -> Seq<Span>
    decreases ps, 0nat,
{
    if ps.len() == 0 {
        Seq::empty()
    } else {
        patterns_refs(ps.subrange(0, ps.len() - 1), target) + pattern_refs(ps[ps.len() - 1], target)
    }
}

/// The reference spans of a rule: its patterns, then its `then:` items.
pub open spec fn rule_refs(r: RuleDef, target: Seq<char>) -> Seq<Span>
    decreases r, 2nat,
{
    patterns_refs(r.patterns@, target) + items_refs(r.items@, target)
}

/// The reference spans of a `then:` item: a typing's type, a nested rule,
/// an asserted triple's property.
pub open spec fn item_refs(item: ThenItem, target: Seq<char>) -> Seq<Span>
    decreases item, 1nat,
{
    match item {
        ThenItem::AssertionTyping { typing, span } => span_if(name_matches(typing, target), span),
        ThenItem::NestedRule { rule } => rule_refs(rule, target),
        ThenItem::AssertionTriple { property, .. } => span_if(name_matches(property, target), property.span),
    }
}

/// The reference spans of a list of `then:` items, in order.
pub open spec fn items_refs(items: Seq<ThenItem>, target: Seq<char>) -> Seq<Span>
    decreases items, 0nat,
{
    if items.len() == 0 {
        Seq::empty()
    } else {
        items_refs(items.subrange(0, items.len() - 1), target) + item_refs(items[items.len() - 1], target)
    }
}

/// The reference spans of a declaration: a concept's parents then its `has`
/// types, a property's domain then its range, a rule's patterns and items.
pub open spec fn declaration_refs(d: Declaration, target: Seq<char>) -> Seq<Span> {
    match d {
        Declaration::Concept(c) => concat(c.parents@.map_values(|t: TypeRef| type_ref_refs(t, target))) + concat(
            c.has_declarations@.map_values(|h: HasDeclaration| type_ref_refs(h.type_ref, target)),
        ),
        Declaration::Property(p) => type_ref_refs(p.domain, target) + type_ref_refs(p.range, target),
        Declaration::Rule(r) => rule_refs(r, target),
        _ => Seq::empty(),
    }
}

/// The reference spans of a file, declaration by declaration.
pub open spec fn file_references(f: OntologyFile, target: Seq<char>) -> Seq<Span> {
    concat(f.declarations@.map_values(|d: Declaration| declaration_refs(d, target)))
}

fn matches_name(name: &QualifiedName, target: &str) -> (r: bool)
    ensures
        r == name_matches(*name, target@),
{
    let full = name.full();
    if str_eq(full.as_str(), target) {
        return true;
    }
    let last = name.last();
    str_eq(last.as_str(), target)
}

fn push_if(out: &mut Vec<Span>, matches: bool, span: Option<Span>)
    ensures
        final(out)@ == old(out)@ + span_if(matches, span),
{
    if matches {
        if let Some(s) = span {
            out.push(s);
        }
    }
    assert(out@ =~= old(out)@ + span_if(matches, span));
}

fn collect_type_ref(t: &TypeRef, target: &str, out: &mut Vec<Span>)
    ensures
        final(out)@ == old(out)@ + type_ref_refs(*t, target@),
{
    if let TypeRef::Named { name, span } = t {
        let m = matches_name(name, target);
        push_if(out, m, *span);
    } else {
        assert(out@ =~= old(out)@ + type_ref_refs(*t, target@));
    }
}

fn collect_pattern(p: &Pattern, target: &str, out: &mut Vec<Span>)
    ensures
        final(out)@ == old(out)@ + pattern_refs(*p, target@),
    decreases p,
{
    match p {
        Pattern::Type { type_ref, .. } => collect_type_ref(type_ref, target, out),
        Pattern::Quantified { patterns, .. } => {
            let ghost o0 = out@;
            let mut i: usize = 0;
            while i < patterns.len()
                invariant
                    i <= patterns@.len(),
                    *p is Quantified,
                    (*p)->Quantified_patterns == *patterns,
                    out@ == o0 + patterns_refs(patterns@.subrange(0, i as int), target@),
                decreases patterns.len() - i,
            {
                proof {
                    let pp = *p;
                    assert(decreases_to!(pp => pp->Quantified_patterns));
                    assert(decreases_to!(pp => patterns@[i as int]));
                }
                collect_pattern(&patterns[i], target, out);
                proof {
                    let s = patterns@.subrange(0, i + 1);
                    assert(s.subrange(0, s.len() - 1) =~= patterns@.subrange(0, i as int));
                    assert(out@ =~= o0 + patterns_refs(s, target@));
                }
                i = i + 1;
            }
            assert(patterns@.subrange(0, patterns@.len() as int) =~= patterns@);
        },
        Pattern::Triple { property, .. } => {
            let m = matches_name(property, target);
            push_if(out, m, property.span);
        },
        _ => {
            assert(out@ =~= old(out)@ + pattern_refs(*p, target@));
        },
    }
}

fn collect_rule(r: &RuleDef, target: &str, out: &mut Vec<Span>)
    ensures
        final(out)@ == old(out)@ + rule_refs(*r, target@),
    decreases r,
{
    let ghost o0 = out@;
    let mut i: usize = 0;
    while i < r.patterns.len()
        invariant
            i <= r.patterns@.len(),
            out@ == o0 + patterns_refs(r.patterns@.subrange(0, i as int), target@),
        decreases r.patterns.len() - i,
    {
        collect_pattern(&r.patterns[i], target, out);
        proof {
            let s = r.patterns@.subrange(0, i + 1);
            assert(s.subrange(0, s.len() - 1) =~= r.patterns@.subrange(0, i as int));
            assert(out@ =~= o0 + patterns_refs(s, target@));
        }
        i = i + 1;
    }
    assert(r.patterns@.subrange(0, r.patterns@.len() as int) =~= r.patterns@);
    let ghost o1 = out@;
    let mut j: usize = 0;
    while j < r.items.len()
        invariant
            j <= r.items@.len(),
            out@ == o1 + items_refs(r.items@.subrange(0, j as int), target@),
        decreases r.items.len() - j,
    {
        let ghost ob = out@;
        match &r.items[j] {
            ThenItem::AssertionTyping { typing, span } => {
                let m = matches_name(typing, target);
                push_if(out, m, *span);
            },
            ThenItem::NestedRule { rule } => {
                proof {
                    let rr = *r;
                    let it = r.items@[j as int];
                    assert(decreases_to!(rr => rr.items));
                    assert(decreases_to!(rr => it));
                    assert(decreases_to!(it => it->rule));
                    assert(decreases_to!(rr => *rule));
                }
                collect_rule(rule, target, out);
            },
            ThenItem::AssertionTriple { property, .. } => {
                let m = matches_name(property, target);
                push_if(out, m, property.span);
            },
        }
        proof {
            let s = r.items@.subrange(0, j + 1);
            assert(s.subrange(0, s.len() - 1) =~= r.items@.subrange(0, j as int));
            assert(s[s.len() - 1] == r.items@[j as int]);
            assert(out@ == ob + item_refs(r.items@[j as int], target@));
            assert(out@ =~= o1 + items_refs(s, target@));
        }
        j = j + 1;
    }
    assert(r.items@.subrange(0, r.items@.len() as int) =~= r.items@);
}

/// Every span in `f` where `target` is referred to by name: in type
/// references, rule patterns and rule conclusions.
pub fn find_references_in_file(f: &OntologyFile, target: &str) -> (r: Vec<Span>)
    ensures
        r@ == file_references(*f, target@),
{
    let mut out: Vec<Span> = Vec::new();
    let ghost parts = f.declarations@.map_values(|d: Declaration| declaration_refs(d, target@));
    let mut i: usize = 0;
    while i < f.declarations.len()
        invariant
            i <= f.declarations@.len(),
            parts == f.declarations@.map_values(|d: Declaration| declaration_refs(d, target@)),
            out@ == concat(parts.take(i as int)),
        decreases f.declarations.len() - i,
    {
        let ghost o0 = out@;
        match &f.declarations[i] {
            Declaration::Concept(c) => {
                let ghost ps = c.parents@.map_values(|t: TypeRef| type_ref_refs(t, target@));
                let mut j: usize = 0;
                while j < c.parents.len()
                    invariant
                        j <= c.parents@.len(),
                        ps == c.parents@.map_values(|t: TypeRef| type_ref_refs(t, target@)),
                        out@ == o0 + concat(ps.take(j as int)),
                    decreases c.parents.len() - j,
                {
                    collect_type_ref(&c.parents[j], target, &mut out);
                    proof {
                        assert(ps.take(j + 1) =~= ps.take(j as int).push(ps[j as int]));
                        lemma_concat_push(ps.take(j as int), ps[j as int]);
                        assert(out@ =~= o0 + concat(ps.take(j + 1)));
                    }
                    j = j + 1;
                }
                assert(ps.take(c.parents@.len() as int) =~= ps);
                let ghost o1 = out@;
                let ghost hs = c.has_declarations@.map_values(|h: HasDeclaration| type_ref_refs(h.type_ref, target@));
                let mut k: usize = 0;
                while k < c.has_declarations.len()
                    invariant
                        k <= c.has_declarations@.len(),
                        hs == c.has_declarations@.map_values(|h: HasDeclaration| type_ref_refs(h.type_ref, target@)),
                        out@ == o1 + concat(hs.take(k as int)),
                    decreases c.has_declarations.len() - k,
                {
                    collect_type_ref(&c.has_declarations[k].type_ref, target, &mut out);
                    proof {
                        assert(hs.take(k + 1) =~= hs.take(k as int).push(hs[k as int]));
                        lemma_concat_push(hs.take(k as int), hs[k as int]);
                        assert(out@ =~= o1 + concat(hs.take(k + 1)));
                    }
                    k = k + 1;
                }
                assert(hs.take(c.has_declarations@.len() as int) =~= hs);
            },
            Declaration::Property(p) => {
                collect_type_ref(&p.domain, target, &mut out);
                collect_type_ref(&p.range, target, &mut out);
            },
            Declaration::Rule(rule) => {
                collect_rule(rule, target, &mut out);
            },
            _ => {},
        }
        proof {
            assert(out@ =~= o0 + parts[i as int]);
            assert(parts.take(i + 1) =~= parts.take(i as int).push(parts[i as int]));
            lemma_concat_push(parts.take(i as int), parts[i as int]);
        }
        i = i + 1;
    }
    assert(parts.take(f.declarations@.len() as int) =~= parts);
    out
}


// ── Laws ─────────────────────────────────────────────────────────────────────

/// Whether the qualified name refers to `target`: its full name or its last
/// segment is the target.
pub open spec fn refers_to(name: QualifiedName, target: Seq<char>) -> bool {
    name.full_name() == target || name.last_name() == target
}

/// The span a type reference is found at: a named type with a span that
/// refers to `target`.
pub open spec fn found_type_span(t: TypeRef, target: Seq<char>) -> Option<Span> {
    match t {
        TypeRef::Named { name, span } => if refers_to(name, target) {
            span
        } else {
            None
        },
        _ => None,
    }
}

proof fn lemma_type_ref_found(t: TypeRef, target: Seq<char>)
    requires
        found_type_span(t, target) is Some,
    ensures
        type_ref_refs(t, target).contains(found_type_span(t, target)->0),
{
    assert(type_ref_refs(t, target)[0] == found_type_span(t, target)->0);
}

proof fn lemma_list_found(ts: Seq<TypeRef>, target: Seq<char>, j: int)
    requires
        0 <= j < ts.len(),
        found_type_span(ts[j], target) is Some,
    ensures
        concat(ts.map_values(|t: TypeRef| type_ref_refs(t, target))).contains(found_type_span(ts[j], target)->0),
{
    let parts = ts.map_values(|t: TypeRef| type_ref_refs(t, target));
    lemma_type_ref_found(ts[j], target);
    assert(parts[j] == type_ref_refs(ts[j], target));
    lemma_concat_has(parts, j, found_type_span(ts[j], target)->0);
}

proof fn lemma_has_found(hs: Seq<HasDeclaration>, target: Seq<char>, j: int)
    requires
        0 <= j < hs.len(),
        found_type_span(hs[j].type_ref, target) is Some,
    ensures
        concat(hs.map_values(|h: HasDeclaration| type_ref_refs(h.type_ref, target))).contains(
            found_type_span(hs[j].type_ref, target)->0,
        ),
{
    let parts = hs.map_values(|h: HasDeclaration| type_ref_refs(h.type_ref, target));
    lemma_type_ref_found(hs[j].type_ref, target);
    assert(parts[j] == type_ref_refs(hs[j].type_ref, target));
    lemma_concat_has(parts, j, found_type_span(hs[j].type_ref, target)->0);
}

proof fn lemma_patterns_has(ps: Seq<Pattern>, target: Seq<char>, j: int, x: Span)
    requires
        0 <= j < ps.len(),
        pattern_refs(ps[j], target).contains(x),
    ensures
        patterns_refs(ps, target).contains(x),
    decreases ps.len(),
{
    let p = ps.subrange(0, ps.len() - 1);
    if j == ps.len() - 1 {
        lemma_add_has(patterns_refs(p, target), pattern_refs(ps[ps.len() - 1], target), x);
    } else {
        assert(p[j] == ps[j]);
        lemma_patterns_has(p, target, j, x);
        lemma_add_has(patterns_refs(p, target), pattern_refs(ps[ps.len() - 1], target), x);
    }
}

proof fn lemma_items_has(items: Seq<ThenItem>, target: Seq<char>, j: int, x: Span)
    requires
        0 <= j < items.len(),
        item_refs(items[j], target).contains(x),
    ensures
        items_refs(items, target).contains(x),
    decreases items.len(),
{
    let p = items.subrange(0, items.len() - 1);
    if j == items.len() - 1 {
        lemma_add_has(items_refs(p, target), item_refs(items[items.len() - 1], target), x);
    } else {
        assert(p[j] == items[j]);
        lemma_items_has(p, target, j, x);
        lemma_add_has(items_refs(p, target), item_refs(items[items.len() - 1], target), x);
    }
}

/// The span a match pattern of a rule is found at: a triple's property, or
/// a type pattern's named type, that refers to `target` and has a span.
pub open spec fn found_pattern_span(p: Pattern, target: Seq<char>) -> Option<Span> {
    match p {
        Pattern::Triple { property, .. } => if refers_to(property, target) {
            property.span
        } else {
            None
        },
        Pattern::Type { type_ref, .. } => found_type_span(type_ref, target),
        _ => None,
    }
}

/// The span a `then:` item of a rule is found at: an asserted triple's
/// property, or a typing's type, that refers to `target` and has a span.
pub open spec fn found_item_span(item: ThenItem, target: Seq<char>) -> Option<Span> {
    match item {
        ThenItem::AssertionTriple { property, .. } => if refers_to(property, target) {
            property.span
        } else {
            None
        },
        ThenItem::AssertionTyping { typing, span } => if refers_to(typing, target) {
            span
        } else {
            None
        },
        _ => None,
    }
}

/// Every named reference of a declaration with a span, whose full name or
/// last segment is the target, is found: a concept's parents and `has`
/// types, a property's domain and range, and a rule's match patterns and
/// `then:` items.
pub proof fn lemma_references_found(f: OntologyFile, target: Seq<char>, i: int)
    requires
        0 <= i < f.declarations@.len(),
    ensures
        f.declarations@[i] matches Declaration::Property(p) ==> (found_type_span(p.domain, target) is Some
            ==> file_references(f, target).contains(found_type_span(p.domain, target)->0)) && (found_type_span(
            p.range,
            target,
        ) is Some ==> file_references(f, target).contains(found_type_span(p.range, target)->0)),
        f.declarations@[i] matches Declaration::Concept(c) ==> (forall|j: int|
            0 <= j < c.parents@.len() && found_type_span(#[trigger] c.parents@[j], target) is Some
                ==> file_references(f, target).contains(found_type_span(c.parents@[j], target)->0)) && (forall|j: int|
            0 <= j < c.has_declarations@.len() && found_type_span((#[trigger] c.has_declarations@[j]).type_ref, target)
                is Some ==> file_references(f, target).contains(
                found_type_span(c.has_declarations@[j].type_ref, target)->0,
            )),
        f.declarations@[i] matches Declaration::Rule(r) ==> (forall|j: int|
            0 <= j < r.patterns@.len() && found_pattern_span(#[trigger] r.patterns@[j], target) is Some
                ==> file_references(f, target).contains(found_pattern_span(r.patterns@[j], target)->0)) && (forall|j: int|
            0 <= j < r.items@.len() && found_item_span(#[trigger] r.items@[j], target) is Some
                ==> file_references(f, target).contains(found_item_span(r.items@[j], target)->0)),
{
    let parts = f.declarations@.map_values(|d: Declaration| declaration_refs(d, target));
    assert(parts[i] == declaration_refs(f.declarations@[i], target));
    match f.declarations@[i] {
        Declaration::Property(p) => {
            let a = type_ref_refs(p.domain, target);
            let b = type_ref_refs(p.range, target);
            if found_type_span(p.domain, target) is Some {
                let x = found_type_span(p.domain, target)->0;
                lemma_type_ref_found(p.domain, target);
                lemma_add_has(a, b, x);
                lemma_concat_has(parts, i, x);
            }
            if found_type_span(p.range, target) is Some {
                let x = found_type_span(p.range, target)->0;
                lemma_type_ref_found(p.range, target);
                lemma_add_has(a, b, x);
                lemma_concat_has(parts, i, x);
            }
        },
        Declaration::Concept(c) => {
            let a = concat(c.parents@.map_values(|t: TypeRef| type_ref_refs(t, target)));
            let b = concat(c.has_declarations@.map_values(|h: HasDeclaration| type_ref_refs(h.type_ref, target)));
            assert forall|j: int|
                0 <= j < c.parents@.len() && found_type_span(#[trigger] c.parents@[j], target) is Some implies file_references(
                f,
                target,
            ).contains(found_type_span(c.parents@[j], target)->0) by {
                let x = found_type_span(c.parents@[j], target)->0;
                lemma_list_found(c.parents@, target, j);
                lemma_add_has(a, b, x);
                lemma_concat_has(parts, i, x);
            }
            assert forall|j: int|
                0 <= j < c.has_declarations@.len() && found_type_span((#[trigger] c.has_declarations@[j]).type_ref, target)
                    is Some implies file_references(f, target).contains(
                found_type_span(c.has_declarations@[j].type_ref, target)->0,
            ) by {
                let x = found_type_span(c.has_declarations@[j].type_ref, target)->0;
                lemma_has_found(c.has_declarations@, target, j);
                lemma_add_has(a, b, x);
                lemma_concat_has(parts, i, x);
            }
        },
        Declaration::Rule(r) => {
            let a = patterns_refs(r.patterns@, target);
            let b = items_refs(r.items@, target);
            assert(parts[i] == a + b);
            assert forall|j: int|
                0 <= j < r.patterns@.len() && found_pattern_span(#[trigger] r.patterns@[j], target) is Some implies file_references(
                f,
                target,
            ).contains(found_pattern_span(r.patterns@[j], target)->0) by {
                let pj = r.patterns@[j];
                let x = found_pattern_span(pj, target)->0;
                match pj {
                    Pattern::Type { type_ref, .. } => {
                        lemma_type_ref_found(type_ref, target);
                    },
                    _ => {
                        assert(pattern_refs(pj, target)[0] == x);
                    },
                }
                lemma_patterns_has(r.patterns@, target, j, x);
                lemma_add_has(a, b, x);
                lemma_concat_has(parts, i, x);
            }
            assert forall|j: int|
                0 <= j < r.items@.len() && found_item_span(#[trigger] r.items@[j], target) is Some implies file_references(
                f,
                target,
            ).contains(found_item_span(r.items@[j], target)->0) by {
                let it = r.items@[j];
                let x = found_item_span(it, target)->0;
                assert(item_refs(it, target)[0] == x);
                lemma_items_has(r.items@, target, j, x);
                lemma_add_has(a, b, x);
                lemma_concat_has(parts, i, x);
            }
        },
        _ => {},
    }
}
} // verus!
