//! Structural validation.
//!
//! - `S001` an unresolved type reference;
//! - `S002` a name declared twice in the same file;
//! - `S003` circular inheritance (`concept A sub A`).

use vstd::prelude::*;
use crate::assoc::{
    assoc, has_key, insert_all, keys_distinct, lemma_assoc_empty, lemma_assoc_index, lemma_assoc_push,
    lemma_assoc_update,
};
use crate::ast::{Declaration, OntologyFile, Span, TypeRef};
use crate::diagnostics::{
    diagnostic_views, error_view, Diagnostic, DiagnosticView, CIRCULAR_INHERITANCE, DUPLICATE_DECLARATION,
    UNRESOLVED_TYPE,
};
use crate::index::SymbolIndex;
use crate::resolve::{ref_views, refs_where, RefView, ResolvedFile};
use crate::text::{str_eq, views};

verus! {

// ── S001 ─────────────────────────────────────────────────────────────────────

/// ``type `<name>` is not declared``.
pub open spec fn unresolved_message(name: Seq<char>) -> Seq<char> {
    "type `"@ + name + "` is not declared"@
}

/// One `S001` error per unresolved reference, in order, at the reference.
pub open spec fn unresolved_diagnostics(refs: Seq<RefView>) -> Seq<DiagnosticView> {
    refs_where(refs, false).map_values(
        |r: RefView| error_view(UNRESOLVED_TYPE, unresolved_message(r.name), r.source_span),
    )
}

fn check_unresolved(resolved: &ResolvedFile, diags: &mut Vec<Diagnostic>)
    ensures
        diagnostic_views(final(diags)@) == diagnostic_views(old(diags)@) + unresolved_diagnostics(
            ref_views(resolved.refs@),
        ),
{
    let ghost d0 = diagnostic_views(diags@);
    let unresolved = resolved.unresolved();
    let ghost u = refs_where(ref_views(resolved.refs@), false);
    let ghost f = |r: RefView| error_view(UNRESOLVED_TYPE, unresolved_message(r.name), r.source_span);
    let mut i: usize = 0;
    while i < unresolved.len()
        invariant
            i <= unresolved@.len(),
            u == crate::resolve::borrowed_ref_views(unresolved@),
            f == (|r: RefView| error_view(UNRESOLVED_TYPE, unresolved_message(r.name), r.source_span)),
            diagnostic_views(diags@) == d0 + u.take(i as int).map_values(f),
        decreases unresolved.len() - i,
    {
        let r = unresolved[i];
        let mut message = "type `".to_owned();
        message.append(r.name.as_str());
        message.append("` is not declared");
        let ghost b = diagnostic_views(diags@);
        let d = Diagnostic::error(UNRESOLVED_TYPE, message, r.source_span);
        diags.push(d);
        proof {
            assert(u[i as int] == r@);
            assert(diagnostic_views(diags@) =~= b.push(d@));
            assert(u.take(i + 1).map_values(f) =~= u.take(i as int).map_values(f).push(f(u[i as int])));
        }
        i = i + 1;
    }
    assert(u.take(unresolved@.len() as int) =~= u);
}

// ── S002 ─────────────────────────────────────────────────────────────────────

/// The name and span under which a declaration takes part in the duplicate
/// check: concepts, properties and rules do, other declarations do not.
pub open spec fn declared_name(d: Declaration) -> Option<(Seq<char>, Option<Span>)> {
    match d {
        Declaration::Concept(c) => Some((c.name@, c.span)),
        Declaration::Property(p) => Some((p.name@, p.span)),
        Declaration::Rule(r) => Some((r.name@, r.span)),
        _ => None,
    }
}

/// Each declared name of `ds` with the span of its first declaration.
pub open spec fn first_declarations(ds: Seq<Declaration>) -> Map<Seq<char>, Option<Span>>
    decreases ds.len(),
{
    if ds.len() == 0 {
        Map::empty()
    } else {
        let m = first_declarations(ds.drop_last());
        match declared_name(ds.last()) {
            Some((n, sp)) => if m.contains_key(n) {
                m
            } else {
                m.insert(n, sp)
            },
            None => m,
        }
    }
}

/// ``duplicate declaration `<name>` ``.
pub open spec fn duplicate_message(name: Seq<char>) -> Seq<char> {
    "duplicate declaration `"@ + name + "`"@
}

/// One `S002` error for each declaration whose name an earlier declaration
/// already has, in order, at the span of the first declaration of the name.
pub open spec fn duplicate_diagnostics(ds: Seq<Declaration>) -> Seq<DiagnosticView>
    decreases ds.len(),
{
    if ds.len() == 0 {
        Seq::empty()
    } else {
        let m = first_declarations(ds.drop_last());
        let rest = duplicate_diagnostics(ds.drop_last());
        match declared_name(ds.last()) {
            Some((n, sp)) => if m.contains_key(n) {
                rest.push(error_view(DUPLICATE_DECLARATION, duplicate_message(n), m[n]))
            } else {
                rest
            },
            None => rest,
        }
    }
}

/// The name and span of a declaration taking part in the duplicate check.
fn declaration_name_span(d: &Declaration) -> (r: Option<(&String, Option<Span>)>)
    ensures
        match r {
            Some((n, sp)) => declared_name(*d) == Some((n@, sp)),
            None => declared_name(*d) is None,
        },
{
    match d {
        Declaration::Concept(c) => Some((&c.name, c.span)),
        Declaration::Property(p) => Some((&p.name, p.span)),
        Declaration::Rule(r) => Some((&r.name, r.span)),
        _ => None,
    }
}

spec fn seen_pairs(s: Seq<(String, Option<Span>)>) -> Seq<(Seq<char>, Option<Span>)> {
    s.map_values(|e: (String, Option<Span>)| (e.0@, e.1))
}

fn find_seen(seen: &Vec<(String, Option<Span>)>, name: &str) -> (r: Option<usize>)
    ensures
        match r {
            Some(i) => i < seen@.len() && seen@[i as int].0@ == name@,
            None => !has_key(seen_pairs(seen@), name@),
        },
{
    let mut i: usize = 0;
    while i < seen.len()
        invariant
            i <= seen@.len(),
            forall|j: int| 0 <= j < i ==> seen@[j].0@ != name@,
        decreases seen.len() - i,
    {
        if str_eq(seen[i].0.as_str(), name) {
            return Some(i);
        }
        i = i + 1;
    }
    proof {
        let p = seen_pairs(seen@);
        assert forall|j: int| 0 <= j < p.len() implies p[j].0 != name@ by {
            assert(p[j].0 == seen@[j].0@);
        }
    }
    None
}

pub(crate) fn check_duplicates(f: &OntologyFile, diags: &mut Vec<Diagnostic>)
    ensures
        diagnostic_views(final(diags)@) == diagnostic_views(old(diags)@) + duplicate_diagnostics(
            f.declarations@,
        ),
{
    let ghost d0 = diagnostic_views(diags@);
    let ghost ds = f.declarations@;
    let mut seen: Vec<(String, Option<Span>)> = Vec::new();
    proof {
        lemma_assoc_empty(seen_pairs(seen@));
    }
    let mut i: usize = 0;
    while i < f.declarations.len()
        invariant
            i <= ds.len(),
            ds == f.declarations@,
            keys_distinct(seen_pairs(seen@)),
            assoc(seen_pairs(seen@)) == first_declarations(ds.take(i as int)),
            diagnostic_views(diags@) == d0 + duplicate_diagnostics(ds.take(i as int)),
        decreases ds.len() - i,
    {
        proof {
            assert(ds.take(i + 1).drop_last() =~= ds.take(i as int));
            assert(ds.take(i + 1).last() == ds[i as int]);
        }
        let ghost b = diagnostic_views(diags@);
        let ghost sp0 = seen_pairs(seen@);
        if let Some((name, span)) = declaration_name_span(&f.declarations[i]) {
            match find_seen(&seen, name.as_str()) {
                Some(j) => {
                    let mut message = "duplicate declaration `".to_owned();
                    message.append(name.as_str());
                    message.append("`");
                    let d = Diagnostic::error(DUPLICATE_DECLARATION, message, seen[j].1);
                    proof {
                        assert(sp0[j as int] == (seen@[j as int].0@, seen@[j as int].1));
                        lemma_assoc_index(sp0, j as int);
                    }
                    diags.push(d);
                    assert(diagnostic_views(diags@) =~= b.push(d@));
                },
                None => {
                    let ghost n = name@;
                    seen.push((name.clone(), span));
                    proof {
                        lemma_assoc_push(sp0, n, span);
                        assert(seen_pairs(seen@) =~= sp0.push((n, span)));
                    }
                },
            }
        }
        i = i + 1;
    }
    assert(ds.take(ds.len() as int) =~= ds);
}

// ── S003 ─────────────────────────────────────────────────────────────────────

/// The parents recorded for `node`; none when it has no entry.
pub open spec fn successors(g: Map<Seq<char>, Seq<Seq<char>>>, node: Seq<char>) -> Seq<Seq<char>> {
    if g.contains_key(node) {
        g[node]
    } else {
        Seq::empty()
    }
}

/// `start` and every name that occurs as a parent in `g`.
pub open spec fn inheritance_universe(g: Map<Seq<char>, Seq<Seq<char>>>, start: Seq<char>) -> Set<Seq<char>> {
    Set::new(
        |n: Seq<char>|
            n == start || exists|k: Seq<char>, i: int|
                g.contains_key(k) && 0 <= i < g[k].len() && #[trigger] g[k][i] == n,
    )
}

/// An inheritance list: each concept name with the last segments of its
/// named parents.
pub open spec fn inherit_pairs(s: Seq<(String, Vec<String>)>) -> Seq<(Seq<char>, Seq<Seq<char>>)> {
    s.map_values(|e: (String, Vec<String>)| (e.0@, crate::text::views(e.1@)))
}

/// The names the search from `start` can meet form a finite set when `g`
/// comes from a list.
proof fn lemma_universe_finite(s: Seq<(Seq<char>, Seq<Seq<char>>)>, start: Seq<char>)
    requires
        keys_distinct(s),
    ensures
        inheritance_universe(assoc(s), start).finite(),
{
    let g = assoc(s);
    let flat = crate::assoc::concat(s.map_values(|e: (Seq<char>, Seq<Seq<char>>)| e.1));
    let big = flat.to_set().insert(start);
    assert(flat.to_set().finite()) by {
        vstd::seq_lib::seq_to_set_is_finite(flat);
    }
    assert forall|n: Seq<char>| inheritance_universe(g, start).contains(n) implies big.contains(n) by {
        if n != start {
            let (k, i) = choose|k: Seq<char>, i: int| g.contains_key(k) && 0 <= i < g[k].len() && #[trigger] g[k][i] == n;
            let j = choose|j: int| 0 <= j < s.len() && s[j].0 == k;
            lemma_assoc_index(s, j);
            let m = s.map_values(|e: (Seq<char>, Seq<Seq<char>>)| e.1);
            assert(m[j] == s[j].1);
            crate::assoc::lemma_concat_contains(m, j, i);
        }
    }
    vstd::set_lib::lemma_set_subset_finite(big, inheritance_universe(g, start));
}

fn find_entry(list: &Vec<(String, Vec<String>)>, name: &str) -> (r: Option<usize>)
    ensures
        match r {
            Some(i) => i < list@.len() && list@[i as int].0@ == name@,
            None => !has_key(inherit_pairs(list@), name@),
        },
{
    let mut i: usize = 0;
    while i < list.len()
        invariant
            i <= list@.len(),
            forall|j: int| 0 <= j < i ==> list@[j].0@ != name@,
        decreases list.len() - i,
    {
        if str_eq(list[i].0.as_str(), name) {
            return Some(i);
        }
        i = i + 1;
    }
    proof {
        let p = inherit_pairs(list@);
        assert forall|j: int| 0 <= j < p.len() implies p[j].0 != name@ by {
            assert(p[j].0 == list@[j].0@);
        }
    }
    None
}

fn contains_name(list: &Vec<String>, name: &str) -> (r: bool)
    ensures
        r == crate::text::views(list@).contains(name@),
{
    let mut i: usize = 0;
    while i < list.len()
        invariant
            i <= list@.len(),
            forall|j: int| 0 <= j < i ==> list@[j]@ != name@,
        decreases list.len() - i,
    {
        if str_eq(list[i].as_str(), name) {
            assert(crate::text::views(list@)[i as int] == name@);
            return true;
        }
        i = i + 1;
    }
    false
}

/// Appends the parents recorded for `name` to `stack`.
fn push_parents(list: &Vec<(String, Vec<String>)>, name: &str, stack: &mut Vec<String>)
    requires
        keys_distinct(inherit_pairs(list@)),
    ensures
        views(final(stack)@) == views(old(stack)@) + successors(assoc(inherit_pairs(list@)), name@),
{
    let ghost g = assoc(inherit_pairs(list@));
    let ghost before = views(stack@);
    match find_entry(list, name) {
        Some(i) => {
            let ps = &list[i].1;
            proof {
                let p = inherit_pairs(list@);
                assert(p[i as int] == (list@[i as int].0@, views(ps@)));
                lemma_assoc_index(p, i as int);
            }
            let mut j: usize = 0;
            while j < ps.len()
                invariant
                    j <= ps@.len(),
                    views(stack@) == before + views(ps@).take(j as int),
                decreases ps.len() - j,
            {
                let ghost b = views(stack@);
                stack.push(ps[j].clone());
                assert(views(stack@) =~= b.push(ps@[j as int]@));
                assert(views(ps@).take(j + 1) =~= views(ps@).take(j as int).push(ps@[j as int]@));
                j = j + 1;
            }
            assert(views(ps@).take(ps@.len() as int) =~= views(ps@));
        },
        None => {
            assert(!g.contains_key(name@));
            assert(views(stack@) =~= before + successors(g, name@));
        },
    }
}

/// A set that holds the parents of `start` and of each of its members holds
/// every name reached from `start`.
proof fn lemma_closed_holds_reached(
    g: Map<Seq<char>, Seq<Seq<char>>>,
    start: Seq<char>,
    vs: Set<Seq<char>>,
    path: Seq<Seq<char>>,
    i: int,
)
    requires
        forall|s: Seq<char>| #[trigger] successors(g, start).contains(s) ==> vs.contains(s),
        forall|v: Seq<char>, s: Seq<char>|
            #[trigger] vs.contains(v) && #[trigger] successors(g, v).contains(s) ==> vs.contains(s),
        path.len() >= 2,
        path[0] == start,
        is_parent_chain(g, path),
        1 <= i < path.len(),
    ensures
        vs.contains(path[i]),
    decreases i,
{
    assert(successors(g, path[i - 1]).contains(path[i]));
    if i > 1 {
        lemma_closed_holds_reached(g, start, vs, path, i - 1);
    }
}

/// Whether `start` reaches itself over the parent relation of the list: a
/// search that visits every name reached from `start`.
#[verifier::spinoff_prover]
#[verifier::rlimit(60)]
fn reaches_itself(list: &Vec<(String, Vec<String>)>, start: &str) -> (r: bool)
    requires
        keys_distinct(inherit_pairs(list@)),
    ensures
        r == on_cycle(assoc(inherit_pairs(list@)), start@),
{
    let ghost g = assoc(inherit_pairs(list@));
    let ghost univ = inheritance_universe(g, start@);
    proof {
        lemma_universe_finite(inherit_pairs(list@), start@);
    }
    let mut visited: Vec<String> = Vec::new();
    let mut stack: Vec<String> = Vec::new();
    push_parents(list, start, &mut stack);
    proof {
        assert(views(visited@).to_set() =~= Set::empty());
        assert(views(stack@) =~= successors(g, start@));
        let st = views(stack@);
        assert forall|i: int| 0 <= i < st.len() implies reaches(g, start@, #[trigger] st[i]) by {
            lemma_reaches_one(g, start@, st[i]);
        }
        assert forall|i: int| 0 <= i < st.len() implies univ.contains(#[trigger] st[i]) by {
            assert(g[start@][i] == st[i]);
        }
    }
    while stack.len() > 0
        invariant
            g == assoc(inherit_pairs(list@)),
            keys_distinct(inherit_pairs(list@)),
            univ == inheritance_universe(g, start@),
            univ.finite(),
            forall|i: int| 0 <= i < views(stack@).len() ==> univ.contains(#[trigger] views(stack@)[i]),
            forall|i: int| 0 <= i < views(stack@).len() ==> reaches(g, start@, #[trigger] views(stack@)[i]),
            forall|v: Seq<char>| #[trigger] views(visited@).to_set().contains(v) ==> univ.contains(v) && reaches(g, start@, v),
            forall|s: Seq<char>|
                #[trigger] successors(g, start@).contains(s) ==> views(visited@).to_set().contains(s) || views(
                    stack@,
                ).contains(s),
            forall|v: Seq<char>, s: Seq<char>|
                #[trigger] views(visited@).to_set().contains(v) && #[trigger] successors(g, v).contains(s)
                    ==> views(visited@).to_set().contains(s) || views(stack@).contains(s),
        decreases univ.difference(views(visited@).to_set()).len(), stack.len(),
    {
        let ghost vs = views(visited@).to_set();
        let ghost st = views(stack@);
        let node = stack.pop().unwrap();
        let ghost vnode = node@;
        proof {
            assert(st.last() == vnode);
            assert(views(stack@) =~= st.drop_last());
            assert(st[st.len() - 1] == vnode);
        }
        if !contains_name(&visited, node.as_str()) {
            let ghost before = views(stack@);
            push_parents(list, node.as_str(), &mut stack);
            let ghost vbefore = views(visited@);
            visited.push(node);
            proof {
                let nv = views(visited@);
                assert(nv =~= vbefore.push(vnode));
                assert forall|x: Seq<char>| nv.contains(x) <==> (vbefore.contains(x) || x == vnode) by {
                    if nv.contains(x) {
                        let a = choose|a: int| 0 <= a < nv.len() && nv[a] == x;
                        if a < vbefore.len() {
                            assert(vbefore[a] == x);
                        }
                    }
                    if vbefore.contains(x) {
                        let a = choose|a: int| 0 <= a < vbefore.len() && vbefore[a] == x;
                        assert(nv[a] == x);
                    }
                    if x == vnode {
                        assert(nv[nv.len() - 1] == x);
                    }
                }
                assert(nv.to_set() =~= vs.insert(vnode));
                let ns = views(stack@);
                assert(ns =~= st.drop_last() + successors(g, vnode));
                assert forall|a: int| 0 <= a < ns.len() implies univ.contains(#[trigger] ns[a]) && reaches(g, start@, ns[a]) by {
                    if a < st.len() - 1 {
                        assert(ns[a] == st[a]);
                    } else {
                        assert(ns[a] == g[vnode][a - (st.len() - 1)]);
                        assert(successors(g, vnode)[a - (st.len() - 1)] == ns[a]);
                        lemma_reaches_step(g, start@, vnode, ns[a]);
                    }
                }
                assert forall|x: Seq<char>| st.contains(x) && x != vnode implies ns.contains(x) by {
                    let a = choose|a: int| 0 <= a < st.len() && st[a] == x;
                    assert(a < st.len() - 1);
                    assert(ns[a] == x);
                }
                assert forall|x: Seq<char>| #[trigger] successors(g, vnode).contains(x) implies ns.contains(x) by {
                    let a = choose|a: int| 0 <= a < successors(g, vnode).len() && successors(g, vnode)[a] == x;
                    assert(ns[st.len() - 1 + a] == x);
                }
                assert forall|v: Seq<char>, x: Seq<char>|
                    #[trigger] nv.to_set().contains(v) && #[trigger] successors(g, v).contains(x) implies nv.to_set().contains(x)
                        || ns.contains(x) by {
                    if v != vnode {
                        assert(vs.contains(v));
                    }
                }
                assert forall|x: Seq<char>| #[trigger] successors(g, start@).contains(x) implies nv.to_set().contains(x)
                    || ns.contains(x) by {
                }
                assert(univ.contains(st[st.len() - 1]));
                univ.lemma_set_insert_diff_decreases(vs, vnode);
            }
        } else {
            proof {
                let ns = views(stack@);
                assert forall|x: Seq<char>| st.contains(x) && x != vnode implies ns.contains(x) by {
                    let a = choose|a: int| 0 <= a < st.len() && st[a] == x;
                    assert(a < st.len() - 1);
                    assert(ns[a] == x);
                }
                assert forall|i: int| 0 <= i < ns.len() implies univ.contains(#[trigger] ns[i]) && reaches(g, start@, ns[i]) by {
                    assert(ns[i] == st[i]);
                }
            }
        }
    }
    let r = contains_name(&visited, start);
    proof {
        let vs = views(visited@).to_set();
        assert(views(stack@) =~= Seq::<Seq<char>>::empty());
        if r {
            assert(vs.contains(start@));
        }
        if on_cycle(g, start@) {
            let path = choose|path: Seq<Seq<char>>|
                path.len() >= 2 && path[0] == start@ && path.last() == start@ && #[trigger] is_parent_chain(g, path);
            lemma_closed_holds_reached(g, start@, vs, path, path.len() - 1);
            assert(vs.contains(start@));
        }
    }
    r
}

/// The last segments of the named parents, in order.
pub open spec fn named_parent_names(ps: Seq<TypeRef>) -> Seq<Seq<char>>
    decreases ps.len(),
{
    if ps.len() == 0 {
        Seq::empty()
    } else {
        match ps.last() {
            TypeRef::Named { name, .. } => named_parent_names(ps.drop_last()).push(name.last_name()),
            _ => named_parent_names(ps.drop_last()),
        }
    }
}

/// Each concept declaration of `ds`, in order, with its named parents.
pub open spec fn inheritance_pairs(ds: Seq<Declaration>) -> Seq<(Seq<char>, Seq<Seq<char>>)>
    decreases ds.len(),
{
    if ds.len() == 0 {
        Seq::empty()
    } else {
        match ds.last() {
            Declaration::Concept(c) => inheritance_pairs(ds.drop_last()).push((c.name@, named_parent_names(c.parents@))),
            _ => inheritance_pairs(ds.drop_last()),
        }
    }
}

/// The parent relation of a file: each concept name with the named parents
/// of its last declaration.
pub open spec fn inheritance(ds: Seq<Declaration>) -> Map<Seq<char>, Seq<Seq<char>>> {
    insert_all(Map::empty(), inheritance_pairs(ds))
}

/// The concept names of `ds`, each once, in order of first declaration.
pub open spec fn concept_order(ds: Seq<Declaration>) -> Seq<Seq<char>>
    decreases ds.len(),
{
    if ds.len() == 0 {
        Seq::empty()
    } else {
        let prev = concept_order(ds.drop_last());
        match ds.last() {
            Declaration::Concept(c) => if prev.contains(c.name@) {
                prev
            } else {
                prev.push(c.name@)
            },
            _ => prev,
        }
    }
}

/// The span of the first concept declaration of `ds` named `n` that has a
/// span.
pub open spec fn concept_span(ds: Seq<Declaration>, n: Seq<char>) -> Option<Span>
    decreases ds.len(),
{
    if ds.len() == 0 {
        None
    } else {
        match concept_span(ds.drop_last(), n) {
            Some(sp) => Some(sp),
            None => match ds.last() {
                Declaration::Concept(c) => if c.name@ == n {
                    c.span
                } else {
                    None
                },
                _ => None,
            },
        }
    }
}

/// ``concept `<name>` has circular inheritance``.
pub open spec fn circular_message(name: Seq<char>) -> Seq<char> {
    "concept `"@ + name + "` has circular inheritance"@
}

/// One `S003` error for each concept of `order` that lies on a cycle of `g`.
pub open spec fn cycle_diagnostics(
    g: Map<Seq<char>, Seq<Seq<char>>>,
    ds: Seq<Declaration>,
    order: Seq<Seq<char>>,
) -> Seq<DiagnosticView>
    decreases order.len(),
{
    if order.len() == 0 {
        Seq::empty()
    } else {
        let rest = cycle_diagnostics(g, ds, order.drop_last());
        let n = order.last();
        if on_cycle(g, n) {
            rest.push(error_view(CIRCULAR_INHERITANCE, circular_message(n), concept_span(ds, n)))
        } else {
            rest
        }
    }
}

/// The `S003` errors of a file: for each concept, in order of first
/// declaration, an error at its first spanned declaration when it reaches
/// itself over the parent relation.
pub open spec fn circular_diagnostics(ds: Seq<Declaration>) -> Seq<DiagnosticView> {
    cycle_diagnostics(inheritance(ds), ds, concept_order(ds))
}

fn parent_names(ps: &Vec<TypeRef>) -> (r: Vec<String>)
    ensures
        crate::text::views(r@) == named_parent_names(ps@),
{
    let mut r: Vec<String> = Vec::new();
    let mut i: usize = 0;
    while i < ps.len()
        invariant
            i <= ps@.len(),
            crate::text::views(r@) == named_parent_names(ps@.take(i as int)),
        decreases ps.len() - i,
    {
        proof {
            assert(ps@.take(i + 1).drop_last() =~= ps@.take(i as int));
            assert(ps@.take(i + 1).last() == ps@[i as int]);
        }
        let ghost b = crate::text::views(r@);
        if let TypeRef::Named { name, .. } = &ps[i] {
            let l = name.last();
            r.push(l);
            assert(crate::text::views(r@) =~= b.push(name.last_name()));
        }
        i = i + 1;
    }
    assert(ps@.take(ps@.len() as int) =~= ps@);
    r
}

/// The names of an inheritance list, in order.
spec fn inherit_keys(s: Seq<(String, Vec<String>)>) -> Seq<Seq<char>> {
    s.map_values(|e: (String, Vec<String>)| e.0@)
}

fn build_inheritance(ds: &Vec<Declaration>) -> (r: Vec<(String, Vec<String>)>)
    ensures
        keys_distinct(inherit_pairs(r@)),
        assoc(inherit_pairs(r@)) == inheritance(ds@),
        inherit_keys(r@) == concept_order(ds@),
{
    let mut r: Vec<(String, Vec<String>)> = Vec::new();
    proof {
        lemma_assoc_empty(inherit_pairs(r@));
        assert(inherit_keys(r@) =~= Seq::<Seq<char>>::empty());
    }
    let mut i: usize = 0;
    while i < ds.len()
        invariant
            i <= ds@.len(),
            keys_distinct(inherit_pairs(r@)),
            assoc(inherit_pairs(r@)) == insert_all(Map::empty(), inheritance_pairs(ds@.take(i as int))),
            inherit_keys(r@) == concept_order(ds@.take(i as int)),
        decreases ds.len() - i,
    {
        proof {
            assert(ds@.take(i + 1).drop_last() =~= ds@.take(i as int));
            assert(ds@.take(i + 1).last() == ds@[i as int]);
        }
        if let Declaration::Concept(c) = &ds[i] {
            let ps = parent_names(&c.parents);
            let ghost p0 = inherit_pairs(r@);
            let ghost k0 = inherit_keys(r@);
            let ghost pv = crate::text::views(ps@);
            proof {
                let prev = inheritance_pairs(ds@.take(i as int));
                let ip = inheritance_pairs(ds@.take(i + 1));
                assert(ip == prev.push((c.name@, pv)));
                assert(ip.drop_last() =~= prev);
                assert(insert_all(Map::empty(), ip) == insert_all(Map::empty(), prev).insert(c.name@, pv));
            }
            match find_entry(&r, c.name.as_str()) {
                Some(j) => {
                    let key = r[j].0.clone();
                    r.set(j, (key, ps));
                    proof {
                        lemma_assoc_update(p0, j as int, pv);
                        assert(inherit_pairs(r@) =~= p0.update(j as int, (p0[j as int].0, pv)));
                        assert(inherit_keys(r@) =~= k0);
                        assert(k0[j as int] == c.name@);
                    }
                },
                None => {
                    r.push((c.name.clone(), ps));
                    proof {
                        lemma_assoc_push(p0, c.name@, pv);
                        assert(inherit_pairs(r@) =~= p0.push((c.name@, pv)));
                        assert(inherit_keys(r@) =~= k0.push(c.name@));
                        assert(!k0.contains(c.name@)) by {
                            if k0.contains(c.name@) {
                                let a = choose|a: int| 0 <= a < k0.len() && k0[a] == c.name@;
                                assert(p0[a].0 == c.name@);
                            }
                        }
                    }
                },
            }
        }
        i = i + 1;
    }
    assert(ds@.take(ds@.len() as int) =~= ds@);
    r
}

/// The span of the first concept of `ds` named `name` that has a span.
fn concept_span_of(ds: &Vec<Declaration>, name: &str) -> (r: Option<Span>)
    ensures
        r == concept_span(ds@, name@),
{
    let mut i: usize = 0;
    while i < ds.len()
        invariant
            i <= ds@.len(),
            concept_span(ds@.take(i as int), name@) is None,
        decreases ds.len() - i,
    {
        proof {
            assert(ds@.take(i + 1).drop_last() =~= ds@.take(i as int));
            assert(ds@.take(i + 1).last() == ds@[i as int]);
        }
        if let Declaration::Concept(c) = &ds[i] {
            if c.span.is_some() && str_eq(c.name.as_str(), name) {
                proof {
                    lemma_concept_span_prefix(ds@, i + 1, name@);
                }
                return c.span;
            }
        }
        i = i + 1;
    }
    assert(ds@.take(ds@.len() as int) =~= ds@);
    None
}

/// Once found in a prefix, the first spanned declaration stays found.
proof fn lemma_concept_span_prefix(ds: Seq<Declaration>, i: int, n: Seq<char>)
    requires
        0 <= i <= ds.len(),
        concept_span(ds.take(i), n) is Some,
    ensures
        concept_span(ds, n) == concept_span(ds.take(i), n),
    decreases ds.len() - i,
{
    if i < ds.len() {
        assert(ds.take(i + 1).drop_last() =~= ds.take(i));
        lemma_concept_span_prefix(ds, i + 1, n);
    } else {
        assert(ds.take(i) =~= ds);
    }
}

/// The `S003` errors of a list of declarations.
pub fn circular_errors(ds: &Vec<Declaration>) -> (r: Vec<Diagnostic>)
    ensures
        diagnostic_views(r@) == circular_diagnostics(ds@),
{
    let list = build_inheritance(ds);
    let ghost g = inheritance(ds@);
    let ghost order = concept_order(ds@);
    let mut r: Vec<Diagnostic> = Vec::new();
    let mut k: usize = 0;
    while k < list.len()
        invariant
            k <= list@.len(),
            keys_distinct(inherit_pairs(list@)),
            assoc(inherit_pairs(list@)) == g,
            inherit_keys(list@) == order,
            g == inheritance(ds@),
            diagnostic_views(r@) == cycle_diagnostics(g, ds@, order.take(k as int)),
        decreases list.len() - k,
    {
        proof {
            assert(order.take(k + 1).drop_last() =~= order.take(k as int));
            assert(order.take(k + 1).last() == list@[k as int].0@);
        }
        let start = list[k].0.as_str();
        if reaches_itself(&list, start) {
            let mut message = "concept `".to_owned();
            message.append(start);
            message.append("` has circular inheritance");
            let span = concept_span_of(ds, start);
            let d = Diagnostic::error(CIRCULAR_INHERITANCE, message, span);
            let ghost b = diagnostic_views(r@);
            r.push(d);
            assert(diagnostic_views(r@) =~= b.push(d@));
        }
        k = k + 1;
    }
    assert(order.take(list@.len() as int) =~= order);
    r
}

/// Runs the structural checks: `S001` for each unresolved reference, then
/// `S002` for each duplicate declaration, then `S003` for circular
/// inheritance.
pub fn validate(f: &OntologyFile, index: &SymbolIndex, resolved: &ResolvedFile) -> (r: Vec<Diagnostic>)
    ensures
        diagnostic_views(r@) == unresolved_diagnostics(ref_views(resolved.refs@)) + duplicate_diagnostics(
            f.declarations@,
        ) + circular_diagnostics(f.declarations@),
{
    let mut diags: Vec<Diagnostic> = Vec::new();
    check_unresolved(resolved, &mut diags);
    check_duplicates(f, &mut diags);
    let cyc = circular_errors(&f.declarations);
    crate::diagnostics::append_diagnostics(&mut diags, cyc);
    proof {
        assert(diagnostic_views(Seq::<Diagnostic>::empty()) =~= Seq::<DiagnosticView>::empty());
    }
    diags
}


// ── Laws: unresolved references ──────────────────────────────────────────────

proof fn lemma_refs_where_has(s: Seq<RefView>, r: RefView, want: bool)
    requires
        s.contains(r),
        (r.resolved is Some) == want,
    ensures
        refs_where(s, want).contains(r),
    decreases s.len(),
{
    let p = s.drop_last();
    if s.last() == r {
        let q = refs_where(p, want);
        assert(q.push(r)[q.len() as int] == r);
    } else {
        let k = choose|k: int| 0 <= k < s.len() && s[k] == r;
        assert(p[k] == r);
        lemma_refs_where_has(p, r, want);
        let q = refs_where(p, want);
        let a = choose|a: int| 0 <= a < q.len() && q[a] == r;
        if (s.last().resolved is Some) == want {
            assert(q.push(s.last())[a] == r);
        }
    }
}

/// Every reference that resolved to nothing gives an `S001` error at its
/// span, naming it.
pub proof fn lemma_unresolved_reported(refs: Seq<RefView>, r: RefView)
    requires
        refs.contains(r),
        r.resolved is None,
    ensures
        unresolved_diagnostics(refs).contains(
            error_view(UNRESOLVED_TYPE, "type `"@ + r.name + "` is not declared"@, r.source_span),
        ),
{
    lemma_refs_where_has(refs, r, false);
    let u = refs_where(refs, false);
    let k = choose|k: int| 0 <= k < u.len() && u[k] == r;
    assert(unresolved_diagnostics(refs)[k] == error_view(
        UNRESOLVED_TYPE,
        "type `"@ + r.name + "` is not declared"@,
        r.source_span,
    ));
}

// ── Laws: duplicate declarations ─────────────────────────────────────────────

/// The name under which a declaration takes part in the duplicate check.
pub open spec fn name_key(d: Declaration) -> Option<Seq<char>> {
    match declared_name(d) {
        Some((n, _)) => Some(n),
        None => None,
    }
}

/// Whether some declaration of `ds` that takes part in the duplicate check
/// is named `n`.
pub open spec fn declares(ds: Seq<Declaration>, n: Seq<char>) -> bool {
    exists|i: int| 0 <= i < ds.len() && #[trigger] name_key(ds[i]) == Some(n)
}

/// The concepts, properties and rules of `ds` all have different names.
pub open spec fn declared_names_distinct(ds: Seq<Declaration>) -> bool {
    forall|i: int, j: int|
        0 <= i < j < ds.len() && #[trigger] name_key(ds[i]) is Some && #[trigger] name_key(ds[j]) is Some
            ==> name_key(ds[i]) != name_key(ds[j])
}

proof fn lemma_first_declarations_keys(ds: Seq<Declaration>, n: Seq<char>)
    ensures
        first_declarations(ds).contains_key(n) <==> declares(ds, n),
    decreases ds.len(),
{
    if ds.len() > 0 {
        let p = ds.drop_last();
        lemma_first_declarations_keys(p, n);
        if declares(p, n) {
            let i = choose|i: int| 0 <= i < p.len() && #[trigger] name_key(p[i]) == Some(n);
            assert(name_key(ds[i]) == name_key(p[i]));
        }
        if declares(ds, n) {
            let i = choose|i: int| 0 <= i < ds.len() && #[trigger] name_key(ds[i]) == Some(n);
            if i < p.len() {
                assert(name_key(p[i]) == name_key(ds[i]));
            }
        }
        let x = ds.last();
        if name_key(x) == Some(n) {
            assert(name_key(ds[ds.len() - 1]) == Some(n));
        }
        match declared_name(x) {
            Some((m, sp)) => {
                assert(name_key(x) == Some(m));
            },
            None => {
                assert(name_key(x) is None);
            },
        }
    }
}

/// A file gets no `S002` error exactly when its concepts, properties and
/// rules all have different names.
pub proof fn lemma_no_duplicates_iff_distinct(ds: Seq<Declaration>)
    ensures
        duplicate_diagnostics(ds).len() == 0 <==> declared_names_distinct(ds),
    decreases ds.len(),
{
    if ds.len() > 0 {
        let p = ds.drop_last();
        let x = ds.last();
        lemma_no_duplicates_iff_distinct(p);
        let rest = duplicate_diagnostics(p);
        assert(duplicate_diagnostics(ds).len() >= rest.len());
        if declared_names_distinct(ds) {
            assert forall|i: int, j: int|
                0 <= i < j < p.len() && #[trigger] name_key(p[i]) is Some && #[trigger] name_key(p[j]) is Some
                    implies name_key(p[i]) != name_key(p[j]) by {
                assert(name_key(ds[i]) == name_key(p[i]));
                assert(name_key(ds[j]) == name_key(p[j]));
            }
            if let Some(n) = name_key(x) {
                lemma_first_declarations_keys(p, n);
                if declares(p, n) {
                    let i = choose|i: int| 0 <= i < p.len() && #[trigger] name_key(p[i]) == Some(n);
                    assert(name_key(ds[i]) == name_key(p[i]));
                    assert(name_key(ds[ds.len() - 1]) == name_key(x));
                }
            }
        }
        if duplicate_diagnostics(ds).len() == 0 {
            assert(declared_names_distinct(p));
            assert forall|i: int, j: int|
                0 <= i < j < ds.len() && #[trigger] name_key(ds[i]) is Some && #[trigger] name_key(ds[j]) is Some
                    implies name_key(ds[i]) != name_key(ds[j]) by {
                if j < p.len() {
                    assert(name_key(ds[i]) == name_key(p[i]));
                    assert(name_key(ds[j]) == name_key(p[j]));
                } else {
                    let n = name_key(x)->0;
                    lemma_first_declarations_keys(p, n);
                    assert(name_key(p[i]) == name_key(ds[i]));
                    if name_key(ds[i]) == Some(n) {
                        assert(declares(p, n));
                    }
                }
            }
        }
    }
}

// ── Laws: circular inheritance ───────────────────────────────────────────────

/// `path` follows the parent relation: each name is a parent of the one
/// before it.
pub open spec fn is_parent_chain(g: Map<Seq<char>, Seq<Seq<char>>>, path: Seq<Seq<char>>) -> bool {
    forall|i: int| 0 <= i < path.len() - 1 ==> successors(g, #[trigger] path[i]).contains(path[i + 1])
}

/// `b` is reached from `a` in one step or more over the parent relation.
pub open spec fn reaches(g: Map<Seq<char>, Seq<Seq<char>>>, a: Seq<char>, b: Seq<char>) -> bool {
    exists|path: Seq<Seq<char>>|
        path.len() >= 2 && path[0] == a && path.last() == b && #[trigger] is_parent_chain(g, path)
}

/// `n` lies on a cycle of the parent relation.
pub open spec fn on_cycle(g: Map<Seq<char>, Seq<Seq<char>>>, n: Seq<char>) -> bool {
    reaches(g, n, n)
}

proof fn lemma_reaches_step(g: Map<Seq<char>, Seq<Seq<char>>>, a: Seq<char>, b: Seq<char>, c: Seq<char>)
    requires
        reaches(g, a, b),
        successors(g, b).contains(c),
    ensures
        reaches(g, a, c),
{
    let path = choose|path: Seq<Seq<char>>| path.len() >= 2 && path[0] == a && path.last() == b && #[trigger] is_parent_chain(g, path);
    let q = path.push(c);
    assert forall|i: int| 0 <= i < q.len() - 1 implies successors(g, #[trigger] q[i]).contains(q[i + 1]) by {
        if i < path.len() - 1 {
            assert(q[i] == path[i] && q[i + 1] == path[i + 1]);
        } else {
            assert(q[i] == b);
        }
    }
    assert(is_parent_chain(g, q));
}

proof fn lemma_reaches_one(g: Map<Seq<char>, Seq<Seq<char>>>, a: Seq<char>, c: Seq<char>)
    requires
        successors(g, a).contains(c),
    ensures
        reaches(g, a, c),
{
    let q = seq![a, c];
    assert forall|i: int| 0 <= i < q.len() - 1 implies successors(g, #[trigger] q[i]).contains(q[i + 1]) by {
        assert(i == 0);
    }
    assert(is_parent_chain(g, q));
}

proof fn lemma_cycle_diagnostics_from(
    g: Map<Seq<char>, Seq<Seq<char>>>,
    ds: Seq<Declaration>,
    order: Seq<Seq<char>>,
    i: int,
)
    requires
        0 <= i < cycle_diagnostics(g, ds, order).len(),
    ensures
        exists|n: Seq<char>|
            #[trigger] on_cycle(g, n) && cycle_diagnostics(g, ds, order)[i] == error_view(
                CIRCULAR_INHERITANCE,
                circular_message(n),
                concept_span(ds, n),
            ),
    decreases order.len(),
{
    let rest = cycle_diagnostics(g, ds, order.drop_last());
    if i < rest.len() {
        lemma_cycle_diagnostics_from(g, ds, order.drop_last(), i);
        let n = choose|n: Seq<char>|
            #[trigger] on_cycle(g, n) && rest[i] == error_view(CIRCULAR_INHERITANCE, circular_message(n), concept_span(ds, n));
        assert(cycle_diagnostics(g, ds, order)[i] == rest[i]);
    } else {
        assert(on_cycle(g, order.last()));
    }
}

/// Every concept reported as circular (`S003`) lies on a cycle of the
/// parent relation of its file.
pub proof fn lemma_circular_sound(ds: Seq<Declaration>, i: int)
    requires
        0 <= i < circular_diagnostics(ds).len(),
    ensures
        exists|n: Seq<char>|
            #[trigger] on_cycle(inheritance(ds), n) && circular_diagnostics(ds)[i] == error_view(
                CIRCULAR_INHERITANCE,
                circular_message(n),
                concept_span(ds, n),
            ),
{
    lemma_cycle_diagnostics_from(inheritance(ds), ds, concept_order(ds), i);
}

proof fn lemma_inheritance_keys(ds: Seq<Declaration>, n: Seq<char>)
    requires
        inheritance(ds).contains_key(n),
    ensures
        concept_order(ds).contains(n),
    decreases ds.len(),
{
    let p = ds.drop_last();
    assert(inheritance_pairs(ds).drop_last() =~= inheritance_pairs(p) || inheritance_pairs(ds) == inheritance_pairs(p));
    match ds.last() {
        Declaration::Concept(c) => {
            assert(inheritance_pairs(ds) == inheritance_pairs(p).push((c.name@, named_parent_names(c.parents@))));
            assert(inheritance_pairs(ds).drop_last() =~= inheritance_pairs(p));
            if c.name@ != n {
                lemma_inheritance_keys(p, n);
            }
            let prev = concept_order(p);
            if prev.contains(c.name@) {
                if c.name@ == n {
                } else {
                    let a = choose|a: int| 0 <= a < prev.len() && prev[a] == n;
                }
            } else {
                if c.name@ == n {
                    assert(prev.push(n)[prev.len() as int] == n);
                } else {
                    let a = choose|a: int| 0 <= a < prev.len() && prev[a] == n;
                    assert(prev.push(c.name@)[a] == n);
                }
            }
        },
        _ => {
            assert(inheritance_pairs(ds) == inheritance_pairs(p));
            lemma_inheritance_keys(p, n);
        },
    }
}

proof fn lemma_cycle_diagnostics_has(
    g: Map<Seq<char>, Seq<Seq<char>>>,
    ds: Seq<Declaration>,
    order: Seq<Seq<char>>,
    n: Seq<char>,
)
    requires
        order.contains(n),
        on_cycle(g, n),
    ensures
        cycle_diagnostics(g, ds, order).contains(error_view(CIRCULAR_INHERITANCE, circular_message(n), concept_span(ds, n))),
    decreases order.len(),
{
    let e = error_view(CIRCULAR_INHERITANCE, circular_message(n), concept_span(ds, n));
    let rest = cycle_diagnostics(g, ds, order.drop_last());
    if order.last() == n {
        assert(cycle_diagnostics(g, ds, order) == rest.push(e));
        assert(rest.push(e)[rest.len() as int] == e);
    } else {
        let a = choose|a: int| 0 <= a < order.len() && order[a] == n;
        assert(order.drop_last()[a] == n);
        lemma_cycle_diagnostics_has(g, ds, order.drop_last(), n);
        let b = choose|b: int| 0 <= b < rest.len() && rest[b] == e;
        if on_cycle(g, order.last()) {
            let x = order.last();
            assert(cycle_diagnostics(g, ds, order) == rest.push(
                error_view(CIRCULAR_INHERITANCE, circular_message(x), concept_span(ds, x)),
            ));
            assert(cycle_diagnostics(g, ds, order)[b] == e);
        } else {
            assert(cycle_diagnostics(g, ds, order) == rest);
        }
    }
}

/// Every concept that lies on a cycle of the parent relation of its file is
/// reported as circular (`S003`).
pub proof fn lemma_circular_complete(ds: Seq<Declaration>, n: Seq<char>)
    requires
        on_cycle(inheritance(ds), n),
    ensures
        circular_diagnostics(ds).contains(error_view(CIRCULAR_INHERITANCE, circular_message(n), concept_span(ds, n))),
{
    let g = inheritance(ds);
    let path = choose|path: Seq<Seq<char>>| path.len() >= 2 && path[0] == n && path.last() == n && #[trigger] is_parent_chain(g, path);
    assert(successors(g, path[0]).contains(path[1]));
    assert(g.contains_key(n));
    lemma_inheritance_keys(ds, n);
    lemma_cycle_diagnostics_has(g, ds, concept_order(ds), n);
}

/// A concept that lists itself among its parents (as in `concept A sub A`)
/// is reported as circular (`S003`).
pub proof fn lemma_self_parent_reported(ds: Seq<Declaration>, n: Seq<char>)
    requires
        inheritance(ds).contains_key(n),
        inheritance(ds)[n].contains(n),
    ensures
        circular_diagnostics(ds).contains(error_view(CIRCULAR_INHERITANCE, circular_message(n), concept_span(ds, n))),
{
    lemma_reaches_one(inheritance(ds), n, n);
    lemma_circular_complete(ds, n);
}
} // verus!
