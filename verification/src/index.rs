//! Symbol index: what names exist in the workspace.
//!
//! Each file contributes its own symbols, which are merged into a global
//! lookup table. Files can be added, re-added or removed independently.

use vstd::prelude::*;
use crate::assoc::{
    assoc, has_key, insert_all, keys_distinct, lemma_assoc_index, lemma_assoc_push,
    lemma_assoc_remove, lemma_assoc_update,
};
use crate::assoc::{concat, lemma_assoc_empty, lemma_concat_push, lemma_insert_all_distinct};
use crate::ast::{
    type_ref_text, type_text, ConceptDef, Declaration, OntologyFile, OneOfVariant, PrefixDecl,
    PropertyDef, RuleDef, Span,
};
use crate::text::{contains_char, join, join_strings, starts_with, str_eq, views};

verus! {

/// What kind of entity a symbol stands for.
#[derive(Debug)]
pub enum SymbolKind {
    Concept,
    Property,
    Rule,
    Prefix,
    /// A named individual of a concept's `one of:` block.
    Individual { parent: String },
}

/// A symbol kind as a mathematical value.
pub enum KindView {
    Concept,
    Property,
    Rule,
    Prefix,
    Individual(Seq<char>),
}

impl View for SymbolKind {
    type V = KindView;

    open spec fn view(&self) -> KindView {
        match self {
            SymbolKind::Concept => KindView::Concept,
            SymbolKind::Property => KindView::Property,
            SymbolKind::Rule => KindView::Rule,
            SymbolKind::Prefix => KindView::Prefix,
            SymbolKind::Individual { parent } => KindView::Individual(parent@),
        }
    }
}

impl Clone for SymbolKind {
    fn clone(&self) -> (r: Self)
        ensures
            r == *self,
    {
        match self {
            SymbolKind::Concept => SymbolKind::Concept,
            SymbolKind::Property => SymbolKind::Property,
            SymbolKind::Rule => SymbolKind::Rule,
            SymbolKind::Prefix => SymbolKind::Prefix,
            SymbolKind::Individual { parent } => SymbolKind::Individual { parent: parent.clone() },
        }
    }
}

impl PartialEq for SymbolKind {
    fn eq(&self, other: &Self) -> (r: bool) {
        match (self, other) {
            (SymbolKind::Concept, SymbolKind::Concept) => true,
            (SymbolKind::Property, SymbolKind::Property) => true,
            (SymbolKind::Rule, SymbolKind::Rule) => true,
            (SymbolKind::Prefix, SymbolKind::Prefix) => true,
            (SymbolKind::Individual { parent: a }, SymbolKind::Individual { parent: b }) => str_eq(
                a.as_str(),
                b.as_str(),
            ),
            _ => false,
        }
    }
}

impl Eq for SymbolKind {
}

impl vstd::std_specs::cmp::PartialEqSpecImpl for SymbolKind {
    open spec fn obeys_eq_spec() -> bool {
        true
    }

    open spec fn eq_spec(&self, other: &SymbolKind) -> bool {
        self@ == other@
    }
}

impl SymbolKind {
    /// Whether this is the kind of a concept.
    pub fn is_concept(&self) -> (r: bool)
        ensures
            r == (self@ == KindView::Concept),
    {
        match self {
            SymbolKind::Concept => true,
            _ => false,
        }
    }
}

/// An entry of the index.
#[derive(Debug)]
pub struct Symbol {
    /// The name as it appears in source.
    pub name: String,
    pub kind: SymbolKind,
    /// Span of the definition site.
    pub definition_span: Option<Span>,
    /// A short description, used for hover and completion.
    pub detail: String,
    /// The file the symbol comes from, if any.
    pub file: Option<String>,
}

/// A symbol as a mathematical value.
pub struct SymbolView {
    pub name: Seq<char>,
    pub kind: KindView,
    pub definition_span: Option<Span>,
    pub detail: Seq<char>,
    pub file: Option<Seq<char>>,
}

/// The view of an optional string.
pub open spec fn opt_view(s: Option<String>) -> Option<Seq<char>> {
    match s {
        Some(x) => Some(x@),
        None => None,
    }
}

impl View for Symbol {
    type V = SymbolView;

    open spec fn view(&self) -> SymbolView {
        SymbolView {
            name: self.name@,
            kind: self.kind@,
            definition_span: self.definition_span,
            detail: self.detail@,
            file: opt_view(self.file),
        }
    }
}

impl Clone for Symbol {
    fn clone(&self) -> (r: Self)
        ensures
            r == *self,
    {
        let file = match &self.file {
            Some(f) => Some(f.clone()),
            None => None,
        };
        Symbol {
            name: self.name.clone(),
            kind: self.kind.clone(),
            definition_span: self.definition_span,
            detail: self.detail.clone(),
            file,
        }
    }
}

// ── Lists of symbols ─────────────────────────────────────────────────────────

/// The symbols of a list, keyed by name.
pub open spec fn view_pairs(s: Seq<SymbolView>) -> Seq<(Seq<char>, SymbolView)> {
    s.map_values(|x: SymbolView| (x.name, x))
}

/// The views of a list of symbols.
pub open spec fn symbol_views(s: Seq<Symbol>) -> Seq<SymbolView> {
    s.map_values(|x: Symbol| x@)
}

/// A list of symbols as a map from names to symbols.
pub open spec fn symbol_map(s: Seq<Symbol>) -> Map<Seq<char>, SymbolView> {
    assoc(view_pairs(symbol_views(s)))
}

/// No two symbols of the list share a name.
pub open spec fn names_distinct(s: Seq<Symbol>) -> bool {
    keys_distinct(view_pairs(symbol_views(s)))
}

/// The index of the symbol named `name`, if there is one.
pub(crate) fn find_symbol(list: &Vec<Symbol>, name: &str) -> (r: Option<usize>)
    ensures
        match r {
            Some(i) => i < list@.len() && list@[i as int].name@ == name@,
            None => !has_key(view_pairs(symbol_views(list@)), name@),
        },
{
    let mut i: usize = 0;
    while i < list.len()
        invariant
            i <= list@.len(),
            forall|j: int| 0 <= j < i ==> list@[j].name@ != name@,
        decreases list.len() - i,
    {
        if str_eq(list[i].name.as_str(), name) {
            return Some(i);
        }
        i = i + 1;
    }
    proof {
        let p = view_pairs(symbol_views(list@));
        assert forall|j: int| 0 <= j < p.len() implies p[j].0 != name@ by {
            assert(p[j].0 == list@[j].name@);
        }
    }
    None
}

/// Looks `name` up in a list of symbols with distinct names.
pub(crate) fn lookup<'a>(list: &'a Vec<Symbol>, name: &str) -> (r: Option<&'a Symbol>)
    requires
        names_distinct(list@),
    ensures
        r is Some <==> symbol_map(list@).contains_key(name@),
        r matches Some(s) ==> s@ == symbol_map(list@)[name@] && s@.name == name@,
{
    match find_symbol(list, name) {
        Some(i) => {
            proof {
                let p = view_pairs(symbol_views(list@));
                assert(p[i as int] == (list@[i as int].name@, list@[i as int]@));
                lemma_assoc_index(p, i as int);
            }
            Some(&list[i])
        },
        None => None,
    }
}

/// Inserts `sym`, replacing the symbol of the same name if there is one.
pub(crate) fn put_symbol(list: &mut Vec<Symbol>, sym: Symbol)
    requires
        names_distinct(old(list)@),
    ensures
        names_distinct(final(list)@),
        symbol_map(final(list)@) == symbol_map(old(list)@).insert(sym@.name, sym@),
{
    let ghost p0 = view_pairs(symbol_views(list@));
    match find_symbol(list, sym.name.as_str()) {
        Some(i) => {
            let ghost v = sym@;
            list.set(i, sym);
            proof {
                lemma_assoc_update(p0, i as int, v);
                assert(view_pairs(symbol_views(list@)) =~= p0.update(i as int, (p0[i as int].0, v)));
            }
        },
        None => {
            let ghost v = sym@;
            list.push(sym);
            proof {
                lemma_assoc_push(p0, v.name, v);
                assert(view_pairs(symbol_views(list@)) =~= p0.push((v.name, v)));
            }
        },
    }
}

/// Inserts the symbols of `items` one after the other, each replacing the
/// symbol of the same name.
pub(crate) fn put_all(list: &mut Vec<Symbol>, items: &Vec<Symbol>)
    requires
        names_distinct(old(list)@),
    ensures
        names_distinct(final(list)@),
        symbol_map(final(list)@) == insert_all(symbol_map(old(list)@), view_pairs(symbol_views(items@))),
{
    let ghost m0 = symbol_map(list@);
    let ghost q = view_pairs(symbol_views(items@));
    let mut i: usize = 0;
    while i < items.len()
        invariant
            i <= items@.len(),
            q == view_pairs(symbol_views(items@)),
            names_distinct(list@),
            symbol_map(list@) == insert_all(m0, q.take(i as int)),
        decreases items.len() - i,
    {
        let s = items[i].clone();
        put_symbol(list, s);
        proof {
            assert(q.take(i + 1).drop_last() =~= q.take(i as int));
            assert(q.take(i + 1).last() == q[i as int]);
        }
        i = i + 1;
    }
    proof {
        assert(q.take(items@.len() as int) =~= q);
    }
}

/// Removes the symbol named `name`, if there is one.
pub(crate) fn remove_symbol(list: &mut Vec<Symbol>, name: &str)
    requires
        names_distinct(old(list)@),
    ensures
        names_distinct(final(list)@),
        symbol_map(final(list)@) == symbol_map(old(list)@).remove(name@),
{
    let ghost p0 = view_pairs(symbol_views(list@));
    match find_symbol(list, name) {
        Some(i) => {
            list.remove(i);
            proof {
                lemma_assoc_remove(p0, i as int);
                assert(view_pairs(symbol_views(list@)) =~= p0.remove(i as int));
            }
        },
        None => {
            proof {
                assert(symbol_map(list@) =~= symbol_map(list@).remove(name@));
            }
        },
    }
}

// ── Symbols declared by a file ───────────────────────────────────────────────

/// `prefix <alias> → <path>`.
pub open spec fn prefix_detail(p: PrefixDecl) -> Seq<char> {
    "prefix "@ + p.alias@ + " → "@ + p.path.full_name()
}

/// The printed parents of a concept.
pub open spec fn parent_texts(c: ConceptDef) -> Seq<Seq<char>> {
    c.parents@.map_values(|t: crate::ast::TypeRef| type_text(t))
}

/// `concept <name>`, followed by ` sub <parents>` when it has parents.
pub open spec fn concept_detail(c: ConceptDef) -> Seq<char> {
    if c.parents@.len() == 0 {
        "concept "@ + c.name@
    } else {
        "concept "@ + c.name@ + " sub "@ + join(parent_texts(c), ", "@)
    }
}

/// `individual <name> of <concept>`.
pub open spec fn individual_detail(v: OneOfVariant, c: ConceptDef) -> Seq<char> {
    "individual "@ + v.name@ + " of "@ + c.name@
}

/// `property <name>: <domain> → <range>`.
pub open spec fn property_detail(p: PropertyDef) -> Seq<char> {
    "property "@ + p.name@ + ": "@ + type_text(p.domain) + " → "@ + type_text(p.range)
}

/// `rule <name>`.
pub open spec fn rule_detail(r: RuleDef) -> Seq<char> {
    "rule "@ + r.name@
}

pub open spec fn prefix_symbol(p: PrefixDecl, file: Option<Seq<char>>) -> SymbolView {
    SymbolView {
        name: p.alias@,
        kind: KindView::Prefix,
        definition_span: p.span,
        detail: prefix_detail(p),
        file,
    }
}

pub open spec fn individual_symbol(v: OneOfVariant, c: ConceptDef, file: Option<Seq<char>>) -> SymbolView {
    SymbolView {
        name: v.name@,
        kind: KindView::Individual(c.name@),
        definition_span: v.span,
        detail: individual_detail(v, c),
        file,
    }
}

/// The symbols a concept declares: itself, then its individuals.
pub open spec fn concept_symbols(c: ConceptDef, file: Option<Seq<char>>) -> Seq<SymbolView> {
    let own = SymbolView {
        name: c.name@,
        kind: KindView::Concept,
        definition_span: c.span,
        detail: concept_detail(c),
        file,
    };
    match c.one_of {
        Some(vs) => seq![own] + vs@.map_values(|v: OneOfVariant| individual_symbol(v, c, file)),
        None => seq![own],
    }
}

pub open spec fn property_symbol(p: PropertyDef, file: Option<Seq<char>>) -> SymbolView {
    SymbolView {
        name: p.name@,
        kind: KindView::Property,
        definition_span: p.span,
        detail: property_detail(p),
        file,
    }
}

pub open spec fn rule_symbol(r: RuleDef, file: Option<Seq<char>>) -> SymbolView {
    SymbolView {
        name: r.name@,
        kind: KindView::Rule,
        definition_span: r.span,
        detail: rule_detail(r),
        file,
    }
}

/// The symbols a declaration declares; facts, queries and units declare none.
pub open spec fn declaration_symbols(d: Declaration, file: Option<Seq<char>>) -> Seq<SymbolView> {
    match d {
        Declaration::Concept(c) => concept_symbols(c, file),
        Declaration::Property(p) => seq![property_symbol(p, file)],
        Declaration::Rule(r) => seq![rule_symbol(r, file)],
        _ => Seq::empty(),
    }
}

/// Every symbol a file declares, in source order: prefixes first, then the
/// declarations.
pub open spec fn declared_symbols(f: OntologyFile, file: Option<Seq<char>>) -> Seq<SymbolView> {
    f.prefixes@.map_values(|p: PrefixDecl| prefix_symbol(p, file)) + concat(
        f.declarations@.map_values(|d: Declaration| declaration_symbols(d, file)),
    )
}

/// The symbols of a file by name: a later declaration of a name replaces an
/// earlier one.
pub open spec fn file_symbol_map(f: OntologyFile, file: Option<Seq<char>>) -> Map<Seq<char>, SymbolView> {
    insert_all(Map::empty(), view_pairs(declared_symbols(f, file)))
}

/// A list of symbols with distinct names, as a map, is keyed by name.
pub proof fn lemma_symbol_map_keyed(s: Seq<Symbol>)
    requires
        names_distinct(s),
    ensures
        keyed_by_name(symbol_map(s)),
{
    let p = view_pairs(symbol_views(s));
    assert forall|k: Seq<char>| #[trigger] symbol_map(s).contains_key(k) implies symbol_map(s)[k].name == k by {
        let j = choose|j: int| 0 <= j < p.len() && p[j].0 == k;
        lemma_assoc_index(p, j);
        assert(p[j] == (s[j]@.name, s[j]@));
    }
}

/// Each entry of `m` is the symbol of its key's name.
pub open spec fn keyed_by_name(m: Map<Seq<char>, SymbolView>) -> bool {
    forall|k: Seq<char>| #[trigger] m.contains_key(k) ==> m[k].name == k
}

/// The symbols of a file are keyed by their names.
pub proof fn lemma_file_symbols_keyed(f: OntologyFile, file: Option<Seq<char>>)
    ensures
        keyed_by_name(file_symbol_map(f, file)),
        file_symbol_map(f, file).dom().finite(),
{
    let q = view_pairs(declared_symbols(f, file));
    let keys = q.map_values(|e: (Seq<char>, SymbolView)| e.0).to_set();
    assert forall|k: Seq<char>| file_symbol_map(f, file).dom().contains(k) implies keys.contains(k) by {
        crate::assoc::lemma_insert_all_entry(Map::empty(), q, k);
        let j = choose|j: int| 0 <= j < q.len() && q[j].0 == k && #[trigger] q[j].1 == file_symbol_map(f, file)[k];
        assert(q.map_values(|e: (Seq<char>, SymbolView)| e.0)[j] == k);
    }
    vstd::seq_lib::seq_to_set_is_finite(q.map_values(|e: (Seq<char>, SymbolView)| e.0));
    vstd::set_lib::lemma_set_subset_finite(keys, file_symbol_map(f, file).dom());
    assert forall|k: Seq<char>| #[trigger] file_symbol_map(f, file).contains_key(k) implies file_symbol_map(f, file)[k].name == k by {
        crate::assoc::lemma_insert_all_entry(Map::empty(), q, k);
        let j = choose|j: int| 0 <= j < q.len() && q[j].0 == k && #[trigger] q[j].1 == file_symbol_map(f, file)[k];
        assert(q[j] == (declared_symbols(f, file)[j].name, declared_symbols(f, file)[j]));
    }
}

/// Builds the description of a prefix.
pub fn prefix_detail_text(p: &PrefixDecl) -> (r: String)
    ensures
        r@ == prefix_detail(*p),
{
    let mut r = "prefix ".to_owned();
    r.append(p.alias.as_str());
    r.append(" → ");
    let path = p.path.full();
    r.append(path.as_str());
    r
}

/// Builds the description of a concept.
pub fn concept_detail_text(c: &ConceptDef) -> (r: String)
    ensures
        r@ == concept_detail(*c),
{
    let mut r = "concept ".to_owned();
    r.append(c.name.as_str());
    if c.parents.len() == 0 {
        return r;
    }
    let mut texts: Vec<String> = Vec::new();
    let mut i: usize = 0;
    while i < c.parents.len()
        invariant
            i <= c.parents@.len(),
            views(texts@) =~= parent_texts(*c).take(i as int),
        decreases c.parents.len() - i,
    {
        let ghost t0 = views(texts@);
        let t = type_ref_text(&c.parents[i]);
        texts.push(t);
        proof {
            assert(views(texts@) =~= t0.push(t@));
            assert(parent_texts(*c).take(i + 1) =~= parent_texts(*c).take(i as int).push(type_text(c.parents@[i as int])));
        }
        i = i + 1;
    }
    assert(views(texts@) =~= parent_texts(*c));
    r.append(" sub ");
    let joined = join_strings(&texts, ", ");
    r.append(joined.as_str());
    r
}

/// Builds the description of an individual of concept `c`.
pub fn individual_detail_text(v: &OneOfVariant, c: &ConceptDef) -> (r: String)
    ensures
        r@ == individual_detail(*v, *c),
{
    let mut r = "individual ".to_owned();
    r.append(v.name.as_str());
    r.append(" of ");
    r.append(c.name.as_str());
    r
}

/// Builds the description of a property.
pub fn property_detail_text(p: &PropertyDef) -> (r: String)
    ensures
        r@ == property_detail(*p),
{
    let mut r = "property ".to_owned();
    r.append(p.name.as_str());
    r.append(": ");
    let d = type_ref_text(&p.domain);
    r.append(d.as_str());
    r.append(" → ");
    let g = type_ref_text(&p.range);
    r.append(g.as_str());
    r
}

/// Builds the description of a rule.
pub fn rule_detail_text(rule: &RuleDef) -> (r: String)
    ensures
        r@ == rule_detail(*rule),
{
    let mut r = "rule ".to_owned();
    r.append(rule.name.as_str());
    r
}

/// The view of an optional borrowed string.
pub open spec fn opt_str_view(s: Option<&str>) -> Option<Seq<char>> {
    match s {
        Some(x) => Some(x@),
        None => None,
    }
}

fn owned_path(path: Option<&str>) -> (r: Option<String>)
    ensures
        opt_view(r) == opt_str_view(path),
{
    match path {
        Some(p) => Some(p.to_owned()),
        None => None,
    }
}

/// Appends the symbols a declaration declares to `out`.
fn push_declaration_symbols(out: &mut Vec<Symbol>, d: &Declaration, path: Option<&str>)
    ensures
        symbol_views(final(out)@) == symbol_views(old(out)@) + declaration_symbols(*d, opt_str_view(path)),
{
    let ghost o0 = symbol_views(out@);
    let file = owned_path(path);
    match d {
        Declaration::Concept(c) => {
            out.push(Symbol {
                name: c.name.clone(),
                kind: SymbolKind::Concept,
                definition_span: c.span,
                detail: concept_detail_text(c),
                file,
            });
            let ghost o1 = symbol_views(out@);
            if let Some(vs) = &c.one_of {
                let mut i: usize = 0;
                while i < vs.len()
                    invariant
                        i <= vs@.len(),
                        symbol_views(out@) =~= o1 + vs@.take(i as int).map_values(
                            |v: OneOfVariant| individual_symbol(v, *c, opt_str_view(path)),
                        ),
                    decreases vs.len() - i,
                {
                    let ghost b = symbol_views(out@);
                    let sym = Symbol {
                        name: vs[i].name.clone(),
                        kind: SymbolKind::Individual { parent: c.name.clone() },
                        definition_span: vs[i].span,
                        detail: individual_detail_text(&vs[i], c),
                        file: owned_path(path),
                    };
                    assert(sym@ == individual_symbol(vs@[i as int], *c, opt_str_view(path)));
                    out.push(sym);
                    proof {
                        let f = |v: OneOfVariant| individual_symbol(v, *c, opt_str_view(path));
                        assert(symbol_views(out@) =~= b.push(sym@));
                        assert(vs@.take(i + 1).map_values(f) =~= vs@.take(i as int).map_values(f).push(f(vs@[i as int])));
                    }
                    i = i + 1;
                }
                assert(vs@.take(vs@.len() as int) =~= vs@);
            }
        },
        Declaration::Property(p) => {
            out.push(Symbol {
                name: p.name.clone(),
                kind: SymbolKind::Property,
                definition_span: p.span,
                detail: property_detail_text(p),
                file,
            });
        },
        Declaration::Rule(r) => {
            out.push(Symbol {
                name: r.name.clone(),
                kind: SymbolKind::Rule,
                definition_span: r.span,
                detail: rule_detail_text(r),
                file,
            });
        },
        _ => {},
    }
    assert(symbol_views(out@) =~= o0 + declaration_symbols(*d, opt_str_view(path)));
}

/// Every symbol a file declares, in source order.
pub(crate) fn declared_symbol_list(f: &OntologyFile, path: Option<&str>) -> (r: Vec<Symbol>)
    ensures
        symbol_views(r@) == declared_symbols(*f, opt_str_view(path)),
{
    let ghost file = opt_str_view(path);
    let mut out: Vec<Symbol> = Vec::new();
    let mut i: usize = 0;
    while i < f.prefixes.len()
        invariant
            i <= f.prefixes@.len(),
            file == opt_str_view(path),
            symbol_views(out@) =~= f.prefixes@.take(i as int).map_values(|p: PrefixDecl| prefix_symbol(p, file)),
        decreases f.prefixes.len() - i,
    {
        let p = &f.prefixes[i];
        let ghost b = symbol_views(out@);
        let sym = Symbol {
            name: p.alias.clone(),
            kind: SymbolKind::Prefix,
            definition_span: p.span,
            detail: prefix_detail_text(p),
            file: owned_path(path),
        };
        assert(sym@ == prefix_symbol(*p, file));
        out.push(sym);
        proof {
            let g = |p: PrefixDecl| prefix_symbol(p, file);
            assert(symbol_views(out@) =~= b.push(sym@));
            assert(f.prefixes@.take(i + 1).map_values(g) =~= f.prefixes@.take(i as int).map_values(g).push(g(f.prefixes@[i as int])));
        }
        i = i + 1;
    }
    assert(f.prefixes@.take(f.prefixes@.len() as int) =~= f.prefixes@);
    let ghost pre = symbol_views(out@);
    let ghost ds = f.declarations@.map_values(|d: Declaration| declaration_symbols(d, file));
    let mut j: usize = 0;
    while j < f.declarations.len()
        invariant
            j <= f.declarations@.len(),
            file == opt_str_view(path),
            ds == f.declarations@.map_values(|d: Declaration| declaration_symbols(d, file)),
            symbol_views(out@) == pre + concat(ds.take(j as int)),
        decreases f.declarations.len() - j,
    {
        push_declaration_symbols(&mut out, &f.declarations[j], path);
        proof {
            assert(ds.take(j + 1) =~= ds.take(j as int).push(ds[j as int]));
            lemma_concat_push(ds.take(j as int), ds[j as int]);
            assert(symbol_views(out@) =~= pre + concat(ds.take(j + 1)));
        }
        j = j + 1;
    }
    assert(ds.take(f.declarations@.len() as int) =~= ds);
    out
}

/// The symbols of a file, one per name.
fn file_symbols(f: &OntologyFile, path: Option<&str>) -> (r: Vec<Symbol>)
    ensures
        names_distinct(r@),
        symbol_map(r@) == file_symbol_map(*f, opt_str_view(path)),
{
    let all = declared_symbol_list(f, path);
    let mut r: Vec<Symbol> = Vec::new();
    proof {
        lemma_assoc_empty(view_pairs(symbol_views(r@)));
    }
    put_all(&mut r, &all);
    r
}

// ── File stems ───────────────────────────────────────────────────────────────

/// What `str::to_lowercase` returns for a string.
pub uninterp spec fn lowercase(s: Seq<char>) -> Seq<char>;

/// The ASCII lowercase of a character: `A` to `Z` become `a` to `z`, every
/// other character stays.
pub open spec fn ascii_lower(c: char) -> char {
    if 65 <= (c as u32) && (c as u32) <= 90 {
        ((c as u32) + 32) as char
    } else {
        c
    }
}

/// Whether every character of `s` is ASCII.
pub open spec fn all_ascii(s: Seq<char>) -> bool {
    forall|i: int| 0 <= i < s.len() ==> (#[trigger] s[i] as u32) < 128
}

/// Calls `str::to_lowercase`, whose result depends on the string alone (the
/// Unicode lowercase mapping, in which only a final sigma looks at its
/// neighbours); it is named `lowercase`. On an ASCII string the mapping
/// lowercases `A` to `Z` and keeps every other character.
#[verifier::external_body]
fn to_lowercase(s: &str) -> (r: String)
    ensures
        r@ == lowercase(s@),
        all_ascii(s@) ==> r@ == s@.map_values(|c: char| ascii_lower(c)),
{
    s.to_lowercase()
}

/// Whether `p` is a plain file name on every platform: not empty, without
/// `/`, `\\` or `:` (which separate components or start a prefix), and
/// neither `.` nor `..`. Such a path is its own file name.
pub open spec fn plain_file_name(p: Seq<char>) -> bool {
    &&& p.len() > 0
    &&& !p.contains('/')
    &&& !p.contains('\\')
    &&& !p.contains(':')
    &&& p != "."@
    &&& p != ".."@
}

/// Whether `i` is the position of the last `c` of `n`.
pub open spec fn is_last_of(n: Seq<char>, c: char, i: int) -> bool {
    0 <= i < n.len() && n[i] == c && forall|j: int| i < j < n.len() ==> n[j] != c
}

/// The stem of a file name: the whole name when it has no `.`, or when it
/// begins with `.` and has no other; otherwise the part before the last `.`.
pub open spec fn name_stem(n: Seq<char>) -> Seq<char> {
    if !n.contains('.') || (n[0] == '.' && !n.drop_first().contains('.')) {
        n
    } else {
        n.subrange(0, choose|i: int| is_last_of(n, '.', i))
    }
}

/// The part of `p` after its last `/`; all of `p` when it has none.
pub open spec fn last_segment(p: Seq<char>) -> Seq<char> {
    if !p.contains('/') {
        p
    } else {
        p.subrange((choose|i: int| is_last_of(p, '/', i)) + 1, p.len() as int)
    }
}

/// Whether every `:` of `p` comes after a `/`, so that no `:` stands in
/// the first segment, where a prefix such as `C:` could be read.
pub open spec fn no_colon_before_slash(p: Seq<char>) -> bool {
    forall|i: int| 0 <= i < p.len() && #[trigger] p[i] == ':' ==> exists|j: int| 0 <= j < i && p[j] == '/'
}

/// Whether `p` is a path that names its file the same way on every
/// platform: no `\\`, no `:` in its first `/`-separated segment, no leading
/// `//`, and its last `/`-separated segment is a plain file name.
pub open spec fn simple_path(p: Seq<char>) -> bool {
    &&& !p.contains('\\')
    &&& no_colon_before_slash(p)
    &&& !(p.len() >= 2 && p[0] == '/' && p[1] == '/')
    &&& plain_file_name(last_segment(p))
}

/// The stem of the file a simple path names.
pub open spec fn path_stem(p: Seq<char>) -> Seq<char> {
    name_stem(last_segment(p))
}

/// Calls `std::path::Path::file_stem` and turns the stem into a `String`.
/// An empty path has no file name, hence no stem. A simple path (see
/// `simple_path`) has its last `/`-separated segment as file name on every
/// platform, `/` being a separator everywhere and a prefix being read only
/// in the first segment, and its stem is as the
/// documentation of `file_stem` describes it (`name_stem`). For other paths
/// the stem is not stated: which characters separate the components of a
/// path, and which prefixes a path may have, depend on the platform.
#[verifier::external_body]
fn path_file_stem(path: &str) -> (r: Option<String>)
    ensures
        path@.len() == 0 ==> r is None,
        simple_path(path@) ==> r is Some && r.unwrap()@ == path_stem(path@),
{
    match std::path::Path::new(path).file_stem() {
        Some(stem) => match stem.to_str() {
            Some(t) => Some(t.to_owned()),
            None => None,
        },
        None => None,
    }
}

/// `path` without a leading `file://`.
pub open spec fn strip_file_scheme(path: Seq<char>) -> Seq<char> {
    if path.len() >= 7 && path.subrange(0, 7) == "file://"@ {
        path.subrange(7, path.len() as int)
    } else {
        path
    }
}

/// The lowercased file stem of a path or `file://` URI: `there` for
/// `/path/to/There.dlf` and for `file:///path/to/there.dlf`.
pub fn file_stem(path: &str) -> (r: Option<String>)
    ensures
        strip_file_scheme(path@).len() == 0 ==> r is None,
        r matches Some(s) ==> exists|x: Seq<char>| s@ == lowercase(x),
        simple_path(strip_file_scheme(path@)) ==> r is Some && r.unwrap()@ == lowercase(
            path_stem(strip_file_scheme(path@)),
        ),
        simple_path(strip_file_scheme(path@)) && all_ascii(path_stem(strip_file_scheme(path@))) ==> r is Some
            && r.unwrap()@ == path_stem(strip_file_scheme(path@)).map_values(|c: char| ascii_lower(c)),
{
    let scheme = "file://";
    proof {
        reveal_strlit("file://");
    }
    let stripped = if starts_with(path, scheme) {
        path.substring_char(7, path.unicode_len())
    } else {
        path
    };
    assert(stripped@ == strip_file_scheme(path@));
    match path_file_stem(stripped) {
        Some(stem) => Some(to_lowercase(stem.as_str())),
        None => None,
    }
}

// ── Qualified aliases ────────────────────────────────────────────────────────

/// Whether a symbol gets a `<stem>.<name>` alias: every symbol but a prefix,
/// if its name has no `.`.
pub open spec fn alias_eligible(s: SymbolView) -> bool {
    s.kind != KindView::Prefix && !s.name.contains('.')
}

/// `<stem>.<name>`.
pub open spec fn alias_name(stem: Seq<char>, name: Seq<char>) -> Seq<char> {
    stem + seq!['.'] + name
}

/// The name a key `<stem>.<name>` is an alias of.
pub open spec fn alias_source(stem: Seq<char>, k: Seq<char>) -> Seq<char> {
    k.subrange(stem.len() + 1 as int, k.len() as int)
}

/// Whether `k` is `<stem>.<name>` for some `name`.
pub open spec fn has_stem(stem: Seq<char>, k: Seq<char>) -> bool {
    k.len() >= stem.len() + 1 && k.subrange(0, stem.len() + 1 as int) == stem.push('.')
}

/// The symbol `s` under the name `name`.
pub open spec fn renamed(s: SymbolView, name: Seq<char>) -> SymbolView {
    SymbolView { name, ..s }
}

/// The aliases of the eligible symbols of `fs`: `<stem>.<name>` stands for
/// the symbol `name`.
pub open spec fn alias_map(fs: Map<Seq<char>, SymbolView>, stem: Seq<char>) -> Map<Seq<char>, SymbolView> {
    Map::new(
        |k: Seq<char>|
            has_stem(stem, k) && fs.contains_key(alias_source(stem, k)) && alias_eligible(
                fs[alias_source(stem, k)],
            ),
        |k: Seq<char>| renamed(fs[alias_source(stem, k)], k),
    )
}

/// The symbols of a file together with their aliases, when the file has a
/// stem.
pub open spec fn with_aliases(fs: Map<Seq<char>, SymbolView>, stem: Option<Seq<char>>) -> Map<Seq<char>, SymbolView> {
    match stem {
        Some(st) => fs.union_prefer_right(alias_map(fs, st)),
        None => fs,
    }
}

/// The aliases of the eligible symbols of a list, in list order.
pub open spec fn alias_seq(s: Seq<SymbolView>, stem: Seq<char>) -> Seq<SymbolView>
    decreases s.len(),
{
    if s.len() == 0 {
        Seq::empty()
    } else if alias_eligible(s.last()) {
        alias_seq(s.drop_last(), stem).push(renamed(s.last(), alias_name(stem, s.last().name)))
    } else {
        alias_seq(s.drop_last(), stem)
    }
}

proof fn lemma_alias_name(stem: Seq<char>, n: Seq<char>, k: Seq<char>)
    ensures
        (k == alias_name(stem, n)) <==> (has_stem(stem, k) && alias_source(stem, k) == n),
{
    if k == alias_name(stem, n) {
        assert(k.subrange(0, stem.len() + 1 as int) =~= stem.push('.'));
        assert(alias_source(stem, k) =~= n);
    }
    if has_stem(stem, k) && alias_source(stem, k) == n {
        assert(k =~= k.subrange(0, stem.len() + 1 as int) + alias_source(stem, k));
        assert(k =~= alias_name(stem, n));
    }
}

/// Every alias of `alias_seq` is named `<stem>.<n>` for a name `n` of `s`.
proof fn lemma_alias_seq_names(s: Seq<SymbolView>, stem: Seq<char>, a: int)
    requires
        0 <= a < alias_seq(s, stem).len(),
    ensures
        exists|t: int|
            0 <= t < s.len() && alias_eligible(s[t]) && alias_seq(s, stem)[a] == renamed(
                s[t],
                alias_name(stem, s[t].name),
            ),
    decreases s.len(),
{
    let p = s.drop_last();
    if alias_eligible(s.last()) && a == alias_seq(p, stem).len() {
        assert(s[s.len() - 1] == s.last());
    } else {
        lemma_alias_seq_names(p, stem, a);
        let t = choose|t: int|
            0 <= t < p.len() && alias_eligible(p[t]) && alias_seq(p, stem)[a] == renamed(
                p[t],
                alias_name(stem, p[t].name),
            );
        assert(s[t] == p[t]);
    }
}

/// The aliases of a list with distinct names have distinct names, and are
/// the aliases of the list's map.
proof fn lemma_alias_seq(s: Seq<SymbolView>, stem: Seq<char>)
    requires
        keys_distinct(view_pairs(s)),
    ensures
        keys_distinct(view_pairs(alias_seq(s, stem))),
        assoc(view_pairs(alias_seq(s, stem))) == alias_map(assoc(view_pairs(s)), stem),
    decreases s.len(),
{
    let q = view_pairs(s);
    if s.len() == 0 {
        lemma_assoc_empty(q);
        lemma_assoc_empty(view_pairs(alias_seq(s, stem)));
        assert(alias_map(assoc(q), stem) =~= Map::empty());
    } else {
        let p = s.drop_last();
        let x = s.last();
        assert(view_pairs(p) =~= q.drop_last());
        assert(keys_distinct(view_pairs(p)));
        lemma_alias_seq(p, stem);
        // `x.name` is new
        assert(!has_key(view_pairs(p), x.name)) by {
            if has_key(view_pairs(p), x.name) {
                let i = choose|i: int| 0 <= i < view_pairs(p).len() && view_pairs(p)[i].0 == x.name;
                assert(q[i].0 == q[s.len() - 1].0);
            }
        }
        lemma_assoc_push(view_pairs(p), x.name, x);
        assert(view_pairs(p).push((x.name, x)) =~= q);
        let mp = assoc(view_pairs(p));
        let ap = view_pairs(alias_seq(p, stem));
        if alias_eligible(x) {
            let kn = alias_name(stem, x.name);
            assert(!has_key(ap, kn)) by {
                if has_key(ap, kn) {
                    let a = choose|a: int| 0 <= a < ap.len() && ap[a].0 == kn;
                    lemma_alias_seq_names(p, stem, a);
                    let t = choose|t: int|
                        0 <= t < p.len() && alias_eligible(p[t]) && alias_seq(p, stem)[a] == renamed(
                            p[t],
                            alias_name(stem, p[t].name),
                        );
                    lemma_alias_name(stem, p[t].name, kn);
                    lemma_alias_name(stem, x.name, kn);
                    assert(q[t].0 == q[s.len() - 1].0);
                }
            }
            let v = renamed(x, kn);
            lemma_assoc_push(ap, kn, v);
            assert(view_pairs(alias_seq(s, stem)) =~= ap.push((kn, v)));
            assert forall|k: Seq<char>| true implies (alias_map(mp.insert(x.name, x), stem).contains_key(k)
                <==> alias_map(mp, stem).insert(kn, v).contains_key(k)) by {
                lemma_alias_name(stem, x.name, k);
            }
            assert forall|k: Seq<char>| #[trigger] alias_map(mp.insert(x.name, x), stem).contains_key(k) implies
                alias_map(mp.insert(x.name, x), stem)[k] == alias_map(mp, stem).insert(kn, v)[k] by {
                lemma_alias_name(stem, x.name, k);
            }
            assert(alias_map(mp.insert(x.name, x), stem) =~= alias_map(mp, stem).insert(kn, v));
        } else {
            assert(view_pairs(alias_seq(s, stem)) == ap);
            assert forall|k: Seq<char>| true implies (alias_map(mp.insert(x.name, x), stem).contains_key(k)
                <==> alias_map(mp, stem).contains_key(k)) by {
                lemma_alias_name(stem, x.name, k);
            }
            assert forall|k: Seq<char>| #[trigger] alias_map(mp.insert(x.name, x), stem).contains_key(k) implies
                alias_map(mp.insert(x.name, x), stem)[k] == alias_map(mp, stem)[k] by {
                lemma_alias_name(stem, x.name, k);
            }
            assert(alias_map(mp.insert(x.name, x), stem) =~= alias_map(mp, stem));
        }
    }
}

/// The `<stem>.<name>` aliases of the eligible symbols of `fs`.
fn alias_list(fs: &Vec<Symbol>, stem: &str) -> (r: Vec<Symbol>)
    requires
        names_distinct(fs@),
    ensures
        names_distinct(r@),
        symbol_map(r@) == alias_map(symbol_map(fs@), stem@),
{
    let ghost sv = symbol_views(fs@);
    let mut r: Vec<Symbol> = Vec::new();
    let mut i: usize = 0;
    while i < fs.len()
        invariant
            i <= fs@.len(),
            sv == symbol_views(fs@),
            symbol_views(r@) == alias_seq(sv.take(i as int), stem@),
        decreases fs.len() - i,
    {
        let s = &fs[i];
        let ghost t = sv.take(i + 1);
        proof {
            assert(t.drop_last() =~= sv.take(i as int));
            assert(t.last() == s@);
        }
        let is_prefix = match s.kind {
            SymbolKind::Prefix => true,
            _ => false,
        };
        if !is_prefix && !contains_char(s.name.as_str(), '.') {
            let mut name = stem.to_owned();
            name.append(".");
            name.append(s.name.as_str());
            proof {
                reveal_strlit(".");
                assert(name@ =~= alias_name(stem@, s.name@));
            }
            let a = Symbol {
                name,
                kind: s.kind.clone(),
                definition_span: s.definition_span,
                detail: s.detail.clone(),
                file: match &s.file {
                    Some(f) => Some(f.clone()),
                    None => None,
                },
            };
            let ghost b = symbol_views(r@);
            r.push(a);
            proof {
                assert(symbol_views(r@) =~= b.push(a@));
                assert(a@ == renamed(s@, alias_name(stem@, s.name@)));
            }
        }
        i = i + 1;
    }
    proof {
        assert(sv.take(fs@.len() as int) =~= sv);
        lemma_alias_seq(sv, stem@);
    }
    r
}

// ── SymbolIndex ──────────────────────────────────────────────────────────────

/// The symbols of one file.
struct FileEntry {
    path: String,
    symbols: Vec<Symbol>,
}

/// The files of an index, keyed by path, each with its symbols by name.
spec fn file_pairs(s: Seq<FileEntry>) -> Seq<(Seq<char>, Map<Seq<char>, SymbolView>)> {
    s.map_values(|e: FileEntry| (e.path@, symbol_map(e.symbols@)))
}

/// The paths of a list of files, in list order.
spec fn file_paths(s: Seq<FileEntry>) -> Seq<Seq<char>> {
    s.map_values(|e: FileEntry| e.path@)
}

/// An index as mathematical maps.
pub struct IndexView {
    /// Each indexed path, with the symbols its file contributes by name.
    pub files: Map<Seq<char>, Map<Seq<char>, SymbolView>>,
    /// The indexed paths, in the order their files were last indexed.
    pub order: Seq<Seq<char>>,
    /// The merged lookup table.
    pub global: Map<Seq<char>, SymbolView>,
}

/// Cross-file symbol index, with incremental add and remove of files.
pub struct SymbolIndex {
    by_file: Vec<FileEntry>,
    global: Vec<Symbol>,
}

impl View for SymbolIndex {
    type V = IndexView;

    closed spec fn view(&self) -> IndexView {
        IndexView {
            files: assoc(file_pairs(self.by_file@)),
            order: file_paths(self.by_file@),
            global: symbol_map(self.global@),
        }
    }
}

/// The symbols of the files of `order` merged in that order: for each name,
/// the entry of the last file of `order` that defines it.
pub open spec fn merged(
    files: Map<Seq<char>, Map<Seq<char>, SymbolView>>,
    order: Seq<Seq<char>>,
) -> Map<Seq<char>, SymbolView>
    decreases order.len(),
{
    if order.len() == 0 {
        Map::empty()
    } else {
        merged(files, order.drop_last()).union_prefer_right(files[order.last()])
    }
}

/// `order` without `path`.
pub open spec fn without(order: Seq<Seq<char>>, path: Seq<char>) -> Seq<Seq<char>>
    decreases order.len(),
{
    if order.len() == 0 {
        order
    } else if order.last() == path {
        without(order.drop_last(), path)
    } else {
        without(order.drop_last(), path).push(order.last())
    }
}

/// What every index satisfies: `order` lists each indexed path once, and
/// the global table is the merge of the files in that order.
pub open spec fn view_wf(v: IndexView) -> bool {
    &&& v.order.no_duplicates()
    &&& forall|p: Seq<char>| #[trigger] v.order.contains(p) <==> v.files.contains_key(p)
    &&& v.global == merged(v.files, v.order)
}

/// Whether some file of `files` defines `name`.
pub open spec fn defined_somewhere(files: Map<Seq<char>, Map<Seq<char>, SymbolView>>, name: Seq<char>) -> bool {
    exists|p: Seq<char>| files.contains_key(p) && #[trigger] files[p].contains_key(name)
}

/// The global table holds exactly the names that some file defines.
pub open spec fn coherent(v: IndexView) -> bool {
    forall|k: Seq<char>|
        #![trigger v.global.contains_key(k)]
        #![trigger defined_somewhere(v.files, k)]
        v.global.contains_key(k) <==> defined_somewhere(v.files, k)
}

/// The index after the file at `path` is removed: every symbol of the file
/// goes, and for each of its names the entry of the file indexed last among
/// those that still define it takes its place.
pub open spec fn after_remove(v: IndexView, path: Seq<char>) -> IndexView {
    if v.files.contains_key(path) {
        let files = v.files.remove(path);
        let order = without(v.order, path);
        IndexView { files, order, global: merged(files, order) }
    } else {
        v
    }
}

/// The index after `f` is indexed under `path`, its symbols recording the
/// file `file`, where `stem` is the stem of the path: the old symbols of
/// `path` are removed first, then the symbols of `f` with their aliases are
/// recorded for `path`, the file indexed last, so they override the global
/// table.
pub open spec fn after_add(
    v: IndexView,
    path: Seq<char>,
    f: OntologyFile,
    file: Option<Seq<char>>,
    stem: Option<Seq<char>>,
) -> IndexView {
    let m = after_remove(v, path);
    let files = m.files.insert(path, with_aliases(file_symbol_map(f, file), stem));
    let order = m.order.push(path);
    IndexView { files, order, global: merged(files, order) }
}

/// The index of a single file indexed under the empty path, with no file
/// recorded for its symbols.
pub open spec fn single_file_index(f: OntologyFile) -> IndexView {
    IndexView {
        files: Map::empty().insert(Seq::empty(), file_symbol_map(f, None)),
        order: seq![Seq::empty()],
        global: file_symbol_map(f, None),
    }
}

/// Whether `m1` and `m2` agree on `k`: both lack it, or both map it to the
/// same symbol.
pub open spec fn agree_at(m1: Map<Seq<char>, SymbolView>, m2: Map<Seq<char>, SymbolView>, k: Seq<char>) -> bool {
    &&& m1.contains_key(k) <==> m2.contains_key(k)
    &&& m1.contains_key(k) ==> m1[k] == m2[k]
}

// ── Lemmas on merging ────────────────────────────────────────────────────────

/// Maps that agree on every key are equal.
proof fn lemma_agree_all(m1: Map<Seq<char>, SymbolView>, m2: Map<Seq<char>, SymbolView>)
    requires
        forall|k: Seq<char>| #[trigger] agree_at(m1, m2, k),
    ensures
        m1 == m2,
{
    assert forall|k: Seq<char>| #[trigger] m1.contains_key(k) <==> m2.contains_key(k) by {
        assert(agree_at(m1, m2, k));
    }
    assert forall|k: Seq<char>| #[trigger] m1.contains_key(k) implies m1[k] == m2[k] by {
        assert(agree_at(m1, m2, k));
    }
    assert(m1 =~= m2);
}

/// A name some file of `order` defines is in the merge.
proof fn lemma_merged_any(
    files: Map<Seq<char>, Map<Seq<char>, SymbolView>>,
    order: Seq<Seq<char>>,
    k: Seq<char>,
    i: int,
)
    requires
        0 <= i < order.len(),
        files[order[i]].contains_key(k),
    ensures
        merged(files, order).contains_key(k),
    decreases order.len(),
{
    if i < order.len() - 1 {
        lemma_merged_any(files, order.drop_last(), k, i);
    }
}

/// A name no file of `order` defines is not in the merge.
proof fn lemma_merged_none(
    files: Map<Seq<char>, Map<Seq<char>, SymbolView>>,
    order: Seq<Seq<char>>,
    k: Seq<char>,
)
    requires
        forall|i: int| 0 <= i < order.len() ==> !(#[trigger] files[order[i]]).contains_key(k),
    ensures
        !merged(files, order).contains_key(k),
    decreases order.len(),
{
    if order.len() > 0 {
        assert(!files[order[order.len() - 1]].contains_key(k));
        lemma_merged_none(files, order.drop_last(), k);
    }
}

/// The merge maps a name to the entry of the last file that defines it.
proof fn lemma_merged_latest(
    files: Map<Seq<char>, Map<Seq<char>, SymbolView>>,
    order: Seq<Seq<char>>,
    k: Seq<char>,
    j: int,
)
    requires
        0 <= j < order.len(),
        files[order[j]].contains_key(k),
        forall|i: int| j < i < order.len() ==> !(#[trigger] files[order[i]]).contains_key(k),
    ensures
        merged(files, order).contains_key(k),
        merged(files, order)[k] == files[order[j]][k],
    decreases order.len(),
{
    if j < order.len() - 1 {
        assert(!files[order[order.len() - 1]].contains_key(k));
        lemma_merged_latest(files, order.drop_last(), k, j);
    }
}

/// The merge reads only the files of `order`.
proof fn lemma_merged_congruent(
    f1: Map<Seq<char>, Map<Seq<char>, SymbolView>>,
    f2: Map<Seq<char>, Map<Seq<char>, SymbolView>>,
    order: Seq<Seq<char>>,
)
    requires
        forall|i: int| 0 <= i < order.len() ==> f1[#[trigger] order[i]] == f2[order[i]],
    ensures
        merged(f1, order) == merged(f2, order),
    decreases order.len(),
{
    if order.len() > 0 {
        lemma_merged_congruent(f1, f2, order.drop_last());
        assert(f1[order[order.len() - 1]] == f2[order[order.len() - 1]]);
    }
}

/// `without` leaves out exactly `path`.
proof fn lemma_without_contains(order: Seq<Seq<char>>, path: Seq<char>, q: Seq<char>)
    ensures
        without(order, path).contains(q) <==> (order.contains(q) && q != path),
    decreases order.len(),
{
    if order.len() > 0 {
        let p = order.drop_last();
        lemma_without_contains(p, path, q);
        let w = without(p, path);
        if order.contains(q) && q != path {
            let a = choose|a: int| 0 <= a < order.len() && order[a] == q;
            if a < p.len() {
                assert(p[a] == q);
                let b = choose|b: int| 0 <= b < w.len() && w[b] == q;
                if order.last() != path {
                    assert(w.push(order.last())[b] == q);
                }
            } else {
                assert(w.push(order.last())[w.len() as int] == q);
            }
        }
        if without(order, path).contains(q) {
            if order.last() != path {
                let b = choose|b: int| 0 <= b < w.len() + 1 && w.push(order.last())[b] == q;
                if b < w.len() {
                    assert(w[b] == q);
                } else {
                    assert(order[order.len() - 1] == q);
                }
            }
            if w.contains(q) {
                let a = choose|a: int| 0 <= a < p.len() && p[a] == q;
                assert(order[a] == q);
            }
        }
    }
}

/// Without a path it does not hold, a list stays as it is.
proof fn lemma_without_absent(order: Seq<Seq<char>>, path: Seq<char>)
    requires
        !order.contains(path),
    ensures
        without(order, path) == order,
    decreases order.len(),
{
    if order.len() > 0 {
        let p = order.drop_last();
        assert(!p.contains(path)) by {
            if p.contains(path) {
                let a = choose|a: int| 0 <= a < p.len() && p[a] == path;
                assert(order[a] == path);
            }
        }
        assert(order[order.len() - 1] != path);
        lemma_without_absent(p, path);
        assert(p.push(order.last()) =~= order);
    }
}

/// In a list without repeats, leaving out `path` is removing its position.
proof fn lemma_without_remove(order: Seq<Seq<char>>, path: Seq<char>, i: int)
    requires
        order.no_duplicates(),
        0 <= i < order.len(),
        order[i] == path,
    ensures
        without(order, path) == order.remove(i),
    decreases order.len(),
{
    let p = order.drop_last();
    if i == order.len() - 1 {
        assert(!p.contains(path)) by {
            if p.contains(path) {
                let a = choose|a: int| 0 <= a < p.len() && p[a] == path;
                assert(order[a] == order[i]);
            }
        }
        lemma_without_absent(p, path);
        assert(order.remove(i) =~= p);
    } else {
        assert(order.last() != path) by {
            assert(order[order.len() - 1] != order[i]);
        }
        assert(p.no_duplicates());
        lemma_without_remove(p, path, i);
        assert(p.remove(i).push(order.last()) =~= order.remove(i));
    }
}

/// Removing a file from the merge changes no name the file does not define.
proof fn lemma_merged_remove(
    files: Map<Seq<char>, Map<Seq<char>, SymbolView>>,
    order: Seq<Seq<char>>,
    i: int,
    k: Seq<char>,
)
    requires
        order.no_duplicates(),
        0 <= i < order.len(),
        !files[order[i]].contains_key(k),
    ensures
        agree_at(merged(files.remove(order[i]), order.remove(i)), merged(files, order), k),
    decreases order.len(),
{
    let path = order[i];
    let p = order.drop_last();
    let f2 = files.remove(path);
    if i == order.len() - 1 {
        assert(order.remove(i) =~= p);
        assert forall|a: int| 0 <= a < p.len() implies f2[#[trigger] p[a]] == files[p[a]] by {
            assert(p[a] == order[a]);
            assert(order[a] != order[i]);
        }
        lemma_merged_congruent(f2, files, p);
    } else {
        let q = order.last();
        assert(q == order[order.len() - 1]);
        assert(q != path);
        assert(p.no_duplicates());
        assert(p[i] == path);
        lemma_merged_remove(files, p, i, k);
        assert(order.remove(i).drop_last() =~= p.remove(i));
        assert(order.remove(i).last() == q);
        assert(f2[q] == files[q]);
    }
}

/// The paths of a list of files with distinct paths have no repeats, and are
/// the paths the files map holds.
proof fn lemma_paths(s: Seq<FileEntry>)
    requires
        keys_distinct(file_pairs(s)),
    ensures
        file_paths(s).no_duplicates(),
        forall|p: Seq<char>| #[trigger] file_paths(s).contains(p) <==> assoc(file_pairs(s)).contains_key(p),
        forall|j: int|
            0 <= j < s.len() ==> assoc(file_pairs(s)).contains_key(#[trigger] file_paths(s)[j]) && assoc(file_pairs(s))[file_paths(s)[j]]
                == symbol_map(s[j].symbols@),
{
    let fp = file_pairs(s);
    let o = file_paths(s);
    assert forall|a: int, b: int| 0 <= a < o.len() && 0 <= b < o.len() && a != b implies o[a] != o[b] by {
        assert(fp[a].0 == o[a] && fp[b].0 == o[b]);
    }
    assert forall|p: Seq<char>| #[trigger] o.contains(p) <==> assoc(fp).contains_key(p) by {
        if o.contains(p) {
            let a = choose|a: int| 0 <= a < o.len() && o[a] == p;
            assert(fp[a].0 == p);
        }
        if assoc(fp).contains_key(p) {
            let a = choose|a: int| 0 <= a < fp.len() && fp[a].0 == p;
            assert(o[a] == p);
        }
    }
    assert forall|j: int| 0 <= j < s.len() implies assoc(fp).contains_key(#[trigger] o[j]) && assoc(fp)[o[j]] == symbol_map(s[j].symbols@) by {
        assert(fp[j] == (o[j], symbol_map(s[j].symbols@)));
        lemma_assoc_index(fp, j);
    }
}

fn find_file(files: &Vec<FileEntry>, path: &str) -> (r: Option<usize>)
    ensures
        match r {
            Some(i) => i < files@.len() && files@[i as int].path@ == path@,
            None => !has_key(file_pairs(files@), path@),
        },
{
    let mut i: usize = 0;
    while i < files.len()
        invariant
            i <= files@.len(),
            forall|j: int| 0 <= j < i ==> files@[j].path@ != path@,
        decreases files.len() - i,
    {
        if str_eq(files[i].path.as_str(), path) {
            return Some(i);
        }
        i = i + 1;
    }
    proof {
        let p = file_pairs(files@);
        assert forall|j: int| 0 <= j < p.len() implies p[j].0 != path@ by {
            assert(p[j].0 == files@[j].path@);
        }
    }
    None
}

/// The symbol named `name` of the last file of the list that defines it.
fn latest_definition<'a>(files: &'a Vec<FileEntry>, name: &str) -> (r: Option<&'a Symbol>)
    requires
        forall|i: int| 0 <= i < files@.len() ==> names_distinct(#[trigger] files@[i].symbols@),
    ensures
        match r {
            Some(s) => exists|j: int|
                0 <= j < files@.len() && symbol_map(files@[j].symbols@).contains_key(name@) && s@ == symbol_map(
                    #[trigger] files@[j].symbols@,
                )[name@] && forall|i: int|
                    j < i < files@.len() ==> !symbol_map(#[trigger] files@[i].symbols@).contains_key(name@),
            None => forall|i: int| 0 <= i < files@.len() ==> !symbol_map(#[trigger] files@[i].symbols@).contains_key(name@),
        },
{
    let mut i: usize = files.len();
    while i > 0
        invariant
            i <= files@.len(),
            forall|t: int| 0 <= t < files@.len() ==> names_distinct(#[trigger] files@[t].symbols@),
            forall|t: int| i <= t < files@.len() ==> !symbol_map(#[trigger] files@[t].symbols@).contains_key(name@),
        decreases i,
    {
        i = i - 1;
        if let Some(sym) = lookup(&files[i].symbols, name) {
            return Some(sym);
        }
    }
    None
}

impl SymbolIndex {
    /// The index's internal lists have distinct paths and names, and its view
    /// is well formed: the global table is the merge of the files in the order
    /// they were indexed.
    pub closed spec fn wf(&self) -> bool {
        &&& keys_distinct(file_pairs(self.by_file@))
        &&& forall|i: int| 0 <= i < self.by_file@.len() ==> names_distinct(#[trigger] self.by_file@[i].symbols@)
        &&& names_distinct(self.global@)
        &&& view_wf(self@)
    }

    /// An empty index.
    pub fn new() -> (r: SymbolIndex)
        ensures
            r.wf(),
            r@.files == Map::<Seq<char>, Map<Seq<char>, SymbolView>>::empty(),
            r@.order == Seq::<Seq<char>>::empty(),
            r@.global == Map::<Seq<char>, SymbolView>::empty(),
    {
        let r = SymbolIndex { by_file: Vec::new(), global: Vec::new() };
        proof {
            lemma_assoc_empty(file_pairs(r.by_file@));
            lemma_assoc_empty(view_pairs(symbol_views(r.global@)));
            lemma_paths(r.by_file@);
            assert(r@.order =~= Seq::<Seq<char>>::empty());
        }
        r
    }

    /// Removes every symbol that came from `path`. For each of its names, the
    /// entry of the file indexed last among those that still define it takes
    /// its place in the global table.
    pub fn remove_file(&mut self, path: &str)
        requires
            old(self).wf(),
        ensures
            final(self).wf(),
            final(self)@ == after_remove(old(self)@, path@),
    {
        let ghost v0 = self@;
        let ghost fp0 = file_pairs(self.by_file@);
        let ghost bf0 = self.by_file@;
        proof {
            lemma_paths(bf0);
        }
        match find_file(&self.by_file, path) {
            None => {
                proof {
                    assert(!v0.files.contains_key(path@));
                }
            },
            Some(i) => {
                proof {
                    lemma_assoc_index(fp0, i as int);
                    lemma_assoc_remove(fp0, i as int);
                }
                let entry = self.by_file.remove(i);
                let ghost f1 = v0.files.remove(path@);
                let ghost o1 = v0.order.remove(i as int);
                let ghost g1 = merged(f1, o1);
                let ghost g0 = v0.global;
                proof {
                    assert(file_pairs(self.by_file@) =~= fp0.remove(i as int));
                    assert(file_paths(self.by_file@) =~= o1);
                    assert forall|j: int| 0 <= j < self.by_file@.len() implies names_distinct(#[trigger] self.by_file@[j].symbols@) by {
                        if j < i {
                            assert(self.by_file@[j] == bf0[j]);
                        } else {
                            assert(self.by_file@[j] == bf0[j + 1]);
                        }
                    }
                    lemma_paths(self.by_file@);
                    assert(v0.order[i as int] == path@);
                    lemma_without_remove(v0.order, path@, i as int);
                }
                let ghost removed = symbol_map(entry.symbols@);
                let ghost sp = view_pairs(symbol_views(entry.symbols@));
                assert(entry == bf0[i as int]);
                assert(keys_distinct(sp));
                assert(removed == v0.files[path@]);
                let mut j: usize = 0;
                while j < entry.symbols.len()
                    invariant
                        j <= entry.symbols@.len(),
                        keys_distinct(file_pairs(self.by_file@)),
                        forall|t: int| 0 <= t < self.by_file@.len() ==> names_distinct(#[trigger] self.by_file@[t].symbols@),
                        names_distinct(self.global@),
                        f1 == assoc(file_pairs(self.by_file@)),
                        o1 == file_paths(self.by_file@),
                        g1 == merged(f1, o1),
                        sp == view_pairs(symbol_views(entry.symbols@)),
                        keys_distinct(sp),
                        removed == assoc(sp),
                        forall|k: Seq<char>|
                            #[trigger] has_key(sp.take(j as int), k) ==> agree_at(symbol_map(self.global@), g1, k),
                        forall|k: Seq<char>|
                            !#[trigger] has_key(sp.take(j as int), k) ==> agree_at(symbol_map(self.global@), g0, k),
                    decreases entry.symbols.len() - j,
                {
                    let ghost before = symbol_map(self.global@);
                    let name = entry.symbols[j].name.as_str();
                    proof {
                        lemma_paths(self.by_file@);
                    }
                    match latest_definition(&self.by_file, name) {
                        Some(sym) => {
                            let c = sym.clone();
                            proof {
                                let t = choose|t: int|
                                    0 <= t < self.by_file@.len() && symbol_map(self.by_file@[t].symbols@).contains_key(name@)
                                        && c@ == symbol_map(#[trigger] self.by_file@[t].symbols@)[name@] && forall|x: int|
                                        t < x < self.by_file@.len() ==> !symbol_map(#[trigger] self.by_file@[x].symbols@).contains_key(
                                            name@,
                                        );
                                assert(o1[t] == file_paths(self.by_file@)[t]);
                                assert forall|x: int| t < x < o1.len() implies !(#[trigger] f1[o1[x]]).contains_key(name@) by {
                                    assert(o1[x] == file_paths(self.by_file@)[x]);
                                }
                                lemma_merged_latest(f1, o1, name@, t);
                                lemma_symbol_map_keyed(self.by_file@[t].symbols@);
                            }
                            put_symbol(&mut self.global, c);
                        },
                        None => {
                            proof {
                                assert forall|x: int| 0 <= x < o1.len() implies !(#[trigger] f1[o1[x]]).contains_key(name@) by {
                                    assert(o1[x] == file_paths(self.by_file@)[x]);
                                }
                                lemma_merged_none(f1, o1, name@);
                            }
                            remove_symbol(&mut self.global, name);
                        },
                    }
                    proof {
                        let n = entry.symbols@[j as int].name@;
                        assert(sp[j as int].0 == n);
                        let s0 = sp.take(j as int);
                        let s1 = sp.take(j + 1);
                        assert forall|k: Seq<char>| #[trigger] has_key(s1, k) <==> (has_key(s0, k) || k == n) by {
                            if has_key(s1, k) {
                                let a = choose|a: int| 0 <= a < s1.len() && s1[a].0 == k;
                                if a < j {
                                    assert(s0[a].0 == k);
                                }
                            }
                            if has_key(s0, k) {
                                let a = choose|a: int| 0 <= a < s0.len() && s0[a].0 == k;
                                assert(s1[a].0 == k);
                            }
                            if k == n {
                                assert(s1[j as int].0 == k);
                            }
                        }
                    }
                    j = j + 1;
                }
                proof {
                    assert(sp.take(entry.symbols@.len() as int) =~= sp);
                    assert forall|k: Seq<char>| agree_at(symbol_map(self.global@), g1, k) by {
                        if has_key(sp, k) {
                        } else {
                            if removed.contains_key(k) {
                                assert(has_key(sp, k));
                            }
                            assert(v0.order[i as int] == path@);
                            lemma_merged_remove(v0.files, v0.order, i as int, k);
                        }
                    }
                    lemma_agree_all(symbol_map(self.global@), g1);
                    assert(self@.files =~= v0.files.remove(path@));
                }
            },
        }
    }

    /// Indexes (or re-indexes) `f` under `path`, its symbols recording the
    /// file `file`, where `stem` is the file stem of `path`.
    fn index_file(&mut self, path: &str, f: &OntologyFile, file: Option<&str>, stem: Option<&str>)
        requires
            old(self).wf(),
        ensures
            final(self).wf(),
            final(self)@ == after_add(old(self)@, path@, *f, opt_str_view(file), opt_str_view(stem)),
    {
        let ghost v0 = self@;
        self.remove_file(path);
        let ghost v1 = self@;
        let mut fs = file_symbols(f, file);
        let ghost m0 = symbol_map(fs@);
        match stem {
            Some(st) => {
                let aliases = alias_list(&fs, st);
                put_all(&mut fs, &aliases);
                proof {
                    lemma_insert_all_distinct(m0, view_pairs(symbol_views(aliases@)));
                }
            },
            None => {},
        }
        let ghost fsm = symbol_map(fs@);
        assert(fsm == with_aliases(file_symbol_map(*f, opt_str_view(file)), opt_str_view(stem)));
        let ghost g1 = symbol_map(self.global@);
        put_all(&mut self.global, &fs);
        proof {
            lemma_insert_all_distinct(g1, view_pairs(symbol_views(fs@)));
        }
        let ghost fp1 = file_pairs(self.by_file@);
        let ghost bf1 = self.by_file@;
        proof {
            assert(!v1.files.contains_key(path@));
            assert(!has_key(fp1, path@));
            lemma_assoc_push(fp1, path@, fsm);
        }
        self.by_file.push(FileEntry { path: path.to_owned(), symbols: fs });
        proof {
            assert(file_pairs(self.by_file@) =~= fp1.push((path@, fsm)));
            assert(file_paths(self.by_file@) =~= v1.order.push(path@));
            assert forall|t: int| 0 <= t < self.by_file@.len() implies names_distinct(#[trigger] self.by_file@[t].symbols@) by {
                if t < self.by_file@.len() - 1 {
                    assert(self.by_file@[t] == bf1[t]);
                }
            }
            lemma_paths(self.by_file@);
            let files = v1.files.insert(path@, fsm);
            let order = v1.order.push(path@);
            assert(!v1.order.contains(path@));
            assert forall|a: int| 0 <= a < v1.order.len() implies files[#[trigger] v1.order[a]] == v1.files[v1.order[a]] by {
                assert(v1.order.contains(v1.order[a]));
            }
            lemma_merged_congruent(files, v1.files, v1.order);
            assert(order.drop_last() =~= v1.order);
            assert(self@.global =~= merged(files, order));
        }
    }

    /// Indexes (or re-indexes) `f` under `path`, where `stem` is the file
    /// stem of `path`: the old symbols of `path` are removed first, then each
    /// symbol of `f`, and with a stem also its `<stem>.<name>` alias, is
    /// recorded for `path` and overrides the global table.
    pub fn add_file_with_stem(&mut self, path: &str, f: &OntologyFile, stem: Option<&str>)
        requires
            old(self).wf(),
        ensures
            final(self).wf(),
            final(self)@ == after_add(old(self)@, path@, *f, Some(path@), opt_str_view(stem)),
    {
        self.index_file(path, f, Some(path), stem);
    }

    /// Indexes (or re-indexes) `f` under `path`. Qualified aliases
    /// `<stem>.<name>` are registered under the lowercased file stem of the
    /// path (so `there.Far` resolves when `Far` is declared in `there.dlf`).
    pub fn add_file(&mut self, path: &str, f: &OntologyFile)
        requires
            old(self).wf(),
        ensures
            final(self).wf(),
            exists|stem: Option<Seq<char>>|
                #[trigger] after_add(old(self)@, path@, *f, Some(path@), stem) == final(self)@ && (stem matches Some(st)
                    ==> exists|x: Seq<char>| st == lowercase(x)),
            strip_file_scheme(path@).len() == 0 ==> final(self)@ == after_add(old(self)@, path@, *f, Some(path@), None),
            simple_path(strip_file_scheme(path@)) ==> final(self)@ == after_add(
                old(self)@,
                path@,
                *f,
                Some(path@),
                Some(lowercase(path_stem(strip_file_scheme(path@)))),
            ),
            simple_path(strip_file_scheme(path@)) && all_ascii(path_stem(strip_file_scheme(path@)))
                ==> final(self)@ == after_add(
                old(self)@,
                path@,
                *f,
                Some(path@),
                Some(path_stem(strip_file_scheme(path@)).map_values(|c: char| ascii_lower(c))),
            ),
    {
        let ghost v0 = self@;
        let stem = file_stem(path);
        match &stem {
            Some(s) => self.add_file_with_stem(path, f, Some(s.as_str())),
            None => self.add_file_with_stem(path, f, None),
        }
        let ghost sv: Option<Seq<char>> = match stem {
            Some(s) => Some(s@),
            None => None,
        };
        assert(after_add(v0, path@, *f, Some(path@), sv) == self@);
    }

    /// Builds an index from a single file, indexed under the empty path with
    /// no file recorded for its symbols.
    pub fn from_file(f: &OntologyFile) -> (r: SymbolIndex)
        ensures
            r.wf(),
            r@ == single_file_index(*f),
    {
        let mut idx = SymbolIndex::new();
        let ghost v0 = idx@;
        idx.index_file("", f, None, None);
        proof {
            reveal_strlit("");
            assert(""@ =~= Seq::<char>::empty());
            assert(idx@.files =~= single_file_index(*f).files);
            assert(idx@.order =~= single_file_index(*f).order);
            assert(merged(idx@.files, idx@.order.drop_last()) =~= Map::empty());
            assert(idx@.global =~= single_file_index(*f).global);
        }
        idx
    }

    /// Looks a symbol up by name in the global table.
    pub fn get(&self, name: &str) -> (r: Option<&Symbol>)
        requires
            self.wf(),
        ensures
            r is Some <==> self@.global.contains_key(name@),
            r matches Some(s) ==> s@ == self@.global[name@],
    {
        lookup(&self.global, name)
    }

    /// Looks a symbol up among those of one file.
    pub fn get_in_file(&self, path: &str, name: &str) -> (r: Option<&Symbol>)
        requires
            self.wf(),
        ensures
            r is Some <==> (self@.files.contains_key(path@) && self@.files[path@].contains_key(name@)),
            r matches Some(s) ==> s@ == self@.files[path@][name@],
    {
        match find_file(&self.by_file, path) {
            Some(i) => {
                proof {
                    let fp = file_pairs(self.by_file@);
                    assert(fp[i as int] == (self.by_file@[i as int].path@, symbol_map(self.by_file@[i as int].symbols@)));
                    lemma_assoc_index(fp, i as int);
                }
                lookup(&self.by_file[i].symbols, name)
            },
            None => None,
        }
    }

    /// All symbols of the global table, one per name.
    pub fn iter(&self) -> (r: &[Symbol])
        requires
            self.wf(),
        ensures
            names_distinct(r@),
            symbol_map(r@) == self@.global,
    {
        self.global.as_slice()
    }

    /// The symbols of one file, one per name; none for a path that is not
    /// indexed.
    pub fn iter_file(&self, path: &str) -> (r: Vec<Symbol>)
        requires
            self.wf(),
        ensures
            names_distinct(r@),
            symbol_map(r@) == (if self@.files.contains_key(path@) {
                self@.files[path@]
            } else {
                Map::empty()
            }),
    {
        match find_file(&self.by_file, path) {
            Some(i) => {
                proof {
                    let fp = file_pairs(self.by_file@);
                    assert(fp[i as int] == (self.by_file@[i as int].path@, symbol_map(self.by_file@[i as int].symbols@)));
                    lemma_assoc_index(fp, i as int);
                }
                let src = &self.by_file[i].symbols;
                let mut r: Vec<Symbol> = Vec::new();
                let mut j: usize = 0;
                while j < src.len()
                    invariant
                        j <= src@.len(),
                        r@ == src@.take(j as int),
                    decreases src.len() - j,
                {
                    r.push(src[j].clone());
                    assert(r@ =~= src@.take(j + 1));
                    j = j + 1;
                }
                assert(r@ =~= src@);
                r
            },
            None => {
                let r: Vec<Symbol> = Vec::new();
                proof {
                    lemma_assoc_empty(view_pairs(symbol_views(r@)));
                }
                r
            },
        }
    }

    /// Whether `name` resolves to a concept.
    pub fn is_type(&self, name: &str) -> (r: bool)
        requires
            self.wf(),
        ensures
            r == (self@.global.contains_key(name@) && self@.global[name@].kind == KindView::Concept),
    {
        match self.get(name) {
            Some(s) => s.kind.is_concept(),
            None => false,
        }
    }

    /// The names of all concepts, each once.
    pub fn type_names(&self) -> (r: Vec<&str>)
        requires
            self.wf(),
        ensures
            concept_names_of(r@, self@.global),
    {
        concept_name_list(&self.global)
    }

    /// The names of all concepts, each once.
    pub fn concept_names(&self) -> (r: Vec<&str>)
        requires
            self.wf(),
        ensures
            concept_names_of(r@, self@.global),
    {
        concept_name_list(&self.global)
    }
}

/// A copy of a file's entry.
fn clone_entry(e: &FileEntry) -> (r: FileEntry)
    ensures
        r.path == e.path,
        r.symbols@ == e.symbols@,
{
    FileEntry { path: e.path.clone(), symbols: clone_symbols(&e.symbols) }
}

/// A copy of a list of symbols.
fn clone_symbols(s: &Vec<Symbol>) -> (r: Vec<Symbol>)
    ensures
        r@ == s@,
{
    let mut r: Vec<Symbol> = Vec::new();
    let mut i: usize = 0;
    while i < s.len()
        invariant
            i <= s@.len(),
            r@ == s@.take(i as int),
        decreases s.len() - i,
    {
        r.push(s[i].clone());
        assert(r@ =~= s@.take(i + 1));
        i = i + 1;
    }
    assert(r@ =~= s@);
    r
}

impl Clone for SymbolIndex {
    fn clone(&self) -> (r: Self)
        ensures
            r@ == self@,
            self.wf() ==> r.wf(),
    {
        let mut files: Vec<FileEntry> = Vec::new();
        let mut i: usize = 0;
        while i < self.by_file.len()
            invariant
                i <= self.by_file@.len(),
                files@.len() == i,
                forall|j: int|
                    0 <= j < i ==> (#[trigger] files@[j]).path == self.by_file@[j].path && files@[j].symbols@
                        == self.by_file@[j].symbols@,
            decreases self.by_file.len() - i,
        {
            files.push(clone_entry(&self.by_file[i]));
            i = i + 1;
        }
        let r = SymbolIndex { by_file: files, global: clone_symbols(&self.global) };
        proof {
            assert(file_pairs(r.by_file@) =~= file_pairs(self.by_file@));
            assert(file_paths(r.by_file@) =~= file_paths(self.by_file@));
            assert(symbol_map(r.global@) == symbol_map(self.global@));
            assert forall|j: int| 0 <= j < r.by_file@.len() implies names_distinct(#[trigger] r.by_file@[j].symbols@)
                == names_distinct(self.by_file@[j].symbols@) by {
                assert(r.by_file@[j].symbols@ == self.by_file@[j].symbols@);
            }
        }
        r
    }
}

impl Default for SymbolIndex {
    fn default() -> (r: SymbolIndex)
        ensures
            r.wf(),
            r@.files == Map::<Seq<char>, Map<Seq<char>, SymbolView>>::empty(),
            r@.order == Seq::<Seq<char>>::empty(),
            r@.global == Map::<Seq<char>, SymbolView>::empty(),
    {
        SymbolIndex::new()
    }
}

/// `names` lists each concept of `m` once, and nothing else.
pub open spec fn concept_names_of(names: Seq<&str>, m: Map<Seq<char>, SymbolView>) -> bool {
    &&& forall|i: int, j: int| 0 <= i < names.len() && 0 <= j < names.len() && i != j ==> names[i]@ != names[j]@
    &&& forall|i: int| 0 <= i < names.len() ==> m.contains_key(#[trigger] names[i]@) && m[names[i]@].kind == KindView::Concept
    &&& forall|k: Seq<char>| m.contains_key(k) && m[k].kind == KindView::Concept ==> exists|i: int| 0 <= i < names.len() && #[trigger] names[i]@ == k
}

/// The names of the concepts of a list with distinct names.
fn concept_name_list<'a>(list: &'a Vec<Symbol>) -> (r: Vec<&'a str>)
    requires
        names_distinct(list@),
    ensures
        concept_names_of(r@, symbol_map(list@)),
{
    let ghost sp = view_pairs(symbol_views(list@));
    let mut r: Vec<&str> = Vec::new();
    let ghost mut idx: Seq<int> = Seq::empty();
    let mut i: usize = 0;
    while i < list.len()
        invariant
            i <= list@.len(),
            sp == view_pairs(symbol_views(list@)),
            keys_distinct(sp),
            r@.len() == idx.len(),
            forall|a: int| 0 <= a < idx.len() ==> 0 <= #[trigger] idx[a] < i && r@[a]@ == list@[idx[a]].name@
                && list@[idx[a]].kind@ == KindView::Concept,
            forall|a: int, b: int| 0 <= a < b < idx.len() ==> idx[a] < idx[b],
            forall|t: int| 0 <= t < i && list@[t].kind@ == KindView::Concept ==> exists|a: int| 0 <= a < idx.len() && #[trigger] idx[a] == t,
        decreases list.len() - i,
    {
        let ghost idx0 = idx;
        if list[i].kind.is_concept() {
            r.push(list[i].name.as_str());
            proof {
                idx = idx.push(i as int);
            }
        }
        proof {
            assert forall|t: int| 0 <= t < i + 1 && list@[t].kind@ == KindView::Concept implies exists|a: int| 0 <= a < idx.len() && #[trigger] idx[a] == t by {
                if t < i {
                    let a = choose|a: int| 0 <= a < idx0.len() && #[trigger] idx0[a] == t;
                    assert(idx[a] == t);
                } else {
                    assert(idx[idx.len() - 1] == t);
                }
            }
        }
        i = i + 1;
    }
    proof {
        let m = symbol_map(list@);
        assert forall|a: int, b: int| 0 <= a < r@.len() && 0 <= b < r@.len() && a != b implies r@[a]@ != r@[b]@ by {
            assert(sp[idx[a]].0 == list@[idx[a]].name@);
            assert(sp[idx[b]].0 == list@[idx[b]].name@);
            if a < b {
                assert(idx[a] < idx[b]);
            } else {
                assert(idx[b] < idx[a]);
            }
        }
        assert forall|a: int| 0 <= a < r@.len() implies m.contains_key(#[trigger] r@[a]@) && m[r@[a]@].kind == KindView::Concept by {
            assert(sp[idx[a]] == (list@[idx[a]].name@, list@[idx[a]]@));
            lemma_assoc_index(sp, idx[a]);
        }
        assert forall|k: Seq<char>| m.contains_key(k) && m[k].kind == KindView::Concept implies exists|a: int| 0 <= a < r@.len() && #[trigger] r@[a]@ == k by {
            let t = choose|t: int| 0 <= t < sp.len() && sp[t].0 == k;
            assert(sp[t] == (list@[t].name@, list@[t]@));
            lemma_assoc_index(sp, t);
            let a = choose|a: int| 0 <= a < idx.len() && #[trigger] idx[a] == t;
            assert(r@[a]@ == k);
        }
    }
    r
}


// ── Laws of the index ────────────────────────────────────────────────────────

/// Every index the operations build is well formed; in particular its global
/// table holds exactly the names that some indexed file defines.
pub proof fn lemma_index_coherent(idx: SymbolIndex)
    requires
        idx.wf(),
    ensures
        view_wf(idx@),
        coherent(idx@),
{
    lemma_view_coherent(idx@);
}

/// Every symbol of an index is stored under its own name, in the global
/// table and among the symbols of each file.
pub proof fn lemma_index_keyed(idx: SymbolIndex)
    requires
        idx.wf(),
    ensures
        keyed_by_name(idx@.global),
        forall|p: Seq<char>| #[trigger] idx@.files.contains_key(p) ==> keyed_by_name(idx@.files[p]),
{
    lemma_symbol_map_keyed(idx.global@);
    lemma_paths(idx.by_file@);
    assert forall|p: Seq<char>| #[trigger] idx@.files.contains_key(p) implies keyed_by_name(idx@.files[p]) by {
        let fp = file_pairs(idx.by_file@);
        let j = choose|j: int| 0 <= j < fp.len() && fp[j].0 == p;
        assert(file_paths(idx.by_file@)[j] == p);
        lemma_symbol_map_keyed(idx.by_file@[j].symbols@);
    }
}

/// In a well-formed index, the global table holds exactly the names some file
/// defines.
pub proof fn lemma_view_coherent(v: IndexView)
    requires
        view_wf(v),
    ensures
        coherent(v),
{
    assert forall|k: Seq<char>| #[trigger] v.global.contains_key(k) <==> defined_somewhere(v.files, k) by {
        if defined_somewhere(v.files, k) {
            let p = choose|p: Seq<char>| v.files.contains_key(p) && #[trigger] v.files[p].contains_key(k);
            assert(v.order.contains(p));
            let i = choose|i: int| 0 <= i < v.order.len() && v.order[i] == p;
            lemma_merged_any(v.files, v.order, k, i);
        }
        if v.global.contains_key(k) && !defined_somewhere(v.files, k) {
            assert forall|i: int| 0 <= i < v.order.len() implies !(#[trigger] v.files[v.order[i]]).contains_key(k) by {
                assert(v.order.contains(v.order[i]));
            }
            lemma_merged_none(v.files, v.order, k);
        }
    }
}

/// The global entry of a name is the entry of the file indexed last among
/// those that define it.
pub proof fn lemma_global_is_latest(v: IndexView, k: Seq<char>, j: int)
    requires
        view_wf(v),
        0 <= j < v.order.len(),
        v.files[v.order[j]].contains_key(k),
        forall|i: int| j < i < v.order.len() ==> !(#[trigger] v.files[v.order[i]]).contains_key(k),
    ensures
        v.global.contains_key(k),
        v.global[k] == v.files[v.order[j]][k],
{
    lemma_merged_latest(v.files, v.order, k, j);
}

/// The empty index is well formed.
pub proof fn lemma_empty_view_wf()
    ensures
        view_wf(IndexView { files: Map::empty(), order: Seq::empty(), global: Map::empty() }),
{
    let v = IndexView { files: Map::empty(), order: Seq::empty(), global: Map::empty() };
    assert(merged(v.files, v.order) =~= Map::empty());
}

/// Removing a file keeps the index well formed: the path is gone, and every
/// name the removed file did not define keeps its global entry.
pub proof fn lemma_remove_keeps_wf(v: IndexView, path: Seq<char>)
    requires
        view_wf(v),
    ensures
        view_wf(after_remove(v, path)),
        !after_remove(v, path).files.contains_key(path),
        forall|k: Seq<char>|
            !(v.files.contains_key(path) && v.files[path].contains_key(k)) ==> #[trigger] agree_at(
                after_remove(v, path).global,
                v.global,
                k,
            ),
{
    if v.files.contains_key(path) {
        assert(v.order.contains(path));
        let i = choose|i: int| 0 <= i < v.order.len() && v.order[i] == path;
        lemma_without_remove(v.order, path, i);
        let m = after_remove(v, path);
        assert forall|a: int, b: int| 0 <= a < m.order.len() && 0 <= b < m.order.len() && a != b implies m.order[a] != m.order[b] by {
            let a2 = if a < i { a } else { a + 1 };
            let b2 = if b < i { b } else { b + 1 };
            assert(m.order[a] == v.order[a2] && m.order[b] == v.order[b2]);
        }
        assert forall|q: Seq<char>| #[trigger] m.order.contains(q) <==> m.files.contains_key(q) by {
            lemma_without_contains(v.order, path, q);
        }
        lemma_without_contains(v.order, path, path);
        assert forall|k: Seq<char>| !(v.files.contains_key(path) && v.files[path].contains_key(k)) implies #[trigger] agree_at(
            m.global,
            v.global,
            k,
        ) by {
            lemma_merged_remove(v.files, v.order, i, k);
        }
    } else {
        assert forall|k: Seq<char>| !(v.files.contains_key(path) && v.files[path].contains_key(k)) implies #[trigger] agree_at(
            after_remove(v, path).global,
            v.global,
            k,
        ) by {
        }
    }
}

/// Adding a file keeps the index well formed.
pub proof fn lemma_add_keeps_wf(
    v: IndexView,
    path: Seq<char>,
    f: OntologyFile,
    file: Option<Seq<char>>,
    stem: Option<Seq<char>>,
)
    requires
        view_wf(v),
    ensures
        view_wf(after_add(v, path, f, file, stem)),
{
    lemma_remove_keeps_wf(v, path);
    let m = after_remove(v, path);
    let a = after_add(v, path, f, file, stem);
    assert(!m.order.contains(path));
    assert forall|x: int, y: int| 0 <= x < a.order.len() && 0 <= y < a.order.len() && x != y implies a.order[x] != a.order[y] by {
        if x < m.order.len() && y < m.order.len() {
        } else if x < m.order.len() {
            assert(a.order[x] == m.order[x]);
            assert(m.order.contains(a.order[x]));
        } else {
            assert(a.order[y] == m.order[y]);
            assert(m.order.contains(a.order[y]));
        }
    }
    assert forall|q: Seq<char>| #[trigger] a.order.contains(q) <==> a.files.contains_key(q) by {
        if a.order.contains(q) && q != path {
            let x = choose|x: int| 0 <= x < a.order.len() && a.order[x] == q;
            assert(x < m.order.len());
            assert(m.order[x] == q);
            assert(m.order.contains(q));
            assert(m.files.contains_key(q));
        }
        if a.files.contains_key(q) && q != path {
            assert(m.order.contains(q));
            let x = choose|x: int| 0 <= x < m.order.len() && m.order[x] == q;
            assert(a.order[x] == q);
        }
        if q == path {
            assert(a.order[m.order.len() as int] == q);
        }
    }
}

/// Read after write: once a file is indexed, every name it declares (and,
/// with a stem, every alias) is found in the global table and among the
/// file's own symbols, as the file declares it.
pub proof fn lemma_add_then_lookup(
    v: IndexView,
    path: Seq<char>,
    f: OntologyFile,
    file: Option<Seq<char>>,
    stem: Option<Seq<char>>,
    name: Seq<char>,
)
    requires
        with_aliases(file_symbol_map(f, file), stem).contains_key(name),
    ensures
        after_add(v, path, f, file, stem).global.contains_key(name),
        after_add(v, path, f, file, stem).global[name] == with_aliases(file_symbol_map(f, file), stem)[name],
        after_add(v, path, f, file, stem).files.contains_key(path),
        after_add(v, path, f, file, stem).files[path][name] == with_aliases(file_symbol_map(f, file), stem)[name],
{
}

/// With a stem, each symbol of the file other than a prefix (a concept, an
/// individual, a property or a rule), whose name has no `.`, is also
/// registered as `<stem>.<name>`: the same symbol under that name, in the
/// global table and among the file's own symbols.
pub proof fn lemma_alias_registered(
    v: IndexView,
    path: Seq<char>,
    f: OntologyFile,
    file: Option<Seq<char>>,
    stem: Seq<char>,
    name: Seq<char>,
)
    requires
        file_symbol_map(f, file).contains_key(name),
        file_symbol_map(f, file)[name].kind != KindView::Prefix,
        !name.contains('.'),
    ensures
        after_add(v, path, f, file, Some(stem)).global.contains_key(stem + seq!['.'] + name),
        after_add(v, path, f, file, Some(stem)).global[stem + seq!['.'] + name] == (SymbolView {
            name: stem + seq!['.'] + name,
            ..file_symbol_map(f, file)[name]
        }),
        after_add(v, path, f, file, Some(stem)).files[path].contains_key(stem + seq!['.'] + name),
        after_add(v, path, f, file, Some(stem)).files[path][stem + seq!['.'] + name] == (SymbolView {
            name: stem + seq!['.'] + name,
            ..file_symbol_map(f, file)[name]
        }),
{
    let fs = file_symbol_map(f, file);
    let k = alias_name(stem, name);
    lemma_file_symbols_keyed(f, file);
    assert(fs[name].name == name);
    lemma_alias_name(stem, name, k);
    assert(alias_map(fs, stem).contains_key(k));
}

/// Re-indexing a path replaces the old file entirely: the index is the same
/// as if only the new file had been indexed there.
pub proof fn lemma_readd_replaces(
    v: IndexView,
    path: Seq<char>,
    old_file: OntologyFile,
    old_recorded: Option<Seq<char>>,
    old_stem: Option<Seq<char>>,
    new_file: OntologyFile,
    new_recorded: Option<Seq<char>>,
    new_stem: Option<Seq<char>>,
)
    requires
        view_wf(v),
    ensures
        after_add(after_add(v, path, old_file, old_recorded, old_stem), path, new_file, new_recorded, new_stem)
            == after_add(v, path, new_file, new_recorded, new_stem),
{
    lemma_remove_keeps_wf(v, path);
    let m = after_remove(v, path);
    let a = after_add(v, path, old_file, old_recorded, old_stem);
    assert(!m.order.contains(path));
    assert(a.files.contains_key(path));
    lemma_without_contains(m.order, path, path);
    assert(!m.order.contains(path));
    assert(a.order[a.order.len() - 1] == path);
    assert(a.order.no_duplicates()) by {
        lemma_add_keeps_wf(v, path, old_file, old_recorded, old_stem);
    }
    lemma_without_remove(a.order, path, a.order.len() - 1);
    assert(a.order.remove(a.order.len() - 1) =~= m.order);
    assert(a.files.remove(path) =~= m.files);
    let b = after_add(a, path, new_file, new_recorded, new_stem);
    let c = after_add(v, path, new_file, new_recorded, new_stem);
    assert(b.files =~= c.files);
    assert(b.order =~= c.order);
}

/// Indexing the same file twice under the same path gives the same index as
/// indexing it once.
pub proof fn lemma_readd_idempotent(
    v: IndexView,
    path: Seq<char>,
    f: OntologyFile,
    file: Option<Seq<char>>,
    stem: Option<Seq<char>>,
)
    requires
        view_wf(v),
    ensures
        after_add(after_add(v, path, f, file, stem), path, f, file, stem) == after_add(v, path, f, file, stem),
{
    lemma_readd_replaces(v, path, f, file, stem, f, file, stem);
}

/// Indexing a new path and then removing it gives back the index as it was.
pub proof fn lemma_add_then_remove(
    v: IndexView,
    path: Seq<char>,
    f: OntologyFile,
    file: Option<Seq<char>>,
    stem: Option<Seq<char>>,
)
    requires
        view_wf(v),
        !v.files.contains_key(path),
    ensures
        after_remove(after_add(v, path, f, file, stem), path) == v,
{
    let a = after_add(v, path, f, file, stem);
    assert(!v.order.contains(path));
    lemma_add_keeps_wf(v, path, f, file, stem);
    assert(a.order[a.order.len() - 1] == path);
    lemma_without_remove(a.order, path, a.order.len() - 1);
    assert(a.order.remove(a.order.len() - 1) =~= v.order);
    assert(a.files.remove(path) =~= v.files);
}

/// Building an index from one file is indexing that file, under the empty
/// path with no file recorded and without a stem, into an empty index.
pub proof fn lemma_from_file_is_add(f: OntologyFile)
    ensures
        single_file_index(f) == after_add(
            IndexView { files: Map::empty(), order: Seq::empty(), global: Map::empty() },
            Seq::empty(),
            f,
            None,
            None,
        ),
{
    let e = IndexView { files: Map::empty(), order: Seq::empty(), global: Map::empty() };
    let a = after_add(e, Seq::empty(), f, None, None);
    assert(a.files =~= single_file_index(f).files);
    assert(a.order =~= single_file_index(f).order);
    assert(merged(a.files, a.order.drop_last()) =~= Map::empty());
    assert(a.global =~= single_file_index(f).global);
}

} // verus!
