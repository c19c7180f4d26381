//! Symbol table of a single ontology file.

use vstd::prelude::*;
use crate::assoc::{
    assoc, has_key, insert_all, keys_distinct, lemma_assoc_empty, lemma_assoc_index, lemma_assoc_push,
    lemma_assoc_update,
};
use crate::ast::{OntologyFile, Span};
use crate::index::{concept_names_of, declared_symbol_list, file_symbol_map, symbol_views, view_pairs, KindView, SymbolView};
use crate::text::str_eq;

verus! {

/// What kind of entity a symbol stands for.
#[derive(Debug)]
pub enum SymbolKind {
    Concept,
    Property,
    Rule,
    Prefix,
    /// A named individual of a concept's `one of:` block.
    Individual { parent: String },
}

impl View for SymbolKind {
    type V = KindView;

    open spec fn view(&self) -> KindView {
        match self {
            SymbolKind::Concept => KindView::Concept,
            SymbolKind::Property => KindView::Property,
            SymbolKind::Rule => KindView::Rule,
            SymbolKind::Prefix => KindView::Prefix,
            SymbolKind::Individual { parent } => KindView::Individual(parent@),
        }
    }
}

impl PartialEq for SymbolKind {
    fn eq(&self, other: &Self) -> (r: bool) {
        match (self, other) {
            (SymbolKind::Concept, SymbolKind::Concept) => true,
            (SymbolKind::Property, SymbolKind::Property) => true,
            (SymbolKind::Rule, SymbolKind::Rule) => true,
            (SymbolKind::Prefix, SymbolKind::Prefix) => true,
            (SymbolKind::Individual { parent: a }, SymbolKind::Individual { parent: b }) => str_eq(
                a.as_str(),
                b.as_str(),
            ),
            _ => false,
        }
    }
}

impl Eq for SymbolKind {
}

impl vstd::std_specs::cmp::PartialEqSpecImpl for SymbolKind {
    open spec fn obeys_eq_spec() -> bool {
        true
    }

    open spec fn eq_spec(&self, other: &SymbolKind) -> bool {
        self@ == other@
    }
}

impl SymbolKind {
    /// Whether this is the kind of a concept.
    pub fn is_concept(&self) -> (r: bool)
        ensures
            r == (self@ == KindView::Concept),
    {
        match self {
            SymbolKind::Concept => true,
            _ => false,
        }
    }
}

/// A symbol with its definition site.
#[derive(Debug)]
pub struct Symbol {
    /// The name as written in source.
    pub name: String,
    pub kind: SymbolKind,
    /// Where the symbol is defined.
    pub definition_span: Option<Span>,
    /// A description for hover.
    pub detail: String,
}

impl View for Symbol {
    type V = SymbolView;

    /// A symbol of a table comes from no particular file.
    open spec fn view(&self) -> SymbolView {
        SymbolView {
            name: self.name@,
            kind: self.kind@,
            definition_span: self.definition_span,
            detail: self.detail@,
            file: None,
        }
    }
}

/// The views of a list of table symbols.
pub open spec fn table_views(s: Seq<Symbol>) -> Seq<SymbolView> {
    s.map_values(|x: Symbol| x@)
}

/// The symbols of a file by name, all of them visible in the file.
pub struct SymbolTable {
    symbols: Vec<Symbol>,
}

impl View for SymbolTable {
    type V = Map<Seq<char>, SymbolView>;

    closed spec fn view(&self) -> Map<Seq<char>, SymbolView> {
        assoc(view_pairs(table_views(self.symbols@)))
    }
}

fn find(list: &Vec<Symbol>, name: &str) -> (r: Option<usize>)
    ensures
        match r {
            Some(i) => i < list@.len() && list@[i as int].name@ == name@,
            None => !has_key(view_pairs(table_views(list@)), name@),
        },
{
    let mut i: usize = 0;
    while i < list.len()
        invariant
            i <= list@.len(),
            forall|j: int| 0 <= j < i ==> list@[j].name@ != name@,
        decreases list.len() - i,
    {
        if str_eq(list[i].name.as_str(), name) {
            return Some(i);
        }
        i = i + 1;
    }
    proof {
        let p = view_pairs(table_views(list@));
        assert forall|j: int| 0 <= j < p.len() implies p[j].0 != name@ by {
            assert(p[j].0 == list@[j].name@);
        }
    }
    None
}

fn from_index_kind(k: &crate::index::SymbolKind) -> (r: SymbolKind)
    ensures
        r@ == k@,
{
    match k {
        crate::index::SymbolKind::Concept => SymbolKind::Concept,
        crate::index::SymbolKind::Property => SymbolKind::Property,
        crate::index::SymbolKind::Rule => SymbolKind::Rule,
        crate::index::SymbolKind::Prefix => SymbolKind::Prefix,
        crate::index::SymbolKind::Individual { parent } => SymbolKind::Individual { parent: parent.clone() },
    }
}

impl SymbolTable {
    /// No two symbols share a name.
    pub closed spec fn wf(&self) -> bool {
        keys_distinct(view_pairs(table_views(self.symbols@)))
    }

    /// The symbol table of a file: its prefixes, then its concepts (with
    /// their individuals), properties and rules; a later declaration of a
    /// name replaces an earlier one.
    pub fn build(f: &OntologyFile) -> (r: SymbolTable)
        ensures
            r.wf(),
            r@ == file_symbol_map(*f, None),
    {
        let all = declared_symbol_list(f, None);
        let ghost q = view_pairs(symbol_views(all@));
        let mut symbols: Vec<Symbol> = Vec::new();
        proof {
            lemma_assoc_empty(view_pairs(table_views(symbols@)));
        }
        let mut i: usize = 0;
        while i < all.len()
            invariant
                i <= all@.len(),
                q == view_pairs(symbol_views(all@)),
                q == view_pairs(crate::index::declared_symbols(*f, None)),
                keys_distinct(view_pairs(table_views(symbols@))),
                assoc(view_pairs(table_views(symbols@))) == insert_all(Map::empty(), q.take(i as int)),
            decreases all.len() - i,
        {
            let src = &all[i];
            let sym = Symbol {
                name: src.name.clone(),
                kind: from_index_kind(&src.kind),
                definition_span: src.definition_span,
                detail: src.detail.clone(),
            };
            proof {
                assert(q[i as int] == (src@.name, src@));
                assert(src@.file == None::<Seq<char>>) by {
                    assert(crate::index::declared_symbols(*f, None)[i as int] == src@);
                    lemma_declared_file(*f, None, i as int);
                }
                assert(sym@ == src@);
                assert(q.take(i + 1).drop_last() =~= q.take(i as int));
                assert(q.take(i + 1).last() == q[i as int]);
            }
            let ghost p0 = view_pairs(table_views(symbols@));
            let ghost v = sym@;
            match find(&symbols, src.name.as_str()) {
                Some(j) => {
                    symbols.set(j, sym);
                    proof {
                        lemma_assoc_update(p0, j as int, v);
                        assert(view_pairs(table_views(symbols@)) =~= p0.update(j as int, (p0[j as int].0, v)));
                    }
                },
                None => {
                    symbols.push(sym);
                    proof {
                        lemma_assoc_push(p0, v.name, v);
                        assert(view_pairs(table_views(symbols@)) =~= p0.push((v.name, v)));
                    }
                },
            }
            i = i + 1;
        }
        assert(q.take(all@.len() as int) =~= q);
        SymbolTable { symbols }
    }

    /// Looks a symbol up by its source name.
    pub fn get(&self, name: &str) -> (r: Option<&Symbol>)
        requires
            self.wf(),
        ensures
            r is Some <==> self@.contains_key(name@),
            r matches Some(s) ==> s@ == self@[name@] && s@.name == name@,
    {
        match find(&self.symbols, name) {
            Some(i) => {
                proof {
                    let p = view_pairs(table_views(self.symbols@));
                    assert(p[i as int] == (self.symbols@[i as int].name@, self.symbols@[i as int]@));
                    lemma_assoc_index(p, i as int);
                }
                Some(&self.symbols[i])
            },
            None => None,
        }
    }

    /// All symbols, one per name.
    pub fn iter(&self) -> (r: &[Symbol])
        requires
            self.wf(),
        ensures
            keys_distinct(view_pairs(table_views(r@))),
            assoc(view_pairs(table_views(r@))) == self@,
            self@.dom().finite(),
            r@.len() == self@.dom().len(),
    {
        proof {
            crate::assoc::lemma_assoc_len(view_pairs(table_views(self.symbols@)));
        }
        self.symbols.as_slice()
    }

    /// The names of all concepts, each once.
    pub fn type_names(&self) -> (r: Vec<&str>)
        requires
            self.wf(),
        ensures
            concept_names_of(r@, self@),
    {
        let list = &self.symbols;
        let ghost sp = view_pairs(table_views(list@));
        let mut r: Vec<&str> = Vec::new();
        let ghost mut idx: Seq<int> = Seq::empty();
        let mut i: usize = 0;
        while i < list.len()
            invariant
                i <= list@.len(),
                sp == view_pairs(table_views(list@)),
                keys_distinct(sp),
                r@.len() == idx.len(),
                forall|a: int| 0 <= a < idx.len() ==> 0 <= #[trigger] idx[a] < i && r@[a]@ == list@[idx[a]].name@
                    && list@[idx[a]].kind@ == KindView::Concept,
                forall|a: int, b: int| 0 <= a < b < idx.len() ==> idx[a] < idx[b],
                forall|t: int| 0 <= t < i && list@[t].kind@ == KindView::Concept ==> exists|a: int| 0 <= a < idx.len() && #[trigger] idx[a] == t,
            decreases list.len() - i,
        {
            let ghost idx0 = idx;
            if list[i].kind.is_concept() {
                r.push(list[i].name.as_str());
                proof {
                    idx = idx.push(i as int);
                }
            }
            proof {
                assert forall|t: int| 0 <= t < i + 1 && list@[t].kind@ == KindView::Concept implies exists|a: int| 0 <= a < idx.len() && #[trigger] idx[a] == t by {
                    if t < i {
                        let a = choose|a: int| 0 <= a < idx0.len() && #[trigger] idx0[a] == t;
                        assert(idx[a] == t);
                    } else {
                        assert(idx[idx.len() - 1] == t);
                    }
                }
            }
            i = i + 1;
        }
        proof {
            let m = self@;
            assert forall|a: int, b: int| 0 <= a < r@.len() && 0 <= b < r@.len() && a != b implies r@[a]@ != r@[b]@ by {
                assert(sp[idx[a]].0 == list@[idx[a]].name@);
                assert(sp[idx[b]].0 == list@[idx[b]].name@);
                if a < b {
                    assert(idx[a] < idx[b]);
                } else {
                    assert(idx[b] < idx[a]);
                }
            }
            assert forall|a: int| 0 <= a < r@.len() implies m.contains_key(#[trigger] r@[a]@) && m[r@[a]@].kind == KindView::Concept by {
                assert(sp[idx[a]] == (list@[idx[a]].name@, list@[idx[a]]@));
                lemma_assoc_index(sp, idx[a]);
            }
            assert forall|k: Seq<char>| m.contains_key(k) && m[k].kind == KindView::Concept implies exists|a: int| 0 <= a < r@.len() && #[trigger] r@[a]@ == k by {
                let t = choose|t: int| 0 <= t < sp.len() && sp[t].0 == k;
                assert(sp[t] == (list@[t].name@, list@[t]@));
                lemma_assoc_index(sp, t);
                let a = choose|a: int| 0 <= a < idx.len() && #[trigger] idx[a] == t;
                assert(r@[a]@ == k);
            }
        }
        r
    }

    /// Whether `name` is a declared type, that is a concept.
    pub fn is_declared_type(&self, name: &str) -> (r: bool)
        requires
            self.wf(),
        ensures
            r == (self@.contains_key(name@) && self@[name@].kind == KindView::Concept),
    {
        match self.get(name) {
            Some(s) => s.kind.is_concept(),
            None => false,
        }
    }
}

impl Default for SymbolTable {
    /// An empty table.
    fn default() -> (r: SymbolTable)
        ensures
            r.wf(),
            r@ == Map::<Seq<char>, SymbolView>::empty(),
    {
        let r = SymbolTable { symbols: Vec::new() };
        proof {
            lemma_assoc_empty(view_pairs(table_views(r.symbols@)));
        }
        r
    }
}

/// Every symbol a file declares carries the file it was declared with.
proof fn lemma_declared_file(f: OntologyFile, file: Option<Seq<char>>, i: int)
    requires
        0 <= i < crate::index::declared_symbols(f, file).len(),
    ensures
        crate::index::declared_symbols(f, file)[i].file == file,
{
    let ps = f.prefixes@.map_values(|p: crate::ast::PrefixDecl| crate::index::prefix_symbol(p, file));
    let ds = f.declarations@.map_values(|d: crate::ast::Declaration| crate::index::declaration_symbols(d, file));
    if i < ps.len() {
    } else {
        lemma_concat_file(ds, file, i - ps.len());
    }
}

proof fn lemma_concat_file(ds: Seq<Seq<SymbolView>>, file: Option<Seq<char>>, i: int)
    requires
        forall|j: int, k: int| 0 <= j < ds.len() && 0 <= k < ds[j].len() ==> (#[trigger] ds[j][k]).file == file,
        0 <= i < crate::assoc::concat(ds).len(),
    ensures
        crate::assoc::concat(ds)[i].file == file,
    decreases ds.len(),
{
    let p = ds.drop_last();
    let c = crate::assoc::concat(p);
    if i < c.len() {
        lemma_concat_file(p, file, i);
    } else {
        assert(ds.last()[i - c.len()] == ds[ds.len() - 1][i - c.len()]);
    }
}


/// The symbols of a table are keyed by their names.
pub proof fn lemma_table_keyed(t: SymbolTable)
    requires
        t.wf(),
    ensures
        crate::index::keyed_by_name(t@),
        t@.dom().finite(),
{
    let p = view_pairs(table_views(t.symbols@));
    let keys = p.map_values(|e: (Seq<char>, SymbolView)| e.0).to_set();
    assert forall|k: Seq<char>| t@.dom().contains(k) implies keys.contains(k) by {
        let j = choose|j: int| 0 <= j < p.len() && p[j].0 == k;
        assert(p.map_values(|e: (Seq<char>, SymbolView)| e.0)[j] == k);
    }
    vstd::seq_lib::seq_to_set_is_finite(p.map_values(|e: (Seq<char>, SymbolView)| e.0));
    vstd::set_lib::lemma_set_subset_finite(keys, t@.dom());
    assert forall|k: Seq<char>| #[trigger] t@.contains_key(k) implies t@[k].name == k by {
        let j = choose|j: int| 0 <= j < p.len() && p[j].0 == k;
        lemma_assoc_index(p, j);
        assert(p[j] == (t.symbols@[j].name@, t.symbols@[j]@));
    }
}
} // verus!
