//! Completion candidates: the keywords and the symbols of a table that
//! begin with the word being typed, sorted by label.

use vstd::prelude::*;
use vstd::multiset::Multiset;
use crate::index::{view_pairs, KindView, SymbolView};
use crate::symbols::{table_views, SymbolKind, SymbolTable};
use crate::text::{lemma_text_lt_irreflexive, lemma_text_lt_transitive, starts_with, text_less, text_lt};
use crate::assoc::{keys_distinct, lemma_assoc_index};

verus! {

/// A completion candidate.
#[derive(Debug)]
pub struct CompletionItem {
    pub label: String,
    pub kind: CompletionKind,
    pub detail: Option<String>,
}

/// The kind of a completion candidate, as the language server protocol
/// names it.
#[derive(Clone, Copy, Debug, PartialEq, Eq, Structural)]
pub enum CompletionKind {
    Keyword,
    Class,
    Interface,
    Individual,
    Function,
    Module,
}

/// A completion candidate as a mathematical value.
pub struct ItemView {
    pub label: Seq<char>,
    pub kind: CompletionKind,
    pub detail: Option<Seq<char>>,
}

impl View for CompletionItem {
    type V = ItemView;

    open spec fn view(&self) -> ItemView {
        ItemView {
            label: self.label@,
            kind: self.kind,
            detail: match self.detail {
                Some(d) => Some(d@),
                None => None,
            },
        }
    }
}

impl Clone for CompletionItem {
    fn clone(&self) -> (r: Self)
        ensures
            r@ == self@,
    {
        CompletionItem {
            label: self.label.clone(),
            kind: self.kind,
            detail: match &self.detail {
                Some(d) => Some(d.clone()),
                None => None,
            },
        }
    }
}

/// The views of a list of candidates.
pub open spec fn item_views(s: Seq<CompletionItem>) -> Seq<ItemView> {
    s.map_values(|x: CompletionItem| x@)
}

/// The keywords of the language, in order.
pub open spec fn keyword_list() -> Seq<Seq<char>> {
    seq![
        "concept"@, "property"@, "rule"@, "prefix"@,
        "sub"@, "has"@, "match"@, "then"@,
        "one"@, "any"@, "some"@, "optional"@,
        "string"@, "int"@, "float"@, "boolean"@,
        "all"@, "none"@, "at_least"@, "at_most"@, "exactly"@, "between"@,
    ]
}

fn keywords() -> (r: Vec<&'static str>)
    ensures
        r@.map_values(|s: &str| s@) == keyword_list(),
{
    let r = vec![
        "concept", "property", "rule", "prefix",
        "sub", "has", "match", "then",
        "one", "any", "some", "optional",
        "string", "int", "float", "boolean",
        "all", "none", "at_least", "at_most", "exactly", "between",
    ];
    assert(r@.map_values(|s: &str| s@) =~= keyword_list());
    r
}

/// Whether `s` begins with `p`.
pub open spec fn begins_with(s: Seq<char>, p: Seq<char>) -> bool {
    p.len() <= s.len() && s.subrange(0, p.len() as int) == p
}

/// The completion kind of a symbol kind.
pub open spec fn completion_kind(k: KindView) -> CompletionKind {
    match k {
        KindView::Concept => CompletionKind::Class,
        KindView::Property => CompletionKind::Function,
        KindView::Individual(_) => CompletionKind::Individual,
        KindView::Rule => CompletionKind::Interface,
        KindView::Prefix => CompletionKind::Module,
    }
}

/// The completion kind of a symbol kind.
pub fn symbol_completion_kind(kind: &SymbolKind) -> (r: CompletionKind)
    ensures
        r == completion_kind(kind@),
{
    match kind {
        SymbolKind::Concept => CompletionKind::Class,
        SymbolKind::Property => CompletionKind::Function,
        SymbolKind::Individual { .. } => CompletionKind::Individual,
        SymbolKind::Rule => CompletionKind::Interface,
        SymbolKind::Prefix => CompletionKind::Module,
    }
}

/// The keyword candidates for `prefix`: the keywords that begin with it,
/// in order.
pub open spec fn keyword_items(kws: Seq<Seq<char>>, prefix: Seq<char>) -> Seq<ItemView>
    decreases kws.len(),
{
    if kws.len() == 0 {
        Seq::empty()
    } else if begins_with(kws.last(), prefix) {
        keyword_items(kws.drop_last(), prefix).push(
            ItemView { label: kws.last(), kind: CompletionKind::Keyword, detail: None },
        )
    } else {
        keyword_items(kws.drop_last(), prefix)
    }
}

/// The candidate of a symbol.
pub open spec fn symbol_item(s: SymbolView) -> ItemView {
    ItemView { label: s.name, kind: completion_kind(s.kind), detail: Some(s.detail) }
}

/// The symbol candidates for `prefix`: one for each symbol of the table
/// whose name begins with it.
pub open spec fn symbol_items(table: Map<Seq<char>, SymbolView>, prefix: Seq<char>) -> Set<ItemView> {
    Set::new(
        |it: ItemView|
            exists|k: Seq<char>| table.contains_key(k) && begins_with(k, prefix) && it == symbol_item(#[trigger] table[k]),
    )
}

/// All candidates for `prefix`, counted with multiplicity.
pub open spec fn candidates(table: Map<Seq<char>, SymbolView>, prefix: Seq<char>) -> Multiset<ItemView> {
    keyword_items(keyword_list(), prefix).to_multiset().add(Multiset::from_set(symbol_items(table, prefix)))
}

/// No candidate has a label that sorts before the label of an earlier one.
pub open spec fn sorted_by_label(s: Seq<ItemView>) -> bool {
    forall|i: int, j: int| 0 <= i < j < s.len() ==> !text_lt(#[trigger] s[j].label, #[trigger] s[i].label)
}

/// A sequence without repeats holds each of its elements once.
proof fn lemma_no_duplicates_multiset<A>(s: Seq<A>)
    requires
        s.no_duplicates(),
    ensures
        s.to_set().finite(),
        s.to_multiset() == Multiset::from_set(s.to_set()),
{
    broadcast use vstd::seq_lib::group_to_multiset_ensures, vstd::multiset::group_multiset_axioms;
    vstd::seq_lib::seq_to_set_is_finite(s);
    s.lemma_multiset_has_no_duplicates();
    let m = Map::new(|k: A| s.to_set().contains(k), |v: A| 1nat);
    assert(m.dom() =~= s.to_set());
    assert forall|x: A| s.to_multiset().count(x) == Multiset::from_set(s.to_set()).count(x) by {
        vstd::seq_lib::to_multiset_contains(s, x);
    }
    assert(s.to_multiset() =~= Multiset::from_set(s.to_set()));
}

/// Every keyword candidate comes before every other candidate.
pub open spec fn keywords_lead(s: Seq<ItemView>) -> bool {
    forall|i: int, j: int|
        #![trigger s[i], s[j]]
        0 <= i < j < s.len() && s[j].kind == CompletionKind::Keyword ==> s[i].kind == CompletionKind::Keyword
}

/// Among candidates with the same label, a keyword is never preceded by
/// another kind of candidate.
pub open spec fn keywords_first(s: Seq<ItemView>) -> bool {
    forall|i: int, j: int|
        #![trigger s[i], s[j]]
        0 <= i < j < s.len() && s[i].label == s[j].label && s[j].kind == CompletionKind::Keyword ==> s[i].kind
            == CompletionKind::Keyword
}

/// Sorts candidates by label, keeping the order of equal labels.
fn sort_by_label(items: Vec<CompletionItem>) -> (r: Vec<CompletionItem>)
    requires
        keywords_lead(item_views(items@)),
    ensures
        sorted_by_label(item_views(r@)),
        keywords_first(item_views(r@)),
        item_views(r@).to_multiset() == item_views(items@).to_multiset(),
{
    broadcast use vstd::seq_lib::group_to_multiset_ensures, vstd::multiset::group_multiset_axioms;
    let mut items = items;
    let ghost src = item_views(items@);
    let mut r: Vec<CompletionItem> = Vec::new();
    let mut rest: Vec<CompletionItem> = Vec::new();
    // Take the items from the back, so that `rest` holds them in reverse
    // order and pops them in order.
    while items.len() > 0
        invariant
            item_views(items@) + item_views(rest@).reverse() == src,
        decreases items.len(),
    {
        let ghost b = item_views(items@);
        let ghost rb = item_views(rest@);
        let it = items.pop().unwrap();
        rest.push(it);
        proof {
            assert(item_views(items@) =~= b.drop_last());
            assert(item_views(rest@) =~= rb.push(b.last()));
            assert(item_views(rest@).reverse() =~= seq![b.last()] + rb.reverse());
            assert(item_views(items@) + item_views(rest@).reverse() =~= src);
        }
    }
    assert(item_views(items@) =~= Seq::<ItemView>::empty());
    assert(item_views(rest@).reverse() =~= src);
    let ghost all = item_views(rest@);
    proof {
        all.lemma_reverse_to_multiset();
        assert forall|x: int, y: int|
            0 <= x < y < all.len() && all[x].kind == CompletionKind::Keyword implies all[y].kind
                == CompletionKind::Keyword by {
            assert(all[x] == src[all.len() - 1 - x]);
            assert(all[y] == src[all.len() - 1 - y]);
        }
    }
    while rest.len() > 0
        invariant
            all.reverse() == src,
            all.reverse().to_multiset() == src.to_multiset(),
            item_views(r@) .to_multiset().add(item_views(rest@).to_multiset()) == all.to_multiset(),
            sorted_by_label(item_views(r@)),
            keywords_first(item_views(r@)),
            forall|x: int, y: int|
                0 <= x < y < item_views(rest@).len() && (#[trigger] item_views(rest@)[x]).kind
                    == CompletionKind::Keyword ==> (#[trigger] item_views(rest@)[y]).kind == CompletionKind::Keyword,
            forall|a: int, b: int|
                0 <= a < item_views(r@).len() && 0 <= b < item_views(rest@).len() && (#[trigger] item_views(
                    rest@,
                )[b]).kind == CompletionKind::Keyword ==> (#[trigger] item_views(r@)[a]).kind
                    == CompletionKind::Keyword,
        decreases rest.len(),
    {
        let ghost rb = item_views(rest@);
        let ghost r0 = item_views(r@);
        let it = rest.pop().unwrap();
        let mut pos: usize = 0;
        while pos < r.len() && !text_less(it.label.as_str(), r[pos].label.as_str())
            invariant
                pos <= r@.len(),
                forall|k: int| 0 <= k < pos ==> !text_lt(it@.label, #[trigger] item_views(r@)[k].label),
            decreases r.len() - pos,
        {
            pos = pos + 1;
        }
        let ghost iv = it@;
        r.insert(pos, it);
        proof {
            assert(item_views(rest@) =~= rb.drop_last());
            assert(rb =~= rb.drop_last().push(iv));
            assert(item_views(r@) =~= r0.insert(pos as int, iv));
            vstd::seq_lib::to_multiset_insert(r0, pos as int, iv);
            vstd::seq_lib::to_multiset_build(rb.drop_last(), iv);
            assert(item_views(r@).to_multiset().add(item_views(rest@).to_multiset()) =~= all.to_multiset());
            let nv = item_views(r@);
            let nr = item_views(rest@);
            assert(rb[rb.len() - 1] == iv);
            // `iv` goes after every candidate with its label.
            assert forall|k: int| pos <= k < r0.len() implies r0[k].label != iv.label by {
                assert(text_lt(iv.label, r0[pos as int].label));
                if r0[k].label == iv.label {
                    if k == pos {
                        lemma_text_lt_irreflexive(iv.label);
                    } else {
                        assert(!text_lt(r0[k].label, r0[pos as int].label));
                    }
                }
            }
            assert forall|i: int, j: int| 0 <= i < j < nv.len() implies !text_lt(#[trigger] nv[j].label, #[trigger] nv[i].label) by {
                if j < pos {
                    assert(nv[i] == r0[i] && nv[j] == r0[j]);
                } else if j == pos {
                    assert(nv[i] == r0[i]);
                } else if i < pos {
                    assert(nv[i] == r0[i] && nv[j] == r0[j - 1]);
                } else if i == pos {
                    // `iv` sorts before `r0[pos]`, which is not after `r0[j - 1]`.
                    assert(nv[j] == r0[j - 1]);
                    assert(pos < r0.len());
                    assert(text_lt(iv.label, r0[pos as int].label));
                    if text_lt(r0[j - 1].label, iv.label) {
                        lemma_text_lt_transitive(r0[j - 1].label, iv.label, r0[pos as int].label);
                        if j - 1 > pos {
                        } else {
                            lemma_text_lt_irreflexive(r0[pos as int].label);
                        }
                    }
                } else {
                    assert(nv[i] == r0[i - 1] && nv[j] == r0[j - 1]);
                }
            }
            assert forall|i: int, j: int|
                #![trigger nv[i], nv[j]]
                0 <= i < j < nv.len() && nv[i].label == nv[j].label && nv[j].kind == CompletionKind::Keyword implies nv[i].kind
                    == CompletionKind::Keyword by {
                if j < pos {
                    assert(nv[i] == r0[i] && nv[j] == r0[j]);
                } else if j == pos {
                    assert(nv[i] == r0[i]);
                    assert(rb[rb.len() - 1].kind == CompletionKind::Keyword);
                } else if i < pos {
                    assert(nv[i] == r0[i] && nv[j] == r0[j - 1]);
                } else if i == pos {
                    assert(nv[j] == r0[j - 1]);
                } else {
                    assert(nv[i] == r0[i - 1] && nv[j] == r0[j - 1]);
                }
            }
            assert forall|x: int, y: int|
                0 <= x < y < nr.len() && (#[trigger] nr[x]).kind == CompletionKind::Keyword implies (#[trigger] nr[y]).kind
                    == CompletionKind::Keyword by {
                assert(nr[x] == rb[x] && nr[y] == rb[y]);
            }
            assert forall|a: int, b: int|
                0 <= a < nv.len() && 0 <= b < nr.len() && (#[trigger] nr[b]).kind == CompletionKind::Keyword implies (#[trigger] nv[a]).kind
                    == CompletionKind::Keyword by {
                assert(nr[b] == rb[b]);
                if a < pos {
                    assert(nv[a] == r0[a]);
                } else if a == pos {
                    assert(rb[rb.len() - 1] == iv);
                } else {
                    assert(nv[a] == r0[a - 1]);
                }
            }
        }
    }
    proof {
        assert(item_views(rest@) =~= Seq::<ItemView>::empty());
        assert(item_views(r@).to_multiset().add(Multiset::empty()) =~= item_views(r@).to_multiset());
    }
    r
}

/// The candidates of the symbols of a list whose names begin with `prefix`,
/// in order.
pub open spec fn symbol_item_seq(s: Seq<SymbolView>, prefix: Seq<char>) -> Seq<ItemView>
    decreases s.len(),
{
    if s.len() == 0 {
        Seq::empty()
    } else if begins_with(s.last().name, prefix) {
        symbol_item_seq(s.drop_last(), prefix).push(symbol_item(s.last()))
    } else {
        symbol_item_seq(s.drop_last(), prefix)
    }
}

proof fn lemma_symbol_item_seq_member(s: Seq<SymbolView>, prefix: Seq<char>, it: ItemView)
    ensures
        symbol_item_seq(s, prefix).contains(it) <==> exists|t: int|
            0 <= t < s.len() && begins_with(s[t].name, prefix) && it == symbol_item(#[trigger] s[t]),
    decreases s.len(),
{
    if s.len() > 0 {
        let p = s.drop_last();
        lemma_symbol_item_seq_member(p, prefix, it);
        let q = symbol_item_seq(p, prefix);
        if symbol_item_seq(s, prefix).contains(it) {
            if q.contains(it) {
                let t = choose|t: int| 0 <= t < p.len() && begins_with(p[t].name, prefix) && it == symbol_item(#[trigger] p[t]);
                assert(s[t] == p[t]);
            } else {
                assert(begins_with(s.last().name, prefix));
                let a = choose|a: int| 0 <= a < q.push(symbol_item(s.last())).len() && q.push(symbol_item(s.last()))[a] == it;
                if a < q.len() {
                    assert(q[a] == it);
                }
                assert(it == symbol_item(s[s.len() - 1]));
            }
        }
        if exists|t: int| 0 <= t < s.len() && begins_with(s[t].name, prefix) && it == symbol_item(#[trigger] s[t]) {
            let t = choose|t: int| 0 <= t < s.len() && begins_with(s[t].name, prefix) && it == symbol_item(#[trigger] s[t]);
            if t < p.len() {
                assert(p[t] == s[t]);
                let a = choose|a: int| 0 <= a < q.len() && q[a] == it;
                if begins_with(s.last().name, prefix) {
                    assert(q.push(symbol_item(s.last()))[a] == it);
                }
            } else {
                let r = q.push(symbol_item(s.last()));
                assert(r[q.len() as int] == it);
            }
        }
    }
}

proof fn lemma_symbol_item_seq_distinct(s: Seq<SymbolView>, prefix: Seq<char>)
    requires
        keys_distinct(view_pairs(s)),
    ensures
        symbol_item_seq(s, prefix).no_duplicates(),
    decreases s.len(),
{
    if s.len() > 0 {
        let p = s.drop_last();
        assert(view_pairs(p) =~= view_pairs(s).drop_last());
        lemma_symbol_item_seq_distinct(p, prefix);
        let q = symbol_item_seq(p, prefix);
        if begins_with(s.last().name, prefix) {
            let x = symbol_item(s.last());
            lemma_symbol_item_seq_member(p, prefix, x);
            if q.contains(x) {
                let t = choose|t: int| 0 <= t < p.len() && begins_with(p[t].name, prefix) && x == symbol_item(#[trigger] p[t]);
                assert(view_pairs(s)[t].0 == view_pairs(s)[s.len() - 1].0);
            }
            let r = q.push(x);
            assert forall|i: int, j: int| 0 <= i < r.len() && 0 <= j < r.len() && i != j implies r[i] != r[j] by {
                if i < q.len() && j < q.len() {
                    assert(r[i] == q[i] && r[j] == q[j]);
                } else if i < q.len() {
                    assert(r[i] == q[i]);
                } else {
                    assert(r[j] == q[j]);
                }
            }
        }
    }
}

proof fn lemma_keyword_items_kind(kws: Seq<Seq<char>>, prefix: Seq<char>)
    ensures
        forall|i: int|
            0 <= i < keyword_items(kws, prefix).len() ==> (#[trigger] keyword_items(kws, prefix)[i]).kind
                == CompletionKind::Keyword,
    decreases kws.len(),
{
    if kws.len() > 0 {
        lemma_keyword_items_kind(kws.drop_last(), prefix);
    }
}

proof fn lemma_symbol_items_kind(s: Seq<SymbolView>, prefix: Seq<char>)
    ensures
        forall|i: int|
            0 <= i < symbol_item_seq(s, prefix).len() ==> (#[trigger] symbol_item_seq(s, prefix)[i]).kind
                != CompletionKind::Keyword,
    decreases s.len(),
{
    if s.len() > 0 {
        lemma_symbol_items_kind(s.drop_last(), prefix);
    }
}

/// The completion candidates for `prefix` (possibly empty, which matches
/// everything): the keywords and the table's symbols whose names begin with
/// it, sorted by label, a keyword before a symbol of the same name.
pub fn completions_at(table: &SymbolTable, prefix: &str) -> (r: Vec<CompletionItem>)
    requires
        table.wf(),
    ensures
        sorted_by_label(item_views(r@)),
        keywords_first(item_views(r@)),
        item_views(r@).to_multiset() == candidates(table@, prefix@),
{
    broadcast use vstd::seq_lib::group_to_multiset_ensures, vstd::multiset::group_multiset_axioms;
    let kws = keywords();
    let ghost kl = keyword_list();
    let mut items: Vec<CompletionItem> = Vec::new();
    let mut i: usize = 0;
    while i < kws.len()
        invariant
            i <= kws@.len(),
            kws@.map_values(|s: &str| s@) == kl,
            kl == keyword_list(),
            item_views(items@) == keyword_items(kl.take(i as int), prefix@),
        decreases kws.len() - i,
    {
        proof {
            assert(kl.take(i + 1).drop_last() =~= kl.take(i as int));
            assert(kl.take(i + 1).last() == kws@[i as int]@);
        }
        let ghost b = item_views(items@);
        if starts_with(kws[i], prefix) {
            let it = CompletionItem { label: kws[i].to_owned(), kind: CompletionKind::Keyword, detail: None };
            items.push(it);
            assert(item_views(items@) =~= b.push(it@));
        }
        i = i + 1;
    }
    assert(kl.take(kws@.len() as int) =~= kl);
    let ghost kv = item_views(items@);
    let syms = table.iter();
    let ghost sv = table_views(syms@);
    let mut j: usize = 0;
    while j < syms.len()
        invariant
            j <= syms@.len(),
            sv == table_views(syms@),
            item_views(items@) == kv + symbol_item_seq(sv.take(j as int), prefix@),
        decreases syms.len() - j,
    {
        proof {
            assert(sv.take(j + 1).drop_last() =~= sv.take(j as int));
            assert(sv.take(j + 1).last() == syms@[j as int]@);
        }
        let ghost b = item_views(items@);
        let s = &syms[j];
        if starts_with(s.name.as_str(), prefix) {
            let it = CompletionItem {
                label: s.name.clone(),
                kind: symbol_completion_kind(&s.kind),
                detail: Some(s.detail.clone()),
            };
            items.push(it);
            assert(item_views(items@) =~= b.push(it@));
        }
        j = j + 1;
    }
    proof {
        assert(sv.take(syms@.len() as int) =~= sv);
        let ss = symbol_item_seq(sv, prefix@);
        lemma_symbol_item_seq_distinct(sv, prefix@);
        lemma_no_duplicates_multiset(ss);
        assert forall|it: ItemView| ss.to_set().contains(it) <==> symbol_items(table@, prefix@).contains(it) by {
            lemma_symbol_item_seq_member(sv, prefix@, it);
            let pairs = view_pairs(sv);
            if ss.contains(it) {
                let t = choose|t: int| 0 <= t < sv.len() && begins_with(sv[t].name, prefix@) && it == symbol_item(#[trigger] sv[t]);
                assert(pairs[t] == (sv[t].name, sv[t]));
                lemma_assoc_index(pairs, t);
                assert(table@.contains_key(sv[t].name) && table@[sv[t].name] == sv[t]);
            }
            if symbol_items(table@, prefix@).contains(it) {
                let k = choose|k: Seq<char>| table@.contains_key(k) && begins_with(k, prefix@) && it == symbol_item(#[trigger] table@[k]);
                let t = choose|t: int| 0 <= t < pairs.len() && pairs[t].0 == k;
                lemma_assoc_index(pairs, t);
                assert(sv[t].name == k);
            }
        }
        assert(ss.to_set() =~= symbol_items(table@, prefix@));
        vstd::seq_lib::lemma_multiset_commutative(kv, ss);
        lemma_keyword_items_kind(kl, prefix@);
        lemma_symbol_items_kind(sv, prefix@);
        let all = item_views(items@);
        assert forall|i: int, j: int|
            #![trigger all[i], all[j]]
            0 <= i < j < all.len() && all[j].kind == CompletionKind::Keyword implies all[i].kind
                == CompletionKind::Keyword by {
            if j >= kv.len() {
                assert(all[j] == ss[j - kv.len()]);
            } else {
                assert(all[i] == kv[i]);
            }
        }
    }
    sort_by_label(items)
}


// ── Laws ─────────────────────────────────────────────────────────────────────

/// A finite set as a multiset holds each of its elements once.
proof fn lemma_from_set_count<A>(s: Set<A>, x: A)
    requires
        s.finite(),
    ensures
        Multiset::from_set(s).count(x) == (if s.contains(x) { 1nat } else { 0nat }),
{
    broadcast use vstd::multiset::group_multiset_axioms;
    let m = Map::new(|k: A| s.contains(k), |v: A| 1nat);
    assert(m.dom() =~= s);
}

/// The empty prefix begins every word.
pub proof fn lemma_begins_with_empty(s: Seq<char>)
    ensures
        begins_with(s, Seq::empty()),
{
    assert(s.subrange(0, 0) =~= Seq::<char>::empty());
}

proof fn lemma_keyword_items_member(kws: Seq<Seq<char>>, prefix: Seq<char>, it: ItemView)
    ensures
        keyword_items(kws, prefix).contains(it) <==> exists|i: int|
            0 <= i < kws.len() && begins_with(kws[i], prefix) && it == (ItemView {
                label: #[trigger] kws[i],
                kind: CompletionKind::Keyword,
                detail: None,
            }),
    decreases kws.len(),
{
    if kws.len() > 0 {
        let p = kws.drop_last();
        lemma_keyword_items_member(p, prefix, it);
        let q = keyword_items(p, prefix);
        let x = ItemView { label: kws.last(), kind: CompletionKind::Keyword, detail: None };
        if keyword_items(kws, prefix).contains(it) {
            if !q.contains(it) {
                let a = choose|a: int| 0 <= a < keyword_items(kws, prefix).len() && keyword_items(kws, prefix)[a] == it;
                assert(begins_with(kws.last(), prefix));
                assert(keyword_items(kws, prefix) == q.push(x));
                if a < q.len() {
                    assert(q[a] == it);
                }
                assert(kws[kws.len() - 1] == kws.last());
            } else {
                let i = choose|i: int|
                    0 <= i < p.len() && begins_with(p[i], prefix) && it == (ItemView {
                        label: #[trigger] p[i],
                        kind: CompletionKind::Keyword,
                        detail: None,
                    });
                assert(kws[i] == p[i]);
            }
        }
        if exists|i: int|
            0 <= i < kws.len() && begins_with(kws[i], prefix) && it == (ItemView {
                label: #[trigger] kws[i],
                kind: CompletionKind::Keyword,
                detail: None,
            }) {
            let i = choose|i: int|
                0 <= i < kws.len() && begins_with(kws[i], prefix) && it == (ItemView {
                    label: #[trigger] kws[i],
                    kind: CompletionKind::Keyword,
                    detail: None,
                });
            if i < p.len() {
                assert(p[i] == kws[i]);
                let a = choose|a: int| 0 <= a < q.len() && q[a] == it;
                if begins_with(kws.last(), prefix) {
                    assert(q.push(x)[a] == it);
                }
            } else {
                assert(q.push(x)[q.len() as int] == it);
            }
        }
    }
}

/// The candidates for a prefix are exactly the keywords and the symbols
/// whose names begin with it: every candidate's label begins with the
/// prefix, and each such keyword and symbol is offered.
pub proof fn lemma_candidates_match_prefix(table: Map<Seq<char>, SymbolView>, prefix: Seq<char>, it: ItemView)
    requires
        crate::index::keyed_by_name(table),
        table.dom().finite(),
    ensures
        candidates(table, prefix).count(it) > 0 ==> begins_with(it.label, prefix),
        (it.kind == CompletionKind::Keyword && it.detail is None && keyword_list().contains(it.label) && begins_with(
            it.label,
            prefix,
        )) ==> candidates(table, prefix).count(it) > 0,
        (table.contains_key(it.label) && begins_with(it.label, prefix) && it == symbol_item(table[it.label]))
            ==> candidates(table, prefix).count(it) > 0,
{
    broadcast use vstd::seq_lib::group_to_multiset_ensures, vstd::multiset::group_multiset_axioms;
    let kw = keyword_items(keyword_list(), prefix);
    let sy = symbol_items(table, prefix);
    lemma_keyword_items_member(keyword_list(), prefix, it);
    assert(sy.finite()) by {
        let f = |k: Seq<char>| symbol_item(table[k]);
        assert(sy.subset_of(table.dom().map(f)));
        table.dom().lemma_map_finite(f);
        vstd::set_lib::lemma_set_subset_finite(table.dom().map(f), sy);
    }
    lemma_from_set_count(sy, it);
    if candidates(table, prefix).count(it) > 0 {
        if kw.to_multiset().count(it) > 0 {
            let i = choose|i: int|
                0 <= i < keyword_list().len() && begins_with(keyword_list()[i], prefix) && it == (ItemView {
                    label: #[trigger] keyword_list()[i],
                    kind: CompletionKind::Keyword,
                    detail: None,
                });
        } else {
            assert(sy.contains(it));
            let k = choose|k: Seq<char>| table.contains_key(k) && begins_with(k, prefix) && it == symbol_item(#[trigger] table[k]);
            assert(table[k].name == k);
        }
    }
    if it.kind == CompletionKind::Keyword && it.detail is None && keyword_list().contains(it.label) && begins_with(
        it.label,
        prefix,
    ) {
        let i = choose|i: int| 0 <= i < keyword_list().len() && keyword_list()[i] == it.label;
        assert(it == (ItemView { label: keyword_list()[i], kind: CompletionKind::Keyword, detail: None }));
        assert(kw.contains(it));
    }
    if table.contains_key(it.label) && begins_with(it.label, prefix) && it == symbol_item(table[it.label]) {
        assert(sy.contains(it));
    }
}

/// With an empty prefix every keyword and every symbol of the table is
/// offered.
pub proof fn lemma_empty_prefix_offers_all(table: Map<Seq<char>, SymbolView>, i: int, name: Seq<char>)
    requires
        crate::index::keyed_by_name(table),
        table.dom().finite(),
    ensures
        0 <= i < keyword_list().len() ==> candidates(table, Seq::empty()).count(
            ItemView { label: keyword_list()[i], kind: CompletionKind::Keyword, detail: None },
        ) > 0,
        table.contains_key(name) ==> candidates(table, Seq::empty()).count(symbol_item(table[name])) > 0,
{
    if 0 <= i < keyword_list().len() {
        let it = ItemView { label: keyword_list()[i], kind: CompletionKind::Keyword, detail: None };
        lemma_begins_with_empty(it.label);
        assert(keyword_list().contains(it.label));
        lemma_candidates_match_prefix(table, Seq::empty(), it);
    }
    if table.contains_key(name) {
        let it = symbol_item(table[name]);
        lemma_begins_with_empty(name);
        assert(it.label == name);
        lemma_candidates_match_prefix(table, Seq::empty(), it);
    }
}

/// A prefix of a prefix of a word is a prefix of the word.
proof fn lemma_begins_with_trans(s: Seq<char>, p2: Seq<char>, p1: Seq<char>)
    requires
        begins_with(s, p2),
        begins_with(p2, p1),
    ensures
        begins_with(s, p1),
{
    assert(s.subrange(0, p1.len() as int) =~= p2.subrange(0, p1.len() as int));
}

proof fn lemma_keyword_items_shrink(kws: Seq<Seq<char>>, p2: Seq<char>, p1: Seq<char>)
    requires
        begins_with(p2, p1),
    ensures
        keyword_items(kws, p2).to_multiset().subset_of(keyword_items(kws, p1).to_multiset()),
    decreases kws.len(),
{
    broadcast use vstd::seq_lib::group_to_multiset_ensures, vstd::multiset::group_multiset_axioms;
    if kws.len() == 0 {
        assert(keyword_items(kws, p2).to_multiset() =~= Multiset::empty());
    } else {
        let p = kws.drop_last();
        lemma_keyword_items_shrink(p, p2, p1);
        if begins_with(kws.last(), p2) {
            lemma_begins_with_trans(kws.last(), p2, p1);
        }
    }
}

/// Typing more never adds candidates: the candidates for a longer prefix
/// are among those for a shorter one.
pub proof fn lemma_longer_prefix_fewer_candidates(
    table: Map<Seq<char>, SymbolView>,
    shorter: Seq<char>,
    longer: Seq<char>,
)
    requires
        table.dom().finite(),
        begins_with(longer, shorter),
    ensures
        candidates(table, longer).subset_of(candidates(table, shorter)),
{
    broadcast use vstd::seq_lib::group_to_multiset_ensures, vstd::multiset::group_multiset_axioms;
    lemma_keyword_items_shrink(keyword_list(), longer, shorter);
    let s2 = symbol_items(table, longer);
    let s1 = symbol_items(table, shorter);
    lemma_symbol_items_finite(table, longer);
    lemma_symbol_items_finite(table, shorter);
    assert forall|it: ItemView| candidates(table, longer).count(it) <= candidates(table, shorter).count(it) by {
        lemma_from_set_count(s2, it);
        lemma_from_set_count(s1, it);
        if s2.contains(it) {
            let k = choose|k: Seq<char>| table.contains_key(k) && begins_with(k, longer) && it == symbol_item(#[trigger] table[k]);
            lemma_begins_with_trans(k, longer, shorter);
        }
    }
}

proof fn lemma_symbol_items_finite(table: Map<Seq<char>, SymbolView>, prefix: Seq<char>)
    requires
        table.dom().finite(),
    ensures
        symbol_items(table, prefix).finite(),
{
    let f = |k: Seq<char>| symbol_item(table[k]);
    assert(symbol_items(table, prefix).subset_of(table.dom().map(f)));
    table.dom().lemma_map_finite(f);
    vstd::set_lib::lemma_set_subset_finite(table.dom().map(f), symbol_items(table, prefix));
}

/// A finite set as a multiset has as many elements as the set.
proof fn lemma_from_set_len<A>(s: Set<A>)
    requires
        s.finite(),
    ensures
        Multiset::from_set(s).len() == s.len(),
    decreases s.len(),
{
    broadcast use vstd::multiset::group_multiset_axioms;
    if s.len() == 0 {
        assert(s =~= Set::empty());
        assert(Multiset::from_set(s) =~= Multiset::empty()) by {
            assert forall|x: A| Multiset::from_set(s).count(x) == Multiset::<A>::empty().count(x) by {
                lemma_from_set_count(s, x);
            }
        }
    } else {
        let x = s.choose();
        let t = s.remove(x);
        lemma_from_set_len(t);
        assert(Multiset::from_set(s) =~= Multiset::from_set(t).insert(x)) by {
            assert forall|y: A| Multiset::from_set(s).count(y) == Multiset::from_set(t).insert(x).count(y) by {
                lemma_from_set_count(s, y);
                lemma_from_set_count(t, y);
            }
        }
    }
}

proof fn lemma_keyword_items_all(kws: Seq<Seq<char>>)
    ensures
        keyword_items(kws, Seq::empty()).len() == kws.len(),
    decreases kws.len(),
{
    if kws.len() > 0 {
        lemma_begins_with_empty(kws.last());
        lemma_keyword_items_all(kws.drop_last());
    }
}

/// With an empty prefix there are as many candidates as keywords plus
/// symbols of the table.
pub proof fn lemma_empty_prefix_count(table: Map<Seq<char>, SymbolView>)
    requires
        crate::index::keyed_by_name(table),
        table.dom().finite(),
    ensures
        candidates(table, Seq::empty()).len() == keyword_list().len() + table.dom().len(),
        keyword_list().len() == 22,
{
    broadcast use vstd::seq_lib::group_to_multiset_ensures, vstd::multiset::group_multiset_axioms;
    lemma_keyword_items_all(keyword_list());
    let f = |k: Seq<char>| symbol_item(table[k]);
    let sy = symbol_items(table, Seq::empty());
    assert forall|it: ItemView| table.dom().map(f).contains(it) <==> sy.contains(it) by {
        if table.dom().map(f).contains(it) {
            let k = choose|k: Seq<char>| table.dom().contains(k) && f(k) == it;
            lemma_begins_with_empty(k);
        }
    }
    assert(table.dom().map(f) =~= sy);
    assert(vstd::relations::injective_on(f, table.dom())) by {
        assert forall|a: Seq<char>, b: Seq<char>| table.dom().contains(a) && table.dom().contains(b) && #[trigger] f(a) == #[trigger] f(b) implies a == b by {
            assert(table[a].name == a && table[b].name == b);
        }
    }
    vstd::set_lib::lemma_map_size(table.dom(), sy, f);
    lemma_from_set_len(sy);
}

/// The labels of a list of candidates, in order.
pub open spec fn item_labels(s: Seq<ItemView>) -> Seq<Seq<char>> {
    s.map_values(|it: ItemView| it.label)
}

/// Taking labels keeps one list's candidates among another's.
proof fn lemma_labels_sub_multiset(s: Seq<ItemView>, t: Seq<ItemView>)
    requires
        s.to_multiset().subset_of(t.to_multiset()),
    ensures
        item_labels(s).to_multiset().subset_of(item_labels(t).to_multiset()),
    decreases s.len(),
{
    broadcast use vstd::seq_lib::group_to_multiset_ensures, vstd::multiset::group_multiset_axioms;
    if s.len() == 0 {
        assert(item_labels(s).to_multiset() =~= Multiset::empty());
    } else {
        let x = s.last();
        let p = s.drop_last();
        assert(p.push(x) =~= s);
        assert(t.to_multiset().count(x) > 0);
        assert(t.contains(x));
        let j = choose|j: int| 0 <= j < t.len() && t[j] == x;
        let q = t.remove(j);
        assert(q.to_multiset() =~= t.to_multiset().remove(x));
        assert(p.to_multiset() =~= s.to_multiset().remove(x));
        lemma_labels_sub_multiset(p, q);
        assert(item_labels(p).push(x.label) =~= item_labels(s));
        assert(item_labels(q).insert(j, x.label) =~= item_labels(t));
        vstd::seq_lib::to_multiset_insert(item_labels(q), j, x.label);
    }
}

/// Typing more never adds a label: the labels offered for a longer prefix
/// are among those offered for a shorter one, each at most as often.
pub proof fn lemma_longer_prefix_fewer_labels(
    table: Map<Seq<char>, SymbolView>,
    shorter: Seq<char>,
    longer: Seq<char>,
    offered_short: Seq<ItemView>,
    offered_long: Seq<ItemView>,
)
    requires
        table.dom().finite(),
        begins_with(longer, shorter),
        offered_short.to_multiset() == candidates(table, shorter),
        offered_long.to_multiset() == candidates(table, longer),
    ensures
        item_labels(offered_long).to_multiset().subset_of(item_labels(offered_short).to_multiset()),
{
    lemma_longer_prefix_fewer_candidates(table, shorter, longer);
    lemma_labels_sub_multiset(offered_long, offered_short);
}

/// With an empty prefix the completion list has one entry for each keyword
/// and one for each symbol of the table.
pub proof fn lemma_empty_prefix_length(table: Map<Seq<char>, SymbolView>, offered: Seq<ItemView>)
    requires
        crate::index::keyed_by_name(table),
        table.dom().finite(),
        offered.to_multiset() == candidates(table, Seq::empty()),
    ensures
        offered.len() == 22 + table.dom().len(),
{
    broadcast use vstd::seq_lib::group_to_multiset_ensures;
    lemma_empty_prefix_count(table);
}
} // verus!
