use dolfin_analysis::analyzer;
use dolfin_analysis::ast::{
    ConceptDef, Declaration, HasDeclaration, Location, OntologyFile, PrimitiveKind, PropertyDef, QualifiedName,
    RuleDef, Span, TypeRef,
};
use dolfin_analysis::completion::{completions_at, symbol_completion_kind, CompletionKind};
use dolfin_analysis::hover::{hover_at, markdown_symbol};
use dolfin_analysis::resolver::resolve;
use dolfin_analysis::resolve::ResolvedFile;
use dolfin_analysis::symbols::{Symbol, SymbolKind, SymbolTable};

fn pos(offset: usize) -> Location {
    Location { line: 1, column: offset + 1, offset }
}

fn region(start: usize, end: usize) -> Option<Span> {
    Some(Span { start: pos(start), end: pos(end) })
}

fn type_named(parts: &[&str], span: Option<Span>) -> TypeRef {
    TypeRef::Named {
        name: QualifiedName { parts: parts.iter().map(|p| p.to_string()).collect(), span },
        span,
    }
}

/// concept Animal                      (0..14)
/// concept Cat sub Animal:             (15..60)
///   has size: Int                     (40..53, type 50..53)
/// property size: Cat -> Int           (61..86, domain 76..79, range 83..86)
/// rule grow                           (87..96)
fn zoo() -> OntologyFile {
    let animal = Declaration::Concept(ConceptDef {
        name: "Animal".to_string(),
        parents: Vec::new(),
        has_declarations: Vec::new(),
        one_of: None,
        span: region(0, 14),
    });
    let cat = Declaration::Concept(ConceptDef {
        name: "Cat".to_string(),
        parents: vec![type_named(&["Animal"], region(31, 37))],
        has_declarations: vec![HasDeclaration {
            name: "size".to_string(),
            cardinality: None,
            type_ref: TypeRef::Primitive { kind: PrimitiveKind::Int, span: region(50, 53) },
            span: region(40, 53),
        }],
        one_of: None,
        span: region(15, 30),
    });
    let size = Declaration::Property(PropertyDef {
        name: "size".to_string(),
        domain_cardinality: None,
        domain: type_named(&["Cat"], region(76, 79)),
        range_cardinality: None,
        range: TypeRef::Primitive { kind: PrimitiveKind::Int, span: region(83, 86) },
        span: region(61, 70),
    });
    let grow = Declaration::Rule(RuleDef { name: "grow".to_string(), patterns: Vec::new(), items: Vec::new(), span: region(87, 96) });
    OntologyFile { prefixes: Vec::new(), declarations: vec![animal, cat, size, grow] }
}

#[test]
fn table_holds_the_file_symbols() {
    let table = SymbolTable::build(&zoo());
    assert_eq!(table.iter().len(), 4);
    let cat = table.get("Cat").unwrap();
    assert_eq!(cat.detail, "concept Cat sub Animal");
    assert!(matches!(cat.kind, SymbolKind::Concept));
    assert_eq!(table.get("size").unwrap().detail, "property size: Cat → Int");
    assert!(table.get("Dog").is_none());
    assert!(table.is_declared_type("Animal"));
    assert!(!table.is_declared_type("size"));
    assert!(!table.is_declared_type("Dog"));
    let mut types = table.type_names();
    types.sort();
    assert_eq!(types, vec!["Animal", "Cat"]);
}

#[test]
fn resolver_reports_duplicates_then_undeclared_then_cycles() {
    let mut f = zoo();
    f.declarations.push(Declaration::Concept(ConceptDef {
        name: "Bad".to_string(),
        parents: vec![type_named(&["size"], region(110, 114)), type_named(&["Bad"], region(116, 119))],
        has_declarations: Vec::new(),
        one_of: None,
        span: region(100, 119),
    }));
    f.declarations.push(Declaration::Rule(RuleDef { name: "Cat".to_string(), patterns: Vec::new(), items: Vec::new(), span: region(120, 128) }));
    let table = SymbolTable::build(&f);
    let diags = resolve(&f, &table);
    let summary: Vec<(u16, String, Option<Span>)> = diags.iter().map(|d| (d.code, d.message.clone(), d.span)).collect();
    // The later rule `Cat` replaces the concept in the table, so `Cat` is no
    // longer a declared type.
    assert_eq!(
        summary,
        vec![
            (2, "duplicate declaration `Cat`".to_string(), region(15, 30)),
            (1, "type `Cat` is not declared".to_string(), region(76, 79)),
            (1, "type `size` is not declared".to_string(), region(110, 114)),
            (3, "concept `Bad` has circular inheritance".to_string(), region(100, 119)),
        ]
    );
}

#[test]
fn hover_over_names_and_types() {
    let f = zoo();
    let table = SymbolTable::build(&f);
    assert_eq!(hover_at(&f, &table, pos(3)), Some("```dolfin\nconcept Animal\n```".to_string()));
    assert_eq!(hover_at(&f, &table, pos(33)), Some("```dolfin\nconcept Animal\n```".to_string()));
    assert_eq!(hover_at(&f, &table, pos(45)), Some("```dolfin\nproperty size: Cat → Int\n```".to_string()));
    assert_eq!(hover_at(&f, &table, pos(77)), Some("```dolfin\nconcept Cat sub Animal\n```".to_string()));
    assert_eq!(hover_at(&f, &table, pos(84)), Some("```dolfin\nprimitive Int\n```".to_string()));
    assert_eq!(hover_at(&f, &table, pos(90)), Some("```dolfin\nrule grow\n```".to_string()));
    // Span ends are inclusive.
    assert_eq!(hover_at(&f, &table, pos(14)), Some("```dolfin\nconcept Animal\n```".to_string()));
    assert_eq!(hover_at(&f, &table, pos(98)), None);
    assert_eq!(hover_at(&f, &table, pos(72)), None);
}

#[test]
fn markdown_of_a_symbol() {
    let s = Symbol { name: "Cat".to_string(), kind: SymbolKind::Concept, definition_span: None, detail: "concept Cat".to_string() };
    assert_eq!(markdown_symbol(&s), "```dolfin\nconcept Cat\n```");
}

#[test]
fn completion_kinds_of_symbols() {
    assert_eq!(symbol_completion_kind(&SymbolKind::Concept), CompletionKind::Class);
    assert_eq!(symbol_completion_kind(&SymbolKind::Property), CompletionKind::Function);
    assert_eq!(symbol_completion_kind(&SymbolKind::Rule), CompletionKind::Interface);
    assert_eq!(symbol_completion_kind(&SymbolKind::Prefix), CompletionKind::Module);
    assert_eq!(symbol_completion_kind(&SymbolKind::Individual { parent: "C".to_string() }), CompletionKind::Individual);
}

#[test]
fn completions_filter_by_prefix_and_sort_by_label() {
    let table = SymbolTable::build(&zoo());
    let items = completions_at(&table, "s");
    let labels: Vec<&str> = items.iter().map(|i| i.label.as_str()).collect();
    assert_eq!(labels, vec!["size", "some", "string", "sub"]);
    assert_eq!(items[0].kind, CompletionKind::Function);
    assert_eq!(items[0].detail, Some("property size: Cat → Int".to_string()));
    assert_eq!(items[1].kind, CompletionKind::Keyword);
    assert_eq!(items[1].detail, None);

    let none = completions_at(&table, "zz");
    assert!(none.is_empty());

    let upper: Vec<String> = completions_at(&table, "C").into_iter().map(|i| i.label).collect();
    assert_eq!(upper, vec!["Cat".to_string()]);
}

#[test]
fn empty_prefix_offers_everything() {
    let table = SymbolTable::build(&zoo());
    let items = completions_at(&table, "");
    assert_eq!(items.len(), 22 + 4);
    let labels: Vec<&str> = items.iter().map(|i| i.label.as_str()).collect();
    let mut sorted = labels.clone();
    sorted.sort();
    assert_eq!(labels, sorted);
    assert_eq!(labels[0], "Animal");
    assert!(labels.contains(&"between"));
    assert!(labels.contains(&"grow"));
}

#[test]
fn analyzer_result_answers_hover_and_completion() {
    let r = analyzer::analyze(zoo());
    assert!(r.diagnostics.is_empty());
    assert!(r.symbols.get("Cat").is_some());
    assert_eq!(r.hover(pos(3)), Some("```dolfin\nconcept Animal\n```".to_string()));
    assert_eq!(r.hover(pos(500)), None);
    let labels: Vec<String> = r.completions("gr").into_iter().map(|i| i.label).collect();
    assert_eq!(labels, vec!["grow".to_string()]);
}

#[test]
fn keyword_comes_before_symbol_of_same_name() {
    let mut f = zoo();
    f.declarations.push(Declaration::Concept(ConceptDef {
        name: "sub".to_string(),
        parents: Vec::new(),
        has_declarations: Vec::new(),
        one_of: None,
        span: None,
    }));
    let table = SymbolTable::build(&f);
    let items = completions_at(&table, "su");
    let kinds: Vec<(String, CompletionKind)> = items.into_iter().map(|i| (i.label, i.kind)).collect();
    assert_eq!(
        kinds,
        vec![("sub".to_string(), CompletionKind::Keyword), ("sub".to_string(), CompletionKind::Class)]
    );
}

#[test]
fn defaults_are_empty() {
    let t = SymbolTable::default();
    assert!(t.iter().is_empty());
    assert!(t.get("A").is_none());
    assert!(ResolvedFile::default().refs.is_empty());
}

#[test]
fn cloned_completion_items_are_equal() {
    let table = SymbolTable::build(&zoo());
    let items = completions_at(&table, "gr");
    let copy = items[0].clone();
    assert_eq!(copy.label, items[0].label);
    assert_eq!(copy.kind, items[0].kind);
    assert_eq!(copy.detail, items[0].detail);
}

#[test]
fn longer_prefix_offers_a_subset_of_labels() {
    let table = SymbolTable::build(&zoo());
    let short: Vec<String> = completions_at(&table, "s").into_iter().map(|i| i.label).collect();
    let long: Vec<String> = completions_at(&table, "su").into_iter().map(|i| i.label).collect();
    assert_eq!(long, vec!["sub".to_string()]);
    for l in &long {
        assert!(short.contains(l));
    }
    assert_eq!(completions_at(&table, "").len(), 22 + table.iter().len());
}
