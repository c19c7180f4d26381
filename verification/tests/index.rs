use dolfin_analysis::ast::{
    ConceptDef, Declaration, Location, OneOfVariant, OntologyFile, PrefixDecl, PrimitiveKind, PropertyDef,
    QualifiedName, RuleDef, Span, TypeRef,
};
use dolfin_analysis::index::{file_stem, SymbolIndex, SymbolKind};

fn idx_span(start: usize, end: usize) -> Option<Span> {
    Some(Span {
        start: Location { line: 1, column: start + 1, offset: start },
        end: Location { line: 1, column: end + 1, offset: end },
    })
}

fn idx_named(parts: &[&str]) -> TypeRef {
    TypeRef::Named {
        name: QualifiedName { parts: parts.iter().map(|p| p.to_string()).collect(), span: None },
        span: None,
    }
}

fn idx_concept(name: &str, parents: Vec<TypeRef>) -> Declaration {
    Declaration::Concept(ConceptDef {
        name: name.to_string(),
        parents,
        has_declarations: Vec::new(),
        one_of: None,
        span: idx_span(0, 10),
    })
}

fn idx_property(name: &str, domain: TypeRef, range: TypeRef) -> Declaration {
    Declaration::Property(PropertyDef {
        name: name.to_string(),
        domain_cardinality: None,
        domain,
        range_cardinality: None,
        range,
        span: idx_span(20, 40),
    })
}

fn idx_file(declarations: Vec<Declaration>) -> OntologyFile {
    OntologyFile { prefixes: Vec::new(), declarations }
}

#[test]
fn file_stem_of_paths_and_uris() {
    assert_eq!(file_stem("/path/to/there.dlf"), Some("there".to_string()));
    assert_eq!(file_stem("file:///path/to/there.dlf"), Some("there".to_string()));
    assert_eq!(file_stem("/path/to/There.DLF"), Some("there".to_string()));
    assert_eq!(file_stem("plain"), Some("plain".to_string()));
    assert_eq!(file_stem(""), None);
    assert_eq!(file_stem("file://"), None);
    assert_eq!(file_stem("/ws/There.DLF"), Some("there".to_string()));
    assert_eq!(file_stem("lib.v2.dlf"), Some("lib.v2".to_string()));
    assert_eq!(file_stem("./rel/x.dlf"), Some("x".to_string()));
    assert_eq!(file_stem("file:///C:/ws/There.dlf"), Some("there".to_string()));
    assert_eq!(file_stem("/ws/x:y/Z.dlf"), Some("z".to_string()));
}

#[test]
fn from_file_indexes_every_declaration() {
    let f = idx_file(vec![
        idx_concept("Animal", Vec::new()),
        idx_property("owns", idx_named(&["Animal"]), idx_named(&["Animal"])),
        Declaration::Rule(RuleDef { name: "r".to_string(), patterns: Vec::new(), items: Vec::new(), span: None }),
        Declaration::Fact { id: "rex".to_string(), span: None },
    ]);
    let idx = SymbolIndex::from_file(&f);
    let animal = idx.get("Animal").unwrap();
    assert_eq!(animal.name, "Animal");
    assert!(matches!(animal.kind, SymbolKind::Concept));
    assert_eq!(animal.detail, "concept Animal");
    assert_eq!(animal.file, None);
    assert_eq!(animal.definition_span, idx_span(0, 10));
    let owns = idx.get("owns").unwrap();
    assert!(matches!(owns.kind, SymbolKind::Property));
    assert_eq!(owns.detail, "property owns: Animal → Animal");
    assert_eq!(idx.get("r").unwrap().detail, "rule r");
    assert!(idx.get("rex").is_none());
    assert_eq!(idx.iter().len(), 3);
    assert_eq!(idx.iter_file("").len(), 3);
    assert!(idx.get_in_file("", "owns").is_some());
}

#[test]
fn details_of_each_symbol_kind() {
    let color = Declaration::Concept(ConceptDef {
        name: "Color".to_string(),
        parents: vec![idx_named(&["Thing"]), idx_named(&["ex", "Quality"])],
        has_declarations: Vec::new(),
        one_of: Some(vec![
            OneOfVariant { name: "Red".to_string(), span: idx_span(30, 33) },
            OneOfVariant { name: "Green".to_string(), span: idx_span(35, 40) },
        ]),
        span: idx_span(0, 40),
    });
    let union = TypeRef::Union {
        members: vec![idx_named(&["Color"]), TypeRef::Primitive { kind: PrimitiveKind::DateTime, span: None }],
        span: None,
    };
    let mut f = idx_file(vec![color, idx_property("tint", idx_named(&["Thing"]), union)]);
    f.prefixes.push(PrefixDecl {
        path: QualifiedName { parts: vec!["org".to_string(), "example".to_string()], span: None },
        alias: "ex".to_string(),
        span: idx_span(0, 5),
    });
    let idx = SymbolIndex::from_file(&f);
    assert_eq!(idx.get("Color").unwrap().detail, "concept Color sub Thing, ex.Quality");
    let red = idx.get("Red").unwrap();
    assert_eq!(red.detail, "individual Red of Color");
    assert_eq!(red.definition_span, idx_span(30, 33));
    match &red.kind {
        SymbolKind::Individual { parent } => assert_eq!(parent, "Color"),
        other => panic!("unexpected kind {:?}", other),
    }
    assert_eq!(idx.get("tint").unwrap().detail, "property tint: Thing → (Color or DateTime)");
    let ex = idx.get("ex").unwrap();
    assert!(matches!(ex.kind, SymbolKind::Prefix));
    assert_eq!(ex.detail, "prefix ex → org.example");
}

#[test]
fn later_declaration_of_a_name_wins() {
    let f = idx_file(vec![
        idx_concept("Dup", Vec::new()),
        idx_property("Dup", idx_named(&["A"]), idx_named(&["B"])),
    ]);
    let idx = SymbolIndex::from_file(&f);
    assert!(matches!(idx.get("Dup").unwrap().kind, SymbolKind::Property));
    assert_eq!(idx.iter().len(), 1);
    assert!(!idx.is_type("Dup"));
}

#[test]
fn add_file_registers_stem_aliases() {
    let mut f = idx_file(vec![idx_concept("Far", Vec::new())]);
    f.prefixes.push(PrefixDecl {
        path: QualifiedName { parts: vec!["org".to_string()], span: None },
        alias: "ex".to_string(),
        span: None,
    });
    let mut idx = SymbolIndex::new();
    idx.add_file("/path/to/There.dlf", &f);
    let alias = idx.get("there.Far").unwrap();
    assert_eq!(alias.name, "there.Far");
    assert!(matches!(alias.kind, SymbolKind::Concept));
    assert_eq!(alias.detail, "concept Far");
    assert_eq!(alias.file, Some("/path/to/There.dlf".to_string()));
    assert!(idx.get("Far").is_some());
    assert!(idx.get("there.ex").is_none());
    assert!(idx.get_in_file("/path/to/There.dlf", "there.Far").is_some());
    assert!(idx.is_type("there.Far"));

    let mut uri = SymbolIndex::new();
    uri.add_file("file:///ws/there.dlf", &f);
    assert!(uri.get("there.Far").is_some());
}

#[test]
fn add_file_with_explicit_stem() {
    let f = idx_file(vec![idx_concept("Far", Vec::new())]);
    let mut idx = SymbolIndex::new();
    idx.add_file_with_stem("x", &f, Some("mystem"));
    assert_eq!(idx.get("mystem.Far").unwrap().name, "mystem.Far");
    let mut none = SymbolIndex::new();
    none.add_file_with_stem("x", &f, None);
    assert!(none.get("mystem.Far").is_none());
    assert_eq!(none.iter().len(), 1);
}

#[test]
fn re_adding_a_path_replaces_its_symbols() {
    let mut idx = SymbolIndex::new();
    idx.add_file("", &idx_file(vec![idx_concept("A", Vec::new())]));
    idx.add_file("", &idx_file(vec![idx_concept("B", Vec::new())]));
    assert!(idx.get("A").is_none());
    assert!(idx.get_in_file("", "A").is_none());
    assert!(idx.get("B").is_some());
    assert_eq!(idx.iter_file("").len(), 1);
}

#[test]
fn re_adding_the_same_file_changes_nothing() {
    let f = idx_file(vec![idx_concept("A", Vec::new()), idx_concept("B", Vec::new())]);
    let mut idx = SymbolIndex::new();
    idx.add_file("/ws/one.dlf", &f);
    let before = idx.iter().len();
    idx.add_file("/ws/one.dlf", &f);
    assert_eq!(idx.iter().len(), before);
    assert_eq!(before, 4);
}

#[test]
fn removing_a_file_keeps_names_other_files_define() {
    let mut ws = SymbolIndex::new();
    ws.add_file_with_stem("a", &idx_file(vec![idx_concept("Shared", Vec::new()), idx_concept("OnlyA", Vec::new())]), None);
    ws.add_file_with_stem("b", &idx_file(vec![idx_concept("Shared", vec![idx_named(&["X"])])]), None);
    assert_eq!(ws.get("Shared").unwrap().detail, "concept Shared sub X");
    ws.remove_file("b");
    // `Shared` is still defined by `a`, whose entry takes its place.
    let shared = ws.get("Shared").unwrap();
    assert_eq!(shared.detail, "concept Shared");
    assert_eq!(shared.file, Some("a".to_string()));
    assert!(ws.get_in_file("b", "Shared").is_none());
    assert!(ws.iter_file("b").is_empty());
    ws.remove_file("a");
    assert!(ws.get("Shared").is_none());
    assert!(ws.get("OnlyA").is_none());
    assert!(ws.iter().is_empty());
}

#[test]
fn removal_falls_back_to_the_latest_other_file() {
    let mut ws = SymbolIndex::new();
    ws.add_file("a.dlf", &idx_file(vec![idx_concept("Foo", Vec::new())]));
    ws.add_file("c.dlf", &idx_file(vec![idx_concept("Foo", vec![idx_named(&["C"])])]));
    ws.add_file("b.dlf", &idx_file(vec![idx_concept("Foo", vec![idx_named(&["B"])])]));
    assert_eq!(ws.get("Foo").unwrap().file, Some("b.dlf".to_string()));
    ws.remove_file("b.dlf");
    assert_eq!(ws.get("Foo").unwrap().file, Some("c.dlf".to_string()));
    assert!(ws.get("b.Foo").is_none());
    assert!(ws.get("a.Foo").is_some());
    // Re-indexing `a` makes it the latest.
    ws.add_file("a.dlf", &idx_file(vec![idx_concept("Foo", Vec::new())]));
    assert_eq!(ws.get("Foo").unwrap().file, Some("a.dlf".to_string()));
}

#[test]
fn adding_then_removing_a_new_path_restores_the_index() {
    let mut idx = SymbolIndex::new();
    idx.add_file("/ws/a.dlf", &idx_file(vec![idx_concept("Foo", Vec::new())]));
    let before: Vec<(String, Option<String>)> = idx.iter().iter().map(|s| (s.name.clone(), s.file.clone())).collect();
    idx.add_file("/ws/b.dlf", &idx_file(vec![idx_concept("Foo", vec![idx_named(&["X"])])]));
    idx.remove_file("/ws/b.dlf");
    let mut after: Vec<(String, Option<String>)> = idx.iter().iter().map(|s| (s.name.clone(), s.file.clone())).collect();
    let mut expected = before.clone();
    expected.sort();
    after.sort();
    assert_eq!(after, expected);
}

#[test]
fn symbol_kinds_compare_by_value() {
    assert_eq!(SymbolKind::Concept, SymbolKind::Concept);
    assert_ne!(SymbolKind::Concept, SymbolKind::Rule);
    assert_eq!(SymbolKind::Individual { parent: "C".to_string() }, SymbolKind::Individual { parent: "C".to_string() });
    assert_ne!(SymbolKind::Individual { parent: "C".to_string() }, SymbolKind::Individual { parent: "D".to_string() });
}

#[test]
fn cloned_index_answers_the_same() {
    let mut idx = SymbolIndex::new();
    idx.add_file("/ws/a.dlf", &idx_file(vec![idx_concept("Foo", Vec::new())]));
    let copy = idx.clone();
    idx.remove_file("/ws/a.dlf");
    assert!(idx.get("Foo").is_none());
    assert_eq!(copy.get("a.Foo").unwrap().name, "a.Foo");
}

#[test]
fn removing_an_unknown_path_changes_nothing() {
    let mut idx = SymbolIndex::from_file(&idx_file(vec![idx_concept("A", Vec::new())]));
    idx.remove_file("/nowhere.dlf");
    assert!(idx.get("A").is_some());
    assert_eq!(idx.iter().len(), 1);
}

#[test]
fn default_index_is_empty() {
    let idx = SymbolIndex::default();
    assert!(idx.iter().is_empty());
    assert!(idx.get("A").is_none());
    assert!(idx.type_names().is_empty());
}

#[test]
fn type_and_concept_names() {
    let f = idx_file(vec![
        idx_concept("B", Vec::new()),
        idx_concept("A", Vec::new()),
        idx_property("p", idx_named(&["A"]), idx_named(&["B"])),
    ]);
    let idx = SymbolIndex::from_file(&f);
    let mut types = idx.type_names();
    types.sort();
    assert_eq!(types, vec!["A", "B"]);
    let mut concepts = idx.concept_names();
    concepts.sort();
    assert_eq!(concepts, vec!["A", "B"]);
    assert!(idx.is_type("A"));
    assert!(!idx.is_type("p"));
    assert!(!idx.is_type("missing"));
}

#[test]
fn from_file_is_adding_to_an_empty_index() {
    let f = idx_file(vec![idx_concept("A", Vec::new()), idx_property("p", idx_named(&["A"]), idx_named(&["A"]))]);
    let built = SymbolIndex::from_file(&f);
    let mut added = SymbolIndex::new();
    added.add_file("", &f);
    let names = |idx: &SymbolIndex| {
        let mut v: Vec<(String, String)> = idx.iter().iter().map(|s| (s.name.clone(), s.detail.clone())).collect();
        v.sort();
        v
    };
    assert_eq!(names(&built), names(&added));
}

#[test]
fn removing_a_file_just_added_leaves_the_others() {
    let mut idx = SymbolIndex::new();
    idx.add_file_with_stem("a", &idx_file(vec![idx_concept("A", Vec::new())]), None);
    idx.add_file_with_stem("b", &idx_file(vec![idx_concept("B", Vec::new())]), None);
    idx.remove_file("b");
    assert!(idx.get("B").is_none());
    assert!(idx.get_in_file("a", "A").is_some());
    assert_eq!(idx.iter_file("a").len(), 1);
    assert_eq!(idx.iter().len(), 1);
}

#[test]
fn file_stem_of_plain_file_names() {
    assert_eq!(file_stem("Arc.tar.gz"), Some("arc.tar".to_string()));
    assert_eq!(file_stem(".hidden"), Some(".hidden".to_string()));
    assert_eq!(file_stem("name."), Some("name".to_string()));
    assert_eq!(file_stem("file://Notes.TXT"), Some("notes".to_string()));
    assert_eq!(file_stem("..."), Some("..".to_string()));
}
