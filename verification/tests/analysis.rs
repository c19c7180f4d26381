use dolfin_analysis::ast::{
    Cardinality, ConceptDef, Declaration, HasDeclaration, Location, OneOfVariant, OntologyFile, PrimitiveKind,
    PropertyDef, QualifiedName, Span, TypeRef,
};
use dolfin_analysis::diagnostics::{Diagnostic, Severity};
use dolfin_analysis::index::{SymbolIndex, SymbolKind};
use dolfin_analysis::resolve::resolve_file;
use dolfin_analysis::types::{check_types, kind_label};
use dolfin_analysis::validate::validate;
use dolfin_analysis::{analyze, analyze_with_index};

fn sp(start: usize, end: usize) -> Option<Span> {
    Some(Span {
        start: Location { line: 1, column: start + 1, offset: start },
        end: Location { line: 1, column: end + 1, offset: end },
    })
}

fn named(parts: &[&str], span: Option<Span>) -> TypeRef {
    TypeRef::Named {
        name: QualifiedName { parts: parts.iter().map(|p| p.to_string()).collect(), span },
        span,
    }
}

fn prim(kind: PrimitiveKind) -> TypeRef {
    TypeRef::Primitive { kind, span: None }
}

fn concept_at(name: &str, parents: Vec<TypeRef>, span: Option<Span>) -> Declaration {
    Declaration::Concept(ConceptDef {
        name: name.to_string(),
        parents,
        has_declarations: Vec::new(),
        one_of: None,
        span,
    })
}

fn property_at(name: &str, domain: TypeRef, range: TypeRef, span: Option<Span>) -> Declaration {
    Declaration::Property(PropertyDef {
        name: name.to_string(),
        domain_cardinality: None,
        domain,
        range_cardinality: None,
        range,
        span,
    })
}

fn file_of(declarations: Vec<Declaration>) -> OntologyFile {
    OntologyFile { prefixes: Vec::new(), declarations }
}

fn summary(diags: &[Diagnostic]) -> Vec<(u16, String, Option<Span>)> {
    diags.iter().map(|d| (d.code, d.message.clone(), d.span)).collect()
}

#[test]
fn unresolved_type_is_reported() {
    let f = file_of(vec![
        concept_at("Cat", vec![named(&["Missing"], sp(12, 19))], sp(0, 19)),
        property_at("age", named(&["Cat"], sp(30, 33)), prim(PrimitiveKind::Int), sp(20, 40)),
    ]);
    let r = analyze(f);
    assert_eq!(summary(&r.diagnostics), vec![(1, "type `Missing` is not declared".to_string(), sp(12, 19))]);
    assert_eq!(r.diagnostics[0].severity, Severity::Error);
}

#[test]
fn unresolved_qualified_type_names_its_last_segment() {
    let f = file_of(vec![concept_at("Cat", vec![named(&["zoo", "Missing"], sp(12, 23))], sp(0, 23))]);
    let r = analyze(f);
    assert_eq!(summary(&r.diagnostics), vec![(1, "type `Missing` is not declared".to_string(), sp(12, 23))]);
}

#[test]
fn duplicate_declaration_points_at_first() {
    let f = file_of(vec![
        concept_at("A", Vec::new(), sp(0, 9)),
        property_at("A", named(&["A"], None), prim(PrimitiveKind::String), sp(10, 30)),
        concept_at("A", Vec::new(), sp(31, 40)),
        Declaration::Fact { id: "A".to_string(), span: sp(41, 45) },
    ]);
    let r = analyze(f);
    let dup = (2, "duplicate declaration `A`".to_string(), sp(0, 9));
    assert_eq!(summary(&r.diagnostics), vec![dup.clone(), dup]);
}

#[test]
fn distinct_names_give_no_duplicate() {
    let f = file_of(vec![concept_at("A", Vec::new(), sp(0, 9)), concept_at("B", Vec::new(), sp(10, 19))]);
    assert!(analyze(f).diagnostics.is_empty());
}

#[test]
fn self_inheritance_is_circular() {
    let f = file_of(vec![concept_at("Loop", vec![named(&["Loop"], sp(17, 21))], sp(0, 21))]);
    let r = analyze(f);
    assert_eq!(summary(&r.diagnostics), vec![(3, "concept `Loop` has circular inheritance".to_string(), sp(0, 21))]);
}

#[test]
fn two_concept_cycle_reports_both() {
    let f = file_of(vec![
        concept_at("A", vec![named(&["B"], None)], sp(0, 10)),
        concept_at("B", vec![named(&["A"], None)], sp(11, 21)),
        concept_at("C", vec![named(&["A"], None)], sp(22, 32)),
    ]);
    let r = analyze(f);
    assert_eq!(
        summary(&r.diagnostics),
        vec![
            (3, "concept `A` has circular inheritance".to_string(), sp(0, 10)),
            (3, "concept `B` has circular inheritance".to_string(), sp(11, 21)),
        ]
    );
}

#[test]
fn every_concept_on_a_cycle_is_reported() {
    // A sub A, B; B sub B: both lie on a cycle.
    let f = file_of(vec![
        concept_at("A", vec![named(&["A"], None), named(&["B"], None)], sp(0, 10)),
        concept_at("B", vec![named(&["B"], None)], sp(11, 21)),
    ]);
    let r = analyze(f);
    assert_eq!(
        summary(&r.diagnostics),
        vec![
            (3, "concept `A` has circular inheritance".to_string(), sp(0, 10)),
            (3, "concept `B` has circular inheritance".to_string(), sp(11, 21)),
        ]
    );
}

#[test]
fn cycle_behind_a_shared_ancestor_is_reported() {
    // A sub B, C; B sub A, D; C sub D; D: A and B lie on a cycle, C and D do not.
    let f = file_of(vec![
        concept_at("A", vec![named(&["B"], None), named(&["C"], None)], sp(0, 10)),
        concept_at("B", vec![named(&["A"], None), named(&["D"], None)], sp(11, 21)),
        concept_at("C", vec![named(&["D"], None)], sp(22, 32)),
        concept_at("D", Vec::new(), sp(33, 43)),
    ]);
    let r = analyze(f);
    assert_eq!(
        summary(&r.diagnostics),
        vec![
            (3, "concept `A` has circular inheritance".to_string(), sp(0, 10)),
            (3, "concept `B` has circular inheritance".to_string(), sp(11, 21)),
        ]
    );
}

#[test]
fn acyclic_hierarchy_is_not_circular() {
    let f = file_of(vec![
        concept_at("Animal", Vec::new(), sp(0, 10)),
        concept_at("Cat", vec![named(&["Animal"], None)], sp(11, 21)),
        concept_at("Kitten", vec![named(&["Cat"], None), named(&["Animal"], None)], sp(22, 40)),
    ]);
    assert!(analyze(f).diagnostics.is_empty());
}

#[test]
fn parent_that_is_not_a_concept() {
    let f = file_of(vec![
        concept_at("Animal", Vec::new(), sp(0, 10)),
        property_at("owns", named(&["Animal"], None), named(&["Animal"], None), sp(11, 40)),
        concept_at("Bad", vec![named(&["owns"], sp(50, 54))], sp(41, 54)),
    ]);
    let r = analyze(f);
    assert_eq!(
        summary(&r.diagnostics),
        vec![(4, "`owns` is a property, not a concept; only concepts can appear after `sub`".to_string(), sp(50, 54))]
    );
}

#[test]
fn domain_that_is_not_a_concept() {
    let color = Declaration::Concept(ConceptDef {
        name: "Color".to_string(),
        parents: Vec::new(),
        has_declarations: Vec::new(),
        one_of: Some(vec![OneOfVariant { name: "Red".to_string(), span: sp(20, 23) }]),
        span: sp(0, 23),
    });
    let f = file_of(vec![color, property_at("hue", named(&["Red"], sp(35, 38)), prim(PrimitiveKind::String), sp(24, 48))]);
    let r = analyze(f);
    assert_eq!(
        summary(&r.diagnostics),
        vec![(5, "property domain `Red` must be a concept, not a individual".to_string(), sp(35, 38))]
    );
}

#[test]
fn inverted_cardinality_range() {
    let has = |min: usize, max: Option<usize>, span: Option<Span>| HasDeclaration {
        name: "items".to_string(),
        cardinality: Some(Cardinality::Range { min, max }),
        type_ref: prim(PrimitiveKind::String),
        span,
    };
    let boxed = Declaration::Concept(ConceptDef {
        name: "Box".to_string(),
        parents: Vec::new(),
        has_declarations: vec![has(5, Some(2), sp(10, 20)), has(3, Some(3), sp(21, 30)), has(7, None, sp(31, 40))],
        one_of: None,
        span: sp(0, 40),
    });
    let prop = Declaration::Property(PropertyDef {
        name: "holds".to_string(),
        domain_cardinality: Some(Cardinality::Range { min: 10, max: Some(3) }),
        domain: named(&["Box"], None),
        range_cardinality: Some(Cardinality::Exact { value: 4 }),
        range: prim(PrimitiveKind::Int),
        span: sp(41, 70),
    });
    let r = analyze(file_of(vec![boxed, prop]));
    assert_eq!(
        summary(&r.diagnostics),
        vec![
            (6, "invalid cardinality range 5..2: min must be ≤ max".to_string(), sp(10, 20)),
            (6, "invalid cardinality range 10..3: min must be ≤ max".to_string(), sp(41, 70)),
        ]
    );
}

#[test]
fn diagnostics_come_in_pass_order() {
    let f = file_of(vec![
        concept_at("Loop", vec![named(&["Loop"], None)], sp(0, 10)),
        property_at("p", named(&["Nope"], sp(20, 24)), named(&["Loop"], None), sp(11, 30)),
        concept_at("Loop", vec![named(&["p"], sp(40, 41))], sp(31, 41)),
    ]);
    let r = analyze(f);
    let codes: Vec<u16> = r.diagnostics.iter().map(|d| d.code).collect();
    // S001 (`Nope`), S002 (`Loop` again), then S004 (`p` after `sub`).
    assert_eq!(codes, vec![1, 2, 4]);
}

#[test]
fn analysis_keeps_its_index() {
    let r = analyze(file_of(vec![concept_at("Animal", Vec::new(), sp(0, 10))]));
    assert!(r.index.is_type("Animal"));
    assert_eq!(r.index.get("Animal").unwrap().file, None);
}

#[test]
fn workspace_index_resolves_other_files() {
    let there = file_of(vec![concept_at("Far", Vec::new(), sp(0, 11))]);
    let mut index = SymbolIndex::new();
    index.add_file("/ws/there.dlf", &there);
    let here = file_of(vec![
        concept_at("Near", vec![named(&["there", "Far"], sp(14, 23))], sp(0, 23)),
        concept_at("Close", vec![named(&["Far"], sp(30, 33))], sp(24, 33)),
    ]);
    let r = analyze_with_index(here, index);
    assert!(r.diagnostics.is_empty());
    assert!(r.index.get("there.Far").is_some());
    // On its own the file cannot see `Far`.
    let alone = analyze(file_of(vec![concept_at("Close", vec![named(&["Far"], sp(30, 33))], sp(24, 33))]));
    assert_eq!(summary(&alone.diagnostics), vec![(1, "type `Far` is not declared".to_string(), sp(30, 33))]);
}

#[test]
fn resolution_tries_last_segment_then_full_name() {
    let mut index = SymbolIndex::new();
    index.add_file_with_stem("/a", &file_of(vec![concept_at("Far", Vec::new(), None)]), Some("there"));
    let f = file_of(vec![
        concept_at("X", vec![named(&["there", "Far"], sp(1, 2)), named(&["other", "Far"], sp(3, 4))], None),
        property_at("p", named(&["Gone"], sp(5, 6)), prim(PrimitiveKind::Boolean), None),
    ]);
    let resolved = resolve_file(&f, &index);
    let outcome: Vec<(String, Option<String>)> = resolved.refs.iter().map(|r| (r.name.clone(), r.resolved.clone())).collect();
    assert_eq!(
        outcome,
        vec![
            ("Far".to_string(), Some("Far".to_string())),
            ("Far".to_string(), Some("Far".to_string())),
            ("Gone".to_string(), None),
        ]
    );
    assert!(!resolved.refs[0].is_unresolved());
    assert!(resolved.refs[2].is_unresolved());
    let unresolved: Vec<&str> = resolved.unresolved().iter().map(|r| r.name.as_str()).collect();
    assert_eq!(unresolved, vec!["Gone"]);
    assert_eq!(resolved.resolved().len(), 2);
    assert_eq!(resolved.unresolved()[0].source_span, sp(5, 6));

    // Only the full name is known: it resolves to the full name.
    let dotted = SymbolIndex::from_file(&file_of(vec![concept_at("zoo.Cat", Vec::new(), None)]));
    let g = file_of(vec![concept_at("Y", vec![named(&["zoo", "Cat"], None)], None)]);
    assert_eq!(resolve_file(&g, &dotted).refs[0].resolved, Some("zoo.Cat".to_string()));
}

#[test]
fn validate_and_check_types_directly() {
    let f = file_of(vec![
        concept_at("A", vec![named(&["A"], None)], sp(0, 5)),
        concept_at("B", vec![named(&["Q"], sp(8, 9))], sp(6, 9)),
    ]);
    let index = SymbolIndex::from_file(&f);
    let resolved = resolve_file(&f, &index);
    let v = validate(&f, &index, &resolved);
    assert_eq!(
        summary(&v),
        vec![
            (1, "type `Q` is not declared".to_string(), sp(8, 9)),
            (3, "concept `A` has circular inheritance".to_string(), sp(0, 5)),
        ]
    );
    assert!(check_types(&f, &index).is_empty());
}

#[test]
fn kind_labels() {
    assert_eq!(kind_label(&SymbolKind::Concept), "concept");
    assert_eq!(kind_label(&SymbolKind::Property), "property");
    assert_eq!(kind_label(&SymbolKind::Rule), "rule");
    assert_eq!(kind_label(&SymbolKind::Prefix), "prefix");
    assert_eq!(kind_label(&SymbolKind::Individual { parent: "C".to_string() }), "individual");
}

#[test]
fn unresolved_parent_is_never_also_not_a_concept() {
    let f = file_of(vec![
        property_at("owns", named(&["Bad"], None), named(&["Bad"], None), sp(0, 20)),
        concept_at("Bad", vec![named(&["Missing"], sp(30, 37)), named(&["owns"], sp(39, 43))], sp(21, 43)),
    ]);
    let r = analyze(f);
    assert_eq!(
        summary(&r.diagnostics),
        vec![
            (1, "type `Missing` is not declared".to_string(), sp(30, 37)),
            (4, "`owns` is a property, not a concept; only concepts can appear after `sub`".to_string(), sp(39, 43)),
        ]
    );
}

#[test]
fn resolved_references_name_index_entries() {
    let f = file_of(vec![
        concept_at("A", Vec::new(), None),
        concept_at("B", vec![named(&["A"], None), named(&["x", "A"], None), named(&["C"], None)], None),
    ]);
    let index = SymbolIndex::from_file(&f);
    let resolved = resolve_file(&f, &index);
    assert_eq!(resolved.refs.len(), resolved.resolved().len() + resolved.unresolved().len());
    for r in resolved.resolved() {
        assert!(index.get(r.resolved.as_ref().unwrap()).is_some());
    }
    assert_eq!(resolved.unresolved().len(), 1);
}
