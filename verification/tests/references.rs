use dolfin_analysis::ast::{
    ConceptDef, Declaration, HasDeclaration, Location, OntologyFile, Pattern, PrimitiveKind, PropertyDef,
    QualifiedName, RuleDef, Span, ThenItem, TypeRef,
};
use dolfin_analysis::references::find_references_in_file;

fn at(line: usize, column: usize, offset: usize) -> Location {
    Location { line, column, offset }
}

fn range(start: usize, end: usize) -> Option<Span> {
    Some(Span { start: at(1, start + 1, start), end: at(1, end + 1, end) })
}

fn qname(parts: &[&str], span: Option<Span>) -> QualifiedName {
    QualifiedName { parts: parts.iter().map(|p| p.to_string()).collect(), span }
}

fn named_ref(parts: &[&str], span: Option<Span>) -> TypeRef {
    TypeRef::Named { name: qname(parts, span), span }
}

fn concept(name: &str, parents: Vec<TypeRef>, span: Option<Span>) -> Declaration {
    Declaration::Concept(ConceptDef {
        name: name.to_string(),
        parents,
        has_declarations: Vec::new(),
        one_of: None,
        span,
    })
}

fn property(name: &str, domain: TypeRef, range_ref: TypeRef, span: Option<Span>) -> Declaration {
    Declaration::Property(PropertyDef {
        name: name.to_string(),
        domain_cardinality: None,
        domain,
        range_cardinality: None,
        range: range_ref,
        span,
    })
}

/// `concept Animal`, then the given properties and rule.
fn animal_file(properties: Vec<Declaration>, rule: RuleDef) -> OntologyFile {
    let mut declarations = vec![concept("Animal", Vec::new(), range(0, 14))];
    declarations.extend(properties);
    declarations.push(Declaration::Rule(rule));
    OntologyFile { prefixes: Vec::new(), declarations }
}

/// `property has_owner: Animal -> Animal`
fn has_owner() -> Declaration {
    property("has_owner", named_ref(&["Animal"], range(26, 32)), named_ref(&["Animal"], range(36, 42)), range(15, 42))
}

fn triple(property: &str, start: usize) -> Pattern {
    Pattern::Triple {
        property: qname(&[property], range(start + 3, start + 3 + property.len())),
        span: range(start, start + 6 + property.len()),
    }
}

fn assert_triple(property: &str, start: usize) -> ThenItem {
    ThenItem::AssertionTriple {
        property: qname(&[property], range(start + 3, start + 3 + property.len())),
        span: range(start, start + 6 + property.len()),
    }
}

#[test]
fn finds_property_in_rule_match_triple() {
    // rule owns:
    //   match:
    //     ?x has_owner ?y
    //   then:
    //     ?x has_owner ?y
    let rule = RuleDef {
        name: "owns".to_string(),
        patterns: vec![triple("has_owner", 80)],
        items: vec![assert_triple("has_owner", 110)],
        span: range(66, 125),
    };
    let file = animal_file(vec![has_owner()], rule);
    let refs = find_references_in_file(&file, "has_owner");
    // Two references: one in match triple, one in then assertion triple
    assert_eq!(refs.len(), 2, "expected 2 refs to has_owner in rule, got {}: {:?}", refs.len(), refs);
}

#[test]
fn finds_property_in_rule_then_triple() {
    // rule set_owner:
    //   match:
    //     ?x a Animal
    //   then:
    //     ?x has_owner ?x
    let rule = RuleDef {
        name: "set_owner".to_string(),
        patterns: vec![Pattern::Type { type_ref: named_ref(&["Animal"], range(92, 98)), span: range(87, 98) }],
        items: vec![assert_triple("has_owner", 115)],
        span: range(66, 130),
    };
    let file = animal_file(vec![has_owner()], rule);
    let refs = find_references_in_file(&file, "has_owner");
    assert!(!refs.is_empty(), "expected at least one ref to has_owner in then block");
}

#[test]
fn does_not_match_other_properties() {
    // property has_age: Animal -> string
    // rule test_rule:
    //   match:
    //     ?x has_age ?y
    //   then:
    //     ?x has_age ?y
    let rule = RuleDef {
        name: "test_rule".to_string(),
        patterns: vec![triple("has_age", 130)],
        items: vec![assert_triple("has_age", 160)],
        span: range(112, 175),
    };
    let has_age = property(
        "has_age",
        named_ref(&["Animal"], range(61, 67)),
        TypeRef::Primitive { kind: PrimitiveKind::String, span: range(71, 77) },
        range(43, 77),
    );
    let file = animal_file(vec![has_owner(), has_age], rule);
    let refs = find_references_in_file(&file, "has_owner");
    assert!(refs.is_empty(), "should not find has_owner refs in a rule using has_age");
}

#[test]
fn qualified_reference_found_by_full_and_last_name() {
    let file = OntologyFile {
        prefixes: Vec::new(),
        declarations: vec![concept("Near", vec![named_ref(&["there", "Far"], range(13, 22))], range(0, 22))],
    };
    assert_eq!(find_references_in_file(&file, "Far"), vec![range(13, 22).unwrap()]);
    assert_eq!(find_references_in_file(&file, "there.Far"), vec![range(13, 22).unwrap()]);
    assert!(find_references_in_file(&file, "there").is_empty());
    assert!(find_references_in_file(&file, "Near").is_empty());
}

#[test]
fn references_in_order_across_declarations() {
    let has = HasDeclaration {
        name: "pet".to_string(),
        cardinality: None,
        type_ref: named_ref(&["Animal"], range(40, 46)),
        span: range(30, 46),
    };
    let person = Declaration::Concept(ConceptDef {
        name: "Person".to_string(),
        parents: vec![named_ref(&["Animal"], range(15, 21))],
        has_declarations: vec![has],
        one_of: None,
        span: range(0, 46),
    });
    let owns = property("owns", named_ref(&["Person"], range(60, 66)), named_ref(&["Animal"], range(70, 76)), range(50, 76));
    let file = OntologyFile { prefixes: Vec::new(), declarations: vec![person, owns] };
    let refs = find_references_in_file(&file, "Animal");
    assert_eq!(refs, vec![range(15, 21).unwrap(), range(40, 46).unwrap(), range(70, 76).unwrap()]);
}

#[test]
fn references_inside_quantifiers_and_nested_rules() {
    let inner = RuleDef {
        name: "inner".to_string(),
        patterns: vec![triple("likes", 200)],
        items: vec![ThenItem::AssertionTyping { typing: qname(&["Animal"], range(230, 236)), span: range(225, 236) }],
        span: range(190, 240),
    };
    let outer = RuleDef {
        name: "outer".to_string(),
        patterns: vec![Pattern::Quantified {
            patterns: vec![Pattern::Type { type_ref: named_ref(&["Animal"], range(120, 126)), span: range(115, 126) }],
            span: range(100, 126),
        }],
        items: vec![ThenItem::NestedRule { rule: inner }],
        span: range(90, 240),
    };
    let file = OntologyFile { prefixes: Vec::new(), declarations: vec![Declaration::Rule(outer)] };
    assert_eq!(find_references_in_file(&file, "Animal"), vec![range(120, 126).unwrap(), range(225, 236).unwrap()]);
    assert_eq!(find_references_in_file(&file, "likes"), vec![range(203, 208).unwrap()]);
}

#[test]
fn references_without_span_are_skipped() {
    let file = OntologyFile {
        prefixes: Vec::new(),
        declarations: vec![concept("Cat", vec![named_ref(&["Animal"], None)], range(0, 20))],
    };
    assert!(find_references_in_file(&file, "Animal").is_empty());
}
