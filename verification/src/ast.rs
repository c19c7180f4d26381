//! The parsed ontology, as plain values.
//!
//! These types hold what the analysis passes read from a parsed Dolfin file:
//! declarations, names, type references, cardinalities and source spans.

use vstd::prelude::*;
use crate::text::{join, join_strings, views};

verus! {

/// A single point in source code.
#[derive(Clone, Copy, Debug, PartialEq, Eq, Structural)]
pub struct Location {
    /// 1-based line number.
    pub line: usize,
    /// 1-based column number.
    pub column: usize,
    /// 0-based byte offset from the start of the source.
    pub offset: usize,
}

/// A range of source code.
#[derive(Clone, Copy, Debug, PartialEq, Eq, Structural)]
pub struct Span {
    pub start: Location,
    pub end: Location,
}

/// A dot-separated name such as `there.Far`.
pub struct QualifiedName {
    pub parts: Vec<String>,
    pub span: Option<Span>,
}

impl QualifiedName {
    /// All parts joined by `.`.
    pub open spec fn full_name(self) -> Seq<char> {
        join(views(self.parts@), seq!['.'])
    }

    /// The last part, or the empty string when there is none.
    pub open spec fn last_name(self) -> Seq<char> {
        if self.parts@.len() == 0 {
            Seq::empty()
        } else {
            self.parts@.last()@
        }
    }

    /// The name with its parts joined by `.`.
    pub fn full(&self) -> (r: String)
        ensures
            r@ == self.full_name(),
    {
        let sep = ".";
        proof {
            reveal_strlit(".");
        }
        assert(sep@ =~= seq!['.']);
        join_strings(&self.parts, sep)
    }

    /// The last component of the name.
    pub fn last(&self) -> (r: String)
        ensures
            r@ == self.last_name(),
    {
        if self.parts.len() == 0 {
            String::new()
        } else {
            self.parts[self.parts.len() - 1].clone()
        }
    }
}

/// The built-in value types.
#[derive(Clone, Copy, Debug, PartialEq, Eq, Structural)]
pub enum PrimitiveKind {
    String,
    Int,
    Float,
    Boolean,
    Date,
    DateTime,
    Time,
    Duration,
}

/// The name under which a primitive kind is printed.
pub open spec fn primitive_name(k: PrimitiveKind) -> Seq<char> {
    match k {
        PrimitiveKind::String => "String"@,
        PrimitiveKind::Int => "Int"@,
        PrimitiveKind::Float => "Float"@,
        PrimitiveKind::Boolean => "Boolean"@,
        PrimitiveKind::Date => "Date"@,
        PrimitiveKind::DateTime => "DateTime"@,
        PrimitiveKind::Time => "Time"@,
        PrimitiveKind::Duration => "Duration"@,
    }
}

/// The printed name of a primitive kind.
pub fn primitive_text(k: PrimitiveKind) -> (r: String)
    ensures
        r@ == primitive_name(k),
{
    let s = match k {
        PrimitiveKind::String => "String",
        PrimitiveKind::Int => "Int",
        PrimitiveKind::Float => "Float",
        PrimitiveKind::Boolean => "Boolean",
        PrimitiveKind::Date => "Date",
        PrimitiveKind::DateTime => "DateTime",
        PrimitiveKind::Time => "Time",
        PrimitiveKind::Duration => "Duration",
    };
    s.to_owned()
}

/// A reference to a type.
pub enum TypeRef {
    Named { name: QualifiedName, span: Option<Span> },
    Primitive { kind: PrimitiveKind, span: Option<Span> },
    /// `(A or B or C)`.
    Union { members: Vec<TypeRef>, span: Option<Span> },
}

/// How a type reference is printed: a named type by its full name, a
/// primitive by its kind, a union as `(A or B)`.
pub open spec fn type_text(t: TypeRef) -> Seq<char>
    decreases t, 1nat,
{
    match t {
        TypeRef::Named { name, .. } => name.full_name(),
        TypeRef::Primitive { kind, .. } => primitive_name(kind),
        TypeRef::Union { members, .. } => seq!['('] + members_text(members@) + seq![')'],
    }
}

/// The members of a union, printed and joined by ` or `.
pub open spec fn members_text(ms: Seq<TypeRef>) -> Seq<char>
    decreases ms, 0nat,
{
    if ms.len() == 0 {
        Seq::empty()
    } else if ms.len() == 1 {
        type_text(ms[0])
    } else {
        members_text(ms.subrange(0, ms.len() - 1)) + " or "@ + type_text(ms[ms.len() - 1])
    }
}

/// Prints a type reference: a named type by its full name, a primitive by
/// its kind, a union as `(A or B)`.
pub fn type_ref_text(t: &TypeRef) -> (r: String)
    ensures
        r@ == type_text(*t),
    decreases t,
{
    match t {
        TypeRef::Named { name, .. } => name.full(),
        TypeRef::Primitive { kind, .. } => primitive_text(*kind),
        TypeRef::Union { members, .. } => {
            let mut r = "(".to_owned();
            proof {
                reveal_strlit("(");
                assert(members@.subrange(0, 0) =~= Seq::<TypeRef>::empty());
            }
            let mut i: usize = 0;
            while i < members.len()
                invariant
                    i <= members.len(),
                    *t is Union,
                    (*t)->members == *members,
                    r@ == seq!['('] + members_text(members@.subrange(0, i as int)),
                decreases members.len() - i,
            {
                proof {
                    reveal_strlit(" or ");
                }
                let sep = " or ";
                let ghost r0 = r@;
                if i != 0 {
                    r.append(sep);
                }
                proof {
                    let tt = *t;
                    assert(decreases_to!(tt => tt->members));
                    assert(decreases_to!(tt => members@[i as int]));
                }
                let m = type_ref_text(&members[i]);
                r.append(m.as_str());
                proof {
                    let s = members@.subrange(0, i + 1);
                    assert(s.subrange(0, s.len() - 1) =~= members@.subrange(0, i as int));
                    if i == 0 {
                        assert(r0 =~= seq!['(']);
                    }
                    assert(r@ =~= seq!['('] + members_text(s));
                }
                i = i + 1;
            }
            r.append(")");
            proof {
                reveal_strlit(")");
                assert(members@.subrange(0, members.len() as int) =~= members@);
            }
            r
        },
    }
}

/// A cardinality constraint on a property.
pub enum Cardinality {
    /// `one`
    One,
    /// `any`
    Any,
    /// `some`: one or more.
    AtLeastOne,
    /// `optional`
    Optional,
    /// `exactly n`
    Exact { value: usize },
    /// `min..max`, with an open upper end when `max` is `None`.
    Range { min: usize, max: Option<usize> },
}

/// `prefix <path> as <alias>`.
pub struct PrefixDecl {
    pub path: QualifiedName,
    pub alias: String,
    pub span: Option<Span>,
}

/// `has <name>: <cardinality> <type>` inside a concept.
pub struct HasDeclaration {
    pub name: String,
    pub cardinality: Option<Cardinality>,
    pub type_ref: TypeRef,
    pub span: Option<Span>,
}

/// A named individual of a concept's `one of:` block.
pub struct OneOfVariant {
    pub name: String,
    pub span: Option<Span>,
}

/// `concept <name> sub <parents>:` with its body.
pub struct ConceptDef {
    pub name: String,
    pub parents: Vec<TypeRef>,
    pub has_declarations: Vec<HasDeclaration>,
    pub one_of: Option<Vec<OneOfVariant>>,
    pub span: Option<Span>,
}

/// `property <name>: <domain> -> <range>`.
pub struct PropertyDef {
    pub name: String,
    pub domain_cardinality: Option<Cardinality>,
    pub domain: TypeRef,
    pub range_cardinality: Option<Cardinality>,
    pub range: TypeRef,
    pub span: Option<Span>,
}

/// A pattern of a rule's `match:` block.
pub enum Pattern {
    /// `?s property ?o`
    Triple { property: QualifiedName, span: Option<Span> },
    /// `?s a Type`
    Type { type_ref: TypeRef, span: Option<Span> },
    /// `all ?x: ...` and the other quantifiers, with nested patterns.
    Quantified { patterns: Vec<Pattern>, span: Option<Span> },
    /// A call of a named query.
    QueryCall { span: Option<Span> },
    /// `?s is property of ?o`.
    Inverse { span: Option<Span> },
}

/// An item of a rule's `then:` block.
pub enum ThenItem {
    /// `?s property ?o`; `property` is the asserted property.
    AssertionTriple { property: QualifiedName, span: Option<Span> },
    /// `?s a Type`
    AssertionTyping { typing: QualifiedName, span: Option<Span> },
    /// A rule nested in the `then:` block.
    NestedRule { rule: RuleDef },
}

/// `rule <name>:` with its `match:` and `then:` blocks.
pub struct RuleDef {
    pub name: String,
    pub patterns: Vec<Pattern>,
    pub items: Vec<ThenItem>,
    pub span: Option<Span>,
}

/// A top-level declaration.
pub enum Declaration {
    Concept(ConceptDef),
    Property(PropertyDef),
    Rule(RuleDef),
    /// A fact (instance); `id` is its name.
    Fact { id: String, span: Option<Span> },
    /// A named query.
    Query { name: String, span: Option<Span> },
    /// A unit declaration.
    Unit { name: String, span: Option<Span> },
}

/// A parsed ontology file.
pub struct OntologyFile {
    pub prefixes: Vec<PrefixDecl>,
    pub declarations: Vec<Declaration>,
}

} // verus!
