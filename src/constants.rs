use vstd::prelude::*;

verus! {

/// `rdfs:subClassOf` in the encoded vocabulary.
pub const SUB_CLASS_OF: u32 = 0;

/// `rdfs:subPropertyOf`.
pub const SUB_PROPERTY_OF: u32 = 1;

/// `rdfs:domain`.
pub const DOMAIN: u32 = 2;

/// `rdfs:range`.
pub const RANGE: u32 = 3;

/// `rdf:type`.
pub const TYPE: u32 = 4;

/// `owl:TransitiveProperty`.
pub const TRANSITIVE_PROPERTY: u32 = 5;

/// `owl:inverseOf`.
pub const INVERSE_OF: u32 = 6;

/// `owl:Thing`.
pub const THING: u32 = 7;

/// `rdfs:comment`.
pub const COMMENT: u32 = 8;

/// `rdf:rest`.
pub const REST: u32 = 9;

/// `rdf:first`.
pub const FIRST: u32 = 10;

/// `owl:maxQualifiedCardinality`.
pub const MAX_QUALIFIED_CARDINALITY: u32 = 11;

/// `owl:someValuesFrom`.
pub const SOME_VALUES_FROM: u32 = 12;

/// `owl:equivalentClass`.
pub const EQUIVALENT_CLASS: u32 = 13;

/// `owl:intersectionOf`.
pub const INTERSECTION_OF: u32 = 14;

/// `owl:members`.
pub const MEMBERS: u32 = 15;

/// `owl:equivalentProperty`.
pub const EQUIVALENT_PROPERTY: u32 = 16;

/// `owl:onProperty`.
pub const ON_PROPERTY: u32 = 17;

/// `owl:propertyChainAxiom`.
pub const PROPERTY_CHAIN_AXIOM: u32 = 18;

/// `owl:disjointWith`.
pub const DISJOINT_WITH: u32 = 19;

/// `owl:propertyDisjointWith`.
pub const PROPERTY_DISJOINT_WITH: u32 = 20;

/// `owl:unionOf`.
pub const UNION_OF: u32 = 21;

/// `rdfs:label`.
pub const LABEL: u32 = 22;

/// `owl:hasKey`.
pub const HAS_KEY: u32 = 23;

/// `owl:allValuesFrom`.
pub const ALL_VALUES_FROM: u32 = 24;

/// `owl:complementOf`.
pub const COMPLEMENT_OF: u32 = 25;

/// `owl:onClass`.
pub const ON_CLASS: u32 = 26;

/// `owl:distinctMembers`.
pub const DISTINCT_MEMBERS: u32 = 27;

/// `owl:FunctionalProperty`.
pub const FUNCTIONAL_PROPERTY: u32 = 28;

/// `owl:NamedIndividual`.
pub const NAMED_INDIVIDUAL: u32 = 29;

/// `owl:ObjectProperty`.
pub const OBJECT_PROPERTY: u32 = 30;

/// `rdf:nil`.
pub const NIL: u32 = 31;

/// `owl:Class`.
pub const CLASS: u32 = 32;

/// `"1"^^xsd:nonNegativeInteger`.
pub const NON_NEGATIVE_INTEGER_1: u32 = 33;

/// `"0"^^xsd:nonNegativeInteger`.
pub const NON_NEGATIVE_INTEGER_0: u32 = 34;

/// `owl:AllDisjointClasses`.
pub const ALL_DISJOINT_CLASSES: u32 = 35;

/// `owl:Restriction`.
pub const RESTRICTION: u32 = 36;

/// `owl:DatatypeProperty`.
pub const DATATYPE_PROPERTY: u32 = 37;

/// `rdfs:Literal`.
pub const LITERAL: u32 = 38;

/// `owl:Ontology`.
pub const ONTOLOGY: u32 = 39;

/// `owl:AsymmetricProperty`.
pub const ASYMMETRIC_PROPERTY: u32 = 40;

/// `owl:SymmetricProperty`.
pub const SYMMETRIC_PROPERTY: u32 = 41;

/// `owl:IrreflexiveProperty`.
pub const IRREFLEXIVE_PROPERTY: u32 = 42;

/// `owl:AllDifferent`.
pub const ALL_DIFFERENT: u32 = 43;

/// `owl:InverseFunctionalProperty`.
pub const INVERSE_FUNCTIONAL_PROPERTY: u32 = 44;

/// `owl:sameAs`.
pub const SAME_AS: u32 = 45;

/// `rdfs:subClassOf` as the interner assigns it: the last reserved term.
pub const SUB_CLASS_OF_INTERNED: u32 = 46;

/// The largest identifier reserved for schema vocabulary.
pub const MAX_CONST: u32 = 46;

/// Whether `p` names `rdfs:subClassOf` (both encodings are accepted).
pub open spec fn is_sco(p: u32) -> bool {
    p == SUB_CLASS_OF || p == SUB_CLASS_OF_INTERNED
}

/// Executable form of [`is_sco`].
pub fn sco_predicate(p: u32) -> (r: bool)
    ensures
        r == is_sco(p),
{
    p == SUB_CLASS_OF || p == SUB_CLASS_OF_INTERNED
}

/// The reserved vocabulary in the order the interner must see it: the term
/// at index `i` gets the identifier `i + 1`, so `rdfs:subClassOf` comes last,
/// as `MAX_CONST`.
pub fn reserved_vocabulary() -> (r: Vec<&'static str>)
    ensures
        r@.len() == MAX_CONST,
        r@[0]@ == "<http://www.w3.org/2000/01/rdf-schema#subPropertyOf>"@,
        r@[1]@ == "<http://www.w3.org/2000/01/rdf-schema#domain>"@,
        r@[2]@ == "<http://www.w3.org/2000/01/rdf-schema#range>"@,
        r@[3]@ == "<http://www.w3.org/1999/02/22-rdf-syntax-ns#type>"@,
        r@[4]@ == "<http://www.w3.org/2002/07/owl#TransitiveProperty>"@,
        r@[5]@ == "<http://www.w3.org/2002/07/owl#inverseOf>"@,
        r@[6]@ == "<http://www.w3.org/2002/07/owl#Thing>"@,
        r@[7]@ == "<http://www.w3.org/2000/01/rdf-schema#comment>"@,
        r@[8]@ == "<http://www.w3.org/1999/02/22-rdf-syntax-ns#rest>"@,
        r@[9]@ == "<http://www.w3.org/1999/02/22-rdf-syntax-ns#first>"@,
        r@[10]@ == "<http://www.w3.org/2002/07/owl#maxQualifiedCardinality>"@,
        r@[11]@ == "<http://www.w3.org/2002/07/owl#someValuesFrom>"@,
        r@[12]@ == "<http://www.w3.org/2002/07/owl#equivalentClass>"@,
        r@[13]@ == "<http://www.w3.org/2002/07/owl#intersectionOf>"@,
        r@[14]@ == "<http://www.w3.org/2002/07/owl#members>"@,
        r@[15]@ == "<http://www.w3.org/2002/07/owl#equivalentProperty>"@,
        r@[16]@ == "<http://www.w3.org/2002/07/owl#onProperty>"@,
        r@[17]@ == "<http://www.w3.org/2002/07/owl#propertyChainAxiom>"@,
        r@[18]@ == "<http://www.w3.org/2002/07/owl#disjointWith>"@,
        r@[19]@ == "<http://www.w3.org/2002/07/owl#propertyDisjointWith>"@,
        r@[20]@ == "<http://www.w3.org/2002/07/owl#unionOf>"@,
        r@[21]@ == "<http://www.w3.org/2000/01/rdf-schema#label>"@,
        r@[22]@ == "<http://www.w3.org/2002/07/owl#hasKey>"@,
        r@[23]@ == "<http://www.w3.org/2002/07/owl#allValuesFrom>"@,
        r@[24]@ == "<http://www.w3.org/2002/07/owl#complementOf>"@,
        r@[25]@ == "<http://www.w3.org/2002/07/owl#onClass>"@,
        r@[26]@ == "<http://www.w3.org/2002/07/owl#distinctMembers>"@,
        r@[27]@ == "<http://www.w3.org/2002/07/owl#FunctionalProperty>"@,
        r@[28]@ == "<http://www.w3.org/2002/07/owl#NamedIndividual>"@,
        r@[29]@ == "<http://www.w3.org/2002/07/owl#ObjectProperty>"@,
        r@[30]@ == "<http://www.w3.org/1999/02/22-rdf-syntax-ns#nil>"@,
        r@[31]@ == "<http://www.w3.org/2002/07/owl#Class>"@,
        r@[32]@ == "\"1\"^^<http://www.w3.org/2001/XMLSchema#nonNegativeInteger>"@,
        r@[33]@ == "\"0\"^^<http://www.w3.org/2001/XMLSchema#nonNegativeInteger>"@,
        r@[34]@ == "<http://www.w3.org/2002/07/owl#AllDisjointClasses>"@,
        r@[35]@ == "<http://www.w3.org/2002/07/owl#Restriction>"@,
        r@[36]@ == "<http://www.w3.org/2002/07/owl#DatatypeProperty>"@,
        r@[37]@ == "<http://www.w3.org/2000/01/rdf-schema#Literal>"@,
        r@[38]@ == "<http://www.w3.org/2002/07/owl#Ontology>"@,
        r@[39]@ == "<http://www.w3.org/2002/07/owl#AsymmetricProperty>"@,
        r@[40]@ == "<http://www.w3.org/2002/07/owl#SymmetricProperty>"@,
        r@[41]@ == "<http://www.w3.org/2002/07/owl#IrreflexiveProperty>"@,
        r@[42]@ == "<http://www.w3.org/2002/07/owl#AllDifferent>"@,
        r@[43]@ == "<http://www.w3.org/2002/07/owl#InverseFunctionalProperty>"@,
        r@[44]@ == "<http://www.w3.org/2002/07/owl#sameAs>"@,
        r@[45]@ == "<http://www.w3.org/2000/01/rdf-schema#subClassOf>"@,
{
    vec![
        "<http://www.w3.org/2000/01/rdf-schema#subPropertyOf>",
        "<http://www.w3.org/2000/01/rdf-schema#domain>",
        "<http://www.w3.org/2000/01/rdf-schema#range>",
        "<http://www.w3.org/1999/02/22-rdf-syntax-ns#type>",
        "<http://www.w3.org/2002/07/owl#TransitiveProperty>",
        "<http://www.w3.org/2002/07/owl#inverseOf>",
        "<http://www.w3.org/2002/07/owl#Thing>",
        "<http://www.w3.org/2000/01/rdf-schema#comment>",
        "<http://www.w3.org/1999/02/22-rdf-syntax-ns#rest>",
        "<http://www.w3.org/1999/02/22-rdf-syntax-ns#first>",
        "<http://www.w3.org/2002/07/owl#maxQualifiedCardinality>",
        "<http://www.w3.org/2002/07/owl#someValuesFrom>",
        "<http://www.w3.org/2002/07/owl#equivalentClass>",
        "<http://www.w3.org/2002/07/owl#intersectionOf>",
        "<http://www.w3.org/2002/07/owl#members>",
        "<http://www.w3.org/2002/07/owl#equivalentProperty>",
        "<http://www.w3.org/2002/07/owl#onProperty>",
        "<http://www.w3.org/2002/07/owl#propertyChainAxiom>",
        "<http://www.w3.org/2002/07/owl#disjointWith>",
        "<http://www.w3.org/2002/07/owl#propertyDisjointWith>",
        "<http://www.w3.org/2002/07/owl#unionOf>",
        "<http://www.w3.org/2000/01/rdf-schema#label>",
        "<http://www.w3.org/2002/07/owl#hasKey>",
        "<http://www.w3.org/2002/07/owl#allValuesFrom>",
        "<http://www.w3.org/2002/07/owl#complementOf>",
        "<http://www.w3.org/2002/07/owl#onClass>",
        "<http://www.w3.org/2002/07/owl#distinctMembers>",
        "<http://www.w3.org/2002/07/owl#FunctionalProperty>",
        "<http://www.w3.org/2002/07/owl#NamedIndividual>",
        "<http://www.w3.org/2002/07/owl#ObjectProperty>",
        "<http://www.w3.org/1999/02/22-rdf-syntax-ns#nil>",
        "<http://www.w3.org/2002/07/owl#Class>",
        "\"1\"^^<http://www.w3.org/2001/XMLSchema#nonNegativeInteger>",
        "\"0\"^^<http://www.w3.org/2001/XMLSchema#nonNegativeInteger>",
        "<http://www.w3.org/2002/07/owl#AllDisjointClasses>",
        "<http://www.w3.org/2002/07/owl#Restriction>",
        "<http://www.w3.org/2002/07/owl#DatatypeProperty>",
        "<http://www.w3.org/2000/01/rdf-schema#Literal>",
        "<http://www.w3.org/2002/07/owl#Ontology>",
        "<http://www.w3.org/2002/07/owl#AsymmetricProperty>",
        "<http://www.w3.org/2002/07/owl#SymmetricProperty>",
        "<http://www.w3.org/2002/07/owl#IrreflexiveProperty>",
        "<http://www.w3.org/2002/07/owl#AllDifferent>",
        "<http://www.w3.org/2002/07/owl#InverseFunctionalProperty>",
        "<http://www.w3.org/2002/07/owl#sameAs>",
        "<http://www.w3.org/2000/01/rdf-schema#subClassOf>",
    ]
}

} // verus!
