use differential_reasoner::constants::{
    reserved_vocabulary, MAX_CONST, ON_CLASS, SAME_AS, SOME_VALUES_FROM, SUB_CLASS_OF_INTERNED,
    SUB_PROPERTY_OF, TYPE,
};
use differential_reasoner::interning::{encode_triples, intern_vocabulary, vocabulary_interner};

fn terms(v: &[(&str, &str, &str)]) -> Vec<(String, String, String)> {
    v.iter()
        .map(|(s, p, o)| (s.to_string(), p.to_string(), o.to_string()))
        .collect()
}

#[test]
fn interning_gives_dense_identifiers() {
    let mut interner = vocabulary_interner(&vec![]).unwrap();
    let ids = encode_triples(&mut interner, &terms(&[("a", "b", "c"), ("c", "b", "d")]));
    assert_eq!(ids, vec![(1, 2, 3), (3, 2, 4)]);
}

#[test]
fn vocabulary_gets_reserved_identifiers() {
    let vocabulary = reserved_vocabulary();
    assert_eq!(vocabulary.len(), MAX_CONST as usize);
    let mut interner = vocabulary_interner(&vocabulary).unwrap();
    let ids = encode_triples(
        &mut interner,
        &terms(&[
            (
                "<http://example.org/x>",
                "<http://www.w3.org/1999/02/22-rdf-syntax-ns#type>",
                "<http://www.w3.org/2002/07/owl#sameAs>",
            ),
            (
                "<http://www.w3.org/2000/01/rdf-schema#subPropertyOf>",
                "<http://www.w3.org/2002/07/owl#someValuesFrom>",
                "<http://www.w3.org/2000/01/rdf-schema#subClassOf>",
            ),
            (
                "<http://www.w3.org/2002/07/owl#onClass>",
                "<http://example.org/x>",
                "<http://example.org/y>",
            ),
        ]),
    );
    assert_eq!(ids[0], (MAX_CONST + 1, TYPE, SAME_AS));
    assert_eq!(ids[1], (SUB_PROPERTY_OF, SOME_VALUES_FROM, SUB_CLASS_OF_INTERNED));
    assert_eq!(ids[2], (ON_CLASS, MAX_CONST + 1, MAX_CONST + 2));
}

#[test]
fn vocabulary_after_other_terms_is_refused() {
    let mut interner = vocabulary_interner(&vec![]).unwrap();
    encode_triples(&mut interner, &terms(&[("a", "b", "c")]));
    assert_eq!(intern_vocabulary(&mut interner, &reserved_vocabulary()), Err(0));
}

#[test]
fn repeated_vocabulary_term_is_refused() {
    assert_eq!(vocabulary_interner(&vec!["a", "b", "a"]).err(), Some(2));
    let mut interner = vocabulary_interner(&vec!["a", "b"]).unwrap();
    assert_eq!(intern_vocabulary(&mut interner, &vec!["a", "b"]), Ok(()));
    assert_eq!(intern_vocabulary(&mut interner, &vec!["a", "b", "x", "b"]), Err(3));
    assert_eq!(intern_vocabulary(&mut interner, &vec!["a", "c"]), Err(1));
}
