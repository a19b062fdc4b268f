use vstd::multiset::Multiset;
use vstd::prelude::*;

use crate::constants::{
    is_sco, sco_predicate, ALL_VALUES_FROM, DOMAIN, EQUIVALENT_CLASS, EQUIVALENT_PROPERTY, FIRST,
    FUNCTIONAL_PROPERTY, HAS_KEY, INTERSECTION_OF, INVERSE_FUNCTIONAL_PROPERTY, INVERSE_OF,
    MAX_QUALIFIED_CARDINALITY, NIL, NON_NEGATIVE_INTEGER_1, ON_CLASS, ON_PROPERTY,
    PROPERTY_CHAIN_AXIOM, RANGE, REST, SOME_VALUES_FROM, SUB_PROPERTY_OF, SYMMETRIC_PROPERTY, THING,
    SUB_CLASS_OF, SUB_CLASS_OF_INTERNED, TRANSITIVE_PROPERTY, TYPE, UNION_OF,
};
use crate::fixpoint::{is_lfp, is_rule_step, iterate, lemma_lfp_grows, lemma_lfp_of_fixed, lemma_lfp_unique};
use crate::owl2rl::class_rules::{
    cls_avf, cls_int1, cls_int2, cls_maxqc3, cls_svf1, cls_svf2, cls_uni, intersection_set,
    members_from_each, members_to_each, qualified_statements,
};
use crate::owl2rl::property_rules::{
    chain_set, key_set, keyed_statements, prp_dom, prp_fp, prp_ifp, prp_inv1, prp_key, prp_rng, prp_spo1,
    prp_spo2, prp_symp, prp_trp, statements_of,
};
use crate::lifecycle::{stage_next, stage_step, Stage, StageEvent};
use crate::materializations::{add_all, lemma_multiset_dom, remove_all};
use crate::owl2rl::disjoint_set::{is_canonical_map, merged_map, DisjointSet};
use crate::rdfs_materialization::{chain_closure, chain_step, lemma_chain_step_apply, only};
use crate::rules::{
    apply, apply_set, fire, join_set, lemma_apply_monotone, lemma_join_monotone, map_fire, Lift, Rule,
};
use crate::triple_set::{contains, distinct, extend, lemma_unique_seq_bound, Triple};

verus! {

/// The RDF lists that start at `h` in `t`, of at most `fuel` items: every
/// way of following `rdf:first` and `rdf:rest` from `h` to `rdf:nil`.
pub open spec fn list_set(t: Seq<Triple>, h: u32, fuel: nat) -> Set<Seq<u32>>
    decreases fuel,
{
    if h == NIL {
        set![Seq::empty()]
    } else if fuel == 0 {
        Set::empty()
    } else {
        Set::new(
            |l: Seq<u32>|
                l.len() > 0 && t.contains((h, FIRST, l[0])) && exists|r: u32|
                    #[trigger] t.contains((h, REST, r)) && list_set(t, r, (fuel - 1) as nat).contains(l.drop_first()),
        )
    }
}

/// The RDF lists at `h` in the schema `t`, of at most as many items as `t`
/// has distinct statements.
pub open spec fn schema_lists(t: Seq<Triple>, h: u32) -> Set<Seq<u32>> {
    list_set(t, h, t.to_set().len())
}

/// A schema statement whose object is an RDF list.
#[derive(Clone, Copy)]
pub enum ListRule {
    /// `hasKey`: the list holds the key properties.
    Key,
    /// `intersectionOf`: the list holds the classes.
    Intersection,
    /// `unionOf`: the list holds the classes.
    Union,
    /// `propertyChainAxiom`: the list holds the chain.
    Chain,
}

/// What the statement `(s, rule, list)` derives from `d` for one list.
pub open spec fn list_rule_set(rule: ListRule, d: Set<Triple>, s: u32, items: Seq<u32>) -> Set<Triple> {
    match rule {
        ListRule::Key => key_set(d, s, items),
        ListRule::Intersection => intersection_set(d, items, s).union(members_to_each(d, s, items)),
        ListRule::Union => members_from_each(d, items, s),
        ListRule::Chain => chain_set(d, items, s),
    }
}

/// What the statement `(s, rule, _)` derives from `d` for each list of
/// `lists`.
pub open spec fn over_lists(rule: ListRule, lists: Set<Seq<u32>>, d: Set<Triple>, s: u32) -> Set<Triple> {
    Set::new(|z: Triple| exists|l: Seq<u32>| lists.contains(l) && #[trigger] list_rule_set(rule, d, s, l).contains(z))
}

/// The objects of the statements `(s, p, _)` of `t`.
pub open spec fn objects_of(t: Seq<Triple>, s: u32, p: u32) -> Set<u32> {
    Set::new(|q: u32| t.contains((s, p, q)))
}

/// A restriction class `x` with its filler or its qualifying class, whose
/// property is given apart.
#[derive(Clone, Copy)]
pub enum Restriction {
    /// `x = allValuesFrom y`.
    AllValues(u32, u32),
    /// `x = someValuesFrom y`.
    SomeValues(u32, u32),
    /// `x = maxQualifiedCardinality 1 of class c`.
    MaxQualified(u32, u32),
}

/// What the restriction `r` on the property `q` derives from `d`.
pub open spec fn restriction_set(r: Restriction, q: u32, d: Set<Triple>) -> Set<Triple> {
    match r {
        Restriction::AllValues(x, y) => join_set(Rule::AllValues(x, q, y), d, d),
        Restriction::SomeValues(x, y) => if y == THING {
            apply_set(Lift::SubjectType(q, x), d)
        } else {
            join_set(Rule::SomeValues(q, y, x), d, d)
        },
        Restriction::MaxQualified(x, c) => join_set(
            Rule::OrderedValues,
            qualified_statements(d, x, q, c),
            qualified_statements(d, x, q, c),
        ),
    }
}

/// What the restriction `r` derives from `d` on each property of `qs`.
pub open spec fn over_properties(r: Restriction, qs: Set<u32>, d: Set<Triple>) -> Set<Triple> {
    Set::new(|z: Triple| exists|q: u32| qs.contains(q) && #[trigger] restriction_set(r, q, d).contains(z))
}

/// What the schema statement `x` of the schema `t` derives from the data `d`
/// in one round of the OWL 2 RL rules.
pub open spec fn fired(t: Seq<Triple>, x: Triple, d: Set<Triple>) -> Set<Triple> {
    let (s, p, o) = x;
    if p == TYPE {
        if o == FUNCTIONAL_PROPERTY {
            join_set(Rule::SameSubject, statements_of(d, s), statements_of(d, s))
        } else if o == INVERSE_FUNCTIONAL_PROPERTY {
            join_set(Rule::SameObject, statements_of(d, s), statements_of(d, s))
        } else if o == SYMMETRIC_PROPERTY {
            apply_set(Lift::Swap(s, s), d)
        } else if o == TRANSITIVE_PROPERTY {
            join_set(Rule::Compose, statements_of(d, s), statements_of(d, s))
        } else {
            Set::empty()
        }
    } else if p == DOMAIN {
        apply_set(Lift::SubjectType(s, o), d)
    } else if p == RANGE {
        apply_set(Lift::ObjectType(s, o), d)
    } else if is_sco(p) {
        apply_set(Lift::Retype(s, o), d)
    } else if p == EQUIVALENT_CLASS {
        apply_set(Lift::Retype(s, o), d).union(apply_set(Lift::Retype(o, s), d))
    } else if p == SUB_PROPERTY_OF {
        apply_set(Lift::Rename(s, o), d)
    } else if p == EQUIVALENT_PROPERTY {
        apply_set(Lift::Rename(s, o), d).union(apply_set(Lift::Rename(o, s), d))
    } else if p == INVERSE_OF {
        apply_set(Lift::Swap(s, o), d).union(apply_set(Lift::Swap(o, s), d))
    } else if p == ALL_VALUES_FROM {
        over_properties(Restriction::AllValues(s, o), objects_of(t, s, ON_PROPERTY), d)
    } else if p == SOME_VALUES_FROM {
        over_properties(Restriction::SomeValues(s, o), objects_of(t, s, ON_PROPERTY), d)
    } else if p == MAX_QUALIFIED_CARDINALITY && o == NON_NEGATIVE_INTEGER_1 {
        Set::new(
            |z: Triple|
                exists|c: u32|
                    objects_of(t, s, ON_CLASS).contains(c) && #[trigger] over_properties(
                        Restriction::MaxQualified(s, c),
                        objects_of(t, s, ON_PROPERTY),
                        d,
                    ).contains(z),
        )
    } else if p == HAS_KEY {
        over_lists(ListRule::Key, schema_lists(t, o), d, s)
    } else if p == INTERSECTION_OF {
        over_lists(ListRule::Intersection, schema_lists(t, o), d, s)
    } else if p == UNION_OF {
        over_lists(ListRule::Union, schema_lists(t, o), d, s)
    } else if p == PROPERTY_CHAIN_AXIOM {
        over_lists(ListRule::Chain, schema_lists(t, o), d, s)
    } else {
        Set::empty()
    }
}

/// What one round of the OWL 2 RL rules of the schema `t` derives from `d`.
pub open spec fn owl_derive(t: Seq<Triple>, d: Set<Triple>) -> Set<Triple> {
    Set::new(|z: Triple| exists|i: int| 0 <= i < t.len() && #[trigger] fired(t, t[i], d).contains(z))
}

/// One round of the OWL 2 RL rules of the schema `t`.
pub open spec fn owl_step(t: Seq<Triple>) -> spec_fn(Set<Triple>) -> Set<Triple> {
    |d: Set<Triple>| d.union(owl_derive(t, d))
}

proof fn lemma_chain_set_monotone(d: Set<Triple>, d2: Set<Triple>, chain: Seq<u32>, p: u32)
    requires
        d.subset_of(d2),
    ensures
        chain_set(d, chain, p).subset_of(chain_set(d2, chain, p)),
    decreases chain.len(),
{
    if chain.len() == 1 {
        lemma_apply_monotone(Lift::Rename(chain[0], p), d, d2);
    } else if chain.len() > 1 {
        lemma_chain_set_monotone(d, d2, chain.drop_last(), p);
        lemma_join_monotone(Rule::Extend(p, chain.last()), chain_set(d, chain.drop_last(), p), d, chain_set(d2, chain.drop_last(), p), d2);
    }
}

proof fn lemma_intersection_monotone(d: Set<Triple>, d2: Set<Triple>, classes: Seq<u32>, c: u32)
    requires
        d.subset_of(d2),
    ensures
        intersection_set(d, classes, c).subset_of(intersection_set(d2, classes, c)),
    decreases classes.len(),
{
    if classes.len() == 1 {
        lemma_apply_monotone(Lift::Retype(classes[0], c), d, d2);
    } else if classes.len() > 1 {
        lemma_intersection_monotone(d, d2, classes.drop_last(), c);
        lemma_join_monotone(Rule::AlsoTyped(c, classes.last()), intersection_set(d, classes.drop_last(), c), d, intersection_set(d2, classes.drop_last(), c), d2);
    }
}

proof fn lemma_members_monotone(d: Set<Triple>, d2: Set<Triple>, classes: Seq<u32>, c: u32)
    requires
        d.subset_of(d2),
    ensures
        members_to_each(d, c, classes).subset_of(members_to_each(d2, c, classes)),
        members_from_each(d, classes, c).subset_of(members_from_each(d2, classes, c)),
    decreases classes.len(),
{
    if classes.len() > 0 {
        lemma_members_monotone(d, d2, classes.drop_last(), c);
        lemma_apply_monotone(Lift::Retype(c, classes.last()), d, d2);
        lemma_apply_monotone(Lift::Retype(classes.last(), c), d, d2);
    }
}

proof fn lemma_key_set_monotone(d: Set<Triple>, d2: Set<Triple>, c: u32, keys: Seq<u32>)
    requires
        d.subset_of(d2),
    ensures
        key_set(d, c, keys).subset_of(key_set(d2, c, keys)),
    decreases keys.len(),
{
    if keys.len() == 1 {
        lemma_apply_monotone(Lift::Rename(keys[0], keys[0]), d, d2);
        lemma_join_monotone(Rule::SubjectTyped(c), statements_of(d, keys[0]), d, statements_of(d2, keys[0]), d2);
        let k1 = keyed_statements(d, c, keys[0]);
        let k2 = keyed_statements(d2, c, keys[0]);
        lemma_join_monotone(Rule::SharedValue, k1, k1, k2, k2);
    } else if keys.len() > 1 {
        lemma_key_set_monotone(d, d2, c, keys.drop_last());
        lemma_apply_monotone(Lift::Rename(keys.last(), keys.last()), d, d2);
        let s1 = statements_of(d, keys.last());
        let s2 = statements_of(d2, keys.last());
        lemma_join_monotone(Rule::SharedValue, s1, s1, s2, s2);
    }
}

proof fn lemma_restriction_monotone(r: Restriction, q: u32, d: Set<Triple>, d2: Set<Triple>)
    requires
        d.subset_of(d2),
    ensures
        restriction_set(r, q, d).subset_of(restriction_set(r, q, d2)),
{
    match r {
        Restriction::AllValues(x, y) => {
            lemma_join_monotone(Rule::AllValues(x, q, y), d, d, d2, d2);
        },
        Restriction::SomeValues(x, y) => {
            lemma_apply_monotone(Lift::SubjectType(q, x), d, d2);
            lemma_join_monotone(Rule::SomeValues(q, y, x), d, d, d2, d2);
        },
        Restriction::MaxQualified(x, c) => {
            lemma_apply_monotone(Lift::Rename(q, q), d, d2);
            lemma_join_monotone(Rule::SubjectTyped(x), statements_of(d, q), d, statements_of(d2, q), d2);
            let r1 = join_set(Rule::SubjectTyped(x), statements_of(d, q), d);
            let r2 = join_set(Rule::SubjectTyped(x), statements_of(d2, q), d2);
            lemma_join_monotone(Rule::ObjectTyped(c), r1, d, r2, d2);
            let q1 = qualified_statements(d, x, q, c);
            let q2 = qualified_statements(d2, x, q, c);
            lemma_join_monotone(Rule::OrderedValues, q1, q1, q2, q2);
        },
    }
}

/// A restriction derives more from more data and more properties.
proof fn lemma_over_properties_monotone(r: Restriction, qs: Set<u32>, qs2: Set<u32>, d: Set<Triple>, d2: Set<Triple>)
    requires
        qs.subset_of(qs2),
        d.subset_of(d2),
    ensures
        over_properties(r, qs, d).subset_of(over_properties(r, qs2, d2)),
{
    assert forall|z: Triple| over_properties(r, qs, d).contains(z) implies over_properties(r, qs2, d2).contains(z) by {
        let q = choose|q: u32| qs.contains(q) && #[trigger] restriction_set(r, q, d).contains(z);
        lemma_restriction_monotone(r, q, d, d2);
        assert(restriction_set(r, q, d2).contains(z));
    }
}

/// What a schema statement derives grows with the data.
proof fn lemma_fired_monotone(t: Seq<Triple>, x: Triple, d: Set<Triple>, d2: Set<Triple>)
    requires
        d.subset_of(d2),
    ensures
        fired(t, x, d).subset_of(fired(t, x, d2)),
{
    let (s, p, o) = x;
    lemma_apply_monotone(Lift::Rename(s, s), d, d2);
    let sd = statements_of(d, s);
    let sd2 = statements_of(d2, s);
    lemma_join_monotone(Rule::SameSubject, sd, sd, sd2, sd2);
    lemma_join_monotone(Rule::SameObject, sd, sd, sd2, sd2);
    lemma_join_monotone(Rule::Compose, sd, sd, sd2, sd2);
    lemma_apply_monotone(Lift::Swap(s, s), d, d2);
    lemma_apply_monotone(Lift::SubjectType(s, o), d, d2);
    lemma_apply_monotone(Lift::ObjectType(s, o), d, d2);
    lemma_apply_monotone(Lift::Retype(s, o), d, d2);
    lemma_apply_monotone(Lift::Retype(o, s), d, d2);
    lemma_apply_monotone(Lift::Rename(s, o), d, d2);
    lemma_apply_monotone(Lift::Rename(o, s), d, d2);
    lemma_apply_monotone(Lift::Swap(s, o), d, d2);
    lemma_apply_monotone(Lift::Swap(o, s), d, d2);
    let qs = objects_of(t, s, ON_PROPERTY);
    lemma_over_properties_monotone(Restriction::AllValues(s, o), qs, qs, d, d2);
    lemma_over_properties_monotone(Restriction::SomeValues(s, o), qs, qs, d, d2);
    assert forall|c: u32| #[trigger] over_properties(Restriction::MaxQualified(s, c), qs, d).subset_of(
        over_properties(Restriction::MaxQualified(s, c), qs, d2),
    ) by {
        lemma_over_properties_monotone(Restriction::MaxQualified(s, c), qs, qs, d, d2);
    }
    let cs = objects_of(t, s, ON_CLASS);
    if p == MAX_QUALIFIED_CARDINALITY && o == NON_NEGATIVE_INTEGER_1 {
        assert forall|z: Triple| #[trigger] fired(t, x, d).contains(z) implies fired(t, x, d2).contains(z) by {
            let c = choose|c: u32| cs.contains(c) && #[trigger] over_properties(Restriction::MaxQualified(s, c), qs, d).contains(z);
            assert(over_properties(Restriction::MaxQualified(s, c), qs, d).subset_of(
                over_properties(Restriction::MaxQualified(s, c), qs, d2),
            ));
        }
    }
    let ls = schema_lists(t, o);
    assert forall|rule: ListRule| #[trigger] over_lists(rule, ls, d, s).subset_of(over_lists(rule, ls, d2, s)) by {
        lemma_over_lists_monotone(rule, ls, ls, d, d2, s);
    }
}

/// One round of the OWL 2 RL rules keeps every triple and grows with its
/// input.
pub proof fn lemma_owl_step(t: Seq<Triple>)
    ensures
        is_rule_step(owl_step(t)),
{
    assert forall|a: Set<Triple>, b: Set<Triple>| a.subset_of(b) implies #[trigger] owl_step(t)(a).subset_of(
        #[trigger] owl_step(t)(b),
    ) by {
        assert forall|z: Triple| owl_derive(t, a).contains(z) implies owl_derive(t, b).contains(z) by {
            let i = choose|i: int| 0 <= i < t.len() && #[trigger] fired(t, t[i], a).contains(z);
            lemma_fired_monotone(t, t[i], a, b);
        }
    }
}

/// Materializing an OWL 2 RL materialization again changes nothing.
pub proof fn law_owl_idempotent(tbox: Seq<Triple>, abox: Set<Triple>, out: Set<Triple>, out2: Set<Triple>)
    requires
        is_lfp(owl_step(tbox), abox, out),
        is_lfp(owl_step(tbox), out, out2),
    ensures
        out2 == out,
{
    lemma_owl_step(tbox);
    lemma_lfp_of_fixed(owl_step(tbox), out);
    lemma_lfp_unique(owl_step(tbox), out, out, out2);
}

/// Under one schema, more data gives a larger OWL 2 RL materialization.
pub proof fn law_owl_monotone(
    tbox: Seq<Triple>,
    abox: Set<Triple>,
    abox2: Set<Triple>,
    out: Set<Triple>,
    out2: Set<Triple>,
)
    requires
        abox.subset_of(abox2),
        is_lfp(owl_step(tbox), abox, out),
        is_lfp(owl_step(tbox), abox2, out2),
    ensures
        out.subset_of(out2),
{
    lemma_owl_step(tbox);
    lemma_lfp_grows(owl_step(tbox), owl_step(tbox), abox, abox2, out, out2);
}

/// The lists of a larger schema, walked at least as far, include the lists
/// of a smaller one.
proof fn lemma_list_set_monotone(t: Seq<Triple>, t2: Seq<Triple>, h: u32, f: nat, f2: nat)
    requires
        forall|y: Triple| t.contains(y) ==> t2.contains(y),
        f <= f2,
    ensures
        list_set(t, h, f).subset_of(list_set(t2, h, f2)),
    decreases f,
{
    if h != NIL && f > 0 {
        assert forall|l: Seq<u32>| list_set(t, h, f).contains(l) implies list_set(t2, h, f2).contains(l) by {
            let r = choose|r: u32| #[trigger] t.contains((h, REST, r)) && list_set(t, r, (f - 1) as nat).contains(l.drop_first());
            lemma_list_set_monotone(t, t2, r, (f - 1) as nat, (f2 - 1) as nat);
            assert(t2.contains((h, REST, r)));
            assert(list_set(t2, r, (f2 - 1) as nat).contains(l.drop_first()));
        }
    }
}

proof fn lemma_list_rule_monotone(rule: ListRule, d: Set<Triple>, d2: Set<Triple>, s: u32, l: Seq<u32>)
    requires
        d.subset_of(d2),
    ensures
        list_rule_set(rule, d, s, l).subset_of(list_rule_set(rule, d2, s, l)),
{
    lemma_key_set_monotone(d, d2, s, l);
    lemma_intersection_monotone(d, d2, l, s);
    lemma_members_monotone(d, d2, l, s);
    lemma_chain_set_monotone(d, d2, l, s);
}

/// A list statement derives more from more lists and more data.
proof fn lemma_over_lists_monotone(rule: ListRule, ls: Set<Seq<u32>>, ls2: Set<Seq<u32>>, d: Set<Triple>, d2: Set<Triple>, s: u32)
    requires
        ls.subset_of(ls2),
        d.subset_of(d2),
    ensures
        over_lists(rule, ls, d, s).subset_of(over_lists(rule, ls2, d2, s)),
{
    assert forall|z: Triple| over_lists(rule, ls, d, s).contains(z) implies over_lists(rule, ls2, d2, s).contains(z) by {
        let l = choose|l: Seq<u32>| ls.contains(l) && #[trigger] list_rule_set(rule, d, s, l).contains(z);
        lemma_list_rule_monotone(rule, d, d2, s, l);
        assert(list_rule_set(rule, d2, s, l).contains(z));
    }
}

/// What a schema statement derives grows with the schema.
proof fn lemma_fired_schema_monotone(t: Seq<Triple>, t2: Seq<Triple>, x: Triple, d: Set<Triple>)
    requires
        forall|y: Triple| t.contains(y) ==> t2.contains(y),
    ensures
        fired(t, x, d).subset_of(fired(t2, x, d)),
{
    let (s, p, o) = x;
    assert(t.to_set().subset_of(t2.to_set()));
    vstd::set_lib::lemma_len_subset(t.to_set(), t2.to_set());
    let qs = objects_of(t, s, ON_PROPERTY);
    let qs2 = objects_of(t2, s, ON_PROPERTY);
    assert(qs.subset_of(qs2));
    lemma_over_properties_monotone(Restriction::AllValues(s, o), qs, qs2, d, d);
    lemma_over_properties_monotone(Restriction::SomeValues(s, o), qs, qs2, d, d);
    if p == MAX_QUALIFIED_CARDINALITY && o == NON_NEGATIVE_INTEGER_1 {
        let cs = objects_of(t, s, ON_CLASS);
        let cs2 = objects_of(t2, s, ON_CLASS);
        assert forall|z: Triple| #[trigger] fired(t, x, d).contains(z) implies fired(t2, x, d).contains(z) by {
            let c = choose|c: u32| cs.contains(c) && #[trigger] over_properties(Restriction::MaxQualified(s, c), qs, d).contains(z);
            lemma_over_properties_monotone(Restriction::MaxQualified(s, c), qs, qs2, d, d);
            assert(cs2.contains(c));
            assert(over_properties(Restriction::MaxQualified(s, c), qs2, d).contains(z));
        }
    }
    lemma_list_set_monotone(t, t2, o, t.to_set().len(), t2.to_set().len());
    let ls = schema_lists(t, o);
    let ls2 = schema_lists(t2, o);
    assert forall|rule: ListRule| #[trigger] over_lists(rule, ls, d, s).subset_of(over_lists(rule, ls2, d, s)) by {
        lemma_over_lists_monotone(rule, ls, ls2, d, d, s);
    }
}

/// More schema and more data give a larger OWL 2 RL materialization.
pub proof fn law_owl_monotone_schema(
    tbox: Seq<Triple>,
    tbox2: Seq<Triple>,
    abox: Set<Triple>,
    abox2: Set<Triple>,
    out: Set<Triple>,
    out2: Set<Triple>,
)
    requires
        forall|y: Triple| tbox.contains(y) ==> tbox2.contains(y),
        abox.subset_of(abox2),
        is_lfp(owl_step(tbox), abox, out),
        is_lfp(owl_step(tbox2), abox2, out2),
    ensures
        out.subset_of(out2),
{
    lemma_owl_step(tbox2);
    assert forall|a: Set<Triple>| #[trigger] owl_step(tbox)(a).subset_of(owl_step(tbox2)(a)) by {
        assert forall|z: Triple| owl_derive(tbox, a).contains(z) implies owl_derive(tbox2, a).contains(z) by {
            let i = choose|i: int| 0 <= i < tbox.len() && #[trigger] fired(tbox, tbox[i], a).contains(z);
            lemma_fired_schema_monotone(tbox, tbox2, tbox[i], a);
            assert(tbox.contains(tbox[i]));
            let j = choose|j: int| 0 <= j < tbox2.len() && tbox2[j] == tbox[i];
            assert(fired(tbox2, tbox2[j], a).contains(z));
        }
    }
    lemma_lfp_grows(owl_step(tbox), owl_step(tbox2), abox, abox2, out, out2);
}

/// The objects of the statements `(s, p, _)` of `t`.
pub fn objects(t: &Vec<Triple>, s: u32, p: u32) -> (r: Vec<u32>)
    ensures
        r@.to_set() == objects_of(t@, s, p),
{
    let mut r: Vec<u32> = Vec::new();
    let mut k: usize = 0;
    while k < t.len()
        invariant
            k <= t@.len(),
            forall|q: u32| r@.contains(q) <==> t@.subrange(0, k as int).contains((s, p, q)),
        decreases t@.len() - k,
    {
        let x = t[k];
        let ghost before = r@;
        if x.0 == s && x.1 == p {
            r.push(x.2);
        }
        assert forall|q: u32| r@.contains(q) <==> t@.subrange(0, k as int + 1).contains((s, p, q)) by {
            let a = t@.subrange(0, k as int + 1);
            let b = t@.subrange(0, k as int);
            assert(a[k as int] == x);
            assert(before.contains(q) <==> b.contains((s, p, q)));
            assert(a.contains((s, p, q)) <==> (b.contains((s, p, q)) || x == (s, p, q))) by {
                if b.contains((s, p, q)) {
                    let m = choose|m: int| 0 <= m < b.len() && b[m] == (s, p, q);
                    assert(a[m] == (s, p, q));
                }
                if a.contains((s, p, q)) {
                    let m = choose|m: int| 0 <= m < a.len() && a[m] == (s, p, q);
                    if m < k {
                        assert(b[m] == (s, p, q));
                    }
                }
            }
            if x.0 == s && x.1 == p {
                assert(r@ == before.push(x.2));
                assert(r@.contains(q) <==> (before.contains(q) || x.2 == q)) by {
                    if before.contains(q) {
                        let j = choose|j: int| 0 <= j < before.len() && before[j] == q;
                        assert(r@[j] == q);
                    }
                    if r@.contains(q) {
                        let j = choose|j: int| 0 <= j < r@.len() && r@[j] == q;
                        if j < before.len() {
                            assert(before[j] == q);
                        }
                    }
                    if x.2 == q {
                        assert(r@[before.len() as int] == q);
                    }
                }
            } else {
                assert(r@ == before);
            }
        }
        k = k + 1;
    }
    assert(t@.subrange(0, t@.len() as int) == t@);
    assert(r@.to_set() =~= objects_of(t@, s, p));
    r
}

/// What the restriction `r` on the property `q` derives from `data`.
fn restriction(r: Restriction, q: u32, data: &Vec<Triple>) -> (out: Vec<Triple>)
    ensures
        out@.to_set() == restriction_set(r, q, data@.to_set()),
{
    match r {
        Restriction::AllValues(x, y) => cls_avf(data, x, q, y),
        Restriction::SomeValues(x, y) => if y == THING {
            cls_svf2(data, x, q)
        } else {
            cls_svf1(data, x, q, y)
        },
        Restriction::MaxQualified(x, c) => cls_maxqc3(data, x, q, c),
    }
}

/// What the restriction `r` derives from `data` on each property of `qs`.
fn over_each(r: Restriction, qs: &Vec<u32>, data: &Vec<Triple>) -> (out: Vec<Triple>)
    ensures
        out@.no_duplicates(),
        out@.to_set() == over_properties(r, qs@.to_set(), data@.to_set()),
{
    let mut out: Vec<Triple> = Vec::new();
    let mut k: usize = 0;
    let ghost d = data@.to_set();
    assert(out@.to_set() =~= Set::new(
        |z: Triple| exists|i: int| 0 <= i < 0 && #[trigger] restriction_set(r, qs@[i], d).contains(z),
    ));
    while k < qs.len()
        invariant
            k <= qs@.len(),
            d == data@.to_set(),
            out@.no_duplicates(),
            out@.to_set() == Set::new(
                |z: Triple| exists|i: int| 0 <= i < k && #[trigger] restriction_set(r, qs@[i], d).contains(z),
            ),
        decreases qs@.len() - k,
    {
        let more = restriction(r, qs[k], data);
        extend(&mut out, &more);
        assert(out@.to_set() =~= Set::new(
            |z: Triple| exists|i: int| 0 <= i < k + 1 && #[trigger] restriction_set(r, qs@[i], d).contains(z),
        ));
        k = k + 1;
    }
    assert(out@.to_set() =~= over_properties(r, qs@.to_set(), d)) by {
        assert forall|z: Triple| over_properties(r, qs@.to_set(), d).contains(z) implies out@.to_set().contains(z) by {
            let q = choose|q: u32| qs@.to_set().contains(q) && #[trigger] restriction_set(r, q, d).contains(z);
            let i = choose|i: int| 0 <= i < qs@.len() && qs@[i] == q;
            assert(restriction_set(r, qs@[i], d).contains(z));
        }
        assert forall|z: Triple| out@.to_set().contains(z) implies over_properties(r, qs@.to_set(), d).contains(z) by {
            let i = choose|i: int| 0 <= i < k && #[trigger] restriction_set(r, qs@[i], d).contains(z);
            assert(qs@.to_set().contains(qs@[i]));
        }
    }
    out
}

/// `cls-maxqc3` for the restriction `x`: over each `onClass` and each
/// `onProperty` of `x` in `tbox`.
fn max_qualified(tbox: &Vec<Triple>, x: u32, data: &Vec<Triple>) -> (out: Vec<Triple>)
    ensures
        out@.to_set() == Set::new(
            |z: Triple|
                exists|c: u32|
                    objects_of(tbox@, x, ON_CLASS).contains(c) && #[trigger] over_properties(
                        Restriction::MaxQualified(x, c),
                        objects_of(tbox@, x, ON_PROPERTY),
                        data@.to_set(),
                    ).contains(z),
        ),
{
    let props = objects(tbox, x, ON_PROPERTY);
    let classes = objects(tbox, x, ON_CLASS);
    let ghost d = data@.to_set();
    let ghost qs = objects_of(tbox@, x, ON_PROPERTY);
    let mut out: Vec<Triple> = Vec::new();
    let mut k: usize = 0;
    assert(out@.to_set() =~= Set::new(
        |z: Triple| exists|i: int| 0 <= i < 0 && #[trigger] over_properties(Restriction::MaxQualified(x, classes@[i]), qs, d).contains(z),
    ));
    while k < classes.len()
        invariant
            k <= classes@.len(),
            d == data@.to_set(),
            qs == props@.to_set(),
            out@.no_duplicates(),
            out@.to_set() == Set::new(
                |z: Triple| exists|i: int| 0 <= i < k && #[trigger] over_properties(Restriction::MaxQualified(x, classes@[i]), qs, d).contains(z),
            ),
        decreases classes@.len() - k,
    {
        let more = over_each(Restriction::MaxQualified(x, classes[k]), &props, data);
        extend(&mut out, &more);
        assert(out@.to_set() =~= Set::new(
            |z: Triple| exists|i: int| 0 <= i < k + 1 && #[trigger] over_properties(Restriction::MaxQualified(x, classes@[i]), qs, d).contains(z),
        ));
        k = k + 1;
    }
    let ghost cs = objects_of(tbox@, x, ON_CLASS);
    assert forall|z: Triple| (exists|c: u32| cs.contains(c) && #[trigger] over_properties(Restriction::MaxQualified(x, c), qs, d).contains(z))
        <==> out@.to_set().contains(z) by {
        if exists|c: u32| cs.contains(c) && #[trigger] over_properties(Restriction::MaxQualified(x, c), qs, d).contains(z) {
            let c = choose|c: u32| cs.contains(c) && #[trigger] over_properties(Restriction::MaxQualified(x, c), qs, d).contains(z);
            assert(classes@.to_set().contains(c));
            let i = choose|i: int| 0 <= i < classes@.len() && classes@[i] == c;
            assert(over_properties(Restriction::MaxQualified(x, classes@[i]), qs, d).contains(z));
        }
        if out@.to_set().contains(z) {
            let i = choose|i: int| 0 <= i < k && #[trigger] over_properties(Restriction::MaxQualified(x, classes@[i]), qs, d).contains(z);
            assert(classes@.to_set().contains(classes@[i]));
        }
    }
    assert(out@.to_set() =~= Set::new(
        |z: Triple|
            exists|c: u32|
                objects_of(tbox@, x, ON_CLASS).contains(c) && #[trigger] over_properties(
                    Restriction::MaxQualified(x, c),
                    objects_of(tbox@, x, ON_PROPERTY),
                    data@.to_set(),
                ).contains(z),
    ));
    out
}

/// `e` followed by the items of `l`.
fn prepend(e: u32, l: &Vec<u32>) -> (r: Vec<u32>)
    ensures
        r@ == seq![e].add(l@),
{
    let mut r: Vec<u32> = Vec::new();
    r.push(e);
    let mut k: usize = 0;
    while k < l.len()
        invariant
            k <= l@.len(),
            r@ == seq![e].add(l@.subrange(0, k as int)),
        decreases l@.len() - k,
    {
        r.push(l[k]);
        assert(l@.subrange(0, k as int + 1) == l@.subrange(0, k as int).push(l@[k as int]));
        assert(r@ =~= seq![e].add(l@.subrange(0, k as int + 1)));
        k = k + 1;
    }
    assert(l@.subrange(0, l@.len() as int) == l@);
    r
}

/// `v` holds a list whose items are `l`.
pub open spec fn holds_list(v: Seq<Vec<u32>>, l: Seq<u32>) -> bool {
    exists|i: int| 0 <= i < v.len() && (#[trigger] v[i])@ == l
}

/// The RDF lists at `h` in `t` of at most `fuel` items.
fn lists_from(t: &Vec<Triple>, h: u32, fuel: usize) -> (r: Vec<Vec<u32>>)
    ensures
        forall|l: Seq<u32>| #[trigger] holds_list(r@, l) <==> list_set(t@, h, fuel as nat).contains(l),
    decreases fuel,
{
    if h == NIL {
        let r: Vec<Vec<u32>> = vec![Vec::new()];
        assert forall|l: Seq<u32>| #[trigger] holds_list(r@, l) <==> list_set(t@, h, fuel as nat).contains(l) by {
            if holds_list(r@, l) {
                let i = choose|i: int| 0 <= i < r@.len() && (#[trigger] r@[i])@ == l;
                assert(l =~= Seq::<u32>::empty());
            }
            if list_set(t@, h, fuel as nat).contains(l) {
                assert(r@[0]@ == l);
            }
        }
        return r;
    }
    let mut out: Vec<Vec<u32>> = Vec::new();
    if fuel == 0 {
        return out;
    }
    let firsts = objects(t, h, FIRST);
    let rests = objects(t, h, REST);
    let ghost f1 = (fuel - 1) as nat;
    let mut i: usize = 0;
    while i < rests.len()
        invariant
            i <= rests@.len(),
            fuel > 0,
            h != NIL,
            f1 == (fuel - 1) as nat,
            firsts@.to_set() == objects_of(t@, h, FIRST),
            rests@.to_set() == objects_of(t@, h, REST),
            forall|l: Seq<u32>| #[trigger] holds_list(out@, l) <==> (l.len() > 0 && firsts@.contains(l[0])
                && exists|a: int| 0 <= a < i && #[trigger] list_set(t@, rests@[a], f1).contains(l.drop_first())),
        decreases rests@.len() - i,
    {
        let sub = lists_from(t, rests[i], fuel - 1);
        let mut j: usize = 0;
        while j < firsts.len()
            invariant
                i < rests@.len(),
                j <= firsts@.len(),
                forall|l: Seq<u32>| #[trigger] holds_list(sub@, l) <==> list_set(t@, rests@[i as int], f1).contains(l),
                forall|l: Seq<u32>| #[trigger] holds_list(out@, l) <==> (l.len() > 0 && (
                    (firsts@.contains(l[0]) && exists|a: int| 0 <= a < i && #[trigger] list_set(t@, rests@[a], f1).contains(l.drop_first()))
                    || (firsts@.subrange(0, j as int).contains(l[0]) && list_set(t@, rests@[i as int], f1).contains(l.drop_first())))),
            decreases firsts@.len() - j,
        {
            let e = firsts[j];
            let mut m: usize = 0;
            while m < sub.len()
                invariant
                    i < rests@.len(),
                    j < firsts@.len(),
                    e == firsts@[j as int],
                    m <= sub@.len(),
                    forall|l: Seq<u32>| #[trigger] holds_list(sub@, l) <==> list_set(t@, rests@[i as int], f1).contains(l),
                    forall|l: Seq<u32>| #[trigger] holds_list(out@, l) <==> (l.len() > 0 && (
                        (firsts@.contains(l[0]) && exists|a: int| 0 <= a < i && #[trigger] list_set(t@, rests@[a], f1).contains(l.drop_first()))
                        || (firsts@.subrange(0, j as int).contains(l[0]) && list_set(t@, rests@[i as int], f1).contains(l.drop_first()))
                        || (l[0] == e && exists|b: int| 0 <= b < m && (#[trigger] sub@[b])@ == l.drop_first()))),
                decreases sub@.len() - m,
            {
                let v = prepend(e, &sub[m]);
                let ghost before = out@;
                out.push(v);
                proof {
                    let nl = seq![e].add(sub@[m as int]@);
                    assert(nl[0] == e);
                    assert(nl.drop_first() =~= sub@[m as int]@);
                    assert forall|l: Seq<u32>| #[trigger] holds_list(out@, l) <==> holds_list(before, l) || l == nl by {
                        if holds_list(out@, l) {
                            let q = choose|q: int| 0 <= q < out@.len() && (#[trigger] out@[q])@ == l;
                            if q < before.len() {
                                assert(before[q] == out@[q]);
                            }
                        }
                        if holds_list(before, l) {
                            let q = choose|q: int| 0 <= q < before.len() && (#[trigger] before[q])@ == l;
                            assert(out@[q] == before[q]);
                        }
                        if l == nl {
                            assert(out@[before.len() as int]@ == l);
                        }
                    }
                    assert forall|l: Seq<u32>| l.len() > 0 && l[0] == e && l.drop_first() == sub@[m as int]@ implies l == nl by {
                        assert(l =~= nl);
                    }
                }
                m = m + 1;
            }
            proof {
                let pre = firsts@.subrange(0, j as int);
                let post = firsts@.subrange(0, j as int + 1);
                assert(post[j as int] == e);
                assert forall|e2: u32| pre.contains(e2) implies post.contains(e2) by {
                    let q = choose|q: int| 0 <= q < pre.len() && pre[q] == e2;
                    assert(post[q] == e2);
                }
                assert forall|e2: u32| post.contains(e2) implies pre.contains(e2) || e2 == e by {
                    let q = choose|q: int| 0 <= q < post.len() && post[q] == e2;
                    if q < j {
                        assert(pre[q] == e2);
                    }
                }
                assert forall|l: Seq<u32>| #[trigger] holds_list(out@, l) <==> (l.len() > 0 && (
                    (firsts@.contains(l[0]) && exists|a: int| 0 <= a < i && #[trigger] list_set(t@, rests@[a], f1).contains(l.drop_first()))
                    || (post.contains(l[0]) && list_set(t@, rests@[i as int], f1).contains(l.drop_first())))) by {
                    if l.len() > 0 && l[0] == e && exists|b: int| 0 <= b < sub@.len() && (#[trigger] sub@[b])@ == l.drop_first() {
                        let b = choose|b: int| 0 <= b < sub@.len() && (#[trigger] sub@[b])@ == l.drop_first();
                        assert(holds_list(sub@, sub@[b]@));
                    }
                    if l.len() > 0 && post.contains(l[0]) && !pre.contains(l[0]) && list_set(t@, rests@[i as int], f1).contains(l.drop_first()) {
                        assert(holds_list(sub@, l.drop_first()));
                        let b = choose|b: int| 0 <= b < sub@.len() && (#[trigger] sub@[b])@ == l.drop_first();
                    }
                }
            }
            j = j + 1;
        }
        proof {
            assert(firsts@.subrange(0, firsts@.len() as int) == firsts@);
            assert forall|l: Seq<u32>| #[trigger] holds_list(out@, l) <==> (l.len() > 0 && firsts@.contains(l[0])
                && exists|a: int| 0 <= a < i + 1 && #[trigger] list_set(t@, rests@[a], f1).contains(l.drop_first())) by {
                if l.len() > 0 && firsts@.contains(l[0]) && exists|a: int| 0 <= a < i + 1 && #[trigger] list_set(t@, rests@[a], f1).contains(l.drop_first()) {
                    let a = choose|a: int| 0 <= a < i + 1 && #[trigger] list_set(t@, rests@[a], f1).contains(l.drop_first());
                }
            }
        }
        i = i + 1;
    }
    proof {
        assert forall|l: Seq<u32>| #[trigger] holds_list(out@, l) <==> list_set(t@, h, fuel as nat).contains(l) by {
            if holds_list(out@, l) {
                let a = choose|a: int| 0 <= a < i && #[trigger] list_set(t@, rests@[a], f1).contains(l.drop_first());
                assert(firsts@.to_set().contains(l[0]));
                assert(rests@.to_set().contains(rests@[a]));
                assert(t@.contains((h, REST, rests@[a])));
            }
            if list_set(t@, h, fuel as nat).contains(l) {
                let r = choose|r: u32| #[trigger] t@.contains((h, REST, r)) && list_set(t@, r, f1).contains(l.drop_first());
                assert(objects_of(t@, h, FIRST).contains(l[0]));
                assert(objects_of(t@, h, REST).contains(r));
                assert(rests@.to_set().contains(r));
                let a = choose|a: int| 0 <= a < rests@.len() && rests@[a] == r;
                assert(firsts@.to_set().contains(l[0]));
                assert(list_set(t@, rests@[a], f1).contains(l.drop_first()));
            }
        }
    }
    out
}

/// The RDF lists at `h` in the schema `t`.
pub fn lists(t: &Vec<Triple>, h: u32) -> (r: Vec<Vec<u32>>)
    ensures
        forall|l: Seq<u32>| #[trigger] holds_list(r@, l) <==> schema_lists(t@, h).contains(l),
{
    let statements = distinct(t);
    proof {
        statements@.unique_seq_to_set();
    }
    lists_from(t, h, statements.len())
}

/// What the statement `(s, rule, _)` derives from `data` for one list.
fn list_rule(rule: ListRule, data: &Vec<Triple>, s: u32, items: &Vec<u32>) -> (r: Vec<Triple>)
    ensures
        r@.to_set() == list_rule_set(rule, data@.to_set(), s, items@),
{
    match rule {
        ListRule::Key => prp_key(data, s, items),
        ListRule::Intersection => {
            let all = cls_int1(data, items, s);
            let each = cls_int2(data, items, s);
            merge(&all, &each)
        },
        ListRule::Union => cls_uni(data, items, s),
        ListRule::Chain => prp_spo2(data, items, s),
    }
}

/// What the statement `(s, rule, h)` of `tbox` derives from `data`.
fn list_statement(rule: ListRule, tbox: &Vec<Triple>, h: u32, data: &Vec<Triple>, s: u32) -> (r: Vec<Triple>)
    ensures
        r@.to_set() == over_lists(rule, schema_lists(tbox@, h), data@.to_set(), s),
{
    let ls = lists(tbox, h);
    let r = over_each_list(rule, &ls, data, s);
    assert(r@.to_set() =~= over_lists(rule, schema_lists(tbox@, h), data@.to_set(), s));
    r
}

/// What the statement `(s, rule, _)` derives from `data` for each list of
/// `ls`.
fn over_each_list(rule: ListRule, ls: &Vec<Vec<u32>>, data: &Vec<Triple>, s: u32) -> (out: Vec<Triple>)
    ensures
        forall|z: Triple| #[trigger] out@.to_set().contains(z) <==> exists|l: Seq<u32>| holds_list(ls@, l) && #[trigger] list_rule_set(rule, data@.to_set(), s, l).contains(z),
{
    let ghost d = data@.to_set();
    let mut out: Vec<Triple> = Vec::new();
    let mut k: usize = 0;
    while k < ls.len()
        invariant
            k <= ls@.len(),
            d == data@.to_set(),
            out@.no_duplicates(),
            forall|z: Triple| #[trigger] out@.to_set().contains(z) <==> exists|i: int| 0 <= i < k && #[trigger] list_rule_set(rule, d, s, ls@[i]@).contains(z),
        decreases ls@.len() - k,
    {
        let more = list_rule(rule, data, s, &ls[k]);
        let ghost before = out@.to_set();
        extend(&mut out, &more);
        assert forall|z: Triple| #[trigger] out@.to_set().contains(z) <==> exists|i: int| 0 <= i < k + 1 && #[trigger] list_rule_set(rule, d, s, ls@[i]@).contains(z) by {
            if out@.to_set().contains(z) && !before.contains(z) {
                assert(list_rule_set(rule, d, s, ls@[k as int]@).contains(z));
            }
            if exists|i: int| 0 <= i < k + 1 && #[trigger] list_rule_set(rule, d, s, ls@[i]@).contains(z) {
                let i = choose|i: int| 0 <= i < k + 1 && #[trigger] list_rule_set(rule, d, s, ls@[i]@).contains(z);
                if i == k {
                    assert(more@.to_set().contains(z));
                }
            }
        }
        k = k + 1;
    }
    assert forall|z: Triple| #[trigger] out@.to_set().contains(z) <==> exists|l: Seq<u32>| holds_list(ls@, l) && #[trigger] list_rule_set(rule, d, s, l).contains(z) by {
        if out@.to_set().contains(z) {
            let i = choose|i: int| 0 <= i < k && #[trigger] list_rule_set(rule, d, s, ls@[i]@).contains(z);
            assert(holds_list(ls@, ls@[i]@));
        }
        if exists|l: Seq<u32>| holds_list(ls@, l) && #[trigger] list_rule_set(rule, d, s, l).contains(z) {
            let l = choose|l: Seq<u32>| holds_list(ls@, l) && #[trigger] list_rule_set(rule, d, s, l).contains(z);
            let i = choose|i: int| 0 <= i < ls@.len() && (#[trigger] ls@[i])@ == l;
            assert(list_rule_set(rule, d, s, ls@[i]@).contains(z));
        }
    }
    out
}

/// The triples of `a` and of `b`.
fn merge(a: &Vec<Triple>, b: &Vec<Triple>) -> (r: Vec<Triple>)
    ensures
        r@.no_duplicates(),
        r@.to_set() == a@.to_set().union(b@.to_set()),
{
    let mut r = distinct(a);
    extend(&mut r, b);
    r
}

/// What the schema statement `x` of `tbox` derives from `data` in one round.
fn fire_statement(tbox: &Vec<Triple>, x: Triple, data: &Vec<Triple>) -> (r: Vec<Triple>)
    ensures
        r@.to_set() == fired(tbox@, x, data@.to_set()),
{
    let (s, p, o) = x;
    let empty: Vec<Triple> = Vec::new();
    assert(empty@.to_set() =~= Set::<Triple>::empty());
    if p == TYPE {
        if o == FUNCTIONAL_PROPERTY {
            prp_fp(data, s)
        } else if o == INVERSE_FUNCTIONAL_PROPERTY {
            prp_ifp(data, s)
        } else if o == SYMMETRIC_PROPERTY {
            prp_symp(data, s)
        } else if o == TRANSITIVE_PROPERTY {
            prp_trp(data, s)
        } else {
            empty
        }
    } else if p == DOMAIN {
        prp_dom(data, s, o)
    } else if p == RANGE {
        prp_rng(data, s, o)
    } else if sco_predicate(p) {
        apply(Lift::Retype(s, o), data)
    } else if p == EQUIVALENT_CLASS {
        let down = apply(Lift::Retype(s, o), data);
        let up = apply(Lift::Retype(o, s), data);
        merge(&down, &up)
    } else if p == SUB_PROPERTY_OF {
        prp_spo1(data, s, o)
    } else if p == EQUIVALENT_PROPERTY {
        let down = prp_spo1(data, s, o);
        let up = prp_spo1(data, o, s);
        merge(&down, &up)
    } else if p == INVERSE_OF {
        let forward = prp_inv1(data, s, o);
        let backward = prp_inv1(data, o, s);
        merge(&forward, &backward)
    } else if p == ALL_VALUES_FROM {
        let props = objects(tbox, s, ON_PROPERTY);
        over_each(Restriction::AllValues(s, o), &props, data)
    } else if p == SOME_VALUES_FROM {
        let props = objects(tbox, s, ON_PROPERTY);
        over_each(Restriction::SomeValues(s, o), &props, data)
    } else if p == MAX_QUALIFIED_CARDINALITY && o == NON_NEGATIVE_INTEGER_1 {
        max_qualified(tbox, s, data)
    } else if p == HAS_KEY {
        list_statement(ListRule::Key, tbox, o, data, s)
    } else if p == INTERSECTION_OF {
        list_statement(ListRule::Intersection, tbox, o, data, s)
    } else if p == UNION_OF {
        list_statement(ListRule::Union, tbox, o, data, s)
    } else if p == PROPERTY_CHAIN_AXIOM {
        list_statement(ListRule::Chain, tbox, o, data, s)
    } else {
        empty
    }
}

/// What one round of the OWL 2 RL rules of `tbox` derives from `data`,
/// each triple once.
fn owl_round(tbox: &Vec<Triple>, data: &Vec<Triple>) -> (r: Vec<Triple>)
    ensures
        r@.no_duplicates(),
        r@.to_set() == owl_derive(tbox@, data@.to_set()),
{
    let mut out: Vec<Triple> = Vec::new();
    let mut k: usize = 0;
    assert(out@.to_set() =~= Set::new(
        |z: Triple| exists|i: int| 0 <= i < 0 && #[trigger] fired(tbox@, tbox@[i], data@.to_set()).contains(z),
    ));
    while k < tbox.len()
        invariant
            k <= tbox@.len(),
            out@.no_duplicates(),
            out@.to_set() == Set::new(
                |z: Triple| exists|i: int| 0 <= i < k && #[trigger] fired(tbox@, tbox@[i], data@.to_set()).contains(z),
            ),
        decreases tbox@.len() - k,
    {
        let more = fire_statement(tbox, tbox[k], data);
        extend(&mut out, &more);
        assert(out@.to_set() =~= Set::new(
            |z: Triple| exists|i: int| 0 <= i < k + 1 && #[trigger] fired(tbox@, tbox@[i], data@.to_set()).contains(z),
        ));
        k = k + 1;
    }
    assert(out@.to_set() =~= owl_derive(tbox@, data@.to_set()));
    out
}

/// The OWL 2 RL materialization of the data `abox` under the schema `tbox`:
/// the least set that holds `abox` and every triple that the rules of the
/// schema derive from it.
pub fn digest_tbox(tbox: &Vec<Triple>, abox: &Vec<Triple>) -> (r: Vec<Triple>)
    ensures
        r@.no_duplicates(),
        is_lfp(owl_step(tbox@), abox@.to_set(), r@.to_set()),
{
    let ghost f = owl_step(tbox@);
    let ghost k = abox@.to_set();
    let mut cur = distinct(abox);
    let ghost mut n: nat = 0;
    assert(iterate(f, k, 0) == k);
    loop
        invariant
            f == owl_step(tbox@),
            k == abox@.to_set(),
            cur@.no_duplicates(),
            cur@.to_set() == iterate(f, k, n),
        ensures
            cur@.no_duplicates(),
            cur@.to_set() == iterate(f, k, n),
            f(cur@.to_set()) == cur@.to_set(),
        decreases Set::<u128>::full().len() - cur@.len(),
    {
        proof {
            lemma_unique_seq_bound(cur@);
        }
        let ghost before = cur@;
        let derived = owl_round(tbox, &cur);
        let old_len = cur.len();
        extend(&mut cur, &derived);
        proof {
            assert(f(before.to_set()) == before.to_set().union(owl_derive(tbox@, before.to_set())));
            assert(iterate(f, k, n + 1) == f(iterate(f, k, n)));
            n = n + 1;
            lemma_unique_seq_bound(cur@);
        }
        if cur.len() == old_len {
            assert(cur@ =~= before);
            break;
        }
    }
    assert(cur@.to_set() == iterate(f, k, n));
    cur
}

/// The hierarchy statement `e` passes the members of its subclass on to its
/// superclass in `out`.
pub open spec fn passes_members(out: Set<Triple>, e: Triple) -> bool {
    &&& e.1 == SUB_CLASS_OF
    &&& forall|x: u32| #[trigger] out.contains((x, TYPE, e.0)) ==> out.contains((x, TYPE, e.2))
}

/// In a set that the OWL 2 RL rules of `tbox` leave unchanged, every
/// statement of the closed class hierarchy passes members on.
proof fn lemma_hierarchy_passes_members(tbox: Seq<Triple>, out: Set<Triple>, n: nat)
    requires
        owl_step(tbox)(out) == out,
    ensures
        forall|e: Triple|
            #[trigger] iterate(chain_step(set![SUB_CLASS_OF]), class_edges(tbox.to_set()), n).contains(e)
                ==> passes_members(out, e),
    decreases n,
{
    let f = chain_step(set![SUB_CLASS_OF]);
    let edges = class_edges(tbox.to_set());
    assert(out.union(owl_derive(tbox, out)) == out);
    if n == 0 {
        assert forall|e: Triple| #[trigger] edges.contains(e) implies passes_members(out, e) by {
            assert forall|x: u32| #[trigger] out.contains((x, TYPE, e.0)) implies out.contains((x, TYPE, e.2)) by {
                if apply_set(Lift::Rename(SUB_CLASS_OF, SUB_CLASS_OF), tbox.to_set()).contains(e) {
                    let l = choose|l: Triple| tbox.to_set().contains(l) && #[trigger] map_fire(Lift::Rename(SUB_CLASS_OF, SUB_CLASS_OF), l) == Some(e);
                    let i = choose|i: int| 0 <= i < tbox.len() && tbox[i] == l;
                    assert(map_fire(Lift::Retype(e.0, e.2), (x, TYPE, e.0)) == Some((x, TYPE, e.2)));
                    assert(fired(tbox, tbox[i], out).contains((x, TYPE, e.2)));
                } else if apply_set(Lift::Rename(SUB_CLASS_OF_INTERNED, SUB_CLASS_OF), tbox.to_set()).contains(e) {
                    let l = choose|l: Triple| tbox.to_set().contains(l) && #[trigger] map_fire(Lift::Rename(SUB_CLASS_OF_INTERNED, SUB_CLASS_OF), l) == Some(e);
                    let i = choose|i: int| 0 <= i < tbox.len() && tbox[i] == l;
                    assert(map_fire(Lift::Retype(e.0, e.2), (x, TYPE, e.0)) == Some((x, TYPE, e.2)));
                    assert(fired(tbox, tbox[i], out).contains((x, TYPE, e.2)));
                } else if apply_set(Lift::Rename(EQUIVALENT_CLASS, SUB_CLASS_OF), tbox.to_set()).contains(e) {
                    let l = choose|l: Triple| tbox.to_set().contains(l) && #[trigger] map_fire(Lift::Rename(EQUIVALENT_CLASS, SUB_CLASS_OF), l) == Some(e);
                    let i = choose|i: int| 0 <= i < tbox.len() && tbox[i] == l;
                    assert(map_fire(Lift::Retype(e.0, e.2), (x, TYPE, e.0)) == Some((x, TYPE, e.2)));
                    assert(fired(tbox, tbox[i], out).contains((x, TYPE, e.2)));
                } else {
                    let l = choose|l: Triple| tbox.to_set().contains(l) && #[trigger] map_fire(Lift::Swap(EQUIVALENT_CLASS, SUB_CLASS_OF), l) == Some(e);
                    let i = choose|i: int| 0 <= i < tbox.len() && tbox[i] == l;
                    assert(map_fire(Lift::Retype(e.0, e.2), (x, TYPE, e.0)) == Some((x, TYPE, e.2)));
                    assert(fired(tbox, tbox[i], out).contains((x, TYPE, e.2)));
                }
            }
        }
    } else {
        let prev = iterate(f, edges, (n - 1) as nat);
        lemma_hierarchy_passes_members(tbox, out, (n - 1) as nat);
        lemma_chain_step_apply(set![SUB_CLASS_OF], prev);
        let sel = only(set![SUB_CLASS_OF], prev);
        assert forall|e: Triple| #[trigger] join_set(Rule::Compose, sel, sel).contains(e) implies passes_members(out, e) by {
            let (l, r) = choose|l: Triple, r: Triple| sel.contains(l) && sel.contains(r) && #[trigger] fire(Rule::Compose, l, r) == Some(e);
            assert(prev.contains(l) && prev.contains(r));
            assert(passes_members(out, l));
            assert(passes_members(out, r));
            assert forall|x: u32| #[trigger] out.contains((x, TYPE, e.0)) implies out.contains((x, TYPE, e.2)) by {
                assert(out.contains((x, TYPE, l.2)));
            }
        }
    }
}

/// Classes that the schema makes equivalent have the same members: where
/// the closed class hierarchy `h` of `tbox` (`subClassOf` in either
/// encoding, `equivalentClass` both ways) leads from `a` to `b` and back,
/// the OWL 2 RL materialization holds `(x, type, a)` exactly when it holds
/// `(x, type, b)`.
pub proof fn law_equivalent_classes_agree(
    tbox: Seq<Triple>,
    abox: Set<Triple>,
    out: Set<Triple>,
    h: Set<Triple>,
    a: u32,
    b: u32,
    x: u32,
)
    requires
        is_lfp(owl_step(tbox), abox, out),
        is_lfp(chain_step(set![SUB_CLASS_OF]), class_edges(tbox.to_set()), h),
        h.contains((a, SUB_CLASS_OF, b)),
        h.contains((b, SUB_CLASS_OF, a)),
    ensures
        out.contains((x, TYPE, a)) <==> out.contains((x, TYPE, b)),
{
    let n = choose|n: nat| h == #[trigger] iterate(chain_step(set![SUB_CLASS_OF]), class_edges(tbox.to_set()), n);
    lemma_hierarchy_passes_members(tbox, out, n);
    assert(passes_members(out, (a, SUB_CLASS_OF, b)));
    assert(passes_members(out, (b, SUB_CLASS_OF, a)));
}

/// Every identifier of every triple of `t`.
fn collect_ids(t: &Vec<Triple>) -> (r: Vec<u32>)
    ensures
        forall|i: int| 0 <= i < t@.len() ==> r@.contains(#[trigger] t@[i].0) && r@.contains(t@[i].1) && r@.contains(t@[i].2),
{
    let mut r: Vec<u32> = Vec::new();
    let mut k: usize = 0;
    while k < t.len()
        invariant
            k <= t@.len(),
            forall|i: int| 0 <= i < k ==> r@.contains(#[trigger] t@[i].0) && r@.contains(t@[i].1) && r@.contains(t@[i].2),
        decreases t@.len() - k,
    {
        let x = t[k];
        let ghost before = r@;
        r.push(x.0);
        r.push(x.1);
        r.push(x.2);
        assert forall|i: int| 0 <= i < k + 1 implies r@.contains(#[trigger] t@[i].0) && r@.contains(t@[i].1) && r@.contains(t@[i].2) by {
            if i < k {
                assert forall|v: u32| before.contains(v) implies r@.contains(v) by {
                    let j = choose|j: int| 0 <= j < before.len() && before[j] == v;
                    assert(r@[j] == v);
                }
            } else {
                assert(r@[before.len() as int] == x.0);
                assert(r@[before.len() as int + 1] == x.1);
                assert(r@[before.len() as int + 2] == x.2);
            }
        }
        k = k + 1;
    }
    r
}

/// Classes that canonicalization gives one representative have the same
/// members: `reps` are representatives that only join classes which reach
/// each other in the closed class hierarchy `h` of `tbox`, as
/// [`canonical_classes`] returns them.
pub proof fn law_canonical_classes_agree(
    tbox: Seq<Triple>,
    abox: Set<Triple>,
    out: Set<Triple>,
    h: Set<Triple>,
    reps: Seq<u32>,
    a: u32,
    b: u32,
    x: u32,
)
    requires
        is_lfp(owl_step(tbox), abox, out),
        is_lfp(chain_step(set![SUB_CLASS_OF]), class_edges(tbox.to_set()), h),
        forall|i: int, j: int|
            0 <= i < reps.len() && 0 <= j < reps.len() && #[trigger] reps[i] == #[trigger] reps[j]
                ==> reaches(h, SUB_CLASS_OF, i, j),
        a < reps.len(),
        b < reps.len(),
        reps[a as int] == reps[b as int],
    ensures
        out.contains((x, TYPE, a)) <==> out.contains((x, TYPE, b)),
{
    if a != b {
        assert(reaches(h, SUB_CLASS_OF, a as int, b as int));
        assert(reaches(h, SUB_CLASS_OF, b as int, a as int));
        law_equivalent_classes_agree(tbox, abox, out, h, a, b, x);
    }
}

/// `i` is `j`, or the hierarchy `c` leads from `i` to `j` along `pred`.
pub open spec fn reaches(c: Set<Triple>, pred: u32, i: int, j: int) -> bool {
    i == j || (0 <= i <= u32::MAX && 0 <= j <= u32::MAX && c.contains((i as u32, pred, j as u32)))
}

/// In a hierarchy closed under chaining, reaching is transitive.
proof fn lemma_reaches_trans(c: Set<Triple>, pred: u32, i: int, j: int, k: int)
    requires
        chain_step(set![pred])(c) == c,
        reaches(c, pred, i, j),
        reaches(c, pred, j, k),
    ensures
        reaches(c, pred, i, k),
{
    if i != j && j != k {
        lemma_chain_step_apply(set![pred], c);
        let l = (i as u32, pred, j as u32);
        let r = (j as u32, pred, k as u32);
        assert(only(set![pred], c).contains(l));
        assert(only(set![pred], c).contains(r));
        assert(fire(Rule::Compose, l, r) == Some((i as u32, pred, k as u32)));
        assert(join_set(Rule::Compose, only(set![pred], c), only(set![pred], c)).contains(
            (i as u32, pred, k as u32),
        ));
    }
}

/// Merging the classes of `a` and `b`, which reach each other, keeps every
/// class a set of identifiers that reach each other.
proof fn lemma_merge_keeps_reach(c: Set<Triple>, pred: u32, m: Seq<u32>, a: u32, b: u32)
    requires
        chain_step(set![pred])(c) == c,
        a < m.len(),
        b < m.len(),
        reaches(c, pred, a as int, b as int),
        reaches(c, pred, b as int, a as int),
        forall|i: int, j: int|
            0 <= i < m.len() && 0 <= j < m.len() && #[trigger] m[i] == #[trigger] m[j] ==> reaches(c, pred, i, j),
    ensures
        forall|i: int, j: int|
            0 <= i < m.len() && 0 <= j < m.len() && #[trigger] merged_map(m, a, b)[i] == #[trigger] merged_map(m, a, b)[j]
                ==> reaches(c, pred, i, j),
{
    let n = merged_map(m, a, b);
    let ra = m[a as int];
    let rb = m[b as int];
    assert forall|i: int, j: int|
        0 <= i < m.len() && 0 <= j < m.len() && #[trigger] n[i] == #[trigger] n[j] implies reaches(c, pred, i, j) by {
        let in_i = m[i] == ra || m[i] == rb;
        let in_j = m[j] == ra || m[j] == rb;
        if in_i && in_j {
            let ai: int = if m[i] == ra { a as int } else { b as int };
            let aj: int = if m[j] == ra { a as int } else { b as int };
            assert(m[i] == m[ai]);
            assert(m[aj] == m[j]);
            assert(reaches(c, pred, i, ai));
            assert(reaches(c, pred, aj, j));
            if ai == aj {
            } else {
                assert(reaches(c, pred, ai, aj));
            }
            lemma_reaches_trans(c, pred, i, ai, aj);
            lemma_reaches_trans(c, pred, i, aj, j);
        } else if !in_i && !in_j {
            assert(m[i] == m[j]);
        } else {
            assert(n[i] != n[j]);
        }
    }
}

/// Picks one representative for each class of identifiers that the
/// hierarchy `edges` (statements with predicate `pred`) makes equivalent:
/// two identifiers that reach each other along `edges` get the same
/// representative. Returns the closed hierarchy and the representatives.
pub fn canonicalize(edges: &Vec<Triple>, pred: u32) -> (r: (Vec<Triple>, DisjointSet))
    ensures
        is_lfp(chain_step(set![pred]), edges@.to_set(), r.0@.to_set()),
        r.1.wf(),
        forall|i: int| 0 <= i < r.0@.len() ==> (#[trigger] r.0@[i]).0 < r.1@.len() && r.0@[i].2 < r.1@.len(),
        forall|a: u32, b: u32|
            #![trigger r.0@.contains((a, pred, b)), r.0@.contains((b, pred, a))]
            r.0@.contains((a, pred, b)) && r.0@.contains((b, pred, a)) ==> r.1@[a as int] == r.1@[b as int],
        forall|i: int, j: int|
            0 <= i < r.1@.len() && 0 <= j < r.1@.len() && #[trigger] r.1@[i] == #[trigger] r.1@[j]
                ==> reaches(r.0@.to_set(), pred, i, j),
        is_canonical_map(r.1@),
{
    let preds: Vec<u32> = vec![pred];
    assert(preds@.to_set() =~= set![pred]) by {
        assert(preds@[0] == pred);
    }
    let closed = chain_closure(edges, &preds);
    let ids = collect_ids(&closed);
    let mut canon = DisjointSet::new(&ids);
    proof {
        assert forall|i: int| 0 <= i < closed@.len() implies (#[trigger] closed@[i]).0 < canon@.len() && closed@[i].2 < canon@.len() by {
            let j0 = choose|j: int| 0 <= j < ids@.len() && ids@[j] == closed@[i].0;
            let j2 = choose|j: int| 0 <= j < ids@.len() && ids@[j] == closed@[i].2;
        }
        assert forall|i: int, j: int|
            0 <= i < canon@.len() && 0 <= j < canon@.len() && #[trigger] canon@[i] == #[trigger] canon@[j]
                implies reaches(closed@.to_set(), pred, i, j) by {
            assert(canon@[i] == i && canon@[j] == j);
        }
    }
    let mut k: usize = 0;
    while k < closed.len()
        invariant
            k <= closed@.len(),
            canon.wf(),
            forall|i: int| 0 <= i < closed@.len() ==> (#[trigger] closed@[i]).0 < canon@.len() && closed@[i].2 < canon@.len(),
            forall|i: int|
                0 <= i < k && (#[trigger] closed@[i]).1 == pred && closed@.contains((closed@[i].2, pred, closed@[i].0))
                    ==> canon@[closed@[i].0 as int] == canon@[closed@[i].2 as int],
            chain_step(set![pred])(closed@.to_set()) == closed@.to_set(),
            is_canonical_map(canon@),
            forall|i: int, j: int|
                0 <= i < canon@.len() && 0 <= j < canon@.len() && #[trigger] canon@[i] == #[trigger] canon@[j]
                    ==> reaches(closed@.to_set(), pred, i, j),
        decreases closed@.len() - k,
    {
        let (a, p, b) = closed[k];
        if p == pred && contains(&closed, (b, pred, a)) {
            let ghost m = canon@;
            proof {
                assert(closed@.to_set().contains(closed@[k as int]));
                assert(closed@.to_set().contains((b, pred, a)));
                lemma_merge_keeps_reach(closed@.to_set(), pred, m, a, b);
            }
            canon.union(a, b);
            assert forall|i: int|
                0 <= i < k && (#[trigger] closed@[i]).1 == pred && closed@.contains((closed@[i].2, pred, closed@[i].0))
                    implies canon@[closed@[i].0 as int] == canon@[closed@[i].2 as int] by {
                assert(m[closed@[i].0 as int] == m[closed@[i].2 as int]);
            }
        }
        k = k + 1;
    }
    proof {
        assert forall|a: u32, b: u32|
            #![trigger closed@.contains((a, pred, b)), closed@.contains((b, pred, a))]
            closed@.contains((a, pred, b)) && closed@.contains((b, pred, a)) implies canon@[a as int] == canon@[b as int] by {
            let i = choose|i: int| 0 <= i < closed@.len() && closed@[i] == (a, pred, b);
            assert(closed@[i].1 == pred);
        }
    }
    (closed, canon)
}

/// The class hierarchy that the schema `t` states, as `subClassOf`
/// statements: `subClassOf` in either encoding, and `equivalentClass` both
/// ways.
pub open spec fn class_edges(t: Set<Triple>) -> Set<Triple> {
    apply_set(Lift::Rename(SUB_CLASS_OF, SUB_CLASS_OF), t).union(
        apply_set(Lift::Rename(SUB_CLASS_OF_INTERNED, SUB_CLASS_OF), t),
    ).union(apply_set(Lift::Rename(EQUIVALENT_CLASS, SUB_CLASS_OF), t)).union(
        apply_set(Lift::Swap(EQUIVALENT_CLASS, SUB_CLASS_OF), t),
    )
}

/// The property hierarchy that the schema `t` states, as `subPropertyOf`
/// statements: `subPropertyOf`, and `equivalentProperty` both ways.
pub open spec fn property_edges(t: Set<Triple>) -> Set<Triple> {
    apply_set(Lift::Rename(SUB_PROPERTY_OF, SUB_PROPERTY_OF), t).union(
        apply_set(Lift::Rename(EQUIVALENT_PROPERTY, SUB_PROPERTY_OF), t),
    ).union(apply_set(Lift::Swap(EQUIVALENT_PROPERTY, SUB_PROPERTY_OF), t))
}

/// The closed class hierarchy of `tbox`, and a representative for each class
/// of equivalent classes.
pub fn canonical_classes(tbox: &Vec<Triple>) -> (r: (Vec<Triple>, DisjointSet))
    ensures
        is_lfp(chain_step(set![SUB_CLASS_OF]), class_edges(tbox@.to_set()), r.0@.to_set()),
        r.1.wf(),
        forall|i: int| 0 <= i < r.0@.len() ==> (#[trigger] r.0@[i]).0 < r.1@.len() && r.0@[i].2 < r.1@.len(),
        forall|a: u32, b: u32|
            #![trigger r.0@.contains((a, SUB_CLASS_OF, b)), r.0@.contains((b, SUB_CLASS_OF, a))]
            r.0@.contains((a, SUB_CLASS_OF, b)) && r.0@.contains((b, SUB_CLASS_OF, a)) ==> r.1@[a as int] == r.1@[b as int],
        forall|i: int, j: int|
            0 <= i < r.1@.len() && 0 <= j < r.1@.len() && #[trigger] r.1@[i] == #[trigger] r.1@[j]
                ==> reaches(r.0@.to_set(), SUB_CLASS_OF, i, j),
        is_canonical_map(r.1@),
{
    let a = apply(Lift::Rename(SUB_CLASS_OF, SUB_CLASS_OF), tbox);
    let b = apply(Lift::Rename(SUB_CLASS_OF_INTERNED, SUB_CLASS_OF), tbox);
    let c = apply(Lift::Rename(EQUIVALENT_CLASS, SUB_CLASS_OF), tbox);
    let d = apply(Lift::Swap(EQUIVALENT_CLASS, SUB_CLASS_OF), tbox);
    let ab = merge(&a, &b);
    let cd = merge(&c, &d);
    let edges = merge(&ab, &cd);
    assert(edges@.to_set() =~= class_edges(tbox@.to_set()));
    canonicalize(&edges, SUB_CLASS_OF)
}

/// The closed property hierarchy of `tbox`, and a representative for each
/// class of equivalent properties.
pub fn canonical_properties(tbox: &Vec<Triple>) -> (r: (Vec<Triple>, DisjointSet))
    ensures
        is_lfp(chain_step(set![SUB_PROPERTY_OF]), property_edges(tbox@.to_set()), r.0@.to_set()),
        r.1.wf(),
        forall|i: int| 0 <= i < r.0@.len() ==> (#[trigger] r.0@[i]).0 < r.1@.len() && r.0@[i].2 < r.1@.len(),
        forall|a: u32, b: u32|
            #![trigger r.0@.contains((a, SUB_PROPERTY_OF, b)), r.0@.contains((b, SUB_PROPERTY_OF, a))]
            r.0@.contains((a, SUB_PROPERTY_OF, b)) && r.0@.contains((b, SUB_PROPERTY_OF, a)) ==> r.1@[a as int] == r.1@[b as int],
        forall|i: int, j: int|
            0 <= i < r.1@.len() && 0 <= j < r.1@.len() && #[trigger] r.1@[i] == #[trigger] r.1@[j]
                ==> reaches(r.0@.to_set(), SUB_PROPERTY_OF, i, j),
        is_canonical_map(r.1@),
{
    let a = apply(Lift::Rename(SUB_PROPERTY_OF, SUB_PROPERTY_OF), tbox);
    let c = apply(Lift::Rename(EQUIVALENT_PROPERTY, SUB_PROPERTY_OF), tbox);
    let d = apply(Lift::Swap(EQUIVALENT_PROPERTY, SUB_PROPERTY_OF), tbox);
    let cd = merge(&c, &d);
    let edges = merge(&a, &cd);
    assert(edges@.to_set() =~= property_edges(tbox@.to_set()));
    canonicalize(&edges, SUB_PROPERTY_OF)
}

/// A store that takes data in batches, both additions and retractions, and
/// keeps its output the OWL 2 RL materialization of the data under a fixed
/// schema.
pub struct OwlReasoner {
    stage: Stage,
    tbox: Vec<Triple>,
    abox: Vec<Triple>,
    out: Vec<Triple>,
}

impl OwlReasoner {
    /// The stage of the store.
    pub closed spec fn stage(&self) -> Stage {
        self.stage
    }

    /// The schema.
    pub closed spec fn schema(&self) -> Seq<Triple> {
        self.tbox@
    }

    /// The data added and not retracted, with repeats.
    pub closed spec fn input(&self) -> Multiset<Triple> {
        self.abox@.to_multiset()
    }

    /// The materialized data.
    pub closed spec fn output(&self) -> Set<Triple> {
        self.out@.to_set()
    }

    /// The output is the materialization of the data under the schema.
    pub open spec fn wf(&self) -> bool {
        is_lfp(owl_step(self.schema()), self.input().dom(), self.output())
    }

    /// A store with the schema `tbox`, sealed, and no data.
    pub fn new(tbox: Vec<Triple>) -> (r: OwlReasoner)
        ensures
            r.wf(),
            r.stage() == Stage::TboxSealed,
            r.schema() == tbox@,
            r.input() == Multiset::<Triple>::empty(),
    {
        let abox: Vec<Triple> = Vec::new();
        let out = digest_tbox(&tbox, &abox);
        proof {
            lemma_multiset_dom(abox@);
            assert(abox@.to_multiset() =~= Multiset::<Triple>::empty()) by {
                broadcast use vstd::seq_lib::group_seq_properties;
                broadcast use vstd::multiset::group_multiset_axioms;

                abox@.to_multiset_ensures();
            }
        }
        OwlReasoner { stage: Stage::TboxSealed, tbox, abox, out }
    }

    /// Adds the triples of `batch` to the data. Refused, and `false`, once
    /// the store is drained.
    pub fn insert(&mut self, batch: &Vec<Triple>) -> (accepted: bool)
        requires
            old(self).wf(),
        ensures
            accepted == stage_next(old(self).stage(), StageEvent::Batch).is_some(),
            final(self).wf(),
            final(self).schema() == old(self).schema(),
            accepted ==> final(self).stage() == Stage::Streaming,
            accepted ==> final(self).input() == old(self).input().add(batch@.to_multiset()),
            !accepted ==> final(self).stage() == old(self).stage() && final(self).input() == old(self).input()
                && final(self).output() == old(self).output(),
    {
        match stage_step(self.stage, StageEvent::Batch) {
            Some(next) => {
                self.stage = next;
            },
            None => {
                return false;
            },
        }
        add_all(&mut self.abox, batch);
        self.out = digest_tbox(&self.tbox, &self.abox);
        proof {
            lemma_multiset_dom(self.abox@);
        }
        true
    }

    /// Takes one copy of each triple of `batch` out of the data, where the
    /// data holds one. Refused, and `false`, once the store is drained.
    pub fn retract(&mut self, batch: &Vec<Triple>) -> (accepted: bool)
        requires
            old(self).wf(),
        ensures
            accepted == stage_next(old(self).stage(), StageEvent::Batch).is_some(),
            final(self).wf(),
            final(self).schema() == old(self).schema(),
            accepted ==> final(self).stage() == Stage::Streaming,
            accepted ==> final(self).input() == old(self).input().sub(batch@.to_multiset()),
            !accepted ==> final(self).stage() == old(self).stage() && final(self).input() == old(self).input()
                && final(self).output() == old(self).output(),
    {
        match stage_step(self.stage, StageEvent::Batch) {
            Some(next) => {
                self.stage = next;
            },
            None => {
                return false;
            },
        }
        remove_all(&mut self.abox, batch);
        self.out = digest_tbox(&self.tbox, &self.abox);
        proof {
            lemma_multiset_dom(self.abox@);
        }
        true
    }

    /// Closes the data input. Refused, and `false`, unless data is streaming.
    pub fn close(&mut self) -> (closed: bool)
        ensures
            closed == stage_next(old(self).stage(), StageEvent::AboxDone).is_some(),
            closed ==> final(self).stage() == Stage::Drained,
            !closed ==> final(self).stage() == old(self).stage(),
            final(self).schema() == old(self).schema(),
            final(self).input() == old(self).input(),
            final(self).output() == old(self).output(),
    {
        match stage_step(self.stage, StageEvent::AboxDone) {
            Some(next) => {
                self.stage = next;
                true
            },
            None => false,
        }
    }

    /// The materialized data, each triple once.
    pub fn output_triples(&self) -> (r: Vec<Triple>)
        ensures
            r@.no_duplicates(),
            r@.to_set() == self.output(),
    {
        distinct(&self.out)
    }
}

} // verus!
