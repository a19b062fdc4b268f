use vstd::multiset::Multiset;
use vstd::prelude::*;

use crate::constants::{
    DOMAIN, INVERSE_OF, MAX_CONST, RANGE, SUB_CLASS_OF, SUB_CLASS_OF_INTERNED, SUB_PROPERTY_OF,
    TRANSITIVE_PROPERTY, TYPE,
};
use crate::lifecycle::{stage_next, stage_step, Stage, StageEvent};
use crate::fixpoint::{
    is_lfp, is_rule_step, iterate, lemma_iterate_above, lemma_iterate_below, lemma_iterate_stable,
    lemma_lfp_grows, lemma_lfp_of_fixed, lemma_lfp_unique,
};
use crate::rdfs_materialization::{lemma_tbox_step, lemma_tbox_step_apply, only, tbox_closure, tbox_step};
use crate::rules::{apply_set, fire, join, join_set, lemma_join_monotone, map_fire, Lift, Rule};
use crate::triple_set::{distinct, extend, lemma_unique_seq_bound, same_triple, Triple};

verus! {

/// What one round of the data rules derives from the data `a` under the closed
/// schema `t`: class membership along `subClassOf`, `subPropertyOf`, `domain`
/// and `range`; with `plus`, also `inverseOf` and transitive properties.
pub open spec fn abox_derive(plus: bool, t: Set<Triple>, a: Set<Triple>) -> Set<Triple> {
    let base = join_set(Rule::ClassMembership, a, t).union(join_set(Rule::SubProperty, a, t)).union(
        join_set(Rule::Domain, a, t),
    ).union(join_set(Rule::Range, a, t));
    if plus {
        let trans = join_set(Rule::TransitiveOnly, a, t);
        base.union(join_set(Rule::InverseForward, a, t)).union(
            join_set(Rule::InverseBackward, a, t),
        ).union(join_set(Rule::Compose, trans, trans))
    } else {
        base
    }
}

/// One round of the data rules under the closed schema `t`.
pub open spec fn abox_step(plus: bool, t: Set<Triple>) -> spec_fn(Set<Triple>) -> Set<Triple> {
    |a: Set<Triple>| a.union(abox_derive(plus, t, a))
}

/// `(tbox_out, abox_out)` is the materialization of `(tbox, abox)`: the
/// schema closed under its rules, and the data closed under the data rules
/// with that closed schema.
pub open spec fn is_materialization(
    plus: bool,
    tbox: Set<Triple>,
    abox: Set<Triple>,
    tbox_out: Set<Triple>,
    abox_out: Set<Triple>,
) -> bool {
    &&& is_lfp(tbox_step(), tbox, tbox_out)
    &&& is_lfp(abox_step(plus, tbox_out), abox, abox_out)
}

/// The data rules derive more from more data and a larger schema.
pub proof fn lemma_abox_derive_monotone(
    plus: bool,
    t: Set<Triple>,
    a: Set<Triple>,
    t2: Set<Triple>,
    a2: Set<Triple>,
)
    requires
        t.subset_of(t2),
        a.subset_of(a2),
    ensures
        abox_derive(plus, t, a).subset_of(abox_derive(plus, t2, a2)),
{
    lemma_join_monotone(Rule::ClassMembership, a, t, a2, t2);
    lemma_join_monotone(Rule::SubProperty, a, t, a2, t2);
    lemma_join_monotone(Rule::Domain, a, t, a2, t2);
    lemma_join_monotone(Rule::Range, a, t, a2, t2);
    lemma_join_monotone(Rule::InverseForward, a, t, a2, t2);
    lemma_join_monotone(Rule::InverseBackward, a, t, a2, t2);
    lemma_join_monotone(Rule::TransitiveOnly, a, t, a2, t2);
    lemma_join_monotone(
        Rule::Compose,
        join_set(Rule::TransitiveOnly, a, t),
        join_set(Rule::TransitiveOnly, a, t),
        join_set(Rule::TransitiveOnly, a2, t2),
        join_set(Rule::TransitiveOnly, a2, t2),
    );
}

/// One round of the data rules keeps every triple and grows with its input,
/// and a larger schema gives a larger round.
pub proof fn lemma_abox_step(plus: bool, t: Set<Triple>, t2: Set<Triple>)
    requires
        t.subset_of(t2),
    ensures
        is_rule_step(abox_step(plus, t)),
        forall|a: Set<Triple>| #[trigger] abox_step(plus, t)(a).subset_of(abox_step(plus, t2)(a)),
{
    assert forall|a: Set<Triple>, b: Set<Triple>| a.subset_of(b) implies #[trigger] abox_step(
        plus,
        t,
    )(a).subset_of(#[trigger] abox_step(plus, t)(b)) by {
        lemma_abox_derive_monotone(plus, t, a, t, b);
    }
    assert forall|a: Set<Triple>| #[trigger] abox_step(plus, t)(a).subset_of(
        abox_step(plus, t2)(a),
    ) by {
        lemma_abox_derive_monotone(plus, t, a, t2, a);
    }
}

/// Materialization is a function of its input: two results for one input
/// are equal.
pub proof fn law_materialization_unique(
    plus: bool,
    tbox: Set<Triple>,
    abox: Set<Triple>,
    t1: Set<Triple>,
    a1: Set<Triple>,
    t2: Set<Triple>,
    a2: Set<Triple>,
)
    requires
        is_materialization(plus, tbox, abox, t1, a1),
        is_materialization(plus, tbox, abox, t2, a2),
    ensures
        t1 == t2,
        a1 == a2,
{
    lemma_tbox_step();
    lemma_lfp_unique(tbox_step(), tbox, t1, t2);
    lemma_abox_step(plus, t1, t1);
    lemma_lfp_unique(abox_step(plus, t1), abox, a1, a2);
}

/// The materialization is what naive evaluation reaches: applying all rules
/// to everything derived so far, round after round, gives from some round
/// on exactly the output, for the schema and for the data.
pub proof fn law_naive_evaluation_agrees(
    plus: bool,
    tbox: Set<Triple>,
    abox: Set<Triple>,
    t1: Set<Triple>,
    a1: Set<Triple>,
) -> (n: nat)
    requires
        is_materialization(plus, tbox, abox, t1, a1),
    ensures
        forall|m: nat| n <= m ==> #[trigger] iterate(tbox_step(), tbox, m) == t1,
        forall|m: nat| n <= m ==> #[trigger] iterate(abox_step(plus, t1), abox, m) == a1,
{
    let n1 = choose|n: nat| t1 == #[trigger] iterate(tbox_step(), tbox, n);
    let n2 = choose|n: nat| a1 == #[trigger] iterate(abox_step(plus, t1), abox, n);
    let start: nat = if n1 > n2 { n1 } else { n2 };
    assert forall|m: nat| start <= m implies #[trigger] iterate(tbox_step(), tbox, m) == t1 by {
        lemma_iterate_stable(tbox_step(), tbox, n1, m);
    }
    assert forall|m: nat| start <= m implies #[trigger] iterate(abox_step(plus, t1), abox, m) == a1 by {
        lemma_iterate_stable(abox_step(plus, t1), abox, n2, m);
    }
    start
}

/// Materializing a materialization changes nothing.
pub proof fn law_idempotent(
    plus: bool,
    tbox: Set<Triple>,
    abox: Set<Triple>,
    t1: Set<Triple>,
    a1: Set<Triple>,
    t2: Set<Triple>,
    a2: Set<Triple>,
)
    requires
        is_materialization(plus, tbox, abox, t1, a1),
        is_materialization(plus, t1, a1, t2, a2),
    ensures
        t2 == t1,
        a2 == a1,
{
    lemma_tbox_step();
    lemma_lfp_of_fixed(tbox_step(), t1);
    lemma_lfp_unique(tbox_step(), t1, t1, t2);
    lemma_abox_step(plus, t1, t1);
    lemma_lfp_of_fixed(abox_step(plus, t1), a1);
    lemma_lfp_unique(abox_step(plus, t1), a1, a1, a2);
}

/// More input gives more output: materialization is monotone in the schema
/// and in the data.
pub proof fn law_monotone(
    plus: bool,
    tbox: Set<Triple>,
    abox: Set<Triple>,
    tbox2: Set<Triple>,
    abox2: Set<Triple>,
    t1: Set<Triple>,
    a1: Set<Triple>,
    t2: Set<Triple>,
    a2: Set<Triple>,
)
    requires
        tbox.subset_of(tbox2),
        abox.subset_of(abox2),
        is_materialization(plus, tbox, abox, t1, a1),
        is_materialization(plus, tbox2, abox2, t2, a2),
    ensures
        t1.subset_of(t2),
        a1.subset_of(a2),
{
    lemma_tbox_step();
    lemma_lfp_grows(tbox_step(), tbox_step(), tbox, tbox2, t1, t2);
    lemma_abox_step(plus, t1, t2);
    lemma_abox_step(plus, t2, t2);
    lemma_lfp_grows(abox_step(plus, t1), abox_step(plus, t2), abox, abox2, a1, a2);
}

/// With no data, the data part of the materialization is empty: the output
/// is the closed schema alone.
pub proof fn law_empty_abox(plus: bool, tbox: Set<Triple>, t1: Set<Triple>, a1: Set<Triple>)
    requires
        is_materialization(plus, tbox, Set::empty(), t1, a1),
    ensures
        a1 == Set::<Triple>::empty(),
{
    let e = Set::<Triple>::empty();
    assert(abox_derive(plus, t1, e) =~= e);
    assert(abox_step(plus, t1)(e) =~= e);
    lemma_lfp_of_fixed(abox_step(plus, t1), e);
    lemma_abox_step(plus, t1, t1);
    lemma_lfp_unique(abox_step(plus, t1), e, e, a1);
}

/// A step that takes `k` to `s` and leaves `s` as it is has `s` as its
/// least fixpoint above `k`.
proof fn lemma_one_round(f: spec_fn(Set<Triple>) -> Set<Triple>, k: Set<Triple>, s: Set<Triple>)
    requires
        f(k) == s,
        f(s) == s,
    ensures
        is_lfp(f, k, s),
{
    assert(iterate(f, k, 1) == f(iterate(f, k, 0)));
}

/// A schema of one statement that chaining cannot extend is closed.
proof fn lemma_single_schema_closed(a: Triple)
    requires
        a.0 != a.2,
        a.1 != SUB_CLASS_OF_INTERNED,
    ensures
        tbox_step()(set![a]) == set![a],
        is_lfp(tbox_step(), set![a], set![a]),
{
    let t = set![a];
    let sel = only(set![SUB_PROPERTY_OF], t);
    lemma_tbox_step_apply(t);
    assert forall|z: Triple| !join_set(Rule::Compose, sel, sel).contains(z) by {
        if join_set(Rule::Compose, sel, sel).contains(z) {
            let (l, r) = choose|l: Triple, r: Triple| sel.contains(l) && sel.contains(r) && #[trigger] fire(Rule::Compose, l, r) == Some(z);
            assert(l == a && r == a);
        }
    }
    assert forall|z: Triple| !join_set(Rule::ChainClass, t, t).contains(z) by {
        if join_set(Rule::ChainClass, t, t).contains(z) {
            let (l, r) = choose|l: Triple, r: Triple| t.contains(l) && t.contains(r) && #[trigger] fire(Rule::ChainClass, l, r) == Some(z);
            assert(l == a && r == a);
        }
    }
    assert forall|z: Triple| !apply_set(Lift::Rename(SUB_CLASS_OF_INTERNED, SUB_CLASS_OF), t).contains(z) by {
        if apply_set(Lift::Rename(SUB_CLASS_OF_INTERNED, SUB_CLASS_OF), t).contains(z) {
            let l = choose|l: Triple| t.contains(l) && #[trigger] map_fire(Lift::Rename(SUB_CLASS_OF_INTERNED, SUB_CLASS_OF), l) == Some(z);
            assert(l == a);
        }
    }
    assert(tbox_step()(t) =~= t);
    lemma_one_round(tbox_step(), t, t);
}

/// Rule coverage for `domain`: the schema `(p, domain, c)` and the data
/// `(x, p, y)`, of distinct identifiers past the reserved ones, add
/// `(x, type, c)` and nothing else.
pub proof fn law_domain_alone(plus: bool, p: u32, c: u32, x: u32, y: u32, t1: Set<Triple>, a1: Set<Triple>)
    requires
        p > MAX_CONST && c > MAX_CONST && x > MAX_CONST && y > MAX_CONST,
        p != c && p != x && p != y && c != x && c != y && x != y,
        is_materialization(plus, set![(p, DOMAIN, c)], set![(x, p, y)], t1, a1),
    ensures
        t1 == set![(p, DOMAIN, c)],
        a1 == set![(x, p, y), (x, TYPE, c)],
{
    let t = set![(p, DOMAIN, c)];
    let k = set![(x, p, y)];
    let s = set![(x, p, y), (x, TYPE, c)];
    assert(fire(Rule::Domain, (x, p, y), (p, DOMAIN, c)) == Some((x, TYPE, c)));
    assert(join_set(Rule::ClassMembership, k, t) =~= Set::empty());
    assert(join_set(Rule::SubProperty, k, t) =~= Set::empty());
    assert(join_set(Rule::Domain, k, t) =~= set![(x, TYPE, c)]);
    assert(join_set(Rule::Range, k, t) =~= Set::empty());
    assert(join_set(Rule::InverseForward, k, t) =~= Set::empty());
    assert(join_set(Rule::InverseBackward, k, t) =~= Set::empty());
    assert(join_set(Rule::TransitiveOnly, k, t) =~= Set::empty());
    assert(join_set(Rule::Compose, Set::empty(), Set::empty()) =~= Set::empty());
    assert(join_set(Rule::ClassMembership, s, t) =~= Set::empty());
    assert(join_set(Rule::SubProperty, s, t) =~= Set::empty());
    assert(join_set(Rule::Domain, s, t) =~= set![(x, TYPE, c)]);
    assert(join_set(Rule::Range, s, t) =~= Set::empty());
    assert(join_set(Rule::InverseForward, s, t) =~= Set::empty());
    assert(join_set(Rule::InverseBackward, s, t) =~= Set::empty());
    assert(join_set(Rule::TransitiveOnly, s, t) =~= Set::empty());
    assert(join_set(Rule::Compose, Set::empty(), Set::empty()) =~= Set::empty());
    lemma_single_schema_closed((p, DOMAIN, c));
    lemma_tbox_step();
    lemma_lfp_unique(tbox_step(), t, t, t1);
    assert(abox_step(plus, t)(k) =~= s);
    assert(abox_step(plus, t)(s) =~= s);
    lemma_one_round(abox_step(plus, t), k, s);
    lemma_abox_step(plus, t, t);
    lemma_lfp_unique(abox_step(plus, t), k, s, a1);
}

/// Rule coverage for `subClassOf`: the schema `(c, subClassOf, d)` and the
/// data `(x, type, c)`, of distinct identifiers past the reserved ones, add
/// `(x, type, d)` and nothing else.
pub proof fn law_subclass_alone(plus: bool, c: u32, d: u32, x: u32, t1: Set<Triple>, a1: Set<Triple>)
    requires
        c > MAX_CONST && d > MAX_CONST && x > MAX_CONST,
        c != d && c != x && d != x,
        is_materialization(plus, set![(c, SUB_CLASS_OF, d)], set![(x, TYPE, c)], t1, a1),
    ensures
        t1 == set![(c, SUB_CLASS_OF, d)],
        a1 == set![(x, TYPE, c), (x, TYPE, d)],
{
    let t = set![(c, SUB_CLASS_OF, d)];
    let k = set![(x, TYPE, c)];
    let s = set![(x, TYPE, c), (x, TYPE, d)];
    assert(fire(Rule::ClassMembership, (x, TYPE, c), (c, SUB_CLASS_OF, d)) == Some((x, TYPE, d)));
    assert(join_set(Rule::ClassMembership, k, t) =~= set![(x, TYPE, d)]);
    assert(join_set(Rule::SubProperty, k, t) =~= Set::empty());
    assert(join_set(Rule::Domain, k, t) =~= Set::empty());
    assert(join_set(Rule::Range, k, t) =~= Set::empty());
    assert(join_set(Rule::InverseForward, k, t) =~= Set::empty());
    assert(join_set(Rule::InverseBackward, k, t) =~= Set::empty());
    assert(join_set(Rule::TransitiveOnly, k, t) =~= Set::empty());
    assert(join_set(Rule::Compose, Set::empty(), Set::empty()) =~= Set::empty());
    assert(join_set(Rule::ClassMembership, s, t) =~= set![(x, TYPE, d)]);
    assert(join_set(Rule::SubProperty, s, t) =~= Set::empty());
    assert(join_set(Rule::Domain, s, t) =~= Set::empty());
    assert(join_set(Rule::Range, s, t) =~= Set::empty());
    assert(join_set(Rule::InverseForward, s, t) =~= Set::empty());
    assert(join_set(Rule::InverseBackward, s, t) =~= Set::empty());
    assert(join_set(Rule::TransitiveOnly, s, t) =~= Set::empty());
    assert(join_set(Rule::Compose, Set::empty(), Set::empty()) =~= Set::empty());
    lemma_single_schema_closed((c, SUB_CLASS_OF, d));
    lemma_tbox_step();
    lemma_lfp_unique(tbox_step(), t, t, t1);
    assert(abox_step(plus, t)(k) =~= s);
    assert(abox_step(plus, t)(s) =~= s);
    lemma_one_round(abox_step(plus, t), k, s);
    lemma_abox_step(plus, t, t);
    lemma_lfp_unique(abox_step(plus, t), k, s, a1);
}

/// Rule coverage for `subPropertyOf`: the schema `(p, subPropertyOf, q)`
/// and the data `(x, p, y)`, of distinct identifiers past the reserved ones,
/// add `(x, q, y)` and nothing else.
pub proof fn law_subproperty_alone(plus: bool, p: u32, q: u32, x: u32, y: u32, t1: Set<Triple>, a1: Set<Triple>)
    requires
        p > MAX_CONST && q > MAX_CONST && x > MAX_CONST && y > MAX_CONST,
        p != q && p != x && p != y && q != x && q != y && x != y,
        is_materialization(plus, set![(p, SUB_PROPERTY_OF, q)], set![(x, p, y)], t1, a1),
    ensures
        t1 == set![(p, SUB_PROPERTY_OF, q)],
        a1 == set![(x, p, y), (x, q, y)],
{
    let t = set![(p, SUB_PROPERTY_OF, q)];
    let k = set![(x, p, y)];
    let s = set![(x, p, y), (x, q, y)];
    assert(fire(Rule::SubProperty, (x, p, y), (p, SUB_PROPERTY_OF, q)) == Some((x, q, y)));
    assert(join_set(Rule::ClassMembership, k, t) =~= Set::empty());
    assert(join_set(Rule::SubProperty, k, t) =~= set![(x, q, y)]);
    assert(join_set(Rule::Domain, k, t) =~= Set::empty());
    assert(join_set(Rule::Range, k, t) =~= Set::empty());
    assert(join_set(Rule::InverseForward, k, t) =~= Set::empty());
    assert(join_set(Rule::InverseBackward, k, t) =~= Set::empty());
    assert(join_set(Rule::TransitiveOnly, k, t) =~= Set::empty());
    assert(join_set(Rule::Compose, Set::empty(), Set::empty()) =~= Set::empty());
    assert(join_set(Rule::ClassMembership, s, t) =~= Set::empty());
    assert(join_set(Rule::SubProperty, s, t) =~= set![(x, q, y)]);
    assert(join_set(Rule::Domain, s, t) =~= Set::empty());
    assert(join_set(Rule::Range, s, t) =~= Set::empty());
    assert(join_set(Rule::InverseForward, s, t) =~= Set::empty());
    assert(join_set(Rule::InverseBackward, s, t) =~= Set::empty());
    assert(join_set(Rule::TransitiveOnly, s, t) =~= Set::empty());
    assert(join_set(Rule::Compose, Set::empty(), Set::empty()) =~= Set::empty());
    lemma_single_schema_closed((p, SUB_PROPERTY_OF, q));
    lemma_tbox_step();
    lemma_lfp_unique(tbox_step(), t, t, t1);
    assert(abox_step(plus, t)(k) =~= s);
    assert(abox_step(plus, t)(s) =~= s);
    lemma_one_round(abox_step(plus, t), k, s);
    lemma_abox_step(plus, t, t);
    lemma_lfp_unique(abox_step(plus, t), k, s, a1);
}

/// Rule coverage for `range`: the schema `(p, range, c)` and the data
/// `(x, p, y)`, of distinct identifiers past the reserved ones, add
/// `(y, type, c)` and nothing else.
pub proof fn law_range_alone(plus: bool, p: u32, c: u32, x: u32, y: u32, t1: Set<Triple>, a1: Set<Triple>)
    requires
        p > MAX_CONST && c > MAX_CONST && x > MAX_CONST && y > MAX_CONST,
        p != c && p != x && p != y && c != x && c != y && x != y,
        is_materialization(plus, set![(p, RANGE, c)], set![(x, p, y)], t1, a1),
    ensures
        t1 == set![(p, RANGE, c)],
        a1 == set![(x, p, y), (y, TYPE, c)],
{
    let t = set![(p, RANGE, c)];
    let k = set![(x, p, y)];
    let s = set![(x, p, y), (y, TYPE, c)];
    assert(fire(Rule::Range, (x, p, y), (p, RANGE, c)) == Some((y, TYPE, c)));
    assert(join_set(Rule::ClassMembership, k, t) =~= Set::empty());
    assert(join_set(Rule::SubProperty, k, t) =~= Set::empty());
    assert(join_set(Rule::Domain, k, t) =~= Set::empty());
    assert(join_set(Rule::Range, k, t) =~= set![(y, TYPE, c)]);
    assert(join_set(Rule::InverseForward, k, t) =~= Set::empty());
    assert(join_set(Rule::InverseBackward, k, t) =~= Set::empty());
    assert(join_set(Rule::TransitiveOnly, k, t) =~= Set::empty());
    assert(join_set(Rule::Compose, Set::empty(), Set::empty()) =~= Set::empty());
    assert(join_set(Rule::ClassMembership, s, t) =~= Set::empty());
    assert(join_set(Rule::SubProperty, s, t) =~= Set::empty());
    assert(join_set(Rule::Domain, s, t) =~= Set::empty());
    assert(join_set(Rule::Range, s, t) =~= set![(y, TYPE, c)]);
    assert(join_set(Rule::InverseForward, s, t) =~= Set::empty());
    assert(join_set(Rule::InverseBackward, s, t) =~= Set::empty());
    assert(join_set(Rule::TransitiveOnly, s, t) =~= Set::empty());
    assert(join_set(Rule::Compose, Set::empty(), Set::empty()) =~= Set::empty());
    lemma_single_schema_closed((p, RANGE, c));
    lemma_tbox_step();
    lemma_lfp_unique(tbox_step(), t, t, t1);
    assert(abox_step(plus, t)(k) =~= s);
    assert(abox_step(plus, t)(s) =~= s);
    lemma_one_round(abox_step(plus, t), k, s);
    lemma_abox_step(plus, t, t);
    lemma_lfp_unique(abox_step(plus, t), k, s, a1);
}

/// Rule coverage for `inverseOf` under RDFS++: the schema
/// `(p, inverseOf, q)` and the data `(x, p, y)`, of distinct identifiers
/// past the reserved ones, add `(y, q, x)` and nothing else.
pub proof fn law_inverse_alone(p: u32, q: u32, x: u32, y: u32, t1: Set<Triple>, a1: Set<Triple>)
    requires
        p > MAX_CONST && q > MAX_CONST && x > MAX_CONST && y > MAX_CONST,
        p != q && p != x && p != y && q != x && q != y && x != y,
        is_materialization(true, set![(p, INVERSE_OF, q)], set![(x, p, y)], t1, a1),
    ensures
        t1 == set![(p, INVERSE_OF, q)],
        a1 == set![(x, p, y), (y, q, x)],
{
    let t = set![(p, INVERSE_OF, q)];
    let k = set![(x, p, y)];
    let s = set![(x, p, y), (y, q, x)];
    assert(fire(Rule::InverseForward, (x, p, y), (p, INVERSE_OF, q)) == Some((y, q, x)));
    assert(fire(Rule::InverseBackward, (y, q, x), (p, INVERSE_OF, q)) == Some((x, p, y)));
    assert(join_set(Rule::ClassMembership, k, t) =~= Set::empty());
    assert(join_set(Rule::SubProperty, k, t) =~= Set::empty());
    assert(join_set(Rule::Domain, k, t) =~= Set::empty());
    assert(join_set(Rule::Range, k, t) =~= Set::empty());
    assert(join_set(Rule::InverseForward, k, t) =~= set![(y, q, x)]);
    assert(join_set(Rule::InverseBackward, k, t) =~= Set::empty());
    assert(join_set(Rule::TransitiveOnly, k, t) =~= Set::empty());
    assert(join_set(Rule::Compose, Set::empty(), Set::empty()) =~= Set::empty());
    assert(join_set(Rule::ClassMembership, s, t) =~= Set::empty());
    assert(join_set(Rule::SubProperty, s, t) =~= Set::empty());
    assert(join_set(Rule::Domain, s, t) =~= Set::empty());
    assert(join_set(Rule::Range, s, t) =~= Set::empty());
    assert(join_set(Rule::InverseForward, s, t) =~= set![(y, q, x)]);
    assert(join_set(Rule::InverseBackward, s, t) =~= set![(x, p, y)]);
    assert(join_set(Rule::TransitiveOnly, s, t) =~= Set::empty());
    assert(join_set(Rule::Compose, Set::empty(), Set::empty()) =~= Set::empty());
    lemma_single_schema_closed((p, INVERSE_OF, q));
    lemma_tbox_step();
    lemma_lfp_unique(tbox_step(), t, t, t1);
    assert(abox_step(true, t)(k) =~= s);
    assert(abox_step(true, t)(s) =~= s);
    lemma_one_round(abox_step(true, t), k, s);
    lemma_abox_step(true, t, t);
    lemma_lfp_unique(abox_step(true, t), k, s, a1);
}

/// Rule coverage for `TransitiveProperty` under RDFS++: the schema
/// `(p, type, TransitiveProperty)` and the data `(x, p, y)`, `(y, p, z)`, of
/// distinct identifiers past the reserved ones, add `(x, p, z)` and nothing
/// else.
pub proof fn law_transitive_alone(p: u32, x: u32, y: u32, z: u32, t1: Set<Triple>, a1: Set<Triple>)
    requires
        p > MAX_CONST && x > MAX_CONST && y > MAX_CONST && z > MAX_CONST,
        p != x && p != y && p != z && x != y && x != z && y != z,
        is_materialization(true, set![(p, TYPE, TRANSITIVE_PROPERTY)], set![(x, p, y), (y, p, z)], t1, a1),
    ensures
        t1 == set![(p, TYPE, TRANSITIVE_PROPERTY)],
        a1 == set![(x, p, y), (y, p, z), (x, p, z)],
{
    let t = set![(p, TYPE, TRANSITIVE_PROPERTY)];
    let k = set![(x, p, y), (y, p, z)];
    let s = set![(x, p, y), (y, p, z), (x, p, z)];
    assert(fire(Rule::Compose, (x, p, y), (y, p, z)) == Some((x, p, z)));
    assert(join_set(Rule::ClassMembership, k, t) =~= Set::empty());
    assert(join_set(Rule::SubProperty, k, t) =~= Set::empty());
    assert(join_set(Rule::Domain, k, t) =~= Set::empty());
    assert(join_set(Rule::Range, k, t) =~= Set::empty());
    assert(join_set(Rule::InverseForward, k, t) =~= Set::empty());
    assert(join_set(Rule::InverseBackward, k, t) =~= Set::empty());
    assert(fire(Rule::TransitiveOnly, (x, p, y), (p, TYPE, TRANSITIVE_PROPERTY)) == Some((x, p, y)));
    assert(fire(Rule::TransitiveOnly, (y, p, z), (p, TYPE, TRANSITIVE_PROPERTY)) == Some((y, p, z)));
    assert(fire(Rule::TransitiveOnly, (x, p, z), (p, TYPE, TRANSITIVE_PROPERTY)) == Some((x, p, z)));
    assert(join_set(Rule::TransitiveOnly, k, t) =~= set![(x, p, y), (y, p, z)]);
    assert(join_set(Rule::Compose, set![(x, p, y), (y, p, z)], set![(x, p, y), (y, p, z)]) =~= set![(x, p, z)]);
    assert(join_set(Rule::ClassMembership, s, t) =~= Set::empty());
    assert(join_set(Rule::SubProperty, s, t) =~= Set::empty());
    assert(join_set(Rule::Domain, s, t) =~= Set::empty());
    assert(join_set(Rule::Range, s, t) =~= Set::empty());
    assert(join_set(Rule::InverseForward, s, t) =~= Set::empty());
    assert(join_set(Rule::InverseBackward, s, t) =~= Set::empty());
    assert(join_set(Rule::TransitiveOnly, s, t) =~= set![(x, p, y), (y, p, z), (x, p, z)]);
    assert(join_set(Rule::Compose, set![(x, p, y), (y, p, z), (x, p, z)], set![(x, p, y), (y, p, z), (x, p, z)]) =~= set![(x, p, z)]);
    lemma_single_schema_closed((p, TYPE, TRANSITIVE_PROPERTY));
    lemma_tbox_step();
    lemma_lfp_unique(tbox_step(), t, t, t1);
    assert(abox_step(true, t)(k) =~= s);
    assert(abox_step(true, t)(s) =~= s);
    lemma_one_round(abox_step(true, t), k, s);
    lemma_abox_step(true, t, t);
    lemma_lfp_unique(abox_step(true, t), k, s, a1);
}

/// A rule other than class membership never fires on a `subClassOf`
/// statement, and class membership fires on `(c, subClassOf, c)` only to
/// restate its premise.
proof fn lemma_self_loop_fires(plus: bool, t: Set<Triple>, c: u32, x: Set<Triple>)
    ensures
        abox_derive(plus, t.insert((c, SUB_CLASS_OF, c)), x).subset_of(
            x.union(abox_derive(plus, t, x)),
        ),
{
    let s = (c, SUB_CLASS_OF, c);
    let t2 = t.insert(s);
    assert(join_set(Rule::SubProperty, x, t2) =~= join_set(Rule::SubProperty, x, t));
    assert(join_set(Rule::Domain, x, t2) =~= join_set(Rule::Domain, x, t));
    assert(join_set(Rule::Range, x, t2) =~= join_set(Rule::Range, x, t));
    assert(join_set(Rule::InverseForward, x, t2) =~= join_set(Rule::InverseForward, x, t));
    assert(join_set(Rule::InverseBackward, x, t2) =~= join_set(Rule::InverseBackward, x, t));
    assert(join_set(Rule::TransitiveOnly, x, t2) =~= join_set(Rule::TransitiveOnly, x, t));
    assert forall|y: Triple| #[trigger] join_set(Rule::ClassMembership, x, t2).contains(y) implies x.contains(y)
        || join_set(Rule::ClassMembership, x, t).contains(y) by {
        let (l, r) = choose|l: Triple, r: Triple|
            x.contains(l) && t2.contains(r) && #[trigger] fire(Rule::ClassMembership, l, r) == Some(y);
        if r == s {
            assert(y == l);
        }
    }
}

/// A schema statement that makes a class a subclass of itself derives
/// nothing new: the schema output gains that statement alone and the data
/// output stays as it was.
pub proof fn law_self_subclass(
    plus: bool,
    tbox: Set<Triple>,
    abox: Set<Triple>,
    c: u32,
    t1: Set<Triple>,
    a1: Set<Triple>,
    t2: Set<Triple>,
    a2: Set<Triple>,
)
    requires
        is_materialization(plus, tbox, abox, t1, a1),
        is_materialization(plus, tbox.insert((c, SUB_CLASS_OF, c)), abox, t2, a2),
    ensures
        t2 == t1.insert((c, SUB_CLASS_OF, c)),
        a2 == a1,
{
    let s = (c, SUB_CLASS_OF, c);
    let f = tbox_step();
    let ps = set![SUB_PROPERTY_OF];
    let rn = Lift::Rename(SUB_CLASS_OF_INTERNED, SUB_CLASS_OF);
    let fix = t1.insert(s);
    lemma_tbox_step();
    lemma_tbox_step_apply(t1);
    lemma_tbox_step_apply(fix);
    assert(only(ps, fix) =~= only(ps, t1));
    assert forall|y: Triple| #[trigger] join_set(Rule::ChainClass, fix, fix).contains(y) implies fix.contains(y) by {
        let (l, r) = choose|l: Triple, r: Triple| fix.contains(l) && fix.contains(r) && #[trigger] fire(Rule::ChainClass, l, r) == Some(y);
        if l == s && r == s {
        } else if l == s {
            if r.1 == SUB_CLASS_OF_INTERNED {
                assert(map_fire(rn, r) == Some(y));
                assert(apply_set(rn, t1).contains(y));
            }
        } else if r == s {
            if l.1 == SUB_CLASS_OF_INTERNED {
                assert(map_fire(rn, l) == Some(y));
                assert(apply_set(rn, t1).contains(y));
            }
        } else {
            assert(join_set(Rule::ChainClass, t1, t1).contains(y));
        }
    }
    assert forall|y: Triple| #[trigger] apply_set(rn, fix).contains(y) implies fix.contains(y) by {
        let l = choose|l: Triple| fix.contains(l) && #[trigger] map_fire(rn, l) == Some(y);
        assert(l != s);
        assert(apply_set(rn, t1).contains(y));
    }
    assert(f(fix) =~= fix);
    let n1 = choose|n: nat| t1 == #[trigger] iterate(f, tbox, n);
    lemma_iterate_above(f, tbox, n1);
    let n2 = choose|n: nat| t2 == #[trigger] iterate(f, tbox.insert(s), n);
    lemma_iterate_below(f, f, tbox.insert(s), fix, n2);
    lemma_lfp_grows(f, f, tbox, tbox.insert(s), t1, t2);
    lemma_iterate_above(f, tbox.insert(s), n2);
    assert(t2 =~= fix);

    lemma_abox_step(plus, t1, fix);
    lemma_abox_step(plus, fix, fix);
    lemma_lfp_grows(abox_step(plus, t1), abox_step(plus, fix), abox, abox, a1, a2);
    assert forall|x: Set<Triple>| #[trigger] abox_step(plus, fix)(x).subset_of(abox_step(plus, t1)(x)) by {
        lemma_self_loop_fires(plus, t1, c, x);
    }
    let m2 = choose|n: nat| a2 == #[trigger] iterate(abox_step(plus, fix), abox, n);
    let m1 = choose|n: nat| a1 == #[trigger] iterate(abox_step(plus, t1), abox, n);
    lemma_iterate_above(abox_step(plus, t1), abox, m1);
    lemma_iterate_below(abox_step(plus, fix), abox_step(plus, t1), abox, a1, m2);
    assert(a1 =~= a2);
}

/// What one round of the data rules derives from `data` under `schema`, each
/// triple once.
fn abox_round(plus: bool, schema: &Vec<Triple>, data: &Vec<Triple>) -> (r: Vec<Triple>)
    ensures
        r@.no_duplicates(),
        r@.to_set() == abox_derive(plus, schema@.to_set(), data@.to_set()),
{
    let mut r = join(Rule::ClassMembership, data, schema);
    let sub_property = join(Rule::SubProperty, data, schema);
    extend(&mut r, &sub_property);
    let domain = join(Rule::Domain, data, schema);
    extend(&mut r, &domain);
    let range = join(Rule::Range, data, schema);
    extend(&mut r, &range);
    if plus {
        let forward = join(Rule::InverseForward, data, schema);
        extend(&mut r, &forward);
        let backward = join(Rule::InverseBackward, data, schema);
        extend(&mut r, &backward);
        let trans = join(Rule::TransitiveOnly, data, schema);
        let chained = join(Rule::Compose, &trans, &trans);
        extend(&mut r, &chained);
    }
    r
}

/// The closure of `abox` under the data rules with the closed schema `tbox`.
fn abox_closure(plus: bool, tbox: &Vec<Triple>, abox: &Vec<Triple>) -> (r: Vec<Triple>)
    ensures
        r@.no_duplicates(),
        is_lfp(abox_step(plus, tbox@.to_set()), abox@.to_set(), r@.to_set()),
{
    let ghost f = abox_step(plus, tbox@.to_set());
    let ghost k = abox@.to_set();
    let mut cur = distinct(abox);
    let ghost mut n: nat = 0;
    assert(iterate(f, k, 0) == k);
    loop
        invariant
            f == abox_step(plus, tbox@.to_set()),
            k == abox@.to_set(),
            cur@.no_duplicates(),
            cur@.to_set() == iterate(f, k, n),
        ensures
            cur@.no_duplicates(),
            cur@.to_set() == iterate(f, k, n),
            f(cur@.to_set()) == cur@.to_set(),
        decreases Set::<u128>::full().len() - cur@.len(),
    {
        proof {
            lemma_unique_seq_bound(cur@);
        }
        let ghost before = cur@;
        let derived = abox_round(plus, tbox, &cur);
        let old_len = cur.len();
        extend(&mut cur, &derived);
        proof {
            assert(f(before.to_set()) == before.to_set().union(
                abox_derive(plus, tbox@.to_set(), before.to_set()),
            ));
            assert(iterate(f, k, n + 1) == f(iterate(f, k, n)));
            n = n + 1;
            lemma_unique_seq_bound(cur@);
        }
        if cur.len() == old_len {
            assert(cur@ =~= before);
            break;
        }
    }
    assert(cur@.to_set() == iterate(f, k, n));
    cur
}

/// The RDFS materialization of `(tbox, abox)`: the closed schema, and the
/// data closed under `subClassOf`, `subPropertyOf`, `domain` and `range`.
pub fn rdfs(tbox: &Vec<Triple>, abox: &Vec<Triple>) -> (r: (Vec<Triple>, Vec<Triple>))
    ensures
        r.0@.no_duplicates(),
        r.1@.no_duplicates(),
        is_materialization(false, tbox@.to_set(), abox@.to_set(), r.0@.to_set(), r.1@.to_set()),
{
    let closed = tbox_closure(tbox);
    let data = abox_closure(false, &closed, abox);
    (closed, data)
}

/// The RDFS++ materialization of `(tbox, abox)`: as [`rdfs`], with
/// `owl:inverseOf` and `owl:TransitiveProperty` as well.
pub fn rdfspp(tbox: &Vec<Triple>, abox: &Vec<Triple>) -> (r: (Vec<Triple>, Vec<Triple>))
    ensures
        r.0@.no_duplicates(),
        r.1@.no_duplicates(),
        is_materialization(true, tbox@.to_set(), abox@.to_set(), r.0@.to_set(), r.1@.to_set()),
{
    let closed = tbox_closure(tbox);
    let data = abox_closure(true, &closed, abox);
    (closed, data)
}

/// Retracting data that was added restores the materialization of what was
/// there before: materialization depends on the data as a set, and taking
/// away the copies that were added leaves the data as it was.
pub proof fn law_retraction_round_trip(
    plus: bool,
    tbox: Set<Triple>,
    kept: Multiset<Triple>,
    delta: Multiset<Triple>,
    t1: Set<Triple>,
    a1: Set<Triple>,
    t2: Set<Triple>,
    a2: Set<Triple>,
)
    requires
        is_materialization(plus, tbox, kept.add(delta).sub(delta).dom(), t1, a1),
        is_materialization(plus, tbox, kept.dom(), t2, a2),
    ensures
        t1 == t2,
        a1 == a2,
{
    broadcast use vstd::multiset::group_multiset_axioms;

    assert(kept.add(delta).sub(delta) =~= kept);
    law_materialization_unique(plus, tbox, kept.dom(), t1, a1, t2, a2);
}

/// The set of the triples of `s` is the domain of its multiset.
pub(crate) proof fn lemma_multiset_dom(s: Seq<Triple>)
    ensures
        s.to_multiset().dom() == s.to_set(),
{
    broadcast use vstd::seq_lib::group_seq_properties;

    s.to_multiset_ensures();
    assert(s.to_multiset().dom() =~= s.to_set());
}

/// Appends the triples of `batch` to `v`.
pub fn add_all(v: &mut Vec<Triple>, batch: &Vec<Triple>)
    ensures
        final(v)@.to_multiset() == old(v)@.to_multiset().add(batch@.to_multiset()),
{
    broadcast use vstd::seq_lib::group_seq_properties;
    broadcast use vstd::multiset::group_multiset_axioms;

    let ghost start = v@.to_multiset();
    let mut k: usize = 0;
    assert(batch@.subrange(0, 0).to_multiset() =~= Multiset::<Triple>::empty());
    assert(start.add(Multiset::<Triple>::empty()) =~= start);
    while k < batch.len()
        invariant
            k <= batch@.len(),
            v@.to_multiset() == start.add(batch@.subrange(0, k as int).to_multiset()),
        decreases batch@.len() - k,
    {
        let ghost before = v@;
        v.push(batch[k]);
        proof {
            assert(batch@.subrange(0, k as int + 1) =~= batch@.subrange(0, k as int).push(batch@[k as int]));
            assert(v@ == before.push(batch@[k as int]));
            vstd::seq_lib::to_multiset_build(before, batch@[k as int]);
            vstd::seq_lib::to_multiset_build(batch@.subrange(0, k as int), batch@[k as int]);
            assert(v@.to_multiset() =~= start.add(batch@.subrange(0, k as int + 1).to_multiset()));
        }
        k = k + 1;
    }
    assert(batch@.subrange(0, batch@.len() as int) == batch@);
}

/// Takes one copy of each triple of `batch` out of `v`, where `v` holds one.
pub fn remove_all(v: &mut Vec<Triple>, batch: &Vec<Triple>)
    ensures
        final(v)@.to_multiset() == old(v)@.to_multiset().sub(batch@.to_multiset()),
{
    broadcast use vstd::seq_lib::group_seq_properties;
    broadcast use vstd::multiset::group_multiset_axioms;

    let ghost start = v@.to_multiset();
    let mut k: usize = 0;
    assert(batch@.subrange(0, 0).to_multiset() =~= Multiset::<Triple>::empty());
    assert(start.sub(Multiset::<Triple>::empty()) =~= start);
    while k < batch.len()
        invariant
            k <= batch@.len(),
            v@.to_multiset() == start.sub(batch@.subrange(0, k as int).to_multiset()),
        decreases batch@.len() - k,
    {
        let d = batch[k];
        let ghost before = v@;
        let ghost done = batch@.subrange(0, k as int).to_multiset();
        proof {
            assert(batch@.subrange(0, k as int + 1) =~= batch@.subrange(0, k as int).push(d));
        }
        let mut j: usize = 0;
        while j < v.len() && !same_triple(v[j], d)
            invariant
                j <= v@.len(),
                forall|m: int| 0 <= m < j ==> v@[m] != d,
            decreases v@.len() - j,
        {
            j = j + 1;
        }
        if j < v.len() {
            v.remove(j);
            proof {
                assert(v@ == before.remove(j as int));
                vstd::seq_lib::to_multiset_remove(before, j as int);
                before.to_multiset_ensures();
                assert(before.contains(d));
                assert(before.to_multiset().count(d) > 0);
                vstd::seq_lib::to_multiset_build(batch@.subrange(0, k as int), d);
                assert(v@.to_multiset() =~= start.sub(done.insert(d)));
            }
        } else {
            proof {
                assert(!before.contains(d));
                before.to_multiset_ensures();
                assert(before.to_multiset().count(d) == 0);
                vstd::seq_lib::to_multiset_build(batch@.subrange(0, k as int), d);
                assert(v@.to_multiset() =~= start.sub(done.insert(d)));
            }
        }
        k = k + 1;
    }
    assert(batch@.subrange(0, batch@.len() as int) == batch@);
}

/// A materialized store that takes data in batches, both additions and
/// retractions, and keeps its output closed under the rules.
pub struct Reasoner {
    stage: Stage,
    plus: bool,
    tbox: Vec<Triple>,
    abox: Vec<Triple>,
    tbox_out: Vec<Triple>,
    abox_out: Vec<Triple>,
}

impl Reasoner {
    /// The stage of the store: sealed schema, streaming data, or drained.
    pub closed spec fn stage(&self) -> Stage {
        self.stage
    }

    /// Whether the rules of RDFS++ are used, rather than those of RDFS.
    pub closed spec fn plus(&self) -> bool {
        self.plus
    }

    /// The schema.
    pub closed spec fn schema(&self) -> Set<Triple> {
        self.tbox@.to_set()
    }

    /// The data added and not retracted, with repeats.
    pub closed spec fn input(&self) -> Multiset<Triple> {
        self.abox@.to_multiset()
    }

    /// The closed schema.
    pub closed spec fn schema_out(&self) -> Set<Triple> {
        self.tbox_out@.to_set()
    }

    /// The closed data.
    pub closed spec fn data_out(&self) -> Set<Triple> {
        self.abox_out@.to_set()
    }

    /// The outputs are the materialization of the schema and of the data.
    pub open spec fn wf(&self) -> bool {
        is_materialization(self.plus(), self.schema(), self.input().dom(), self.schema_out(), self.data_out())
    }

    /// A store with the schema `tbox`, closed and sealed, and no data.
    pub fn new(plus: bool, tbox: Vec<Triple>) -> (r: Reasoner)
        ensures
            r.wf(),
            r.stage() == Stage::TboxSealed,
            r.plus() == plus,
            r.schema() == tbox@.to_set(),
            r.input() == Multiset::<Triple>::empty(),
    {
        let tbox_out = tbox_closure(&tbox);
        let abox: Vec<Triple> = Vec::new();
        let abox_out = abox_closure(plus, &tbox_out, &abox);
        proof {
            lemma_multiset_dom(abox@);
            assert(abox@.to_multiset() =~= Multiset::<Triple>::empty()) by {
                broadcast use vstd::seq_lib::group_seq_properties;
                broadcast use vstd::multiset::group_multiset_axioms;

                abox@.to_multiset_ensures();
            }
        }
        Reasoner { stage: Stage::TboxSealed, plus, tbox, abox, tbox_out, abox_out }
    }

    /// Recloses the data after a change of the input.
    fn refresh(&mut self)
        requires
            is_lfp(tbox_step(), old(self).tbox@.to_set(), old(self).tbox_out@.to_set()),
        ensures
            final(self).wf(),
            final(self).stage() == old(self).stage(),
            final(self).plus() == old(self).plus(),
            final(self).schema() == old(self).schema(),
            final(self).input() == old(self).input(),
    {
        self.abox_out = abox_closure(self.plus, &self.tbox_out, &self.abox);
        proof {
            lemma_multiset_dom(self.abox@);
        }
    }

    /// Adds the triples of `batch` to the data.
    pub fn insert(&mut self, batch: &Vec<Triple>) -> (accepted: bool)
        requires
            old(self).wf(),
        ensures
            accepted == stage_next(old(self).stage(), StageEvent::Batch).is_some(),
            final(self).wf(),
            final(self).plus() == old(self).plus(),
            final(self).schema() == old(self).schema(),
            accepted ==> final(self).stage() == Stage::Streaming,
            accepted ==> final(self).input() == old(self).input().add(batch@.to_multiset()),
            !accepted ==> final(self).stage() == old(self).stage() && final(self).input() == old(self).input()
                && final(self).data_out() == old(self).data_out(),
    {
        match stage_step(self.stage, StageEvent::Batch) {
            Some(next) => {
                self.stage = next;
            },
            None => {
                return false;
            },
        }
        add_all(&mut self.abox, batch);
        self.refresh();
        true
    }

    /// Takes one copy of each triple of `batch` out of the data, where the
    /// data holds one.
    pub fn retract(&mut self, batch: &Vec<Triple>) -> (accepted: bool)
        requires
            old(self).wf(),
        ensures
            accepted == stage_next(old(self).stage(), StageEvent::Batch).is_some(),
            final(self).wf(),
            final(self).plus() == old(self).plus(),
            final(self).schema() == old(self).schema(),
            accepted ==> final(self).stage() == Stage::Streaming,
            accepted ==> final(self).input() == old(self).input().sub(batch@.to_multiset()),
            !accepted ==> final(self).stage() == old(self).stage() && final(self).input() == old(self).input()
                && final(self).data_out() == old(self).data_out(),
    {
        match stage_step(self.stage, StageEvent::Batch) {
            Some(next) => {
                self.stage = next;
            },
            None => {
                return false;
            },
        }
        remove_all(&mut self.abox, batch);
        self.refresh();
        true
    }

    /// Closes the data input: the store is drained and takes no more
    /// batches. Refused, and `false`, unless data is streaming.
    pub fn close(&mut self) -> (closed: bool)
        ensures
            closed == stage_next(old(self).stage(), StageEvent::AboxDone).is_some(),
            closed ==> final(self).stage() == Stage::Drained,
            !closed ==> final(self).stage() == old(self).stage(),
            final(self).plus() == old(self).plus(),
            final(self).schema() == old(self).schema(),
            final(self).input() == old(self).input(),
            final(self).schema_out() == old(self).schema_out(),
            final(self).data_out() == old(self).data_out(),
    {
        match stage_step(self.stage, StageEvent::AboxDone) {
            Some(next) => {
                self.stage = next;
                true
            },
            None => false,
        }
    }

    /// The closed schema, each triple once.
    pub fn tbox_output(&self) -> (r: Vec<Triple>)
        ensures
            r@.no_duplicates(),
            r@.to_set() == self.schema_out(),
    {
        distinct(&self.tbox_out)
    }

    /// The closed data, each triple once.
    pub fn abox_output(&self) -> (r: Vec<Triple>)
        ensures
            r@.no_duplicates(),
            r@.to_set() == self.data_out(),
    {
        distinct(&self.abox_out)
    }
}

} // verus!
