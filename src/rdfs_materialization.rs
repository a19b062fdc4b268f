use vstd::prelude::*;

use crate::constants::{SUB_CLASS_OF, SUB_CLASS_OF_INTERNED, SUB_PROPERTY_OF, TRANSITIVE_PROPERTY, TYPE};
use crate::fixpoint::{is_lfp, is_rule_step, iterate};
use crate::rules::{apply, apply_set, join, join_set, lemma_apply_monotone, lemma_join_monotone, Lift, Rule};
use crate::triple_set::{distinct, extend, insert, lemma_unique_seq_bound, Triple};

verus! {

/// The triples of `d` whose predicate is in `ps`.
pub open spec fn only(ps: Set<u32>, d: Set<Triple>) -> Set<Triple> {
    d.filter(|t: Triple| ps.contains(t.1))
}

/// One round of chaining: `(x, p, y)`, `(y, p, z)` gives `(x, p, z)` for each
/// predicate `p` of `ps`.
pub open spec fn chain_step(ps: Set<u32>) -> spec_fn(Set<Triple>) -> Set<Triple> {
    |d: Set<Triple>| d.union(join_set(Rule::Compose, only(ps, d), only(ps, d)))
}

/// The subjects of the `(p, type, TransitiveProperty)` declarations of `d`.
pub open spec fn transitive_properties(d: Set<Triple>) -> Set<u32> {
    Set::new(|p: u32| d.contains((p, TYPE, TRANSITIVE_PROPERTY)))
}

/// What one round of chaining gives.
pub proof fn lemma_chain_step_apply(ps: Set<u32>, d: Set<Triple>)
    ensures
        chain_step(ps)(d) == d.union(join_set(Rule::Compose, only(ps, d), only(ps, d))),
{
}

/// The triples of `data` whose predicate is one of `preds`, each once.
pub fn keep_predicates(data: &Vec<Triple>, preds: &Vec<u32>) -> (r: Vec<Triple>)
    ensures
        r@.no_duplicates(),
        r@.to_set() == only(preds@.to_set(), data@.to_set()),
{
    let mut r: Vec<Triple> = Vec::new();
    let mut i: usize = 0;
    while i < data.len()
        invariant
            i <= data@.len(),
            r@.no_duplicates(),
            r@.to_set() == only(preds@.to_set(), data@.subrange(0, i as int).to_set()),
        decreases data@.len() - i,
    {
        let t = data[i];
        let mut found = false;
        let mut k: usize = 0;
        while k < preds.len()
            invariant
                k <= preds@.len(),
                found == exists|m: int| 0 <= m < k && preds@[m] == t.1,
            decreases preds@.len() - k,
        {
            if preds[k] == t.1 {
                found = true;
            }
            k = k + 1;
        }
        assert(found == preds@.to_set().contains(t.1));
        let ghost before = r@.to_set();
        if found {
            insert(&mut r, t);
        }
        assert(r@.to_set() =~= only(preds@.to_set(), data@.subrange(0, i as int + 1).to_set())) by {
            let a = data@.subrange(0, i as int + 1);
            let b = data@.subrange(0, i as int);
            assert(a[i as int] == t);
            assert forall|x: Triple| b.contains(x) implies a.contains(x) by {
                let m = choose|m: int| 0 <= m < b.len() && b[m] == x;
                assert(a[m] == x);
            }
            assert forall|x: Triple| a.contains(x) implies b.contains(x) || x == t by {
                let m = choose|m: int| 0 <= m < a.len() && a[m] == x;
                if m < i {
                    assert(b[m] == x);
                }
            }
        }
        i = i + 1;
    }
    assert(data@.subrange(0, data@.len() as int) == data@);
    r
}

/// The closure of `data` under chaining on the predicates `preds`.
pub fn chain_closure(data: &Vec<Triple>, preds: &Vec<u32>) -> (r: Vec<Triple>)
    ensures
        r@.no_duplicates(),
        is_lfp(chain_step(preds@.to_set()), data@.to_set(), r@.to_set()),
{
    let ghost f = chain_step(preds@.to_set());
    let ghost k = data@.to_set();
    let mut cur = distinct(data);
    let ghost mut n: nat = 0;
    assert(iterate(f, k, 0) == k);
    loop
        invariant
            f == chain_step(preds@.to_set()),
            k == data@.to_set(),
            cur@.no_duplicates(),
            cur@.to_set() == iterate(f, k, n),
        ensures
            cur@.no_duplicates(),
            cur@.to_set() == iterate(f, k, n),
            f(cur@.to_set()) == cur@.to_set(),
        decreases Set::<u128>::full().len() - cur@.len(),
    {
        proof {
            lemma_unique_seq_bound(cur@);
        }
        let ghost before = cur@;
        let sel = keep_predicates(&cur, preds);
        let derived = join(Rule::Compose, &sel, &sel);
        let old_len = cur.len();
        extend(&mut cur, &derived);
        proof {
            let ps = preds@.to_set();
            assert(cur@.to_set() =~= before.to_set().union(
                join_set(Rule::Compose, only(ps, before.to_set()), only(ps, before.to_set())),
            ));
            lemma_chain_step_apply(ps, before.to_set());
            assert(iterate(f, k, n + 1) == f(iterate(f, k, n)));
            n = n + 1;
            lemma_unique_seq_bound(cur@);
        }
        if cur.len() == old_len {
            assert(cur@ =~= before);
            assert(f(cur@.to_set()) == cur@.to_set());
            break;
        }
    }
    assert(cur@.to_set() == iterate(f, k, n));
    cur
}

/// One chaining round over `data`: `data` with each `(x, p, z)` for which
/// `(x, p, y)` and `(y, p, z)` are in `data`, each once.
pub fn efficient_transitivity(data: &Vec<Triple>) -> (r: Vec<Triple>)
    ensures
        r@.no_duplicates(),
        r@.to_set() == data@.to_set().union(
            join_set(Rule::Compose, data@.to_set(), data@.to_set()),
        ),
{
    let mut r = distinct(data);
    let derived = join(Rule::Compose, data, data);
    extend(&mut r, &derived);
    r
}

/// The triples that `owl:inverseOf` declarations of `data` give from the
/// statements of `data`, in both directions.
pub fn inverseof_rule(data: &Vec<Triple>) -> (r: Vec<Triple>)
    ensures
        r@.no_duplicates(),
        r@.to_set() == join_set(Rule::InverseForward, data@.to_set(), data@.to_set()).union(
            join_set(Rule::InverseBackward, data@.to_set(), data@.to_set()),
        ),
{
    let mut r = join(Rule::InverseForward, data, data);
    let backward = join(Rule::InverseBackward, data, data);
    extend(&mut r, &backward);
    r
}

/// The statements of `data` on its transitive properties, closed under
/// chaining on those properties.
pub fn trans_property_rule(data: &Vec<Triple>) -> (r: Vec<Triple>)
    ensures
        r@.no_duplicates(),
        is_lfp(
            chain_step(transitive_properties(data@.to_set())),
            join_set(Rule::TransitiveOnly, data@.to_set(), data@.to_set()),
            r@.to_set(),
        ),
{
    let mut props: Vec<u32> = Vec::new();
    let mut i: usize = 0;
    while i < data.len()
        invariant
            i <= data@.len(),
            forall|p: u32|
                props@.contains(p) <==> exists|m: int|
                    0 <= m < i && #[trigger] data@[m] == (p, TYPE, TRANSITIVE_PROPERTY),
        decreases data@.len() - i,
    {
        let t = data[i];
        let ghost before = props@;
        if t.1 == TYPE && t.2 == TRANSITIVE_PROPERTY {
            props.push(t.0);
        }
        assert forall|p: u32|
            props@.contains(p) <==> exists|m: int|
                0 <= m < i + 1 && #[trigger] data@[m] == (p, TYPE, TRANSITIVE_PROPERTY) by {
            if props@.contains(p) {
                let j = choose|j: int| 0 <= j < props@.len() && props@[j] == p;
                if j < before.len() {
                    assert(before.contains(p));
                } else {
                    assert(data@[i as int] == (p, TYPE, TRANSITIVE_PROPERTY));
                }
            }
            if exists|m: int| 0 <= m < i + 1 && #[trigger] data@[m] == (p, TYPE, TRANSITIVE_PROPERTY) {
                let m = choose|m: int| 0 <= m < i + 1 && #[trigger] data@[m] == (p, TYPE, TRANSITIVE_PROPERTY);
                if m < i {
                    assert(before.contains(p));
                    let j = choose|j: int| 0 <= j < before.len() && before[j] == p;
                    assert(props@[j] == p);
                } else {
                    assert(props@[props@.len() - 1] == p);
                }
            }
        }
        i = i + 1;
    }
    assert(props@.to_set() =~= transitive_properties(data@.to_set())) by {
        assert forall|p: u32| transitive_properties(data@.to_set()).contains(p) implies props@.to_set().contains(p) by {
            let m = choose|m: int| 0 <= m < data@.len() && data@[m] == (p, TYPE, TRANSITIVE_PROPERTY);
        }
    }
    let selected = join(Rule::TransitiveOnly, data, data);
    chain_closure(&selected, &props)
}

/// One round of the schema rules: `subPropertyOf` chains, `subClassOf`
/// chains across both of its encodings into the encoding `SUB_CLASS_OF`,
/// and each `subClassOf` statement in the other encoding is restated in
/// that one.
pub open spec fn tbox_step() -> spec_fn(Set<Triple>) -> Set<Triple> {
    |t: Set<Triple>|
        t.union(join_set(Rule::Compose, only(set![SUB_PROPERTY_OF], t), only(set![SUB_PROPERTY_OF], t))).union(
            join_set(Rule::ChainClass, t, t),
        ).union(apply_set(Lift::Rename(SUB_CLASS_OF_INTERNED, SUB_CLASS_OF), t))
}

/// What one round of the schema rules gives.
pub proof fn lemma_tbox_step_apply(t: Set<Triple>)
    ensures
        tbox_step()(t) == t.union(join_set(Rule::Compose, only(set![SUB_PROPERTY_OF], t), only(set![SUB_PROPERTY_OF], t))).union(
            join_set(Rule::ChainClass, t, t),
        ).union(apply_set(Lift::Rename(SUB_CLASS_OF_INTERNED, SUB_CLASS_OF), t)),
{
}

/// The schema rules keep every triple and grow with their input.
pub proof fn lemma_tbox_step()
    ensures
        is_rule_step(tbox_step()),
{
    let f = tbox_step();
    let ps = set![SUB_PROPERTY_OF];
    assert forall|a: Set<Triple>, b: Set<Triple>| a.subset_of(b) implies #[trigger] f(a).subset_of(#[trigger] f(b)) by {
        lemma_join_monotone(Rule::Compose, only(ps, a), only(ps, a), only(ps, b), only(ps, b));
        lemma_join_monotone(Rule::ChainClass, a, a, b, b);
        lemma_apply_monotone(Lift::Rename(SUB_CLASS_OF_INTERNED, SUB_CLASS_OF), a, b);
    }
}

/// What one round of the schema rules adds to `t`, each triple once.
fn tbox_round(t: &Vec<Triple>) -> (r: Vec<Triple>)
    ensures
        r@.no_duplicates(),
        r@.to_set() == join_set(Rule::Compose, only(set![SUB_PROPERTY_OF], t@.to_set()), only(set![SUB_PROPERTY_OF], t@.to_set())).union(
            join_set(Rule::ChainClass, t@.to_set(), t@.to_set()),
        ).union(apply_set(Lift::Rename(SUB_CLASS_OF_INTERNED, SUB_CLASS_OF), t@.to_set())),
{
    let preds: Vec<u32> = vec![SUB_PROPERTY_OF];
    assert(preds@.to_set() =~= set![SUB_PROPERTY_OF]) by {
        assert(preds@[0] == SUB_PROPERTY_OF);
    }
    let spo = keep_predicates(t, &preds);
    let mut r = join(Rule::Compose, &spo, &spo);
    let classes = join(Rule::ChainClass, t, t);
    extend(&mut r, &classes);
    let restated = apply(Lift::Rename(SUB_CLASS_OF_INTERNED, SUB_CLASS_OF), t);
    extend(&mut r, &restated);
    r
}

/// Closes the schema `tbox` under the schema rules.
pub fn tbox_closure(tbox: &Vec<Triple>) -> (r: Vec<Triple>)
    ensures
        r@.no_duplicates(),
        is_lfp(tbox_step(), tbox@.to_set(), r@.to_set()),
{
    let ghost f = tbox_step();
    let ghost k = tbox@.to_set();
    let mut cur = distinct(tbox);
    let ghost mut n: nat = 0;
    assert(iterate(f, k, 0) == k);
    loop
        invariant
            f == tbox_step(),
            k == tbox@.to_set(),
            cur@.no_duplicates(),
            cur@.to_set() == iterate(f, k, n),
        ensures
            cur@.no_duplicates(),
            cur@.to_set() == iterate(f, k, n),
            f(cur@.to_set()) == cur@.to_set(),
        decreases Set::<u128>::full().len() - cur@.len(),
    {
        proof {
            lemma_unique_seq_bound(cur@);
        }
        let ghost before = cur@;
        let derived = tbox_round(&cur);
        let old_len = cur.len();
        extend(&mut cur, &derived);
        proof {
            lemma_tbox_step_apply(before.to_set());
            assert(cur@.to_set() =~= f(before.to_set()));
            assert(iterate(f, k, n + 1) == f(iterate(f, k, n)));
            n = n + 1;
            lemma_unique_seq_bound(cur@);
        }
        if cur.len() == old_len {
            assert(cur@ =~= before);
            break;
        }
    }
    assert(cur@.to_set() == iterate(f, k, n));
    cur
}

/// The closure of the `subClassOf` statements of `data`, in either
/// encoding, under the schema rules.
pub fn rule_11(data: &Vec<Triple>) -> (r: Vec<Triple>)
    ensures
        r@.no_duplicates(),
        is_lfp(tbox_step(), only(set![SUB_CLASS_OF, SUB_CLASS_OF_INTERNED], data@.to_set()), r@.to_set()),
{
    let preds: Vec<u32> = vec![SUB_CLASS_OF, SUB_CLASS_OF_INTERNED];
    assert(preds@.to_set() =~= set![SUB_CLASS_OF, SUB_CLASS_OF_INTERNED]) by {
        assert(preds@[0] == SUB_CLASS_OF);
        assert(preds@[1] == SUB_CLASS_OF_INTERNED);
    }
    let selected = keep_predicates(data, &preds);
    tbox_closure(&selected)
}

/// The closure of the `subPropertyOf` statements of `data` under chaining.
pub fn rule_5(data: &Vec<Triple>) -> (r: Vec<Triple>)
    ensures
        r@.no_duplicates(),
        is_lfp(
            chain_step(set![SUB_PROPERTY_OF]),
            only(set![SUB_PROPERTY_OF], data@.to_set()),
            r@.to_set(),
        ),
{
    let preds: Vec<u32> = vec![SUB_PROPERTY_OF];
    assert(preds@.to_set() =~= set![SUB_PROPERTY_OF]) by {
        assert(preds@[0] == SUB_PROPERTY_OF);
    }
    let selected = keep_predicates(data, &preds);
    chain_closure(&selected, &preds)
}

} // verus!
