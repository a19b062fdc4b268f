use vstd::prelude::*;

use crate::rules::{apply, apply_set, join, join_set, Lift, Rule};
use crate::triple_set::{intersect, Triple};

verus! {

/// The statements of `d` on the property `p`.
pub open spec fn statements_of(d: Set<Triple>, p: u32) -> Set<Triple> {
    apply_set(Lift::Rename(p, p), d)
}

/// `prp-dom`: `(x, p, y)` gives `(x, type, c)` for `(p, domain, c)`.
pub fn prp_dom(data: &Vec<Triple>, p: u32, c: u32) -> (r: Vec<Triple>)
    ensures
        r@.to_set() == apply_set(Lift::SubjectType(p, c), data@.to_set()),
{
    apply(Lift::SubjectType(p, c), data)
}

/// `prp-rng`: `(x, p, y)` gives `(y, type, c)` for `(p, range, c)`.
pub fn prp_rng(data: &Vec<Triple>, p: u32, c: u32) -> (r: Vec<Triple>)
    ensures
        r@.to_set() == apply_set(Lift::ObjectType(p, c), data@.to_set()),
{
    apply(Lift::ObjectType(p, c), data)
}

/// `prp-fp`: for a functional `p`, `(x, p, y1)`, `(x, p, y2)` gives
/// `(y1, sameAs, y2)`.
pub fn prp_fp(data: &Vec<Triple>, p: u32) -> (r: Vec<Triple>)
    ensures
        r@.to_set() == join_set(Rule::SameSubject, statements_of(data@.to_set(), p), statements_of(data@.to_set(), p)),
{
    let on_p = apply(Lift::Rename(p, p), data);
    join(Rule::SameSubject, &on_p, &on_p)
}

/// `prp-ifp`: for an inverse functional `p`, `(x1, p, y)`, `(x2, p, y)` gives
/// `(x1, sameAs, x2)`.
pub fn prp_ifp(data: &Vec<Triple>, p: u32) -> (r: Vec<Triple>)
    ensures
        r@.to_set() == join_set(Rule::SameObject, statements_of(data@.to_set(), p), statements_of(data@.to_set(), p)),
{
    let on_p = apply(Lift::Rename(p, p), data);
    join(Rule::SameObject, &on_p, &on_p)
}

/// `prp-symp`: for a symmetric `p`, `(x, p, y)` gives `(y, p, x)`.
pub fn prp_symp(data: &Vec<Triple>, p: u32) -> (r: Vec<Triple>)
    ensures
        r@.to_set() == apply_set(Lift::Swap(p, p), data@.to_set()),
{
    apply(Lift::Swap(p, p), data)
}

/// `prp-trp`: for a transitive `p`, `(x, p, y)`, `(y, p, z)` gives
/// `(x, p, z)`.
pub fn prp_trp(data: &Vec<Triple>, p: u32) -> (r: Vec<Triple>)
    ensures
        r@.to_set() == join_set(Rule::Compose, statements_of(data@.to_set(), p), statements_of(data@.to_set(), p)),
{
    let on_p = apply(Lift::Rename(p, p), data);
    join(Rule::Compose, &on_p, &on_p)
}

/// `prp-spo1`: `(x, p1, y)` gives `(x, p2, y)` for `(p1, subPropertyOf, p2)`.
pub fn prp_spo1(data: &Vec<Triple>, p1: u32, p2: u32) -> (r: Vec<Triple>)
    ensures
        r@.to_set() == apply_set(Lift::Rename(p1, p2), data@.to_set()),
{
    apply(Lift::Rename(p1, p2), data)
}

/// The pairs `(u0, un)` joined by a path `(u0, c[0], u1)`, ...,
/// `(u(n-1), c[n-1], un)` of `d`, as `(u0, p, un)`.
pub open spec fn chain_set(d: Set<Triple>, chain: Seq<u32>, p: u32) -> Set<Triple>
    decreases chain.len(),
{
    if chain.len() == 0 {
        Set::empty()
    } else if chain.len() == 1 {
        apply_set(Lift::Rename(chain[0], p), d)
    } else {
        join_set(Rule::Extend(p, chain.last()), chain_set(d, chain.drop_last(), p), d)
    }
}

/// `prp-spo2`: a path along the property chain `chain` gives a `p`
/// statement between its ends.
pub fn prp_spo2(data: &Vec<Triple>, chain: &Vec<u32>, p: u32) -> (r: Vec<Triple>)
    ensures
        r@.to_set() == chain_set(data@.to_set(), chain@, p),
{
    if chain.len() == 0 {
        let r: Vec<Triple> = Vec::new();
        assert(r@.to_set() =~= Set::empty());
        return r;
    }
    let mut cur = apply(Lift::Rename(chain[0], p), data);
    let mut k: usize = 1;
    assert(chain@.subrange(0, 1).len() == 1);
    assert(chain@.subrange(0, 1)[0] == chain@[0]);
    while k < chain.len()
        invariant
            1 <= k <= chain@.len(),
            cur@.to_set() == chain_set(data@.to_set(), chain@.subrange(0, k as int), p),
        decreases chain@.len() - k,
    {
        let next = join(Rule::Extend(p, chain[k]), &cur, data);
        assert(chain@.subrange(0, k as int + 1).drop_last() == chain@.subrange(0, k as int));
        assert(chain@.subrange(0, k as int + 1).last() == chain@[k as int]);
        cur = next;
        k = k + 1;
    }
    assert(chain@.subrange(0, chain@.len() as int) == chain@);
    cur
}

/// `prp-inv1`: `(x, p1, y)` gives `(y, p2, x)` for `(p1, inverseOf, p2)`.
pub fn prp_inv1(data: &Vec<Triple>, p1: u32, p2: u32) -> (r: Vec<Triple>)
    ensures
        r@.to_set() == apply_set(Lift::Swap(p1, p2), data@.to_set()),
{
    apply(Lift::Swap(p1, p2), data)
}

/// `prp-inv2`: `(x, p2, y)` gives `(y, p1, x)` for `(p1, inverseOf, p2)`.
pub fn prp_inv2(data: &Vec<Triple>, p1: u32, p2: u32) -> (r: Vec<Triple>)
    ensures
        r@.to_set() == apply_set(Lift::Swap(p2, p1), data@.to_set()),
{
    apply(Lift::Swap(p2, p1), data)
}

/// The `p` statements of `d` whose subject is of class `c`.
pub open spec fn keyed_statements(d: Set<Triple>, c: u32, p: u32) -> Set<Triple> {
    join_set(Rule::SubjectTyped(c), statements_of(d, p), d)
}

/// The pairs `x < y` of members of the class `c` that share a value on
/// each property of `keys`, as `(x, sameAs, y)`. An empty key relates
/// nothing.
pub open spec fn key_set(d: Set<Triple>, c: u32, keys: Seq<u32>) -> Set<Triple>
    decreases keys.len(),
{
    if keys.len() == 0 {
        Set::empty()
    } else if keys.len() == 1 {
        join_set(Rule::SharedValue, keyed_statements(d, c, keys[0]), keyed_statements(d, c, keys[0]))
    } else {
        key_set(d, c, keys.drop_last()).intersect(
            join_set(Rule::SharedValue, statements_of(d, keys.last()), statements_of(d, keys.last())),
        )
    }
}

/// `prp-key`: two members `x < y` of the class `c` with the same value on
/// every key property give `(x, sameAs, y)`.
pub fn prp_key(data: &Vec<Triple>, c: u32, keys: &Vec<u32>) -> (r: Vec<Triple>)
    ensures
        r@.to_set() == key_set(data@.to_set(), c, keys@),
{
    if keys.len() == 0 {
        let r: Vec<Triple> = Vec::new();
        assert(r@.to_set() =~= Set::empty());
        return r;
    }
    let on_p = apply(Lift::Rename(keys[0], keys[0]), data);
    let keyed = join(Rule::SubjectTyped(c), &on_p, data);
    let mut cur = join(Rule::SharedValue, &keyed, &keyed);
    let mut k: usize = 1;
    assert(keys@.subrange(0, 1).len() == 1);
    assert(keys@.subrange(0, 1)[0] == keys@[0]);
    while k < keys.len()
        invariant
            1 <= k <= keys@.len(),
            cur@.to_set() == key_set(data@.to_set(), c, keys@.subrange(0, k as int)),
        decreases keys@.len() - k,
    {
        let on_k = apply(Lift::Rename(keys[k], keys[k]), data);
        let shared = join(Rule::SharedValue, &on_k, &on_k);
        let next = intersect(&cur, &shared);
        assert(keys@.subrange(0, k as int + 1).drop_last() == keys@.subrange(0, k as int));
        assert(keys@.subrange(0, k as int + 1).last() == keys@[k as int]);
        cur = next;
        k = k + 1;
    }
    assert(keys@.subrange(0, keys@.len() as int) == keys@);
    cur
}

} // verus!
