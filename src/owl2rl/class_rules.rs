use vstd::prelude::*;

use crate::constants::TYPE;
use crate::owl2rl::property_rules::statements_of;
use crate::rules::{apply, apply_set, join, join_set, Lift, Rule};
use crate::triple_set::{extend, insert, Triple};

verus! {

/// The members of every class of `classes` (at least one), as members of
/// `c`.
pub open spec fn intersection_set(d: Set<Triple>, classes: Seq<u32>, c: u32) -> Set<Triple>
    decreases classes.len(),
{
    if classes.len() == 0 {
        Set::empty()
    } else if classes.len() == 1 {
        apply_set(Lift::Retype(classes[0], c), d)
    } else {
        join_set(Rule::AlsoTyped(c, classes.last()), intersection_set(d, classes.drop_last(), c), d)
    }
}

/// `cls-int1`: a member of each class of `classes` is a member of their
/// intersection `c`.
pub fn cls_int1(data: &Vec<Triple>, classes: &Vec<u32>, c: u32) -> (r: Vec<Triple>)
    ensures
        r@.to_set() == intersection_set(data@.to_set(), classes@, c),
{
    if classes.len() == 0 {
        let r: Vec<Triple> = Vec::new();
        assert(r@.to_set() =~= Set::empty());
        return r;
    }
    let mut cur = apply(Lift::Retype(classes[0], c), data);
    let mut k: usize = 1;
    assert(classes@.subrange(0, 1).len() == 1);
    assert(classes@.subrange(0, 1)[0] == classes@[0]);
    while k < classes.len()
        invariant
            1 <= k <= classes@.len(),
            cur@.to_set() == intersection_set(data@.to_set(), classes@.subrange(0, k as int), c),
        decreases classes@.len() - k,
    {
        let next = join(Rule::AlsoTyped(c, classes[k]), &cur, data);
        assert(classes@.subrange(0, k as int + 1).drop_last() == classes@.subrange(0, k as int));
        assert(classes@.subrange(0, k as int + 1).last() == classes@[k as int]);
        cur = next;
        k = k + 1;
    }
    assert(classes@.subrange(0, classes@.len() as int) == classes@);
    cur
}

/// The members of `c`, as members of each class of `classes`.
pub open spec fn members_to_each(d: Set<Triple>, c: u32, classes: Seq<u32>) -> Set<Triple>
    decreases classes.len(),
{
    if classes.len() == 0 {
        Set::empty()
    } else {
        members_to_each(d, c, classes.drop_last()).union(apply_set(Lift::Retype(c, classes.last()), d))
    }
}

/// `cls-int2`: a member of the intersection `c` is a member of each class of
/// `classes`.
pub fn cls_int2(data: &Vec<Triple>, classes: &Vec<u32>, c: u32) -> (r: Vec<Triple>)
    ensures
        r@.no_duplicates(),
        r@.to_set() == members_to_each(data@.to_set(), c, classes@),
{
    let mut out: Vec<Triple> = Vec::new();
    let mut k: usize = 0;
    assert(out@.to_set() =~= members_to_each(data@.to_set(), c, classes@.subrange(0, 0)));
    while k < classes.len()
        invariant
            k <= classes@.len(),
            out@.no_duplicates(),
            out@.to_set() == members_to_each(data@.to_set(), c, classes@.subrange(0, k as int)),
        decreases classes@.len() - k,
    {
        let more = apply(Lift::Retype(c, classes[k]), data);
        extend(&mut out, &more);
        assert(classes@.subrange(0, k as int + 1).drop_last() == classes@.subrange(0, k as int));
        assert(classes@.subrange(0, k as int + 1).last() == classes@[k as int]);
        k = k + 1;
    }
    assert(classes@.subrange(0, classes@.len() as int) == classes@);
    out
}

/// The members of each class of `classes`, as members of `c`.
pub open spec fn members_from_each(d: Set<Triple>, classes: Seq<u32>, c: u32) -> Set<Triple>
    decreases classes.len(),
{
    if classes.len() == 0 {
        Set::empty()
    } else {
        members_from_each(d, classes.drop_last(), c).union(apply_set(Lift::Retype(classes.last(), c), d))
    }
}

/// `cls-uni`: a member of any class of `classes` is a member of their union
/// `c`.
pub fn cls_uni(data: &Vec<Triple>, classes: &Vec<u32>, c: u32) -> (r: Vec<Triple>)
    ensures
        r@.no_duplicates(),
        r@.to_set() == members_from_each(data@.to_set(), classes@, c),
{
    let mut out: Vec<Triple> = Vec::new();
    let mut k: usize = 0;
    assert(out@.to_set() =~= members_from_each(data@.to_set(), classes@.subrange(0, 0), c));
    while k < classes.len()
        invariant
            k <= classes@.len(),
            out@.no_duplicates(),
            out@.to_set() == members_from_each(data@.to_set(), classes@.subrange(0, k as int), c),
        decreases classes@.len() - k,
    {
        let more = apply(Lift::Retype(classes[k], c), data);
        extend(&mut out, &more);
        assert(classes@.subrange(0, k as int + 1).drop_last() == classes@.subrange(0, k as int));
        assert(classes@.subrange(0, k as int + 1).last() == classes@[k as int]);
        k = k + 1;
    }
    assert(classes@.subrange(0, classes@.len() as int) == classes@);
    out
}

/// `cls-svf1`: for `x = someValuesFrom y on p`, `(u, p, v)`, `(v, type, y)`
/// gives `(u, type, x)`.
pub fn cls_svf1(data: &Vec<Triple>, x: u32, p: u32, y: u32) -> (r: Vec<Triple>)
    ensures
        r@.to_set() == join_set(Rule::SomeValues(p, y, x), data@.to_set(), data@.to_set()),
{
    join(Rule::SomeValues(p, y, x), data, data)
}

/// `cls-svf2`: for `x = someValuesFrom owl:Thing on p`, `(u, p, v)` gives
/// `(u, type, x)`.
pub fn cls_svf2(data: &Vec<Triple>, x: u32, p: u32) -> (r: Vec<Triple>)
    ensures
        r@.to_set() == apply_set(Lift::SubjectType(p, x), data@.to_set()),
{
    apply(Lift::SubjectType(p, x), data)
}

/// `cls-avf`: for `x = allValuesFrom y on p`, `(u, type, x)`, `(u, p, v)`
/// gives `(v, type, y)`.
pub fn cls_avf(data: &Vec<Triple>, x: u32, p: u32, y: u32) -> (r: Vec<Triple>)
    ensures
        r@.to_set() == join_set(Rule::AllValues(x, p, y), data@.to_set(), data@.to_set()),
{
    join(Rule::AllValues(x, p, y), data, data)
}

/// `cls-hv1`: for `x = hasValue y on p`, `(u, type, x)` gives `(u, p, y)`.
pub fn cls_hv1(data: &Vec<Triple>, x: u32, p: u32, y: u32) -> (r: Vec<Triple>)
    ensures
        r@.to_set() == apply_set(Lift::TypeToValue(x, p, y), data@.to_set()),
{
    apply(Lift::TypeToValue(x, p, y), data)
}

/// The subjects of the `p` statements of `d` whose value is one of
/// `values`, as members of `x`.
pub open spec fn has_value_set(d: Set<Triple>, x: u32, p: u32, values: Seq<u32>) -> Set<Triple> {
    Set::new(|z: Triple| exists|i: int| 0 <= i < values.len() && #[trigger] apply_set(Lift::ValueToType(p, values[i], x), d).contains(z))
}

/// `cls-hv2`: for `x = hasValue y on p` with `y` one of `values`,
/// `(u, p, y)` gives `(u, type, x)`.
pub fn cls_hv2(data: &Vec<Triple>, x: u32, p: u32, values: &Vec<u32>) -> (r: Vec<Triple>)
    ensures
        r@.no_duplicates(),
        r@.to_set() == has_value_set(data@.to_set(), x, p, values@),
{
    let ghost d = data@.to_set();
    let mut out: Vec<Triple> = Vec::new();
    let mut k: usize = 0;
    assert(out@.to_set() =~= has_value_set(d, x, p, values@.subrange(0, 0)));
    while k < values.len()
        invariant
            k <= values@.len(),
            d == data@.to_set(),
            out@.no_duplicates(),
            out@.to_set() == has_value_set(d, x, p, values@.subrange(0, k as int)),
        decreases values@.len() - k,
    {
        let more = apply(Lift::ValueToType(p, values[k], x), data);
        extend(&mut out, &more);
        let ghost a = values@.subrange(0, k as int + 1);
        let ghost b = values@.subrange(0, k as int);
        assert(out@.to_set() =~= has_value_set(d, x, p, a)) by {
            assert forall|z: Triple| has_value_set(d, x, p, a).contains(z) implies out@.to_set().contains(z) by {
                let i = choose|i: int| 0 <= i < a.len() && #[trigger] apply_set(Lift::ValueToType(p, a[i], x), d).contains(z);
                if i < k {
                    assert(apply_set(Lift::ValueToType(p, b[i], x), d).contains(z));
                }
            }
            assert forall|z: Triple| out@.to_set().contains(z) implies has_value_set(d, x, p, a).contains(z) by {
                if has_value_set(d, x, p, b).contains(z) {
                    let i = choose|i: int| 0 <= i < b.len() && #[trigger] apply_set(Lift::ValueToType(p, b[i], x), d).contains(z);
                    assert(apply_set(Lift::ValueToType(p, a[i], x), d).contains(z));
                } else {
                    assert(apply_set(Lift::ValueToType(p, a[k as int], x), d).contains(z));
                }
            }
        }
        k = k + 1;
    }
    assert(values@.subrange(0, values@.len() as int) == values@);
    out
}

/// The `p` statements of `d` whose subject is of class `x`.
pub open spec fn restricted_statements(d: Set<Triple>, x: u32, p: u32) -> Set<Triple> {
    join_set(Rule::SubjectTyped(x), statements_of(d, p), d)
}

/// `cls-maxc2`: for `x = maxCardinality 1 on p`, two values `y1 < y2` of
/// `p` on a member of `x` give `(y1, sameAs, y2)`.
pub fn cls_maxc2(data: &Vec<Triple>, x: u32, p: u32) -> (r: Vec<Triple>)
    ensures
        r@.to_set() == join_set(Rule::OrderedValues, restricted_statements(data@.to_set(), x, p), restricted_statements(data@.to_set(), x, p)),
{
    let on_p = apply(Lift::Rename(p, p), data);
    let restricted = join(Rule::SubjectTyped(x), &on_p, data);
    join(Rule::OrderedValues, &restricted, &restricted)
}

/// The `p` statements of `d` from a member of `x` to a member of `c`.
pub open spec fn qualified_statements(d: Set<Triple>, x: u32, p: u32, c: u32) -> Set<Triple> {
    join_set(Rule::ObjectTyped(c), restricted_statements(d, x, p), d)
}

/// `cls-maxqc3`: for `x = maxQualifiedCardinality 1 on p of class c`, two
/// values `y1 < y2` of `p` in `c` on a member of `x` give
/// `(y1, sameAs, y2)`.
pub fn cls_maxqc3(data: &Vec<Triple>, x: u32, p: u32, c: u32) -> (r: Vec<Triple>)
    ensures
        r@.to_set() == join_set(Rule::OrderedValues, qualified_statements(data@.to_set(), x, p, c), qualified_statements(data@.to_set(), x, p, c)),
{
    let on_p = apply(Lift::Rename(p, p), data);
    let restricted = join(Rule::SubjectTyped(x), &on_p, data);
    let qualified = join(Rule::ObjectTyped(c), &restricted, data);
    join(Rule::OrderedValues, &qualified, &qualified)
}

/// `cls-oo`: each individual of `members` is a member of `c`.
pub fn cls_oo(members: &Vec<u32>, c: u32) -> (r: Vec<Triple>)
    ensures
        r@.no_duplicates(),
        forall|t: Triple| #[trigger] r@.contains(t) <==> t.1 == TYPE && t.2 == c && members@.contains(t.0),
{
    let mut out: Vec<Triple> = Vec::new();
    let mut k: usize = 0;
    while k < members.len()
        invariant
            k <= members@.len(),
            out@.no_duplicates(),
            forall|t: Triple| #[trigger] out@.contains(t) <==> t.1 == TYPE && t.2 == c && members@.subrange(0, k as int).contains(t.0),
        decreases members@.len() - k,
    {
        let ghost before = out@;
        insert(&mut out, (members[k], TYPE, c));
        assert forall|t: Triple| #[trigger] out@.contains(t) <==> t.1 == TYPE && t.2 == c && members@.subrange(0, k as int + 1).contains(t.0) by {
            let a = members@.subrange(0, k as int + 1);
            let b = members@.subrange(0, k as int);
            assert(out@.to_set().contains(t) == out@.contains(t));
            assert(before.to_set().contains(t) == before.contains(t));
            assert(a[k as int] == members@[k as int]);
            assert(out@.contains(t) == (before.contains(t) || t == (members@[k as int], TYPE, c)));
            if b.contains(t.0) {
                let m = choose|m: int| 0 <= m < b.len() && b[m] == t.0;
                assert(a[m] == t.0);
            }
            if a.contains(t.0) {
                let m = choose|m: int| 0 <= m < a.len() && a[m] == t.0;
                if m < k {
                    assert(b[m] == t.0);
                }
            }
        }
        k = k + 1;
    }
    assert(members@.subrange(0, members@.len() as int) == members@);
    out
}

} // verus!
