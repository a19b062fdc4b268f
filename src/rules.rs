use vstd::prelude::*;

use crate::constants::{
    is_sco, sco_predicate, DOMAIN, SUB_CLASS_OF, INVERSE_OF, RANGE, SAME_AS, SUB_PROPERTY_OF, TRANSITIVE_PROPERTY,
    TYPE,
};
use crate::triple_set::{insert, Triple};

verus! {

/// A rule with two premises: a triple of the left relation and a triple of the
/// right relation that together yield one conclusion.
#[derive(Clone, Copy)]
pub enum Rule {
    /// `(x, type, c)`, `(c, subClassOf, d)` gives `(x, type, d)`.
    ClassMembership,
    /// `(x, p, y)`, `(p, subPropertyOf, q)` gives `(x, q, y)`.
    SubProperty,
    /// `(x, p, y)`, `(p, domain, c)` gives `(x, type, c)`.
    Domain,
    /// `(x, p, y)`, `(p, range, c)` gives `(y, type, c)`.
    Range,
    /// `(x, p, y)`, `(p, inverseOf, q)` gives `(y, q, x)`.
    InverseForward,
    /// `(x, q, y)`, `(p, inverseOf, q)` gives `(y, p, x)`.
    InverseBackward,
    /// `(x, p, y)`, `(p, type, TransitiveProperty)` keeps `(x, p, y)`.
    TransitiveOnly,
    /// `(x, p, y)`, `(y, p, z)` gives `(x, p, z)`.
    Compose,
    /// `(x, p, y1)`, `(x, p, y2)` gives `(y1, sameAs, y2)`.
    SameSubject,
    /// `(x1, p, y)`, `(x2, p, y)` gives `(x1, sameAs, x2)`.
    SameObject,
    /// `(u, p, v)`, `(v, type, c)` gives `(u, type, x)`: the rule of
    /// `x = someValuesFrom c on p`, given as `(p, c, x)`.
    SomeValues(u32, u32, u32),
    /// `(u, type, x)`, `(u, p, v)` gives `(v, type, c)`: the rule of
    /// `x = allValuesFrom c on p`, given as `(x, p, c)`.
    AllValues(u32, u32, u32),
    /// `l`, `(l.0, type, c)` keeps `l`: the subject of `l` is of class `c`.
    SubjectTyped(u32),
    /// `l`, `(l.2, type, c)` keeps `l`: the object of `l` is of class `c`.
    ObjectTyped(u32),
    /// `(x, p, z)`, `(y, p, z)` with `x < y` gives `(x, sameAs, y)`.
    SharedValue,
    /// `(u, p, y1)`, `(u, p, y2)` with `y1 < y2` gives `(y1, sameAs, y2)`.
    OrderedValues,
    /// `(u, t, v)`, `(v, q, w)` gives `(u, t, w)`: one more link of a chain
    /// of `q`, where `t` marks the chain.
    Extend(u32, u32),
    /// `(y, type, c)`, `(y, type, d)` keeps `(y, type, c)`.
    AlsoTyped(u32, u32),
    /// `(a, subClassOf, b)`, `(b, subClassOf, c)`, in either encoding, gives
    /// `(a, subClassOf, c)` in the encoding `SUB_CLASS_OF`.
    ChainClass,
}

/// What `rule` concludes from the left premise `l` and the right premise `r`.
pub open spec fn fire(rule: Rule, l: Triple, r: Triple) -> Option<Triple> {
    match rule {
        Rule::ClassMembership => if l.1 == TYPE && r.0 == l.2 && is_sco(r.1) {
            Some((l.0, TYPE, r.2))
        } else {
            None
        },
        Rule::SubProperty => if r.0 == l.1 && r.1 == SUB_PROPERTY_OF {
            Some((l.0, r.2, l.2))
        } else {
            None
        },
        Rule::Domain => if r.0 == l.1 && r.1 == DOMAIN {
            Some((l.0, TYPE, r.2))
        } else {
            None
        },
        Rule::Range => if r.0 == l.1 && r.1 == RANGE {
            Some((l.2, TYPE, r.2))
        } else {
            None
        },
        Rule::InverseForward => if r.0 == l.1 && r.1 == INVERSE_OF {
            Some((l.2, r.2, l.0))
        } else {
            None
        },
        Rule::InverseBackward => if r.2 == l.1 && r.1 == INVERSE_OF {
            Some((l.2, r.0, l.0))
        } else {
            None
        },
        Rule::TransitiveOnly => if r.0 == l.1 && r.1 == TYPE && r.2 == TRANSITIVE_PROPERTY {
            Some(l)
        } else {
            None
        },
        Rule::Compose => if l.1 == r.1 && l.2 == r.0 {
            Some((l.0, l.1, r.2))
        } else {
            None
        },
        Rule::SameSubject => if l.1 == r.1 && l.0 == r.0 {
            Some((l.2, SAME_AS, r.2))
        } else {
            None
        },
        Rule::SameObject => if l.1 == r.1 && l.2 == r.2 {
            Some((l.0, SAME_AS, r.0))
        } else {
            None
        },
        Rule::SomeValues(p, c, x) => if l.1 == p && r.0 == l.2 && r.1 == TYPE && r.2 == c {
            Some((l.0, TYPE, x))
        } else {
            None
        },
        Rule::AllValues(x, p, c) => if l.1 == TYPE && l.2 == x && r.0 == l.0 && r.1 == p {
            Some((r.2, TYPE, c))
        } else {
            None
        },
        Rule::SubjectTyped(c) => if r.0 == l.0 && r.1 == TYPE && r.2 == c {
            Some(l)
        } else {
            None
        },
        Rule::ObjectTyped(c) => if r.0 == l.2 && r.1 == TYPE && r.2 == c {
            Some(l)
        } else {
            None
        },
        Rule::SharedValue => if l.1 == r.1 && l.2 == r.2 && l.0 < r.0 {
            Some((l.0, SAME_AS, r.0))
        } else {
            None
        },
        Rule::OrderedValues => if l.1 == r.1 && l.0 == r.0 && l.2 < r.2 {
            Some((l.2, SAME_AS, r.2))
        } else {
            None
        },
        Rule::Extend(t, q) => if l.1 == t && r.0 == l.2 && r.1 == q {
            Some((l.0, t, r.2))
        } else {
            None
        },
        Rule::AlsoTyped(c, d) => if l.1 == TYPE && l.2 == c && r.0 == l.0 && r.1 == TYPE && r.2 == d {
            Some(l)
        } else {
            None
        },
        Rule::ChainClass => if is_sco(l.1) && is_sco(r.1) && l.2 == r.0 {
            Some((l.0, SUB_CLASS_OF, r.2))
        } else {
            None
        },
    }
}

/// Executable form of [`fire`].
pub fn fire_rule(rule: Rule, l: Triple, r: Triple) -> (c: Option<Triple>)
    ensures
        c == fire(rule, l, r),
{
    match rule {
        Rule::ClassMembership => if l.1 == TYPE && r.0 == l.2 && sco_predicate(r.1) {
            Some((l.0, TYPE, r.2))
        } else {
            None
        },
        Rule::SubProperty => if r.0 == l.1 && r.1 == SUB_PROPERTY_OF {
            Some((l.0, r.2, l.2))
        } else {
            None
        },
        Rule::Domain => if r.0 == l.1 && r.1 == DOMAIN {
            Some((l.0, TYPE, r.2))
        } else {
            None
        },
        Rule::Range => if r.0 == l.1 && r.1 == RANGE {
            Some((l.2, TYPE, r.2))
        } else {
            None
        },
        Rule::InverseForward => if r.0 == l.1 && r.1 == INVERSE_OF {
            Some((l.2, r.2, l.0))
        } else {
            None
        },
        Rule::InverseBackward => if r.2 == l.1 && r.1 == INVERSE_OF {
            Some((l.2, r.0, l.0))
        } else {
            None
        },
        Rule::TransitiveOnly => if r.0 == l.1 && r.1 == TYPE && r.2 == TRANSITIVE_PROPERTY {
            Some(l)
        } else {
            None
        },
        Rule::Compose => if l.1 == r.1 && l.2 == r.0 {
            Some((l.0, l.1, r.2))
        } else {
            None
        },
        Rule::SameSubject => if l.1 == r.1 && l.0 == r.0 {
            Some((l.2, SAME_AS, r.2))
        } else {
            None
        },
        Rule::SameObject => if l.1 == r.1 && l.2 == r.2 {
            Some((l.0, SAME_AS, r.0))
        } else {
            None
        },
        Rule::SomeValues(p, c, x) => if l.1 == p && r.0 == l.2 && r.1 == TYPE && r.2 == c {
            Some((l.0, TYPE, x))
        } else {
            None
        },
        Rule::AllValues(x, p, c) => if l.1 == TYPE && l.2 == x && r.0 == l.0 && r.1 == p {
            Some((r.2, TYPE, c))
        } else {
            None
        },
        Rule::SubjectTyped(c) => if r.0 == l.0 && r.1 == TYPE && r.2 == c {
            Some(l)
        } else {
            None
        },
        Rule::ObjectTyped(c) => if r.0 == l.2 && r.1 == TYPE && r.2 == c {
            Some(l)
        } else {
            None
        },
        Rule::SharedValue => if l.1 == r.1 && l.2 == r.2 && l.0 < r.0 {
            Some((l.0, SAME_AS, r.0))
        } else {
            None
        },
        Rule::OrderedValues => if l.1 == r.1 && l.0 == r.0 && l.2 < r.2 {
            Some((l.2, SAME_AS, r.2))
        } else {
            None
        },
        Rule::Extend(t, q) => if l.1 == t && r.0 == l.2 && r.1 == q {
            Some((l.0, t, r.2))
        } else {
            None
        },
        Rule::AlsoTyped(c, d) => if l.1 == TYPE && l.2 == c && r.0 == l.0 && r.1 == TYPE && r.2 == d {
            Some(l)
        } else {
            None
        },
        Rule::ChainClass => if sco_predicate(l.1) && sco_predicate(r.1) && l.2 == r.0 {
            Some((l.0, SUB_CLASS_OF, r.2))
        } else {
            None
        },
    }
}

/// Every conclusion of `rule` with its left premise in `left` and its right
/// premise in `right`.
pub open spec fn join_set(rule: Rule, left: Set<Triple>, right: Set<Triple>) -> Set<Triple> {
    Set::new(
        |t: Triple|
            exists|l: Triple, r: Triple|
                left.contains(l) && right.contains(r) && #[trigger] fire(rule, l, r) == Some(t),
    )
}

/// Conclusions from the first `i` left premises with any right premise, and
/// from left premise `i` with the first `j` right premises.
spec fn join_prefix(rule: Rule, left: Seq<Triple>, right: Seq<Triple>, i: int, j: int) -> Set<Triple> {
    Set::new(
        |t: Triple|
            exists|a: int, b: int|
                0 <= a < left.len() && 0 <= b < right.len() && ((a < i) || (a == i && b < j))
                    && #[trigger] fire(rule, left[a], right[b]) == Some(t),
    )
}

/// Joining grows with both relations.
pub proof fn lemma_join_monotone(
    rule: Rule,
    left: Set<Triple>,
    right: Set<Triple>,
    left2: Set<Triple>,
    right2: Set<Triple>,
)
    requires
        left.subset_of(left2),
        right.subset_of(right2),
    ensures
        join_set(rule, left, right).subset_of(join_set(rule, left2, right2)),
{
    assert forall|t: Triple| join_set(rule, left, right).contains(t) implies join_set(
        rule,
        left2,
        right2,
    ).contains(t) by {
        let (l, r) = choose|l: Triple, r: Triple|
            left.contains(l) && right.contains(r) && #[trigger] fire(rule, l, r) == Some(t);
    }
}

/// Every conclusion of `rule` from a premise of `left` and one of `right`,
/// each once.
pub fn join(rule: Rule, left: &Vec<Triple>, right: &Vec<Triple>) -> (out: Vec<Triple>)
    ensures
        out@.no_duplicates(),
        out@.to_set() == join_set(rule, left@.to_set(), right@.to_set()),
{
    let mut out: Vec<Triple> = Vec::new();
    let mut i: usize = 0;
    assert(out@.to_set() =~= join_prefix(rule, left@, right@, 0, 0));
    while i < left.len()
        invariant
            i <= left@.len(),
            out@.no_duplicates(),
            out@.to_set() == join_prefix(rule, left@, right@, i as int, 0),
        decreases left@.len() - i,
    {
        let mut j: usize = 0;
        while j < right.len()
            invariant
                i < left@.len(),
                j <= right@.len(),
                out@.no_duplicates(),
                out@.to_set() == join_prefix(rule, left@, right@, i as int, j as int),
            decreases right@.len() - j,
        {
            let ghost before = out@.to_set();
            match fire_rule(rule, left[i], right[j]) {
                Some(t) => {
                    insert(&mut out, t);
                    assert(out@.to_set() =~= join_prefix(rule, left@, right@, i as int, j as int + 1));
                },
                None => {
                    assert(out@.to_set() =~= join_prefix(rule, left@, right@, i as int, j as int + 1));
                },
            }
            j = j + 1;
        }
        assert(join_prefix(rule, left@, right@, i as int, right@.len() as int) =~= join_prefix(
            rule,
            left@,
            right@,
            i as int + 1,
            0,
        ));
        i = i + 1;
    }
    assert(out@.to_set() =~= join_set(rule, left@.to_set(), right@.to_set())) by {
        assert forall|t: Triple| #[trigger] join_set(rule, left@.to_set(), right@.to_set()).contains(t)
            implies out@.to_set().contains(t) by {
            let (l, r) = choose|l: Triple, r: Triple|
                left@.to_set().contains(l) && right@.to_set().contains(r) && #[trigger] fire(
                    rule,
                    l,
                    r,
                ) == Some(t);
            let a = choose|a: int| 0 <= a < left@.len() && left@[a] == l;
            let b = choose|b: int| 0 <= b < right@.len() && right@[b] == r;
            assert(fire(rule, left@[a], right@[b]) == Some(t));
        }
        assert forall|t: Triple| out@.to_set().contains(t) implies #[trigger] join_set(
            rule,
            left@.to_set(),
            right@.to_set(),
        ).contains(t) by {
            let (a, b) = choose|a: int, b: int|
                0 <= a < left@.len() && 0 <= b < right@.len() && ((a < i) || (a == i && b < 0))
                    && #[trigger] fire(rule, left@[a], right@[b]) == Some(t);
            assert(left@.to_set().contains(left@[a]));
            assert(right@.to_set().contains(right@[b]));
        }
    }
    out
}

/// A rule with one premise.
#[derive(Clone, Copy)]
pub enum Lift {
    /// `(x, p, y)` gives `(x, q, y)`.
    Rename(u32, u32),
    /// `(x, p, y)` gives `(y, q, x)`.
    Swap(u32, u32),
    /// `(x, p, y)` gives `(x, type, c)`.
    SubjectType(u32, u32),
    /// `(x, p, y)` gives `(y, type, c)`.
    ObjectType(u32, u32),
    /// `(y, type, c)` gives `(y, type, d)`.
    Retype(u32, u32),
    /// `(u, type, x)` gives `(u, p, y)`.
    TypeToValue(u32, u32, u32),
    /// `(u, p, y)` gives `(u, type, x)`.
    ValueToType(u32, u32, u32),
}

/// What `m` concludes from `l`.
pub open spec fn map_fire(m: Lift, l: Triple) -> Option<Triple> {
    match m {
        Lift::Rename(p, q) => if l.1 == p {
            Some((l.0, q, l.2))
        } else {
            None
        },
        Lift::Swap(p, q) => if l.1 == p {
            Some((l.2, q, l.0))
        } else {
            None
        },
        Lift::SubjectType(p, c) => if l.1 == p {
            Some((l.0, TYPE, c))
        } else {
            None
        },
        Lift::ObjectType(p, c) => if l.1 == p {
            Some((l.2, TYPE, c))
        } else {
            None
        },
        Lift::Retype(c, d) => if l.1 == TYPE && l.2 == c {
            Some((l.0, TYPE, d))
        } else {
            None
        },
        Lift::TypeToValue(x, p, y) => if l.1 == TYPE && l.2 == x {
            Some((l.0, p, y))
        } else {
            None
        },
        Lift::ValueToType(p, y, x) => if l.1 == p && l.2 == y {
            Some((l.0, TYPE, x))
        } else {
            None
        },
    }
}

/// Executable form of [`map_fire`].
pub fn map_rule(m: Lift, l: Triple) -> (c: Option<Triple>)
    ensures
        c == map_fire(m, l),
{
    match m {
        Lift::Rename(p, q) => if l.1 == p {
            Some((l.0, q, l.2))
        } else {
            None
        },
        Lift::Swap(p, q) => if l.1 == p {
            Some((l.2, q, l.0))
        } else {
            None
        },
        Lift::SubjectType(p, c) => if l.1 == p {
            Some((l.0, TYPE, c))
        } else {
            None
        },
        Lift::ObjectType(p, c) => if l.1 == p {
            Some((l.2, TYPE, c))
        } else {
            None
        },
        Lift::Retype(c, d) => if l.1 == TYPE && l.2 == c {
            Some((l.0, TYPE, d))
        } else {
            None
        },
        Lift::TypeToValue(x, p, y) => if l.1 == TYPE && l.2 == x {
            Some((l.0, p, y))
        } else {
            None
        },
        Lift::ValueToType(p, y, x) => if l.1 == p && l.2 == y {
            Some((l.0, TYPE, x))
        } else {
            None
        },
    }
}

/// Every conclusion of `m` from a premise of `data`.
pub open spec fn apply_set(m: Lift, data: Set<Triple>) -> Set<Triple> {
    Set::new(|t: Triple| exists|l: Triple| data.contains(l) && #[trigger] map_fire(m, l) == Some(t))
}

/// Applying a rule grows with the relation.
pub proof fn lemma_apply_monotone(m: Lift, data: Set<Triple>, data2: Set<Triple>)
    requires
        data.subset_of(data2),
    ensures
        apply_set(m, data).subset_of(apply_set(m, data2)),
{
    assert forall|t: Triple| apply_set(m, data).contains(t) implies apply_set(m, data2).contains(t) by {
        let l = choose|l: Triple| data.contains(l) && #[trigger] map_fire(m, l) == Some(t);
    }
}

/// Every conclusion of `m` from a premise of `data`, each once.
pub fn apply(m: Lift, data: &Vec<Triple>) -> (out: Vec<Triple>)
    ensures
        out@.no_duplicates(),
        out@.to_set() == apply_set(m, data@.to_set()),
{
    let mut out: Vec<Triple> = Vec::new();
    let mut i: usize = 0;
    while i < data.len()
        invariant
            i <= data@.len(),
            out@.no_duplicates(),
            out@.to_set() == Set::new(
                |t: Triple| exists|a: int| 0 <= a < i && #[trigger] map_fire(m, data@[a]) == Some(t),
            ),
        decreases data@.len() - i,
    {
        match map_rule(m, data[i]) {
            Some(t) => {
                insert(&mut out, t);
            },
            None => {},
        }
        assert(out@.to_set() =~= Set::new(
            |t: Triple| exists|a: int| 0 <= a < i + 1 && #[trigger] map_fire(m, data@[a]) == Some(t),
        ));
        i = i + 1;
    }
    assert(out@.to_set() =~= apply_set(m, data@.to_set())) by {
        assert forall|t: Triple| apply_set(m, data@.to_set()).contains(t) implies out@.to_set().contains(t) by {
            let l = choose|l: Triple| data@.to_set().contains(l) && #[trigger] map_fire(m, l) == Some(t);
            let a = choose|a: int| 0 <= a < data@.len() && data@[a] == l;
            assert(map_fire(m, data@[a]) == Some(t));
        }
        assert forall|t: Triple| out@.to_set().contains(t) implies apply_set(m, data@.to_set()).contains(t) by {
            let a = choose|a: int| 0 <= a < i && #[trigger] map_fire(m, data@[a]) == Some(t);
            assert(data@.to_set().contains(data@[a]));
        }
    }
    out
}

} // verus!
