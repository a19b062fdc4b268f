use vstd::prelude::*;

use crate::triple_set::Triple;

verus! {

/// `f` applied `n` times to `k`.
pub open spec fn iterate(f: spec_fn(Set<Triple>) -> Set<Triple>, k: Set<Triple>, n: nat) -> Set<
    Triple,
>
    decreases n,
{
    if n == 0 {
        k
    } else {
        f(iterate(f, k, (n - 1) as nat))
    }
}

/// `s` is reached from `k` by applying `f` a finite number of times, and `f`
/// adds nothing to it: `s` is the least set above `k` that `f` leaves as it is.
pub open spec fn is_lfp(f: spec_fn(Set<Triple>) -> Set<Triple>, k: Set<Triple>, s: Set<Triple>) -> bool {
    &&& exists|n: nat| s == #[trigger] iterate(f, k, n)
    &&& f(s) == s
}

/// `f` keeps every triple and preserves inclusion.
pub open spec fn is_rule_step(f: spec_fn(Set<Triple>) -> Set<Triple>) -> bool {
    &&& forall|a: Set<Triple>| a.subset_of(#[trigger] f(a))
    &&& forall|a: Set<Triple>, b: Set<Triple>| a.subset_of(b) ==> #[trigger] f(a).subset_of(#[trigger] f(b))
}

/// Every set that `f` reaches from `k` lies below any set above `k` that a
/// larger step `g` leaves unchanged.
pub proof fn lemma_iterate_below(
    f: spec_fn(Set<Triple>) -> Set<Triple>,
    g: spec_fn(Set<Triple>) -> Set<Triple>,
    k: Set<Triple>,
    fix: Set<Triple>,
    n: nat,
)
    requires
        is_rule_step(g),
        forall|a: Set<Triple>| #[trigger] f(a).subset_of(g(a)),
        k.subset_of(fix),
        g(fix) == fix,
    ensures
        iterate(f, k, n).subset_of(fix),
    decreases n,
{
    if n > 0 {
        let prev = iterate(f, k, (n - 1) as nat);
        lemma_iterate_below(f, g, k, fix, (n - 1) as nat);
        assert(f(prev).subset_of(g(prev)));
        assert(g(prev).subset_of(g(fix)));
    }
}

/// Every set that `f` reaches from `k` holds `k`.
pub proof fn lemma_iterate_above(f: spec_fn(Set<Triple>) -> Set<Triple>, k: Set<Triple>, n: nat)
    requires
        is_rule_step(f),
    ensures
        k.subset_of(iterate(f, k, n)),
    decreases n,
{
    if n > 0 {
        lemma_iterate_above(f, k, (n - 1) as nat);
        assert(iterate(f, k, (n - 1) as nat).subset_of(f(iterate(f, k, (n - 1) as nat))));
    }
}

/// Least fixpoints grow with the start set and with the step.
pub proof fn lemma_lfp_grows(
    f: spec_fn(Set<Triple>) -> Set<Triple>,
    g: spec_fn(Set<Triple>) -> Set<Triple>,
    k: Set<Triple>,
    k2: Set<Triple>,
    s: Set<Triple>,
    s2: Set<Triple>,
)
    requires
        is_rule_step(g),
        forall|a: Set<Triple>| #[trigger] f(a).subset_of(g(a)),
        k.subset_of(k2),
        is_lfp(f, k, s),
        is_lfp(g, k2, s2),
    ensures
        s.subset_of(s2),
{
    let n = choose|n: nat| s == #[trigger] iterate(f, k, n);
    let n2 = choose|n: nat| s2 == #[trigger] iterate(g, k2, n);
    lemma_iterate_above(g, k2, n2);
    lemma_iterate_below(f, g, k, s2, n);
}

/// A step has one least fixpoint above a given set.
pub proof fn lemma_lfp_unique(
    f: spec_fn(Set<Triple>) -> Set<Triple>,
    k: Set<Triple>,
    s: Set<Triple>,
    s2: Set<Triple>,
)
    requires
        is_rule_step(f),
        is_lfp(f, k, s),
        is_lfp(f, k, s2),
    ensures
        s == s2,
{
    lemma_lfp_grows(f, f, k, k, s, s2);
    lemma_lfp_grows(f, f, k, k, s2, s);
    assert(s =~= s2);
}

/// Once the step leaves the iterate unchanged, every later iterate is the
/// same set.
pub proof fn lemma_iterate_stable(f: spec_fn(Set<Triple>) -> Set<Triple>, k: Set<Triple>, n: nat, m: nat)
    requires
        f(iterate(f, k, n)) == iterate(f, k, n),
        n <= m,
    ensures
        iterate(f, k, m) == iterate(f, k, n),
    decreases m - n,
{
    if m > n {
        lemma_iterate_stable(f, k, n, (m - 1) as nat);
    }
}

/// A set that the step leaves unchanged is its own least fixpoint.
pub proof fn lemma_lfp_of_fixed(f: spec_fn(Set<Triple>) -> Set<Triple>, s: Set<Triple>)
    requires
        f(s) == s,
    ensures
        is_lfp(f, s, s),
{
    assert(iterate(f, s, 0) == s);
}

} // verus!
