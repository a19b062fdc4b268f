use vstd::prelude::*;

use crate::constants::MAX_CONST;

verus! {

/// The larger of the identifiers of `s`, or 0 for an empty sequence.
pub open spec fn max_of(s: Seq<u32>) -> u32
    decreases s.len(),
{
    if s.len() == 0 {
        0
    } else {
        let m = max_of(s.drop_last());
        if s.last() > m {
            s.last()
        } else {
            m
        }
    }
}

/// The representative that survives when the classes represented by `a` and
/// `b` are merged: reserved identifiers absorb the others, and of two reserved
/// identifiers the smaller one wins.
pub open spec fn merged_root(a: u32, b: u32) -> u32 {
    if a <= MAX_CONST && b <= MAX_CONST {
        if a < b {
            a
        } else {
            b
        }
    } else if a <= MAX_CONST {
        a
    } else {
        b
    }
}

/// A map from identifiers to representatives that describes a partition:
/// each representative represents itself, and a class that holds a reserved
/// identifier is represented by its smallest reserved member.
pub open spec fn is_canonical_map(m: Seq<u32>) -> bool {
    &&& forall|i: int| 0 <= i < m.len() ==> (#[trigger] m[i]) < m.len()
    &&& forall|i: int| 0 <= i < m.len() ==> m[m[i] as int] == #[trigger] m[i]
    &&& forall|i: int, j: int|
        0 <= i < m.len() && 0 <= j < m.len() && j <= MAX_CONST && #[trigger] m[j] == #[trigger] m[i]
            ==> m[i] <= j
}

/// The map after merging the classes of `x` and `y`.
pub open spec fn merged_map(m: Seq<u32>, x: u32, y: u32) -> Seq<u32> {
    let r = merged_root(m[x as int], m[y as int]);
    Seq::new(
        m.len(),
        |i: int| if m[i] == m[x as int] || m[i] == m[y as int] { r } else { m[i] },
    )
}

/// `p` is a parent array whose roots are `r`, with ranks `k` below `bound`
/// that grow strictly from a node to its parent.
#[verifier::opaque]
spec fn forest_wf(p: Seq<u32>, r: Seq<u32>, k: Seq<nat>, bound: nat) -> bool {
    &&& p.len() == r.len()
    &&& p.len() == k.len()
    &&& p.len() <= u32::MAX as int + 1
    &&& forall|i: int| 0 <= i < p.len() ==> (#[trigger] p[i]) < p.len()
    &&& forall|i: int| 0 <= i < p.len() ==> r[p[i] as int] == #[trigger] r[i]
    &&& forall|i: int| 0 <= i < p.len() && p[i] != i ==> k[i] < k[#[trigger] p[i] as int]
    &&& forall|i: int| 0 <= i < p.len() ==> (#[trigger] p[i] == i <==> r[i] == i)
    &&& forall|i: int| 0 <= i < p.len() ==> #[trigger] k[i] < bound
    &&& is_canonical_map(r)
}

/// Pointing a node at its grandparent keeps the forest consistent.
proof fn lemma_halve(p: Seq<u32>, r: Seq<u32>, k: Seq<nat>, bound: nat, s: int)
    requires
        forest_wf(p, r, k, bound),
        0 <= s < p.len(),
    ensures
        forest_wf(p.update(s, p[p[s] as int]), r, k, bound),
{
    reveal(forest_wf);
    let q = p.update(s, p[p[s] as int]);
    assert forall|i: int| 0 <= i < q.len() && q[i] != i implies k[i] < k[#[trigger] q[i] as int] by {
        if i == s {
            let ps = p[s] as int;
            if p[ps] != ps {
                assert(k[ps] < k[p[ps] as int]);
            }
        }
    }
    assert forall|i: int| 0 <= i < q.len() implies r[q[i] as int] == #[trigger] r[i] by {
        if i == s {
            assert(r[p[p[s] as int] as int] == r[p[s] as int]);
        }
    }
    assert forall|i: int| 0 <= i < q.len() implies (#[trigger] q[i] == i <==> r[i] == i) by {
        if i == s {
            assert(r[p[p[s] as int] as int] == r[p[s] as int]);
            assert(r[p[s] as int] == r[s]);
        }
    }
}

/// The number of parent links from `z` to its root in the forest `p` with
/// ranks `k` below `bound`.
pub open spec fn path_len(p: Seq<u32>, k: Seq<nat>, bound: nat, z: int) -> nat
    decreases bound - k[z],
{
    if 0 <= z < p.len() && z < k.len() && p[z] != z && p[z] < k.len() && k[z] < k[p[z] as int] && k[p[z] as int] < bound {
        1 + path_len(p, k, bound, p[z] as int)
    } else {
        0
    }
}

/// Pointing a node at its grandparent makes no path longer.
proof fn lemma_halve_shortens(p: Seq<u32>, r: Seq<u32>, k: Seq<nat>, bound: nat, s: int, z: int)
    requires
        forest_wf(p, r, k, bound),
        0 <= s < p.len(),
        0 <= z < p.len(),
    ensures
        path_len(p.update(s, p[p[s] as int]), k, bound, z) <= path_len(p, k, bound, z),
    decreases bound - k[z],
{
    reveal(forest_wf);
    let q = p.update(s, p[p[s] as int]);
    if p[z] == z {
        assert(q[z] == z);
    } else if z != s {
        assert(q[z] == p[z]);
        lemma_halve_shortens(p, r, k, bound, s, p[z] as int);
    } else {
        let ps = p[s] as int;
        if p[ps] == ps {
            assert(q[s] == p[s]);
            lemma_halve_shortens(p, r, k, bound, s, ps);
        } else {
            let pps = p[ps] as int;
            assert(k[s] < k[ps] && k[ps] < k[pps]);
            lemma_halve_shortens(p, r, k, bound, s, pps);
        }
    }
}

/// What callers need to know of a consistent forest.
proof fn lemma_forest_basics(p: Seq<u32>, r: Seq<u32>, k: Seq<nat>, bound: nat)
    requires
        forest_wf(p, r, k, bound),
    ensures
        p.len() == r.len(),
        p.len() == k.len(),
        p.len() <= u32::MAX as int + 1,
        forall|i: int| 0 <= i < p.len() ==> (#[trigger] p[i]) < p.len(),
        forall|i: int| 0 <= i < p.len() ==> (#[trigger] p[i] == i <==> r[i] == i),
        forall|i: int| 0 <= i < p.len() ==> r[p[i] as int] == #[trigger] r[i],
        forall|i: int| 0 <= i < p.len() && p[i] != i ==> k[i] < k[#[trigger] p[i] as int],
        forall|i: int| 0 <= i < p.len() ==> #[trigger] k[i] < bound,
        is_canonical_map(r),
{
    reveal(forest_wf);
}

/// The lengths of a consistent forest, and its map of representatives.
proof fn lemma_forest_len(p: Seq<u32>, r: Seq<u32>, k: Seq<nat>, bound: nat)
    requires
        forest_wf(p, r, k, bound),
    ensures
        p.len() == r.len(),
        p.len() == k.len(),
        is_canonical_map(r),
{
    reveal(forest_wf);
}

/// Renaming the representative `c` to `t` where `t` is the merged root of
/// the classes of `x` and `y` is merging those classes.
proof fn lemma_merged(m: Seq<u32>, x: u32, y: u32, c: u32, t: u32)
    requires
        x < m.len(),
        y < m.len(),
        (c == m[x as int] && t == m[y as int]) || (c == m[y as int] && t == m[x as int]),
        c != t,
        t == merged_root(m[x as int], m[y as int]),
    ensures
        Seq::new(m.len(), |i: int| if m[i] == c { t } else { m[i] }) =~= merged_map(m, x, y),
{
}

/// Pointing the root `c` at the root `t` merges their classes.
#[verifier::spinoff_prover]
#[verifier::rlimit(40)]
proof fn lemma_link(p: Seq<u32>, r: Seq<u32>, k: Seq<nat>, bound: nat, c: u32, t: u32)
    requires
        forest_wf(p, r, k, bound),
        c < p.len(),
        t < p.len(),
        c != t,
        r[c as int] == c,
        r[t as int] == t,
        t == merged_root(c, t) || t == merged_root(t, c),
        c <= MAX_CONST ==> t <= MAX_CONST && t < c,
    ensures
        ({
            let nr = Seq::new(r.len(), |i: int| if r[i] == c { t } else { r[i] });
            let tk = if k[t as int] > k[c as int] + 1 { k[t as int] } else { k[c as int] + 1 };
            let nb = if bound > tk + 1 { bound } else { tk + 1 };
            forest_wf(p.update(c as int, t), nr, k.update(t as int, tk), nb)
        }),
{
    let nr = Seq::new(r.len(), |i: int| if r[i] == c { t } else { r[i] });
    let tk = if k[t as int] > k[c as int] + 1 { k[t as int] } else { k[c as int] + 1 };
    let nb = if bound > tk + 1 { bound } else { tk + 1 };
    reveal(forest_wf);
    lemma_link_canonical(r, c, t);
    let q = p.update(c as int, t);
    let nk = k.update(t as int, tk);
    assert(p[c as int] == c);
    assert(p[t as int] == t);
    assert forall|i: int| 0 <= i < q.len() implies nr[q[i] as int] == #[trigger] nr[i] by {
        if i != c {
            assert(r[p[i] as int] == r[i]);
        }
    }
    assert forall|i: int| 0 <= i < q.len() && q[i] != i implies nk[i] < nk[#[trigger] q[i] as int] by {
        if i != c {
            assert(k[i] < k[p[i] as int]);
        }
    }
    assert forall|i: int| 0 <= i < q.len() implies (#[trigger] q[i] == i <==> nr[i] == i) by {
        assert(p[i] == i <==> r[i] == i);
    }
    assert forall|i: int| 0 <= i < q.len() implies #[trigger] nk[i] < nb by {
        assert(k[i] < bound);
    }
}

/// Renaming the representative `c` to `t` in a canonical map keeps it
/// canonical when `t` may absorb `c`.
proof fn lemma_link_canonical(r: Seq<u32>, c: u32, t: u32)
    requires
        is_canonical_map(r),
        c < r.len(),
        t < r.len(),
        c != t,
        r[c as int] == c,
        r[t as int] == t,
        c <= MAX_CONST ==> t <= MAX_CONST && t < c,
    ensures
        is_canonical_map(Seq::new(r.len(), |i: int| if r[i] == c { t } else { r[i] })),
{
    let nr = Seq::new(r.len(), |i: int| if r[i] == c { t } else { r[i] });
    assert forall|i: int| 0 <= i < nr.len() implies (#[trigger] nr[i]) < nr.len() by {
        assert(r[i] < r.len());
    }
    assert forall|i: int| 0 <= i < nr.len() implies nr[nr[i] as int] == #[trigger] nr[i] by {
        assert(r[r[i] as int] == r[i]);
    }
    assert forall|i: int, j: int|
        0 <= i < nr.len() && 0 <= j < nr.len() && j <= MAX_CONST && #[trigger] nr[j]
            == #[trigger] nr[i] implies nr[i] <= j by {
        if r[i] == c || r[i] == t {
            assert(r[j] == c || r[j] == t);
            assert(r[j] == r[j as int]);
            assert(r[r[j] as int] == r[j]);
            assert(r[j] <= j);
        } else {
            assert(r[j] == r[i]);
        }
    }
}

/// A union-find forest over the identifiers `0..len`, used to pick one
/// canonical representative for each class of equivalent identifiers.
pub struct DisjointSet {
    parent: Vec<u32>,
    roots: Ghost<Seq<u32>>,
    rank: Ghost<Seq<nat>>,
    bound: Ghost<nat>,
}

impl View for DisjointSet {
    type V = Seq<u32>;

    /// The representative of each identifier.
    closed spec fn view(&self) -> Seq<u32> {
        self.roots@
    }
}

impl DisjointSet {
    /// The number of parent links from `z` to its representative.
    pub closed spec fn depth(&self, z: int) -> nat {
        path_len(self.parent@, self.rank@, self.bound@, z)
    }

    /// The forest is consistent with the representatives it stands for.
    pub closed spec fn wf(&self) -> bool {
        forest_wf(self.parent@, self.roots@, self.rank@, self.bound@)
    }

    /// Every identifier of `ids` starts in a class of its own; the forest
    /// covers `0..=max(ids)`.
    pub fn new(ids: &Vec<u32>) -> (r: DisjointSet)
        ensures
            r.wf(),
            is_canonical_map(r@),
            r@.len() == max_of(ids@) as int + 1,
            forall|i: int| 0 <= i < r@.len() ==> #[trigger] r@[i] == i,
            forall|k: int| 0 <= k < ids@.len() ==> #[trigger] ids@[k] < r@.len(),
    {
        let mut max: u32 = 0;
        let mut k: usize = 0;
        while k < ids.len()
            invariant
                k <= ids@.len(),
                max == max_of(ids@.subrange(0, k as int)),
                forall|j: int| 0 <= j < k ==> #[trigger] ids@[j] <= max,
            decreases ids@.len() - k,
        {
            assert(ids@.subrange(0, k as int + 1).drop_last() == ids@.subrange(0, k as int));
            if ids[k] > max {
                max = ids[k];
            }
            k = k + 1;
        }
        assert(ids@.subrange(0, ids@.len() as int) == ids@);
        let mut parent: Vec<u32> = Vec::new();
        let mut i: u32 = 0;
        loop
            invariant_except_break
                i <= max,
                parent@.len() == i,
                forall|j: int| 0 <= j < i ==> #[trigger] parent@[j] == j,
            ensures
                parent@.len() == max as int + 1,
                forall|j: int| 0 <= j < parent@.len() ==> #[trigger] parent@[j] == j,
            decreases max - i,
        {
            parent.push(i);
            if i == max {
                break;
            }
            i = i + 1;
        }
        let ghost n = parent@.len();
        let ghost roots = Seq::new(n, |j: int| j as u32);
        let ghost rank = Seq::new(n, |j: int| 0nat);
        let r = DisjointSet { parent, roots: Ghost(roots), rank: Ghost(rank), bound: Ghost(1) };
        proof {
            reveal(forest_wf);
        }
        assert(r@ =~= roots);
        assert forall|k: int| 0 <= k < ids@.len() implies #[trigger] ids@[k] < r@.len() by {
            assert(ids@[k] <= max);
        }
        r
    }

    /// The representative of `x`. Halves the path from `x` to its root on
    /// the way, which leaves every representative as it was.
    pub fn find(&mut self, x: u32) -> (r: u32)
        requires
            old(self).wf(),
            x < old(self)@.len(),
        ensures
            final(self).wf(),
            final(self)@ == old(self)@,
            is_canonical_map(final(self)@),
            r == old(self)@[x as int],
            r < final(self)@.len(),
            final(self)@[r as int] == r,
            x <= MAX_CONST ==> r <= x,
            forall|z: int| 0 <= z < old(self)@.len() ==> #[trigger] final(self).depth(z) <= old(self).depth(z),
    {
        let ghost r0 = self.roots@;
        let ghost start = *self;
        proof {
            lemma_forest_basics(self.parent@, self.roots@, self.rank@, self.bound@);
        }
        let mut x_found = x;
        while self.parent[x_found as usize] != x_found
            invariant
                self.wf(),
                self.roots@ == r0,
                x < r0.len(),
                x_found < r0.len(),
                r0[x_found as int] == r0[x as int],
            self.parent@.len() == r0.len(),
                self.rank@ == start.rank@,
                self.bound@ == start.bound@,
                forall|z: int| 0 <= z < r0.len() ==> #[trigger] self.depth(z) <= start.depth(z),
                start.roots@ == r0,
            decreases self.bound@ - self.rank@[x_found as int],
        {
            proof {
                lemma_forest_basics(self.parent@, self.roots@, self.rank@, self.bound@);
            }
            let saved = x_found;
            x_found = self.parent[saved as usize];
            let grand = self.parent[x_found as usize];
            let ghost before = *self;
            proof {
                lemma_halve(self.parent@, self.roots@, self.rank@, self.bound@, saved as int);
            }
            self.parent.set(saved as usize, grand);
            proof {
                assert forall|z: int| 0 <= z < r0.len() implies #[trigger] self.depth(z) <= start.depth(z) by {
                    lemma_halve_shortens(before.parent@, before.roots@, before.rank@, before.bound@, saved as int, z);
                    assert(before.depth(z) <= start.depth(z));
                }
            }
        }
        proof {
            lemma_forest_basics(self.parent@, self.roots@, self.rank@, self.bound@);
        }
        x_found
    }

    /// Merges the classes of `x` and `y`. Reserved identifiers stay
    /// representatives: they absorb the others.
    pub fn union(&mut self, x: u32, y: u32)
        requires
            old(self).wf(),
            x < old(self)@.len(),
            y < old(self)@.len(),
        ensures
            final(self).wf(),
            is_canonical_map(final(self)@),
            final(self)@ == merged_map(old(self)@, x, y),
    {
        let a = self.find(x);
        let b = self.find(y);
        let ghost m = self.roots@;
        proof {
            lemma_forest_len(self.parent@, self.roots@, self.rank@, self.bound@);
        }
        if a == b {
            assert(self@ =~= merged_map(m, x, y));
            return;
        }
        let (child, root) = if a <= MAX_CONST && b <= MAX_CONST {
            if a < b {
                (b, a)
            } else {
                (a, b)
            }
        } else if a <= MAX_CONST {
            (b, a)
        } else {
            (a, b)
        };
        assert(root == merged_root(a, b));
        proof {
            lemma_link(self.parent@, self.roots@, self.rank@, self.bound@, child, root);
        }
        let ghost old_rank = self.rank@;
        let ghost root_rank = if old_rank[root as int] > old_rank[child as int] + 1 {
            old_rank[root as int]
        } else {
            old_rank[child as int] + 1
        };
        self.parent.set(child as usize, root);
        self.roots = Ghost(Seq::new(m.len(), |i: int| if m[i] == child { root } else { m[i] }));
        self.rank = Ghost(old_rank.update(root as int, root_rank));
        self.bound = Ghost(
            if self.bound@ > root_rank + 1 {
                self.bound@
            } else {
                root_rank + 1
            },
        );
        proof {
            lemma_merged(m, x, y, child, root);
        }
    }
}

} // verus!
