use vstd::prelude::*;
use vstd::set_lib::*;

verus! {

/// An encoded RDF statement `(subject, predicate, object)`.
pub type Triple = (u32, u32, u32);

/// A number that tells triples apart.
pub open spec fn triple_code(t: Triple) -> u128 {
    (t.0 as int * 0x1_0000_0000_0000_0000 + t.1 as int * 0x1_0000_0000 + t.2 as int) as u128
}

/// There are finitely many triples: at most as many as numbers of 128 bits.
pub proof fn lemma_triple_set_bound(s: Set<Triple>)
    requires
        s.finite(),
    ensures
        s.len() <= Set::<u128>::full().len(),
{
    let f = |t: Triple| triple_code(t);
    assert forall|a: Triple, b: Triple| #[trigger] f(a) == #[trigger] f(b) implies a == b by {
        let (a0, a1, a2) = (a.0 as int, a.1 as int, a.2 as int);
        let (b0, b1, b2) = (b.0 as int, b.1 as int, b.2 as int);
        assert(a0 * 0x1_0000_0000_0000_0000 + a1 * 0x1_0000_0000 + a2 < 0x1_0000_0000_0000_0000_0000_0000)
            by (nonlinear_arith)
            requires
                0 <= a0 < 0x1_0000_0000,
                0 <= a1 < 0x1_0000_0000,
                0 <= a2 < 0x1_0000_0000,
        ;
        assert(b0 * 0x1_0000_0000_0000_0000 + b1 * 0x1_0000_0000 + b2 < 0x1_0000_0000_0000_0000_0000_0000)
            by (nonlinear_arith)
            requires
                0 <= b0 < 0x1_0000_0000,
                0 <= b1 < 0x1_0000_0000,
                0 <= b2 < 0x1_0000_0000,
        ;
        assert(a0 == b0 && a1 == b1 && a2 == b2) by (nonlinear_arith)
            requires
                0 <= a0 < 0x1_0000_0000,
                0 <= a1 < 0x1_0000_0000,
                0 <= a2 < 0x1_0000_0000,
                0 <= b0 < 0x1_0000_0000,
                0 <= b1 < 0x1_0000_0000,
                0 <= b2 < 0x1_0000_0000,
                a0 * 0x1_0000_0000_0000_0000 + a1 * 0x1_0000_0000 + a2 == b0 * 0x1_0000_0000_0000_0000
                    + b1 * 0x1_0000_0000 + b2,
        ;
    }
    let m = s.map(f);
    lemma_map_size(s, m, f);
    <u128 as FiniteFull>::full_properties();
    lemma_len_subset(m, Set::<u128>::full());
}

/// A sequence without repeats has no more elements than there are triples.
pub proof fn lemma_unique_seq_bound(s: Seq<Triple>)
    requires
        s.no_duplicates(),
    ensures
        s.len() <= Set::<u128>::full().len(),
{
    s.unique_seq_to_set();
    lemma_triple_set_bound(s.to_set());
}

/// Whether `a` and `b` are the same triple.
pub fn same_triple(a: Triple, b: Triple) -> (r: bool)
    ensures
        r == (a == b),
{
    a.0 == b.0 && a.1 == b.1 && a.2 == b.2
}

/// Whether `v` holds `t`.
pub fn contains(v: &Vec<Triple>, t: Triple) -> (r: bool)
    ensures
        r == v@.contains(t),
{
    let mut i: usize = 0;
    while i < v.len()
        invariant
            i <= v@.len(),
            forall|j: int| 0 <= j < i ==> v@[j] != t,
        decreases v@.len() - i,
    {
        if same_triple(v[i], t) {
            return true;
        }
        i = i + 1;
    }
    false
}

/// Adds `t` at the end of `v` unless `v` holds it already.
pub fn insert(v: &mut Vec<Triple>, t: Triple)
    requires
        old(v)@.no_duplicates(),
    ensures
        final(v)@.no_duplicates(),
        final(v)@.to_set() == old(v)@.to_set().insert(t),
        old(v)@.is_prefix_of(final(v)@),
{
    if !contains(v, t) {
        let ghost s = v@;
        v.push(t);
        assert(v@.to_set() =~= s.to_set().insert(t)) by {
            assert(v@[s.len() as int] == t);
            assert forall|x: Triple| s.contains(x) implies v@.contains(x) by {
                let k = choose|k: int| 0 <= k < s.len() && s[k] == x;
                assert(v@[k] == x);
            }
        }
    } else {
        assert(v@.to_set() =~= v@.to_set().insert(t));
    }
    assert(old(v)@ =~= v@.subrange(0, old(v)@.len() as int));
}

/// Adds to `v` each triple of `w` that it does not hold yet.
pub fn extend(v: &mut Vec<Triple>, w: &Vec<Triple>)
    requires
        old(v)@.no_duplicates(),
    ensures
        final(v)@.no_duplicates(),
        final(v)@.to_set() == old(v)@.to_set().union(w@.to_set()),
        old(v)@.is_prefix_of(final(v)@),
{
    let ghost start = v@;
    let mut i: usize = 0;
    while i < w.len()
        invariant
            i <= w@.len(),
            v@.no_duplicates(),
            v@.to_set() == start.to_set().union(w@.subrange(0, i as int).to_set()),
            start.is_prefix_of(v@),
        decreases w@.len() - i,
    {
        insert(v, w[i]);
        assert(w@.subrange(0, i as int + 1).to_set() =~= w@.subrange(0, i as int).to_set().insert(
            w@[i as int],
        )) by {
            let a = w@.subrange(0, i as int + 1);
            let b = w@.subrange(0, i as int);
            assert(a[i as int] == w@[i as int]);
            assert forall|x: Triple| b.contains(x) implies a.contains(x) by {
                let k = choose|k: int| 0 <= k < b.len() && b[k] == x;
                assert(a[k] == x);
            }
            assert forall|x: Triple| a.contains(x) implies b.contains(x) || x == w@[i as int] by {
                let k = choose|k: int| 0 <= k < a.len() && a[k] == x;
                if k < i {
                    assert(b[k] == x);
                }
            }
        }
        i = i + 1;
    }
    assert(w@.subrange(0, w@.len() as int) == w@);
}

/// The triples of `a` that `b` holds too, each once.
pub fn intersect(a: &Vec<Triple>, b: &Vec<Triple>) -> (r: Vec<Triple>)
    ensures
        r@.no_duplicates(),
        r@.to_set() == a@.to_set().intersect(b@.to_set()),
{
    let mut r: Vec<Triple> = Vec::new();
    let mut i: usize = 0;
    while i < a.len()
        invariant
            i <= a@.len(),
            r@.no_duplicates(),
            r@.to_set() == a@.subrange(0, i as int).to_set().intersect(b@.to_set()),
        decreases a@.len() - i,
    {
        let t = a[i];
        if contains(b, t) {
            insert(&mut r, t);
        }
        assert(r@.to_set() =~= a@.subrange(0, i as int + 1).to_set().intersect(b@.to_set())) by {
            let x = a@.subrange(0, i as int + 1);
            let y = a@.subrange(0, i as int);
            assert(x[i as int] == t);
            assert forall|v: Triple| y.contains(v) implies x.contains(v) by {
                let m = choose|m: int| 0 <= m < y.len() && y[m] == v;
                assert(x[m] == v);
            }
            assert forall|v: Triple| x.contains(v) implies y.contains(v) || v == t by {
                let m = choose|m: int| 0 <= m < x.len() && x[m] == v;
                if m < i {
                    assert(y[m] == v);
                }
            }
        }
        i = i + 1;
    }
    assert(a@.subrange(0, a@.len() as int) == a@);
    r
}

/// The triples of `w`, each once, in the order of their first occurrence.
pub fn distinct(w: &Vec<Triple>) -> (r: Vec<Triple>)
    ensures
        r@.no_duplicates(),
        r@.to_set() == w@.to_set(),
{
    let mut r: Vec<Triple> = Vec::new();
    extend(&mut r, w);
    assert(Seq::<Triple>::empty().to_set().union(w@.to_set()) =~= w@.to_set());
    r
}

} // verus!
