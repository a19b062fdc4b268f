use std::collections::hash_map::RandomState;

use lasso::{Rodeo, Spur};
use vstd::prelude::*;

use crate::triple_set::Triple;

verus! {

#[verifier::external_type_specification]
#[verifier::external_body]
pub struct ExSpur(Spur);

#[verifier::external_type_specification]
#[verifier::external_body]
#[verifier::reject_recursive_types(K)]
#[verifier::reject_recursive_types(S)]
pub struct ExRodeo<K, S>(Rodeo<K, S>);

/// The strings that the interner `r` holds, in the order they came in: the
/// string at index `i` has the identifier `i + 1`.
pub uninterp spec fn interned(r: Rodeo<Spur, RandomState>) -> Seq<Seq<char>>;

/// Relies on lasso's `Rodeo::new`: an interner that holds no string.
#[verifier::external_body]
fn new_interner() -> (r: Rodeo<Spur, RandomState>)
    ensures
        interned(r) == Seq::<Seq<char>>::empty(),
{
    Rodeo::new()
}

/// Relies on lasso's `Rodeo::get_or_intern` with `Spur` keys: a string it
/// holds keeps its key, a new string is appended and keyed by its index, and
/// `Spur::into_inner` is that index plus one. It panics once `u32::MAX - 1`
/// strings are held, which `requires` leaves out.
#[verifier::external_body]
fn get_or_intern(rodeo: &mut Rodeo<Spur, RandomState>, s: &str) -> (k: u32)
    requires
        interned(*old(rodeo)).len() < u32::MAX - 1,
    ensures
        interned(*old(rodeo)).contains(s@) ==> interned(*final(rodeo)) == interned(*old(rodeo)),
        !interned(*old(rodeo)).contains(s@) ==> interned(*final(rodeo)) == interned(*old(rodeo)).push(s@),
        1 <= k <= interned(*final(rodeo)).len(),
        interned(*final(rodeo))[k - 1] == s@,
        interned(*old(rodeo)).no_duplicates() ==> interned(*final(rodeo)).no_duplicates(),
{
    rodeo.get_or_intern(s).into_inner().get()
}

/// The views of the strings of `v`.
pub open spec fn views(v: Seq<&str>) -> Seq<Seq<char>> {
    v.map_values(|s: &str| s@)
}

/// Interns the reserved vocabulary, whose term at index `i` must get the
/// identifier `i + 1`. Returns the index of the first term that got another
/// identifier.
pub fn intern_vocabulary(rodeo: &mut Rodeo<Spur, RandomState>, vocabulary: &Vec<&str>) -> (r: Result<(), usize>)
    requires
        interned(*old(rodeo)).len() + vocabulary@.len() < u32::MAX - 1,
        interned(*old(rodeo)).no_duplicates(),
    ensures
        interned(*final(rodeo)).no_duplicates(),
        interned(*final(rodeo)).len() <= interned(*old(rodeo)).len() + vocabulary@.len(),
        r.is_ok() ==> forall|i: int| 0 <= i < vocabulary@.len() ==> interned(*final(rodeo))[i] == (#[trigger] vocabulary@[i])@,
        r.is_ok() && interned(*old(rodeo)).len() == 0 ==> interned(*final(rodeo)).len() == vocabulary@.len(),
        match r {
            Ok(()) => true,
            Err(k) => {
                &&& k < vocabulary@.len()
                &&& forall|i: int| 0 <= i < k ==> interned(*final(rodeo))[i] == (#[trigger] vocabulary@[i])@
                &&& !(k < interned(*final(rodeo)).len() && interned(*final(rodeo))[k as int] == vocabulary@[k as int]@)
                &&& interned(*old(rodeo)).len() == 0 ==> exists|j: int| 0 <= j < k && #[trigger] vocabulary@[j]@ == vocabulary@[k as int]@
            },
        },
        interned(*old(rodeo)).len() == 0 && views(vocabulary@).no_duplicates() ==> r.is_ok(),
{
    let ghost start = interned(*rodeo);
    let mut k: usize = 0;
    while k < vocabulary.len()
        invariant
            k <= vocabulary@.len(),
            start == interned(*old(rodeo)),
            interned(*rodeo).no_duplicates(),
            k <= interned(*rodeo).len() <= start.len() + k,
            start.len() + vocabulary@.len() < u32::MAX - 1,
            forall|i: int| 0 <= i < k ==> interned(*rodeo)[i] == (#[trigger] vocabulary@[i])@,
            start.len() == 0 ==> interned(*rodeo).len() == k,
        decreases vocabulary@.len() - k,
    {
        let ghost before = interned(*rodeo);
        let ghost v = vocabulary@[k as int]@;
        let id = get_or_intern(rodeo, vocabulary[k]);
        proof {
            let after = interned(*rodeo);
            assert forall|i: int| 0 <= i < k implies after[i] == (#[trigger] vocabulary@[i])@ by {
                if !before.contains(v) {
                    assert(after == before.push(v));
                }
            }
            if start.len() == 0 && !before.contains(v) {
                assert(after == before.push(v));
                assert(after[k as int] == v);
                assert(after[id - 1] == after[k as int]);
            }
        }
        if id as usize != k + 1 {
            proof {
                let after = interned(*rodeo);
                if k < after.len() && after[k as int] == v {
                    assert(after[id - 1] == after[k as int]);
                }
                if start.len() == 0 {
                    assert(before.contains(v));
                    let j = choose|j: int| 0 <= j < before.len() && before[j] == v;
                    assert(vocabulary@[j]@ == before[j]);
                    assert(views(vocabulary@)[j] == vocabulary@[j]@);
                    assert(views(vocabulary@)[k as int] == v);
                }
            }
            return Err(k);
        }
        proof {
            if start.len() == 0 && views(vocabulary@).no_duplicates() {
                assert forall|i: int| 0 <= i < k implies before[i] != v by {
                    assert(views(vocabulary@)[i] == vocabulary@[i]@);
                    assert(views(vocabulary@)[k as int] == v);
                }
            }
        }
        k = k + 1;
    }
    Ok(())
}

/// A new interner that holds `vocabulary`, the term at index `i` with the
/// identifier `i + 1`; or the index of the first term that did not get its
/// identifier, which repeats an earlier term.
pub fn vocabulary_interner(vocabulary: &Vec<&str>) -> (r: Result<Rodeo<Spur, RandomState>, usize>)
    requires
        vocabulary@.len() < u32::MAX - 1,
    ensures
        match r {
            Ok(rodeo) => {
                &&& interned(rodeo).no_duplicates()
                &&& interned(rodeo).len() == vocabulary@.len()
                &&& forall|i: int| 0 <= i < vocabulary@.len() ==> interned(rodeo)[i] == (#[trigger] vocabulary@[i])@
            },
            Err(k) => {
                &&& k < vocabulary@.len()
                &&& exists|j: int| 0 <= j < k && #[trigger] vocabulary@[j]@ == vocabulary@[k as int]@
            },
        },
        views(vocabulary@).no_duplicates() ==> r.is_ok(),
{
    let mut rodeo = new_interner();
    match intern_vocabulary(&mut rodeo, vocabulary) {
        Ok(()) => Ok(rodeo),
        Err(i) => Err(i),
    }
}

/// The identifiers of the terms of `triples`, interning the terms that the
/// interner does not hold yet.
pub fn encode_triples(rodeo: &mut Rodeo<Spur, RandomState>, triples: &Vec<(String, String, String)>) -> (r: Vec<Triple>)
    requires
        interned(*old(rodeo)).len() + 3 * triples@.len() < u32::MAX - 1,
        interned(*old(rodeo)).no_duplicates(),
    ensures
        interned(*final(rodeo)).no_duplicates(),
        interned(*old(rodeo)).is_prefix_of(interned(*final(rodeo))),
        interned(*final(rodeo)).len() <= interned(*old(rodeo)).len() + 3 * triples@.len(),
        r@.len() == triples@.len(),
        forall|k: int|
            0 <= k < r@.len() ==> {
                &&& 1 <= (#[trigger] r@[k]).0 <= interned(*final(rodeo)).len()
                &&& 1 <= r@[k].1 <= interned(*final(rodeo)).len()
                &&& 1 <= r@[k].2 <= interned(*final(rodeo)).len()
                &&& interned(*final(rodeo))[r@[k].0 - 1] == triples@[k].0@
                &&& interned(*final(rodeo))[r@[k].1 - 1] == triples@[k].1@
                &&& interned(*final(rodeo))[r@[k].2 - 1] == triples@[k].2@
            },
{
    let ghost start = interned(*rodeo);
    let mut out: Vec<Triple> = Vec::new();
    let mut k: usize = 0;
    while k < triples.len()
        invariant
            k <= triples@.len(),
            out@.len() == k,
            interned(*rodeo).no_duplicates(),
            start.is_prefix_of(interned(*rodeo)),
            interned(*rodeo).len() <= start.len() + 3 * k,
            start.len() + 3 * triples@.len() < u32::MAX - 1,
            forall|m: int|
                0 <= m < k ==> {
                    &&& 1 <= (#[trigger] out@[m]).0 <= interned(*rodeo).len()
                    &&& 1 <= out@[m].1 <= interned(*rodeo).len()
                    &&& 1 <= out@[m].2 <= interned(*rodeo).len()
                    &&& interned(*rodeo)[out@[m].0 - 1] == triples@[m].0@
                    &&& interned(*rodeo)[out@[m].1 - 1] == triples@[m].1@
                    &&& interned(*rodeo)[out@[m].2 - 1] == triples@[m].2@
                },
        decreases triples@.len() - k,
    {
        let ghost c0 = interned(*rodeo);
        let s = get_or_intern(rodeo, triples[k].0.as_str());
        let ghost c1 = interned(*rodeo);
        let p = get_or_intern(rodeo, triples[k].1.as_str());
        let ghost c2 = interned(*rodeo);
        let o = get_or_intern(rodeo, triples[k].2.as_str());
        let ghost c3 = interned(*rodeo);
        proof {
            assert(c0.is_prefix_of(c1));
            assert(c1.is_prefix_of(c2));
            assert(c2.is_prefix_of(c3));
            assert(c0.is_prefix_of(c3));
            assert(c3[s - 1] == c1[s - 1]);
            assert(c3[p - 1] == c2[p - 1]);
        }
        out.push((s, p, o));
        proof {
            assert forall|m: int| 0 <= m < k + 1 implies {
                &&& 1 <= (#[trigger] out@[m]).0 <= interned(*rodeo).len()
                &&& 1 <= out@[m].1 <= interned(*rodeo).len()
                &&& 1 <= out@[m].2 <= interned(*rodeo).len()
                &&& interned(*rodeo)[out@[m].0 - 1] == triples@[m].0@
                &&& interned(*rodeo)[out@[m].1 - 1] == triples@[m].1@
                &&& interned(*rodeo)[out@[m].2 - 1] == triples@[m].2@
            } by {
                if m < k {
                    assert(c3[out@[m].0 - 1] == c0[out@[m].0 - 1]);
                    assert(c3[out@[m].1 - 1] == c0[out@[m].1 - 1]);
                    assert(c3[out@[m].2 - 1] == c0[out@[m].2 - 1]);
                }
            }
            assert(start.is_prefix_of(c3));
        }
        k = k + 1;
    }
    out
}

} // verus!
