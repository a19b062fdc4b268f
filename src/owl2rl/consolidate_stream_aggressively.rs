use vstd::prelude::*;

use crate::triple_set::{same_triple, Triple};

verus! {

/// A change to a collection: a record, the time of the change, and how many
/// copies it adds (or removes, when negative).
pub type Update = (Triple, u64, i64);

/// The net number of copies of `d` at time `t` that the updates `s` add.
pub open spec fn weight(s: Seq<Update>, d: Triple, t: u64) -> int
    decreases s.len(),
{
    if s.len() == 0 {
        0
    } else {
        weight(s.drop_last(), d, t) + if s.last().0 == d && s.last().1 == t {
            s.last().2 as int
        } else {
            0
        }
    }
}

/// Collapsing equal `(record, time)` pairs into one update each.
pub trait ConsolidateStreamAggressive: Sized {
    /// The consolidated weights fit in an update.
    spec fn fits(&self) -> bool;

    /// `r` holds, once each, every `(record, time)` pair whose weight in
    /// `self` is not zero, with that weight.
    spec fn consolidates(&self, r: &Self) -> bool;

    /// Aggregates the weights of equal records at equal times, and drops the
    /// pairs whose weights cancel out.
    fn consolidate_stream_aggressively(&self) -> (r: Self)
        requires
            self.fits(),
        ensures
            self.consolidates(&r),
    ;
}

/// A batch of updates.
pub struct Updates {
    pub entries: Vec<Update>,
}

proof fn lemma_weight_absent(s: Seq<Update>, d: Triple, t: u64)
    requires
        forall|m: int| 0 <= m < s.len() ==> !((#[trigger] s[m]).0 == d && s[m].1 == t),
    ensures
        weight(s, d, t) == 0,
    decreases s.len(),
{
    if s.len() > 0 {
        assert forall|m: int| 0 <= m < s.drop_last().len() implies !((#[trigger] s.drop_last()[m]).0 == d
            && s.drop_last()[m].1 == t) by {
            assert(s.drop_last()[m] == s[m]);
        }
        lemma_weight_absent(s.drop_last(), d, t);
        assert(s.last() == s[s.len() - 1]);
    }
}

proof fn lemma_weight_bound(s: Seq<Update>, d: Triple, t: u64)
    ensures
        -(s.len() * 0x8000_0000_0000_0000) <= weight(s, d, t) <= s.len() * 0x8000_0000_0000_0000,
    decreases s.len(),
{
    if s.len() > 0 {
        lemma_weight_bound(s.drop_last(), d, t);
        assert(s.len() * 0x8000_0000_0000_0000 == (s.len() - 1) * 0x8000_0000_0000_0000
            + 0x8000_0000_0000_0000) by (nonlinear_arith);
    }
}

impl ConsolidateStreamAggressive for Updates {
    open spec fn fits(&self) -> bool {
        forall|d: Triple, t: u64| i64::MIN <= #[trigger] weight(self.entries@, d, t) <= i64::MAX
    }

    open spec fn consolidates(&self, r: &Self) -> bool {
        let s = self.entries@;
        let o = r.entries@;
        &&& forall|i: int, j: int|
            0 <= i < j < o.len() ==> !((#[trigger] o[i]).0 == (#[trigger] o[j]).0 && o[i].1 == o[j].1)
        &&& forall|i: int| 0 <= i < o.len() ==> (#[trigger] o[i]).2 != 0 && o[i].2 == weight(s, o[i].0, o[i].1)
        &&& forall|d: Triple, t: u64|
            #[trigger] weight(s, d, t) != 0 ==> exists|i: int| 0 <= i < o.len() && (#[trigger] o[i]).0 == d && o[i].1 == t
    }

    fn consolidate_stream_aggressively(&self) -> (r: Self) {
        let s = &self.entries;
        let mut acc: Vec<(Triple, u64, i128)> = Vec::new();
        let mut k: usize = 0;
        while k < s.len()
            invariant
                k <= s@.len(),
                forall|i: int, j: int|
                    0 <= i < j < acc@.len() ==> !((#[trigger] acc@[i]).0 == (#[trigger] acc@[j]).0 && acc@[i].1 == acc@[j].1),
                forall|i: int| 0 <= i < acc@.len() ==> (#[trigger] acc@[i]).2 == weight(s@.subrange(0, k as int), acc@[i].0, acc@[i].1),
                forall|d: Triple, t: u64|
                    #![trigger weight(s@.subrange(0, k as int), d, t)]
                    (forall|i: int| 0 <= i < acc@.len() ==> !((#[trigger] acc@[i]).0 == d && acc@[i].1 == t))
                        ==> weight(s@.subrange(0, k as int), d, t) == 0,
            decreases s@.len() - k,
        {
            let (d, t, w) = s[k];
            let ghost pre = s@.subrange(0, k as int);
            let ghost next = s@.subrange(0, k as int + 1);
            assert(next.drop_last() == pre);
            assert(next.last() == (d, t, w));
            let mut j: usize = 0;
            while j < acc.len() && !(same_triple(acc[j].0, d) && acc[j].1 == t)
                invariant
                    j <= acc@.len(),
                    forall|i: int| 0 <= i < j ==> !((#[trigger] acc@[i]).0 == d && acc@[i].1 == t),
                decreases acc@.len() - j,
            {
                j = j + 1;
            }
            proof {
                lemma_weight_bound(next, d, t);
                assert(next.len() <= usize::MAX);
                assert(next.len() * 0x8000_0000_0000_0000 < 0x8000_0000_0000_0000_0000_0000_0000_0000)
                    by (nonlinear_arith)
                    requires
                        next.len() <= 0xFFFF_FFFF_FFFF_FFFF,
                ;
            }
            if j < acc.len() {
                let (kd, kt, kw) = acc[j];
                let ghost old_acc = acc@;
                acc.set(j, (kd, kt, kw + w as i128));
                proof {
                    assert forall|i: int| 0 <= i < acc@.len() implies (#[trigger] acc@[i]).2 == weight(next, acc@[i].0, acc@[i].1) by {
                        if i != j {
                            assert(old_acc[i] == acc@[i]);
                        }
                    }
                    assert forall|i: int, m: int|
                        0 <= i < m < acc@.len() implies !((#[trigger] acc@[i]).0 == (#[trigger] acc@[m]).0 && acc@[i].1 == acc@[m].1) by {
                        assert(old_acc[i].0 == acc@[i].0 && old_acc[i].1 == acc@[i].1);
                        assert(old_acc[m].0 == acc@[m].0 && old_acc[m].1 == acc@[m].1);
                    }
                    assert forall|d2: Triple, t2: u64|
                        #![trigger weight(next, d2, t2)]
                        (forall|i: int| 0 <= i < acc@.len() ==> !((#[trigger] acc@[i]).0 == d2 && acc@[i].1 == t2))
                            implies weight(next, d2, t2) == 0 by {
                        assert(!(acc@[j as int].0 == d2 && acc@[j as int].1 == t2));
                        assert forall|i: int| 0 <= i < old_acc.len() implies !((#[trigger] old_acc[i]).0 == d2 && old_acc[i].1 == t2) by {
                            assert(old_acc[i].0 == acc@[i].0 && old_acc[i].1 == acc@[i].1);
                        }
                        assert(weight(pre, d2, t2) == 0);
                    }
                }
            } else {
                proof {
                    assert(weight(pre, d, t) == 0);
                }
                let ghost old_acc = acc@;
                acc.push((d, t, w as i128));
                proof {
                    assert forall|i: int| 0 <= i < acc@.len() implies (#[trigger] acc@[i]).2 == weight(next, acc@[i].0, acc@[i].1) by {
                        if i < old_acc.len() {
                            assert(old_acc[i] == acc@[i]);
                        }
                    }
                    assert forall|i: int, m: int|
                        0 <= i < m < acc@.len() implies !((#[trigger] acc@[i]).0 == (#[trigger] acc@[m]).0 && acc@[i].1 == acc@[m].1) by {
                        assert(acc@[i] == old_acc[i]);
                        if m < old_acc.len() {
                            assert(acc@[m] == old_acc[m]);
                        }
                    }
                    assert forall|d2: Triple, t2: u64|
                        #![trigger weight(next, d2, t2)]
                        (forall|i: int| 0 <= i < acc@.len() ==> !((#[trigger] acc@[i]).0 == d2 && acc@[i].1 == t2))
                            implies weight(next, d2, t2) == 0 by {
                        assert(!(acc@[old_acc.len() as int].0 == d2 && acc@[old_acc.len() as int].1 == t2));
                        assert forall|i: int| 0 <= i < old_acc.len() implies !((#[trigger] old_acc[i]).0 == d2 && old_acc[i].1 == t2) by {
                            assert(old_acc[i] == acc@[i]);
                        }
                        assert(weight(pre, d2, t2) == 0);
                    }
                }
            }
            k = k + 1;
        }
        assert(s@.subrange(0, s@.len() as int) == s@);
        let mut out: Vec<Update> = Vec::new();
        let mut m: usize = 0;
        while m < acc.len()
            invariant
                m <= acc@.len(),
                self.fits(),
                s == &self.entries,
                forall|i: int, j: int|
                    0 <= i < j < acc@.len() ==> !((#[trigger] acc@[i]).0 == (#[trigger] acc@[j]).0 && acc@[i].1 == acc@[j].1),
                forall|i: int| 0 <= i < acc@.len() ==> (#[trigger] acc@[i]).2 == weight(s@, acc@[i].0, acc@[i].1),
                forall|d: Triple, t: u64|
                    #![trigger weight(s@, d, t)]
                    (forall|i: int| 0 <= i < acc@.len() ==> !((#[trigger] acc@[i]).0 == d && acc@[i].1 == t))
                        ==> weight(s@, d, t) == 0,
                forall|i: int| 0 <= i < out@.len() ==> (#[trigger] out@[i]).2 != 0 && out@[i].2 == weight(s@, out@[i].0, out@[i].1),
                forall|i: int| 0 <= i < out@.len() ==> exists|a: int| 0 <= a < m && (#[trigger] acc@[a]).0 == (#[trigger] out@[i]).0 && acc@[a].1 == out@[i].1,
                forall|i: int, j: int|
                    0 <= i < j < out@.len() ==> !((#[trigger] out@[i]).0 == (#[trigger] out@[j]).0 && out@[i].1 == out@[j].1),
                forall|a: int| 0 <= a < m && (#[trigger] acc@[a]).2 != 0 ==> exists|i: int| 0 <= i < out@.len() && (#[trigger] out@[i]).0 == acc@[a].0 && out@[i].1 == acc@[a].1,
            decreases acc@.len() - m,
        {
            let (d, t, w) = acc[m];
            if w != 0 {
                proof {
                    assert(i64::MIN <= weight(s@, d, t) <= i64::MAX);
                }
                let ghost old_out = out@;
                out.push((d, t, w as i64));
                proof {
                    assert forall|i: int| 0 <= i < out@.len() implies exists|a: int| 0 <= a < m + 1 && (#[trigger] acc@[a]).0 == (#[trigger] out@[i]).0 && acc@[a].1 == out@[i].1 by {
                        if i < old_out.len() {
                            assert(out@[i] == old_out[i]);
                            let a = choose|a: int| 0 <= a < m && (#[trigger] acc@[a]).0 == old_out[i].0 && acc@[a].1 == old_out[i].1;
                            assert(acc@[a].0 == out@[i].0);
                        } else {
                            assert(acc@[m as int].0 == out@[i].0);
                        }
                    }
                    assert forall|i: int, j: int|
                        0 <= i < j < out@.len() implies !((#[trigger] out@[i]).0 == (#[trigger] out@[j]).0 && out@[i].1 == out@[j].1) by {
                        assert(out@[i] == old_out[i]);
                        if j < old_out.len() {
                            assert(out@[j] == old_out[j]);
                        } else {
                            let a = choose|a: int| 0 <= a < m && (#[trigger] acc@[a]).0 == old_out[i].0 && acc@[a].1 == old_out[i].1;
                            assert(acc@[a].0 == acc@[m as int].0 ==> acc@[a].1 != acc@[m as int].1);
                        }
                    }
                    assert forall|a: int| 0 <= a < m + 1 && (#[trigger] acc@[a]).2 != 0 implies exists|i: int| 0 <= i < out@.len() && (#[trigger] out@[i]).0 == acc@[a].0 && out@[i].1 == acc@[a].1 by {
                        if a < m {
                            let i = choose|i: int| 0 <= i < old_out.len() && (#[trigger] old_out[i]).0 == acc@[a].0 && old_out[i].1 == acc@[a].1;
                            assert(out@[i] == old_out[i]);
                        } else {
                            assert(out@[old_out.len() as int].0 == acc@[a].0);
                        }
                    }
                }
            }
            m = m + 1;
        }
        proof {
            assert forall|d: Triple, t: u64|
                #[trigger] weight(s@, d, t) != 0 implies exists|i: int| 0 <= i < out@.len() && (#[trigger] out@[i]).0 == d && out@[i].1 == t by {
                if forall|i: int| 0 <= i < acc@.len() ==> !((#[trigger] acc@[i]).0 == d && acc@[i].1 == t) {
                    assert(weight(s@, d, t) == 0);
                } else {
                    let a = choose|a: int| 0 <= a < acc@.len() && (#[trigger] acc@[a]).0 == d && acc@[a].1 == t;
                    assert(acc@[a].2 != 0);
                }
            }
        }
        let ghost o = out@;
        let r = Updates { entries: out };
        assert(s@ == self.entries@);
        assert(r.entries@ == o);
        r
    }
}

} // verus!
