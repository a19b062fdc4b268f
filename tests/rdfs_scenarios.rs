use std::collections::BTreeSet;

use differential_reasoner::materializations::{rdfs, rdfspp, Reasoner};
use differential_reasoner::rdfs_materialization::{
    efficient_transitivity, inverseof_rule, rule_11, rule_5, trans_property_rule,
};

type T = (u32, u32, u32);

fn set(v: &[T]) -> BTreeSet<T> {
    v.iter().cloned().collect()
}

#[test]
fn rdfs_chain_of_subclasses() {
    let tbox = vec![(100, 0, 101), (101, 0, 102)];
    let abox = vec![(200, 4, 100)];
    for (t, a) in [rdfs(&tbox, &abox), rdfspp(&tbox, &abox)] {
        let a = set(&a);
        assert!(a.contains(&(200, 4, 100)));
        assert!(a.contains(&(200, 4, 101)));
        assert!(a.contains(&(200, 4, 102)));
        assert_eq!(a.len(), 3);
        assert_eq!(set(&t), set(&[(100, 0, 101), (101, 0, 102), (100, 0, 102)]));
    }
}

#[test]
fn rdfs_subproperty_propagation() {
    let tbox = vec![(110, 1, 111)];
    let abox = vec![(201, 110, 202)];
    let (_, a) = rdfs(&tbox, &abox);
    assert_eq!(set(&a), set(&[(201, 110, 202), (201, 111, 202)]));
}

#[test]
fn rdfs_domain_and_range() {
    let tbox = vec![(120, 2, 130), (120, 3, 131)];
    let abox = vec![(203, 120, 204)];
    let (_, a) = rdfs(&tbox, &abox);
    assert_eq!(set(&a), set(&[(203, 120, 204), (203, 4, 130), (204, 4, 131)]));
}

#[test]
fn rdfspp_transitive_property() {
    let tbox = vec![(140, 4, 5)];
    let abox = vec![(205, 140, 206), (206, 140, 207)];
    let (_, a) = rdfspp(&tbox, &abox);
    assert_eq!(set(&a), set(&[(205, 140, 206), (206, 140, 207), (205, 140, 207)]));
    let (_, plain) = rdfs(&tbox, &abox);
    assert_eq!(set(&plain), set(&abox));
}

#[test]
fn rdfspp_inverse_of() {
    let tbox = vec![(150, 6, 151)];
    let abox = vec![(208, 150, 209), (300, 151, 301)];
    let (_, a) = rdfspp(&tbox, &abox);
    assert_eq!(
        set(&a),
        set(&[(208, 150, 209), (209, 151, 208), (300, 151, 301), (301, 150, 300)])
    );
}

#[test]
fn rdfspp_transitive_superproperty_chain() {
    let tbox = vec![(160, 1, 161), (161, 4, 5)];
    let abox = vec![(1, 160, 2), (2, 160, 3)];
    let (_, a) = rdfspp(&tbox, &abox);
    assert!(set(&a).contains(&(1, 161, 3)));
}

#[test]
fn rdfs_empty_abox_gives_closed_tbox_only() {
    let tbox = vec![(100, 0, 101), (101, 0, 102), (110, 1, 111), (111, 1, 112)];
    let (t, a) = rdfspp(&tbox, &vec![]);
    assert!(a.is_empty());
    assert_eq!(
        set(&t),
        set(&[
            (100, 0, 101),
            (101, 0, 102),
            (100, 0, 102),
            (110, 1, 111),
            (111, 1, 112),
            (110, 1, 112)
        ])
    );
}

#[test]
fn rdfs_cycle_both_subclasses() {
    let tbox = vec![(170, 0, 171), (171, 0, 170)];
    let (t, a) = rdfs(&tbox, &vec![(5000, 4, 170)]);
    let t = set(&t);
    assert!(t.contains(&(170, 0, 171)));
    assert!(t.contains(&(171, 0, 170)));
    assert_eq!(set(&a), set(&[(5000, 4, 170), (5000, 4, 171)]));
}

#[test]
fn rdfs_self_subclass_derives_nothing() {
    let tbox = vec![(100, 0, 101)];
    let abox = vec![(200, 4, 100), (200, 4, 180)];
    let (t1, a1) = rdfspp(&tbox, &abox);
    let mut tbox2 = tbox.clone();
    tbox2.push((180, 0, 180));
    let (t2, a2) = rdfspp(&tbox2, &abox);
    assert_eq!(set(&a1), set(&a2));
    let mut expected = set(&t1);
    expected.insert((180, 0, 180));
    assert_eq!(set(&t2), expected);
}

#[test]
fn rdfs_materialization_is_idempotent() {
    let tbox = vec![(100, 0, 101), (101, 0, 102), (120, 2, 100), (140, 4, 5), (150, 6, 151)];
    let abox = vec![(1, 120, 2), (2, 140, 3), (3, 140, 4), (5, 150, 6)];
    let (t1, a1) = rdfspp(&tbox, &abox);
    let (t2, a2) = rdfspp(&t1, &a1);
    assert_eq!(set(&t1), set(&t2));
    assert_eq!(set(&a1), set(&a2));
}

#[test]
fn rdfs_materialization_is_monotone() {
    let tbox = vec![(100, 0, 101)];
    let abox = vec![(1, 4, 100)];
    let tbox2 = vec![(100, 0, 101), (101, 0, 102)];
    let abox2 = vec![(1, 4, 100), (2, 4, 101)];
    let (t1, a1) = rdfspp(&tbox, &abox);
    let (t2, a2) = rdfspp(&tbox2, &abox2);
    assert!(set(&t1).is_subset(&set(&t2)));
    assert!(set(&a1).is_subset(&set(&a2)));
    assert!(set(&a2).contains(&(1, 4, 102)));
}

#[test]
fn reasoner_retraction_round_trip() {
    let tbox = vec![(100, 0, 101), (120, 2, 100)];
    let kept = vec![(1, 4, 100)];
    let delta = vec![(2, 120, 3), (1, 4, 100)];
    let mut base = Reasoner::new(true, tbox.clone());
    base.insert(&kept);
    let mut r = Reasoner::new(true, tbox);
    r.insert(&kept);
    r.insert(&delta);
    assert!(set(&r.abox_output()).contains(&(2, 4, 101)));
    r.retract(&delta);
    assert_eq!(set(&r.abox_output()), set(&base.abox_output()));
    assert_eq!(set(&r.abox_output()), set(&[(1, 4, 100), (1, 4, 101)]));
    assert_eq!(set(&r.tbox_output()), set(&base.tbox_output()));
}

#[test]
fn reasoner_retracting_absent_triple_changes_nothing() {
    let mut r = Reasoner::new(false, vec![(100, 0, 101)]);
    r.insert(&vec![(1, 4, 100)]);
    r.retract(&vec![(9, 9, 9)]);
    assert_eq!(set(&r.abox_output()), set(&[(1, 4, 100), (1, 4, 101)]));
    r.retract(&vec![(1, 4, 100)]);
    assert!(r.abox_output().is_empty());
}

/// A direct, unoptimized evaluation of the same rules, for comparison.
fn naive(tbox: &[T], abox: &[T]) -> (BTreeSet<T>, BTreeSet<T>) {
    let mut t = set(tbox);
    loop {
        let mut new = t.clone();
        for &(a, p, b) in t.iter() {
            if p == 46 {
                new.insert((a, 0, b));
            }
            for &(c, q, d) in t.iter() {
                if p == 1 && q == 1 && b == c {
                    new.insert((a, 1, d));
                }
                if (p == 0 || p == 46) && (q == 0 || q == 46) && b == c {
                    new.insert((a, 0, d));
                }
            }
        }
        if new == t {
            break;
        }
        t = new;
    }
    let mut a = set(abox);
    loop {
        let mut new = a.clone();
        for &(x, p, y) in a.iter() {
            for &(s, q, o) in t.iter() {
                if p == 4 && s == y && (q == 0 || q == 46) {
                    new.insert((x, 4, o));
                }
                if s == p && q == 1 {
                    new.insert((x, o, y));
                }
                if s == p && q == 2 {
                    new.insert((x, 4, o));
                }
                if s == p && q == 3 {
                    new.insert((y, 4, o));
                }
                if s == p && q == 6 {
                    new.insert((y, o, x));
                }
                if o == p && q == 6 {
                    new.insert((y, s, x));
                }
            }
            if t.contains(&(p, 4, 5)) {
                for &(y2, p2, z) in a.iter() {
                    if p2 == p && y2 == y {
                        new.insert((x, p, z));
                    }
                }
            }
        }
        if new == a {
            break;
        }
        a = new;
    }
    (t, a)
}

#[test]
fn rdfspp_matches_naive_evaluation() {
    let tbox = vec![
        (100, 0, 101),
        (101, 0, 102),
        (102, 46, 103),
        (110, 1, 111),
        (111, 2, 100),
        (111, 3, 101),
        (140, 4, 5),
        (110, 1, 140),
        (150, 6, 140),
    ];
    let abox = vec![(1, 110, 2), (2, 110, 3), (3, 150, 4), (5, 4, 100), (6, 111, 7)];
    let (t, a) = rdfspp(&tbox, &abox);
    let (nt, na) = naive(&tbox, &abox);
    assert_eq!(set(&t), nt);
    assert_eq!(set(&a), na);
}

#[test]
fn efficient_transitivity_one_round() {
    let data = vec![(1, 7, 2), (2, 7, 3), (3, 7, 4), (2, 8, 9)];
    let r = efficient_transitivity(&data);
    assert_eq!(
        set(&r),
        set(&[(1, 7, 2), (2, 7, 3), (3, 7, 4), (2, 8, 9), (1, 7, 3), (2, 7, 4)])
    );
    assert_eq!(r.len(), 6);
}

#[test]
fn inverseof_rule_both_directions() {
    let data = vec![(10, 6, 11), (1, 10, 2), (3, 11, 4)];
    assert_eq!(set(&inverseof_rule(&data)), set(&[(2, 11, 1), (4, 10, 3)]));
}

#[test]
fn trans_property_rule_closes_declared_properties() {
    let data = vec![(10, 4, 5), (1, 10, 2), (2, 10, 3), (3, 10, 4), (1, 11, 2), (2, 11, 3)];
    assert_eq!(
        set(&trans_property_rule(&data)),
        set(&[(1, 10, 2), (2, 10, 3), (3, 10, 4), (1, 10, 3), (2, 10, 4), (1, 10, 4)])
    );
}

#[test]
fn rule_11_and_rule_5_close_hierarchies() {
    let data = vec![(1, 0, 2), (2, 0, 3), (4, 1, 5), (5, 1, 6), (7, 8, 9)];
    assert_eq!(set(&rule_11(&data)), set(&[(1, 0, 2), (2, 0, 3), (1, 0, 3)]));
    assert_eq!(set(&rule_5(&data)), set(&[(4, 1, 5), (5, 1, 6), (4, 1, 6)]));
}

#[test]
fn rdfs_subclass_encodings_chain_together() {
    let tbox = vec![(100, 0, 101), (101, 46, 102)];
    let abox = vec![(200, 4, 100)];
    let (t, a) = rdfs(&tbox, &abox);
    assert_eq!(
        set(&t),
        set(&[(100, 0, 101), (101, 46, 102), (101, 0, 102), (100, 0, 102)])
    );
    assert_eq!(set(&a), set(&[(200, 4, 100), (200, 4, 101), (200, 4, 102)]));
    assert_eq!(set(&rule_11(&tbox)), set(&t));
}
