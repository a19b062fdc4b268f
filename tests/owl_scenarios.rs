use std::collections::BTreeSet;

use differential_reasoner::owl2rl::build_dataflow::{
    canonical_classes, canonical_properties, digest_tbox, lists, objects, OwlReasoner,
};
use differential_reasoner::owl2rl::class_rules::{
    cls_avf, cls_hv1, cls_hv2, cls_int1, cls_int2, cls_maxc2, cls_maxqc3, cls_oo, cls_svf1,
    cls_svf2, cls_uni,
};
use differential_reasoner::owl2rl::property_rules::{
    prp_dom, prp_fp, prp_ifp, prp_inv1, prp_inv2, prp_key, prp_rng, prp_spo1, prp_spo2, prp_symp,
    prp_trp,
};

type T = (u32, u32, u32);

fn set(v: &[T]) -> BTreeSet<T> {
    v.iter().cloned().collect()
}

fn with(base: &[T], extra: &[T]) -> BTreeSet<T> {
    let mut s = set(base);
    s.extend(extra.iter().cloned());
    s
}

#[test]
fn owl_equivalence_cycle() {
    let tbox = vec![(160, 0, 161), (161, 0, 160)];
    let abox = vec![(210, 4, 160)];
    let out = set(&digest_tbox(&tbox, &abox));
    assert!(out.contains(&(210, 4, 160)));
    assert!(out.contains(&(210, 4, 161)));
    assert_eq!(out.len(), 2);
}

#[test]
fn owl_cycle_has_one_representative() {
    let tbox = vec![(160, 0, 161), (161, 0, 160), (162, 0, 160)];
    let (edges, mut canon) = canonical_classes(&tbox);
    assert_eq!(canon.find(160), canon.find(161));
    assert_ne!(canon.find(160), canon.find(162));
    assert!(set(&edges).contains(&(162, 0, 161)));
}

#[test]
fn owl_equivalent_class_with_reserved_id_keeps_reserved_root() {
    let tbox = vec![(300, 13, 7)];
    let (_, mut canon) = canonical_classes(&tbox);
    assert_eq!(canon.find(300), 7);
    assert_eq!(canon.find(7), 7);
}

#[test]
fn owl_equivalent_properties_share_representative() {
    let tbox = vec![(400, 16, 401), (402, 1, 400)];
    let (edges, mut canon) = canonical_properties(&tbox);
    assert_eq!(canon.find(400), canon.find(401));
    assert_ne!(canon.find(402), canon.find(400));
    assert!(set(&edges).contains(&(402, 1, 401)));
}

#[test]
fn owl_equivalent_classes_have_same_members() {
    let tbox = vec![(500, 13, 501), (502, 0, 500)];
    let abox = vec![(1, 4, 501), (2, 4, 502)];
    let out = set(&digest_tbox(&tbox, &abox));
    for x in [1, 2] {
        assert_eq!(out.contains(&(x, 4, 500)), out.contains(&(x, 4, 501)));
        assert!(out.contains(&(x, 4, 500)));
    }
}

#[test]
fn owl_functional_property() {
    let tbox = vec![(600, 4, 28)];
    let abox = vec![(1, 600, 2), (1, 600, 3)];
    let out = set(&digest_tbox(&tbox, &abox));
    assert!(out.contains(&(2, 45, 3)));
    assert!(out.contains(&(3, 45, 2)));
}

#[test]
fn owl_symmetric_and_transitive() {
    let tbox = vec![(600, 4, 41), (601, 4, 5)];
    let abox = vec![(1, 600, 2), (3, 601, 4), (4, 601, 5)];
    let out = set(&digest_tbox(&tbox, &abox));
    assert_eq!(
        out,
        with(&abox, &[(2, 600, 1), (3, 601, 5)])
    );
}

#[test]
fn owl_some_values_from() {
    let tbox = vec![(700, 12, 701), (700, 17, 702)];
    let abox = vec![(1, 702, 2), (2, 4, 701), (3, 702, 4)];
    let out = set(&digest_tbox(&tbox, &abox));
    assert_eq!(out, with(&abox, &[(1, 4, 700)]));
}

#[test]
fn owl_some_values_from_thing() {
    let tbox = vec![(700, 12, 7), (700, 17, 702)];
    let abox = vec![(1, 702, 2)];
    let out = set(&digest_tbox(&tbox, &abox));
    assert_eq!(out, with(&abox, &[(1, 4, 700)]));
}

#[test]
fn owl_all_values_from() {
    let tbox = vec![(700, 24, 701), (700, 17, 702)];
    let abox = vec![(1, 4, 700), (1, 702, 2), (3, 702, 4)];
    let out = set(&digest_tbox(&tbox, &abox));
    assert_eq!(out, with(&abox, &[(2, 4, 701)]));
}

#[test]
fn owl_intersection_and_union_lists() {
    // 800 = intersectionOf (801 802); 803 = unionOf (804)
    let tbox = vec![
        (800, 14, 900),
        (900, 10, 801),
        (900, 9, 901),
        (901, 10, 802),
        (901, 9, 31),
        (803, 21, 902),
        (902, 10, 804),
        (902, 9, 31),
    ];
    let abox = vec![(1, 4, 801), (1, 4, 802), (2, 4, 801), (3, 4, 804), (4, 4, 800)];
    let out = set(&digest_tbox(&tbox, &abox));
    assert!(out.contains(&(1, 4, 800)));
    assert!(!out.contains(&(2, 4, 800)));
    assert!(out.contains(&(3, 4, 803)));
    assert!(out.contains(&(4, 4, 801)));
    assert!(out.contains(&(4, 4, 802)));
}

#[test]
fn owl_property_chain() {
    // 810 = chain (811 812)
    let tbox = vec![(810, 18, 910), (910, 10, 811), (910, 9, 911), (911, 10, 812), (911, 9, 31)];
    let abox = vec![(1, 811, 2), (2, 812, 3), (4, 811, 5)];
    let out = set(&digest_tbox(&tbox, &abox));
    assert_eq!(out, with(&abox, &[(1, 810, 3)]));
}

#[test]
fn owl_has_key_and_max_qualified_cardinality() {
    let tbox = vec![
        (820, 23, 920),
        (920, 10, 821),
        (920, 9, 31),
        (830, 11, 33),
        (830, 17, 831),
        (830, 26, 832),
    ];
    let abox = vec![
        (1, 4, 820),
        (2, 4, 820),
        (1, 821, 9),
        (2, 821, 9),
        (5, 4, 830),
        (5, 831, 6),
        (5, 831, 7),
        (6, 4, 832),
        (7, 4, 832),
    ];
    let out = set(&digest_tbox(&tbox, &abox));
    assert!(out.contains(&(1, 45, 2)));
    assert!(out.contains(&(6, 45, 7)));
}

#[test]
fn owl_inverse_domain_range_subproperty() {
    let tbox = vec![(840, 6, 841), (842, 2, 850), (842, 3, 851), (843, 1, 842), (844, 16, 843)];
    let abox = vec![(1, 840, 2), (3, 844, 4)];
    let out = set(&digest_tbox(&tbox, &abox));
    assert!(out.contains(&(2, 841, 1)));
    assert!(out.contains(&(3, 843, 4)));
    assert!(out.contains(&(3, 842, 4)));
    assert!(out.contains(&(3, 4, 850)));
    assert!(out.contains(&(4, 4, 851)));
}

#[test]
fn owl_malformed_list_does_not_fire() {
    // the list at 900 has no rest link
    let tbox = vec![(800, 14, 900), (900, 10, 801)];
    let abox = vec![(1, 4, 801)];
    let out = set(&digest_tbox(&tbox, &abox));
    assert_eq!(out, set(&abox));
    assert!(lists(&tbox, 900).is_empty());
}

#[test]
fn owl_list_and_lookup() {
    let tbox = vec![(900, 10, 1), (900, 9, 901), (901, 10, 2), (901, 9, 31), (5, 17, 6), (5, 17, 7)];
    assert_eq!(lists(&tbox, 900), vec![vec![1, 2]]);
    assert_eq!(lists(&tbox, 31), vec![Vec::<u32>::new()]);
    assert_eq!(objects(&tbox, 5, 17), vec![6, 7]);
    assert!(objects(&tbox, 5, 18).is_empty());
    let cyclic = vec![(900, 10, 1), (900, 9, 900)];
    assert!(lists(&cyclic, 900).is_empty());
    let branching = vec![(900, 10, 1), (900, 10, 3), (900, 9, 31)];
    let mut both = lists(&branching, 900);
    both.sort();
    assert_eq!(both, vec![vec![1], vec![3]]);
}

#[test]
fn owl_second_list_head_keeps_conclusions() {
    let small = vec![(800, 14, 900), (900, 10, 801), (900, 9, 31)];
    let large = vec![(900, 10, 802), (800, 14, 900), (900, 10, 801), (900, 9, 31)];
    let abox = vec![(1, 4, 801)];
    let a = set(&digest_tbox(&small, &abox));
    let b = set(&digest_tbox(&large, &abox));
    assert!(a.contains(&(1, 4, 800)));
    assert!(a.is_subset(&b));
}

#[test]
fn property_rule_gadgets() {
    let d = vec![(1, 10, 2), (1, 10, 3), (4, 10, 3), (2, 10, 5), (1, 4, 20), (4, 4, 20)];
    assert_eq!(set(&prp_dom(&d, 10, 20)), set(&[(1, 4, 20), (4, 4, 20), (2, 4, 20)]));
    assert_eq!(set(&prp_rng(&d, 10, 21)), set(&[(2, 4, 21), (3, 4, 21), (5, 4, 21)]));
    let fp = set(&prp_fp(&d, 10));
    assert!(fp.contains(&(2, 45, 3)) && fp.contains(&(3, 45, 2)));
    let ifp = set(&prp_ifp(&d, 10));
    assert!(ifp.contains(&(1, 45, 4)) && ifp.contains(&(4, 45, 1)));
    assert_eq!(set(&prp_symp(&vec![(1, 10, 2)], 10)), set(&[(2, 10, 1)]));
    assert_eq!(set(&prp_trp(&d, 10)), set(&[(1, 10, 5)]));
    assert_eq!(set(&prp_spo1(&vec![(1, 10, 2)], 10, 11)), set(&[(1, 11, 2)]));
    assert_eq!(set(&prp_inv1(&vec![(1, 10, 2)], 10, 11)), set(&[(2, 11, 1)]));
    assert_eq!(set(&prp_inv2(&vec![(1, 11, 2)], 10, 11)), set(&[(2, 10, 1)]));
    let chain = vec![(1, 10, 2), (2, 11, 3), (3, 12, 4), (2, 12, 9)];
    assert_eq!(set(&prp_spo2(&chain, &vec![10, 11, 12], 13)), set(&[(1, 13, 4)]));
    assert!(prp_spo2(&chain, &vec![], 13).is_empty());
    assert_eq!(set(&prp_key(&d, 20, &vec![10])), set(&[(1, 45, 4)]));
    assert!(prp_key(&d, 20, &vec![]).is_empty());
}

#[test]
fn class_rule_gadgets() {
    let d = vec![(1, 4, 30), (1, 4, 31), (2, 4, 30), (3, 10, 1), (3, 10, 2), (3, 4, 32)];
    assert_eq!(set(&cls_int1(&d, &vec![30, 31], 33)), set(&[(1, 4, 33)]));
    assert_eq!(set(&cls_int2(&d, &vec![40, 41], 31)), set(&[(1, 4, 40), (1, 4, 41)]));
    assert_eq!(set(&cls_uni(&d, &vec![31, 32], 42)), set(&[(1, 4, 42), (3, 4, 42)]));
    assert_eq!(set(&cls_svf1(&d, 50, 10, 31)), set(&[(3, 4, 50)]));
    assert_eq!(set(&cls_svf2(&d, 50, 10)), set(&[(3, 4, 50)]));
    assert_eq!(set(&cls_avf(&d, 32, 10, 51)), set(&[(1, 4, 51), (2, 4, 51)]));
    assert_eq!(set(&cls_hv1(&d, 32, 11, 99)), set(&[(3, 11, 99)]));
    assert_eq!(set(&cls_hv2(&d, 52, 10, &vec![2])), set(&[(3, 4, 52)]));
    assert_eq!(set(&cls_hv2(&d, 52, 10, &vec![7, 1, 7])), set(&[(3, 4, 52)]));
    assert!(cls_hv2(&d, 52, 10, &vec![]).is_empty());
    assert_eq!(set(&cls_maxc2(&d, 32, 10)), set(&[(1, 45, 2)]));
    assert_eq!(set(&cls_maxqc3(&d, 32, 10, 30)), set(&[(1, 45, 2)]));
    assert!(cls_maxqc3(&d, 32, 10, 31).is_empty());
    assert_eq!(set(&cls_oo(&vec![7, 8, 7], 60)), set(&[(7, 4, 60), (8, 4, 60)]));
}

#[test]
fn owl_materialization_is_idempotent_and_monotone() {
    let tbox = vec![(600, 4, 5), (601, 2, 700), (700, 0, 701), (602, 1, 601)];
    let abox = vec![(1, 600, 2), (2, 600, 3), (4, 602, 5)];
    let out = digest_tbox(&tbox, &abox);
    let again = digest_tbox(&tbox, &out);
    assert_eq!(set(&out), set(&again));
    let mut more = abox.clone();
    more.push((3, 600, 9));
    let bigger = set(&digest_tbox(&tbox, &more));
    assert!(set(&out).is_subset(&bigger));
    assert!(bigger.contains(&(1, 600, 9)));
    assert!(set(&out).contains(&(4, 4, 701)));
}

#[test]
fn owl_empty_abox_derives_nothing() {
    let tbox = vec![(600, 4, 5), (601, 2, 700), (700, 0, 701)];
    assert!(digest_tbox(&tbox, &vec![]).is_empty());
}

#[test]
fn owl_key_over_two_properties() {
    // 820 hasKey (821 822)
    let tbox = vec![
        (820, 23, 920),
        (920, 10, 821),
        (920, 9, 921),
        (921, 10, 822),
        (921, 9, 31),
    ];
    let abox = vec![
        (1, 4, 820),
        (2, 4, 820),
        (3, 4, 820),
        (1, 821, 9),
        (2, 821, 9),
        (3, 821, 9),
        (1, 822, 7),
        (2, 822, 7),
        (3, 822, 8),
    ];
    let out = set(&digest_tbox(&tbox, &abox));
    assert!(out.contains(&(1, 45, 2)));
    assert!(!out.contains(&(1, 45, 3)));
    assert!(!out.contains(&(2, 45, 3)));
    let d = abox.clone();
    assert_eq!(set(&prp_key(&d, 820, &vec![821, 822])), set(&[(1, 45, 2)]));
}

#[test]
fn owl_every_on_property_counts() {
    let small = vec![(100, 12, 101), (100, 17, 102)];
    let large = vec![(100, 17, 103), (100, 12, 101), (100, 17, 102)];
    let abox = vec![(200, 102, 201), (201, 4, 101), (300, 103, 301), (301, 4, 101)];
    let a = set(&digest_tbox(&small, &abox));
    let b = set(&digest_tbox(&large, &abox));
    assert!(a.contains(&(200, 4, 100)));
    assert!(a.is_subset(&b));
    assert!(b.contains(&(300, 4, 100)));
}

#[test]
fn owl_reasoner_batches_and_retractions() {
    let tbox = vec![(160, 0, 161), (161, 0, 160), (600, 4, 5)];
    let mut r = OwlReasoner::new(tbox.clone());
    assert!(r.insert(&vec![(210, 4, 160)]));
    assert!(r.insert(&vec![(1, 600, 2), (2, 600, 3)]));
    let all = set(&r.output_triples());
    assert!(all.contains(&(210, 4, 161)));
    assert!(all.contains(&(1, 600, 3)));
    assert!(r.retract(&vec![(2, 600, 3)]));
    assert_eq!(
        set(&r.output_triples()),
        set(&digest_tbox(&tbox, &vec![(210, 4, 160), (1, 600, 2)]))
    );
    assert!(r.close());
    assert!(!r.insert(&vec![(9, 600, 9)]));
}
