use differential_reasoner::load_encode_triples::{load3enc, load3nt, LoadError};
use differential_reasoner::owl2rl::consolidate_stream_aggressively::{
    ConsolidateStreamAggressive, Updates,
};
use differential_reasoner::owl2rl::disjoint_set::DisjointSet;

#[test]
fn load3enc_reads_lines() {
    let text = b"1 2 3\n4 5 6\n";
    assert_eq!(load3enc(text), Ok(vec![(1, 2, 3), (4, 5, 6)]));
}

#[test]
fn load3enc_skips_blank_lines_and_keeps_repeats() {
    let text = b"\n7 8 9\n   \n7 8 9\r\n\t10\t11  12 .\n";
    assert_eq!(load3enc(text), Ok(vec![(7, 8, 9), (7, 8, 9), (10, 11, 12)]));
    assert_eq!(load3enc(b""), Ok(vec![]));
    assert_eq!(load3enc(b"1\x0c2\x0b3\n\x0c\x0b\n"), Ok(vec![(1, 2, 3)]));
    assert_eq!(load3enc(b"0 0 4294967295"), Ok(vec![(0, 0, 4294967295)]));
}

#[test]
fn load3enc_rejects_malformed_lines() {
    assert_eq!(load3enc(b"1 2 3\n1 2\n"), Err(LoadError::MalformedLine(1)));
    assert_eq!(load3enc(b"1 x 3\n"), Err(LoadError::MalformedLine(0)));
    assert_eq!(load3enc(b"\n\n1 2 4294967296\n"), Err(LoadError::MalformedLine(2)));
    assert_eq!(load3enc(b"1 2 -3\n"), Err(LoadError::MalformedLine(0)));
}

#[test]
fn disjoint_set_prefers_reserved_roots() {
    let mut ds = DisjointSet::new(&vec![3, 5, 100, 200]);
    assert_eq!(ds.find(200), 200);
    ds.union(100, 5);
    assert_eq!(ds.find(100), 5);
    ds.union(5, 3);
    assert_eq!(ds.find(5), 3);
    assert_eq!(ds.find(100), 3);
    ds.union(150, 200);
    assert_eq!(ds.find(150), 200);
    assert_eq!(ds.find(200), 200);
    ds.union(200, 100);
    assert_eq!(ds.find(150), 3);
    let r = ds.find(150);
    assert_eq!(ds.find(r), r);
    assert_eq!(ds.find(0), 0);
}

#[test]
fn consolidation_sums_and_drops_zeros() {
    let batch = Updates {
        entries: vec![
            ((1, 2, 3), 0, 1),
            ((1, 2, 3), 0, 2),
            ((1, 2, 3), 1, 1),
            ((4, 5, 6), 0, 1),
            ((4, 5, 6), 0, -1),
            ((7, 8, 9), 2, -3),
        ],
    };
    let mut out = batch.consolidate_stream_aggressively().entries;
    out.sort();
    assert_eq!(out, vec![((1, 2, 3), 0, 3), ((1, 2, 3), 1, 1), ((7, 8, 9), 2, -3)]);
}

#[test]
fn load3nt_splits_statements() {
    let text = b"<a> <b> <c> .\n\n<d>  <e> \"f\" .\n";
    let out = load3nt(text).unwrap();
    assert_eq!(
        out,
        vec![
            (b"<a>".to_vec(), b"<b>".to_vec(), b"<c>".to_vec()),
            (b"<d>".to_vec(), b"<e>".to_vec(), b"\"f\"".to_vec())
        ]
    );
    assert_eq!(load3nt(b"<a> <b>\n"), Err(LoadError::MalformedLine(0)));
}
