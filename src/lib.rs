pub mod constants;
pub mod owl2rl;
pub mod triple_set;
pub mod fixpoint;
pub mod rules;
pub mod rdfs_materialization;
pub mod materializations;
pub mod load_encode_triples;
pub mod interning;
pub mod lifecycle;
