pub mod build_dataflow;
pub mod class_rules;
pub mod consolidate_stream_aggressively;
pub mod disjoint_set;
pub mod property_rules;
