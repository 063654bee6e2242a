//! Verified core of a structural diff tool: a greedy differ for syntax trees
//! and a line-based differ for plain text.
pub mod line_parser;
pub mod pairing_laws;
pub mod subtree_counts;
pub mod tree_diff;
pub mod tree_laws;
pub mod tree_model;
pub mod walk_model;
pub mod wrappers;
