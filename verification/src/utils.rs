pub mod bp_tree;
pub mod cache;
