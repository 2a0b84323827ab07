//! Longest common subsequence of two token sequences, and a diff built on it.
pub mod diff;
pub mod lcs_table;

pub use diff::split_common_parts;
pub use lcs_table::{LcsEntry, LcsIter, LcsTable, Step};
