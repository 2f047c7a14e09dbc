//! Data transformations.
//!
//! SELECT IF, SORT CASES, AGGREGATE, MATCH FILES / ADD FILES, RESHAPE.
pub mod aggregate;
pub mod aggregate_law;
pub mod files;
pub mod join;
pub mod law;
pub mod merge_law;
pub mod long;
pub mod long_law;
pub mod reshape_law;
pub mod rows;
pub mod select;
pub mod sort;
pub mod sort_law;
pub mod wide;
pub mod wide_law;
