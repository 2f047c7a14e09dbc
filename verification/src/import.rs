//! Datasets from the tables of other formats.
//!
//! CSV, Excel and Parquet files hold named columns; the variable definitions are
//! inferred from them, or come with them.
pub mod excel;
pub mod import_law;
pub mod parquet;
pub mod schema;
