//! OxStat: statistical analysis of tabular data, verified.
//!
//! A [`dataset::Dataset`] holds variable definitions and columns of data. It is read
//! from and written to SPSS `.sav` files ([`sav`]), or made of the tables of other
//! formats ([`import`]). Expressions ([`expr`]) are parsed and evaluated in its rows,
//! transformations ([`transform`]) make new datasets of it, and procedures
//! ([`descriptives`]) describe it in tables that are rendered as text ([`output`]).
//!
//! Doubles are kept as bit patterns ([`number`]). What is exact on them is computed
//! here; rounded arithmetic and decimal text come from functions that the caller
//! hands in ([`arith`]), and the contracts speak of those functions by their results.
pub mod arith;
pub mod arith_law;
pub mod batch;
pub mod dataset;
pub mod dataset_law;
pub mod descriptives;
pub mod descriptives_law;
pub mod expr;
pub mod import;
pub mod number;
pub mod number_law;
pub mod output;
pub mod output_law;
pub mod sav;
pub mod text;
pub mod text_law;
pub mod text_order;
pub mod transform;
pub mod value;
pub mod variable;
