//! Expression parser and evaluator.
//!
//! Handles COMPUTE, IF, RECODE expression parsing and evaluation.
pub mod ast;
pub mod bracket_law;
pub mod builtin;
pub mod date;
pub mod eval;
pub mod function_law;
pub mod law;
pub mod operator_law;
pub mod parse;
pub mod precedence_law;
pub mod text_function_law;
pub mod time_function_law;

pub use ast::{BinaryOp, Expr, UnaryOp};

pub use parse::parse;
