//! A small literal language: a recursive-descent parser into an expression
//! tree, and structural type inference with canonical union types.
pub mod types;
pub mod value;
pub mod expr;
pub mod grammar;
pub mod parser;
pub mod laws;

pub use expr::Expr;
pub use grammar::{Expected, ParseError};
pub use parser::Parser;
pub use types::Type;
pub use value::{Value, ValueMap};
