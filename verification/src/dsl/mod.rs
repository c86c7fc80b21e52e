//! The rule DSL: expression trees, the expression parser, and the pattern-file
//! AST types.
pub mod expr;
pub mod expr_parser;
pub mod types;
