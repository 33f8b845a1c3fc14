//! An arithmetic expression evaluator over `i64`.
//!
//! A line of text is parsed into a [`ast::Statement`] by
//! [`parser::parse_statement`], which the functions of [`grammar`] specify
//! exactly; the statement is then evaluated by [`eval::eval_statement`]
//! against an [`env::Env`] of variable bindings, as [`eval::eval_spec`]
//! specifies.
//!
//! All values are integers. Every operation yields its exact result when
//! that fits in `i64` and fails otherwise: division rounds toward zero,
//! division and remainder by zero fail, a negative exponent fails, and the
//! built-in functions of [`builtins`] round square roots and logarithms
//! down. Number literals are an optional minus sign and decimal digits.
//!
//! [`laws`] proves properties that relate these pieces: precedence and
//! grouping, failure on a zero divisor or an unbound name, what an
//! assignment binds, case folding of names, and reading back a rendered
//! number.
pub mod arith;
pub mod ast;
pub mod builtins;
pub mod chars;
pub mod env;
pub mod eval;
pub mod grammar;
pub mod laws;
pub mod parser;
