//! A parametric, context-sensitive, stochastic L-system engine: rule-file
//! lexing and parsing, arithmetic and boolean expressions, parametric symbol
//! strings, bracket-aware context matching and the rewriting scheduler.
//!
//! Numbers are fixed-point decimals: an `i64` counts millionths, and the
//! arithmetic saturates at the bounds of `i64`.

pub mod num;
pub mod text;
pub mod lexer;
pub mod names;
pub mod arith;
pub mod bool_exp;
pub mod symbol;
pub mod symbolstring;
pub mod pattern;
pub mod iter_ctx;
pub mod iterate;
pub mod ast;
pub mod parse_rules;
pub mod ast_to_arith;
pub mod ast_to_boolexp;
pub mod mesh;
pub mod shapes;
pub mod grammar;
pub mod literal;
