//! A small untyped lambda-calculus evaluator.
//!
//! Expressions (`ast::Expr`) are reduced to values (`interpreter::Value`)
//! by repeated beta-reduction under an environment (`interpreter::Env`).
//! The crate also holds a capture-avoiding substitution engine, an
//! alpha-normalizer, a tokenizer, a recursive-descent parser for the
//! surface grammar, and a pretty-printer.

pub mod ast;
pub mod interpreter;
pub mod laws;
pub mod normalize;
pub mod parser;
pub mod pretty;
pub mod subst;
pub mod tokenizer;
pub mod text;
