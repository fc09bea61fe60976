//! A calculator for arithmetic expressions written as text.
//!
//! An expression is scanned into a postfix sequence of tokens, and the
//! postfix sequence is reduced on a stack to the computation it denotes.
//! Numbers are kept as decimal text and the computation as a tree, so that
//! everything here is exact; carrying the tree out in floating point is
//! left to the caller.

pub mod calculation;
pub mod error;
pub mod evaluator;
pub mod expr;
pub mod formula;
pub mod literal;
pub mod operator;
pub mod parser;
pub mod token;
pub mod whitespace;
