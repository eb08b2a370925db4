//! An interpreter for a small number-oriented expression language: a lexer,
//! a recursive-descent parser, a pretty-printer and a tree-walking evaluator.
pub mod lexer;
pub mod parser;
pub mod format;
pub mod value;
pub mod eval;
pub mod round_trip;
