//! A small front end for arithmetic in Polish (prefix) notation: a lexer,
//! a recursive-descent parser, the syntax tree it builds and an evaluator.
pub mod ast;
pub mod eval;
pub mod lexer;
pub mod parser;
pub mod token;
