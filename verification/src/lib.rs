//! An interpreter for the Monkey language: a byte-level lexer, a Pratt parser
//! and a tree-walking evaluator, each specified by spec functions and proved
//! to follow them.

pub mod ast;
pub mod text;
pub mod token;
pub mod environment;
pub mod evaluator;
pub mod lexer;
pub mod literals;
pub mod object;
pub mod parser;
pub mod repl;
