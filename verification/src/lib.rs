//! A lexer and recursive-descent parser for arithmetic expressions.
//!
//! Source text made of decimal literals, the binary operators `+ - * / ^`
//! and parentheses is turned into an abstract syntax tree that encodes
//! operator precedence and associativity.  Every error carries a position
//! in the source, tracked by line and column.

pub mod ast;
pub mod errors;
pub mod laws;
pub mod lexer;
pub mod location;
pub mod parser;
pub mod text;
pub mod tokens;
