//! Front end of a minimal interpreted language: a cursor-driven lexer, a
//! recursive-descent expression/statement parser, and a type-checking pass.
//! Each stage is a pure, single-pass transformation whose result is pinned by
//! a specification function of its input alone.

pub mod checks;
pub mod lexer;
pub mod parser;
pub mod token;
pub mod token_stream;
