//! Front end of a small compiler for a minimal C-like language: a lexer that
//! turns source text into positioned lexemes, a recursive-descent parser that
//! builds a typed AST from them, and a positioned diagnostic model shared by
//! both stages.

pub mod common;
pub mod errors;
pub mod lex;
pub mod parse;
pub mod text;
