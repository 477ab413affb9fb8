//! Front end for a dynamically typed, indentation-structured scripting
//! language: a lexer that turns source text into a token sequence with
//! Indent/Dedent markers, and a recursive-descent parser that builds an
//! abstract syntax tree from that sequence.

pub mod ast;
pub mod lexer;
pub mod parser;
pub mod chars;
pub mod lexeme;
