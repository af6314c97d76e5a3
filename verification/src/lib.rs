//! Front end of an interpreter for a small esoteric language: a lexer that
//! turns source text into a token stream, a cursor over token slices, and a
//! grammar parser that groups tokens into words and newline-delimited
//! sentences.

pub mod ast;
pub mod lexer;
pub mod parser;
pub mod render;
pub mod token;
pub mod token_stream;
