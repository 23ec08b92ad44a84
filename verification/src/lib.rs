//! Front end of a small scripting language: a lexer from text to tokens and a
//! recursive-descent parser from tokens to statements.

pub mod driver;
pub mod grammar;
pub mod lexemes;
pub mod lexer;
pub mod parser;
pub mod text;
