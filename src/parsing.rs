//! From source text to tokens and bracket trees.

pub mod bracketer;
pub mod lexer;
pub mod parser;
