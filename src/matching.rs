//! Pattern engines over token and bracket sequences.

pub mod bracket;
pub mod lexeme;
