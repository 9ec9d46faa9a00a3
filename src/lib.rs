//! Lexing, bracket structuring and windowed pattern matching over tokens.

pub mod data;
pub mod matching;
pub mod parsing;
