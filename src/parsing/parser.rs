//! Structuring of a complete token vector, as the entry point of a grammar-aware parser.

use vstd::prelude::*;
use crate::data::{Bracket, BracketView, Lexeme, bracket_views, lexeme_views};
use crate::parsing::bracketer::{BracketError, bracket, bracket_spec};

verus! {

/// A node of the parsed tree.
pub type Ast = Bracket;

/// Why a token vector could not be parsed.
pub type ParseError = BracketError;

/// Nests the bracket tokens of a token vector into a tree.
pub fn parse(input: Vec<Lexeme>) -> (r: Result<Vec<Ast>, ParseError>)
    ensures
        match r {
            Ok(v) => bracket_spec(lexeme_views(input@)) == Ok::<Seq<BracketView>, BracketError>(
                bracket_views(v@),
            ),
            Err(e) => bracket_spec(lexeme_views(input@)) == Err::<Seq<BracketView>, BracketError>(e),
        },
{
    bracket(input)
}

} // verus!
