//! The errors that can be met while parsing. All are fatal to the parse:
//! the first error aborts it, and no recovery is attempted.

use crate::lexer::cursor::Position;
use crate::token::{TokenKind, TokenKindView};
use vstd::prelude::*;

verus! {

/// A result type for use within the parser.
pub type ParserResult<T> = Result<T, ParserError>;

/// All the possible errors that could be encountered whilst attempting to
/// parse.
#[derive(Debug, PartialEq)]
pub enum ParserError {
    /// The stream was exhausted where a token was required.
    ExpectedTokenToFollow,
    /// One specific token kind was required but another was found; the
    /// required kind and the found token's position stand here.
    ExpectedToken { token: TokenKind, position: Position },
    /// A token that fits nowhere in the current grammar position.
    UnexpectedToken { token: TokenKind, position: Position },
}

/// The mathematical value of a parse error.
pub enum ParserErrorView {
    ExpectedTokenToFollow,
    ExpectedToken { token: TokenKindView, position: Position },
    UnexpectedToken { token: TokenKindView, position: Position },
}

impl View for ParserError {
    type V = ParserErrorView;

    open spec fn view(&self) -> ParserErrorView {
        match self {
            ParserError::ExpectedTokenToFollow => ParserErrorView::ExpectedTokenToFollow,
            ParserError::ExpectedToken { token, position } => ParserErrorView::ExpectedToken {
                token: token@,
                position: *position,
            },
            ParserError::UnexpectedToken { token, position } => ParserErrorView::UnexpectedToken {
                token: token@,
                position: *position,
            },
        }
    }
}

} // verus!
