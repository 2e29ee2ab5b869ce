//! The errors that the lexer and the parser report.

use vstd::prelude::*;

verus! {

/// What the lexer found wrong with the source text.
#[derive(Debug, PartialEq, Eq, Clone, Copy)]
pub enum LexErrorKind {
    /// A character that starts no token.
    UnexpectedChar(char),
    /// A `p` that is not followed by `i`.
    IncompletePi,
    /// A `.` with no digit on either side.
    LoneDot,
}

/// An error from the lexer or the parser.
#[derive(Debug, PartialEq, Eq, Clone, Copy)]
pub enum ParserError {
    /// The lexer rejected the source text.
    Tokenize(LexErrorKind),
    /// A closing parenthesis had no matching opening parenthesis.
    MismatchedParenthesis,
    /// More than one expression was left when the input ran out.
    TooMuchOperands,
    /// An operator was applied with too few operands, or the input
    /// produced no expression at all.
    NotEnoughOperands,
}

} // verus!
