//! The failures that scanning and parsing can report. All of them are plain
//! values handed back to the caller; the library never aborts on bad input.

use crate::tokenizer::TokenKind;
use vstd::prelude::*;

verus! {

/// Why the scanner could not form a token.
#[derive(Debug, Clone, Copy, PartialEq, Eq, Structural)]
pub enum LexErrorKind {
    /// A run that starts like `true`, `false` or `null` but is not that word.
    UnknownKeyword,
    /// A text literal whose closing quote is missing.
    UnterminatedString,
    /// A numeric literal with more than one decimal point.
    MalformedNumber,
}

/// A lexical anomaly. `position` is the index, counted in characters, of the
/// first character of the lexeme that could not be scanned.
#[derive(Debug, Clone, Copy, PartialEq, Eq, Structural)]
pub struct LexError {
    pub kind: LexErrorKind,
    pub position: usize,
}

/// What the parser required at the place where it stopped.
#[derive(Debug, Clone, Copy, PartialEq, Eq, Structural)]
pub enum Expected {
    /// A text literal naming a member of an object.
    Key,
    /// The separator between a key and its value.
    Colon,
    /// A literal, or the opening bracket of an array or an object.
    Value,
    /// An element separator or the end of the object.
    CommaOrCloseObject,
    /// An element separator or the end of the array.
    CommaOrCloseArray,
}

/// A token of the wrong kind. `position` is the index of the offending token
/// in the token sequence.
#[derive(Debug, Clone, Copy, PartialEq, Eq, Structural)]
pub struct GrammarError {
    pub expected: Expected,
    pub found: TokenKind,
    pub position: usize,
}

/// Every way in which reading a document can fail.
#[derive(Debug, Clone, Copy, PartialEq, Eq, Structural)]
pub enum ParseError {
    /// The text could not be split into tokens.
    LexError(LexError),
    /// The brackets of the token sequence do not balance.
    StructuralError,
    /// A token of an unexpected kind stood where another was required.
    GrammarError(GrammarError),
    /// A token was required where the sequence had already ended.
    UnexpectedEndOfInput,
}

} // verus!
