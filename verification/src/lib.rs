//! A two-stage JSON reader. A lexical scanner turns a text into tokens, a
//! validator checks that the brackets of the tokens balance, and a
//! recursive-descent parser builds a tree of values from them. Bad input is
//! answered with an error value, never with a panic.
//!
//! Every function is verified against a mathematical model: a text is a
//! sequence of characters, a token a [`tokenizer::Lexeme`], a value a
//! [`value::JsonModel`], and the scanner, the validator and the grammar are
//! functions on these.
//!
//! - [`tokenizer`]: tokens and the scanner.
//! - [`validator`]: the bracket validator.
//! - [`parser`]: the cursor, the grammar and the parser.
//! - [`value`]: values, objects and their equality.
//! - [`number`]: the step from the text of a number to an integer.
//! - [`error`]: what scanning and parsing can report.
//! - [`nesting`], [`flat_object`], [`written`], [`truncation`],
//!   [`equality`]: theorems about the above.

pub mod equality;
pub mod error;
pub mod flat_object;
pub mod nesting;
pub mod number;
pub mod parser;
pub mod tokenizer;
pub mod truncation;
pub mod validator;
pub mod value;
pub mod written;

pub use error::{Expected, GrammarError, LexError, LexErrorKind, ParseError};
pub use parser::{
    get_next_token, parse, parse_list, parse_object, parse_tokens, parse_value, TokenCursor,
};
pub use tokenizer::{tokenize_json, Token, TokenKind};
pub use validator::{validate, Bracket};
pub use value::{JsonObject, JsonValue};
