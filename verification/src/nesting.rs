//! Properly nested bracket pairs, as a grammar of their own, and the proof
//! that the scanner and the validator accept every text that is made of
//! such pairs and whitespace.

use crate::error::LexError;
use crate::tokenizer::{lemma_token_at_advances, token_at, tokens_from, tokens_of, Lexeme};
use crate::validator::{balanced, lemma_pair_keeps_stack, open_after, Bracket};
use vstd::prelude::*;

verus! {

/// An arrangement of bracket pairs in which every pair is closed in order:
/// nothing, or a pair around an arrangement, followed by an arrangement.
pub enum Nesting {
    /// No bracket at all.
    Empty,
    /// `{`, then `inner`, then `}`, then `next`.
    Curly { inner: Box<Nesting>, next: Box<Nesting> },
    /// `[`, then `inner`, then `]`, then `next`.
    Square { inner: Box<Nesting>, next: Box<Nesting> },
}

impl Nesting {
    /// The brackets as characters, with nothing between them.
    pub open spec fn text(self) -> Seq<char>
        decreases self,
    {
        match self {
            Nesting::Empty => Seq::empty(),
            Nesting::Curly { inner, next } => seq!['{'] + inner.text() + seq!['}'] + next.text(),
            Nesting::Square { inner, next } => seq!['['] + inner.text() + seq![']'] + next.text(),
        }
    }

    /// The brackets as tokens.
    pub open spec fn tokens(self) -> Seq<Lexeme>
        decreases self,
    {
        match self {
            Nesting::Empty => Seq::empty(),
            Nesting::Curly { inner, next } => seq![Lexeme::LeftCurlyBracket] + inner.tokens()
                + seq![Lexeme::RightCurlyBracket] + next.tokens(),
            Nesting::Square { inner, next } => seq![Lexeme::LeftSquareBracket] + inner.tokens()
                + seq![Lexeme::RightSquareBracket] + next.tokens(),
        }
    }
}

/// A blank, a tab, a line feed or a carriage return.
pub open spec fn is_whitespace(c: char) -> bool {
    c == ' ' || c == '\t' || c == '\n' || c == '\r'
}

/// One of the four bracket characters.
pub open spec fn is_bracket(c: char) -> bool {
    c == '{' || c == '}' || c == '[' || c == ']'
}

/// The token of a bracket character.
pub open spec fn bracket_token(c: char) -> Lexeme {
    if c == '{' {
        Lexeme::LeftCurlyBracket
    } else if c == '}' {
        Lexeme::RightCurlyBracket
    } else if c == '[' {
        Lexeme::LeftSquareBracket
    } else {
        Lexeme::RightSquareBracket
    }
}

/// The characters of `text` from `from` on that are not whitespace.
pub open spec fn visible_from(text: Seq<char>, from: int) -> Seq<char>
    decreases text.len() - from,
{
    if from < 0 || from >= text.len() {
        Seq::empty()
    } else if is_whitespace(text[from]) {
        visible_from(text, from + 1)
    } else {
        seq![text[from]] + visible_from(text, from + 1)
    }
}

/// `text` without its whitespace.
pub open spec fn without_whitespace(text: Seq<char>) -> Seq<char> {
    visible_from(text, 0)
}

/// The tokens of a nesting leave the stack of open brackets as they found
/// it.
pub proof fn lemma_nesting_keeps_stack(nesting: Nesting, stack: Seq<Bracket>)
    ensures
        open_after(stack, nesting.tokens()) == Some(stack),
    decreases nesting,
{
    match nesting {
        Nesting::Empty => {},
        Nesting::Curly { inner, next } => {
            let deeper = stack.push(Bracket::Curly);
            assert(deeper.drop_last() =~= stack);
            lemma_nesting_keeps_stack(*inner, deeper);
            lemma_nesting_keeps_stack(*next, stack);
            lemma_pair_keeps_stack(
                stack,
                Lexeme::LeftCurlyBracket,
                Bracket::Curly,
                Lexeme::RightCurlyBracket,
                inner.tokens(),
                next.tokens(),
            );
        },
        Nesting::Square { inner, next } => {
            let deeper = stack.push(Bracket::Square);
            assert(deeper.drop_last() =~= stack);
            lemma_nesting_keeps_stack(*inner, deeper);
            lemma_nesting_keeps_stack(*next, stack);
            lemma_pair_keeps_stack(
                stack,
                Lexeme::LeftSquareBracket,
                Bracket::Square,
                Lexeme::RightSquareBracket,
                inner.tokens(),
                next.tokens(),
            );
        },
    }
}

/// Every character of `text` is a bracket.
pub open spec fn only_brackets(text: Seq<char>) -> bool {
    forall|i: int| 0 <= i < text.len() ==> is_bracket(#[trigger] text[i])
}

/// The tokens of a text that holds brackets only.
pub open spec fn bracket_tokens(text: Seq<char>) -> Seq<Lexeme> {
    Seq::new(text.len(), |i: int| bracket_token(text[i]))
}

/// The text of a nesting holds brackets only, and their tokens are the
/// tokens of the nesting.
pub proof fn lemma_nesting_text(nesting: Nesting)
    ensures
        only_brackets(nesting.text()),
        bracket_tokens(nesting.text()) == nesting.tokens(),
    decreases nesting,
{
    match nesting {
        Nesting::Empty => {
            assert(bracket_tokens(nesting.text()) =~= nesting.tokens());
        },
        Nesting::Curly { inner, next } => {
            lemma_nesting_text(*inner);
            lemma_nesting_text(*next);
            assert(bracket_tokens(nesting.text()) =~= nesting.tokens());
        },
        Nesting::Square { inner, next } => {
            lemma_nesting_text(*inner);
            lemma_nesting_text(*next);
            assert(bracket_tokens(nesting.text()) =~= nesting.tokens());
        },
    }
}

/// Where all that is visible of `text` from `from` on is brackets, the
/// scanner gives exactly their tokens.
pub proof fn lemma_scan_brackets(text: Seq<char>, from: int)
    requires
        0 <= from <= text.len(),
        only_brackets(visible_from(text, from)),
    ensures
        tokens_from(text, from) == Ok::<Seq<Lexeme>, LexError>(
            bracket_tokens(visible_from(text, from)),
        ),
    decreases text.len() - from,
{
    let visible = visible_from(text, from);
    if from >= text.len() {
        assert(bracket_tokens(visible) =~= Seq::empty());
    } else {
        let c = text[from];
        let rest = visible_from(text, from + 1);
        lemma_token_at_advances(text, from);
        if is_whitespace(c) {
            lemma_scan_brackets(text, from + 1);
        } else {
            assert(visible =~= seq![c] + rest);
            assert(is_bracket(visible[0]));
            assert forall|i: int| 0 <= i < rest.len() implies is_bracket(#[trigger] rest[i]) by {
                assert(rest[i] == visible[i + 1]);
            }
            lemma_scan_brackets(text, from + 1);
            assert(token_at(text, from) == Ok::<(Option<Lexeme>, int), LexError>(
                (Some(bracket_token(c)), from + 1),
            ));
            assert(seq![bracket_token(c)] + bracket_tokens(rest) =~= bracket_tokens(visible));
        }
    }
}

/// A text made only of whitespace and of bracket pairs that are properly
/// nested is split into tokens without error, and its tokens are balanced:
/// `validate` accepts what `tokenize_json` makes of it.
pub proof fn lemma_nested_pairs_are_valid(text: Seq<char>, nesting: Nesting)
    requires
        without_whitespace(text) == nesting.text(),
    ensures
        tokens_of(text) == Ok::<Seq<Lexeme>, LexError>(nesting.tokens()),
        balanced(nesting.tokens()),
{
    lemma_nesting_text(nesting);
    lemma_scan_brackets(text, 0);
    lemma_nesting_keeps_stack(nesting, Seq::empty());
}

} // verus!
