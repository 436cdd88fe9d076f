//! The bracket validator: a single pass over the tokens that checks, before
//! any value is built, that the brackets nest and balance.

use crate::tokenizer::{lexemes, Lexeme, Token};
use vstd::prelude::*;

verus! {

/// The kind of an open bracket.
#[derive(Debug, Clone, Copy, PartialEq, Eq, Structural)]
pub enum Bracket {
    /// The bracket that opens an object.
    Curly,
    /// The bracket that opens an array.
    Square,
}

/// The stack of open brackets after `token`, innermost last. An opening
/// bracket is pushed. A closing bracket takes the innermost open bracket
/// off, which must be of its own kind: `None` where it is not, or where no
/// bracket is open. Any other token leaves the stack as it is.
pub open spec fn nest(stack: Seq<Bracket>, token: Lexeme) -> Option<Seq<Bracket>> {
    match token {
        Lexeme::LeftCurlyBracket => Some(stack.push(Bracket::Curly)),
        Lexeme::LeftSquareBracket => Some(stack.push(Bracket::Square)),
        Lexeme::RightCurlyBracket => if stack.len() > 0 && stack.last() == Bracket::Curly {
            Some(stack.drop_last())
        } else {
            None
        },
        Lexeme::RightSquareBracket => if stack.len() > 0 && stack.last() == Bracket::Square {
            Some(stack.drop_last())
        } else {
            None
        },
        _ => Some(stack),
    }
}

/// The open brackets after `tokens`, where `stack` was open before them.
pub open spec fn open_after(stack: Seq<Bracket>, tokens: Seq<Lexeme>) -> Option<Seq<Bracket>>
    decreases tokens.len(),
{
    if tokens.len() == 0 {
        Some(stack)
    } else {
        match open_after(stack, tokens.drop_last()) {
            Some(open) => nest(open, tokens.last()),
            None => None,
        }
    }
}

/// The stack of open brackets after all of `tokens`, innermost last, or
/// `None` where some closing bracket does not match.
pub open spec fn open_brackets(tokens: Seq<Lexeme>) -> Option<Seq<Bracket>> {
    open_after(Seq::empty(), tokens)
}

/// Every closing bracket matches the innermost open bracket, and no bracket
/// is left open at the end.
pub open spec fn balanced(tokens: Seq<Lexeme>) -> bool {
    open_brackets(tokens) == Some(Seq::<Bracket>::empty())
}

/// A mismatch in a prefix is a mismatch in the whole sequence.
pub proof fn lemma_mismatch_stays(tokens: Seq<Lexeme>, n: int)
    requires
        0 <= n <= tokens.len(),
        open_brackets(tokens.take(n)).is_none(),
    ensures
        open_brackets(tokens).is_none(),
    decreases tokens.len() - n,
{
    if n < tokens.len() {
        assert(tokens.take(n + 1).drop_last() =~= tokens.take(n));
        lemma_mismatch_stays(tokens, n + 1);
    } else {
        assert(tokens.take(n) =~= tokens);
    }
}

/// Scanning `first` and then `second` is scanning `first + second`.
pub proof fn lemma_open_after_concat(stack: Seq<Bracket>, first: Seq<Lexeme>, second: Seq<Lexeme>)
    ensures
        open_after(stack, first + second) == match open_after(stack, first) {
            Some(open) => open_after(open, second),
            None => None,
        },
    decreases second.len(),
{
    if second.len() == 0 {
        assert(first + second =~= first);
    } else {
        assert((first + second).drop_last() =~= first + second.drop_last());
        assert((first + second).last() == second.last());
        lemma_open_after_concat(stack, first, second.drop_last());
    }
}

/// An opening bracket, tokens that keep the stack, the closing bracket and
/// more tokens that keep the stack: together they keep the stack.
pub proof fn lemma_pair_keeps_stack(
    stack: Seq<Bracket>,
    open: Lexeme,
    kind: Bracket,
    close: Lexeme,
    inner: Seq<Lexeme>,
    next: Seq<Lexeme>,
)
    requires
        nest(stack, open) == Some(stack.push(kind)),
        nest(stack.push(kind), close) == Some(stack),
        open_after(stack.push(kind), inner) == Some(stack.push(kind)),
        open_after(stack, next) == Some(stack),
    ensures
        open_after(stack, seq![open] + inner + seq![close] + next) == Some(stack),
{
    let a = seq![open];
    let c = seq![close];
    assert(a.drop_last() =~= Seq::<Lexeme>::empty());
    assert(open_after(stack, a) == Some(stack.push(kind))) by {
        assert(open_after(stack, a.drop_last()) == Some(stack));
    }
    lemma_open_after_concat(stack, a, inner);
    assert(c.drop_last() =~= Seq::<Lexeme>::empty());
    assert(open_after(stack.push(kind), c) == Some(stack)) by {
        assert(open_after(stack.push(kind), c.drop_last()) == Some(stack.push(kind)));
    }
    lemma_open_after_concat(stack, a + inner, c);
    lemma_open_after_concat(stack, a + inner + c, next);
}

/// Whether `token` is one of the four brackets.
pub open spec fn is_bracket_token(token: Lexeme) -> bool {
    token == Lexeme::LeftCurlyBracket || token == Lexeme::RightCurlyBracket || token
        == Lexeme::LeftSquareBracket || token == Lexeme::RightSquareBracket
}

/// Tokens without a bracket among them leave the stack as they found it.
pub proof fn lemma_no_bracket_keeps_stack(stack: Seq<Bracket>, tokens: Seq<Lexeme>)
    requires
        forall|i: int| 0 <= i < tokens.len() ==> !is_bracket_token(#[trigger] tokens[i]),
    ensures
        open_after(stack, tokens) == Some(stack),
    decreases tokens.len(),
{
    if tokens.len() > 0 {
        let front = tokens.drop_last();
        assert forall|i: int| 0 <= i < front.len() implies !is_bracket_token(
            #[trigger] front[i],
        ) by {
            assert(front[i] == tokens[i]);
        }
        lemma_no_bracket_keeps_stack(stack, front);
        assert(!is_bracket_token(tokens[tokens.len() - 1]));
    }
}

/// A closing bracket that meets an open bracket of the other kind makes the
/// sequence invalid: where the innermost bracket open after the first `at`
/// tokens is square and token `at` closes an object, or the innermost is
/// curly and token `at` closes an array, the tokens are not balanced,
/// whatever follows.
pub proof fn lemma_crossed_brackets_are_invalid(tokens: Seq<Lexeme>, at: int)
    requires
        0 <= at < tokens.len(),
        open_brackets(tokens.take(at)) matches Some(stack) && stack.len() > 0 && ({
            ||| tokens[at] == Lexeme::RightCurlyBracket && stack.last() == Bracket::Square
            ||| tokens[at] == Lexeme::RightSquareBracket && stack.last() == Bracket::Curly
        }),
    ensures
        !balanced(tokens),
{
    assert(tokens.take(at + 1).drop_last() =~= tokens.take(at));
    lemma_mismatch_stays(tokens, at + 1);
}

/// Checks that the brackets of `tokens` nest and balance: each closing
/// bracket must close the innermost open bracket, which must be of its own
/// kind, and at the end no bracket may be left open. The scan stops at the
/// first closing bracket that does not match.
pub fn validate(tokens: &Vec<Token>) -> (valid: bool)
    ensures
        valid == balanced(lexemes(tokens@)),
{
    let ghost all = lexemes(tokens@);
    let mut stack: Vec<Bracket> = Vec::new();
    let mut i: usize = 0;
    assert(all.take(0) =~= Seq::empty());
    while i < tokens.len()
        invariant
            i <= tokens@.len(),
            all == lexemes(tokens@),
            open_brackets(all.take(i as int)) == Some(stack@),
        decreases tokens@.len() - i,
    {
        assert(all.take(i + 1).drop_last() =~= all.take(i as int));
        assert(all.take(i + 1).last() == tokens@[i as int]@);
        let matched = match &tokens[i] {
            Token::LeftCurlyBracket => {
                stack.push(Bracket::Curly);
                true
            },
            Token::LeftSquareBracket => {
                stack.push(Bracket::Square);
                true
            },
            Token::RightCurlyBracket => match stack.pop() {
                Some(Bracket::Curly) => true,
                _ => false,
            },
            Token::RightSquareBracket => match stack.pop() {
                Some(Bracket::Square) => true,
                _ => false,
            },
            _ => true,
        };
        if !matched {
            proof {
                lemma_mismatch_stays(all, i + 1);
            }
            return false;
        }
        i += 1;
    }
    assert(all.take(i as int) =~= all);
    assert(stack@.len() == 0 ==> stack@ =~= Seq::<Bracket>::empty());
    stack.len() == 0
}

} // verus!
