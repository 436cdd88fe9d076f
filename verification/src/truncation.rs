//! What the validator buys the parser: once the brackets balance, the
//! parser never runs out of tokens in the middle of a value.

use crate::error::ParseError;
use crate::parser::{array_at, array_elements, document, object_at, object_members, value_at};
use crate::tokenizer::Lexeme;
use crate::validator::{
    balanced, lemma_open_after_concat, nest, open_after, open_brackets, Bracket,
};
use crate::value::{upsert, JsonModel, Members};
use vstd::prelude::*;

verus! {

/// After `tokens`, all of `stack` is still open: either some closing
/// bracket does not match, or `stack` is the bottom of what is open.
pub open spec fn stays_open(stack: Seq<Bracket>, tokens: Seq<Lexeme>) -> bool {
    match open_after(stack, tokens) {
        Some(after) => stack.is_prefix_of(after),
        None => true,
    }
}

/// The stack after a single token.
pub proof fn lemma_open_after_one(stack: Seq<Bracket>, token: Lexeme)
    ensures
        open_after(stack, seq![token]) == nest(stack, token),
{
    assert(seq![token].drop_last() =~= Seq::<Lexeme>::empty());
    assert(open_after(stack, seq![token].drop_last()) == Some(stack));
}

/// A value that is read leaves the stack as it was. A value that runs out
/// of tokens leaves all of the stack open.
pub proof fn lemma_value_brackets(tokens: Seq<Lexeme>, position: int, stack: Seq<Bracket>)
    requires
        0 <= position <= tokens.len(),
    ensures
        value_at(tokens, position) matches Ok((_, taken)) ==> position + taken <= tokens.len()
            && open_after(stack, tokens.subrange(position, position + taken)) == Some(stack),
        value_at(tokens, position) == Err::<(JsonModel, nat), ParseError>(
            ParseError::UnexpectedEndOfInput,
        ) ==> stays_open(stack, tokens.subrange(position, tokens.len() as int)),
    decreases tokens.len() - position, 0nat,
{
    let end = tokens.len() as int;
    if position >= tokens.len() {
        assert(tokens.subrange(position, end) =~= Seq::<Lexeme>::empty());
    } else {
        let first = seq![tokens[position]];
        lemma_open_after_one(stack, tokens[position]);
        match tokens[position] {
            Lexeme::LeftSquareBracket => {
                lemma_array_brackets(tokens, position + 1, Seq::empty(), stack);
                match array_at(tokens, position + 1, Seq::empty()) {
                    Ok((_, taken)) => {
                        let rest = tokens.subrange(position + 1, position + 1 + taken);
                        assert(tokens.subrange(position, position + 1 + taken) =~= first + rest);
                        lemma_open_after_concat(stack, first, rest);
                    },
                    Err(_) => {
                        let rest = tokens.subrange(position + 1, end);
                        assert(tokens.subrange(position, end) =~= first + rest);
                        lemma_open_after_concat(stack, first, rest);
                    },
                }
            },
            Lexeme::LeftCurlyBracket => {
                lemma_object_brackets(tokens, position + 1, Seq::empty(), stack);
                match object_at(tokens, position + 1, Seq::empty()) {
                    Ok((_, taken)) => {
                        let rest = tokens.subrange(position + 1, position + 1 + taken);
                        assert(tokens.subrange(position, position + 1 + taken) =~= first + rest);
                        lemma_open_after_concat(stack, first, rest);
                    },
                    Err(_) => {
                        let rest = tokens.subrange(position + 1, end);
                        assert(tokens.subrange(position, end) =~= first + rest);
                        lemma_open_after_concat(stack, first, rest);
                    },
                }
            },
            _ => {
                assert(tokens.subrange(position, position + 1) =~= first);
            },
        }
    }
}

/// The rest of an array that is read closes the array and nothing else.
/// One that runs out of tokens leaves the array and all below it open.
pub proof fn lemma_array_brackets(
    tokens: Seq<Lexeme>,
    position: int,
    items: Seq<JsonModel>,
    stack: Seq<Bracket>,
)
    requires
        0 <= position <= tokens.len(),
    ensures
        array_at(tokens, position, items) matches Ok((_, taken)) ==> position + taken
            <= tokens.len() && open_after(
            stack.push(Bracket::Square),
            tokens.subrange(position, position + taken),
        ) == Some(stack),
        array_at(tokens, position, items) == Err::<(Seq<JsonModel>, nat), ParseError>(
            ParseError::UnexpectedEndOfInput,
        ) ==> stays_open(
            stack.push(Bracket::Square),
            tokens.subrange(position, tokens.len() as int),
        ),
        array_elements(tokens, position, items) matches Ok((_, taken)) ==> position + taken
            <= tokens.len() && open_after(
            stack.push(Bracket::Square),
            tokens.subrange(position, position + taken),
        ) == Some(stack),
        array_elements(tokens, position, items) == Err::<(Seq<JsonModel>, nat), ParseError>(
            ParseError::UnexpectedEndOfInput,
        ) ==> stays_open(
            stack.push(Bracket::Square),
            tokens.subrange(position, tokens.len() as int),
        ),
    decreases tokens.len() - position, 1nat,
{
    let end = tokens.len() as int;
    let inside = stack.push(Bracket::Square);
    assert(inside.drop_last() =~= stack);
    if position >= tokens.len() {
        assert(tokens.subrange(position, end) =~= Seq::<Lexeme>::empty());
    } else {
        if tokens[position] == Lexeme::RightSquareBracket {
            lemma_open_after_one(inside, tokens[position]);
            assert(tokens.subrange(position, position + 1) =~= seq![tokens[position]]);
        }
        lemma_value_brackets(tokens, position, inside);
        match value_at(tokens, position) {
            Ok((value, taken)) => {
                let after = position + taken;
                let element = tokens.subrange(position, after);
                if after >= tokens.len() {
                    assert(tokens.subrange(position, end) =~= element);
                } else {
                    let separator = seq![tokens[after]];
                    lemma_open_after_one(inside, tokens[after]);
                    lemma_open_after_concat(inside, element, separator);
                    assert(tokens.subrange(position, after + 1) =~= element + separator);
                    if tokens[after] == Lexeme::Comma {
                        lemma_array_brackets(tokens, after + 1, items.push(value), stack);
                        match array_elements(tokens, after + 1, items.push(value)) {
                            Ok((_, more)) => {
                                let rest = tokens.subrange(after + 1, after + 1 + more);
                                assert(tokens.subrange(position, after + 1 + more) =~= element
                                    + separator + rest);
                                lemma_open_after_concat(inside, element + separator, rest);
                            },
                            Err(_) => {
                                let rest = tokens.subrange(after + 1, end);
                                assert(tokens.subrange(position, end) =~= element + separator
                                    + rest);
                                lemma_open_after_concat(inside, element + separator, rest);
                            },
                        }
                    }
                }
            },
            Err(_) => {},
        }
    }
}

/// The rest of an object that is read closes the object and nothing else.
/// One that runs out of tokens leaves the object and all below it open.
pub proof fn lemma_object_brackets(
    tokens: Seq<Lexeme>,
    position: int,
    members: Members,
    stack: Seq<Bracket>,
)
    requires
        0 <= position <= tokens.len(),
    ensures
        object_at(tokens, position, members) matches Ok((_, taken)) ==> position + taken
            <= tokens.len() && open_after(
            stack.push(Bracket::Curly),
            tokens.subrange(position, position + taken),
        ) == Some(stack),
        object_at(tokens, position, members) == Err::<(Members, nat), ParseError>(
            ParseError::UnexpectedEndOfInput,
        ) ==> stays_open(
            stack.push(Bracket::Curly),
            tokens.subrange(position, tokens.len() as int),
        ),
        object_members(tokens, position, members) matches Ok((_, taken)) ==> position + taken
            <= tokens.len() && open_after(
            stack.push(Bracket::Curly),
            tokens.subrange(position, position + taken),
        ) == Some(stack),
        object_members(tokens, position, members) == Err::<(Members, nat), ParseError>(
            ParseError::UnexpectedEndOfInput,
        ) ==> stays_open(
            stack.push(Bracket::Curly),
            tokens.subrange(position, tokens.len() as int),
        ),
    decreases tokens.len() - position, 1nat,
{
    let end = tokens.len() as int;
    let inside = stack.push(Bracket::Curly);
    assert(inside.drop_last() =~= stack);
    if position >= tokens.len() {
        assert(tokens.subrange(position, end) =~= Seq::<Lexeme>::empty());
    } else {
        if tokens[position] == Lexeme::RightCurlyBracket {
            lemma_open_after_one(inside, tokens[position]);
            assert(tokens.subrange(position, position + 1) =~= seq![tokens[position]]);
        }
        if let Lexeme::String(key) = tokens[position] {
            let name = seq![tokens[position]];
            lemma_open_after_one(inside, tokens[position]);
            if position + 1 >= tokens.len() {
                assert(tokens.subrange(position, end) =~= name);
            } else if tokens[position + 1] == Lexeme::Colon {
                let head = name + seq![tokens[position + 1]];
                lemma_open_after_one(inside, tokens[position + 1]);
                lemma_open_after_concat(inside, name, seq![tokens[position + 1]]);
                assert(open_after(inside, head) == Some(inside));
                lemma_value_brackets(tokens, position + 2, inside);
                match value_at(tokens, position + 2) {
                    Ok((value, taken)) => {
                        let after = position + 2 + taken;
                        let element = tokens.subrange(position + 2, after);
                        lemma_open_after_concat(inside, head, element);
                        let member = head + element;
                        assert(open_after(inside, member) == Some(inside));
                        if after >= tokens.len() {
                            assert(tokens.subrange(position, end) =~= member);
                        } else {
                            let separator = seq![tokens[after]];
                            lemma_open_after_one(inside, tokens[after]);
                            lemma_open_after_concat(inside, member, separator);
                            assert(tokens.subrange(position, after + 1) =~= member + separator);
                            if tokens[after] == Lexeme::Comma {
                                let updated = upsert(members, key, value);
                                lemma_object_brackets(tokens, after + 1, updated, stack);
                                match object_members(tokens, after + 1, updated) {
                                    Ok((_, more)) => {
                                        let rest = tokens.subrange(after + 1, after + 1 + more);
                                        assert(tokens.subrange(position, after + 1 + more)
                                            =~= member + separator + rest);
                                        lemma_open_after_concat(inside, member + separator, rest);
                                    },
                                    Err(_) => {
                                        let rest = tokens.subrange(after + 1, end);
                                        assert(tokens.subrange(position, end) =~= member
                                            + separator + rest);
                                        lemma_open_after_concat(inside, member + separator, rest);
                                    },
                                }
                            }
                        }
                    },
                    Err(_) => {
                        let rest = tokens.subrange(position + 2, end);
                        assert(tokens.subrange(position, end) =~= head + rest);
                        lemma_open_after_concat(inside, head, rest);
                    },
                }
            }
        }
    }
}

/// Where the brackets balance, the parser never runs out of tokens in the
/// middle of a document: `UnexpectedEndOfInput` is the answer for the empty
/// sequence only, and a document that was cut off is a structural error.
pub proof fn lemma_balanced_never_runs_out(tokens: Seq<Lexeme>)
    requires
        balanced(tokens),
        tokens.len() > 0,
    ensures
        document(tokens) != Err::<JsonModel, ParseError>(ParseError::UnexpectedEndOfInput),
{
    let none = Seq::<Bracket>::empty();
    let end = tokens.len() as int;
    if tokens[0] == Lexeme::LeftCurlyBracket {
        let first = seq![tokens[0]];
        let rest = tokens.subrange(1, end);
        lemma_object_brackets(tokens, 1, Seq::empty(), none);
        lemma_open_after_one(none, tokens[0]);
        lemma_open_after_concat(none, first, rest);
        assert(first + rest =~= tokens);
        if object_at(tokens, 1, Seq::empty()) == Err::<(Members, nat), ParseError>(
            ParseError::UnexpectedEndOfInput,
        ) {
            assert(stays_open(none.push(Bracket::Curly), rest));
            let after = open_brackets(tokens).unwrap();
            assert(none.push(Bracket::Curly).is_prefix_of(after));
            assert(after.len() > 0);
        }
    }
}

} // verus!
