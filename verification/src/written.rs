//! The written form of tokens, and the proof that the scanner reads it
//! back: what is written from a sequence of tokens is split into exactly
//! those tokens, so that no escape sequence is left in a text literal and
//! a numeric literal keeps its text.

use crate::error::{LexError, ParseError};
use crate::flat_object::{
    all_scalar, distinct_keys, field_members, flat_object_tokens, lemma_flat_object, with_fields,
    Field,
};
use crate::parser::parsed;
use crate::tokenizer::{
    decimal_points, is_digit, is_number_char, lemma_token_at_advances, number_end, string_at,
    token_at, tokens_from, tokens_of, word_at, word_false, word_null, word_true, Lexeme,
};
use crate::value::JsonModel;
use vstd::prelude::*;

verus! {

/// `content` with a backslash before every quote and every backslash.
pub open spec fn escaped(content: Seq<char>) -> Seq<char>
    decreases content.len(),
{
    if content.len() == 0 {
        Seq::empty()
    } else if content[0] == '"' || content[0] == '\\' {
        seq!['\\', content[0]] + escaped(content.drop_first())
    } else {
        seq![content[0]] + escaped(content.drop_first())
    }
}

/// A text that the scanner takes for one numeric literal: it starts with
/// a digit, holds digits and decimal points only, and at most one point.
pub open spec fn is_number_text(text: Seq<char>) -> bool {
    &&& text.len() > 0
    &&& is_digit(text[0])
    &&& forall|i: int| 0 <= i < text.len() ==> is_number_char(#[trigger] text[i])
    &&& decimal_points(text) <= 1
}

/// A token that has a written form: every token but a numeric literal
/// whose text is no number.
pub open spec fn writable(token: Lexeme) -> bool {
    token matches Lexeme::Number(text) ==> is_number_text(text)
}

/// Every token of `tokens` has a written form.
pub open spec fn all_writable(tokens: Seq<Lexeme>) -> bool {
    forall|i: int| 0 <= i < tokens.len() ==> writable(#[trigger] tokens[i])
}

/// The written form of one token.
pub open spec fn written(token: Lexeme) -> Seq<char> {
    match token {
        Lexeme::LeftSquareBracket => seq!['['],
        Lexeme::RightSquareBracket => seq![']'],
        Lexeme::LeftCurlyBracket => seq!['{'],
        Lexeme::RightCurlyBracket => seq!['}'],
        Lexeme::Colon => seq![':'],
        Lexeme::Comma => seq![','],
        Lexeme::String(content) => seq!['"'] + escaped(content) + seq!['"'],
        Lexeme::Number(text) => text,
        Lexeme::True => word_true(),
        Lexeme::False => word_false(),
        Lexeme::Null => word_null(),
    }
}

/// The written form of a sequence of tokens: each token in turn, with a
/// blank after it.
pub open spec fn written_all(tokens: Seq<Lexeme>) -> Seq<char>
    decreases tokens.len(),
{
    if tokens.len() == 0 {
        Seq::empty()
    } else {
        written(tokens[0]) + seq![' '] + written_all(tokens.drop_first())
    }
}

/// A text literal written with its escapes is read back as its content.
pub proof fn lemma_escaped_is_read_back(text: Seq<char>, from: int, content: Seq<char>)
    requires
        0 <= from,
        from + escaped(content).len() < text.len(),
        text.subrange(from, from + escaped(content).len()) == escaped(content),
        text[from + escaped(content).len()] == '"',
    ensures
        string_at(text, from) == Some((content, from + escaped(content).len() + 1)),
    decreases content.len(),
{
    let whole = escaped(content);
    let part = text.subrange(from, from + whole.len());
    if content.len() == 0 {
    } else {
        let rest = content.drop_first();
        let step: int = if content[0] == '"' || content[0] == '\\' {
            2
        } else {
            1
        };
        assert(whole.len() == step + escaped(rest).len());
        assert(text[from] == part[0]);
        if step == 2 {
            assert(text[from + 1] == part[1]);
        }
        assert(text.subrange(from + step, from + step + escaped(rest).len()) =~= escaped(rest)) by {
            assert forall|i: int| 0 <= i < escaped(rest).len() implies text[from + step + i]
                == escaped(rest)[i] by {
                assert(text[from + step + i] == part[step + i]);
            }
        }
        lemma_escaped_is_read_back(text, from + step, rest);
        assert(seq![content[0]] + rest =~= content);
    }
}

/// A run of digits and decimal points ends where the first other character
/// stands.
pub proof fn lemma_number_run(text: Seq<char>, from: int, end: int)
    requires
        0 <= from <= end <= text.len(),
        forall|i: int| from <= i < end ==> is_number_char(#[trigger] text[i]),
        end < text.len() ==> !is_number_char(text[end]),
    ensures
        number_end(text, from) == end,
    decreases end - from,
{
    if from < end {
        lemma_number_run(text, from + 1, end);
    }
}

/// The scanner reads the written form of a token as that token, and goes
/// on behind it.
pub proof fn lemma_written_token(text: Seq<char>, position: int, token: Lexeme)
    requires
        writable(token),
        0 <= position,
        position + written(token).len() < text.len(),
        text.subrange(position, position + written(token).len()) == written(token),
        text[position + written(token).len()] == ' ',
    ensures
        token_at(text, position) == Ok::<(Option<Lexeme>, int), LexError>(
            (Some(token), position + written(token).len()),
        ),
{
    let form = written(token);
    let part = text.subrange(position, position + form.len());
    match token {
        Lexeme::String(content) => {
            let inner = escaped(content);
            assert(form.len() == inner.len() + 2);
            assert(text[position] == part[0]);
            assert(text[position + 1 + inner.len()] == part[1 + inner.len() as int]);
            assert(text.subrange(position + 1, position + 1 + inner.len()) =~= inner) by {
                assert forall|i: int| 0 <= i < inner.len() implies text[position + 1 + i]
                    == inner[i] by {
                    assert(text[position + 1 + i] == part[1 + i]);
                }
            }
            lemma_escaped_is_read_back(text, position + 1, content);
        },
        Lexeme::Number(digits) => {
            assert(text[position] == part[0]);
            assert forall|i: int| position <= i < position + digits.len() implies is_number_char(
                #[trigger] text[i],
            ) by {
                assert(text[i] == part[i - position]);
                assert(is_number_char(digits[i - position]));
            }
            lemma_number_run(text, position, position + digits.len());
        },
        Lexeme::True => {
            assert(text[position] == part[0]);
        },
        Lexeme::False => {
            assert(text[position] == part[0]);
        },
        Lexeme::Null => {
            assert(text[position] == part[0]);
        },
        _ => {
            assert(text[position] == part[0]);
        },
    }
}

/// Where the text from `position` on is the written form of `tokens`, the
/// scanner gives `tokens` from there.
pub proof fn lemma_tokens_from_written(text: Seq<char>, position: int, tokens: Seq<Lexeme>)
    requires
        all_writable(tokens),
        0 <= position <= text.len(),
        text.subrange(position, text.len() as int) == written_all(tokens),
    ensures
        tokens_from(text, position) == Ok::<Seq<Lexeme>, LexError>(tokens),
    decreases tokens.len(),
{
    let tail = text.subrange(position, text.len() as int);
    if tokens.len() == 0 {
        assert(tail.len() == 0);
        assert(tokens =~= Seq::<Lexeme>::empty());
    } else {
        let token = tokens[0];
        let rest = tokens.drop_first();
        let form = written(token);
        let next = position + form.len();
        assert(tail.len() == form.len() + 1 + written_all(rest).len());
        assert(text.subrange(position, next) =~= form) by {
            assert forall|i: int| 0 <= i < form.len() implies text[position + i] == form[i] by {
                assert(text[position + i] == tail[i]);
            }
        }
        assert(text[next] == ' ') by {
            assert(text[next] == tail[form.len() as int]);
        }
        assert(text.subrange(next + 1, text.len() as int) =~= written_all(rest)) by {
            assert forall|i: int| 0 <= i < written_all(rest).len() implies text[next + 1 + i]
                == written_all(rest)[i] by {
                assert(text[next + 1 + i] == tail[form.len() + 1 + i]);
            }
        }
        assert(all_writable(rest)) by {
            assert forall|i: int| 0 <= i < rest.len() implies writable(#[trigger] rest[i]) by {
                assert(rest[i] == tokens[i + 1]);
            }
        }
        assert(writable(tokens[0]));
        lemma_written_token(text, position, token);
        lemma_tokens_from_written(text, next + 1, rest);
        assert(form.len() > 0);
        assert(token_at(text, next) == Ok::<(Option<Lexeme>, int), LexError>((None, next + 1)));
        assert(tokens_from(text, next) == Ok::<Seq<Lexeme>, LexError>(rest));
        assert(seq![token] + rest =~= tokens);
    }
}

/// Scanning what was written from a sequence of tokens gives the sequence
/// back: the scanner undoes every escape of a text literal and keeps the
/// text of every numeric literal.
pub proof fn lemma_written_is_read_back(tokens: Seq<Lexeme>)
    requires
        all_writable(tokens),
    ensures
        tokens_of(written_all(tokens)) == Ok::<Seq<Lexeme>, LexError>(tokens),
{
    let text = written_all(tokens);
    assert(text.subrange(0, text.len() as int) =~= text);
    lemma_tokens_from_written(text, 0, tokens);
}

/// An object of literal members that is written down and then parsed
/// holds what was written: each field set in turn, and, where no key comes
/// twice, exactly the written keys with their written values, in whatever
/// order the fields stood.
pub proof fn lemma_flat_object_is_read_back(fields: Seq<Field>)
    requires
        all_scalar(fields),
        all_writable(flat_object_tokens(fields)),
    ensures
        parsed(written_all(flat_object_tokens(fields))) == Ok::<JsonModel, ParseError>(
            JsonModel::Object(with_fields(Seq::empty(), fields)),
        ),
        distinct_keys(fields) ==> with_fields(Seq::empty(), fields) == field_members(fields),
{
    lemma_written_is_read_back(flat_object_tokens(fields));
    lemma_flat_object(fields);
}

} // verus!
