//! The recursive-descent parser: a cursor over the tokens, the grammar as
//! functions on token sequences, and the functions that build the tree.

use crate::error::{Expected, GrammarError, ParseError};
use crate::tokenizer::{lexemes, tokenize_json, tokens_of, Lexeme, Token};
use crate::validator::{balanced, validate};
use crate::value::{
    lemma_array_model, lemma_upsert_well_formed, models, upsert, JsonModel, JsonObject,
    JsonValue, Members,
};
use vstd::prelude::*;

verus! {

/// A position in a token sequence, with one token of lookahead. It lives
/// for the length of one parse.
pub struct TokenCursor<'a> {
    tokens: &'a Vec<Token>,
    position: usize,
}

impl<'a> TokenCursor<'a> {
    #[verifier::type_invariant]
    spec fn in_bounds(self) -> bool {
        self.position <= self.tokens@.len()
    }

    /// The whole token sequence that the cursor walks.
    pub closed spec fn tokens(self) -> Seq<Lexeme> {
        lexemes(self.tokens@)
    }

    /// The number of tokens that have been consumed.
    pub closed spec fn position(self) -> int {
        self.position as int
    }

    /// The number of tokens that are still to come.
    pub open spec fn remaining(self) -> int {
        self.tokens().len() - self.position()
    }

    /// A cursor at the start of `tokens`.
    pub fn new(tokens: &'a Vec<Token>) -> (cursor: TokenCursor<'a>)
        ensures
            cursor.tokens() == lexemes(tokens@),
            cursor.position() == 0,
    {
        TokenCursor { tokens, position: 0 }
    }

    /// The number of tokens that have been consumed.
    pub fn consumed(&self) -> (n: usize)
        ensures
            n == self.position(),
            0 <= self.position() <= self.tokens().len(),
    {
        proof {
            use_type_invariant(self);
        }
        self.position
    }

    /// The next token, which stays where it is.
    pub fn peek(&self) -> (next: Option<&'a Token>)
        ensures
            match next {
                Some(token) => self.remaining() > 0 && token@ == self.tokens()[self.position()],
                None => self.remaining() <= 0,
            },
            0 <= self.position() <= self.tokens().len(),
    {
        proof {
            use_type_invariant(self);
        }
        if self.position < self.tokens.len() {
            Some(&self.tokens[self.position])
        } else {
            None
        }
    }
}

/// Consumes the next token. Where none is left the cursor stays and the
/// answer is `UnexpectedEndOfInput`.
pub fn get_next_token<'a>(tokens: &mut TokenCursor<'a>) -> (next: Result<&'a Token, ParseError>)
    ensures
        final(tokens).tokens() == old(tokens).tokens(),
        0 <= old(tokens).position() <= old(tokens).tokens().len(),
        match next {
            Ok(token) => {
                &&& old(tokens).remaining() > 0
                &&& token@ == old(tokens).tokens()[old(tokens).position()]
                &&& final(tokens).position() == old(tokens).position() + 1
            },
            Err(error) => {
                &&& old(tokens).remaining() <= 0
                &&& error == ParseError::UnexpectedEndOfInput
                &&& final(tokens).position() == old(tokens).position()
            },
        },
{
    proof {
        use_type_invariant(&*tokens);
    }
    if tokens.position < tokens.tokens.len() {
        let token = &tokens.tokens[tokens.position];
        tokens.position = tokens.position + 1;
        Ok(token)
    } else {
        Err(ParseError::UnexpectedEndOfInput)
    }
}

/// The error for the token at `position`, which is not what `expected` asks.
pub open spec fn unexpected(expected: Expected, tokens: Seq<Lexeme>, position: int) -> ParseError {
    ParseError::GrammarError(
        GrammarError { expected, found: tokens[position].kind(), position: position as usize },
    )
}

/// The value that a literal token stands for.
pub open spec fn scalar_of(token: Lexeme) -> Option<JsonModel> {
    match token {
        Lexeme::String(text) => Some(JsonModel::String(text)),
        Lexeme::Number(text) => Some(JsonModel::Number(text)),
        Lexeme::True => Some(JsonModel::Boolean(true)),
        Lexeme::False => Some(JsonModel::Boolean(false)),
        Lexeme::Null => Some(JsonModel::Null),
        _ => None,
    }
}

/// The value that starts at `position`, and the number of tokens it spans.
pub open spec fn value_at(tokens: Seq<Lexeme>, position: int) -> Result<(JsonModel, nat), ParseError>
    decreases tokens.len() - position, 0nat,
{
    if position < 0 || position >= tokens.len() {
        Err(ParseError::UnexpectedEndOfInput)
    } else {
        match tokens[position] {
            Lexeme::LeftSquareBracket => match array_at(tokens, position + 1, Seq::empty()) {
                Ok((items, taken)) => Ok((JsonModel::Array(items), taken + 1)),
                Err(error) => Err(error),
            },
            Lexeme::LeftCurlyBracket => match object_at(tokens, position + 1, Seq::empty()) {
                Ok((members, taken)) => Ok((JsonModel::Object(members), taken + 1)),
                Err(error) => Err(error),
            },
            token => match scalar_of(token) {
                Some(value) => Ok((value, 1)),
                None => Err(unexpected(Expected::Value, tokens, position)),
            },
        }
    }
}

/// The rest of an array whose opening bracket ends just before `position`:
/// `items` followed by the elements up to the closing bracket, and the
/// number of tokens up to and including that bracket.
pub open spec fn array_at(tokens: Seq<Lexeme>, position: int, items: Seq<JsonModel>) -> Result<
    (Seq<JsonModel>, nat),
    ParseError,
>
    decreases tokens.len() - position, 2nat,
{
    if position < 0 || position >= tokens.len() {
        Err(ParseError::UnexpectedEndOfInput)
    } else if tokens[position] == Lexeme::RightSquareBracket {
        Ok((items, 1))
    } else {
        array_elements(tokens, position, items)
    }
}

/// One element at `position`, then either a comma and more elements or the
/// closing bracket.
pub open spec fn array_elements(tokens: Seq<Lexeme>, position: int, items: Seq<JsonModel>) -> Result<
    (Seq<JsonModel>, nat),
    ParseError,
>
    decreases tokens.len() - position, 1nat,
{
    match value_at(tokens, position) {
        Err(error) => Err(error),
        Ok((value, taken)) => {
            let after = position + taken;
            if after >= tokens.len() {
                Err(ParseError::UnexpectedEndOfInput)
            } else {
                match tokens[after] {
                    Lexeme::Comma => match array_elements(tokens, after + 1, items.push(value)) {
                        Ok((all, more)) => Ok((all, taken + 1 + more)),
                        Err(error) => Err(error),
                    },
                    Lexeme::RightSquareBracket => Ok((items.push(value), taken + 1)),
                    _ => Err(unexpected(Expected::CommaOrCloseArray, tokens, after)),
                }
            }
        },
    }
}

/// The rest of an object whose opening bracket ends just before `position`:
/// `members` with the members up to the closing bracket set in turn, and the
/// number of tokens up to and including that bracket.
pub open spec fn object_at(tokens: Seq<Lexeme>, position: int, members: Members) -> Result<
    (Members, nat),
    ParseError,
>
    decreases tokens.len() - position, 2nat,
{
    if position < 0 || position >= tokens.len() {
        Err(ParseError::UnexpectedEndOfInput)
    } else if tokens[position] == Lexeme::RightCurlyBracket {
        Ok((members, 1))
    } else {
        object_members(tokens, position, members)
    }
}

/// One member at `position` (a key, a colon and a value), then either a
/// comma and more members or the closing bracket.
pub open spec fn object_members(tokens: Seq<Lexeme>, position: int, members: Members) -> Result<
    (Members, nat),
    ParseError,
>
    decreases tokens.len() - position, 1nat,
{
    if position < 0 || position >= tokens.len() {
        Err(ParseError::UnexpectedEndOfInput)
    } else {
        match tokens[position] {
            Lexeme::String(key) => {
                if position + 1 >= tokens.len() {
                    Err(ParseError::UnexpectedEndOfInput)
                } else if tokens[position + 1] != Lexeme::Colon {
                    Err(unexpected(Expected::Colon, tokens, position + 1))
                } else {
                    match value_at(tokens, position + 2) {
                        Err(error) => Err(error),
                        Ok((value, taken)) => {
                            let after = position + 2 + taken;
                            let updated = upsert(members, key, value);
                            if after >= tokens.len() {
                                Err(ParseError::UnexpectedEndOfInput)
                            } else {
                                match tokens[after] {
                                    Lexeme::Comma => match object_members(
                                        tokens,
                                        after + 1,
                                        updated,
                                    ) {
                                        Ok((all, more)) => Ok((all, taken + 3 + more)),
                                        Err(error) => Err(error),
                                    },
                                    Lexeme::RightCurlyBracket => Ok((updated, taken + 3)),
                                    _ => Err(
                                        unexpected(Expected::CommaOrCloseObject, tokens, after),
                                    ),
                                }
                            }
                        },
                    }
                }
            },
            _ => Err(unexpected(Expected::Key, tokens, position)),
        }
    }
}

/// `result`, counted from `skipped` tokens further back.
pub open spec fn shifted<T>(result: Result<(T, nat), ParseError>, skipped: nat) -> Result<
    (T, nat),
    ParseError,
> {
    match result {
        Ok((value, taken)) => Ok((value, taken + skipped)),
        Err(error) => Err(error),
    }
}

/// Reads one value: a literal, or an array or an object with all that is
/// nested in it.
pub fn parse_value(tokens: &mut TokenCursor<'_>) -> (parsed: Result<JsonValue, ParseError>)
    ensures
        final(tokens).tokens() == old(tokens).tokens(),
        match parsed {
            Ok(value) => {
                &&& value_at(old(tokens).tokens(), old(tokens).position()) matches Ok(
                    (model, taken),
                )
                &&& value@ == model
                &&& final(tokens).position() == old(tokens).position() + taken
            },
            Err(error) => value_at(old(tokens).tokens(), old(tokens).position()) == Err::<
                (JsonModel, nat),
                ParseError,
            >(error),
        },
    decreases old(tokens).remaining(), 0nat,
{
    let start = tokens.consumed();
    let token = get_next_token(tokens)?;
    match token {
        Token::String(text) => Ok(JsonValue::String(text.clone())),
        Token::Number(text) => Ok(JsonValue::Number(text.clone())),
        Token::True => Ok(JsonValue::Boolean(true)),
        Token::False => Ok(JsonValue::Boolean(false)),
        Token::Null => Ok(JsonValue::Null),
        Token::LeftSquareBracket => {
            let mut items: Vec<JsonValue> = Vec::new();
            assert(models(items@) =~= Seq::empty());
            parse_list(&mut items, tokens)?;
            proof {
                lemma_array_model(items);
            }
            Ok(JsonValue::Array(items))
        },
        Token::LeftCurlyBracket => {
            let mut object = JsonObject::new();
            parse_object(&mut object, tokens)?;
            Ok(JsonValue::Object(object))
        },
        other => Err(
            ParseError::GrammarError(
                GrammarError { expected: Expected::Value, found: other.kind(), position: start },
            ),
        ),
    }
}

/// Reads the rest of an array, after its opening bracket, and appends the
/// elements to `parent_value`. An immediate closing bracket ends an empty
/// array. Otherwise each element is followed by a comma, after which
/// another element must come, or by the closing bracket.
#[verifier::loop_isolation(false)]
pub fn parse_list(parent_value: &mut Vec<JsonValue>, tokens: &mut TokenCursor<'_>) -> (done: Result<
    (),
    ParseError,
>)
    ensures
        final(tokens).tokens() == old(tokens).tokens(),
        match done {
            Ok(()) => {
                &&& array_at(
                    old(tokens).tokens(),
                    old(tokens).position(),
                    models(old(parent_value)@),
                ) matches Ok((items, taken))
                &&& models(final(parent_value)@) == items
                &&& final(tokens).position() == old(tokens).position() + taken
            },
            Err(error) => array_at(
                old(tokens).tokens(),
                old(tokens).position(),
                models(old(parent_value)@),
            ) == Err::<(Seq<JsonModel>, nat), ParseError>(error),
        },
    decreases old(tokens).remaining(), 2nat,
{
    let ghost all = tokens.tokens();
    let ghost start = tokens.position();
    let ghost initial = models(parent_value@);
    match tokens.peek() {
        None => {
            return Err(ParseError::UnexpectedEndOfInput);
        },
        Some(Token::RightSquareBracket) => {
            let _ = get_next_token(tokens);
            return Ok(());
        },
        Some(_) => {},
    }
    loop
        invariant
            tokens.tokens() == all,
            start <= tokens.position() <= all.len(),
            array_at(all, start, initial) == shifted(
                array_elements(all, tokens.position(), models(parent_value@)),
                (tokens.position() - start) as nat,
            ),
        decreases tokens.remaining(),
    {
        let ghost before = models(parent_value@);
        let value = parse_value(tokens)?;
        parent_value.push(value);
        assert(models(parent_value@) =~= before.push(value@));
        let separator_at = tokens.consumed();
        let separator = get_next_token(tokens)?;
        match separator {
            Token::Comma => {},
            Token::RightSquareBracket => {
                return Ok(());
            },
            other => {
                return Err(
                    ParseError::GrammarError(
                        GrammarError {
                            expected: Expected::CommaOrCloseArray,
                            found: other.kind(),
                            position: separator_at,
                        },
                    ),
                );
            },
        }
    }
}

/// Reads the rest of an object, after its opening bracket, and sets the
/// members in `parent_value`. An immediate closing bracket ends an empty
/// object. Otherwise each member is a text literal, a colon and a value,
/// followed by a comma, after which another member must come, or by the
/// closing bracket. Where a key comes twice the later value stays.
#[verifier::loop_isolation(false)]
pub fn parse_object(parent_value: &mut JsonObject, tokens: &mut TokenCursor<'_>) -> (done: Result<
    (),
    ParseError,
>)
    ensures
        final(tokens).tokens() == old(tokens).tokens(),
        match done {
            Ok(()) => {
                &&& object_at(old(tokens).tokens(), old(tokens).position(), old(parent_value)@) matches Ok(
                    (members, taken),
                )
                &&& final(parent_value)@ == members
                &&& final(tokens).position() == old(tokens).position() + taken
            },
            Err(error) => object_at(
                old(tokens).tokens(),
                old(tokens).position(),
                old(parent_value)@,
            ) == Err::<(Members, nat), ParseError>(error),
        },
    decreases old(tokens).remaining(), 2nat,
{
    let ghost all = tokens.tokens();
    let ghost start = tokens.position();
    let ghost initial = parent_value@;
    match tokens.peek() {
        None => {
            return Err(ParseError::UnexpectedEndOfInput);
        },
        Some(Token::RightCurlyBracket) => {
            let _ = get_next_token(tokens);
            return Ok(());
        },
        Some(_) => {},
    }
    loop
        invariant
            tokens.tokens() == all,
            start <= tokens.position() <= all.len(),
            object_at(all, start, initial) == shifted(
                object_members(all, tokens.position(), parent_value@),
                (tokens.position() - start) as nat,
            ),
        decreases tokens.remaining(),
    {
        let key_at = tokens.consumed();
        let name = match get_next_token(tokens)? {
            Token::String(key) => key.clone(),
            other => {
                return Err(
                    ParseError::GrammarError(
                        GrammarError {
                            expected: Expected::Key,
                            found: other.kind(),
                            position: key_at,
                        },
                    ),
                );
            },
        };
        let colon_at = tokens.consumed();
        match get_next_token(tokens)? {
            Token::Colon => {},
            other => {
                return Err(
                    ParseError::GrammarError(
                        GrammarError {
                            expected: Expected::Colon,
                            found: other.kind(),
                            position: colon_at,
                        },
                    ),
                );
            },
        }
        let value = parse_value(tokens)?;
        parent_value.insert(name, value);
        let separator_at = tokens.consumed();
        match get_next_token(tokens)? {
            Token::Comma => {},
            Token::RightCurlyBracket => {
                return Ok(());
            },
            other => {
                return Err(
                    ParseError::GrammarError(
                        GrammarError {
                            expected: Expected::CommaOrCloseObject,
                            found: other.kind(),
                            position: separator_at,
                        },
                    ),
                );
            },
        }
    }
}

/// No object of a parsed value has a key twice.
pub proof fn lemma_value_well_formed(tokens: Seq<Lexeme>, position: int)
    ensures
        value_at(tokens, position) matches Ok((value, _)) ==> value.well_formed(),
    decreases tokens.len() - position, 0nat,
{
    if 0 <= position < tokens.len() {
        match tokens[position] {
            Lexeme::LeftSquareBracket => {
                lemma_array_well_formed(tokens, position + 1, Seq::empty());
            },
            Lexeme::LeftCurlyBracket => {
                lemma_object_well_formed(tokens, position + 1, Seq::empty());
            },
            _ => {},
        }
    }
}

/// Reading an array adds only well-formed elements.
pub proof fn lemma_array_well_formed(tokens: Seq<Lexeme>, position: int, items: Seq<JsonModel>)
    requires
        JsonModel::Array(items).well_formed(),
    ensures
        array_at(tokens, position, items) matches Ok((all, _)) ==> JsonModel::Array(
            all,
        ).well_formed(),
        array_elements(tokens, position, items) matches Ok((all, _)) ==> JsonModel::Array(
            all,
        ).well_formed(),
    decreases tokens.len() - position, 1nat,
{
    lemma_value_well_formed(tokens, position);
    assert forall|i: int| 0 <= i < items.len() implies (#[trigger] items[i]).well_formed() by {
        let whole = JsonModel::Array(items);
        assert(whole.well_formed());
        assert(whole->Array_0 == items);
        assert(whole->Array_0[i].well_formed());
    }
    match value_at(tokens, position) {
        Ok((value, taken)) => {
            let after = position + taken;
            let longer = items.push(value);
            assert(JsonModel::Array(longer).well_formed()) by {
                assert forall|i: int| 0 <= i < longer.len() implies (
                #[trigger] longer[i]).well_formed() by {
                    if i < items.len() {
                        assert(longer[i] == items[i]);
                        assert(items[i].well_formed());
                    }
                }
            }
            if after < tokens.len() && tokens[after] == Lexeme::Comma {
                lemma_array_well_formed(tokens, after + 1, longer);
            }
        },
        Err(_) => {},
    }
}

/// Reading an object keeps its keys unique and sets only well-formed
/// values.
pub proof fn lemma_object_well_formed(tokens: Seq<Lexeme>, position: int, members: Members)
    requires
        JsonModel::Object(members).well_formed(),
    ensures
        object_at(tokens, position, members) matches Ok((all, _)) ==> JsonModel::Object(
            all,
        ).well_formed(),
        object_members(tokens, position, members) matches Ok((all, _)) ==> JsonModel::Object(
            all,
        ).well_formed(),
    decreases tokens.len() - position, 1nat,
{
    if 0 <= position && position + 1 < tokens.len() {
        if let Lexeme::String(key) = tokens[position] {
            lemma_value_well_formed(tokens, position + 2);
            match value_at(tokens, position + 2) {
                Ok((value, taken)) => {
                    let after = position + 2 + taken;
                    lemma_upsert_well_formed(members, key, value);
                    if after < tokens.len() && tokens[after] == Lexeme::Comma {
                        lemma_object_well_formed(tokens, after + 1, upsert(members, key, value));
                    }
                },
                Err(_) => {},
            }
        }
    }
}

/// The value of a document is well-formed: at every depth, no object has a
/// key twice.
pub proof fn lemma_document_well_formed(tokens: Seq<Lexeme>)
    ensures
        document(tokens) matches Ok(value) ==> value.well_formed(),
{
    lemma_object_well_formed(tokens, 1, Seq::empty());
}

/// The value of the document that `tokens` spell out. The brackets must
/// balance. A sequence that starts with the opening bracket of an object
/// denotes that object, and what follows its closing bracket is ignored; a
/// sequence that starts with any other token denotes the empty object.
pub open spec fn document(tokens: Seq<Lexeme>) -> Result<JsonModel, ParseError> {
    if !balanced(tokens) {
        Err(ParseError::StructuralError)
    } else if tokens.len() == 0 {
        Err(ParseError::UnexpectedEndOfInput)
    } else if tokens[0] == Lexeme::LeftCurlyBracket {
        match object_at(tokens, 1, Seq::empty()) {
            Ok((members, _)) => Ok(JsonModel::Object(members)),
            Err(error) => Err(error),
        }
    } else {
        Ok(JsonModel::Object(Seq::empty()))
    }
}

/// The value of the document that `text` holds.
pub open spec fn parsed(text: Seq<char>) -> Result<JsonModel, ParseError> {
    match tokens_of(text) {
        Ok(tokens) => document(tokens),
        Err(error) => Err(ParseError::LexError(error)),
    }
}

/// Builds the value of the document that `tokens` spell out.
///
/// Brackets that do not balance give `StructuralError`, before any value is
/// built. An empty sequence gives `UnexpectedEndOfInput`. A first token
/// other than the opening bracket of an object gives the empty object.
pub fn parse_tokens(tokens: &Vec<Token>) -> (built: Result<JsonValue, ParseError>)
    ensures
        match built {
            Ok(value) => document(lexemes(tokens@)) == Ok::<JsonModel, ParseError>(value@),
            Err(error) => document(lexemes(tokens@)) == Err::<JsonModel, ParseError>(error),
        },
{
    if !validate(tokens) {
        return Err(ParseError::StructuralError);
    }
    let mut cursor = TokenCursor::new(tokens);
    let first = get_next_token(&mut cursor)?;
    let mut value = JsonObject::new();
    match first {
        Token::LeftCurlyBracket => {
            parse_object(&mut value, &mut cursor)?;
        },
        _ => {},
    }
    Ok(JsonValue::Object(value))
}

/// Reads the document in `input`: splits it into tokens, checks that the
/// brackets balance, and builds the value.
pub fn parse(input: &str) -> (built: Result<JsonValue, ParseError>)
    ensures
        match built {
            Ok(value) => parsed(input@) == Ok::<JsonModel, ParseError>(value@),
            Err(error) => parsed(input@) == Err::<JsonModel, ParseError>(error),
        },
{
    match tokenize_json(input) {
        Ok(tokens) => parse_tokens(&tokens),
        Err(error) => Err(ParseError::LexError(error)),
    }
}

} // verus!
