//! The lexical scanner: tokens, their mathematical model, and the function
//! that splits a text into tokens.

use crate::error::{LexError, LexErrorKind};
use vstd::prelude::*;

verus! {

/// `String::push` appends one character to the end of the string.
pub assume_specification[ std::string::String::push ](text: &mut std::string::String, c: char)
    ensures
        final(text)@ == old(text)@.push(c),
;

/// One lexical unit of a document. A literal carries its decoded text: no
/// escape sequence is left in a `String` token, and a `Number` token holds
/// the digits and the decimal point exactly as they were written.
#[derive(Debug, PartialEq)]
pub enum Token {
    LeftSquareBracket,
    RightSquareBracket,
    LeftCurlyBracket,
    RightCurlyBracket,
    Colon,
    Comma,
    String(String),
    Number(String),
    True,
    False,
    Null,
}

/// The kind of a token, without its payload.
#[derive(Debug, Clone, Copy, PartialEq, Eq, Structural)]
pub enum TokenKind {
    LeftSquareBracket,
    RightSquareBracket,
    LeftCurlyBracket,
    RightCurlyBracket,
    Colon,
    Comma,
    String,
    Number,
    True,
    False,
    Null,
}

/// The mathematical value of a token: the same variants, with the text of a
/// literal as a sequence of characters.
pub enum Lexeme {
    LeftSquareBracket,
    RightSquareBracket,
    LeftCurlyBracket,
    RightCurlyBracket,
    Colon,
    Comma,
    String(Seq<char>),
    Number(Seq<char>),
    True,
    False,
    Null,
}

impl Lexeme {
    pub open spec fn kind(self) -> TokenKind {
        match self {
            Lexeme::LeftSquareBracket => TokenKind::LeftSquareBracket,
            Lexeme::RightSquareBracket => TokenKind::RightSquareBracket,
            Lexeme::LeftCurlyBracket => TokenKind::LeftCurlyBracket,
            Lexeme::RightCurlyBracket => TokenKind::RightCurlyBracket,
            Lexeme::Colon => TokenKind::Colon,
            Lexeme::Comma => TokenKind::Comma,
            Lexeme::String(_) => TokenKind::String,
            Lexeme::Number(_) => TokenKind::Number,
            Lexeme::True => TokenKind::True,
            Lexeme::False => TokenKind::False,
            Lexeme::Null => TokenKind::Null,
        }
    }
}

impl View for Token {
    type V = Lexeme;

    open spec fn view(&self) -> Lexeme {
        match self {
            Token::LeftSquareBracket => Lexeme::LeftSquareBracket,
            Token::RightSquareBracket => Lexeme::RightSquareBracket,
            Token::LeftCurlyBracket => Lexeme::LeftCurlyBracket,
            Token::RightCurlyBracket => Lexeme::RightCurlyBracket,
            Token::Colon => Lexeme::Colon,
            Token::Comma => Lexeme::Comma,
            Token::String(text) => Lexeme::String(text@),
            Token::Number(text) => Lexeme::Number(text@),
            Token::True => Lexeme::True,
            Token::False => Lexeme::False,
            Token::Null => Lexeme::Null,
        }
    }
}

impl Token {
    /// The kind of this token.
    pub fn kind(&self) -> (k: TokenKind)
        ensures
            k == self@.kind(),
    {
        match self {
            Token::LeftSquareBracket => TokenKind::LeftSquareBracket,
            Token::RightSquareBracket => TokenKind::RightSquareBracket,
            Token::LeftCurlyBracket => TokenKind::LeftCurlyBracket,
            Token::RightCurlyBracket => TokenKind::RightCurlyBracket,
            Token::Colon => TokenKind::Colon,
            Token::Comma => TokenKind::Comma,
            Token::String(_) => TokenKind::String,
            Token::Number(_) => TokenKind::Number,
            Token::True => TokenKind::True,
            Token::False => TokenKind::False,
            Token::Null => TokenKind::Null,
        }
    }
}

/// The mathematical values of a sequence of tokens, in the same order.
pub open spec fn lexemes(tokens: Seq<Token>) -> Seq<Lexeme> {
    Seq::new(tokens.len(), |i: int| tokens[i]@)
}

/// A decimal digit.
pub open spec fn is_digit(c: char) -> bool {
    '0' <= c && c <= '9'
}

/// A character that a numeric literal may hold: a digit or a decimal point.
pub open spec fn is_number_char(c: char) -> bool {
    is_digit(c) || c == '.'
}

/// The index at which the run of digits and decimal points that starts at
/// `from` ends.
pub open spec fn number_end(text: Seq<char>, from: int) -> int
    decreases text.len() - from,
{
    if 0 <= from < text.len() && is_number_char(text[from]) {
        number_end(text, from + 1)
    } else {
        from
    }
}

/// The number of decimal points in `text`.
pub open spec fn decimal_points(text: Seq<char>) -> nat
    decreases text.len(),
{
    if text.len() == 0 {
        0
    } else {
        decimal_points(text.drop_last()) + if text.last() == '.' {
            1nat
        } else {
            0nat
        }
    }
}

/// The text literal whose opening quote stands just before `from`: its
/// content, and the index after its closing quote. A backslash makes the
/// character after it part of the content, whatever it is, and is itself
/// left out. `None` where the text ends before the closing quote.
pub open spec fn string_at(text: Seq<char>, from: int) -> Option<(Seq<char>, int)>
    decreases text.len() - from,
{
    if from < 0 || from >= text.len() {
        None
    } else if text[from] == '"' {
        Some((Seq::empty(), from + 1))
    } else if text[from] == '\\' {
        if from + 1 >= text.len() {
            None
        } else {
            match string_at(text, from + 2) {
                Some((rest, end)) => Some((seq![text[from + 1]] + rest, end)),
                None => None,
            }
        }
    } else {
        match string_at(text, from + 1) {
            Some((rest, end)) => Some((seq![text[from]] + rest, end)),
            None => None,
        }
    }
}

/// The word `true`.
pub open spec fn word_true() -> Seq<char> {
    seq!['t', 'r', 'u', 'e']
}

/// The word `false`.
pub open spec fn word_false() -> Seq<char> {
    seq!['f', 'a', 'l', 's', 'e']
}

/// The word `null`.
pub open spec fn word_null() -> Seq<char> {
    seq!['n', 'u', 'l', 'l']
}

/// The characters of `text` from `from` on begin with `word`.
pub open spec fn word_at(text: Seq<char>, from: int, word: Seq<char>) -> bool {
    from + word.len() <= text.len() && text.subrange(from, from + word.len()) == word
}

/// The error of kind `kind` for the lexeme that starts at `position`.
pub open spec fn lex_error(kind: LexErrorKind, position: int) -> LexError {
    LexError { kind, position: position as usize }
}

/// What the scanner makes of the character at `position`: the token that
/// starts there, or none where the character is skipped, and the index at
/// which scanning goes on.
pub open spec fn token_at(text: Seq<char>, position: int) -> Result<(Option<Lexeme>, int), LexError> {
    let c = text[position];
    if c == '[' {
        Ok((Some(Lexeme::LeftSquareBracket), position + 1))
    } else if c == ']' {
        Ok((Some(Lexeme::RightSquareBracket), position + 1))
    } else if c == '{' {
        Ok((Some(Lexeme::LeftCurlyBracket), position + 1))
    } else if c == '}' {
        Ok((Some(Lexeme::RightCurlyBracket), position + 1))
    } else if c == ':' {
        Ok((Some(Lexeme::Colon), position + 1))
    } else if c == ',' {
        Ok((Some(Lexeme::Comma), position + 1))
    } else if c == '"' {
        match string_at(text, position + 1) {
            Some((content, end)) => Ok((Some(Lexeme::String(content)), end)),
            None => Err(lex_error(LexErrorKind::UnterminatedString, position)),
        }
    } else if is_digit(c) {
        let end = number_end(text, position);
        let digits = text.subrange(position, end);
        if decimal_points(digits) > 1 {
            Err(lex_error(LexErrorKind::MalformedNumber, position))
        } else {
            Ok((Some(Lexeme::Number(digits)), end))
        }
    } else if c == 't' {
        if word_at(text, position, word_true()) {
            Ok((Some(Lexeme::True), position + 4))
        } else {
            Err(lex_error(LexErrorKind::UnknownKeyword, position))
        }
    } else if c == 'f' {
        if word_at(text, position, word_false()) {
            Ok((Some(Lexeme::False), position + 5))
        } else {
            Err(lex_error(LexErrorKind::UnknownKeyword, position))
        }
    } else if c == 'n' {
        if word_at(text, position, word_null()) {
            Ok((Some(Lexeme::Null), position + 4))
        } else {
            Err(lex_error(LexErrorKind::UnknownKeyword, position))
        }
    } else {
        Ok((None, position + 1))
    }
}

/// A text literal ends after it starts, and within the text.
pub proof fn lemma_string_at_end(text: Seq<char>, from: int)
    ensures
        string_at(text, from) matches Some((_, end)) ==> from < end <= text.len(),
    decreases text.len() - from,
{
    if 0 <= from < text.len() && text[from] != '"' {
        if text[from] == '\\' {
            if from + 1 < text.len() {
                lemma_string_at_end(text, from + 2);
            }
        } else {
            lemma_string_at_end(text, from + 1);
        }
    }
}

/// A run of digits and decimal points ends at or after its start, within
/// the text, at a character that cannot go on with it.
pub proof fn lemma_number_end(text: Seq<char>, from: int)
    requires
        0 <= from <= text.len(),
    ensures
        from <= number_end(text, from) <= text.len(),
        forall|i: int| from <= i < number_end(text, from) ==> is_number_char(#[trigger] text[i]),
        number_end(text, from) < text.len() ==> !is_number_char(text[number_end(text, from)]),
    decreases text.len() - from,
{
    if from < text.len() && is_number_char(text[from]) {
        lemma_number_end(text, from + 1);
    }
}

/// Scanning always moves forward and stays within the text.
pub proof fn lemma_token_at_advances(text: Seq<char>, position: int)
    requires
        0 <= position < text.len(),
    ensures
        token_at(text, position) matches Ok((_, next)) ==> position < next <= text.len(),
{
    lemma_string_at_end(text, position + 1);
    lemma_number_end(text, position);
    lemma_number_end(text, position + 1);
}

/// The tokens of `text` from `position` on, in the order of the text, or
/// the first lexical anomaly.
pub open spec fn tokens_from(text: Seq<char>, position: int) -> Result<Seq<Lexeme>, LexError>
    decreases text.len() - position,
{
    if position < 0 || position >= text.len() {
        Ok(Seq::empty())
    } else {
        match token_at(text, position) {
            Err(error) => Err(error),
            Ok((token, next)) => {
                proof {
                    lemma_token_at_advances(text, position);
                }
                match tokens_from(text, next) {
                    Err(error) => Err(error),
                    Ok(rest) => match token {
                        Some(token) => Ok(seq![token] + rest),
                        None => Ok(rest),
                    },
                }
            },
        }
    }
}

/// The tokens of `text`, or the first lexical anomaly.
pub open spec fn tokens_of(text: Seq<char>) -> Result<Seq<Lexeme>, LexError> {
    tokens_from(text, 0)
}

/// `scanned` is what scanning `input` gives: all its tokens in order, or
/// its first lexical anomaly.
pub open spec fn is_scan_of(input: Seq<char>, scanned: Result<Vec<Token>, LexError>) -> bool {
    match scanned {
        Ok(tokens) => tokens_of(input) == Ok::<Seq<Lexeme>, LexError>(lexemes(tokens@)),
        Err(error) => tokens_of(input) == Err::<Seq<Lexeme>, LexError>(error),
    }
}

/// Scanning the same text twice gives the same outcome: either two token
/// sequences of one length that are equal element by element, or the same
/// error twice.
pub proof fn lemma_tokenize_twice(
    input: Seq<char>,
    first: Result<Vec<Token>, LexError>,
    second: Result<Vec<Token>, LexError>,
)
    requires
        is_scan_of(input, first),
        is_scan_of(input, second),
    ensures
        match (first, second) {
            (Ok(a), Ok(b)) => a@.len() == b@.len() && forall|i: int|
                0 <= i < a@.len() ==> a@[i]@ == b@[i]@,
            (Err(a), Err(b)) => a == b,
            _ => false,
        },
{
    match (first, second) {
        (Ok(a), Ok(b)) => {
            assert(lexemes(a@) == lexemes(b@));
            assert(lexemes(a@).len() == a@.len());
            assert forall|i: int| 0 <= i < a@.len() implies a@[i]@ == b@[i]@ by {
                assert(lexemes(a@)[i] == a@[i]@);
                assert(lexemes(b@)[i] == b@[i]@);
            }
        },
        _ => {},
    }
}

/// `rest` with `first` in front of its content.
pub open spec fn with_prefix(first: Seq<char>, rest: Option<(Seq<char>, int)>) -> Option<
    (Seq<char>, int),
> {
    match rest {
        Some((content, end)) => Some((first + content, end)),
        None => None,
    }
}

/// `rest` with the tokens `first` in front.
pub open spec fn with_tokens(first: Seq<Lexeme>, rest: Result<Seq<Lexeme>, LexError>) -> Result<
    Seq<Lexeme>,
    LexError,
> {
    match rest {
        Ok(tokens) => Ok(first + tokens),
        Err(error) => Err(error),
    }
}

/// Reads a text literal whose opening quote stands just before `from`.
fn scan_string(chars: &Vec<char>, from: usize) -> (scanned: Option<(String, usize)>)
    requires
        from <= chars@.len(),
    ensures
        match scanned {
            Some((content, end)) => string_at(chars@, from as int) == Some(
                (content@, end as int),
            ) && from < end <= chars@.len(),
            None => string_at(chars@, from as int).is_none(),
        },
{
    let mut content = String::new();
    let mut i: usize = from;
    assert(Seq::<char>::empty() + string_at(chars@, from as int).unwrap().0 =~= string_at(
        chars@,
        from as int,
    ).unwrap().0);
    while i < chars.len()
        invariant
            from <= i <= chars@.len(),
            string_at(chars@, from as int) == with_prefix(content@, string_at(chars@, i as int)),
        decreases chars@.len() - i,
    {
        let ghost before = content@;
        let c = chars[i];
        if c == '"' {
            assert(before + Seq::<char>::empty() =~= before);
            return Some((content, i + 1));
        }
        if c == '\\' {
            if chars.len() - i < 2 {
                return None;
            }
            let escaped = chars[i + 1];
            content.push(escaped);
            proof {
                let rest = string_at(chars@, i + 2);
                if rest.is_some() {
                    assert(before + (seq![escaped] + rest.unwrap().0) =~= before.push(escaped)
                        + rest.unwrap().0);
                }
            }
            i += 2;
        } else {
            content.push(c);
            proof {
                let rest = string_at(chars@, i + 1);
                if rest.is_some() {
                    assert(before + (seq![c] + rest.unwrap().0) =~= before.push(c)
                        + rest.unwrap().0);
                }
            }
            i += 1;
        }
    }
    None
}

/// Reads the run of digits and decimal points that starts at `from`, and
/// counts its decimal points.
fn scan_number(chars: &Vec<char>, from: usize) -> (scanned: (String, usize, usize))
    requires
        from <= chars@.len(),
    ensures
        scanned.1 == number_end(chars@, from as int),
        from <= scanned.1 <= chars@.len(),
        scanned.0@ == chars@.subrange(from as int, scanned.1 as int),
        scanned.2 == decimal_points(scanned.0@),
{
    let mut digits = String::new();
    let mut points: usize = 0;
    let mut i: usize = from;
    assert(chars@.subrange(from as int, from as int) =~= Seq::empty());
    while i < chars.len() && (('0' <= chars[i] && chars[i] <= '9') || chars[i] == '.')
        invariant
            from <= i <= chars@.len(),
            number_end(chars@, from as int) == number_end(chars@, i as int),
            digits@ == chars@.subrange(from as int, i as int),
            points == decimal_points(digits@),
            points <= i - from,
        decreases chars@.len() - i,
    {
        let ghost before = digits@;
        let c = chars[i];
        digits.push(c);
        if c == '.' {
            points += 1;
        }
        i += 1;
        assert(digits@.drop_last() =~= before);
        assert(digits@ =~= chars@.subrange(from as int, i as int));
    }
    (digits, i, points)
}

/// Splits the characters `chars` into tokens.
fn tokenize_chars(chars: &Vec<char>) -> (scanned: Result<Vec<Token>, LexError>)
    ensures
        is_scan_of(chars@, scanned),
{
    let mut tokens: Vec<Token> = Vec::new();
    let mut i: usize = 0;
    assert(lexemes(tokens@) =~= Seq::empty());
    assert(with_tokens(Seq::empty(), tokens_of(chars@)) == tokens_of(chars@)) by {
        if tokens_of(chars@).is_ok() {
            assert(Seq::<Lexeme>::empty() + tokens_of(chars@).unwrap() =~= tokens_of(
                chars@,
            ).unwrap());
        }
    }
    while i < chars.len()
        invariant
            i <= chars@.len(),
            tokens_of(chars@) == with_tokens(lexemes(tokens@), tokens_from(chars@, i as int)),
        decreases chars@.len() - i,
    {
        let ghost before = lexemes(tokens@);
        let ghost at = i as int;
        let c = chars[i];
        proof {
            lemma_token_at_advances(chars@, at);
        }
        if c == '[' {
            tokens.push(Token::LeftSquareBracket);
            i += 1;
        } else if c == ']' {
            tokens.push(Token::RightSquareBracket);
            i += 1;
        } else if c == '{' {
            tokens.push(Token::LeftCurlyBracket);
            i += 1;
        } else if c == '}' {
            tokens.push(Token::RightCurlyBracket);
            i += 1;
        } else if c == ':' {
            tokens.push(Token::Colon);
            i += 1;
        } else if c == ',' {
            tokens.push(Token::Comma);
            i += 1;
        } else if c == '"' {
            match scan_string(chars, i + 1) {
                Some((content, end)) => {
                    tokens.push(Token::String(content));
                    i = end;
                },
                None => {
                    return Err(LexError { kind: LexErrorKind::UnterminatedString, position: i });
                },
            }
        } else if '0' <= c && c <= '9' {
            let (digits, end, points) = scan_number(chars, i);
            if points > 1 {
                return Err(LexError { kind: LexErrorKind::MalformedNumber, position: i });
            }
            tokens.push(Token::Number(digits));
            i = end;
        } else if c == 't' {
            if chars.len() - i >= 4 && chars[i + 1] == 'r' && chars[i + 2] == 'u' && chars[i + 3]
                == 'e' {
                assert(chars@.subrange(at, at + 4) =~= word_true());
                tokens.push(Token::True);
                i += 4;
            } else {
                assert(!word_at(chars@, at, word_true())) by {
                    if word_at(chars@, at, word_true()) {
                        let word = chars@.subrange(at, at + 4);
                        assert(word[1] == 'r' && word[2] == 'u' && word[3] == 'e');
                    }
                }
                return Err(LexError { kind: LexErrorKind::UnknownKeyword, position: i });
            }
        } else if c == 'f' {
            if chars.len() - i >= 5 && chars[i + 1] == 'a' && chars[i + 2] == 'l' && chars[i + 3]
                == 's' && chars[i + 4] == 'e' {
                assert(chars@.subrange(at, at + 5) =~= word_false());
                tokens.push(Token::False);
                i += 5;
            } else {
                assert(!word_at(chars@, at, word_false())) by {
                    if word_at(chars@, at, word_false()) {
                        let word = chars@.subrange(at, at + 5);
                        assert(word[1] == 'a' && word[2] == 'l' && word[3] == 's' && word[4]
                            == 'e');
                    }
                }
                return Err(LexError { kind: LexErrorKind::UnknownKeyword, position: i });
            }
        } else if c == 'n' {
            if chars.len() - i >= 4 && chars[i + 1] == 'u' && chars[i + 2] == 'l' && chars[i + 3]
                == 'l' {
                assert(chars@.subrange(at, at + 4) =~= word_null());
                tokens.push(Token::Null);
                i += 4;
            } else {
                assert(!word_at(chars@, at, word_null())) by {
                    if word_at(chars@, at, word_null()) {
                        let word = chars@.subrange(at, at + 4);
                        assert(word[1] == 'u' && word[2] == 'l' && word[3] == 'l');
                    }
                }
                return Err(LexError { kind: LexErrorKind::UnknownKeyword, position: i });
            }
        } else {
            i += 1;
        }
        proof {
            let step = token_at(chars@, at);
            let rest = tokens_from(chars@, i as int);
            assert(step.is_ok() && step.unwrap().1 == i);
            match step.unwrap().0 {
                Some(token) => {
                    assert(lexemes(tokens@) =~= before.push(token));
                    if rest.is_ok() {
                        assert(before + (seq![token] + rest.unwrap()) =~= before.push(token)
                            + rest.unwrap());
                    }
                },
                None => {
                    assert(lexemes(tokens@) =~= before);
                },
            }
        }
    }
    assert(lexemes(tokens@) + Seq::<Lexeme>::empty() =~= lexemes(tokens@));
    Ok(tokens)
}

/// Splits `input` into tokens, in the order of the text.
///
/// Each of `[ ] { } : ,` gives one token. A quote starts a text literal,
/// which runs to the next quote that no backslash stands before; a
/// backslash makes the character after it part of the content as it is. A
/// digit starts a numeric literal, which takes all the digits and decimal
/// points that follow and keeps them as text. `true`, `false` and `null`
/// give their tokens. Every other character is skipped.
///
/// The scan fails at the first lexeme that cannot be formed: a text literal
/// without its closing quote, a numeric literal with more than one decimal
/// point, or a `t`, `f` or `n` that does not start its word.
pub fn tokenize_json(input: &str) -> (scanned: Result<Vec<Token>, LexError>)
    ensures
        is_scan_of(input@, scanned),
{
    let chars = characters(input);
    tokenize_chars(&chars)
}

/// The characters of `text`, one by one.
pub fn characters(text: &str) -> (chars: Vec<char>)
    ensures
        chars@ == text@,
{
    let mut chars: Vec<char> = Vec::new();
    for c in iter: text.chars()
        invariant
            chars@ == iter.seq().take(iter.index() as int),
            iter.seq() == text@,
    {
        chars.push(c);
    }
    assert(chars@ =~= text@);
    chars
}

} // verus!
