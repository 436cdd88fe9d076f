use rust_json_parser::tokenizer::{tokenize_json, Token};
use rust_json_parser::{LexError, LexErrorKind, TokenKind};

const IMAGE_DOCUMENT: &str = r#"{
    "Image": {
        "Width":  800,
        "Height": 600,
        "Title":  "View from 15th Floor",
        "Thumbnail": {
            "Url":    "http://www.example.com/image/481989943",
            "asdf":    "",
            "Height": 125,
            "Width":  100,
            "aspectRatio": 1.2
        },
        "Animated" : false,
        "AnimateOnHover" : true,
        "IDs": [116, 943, 234, 38793]
    },
    "Escaped string": "\\ and \" are escaped in this lifet"
}
"#;

#[test]
fn tokenize_json_test() {
    let input = IMAGE_DOCUMENT;

    let tokens = tokenize_json(input).unwrap();
    assert_eq!(tokens.len(), 65);

    assert_eq!(tokens[0], Token::LeftCurlyBracket);
    assert_eq!(tokens[1], Token::String(String::from("Image")));
    assert_eq!(tokens[2], Token::Colon);
    assert_eq!(tokens[3], Token::LeftCurlyBracket);

    assert_eq!(tokens[4], Token::String(String::from("Width")));
    assert_eq!(tokens[5], Token::Colon);
    assert_eq!(tokens[6], Token::Number(String::from("800")));
    assert_eq!(tokens[7], Token::Comma);

    assert_eq!(tokens[8], Token::String(String::from("Height")));
    assert_eq!(tokens[9], Token::Colon);
    assert_eq!(tokens[10], Token::Number(String::from("600")));
    assert_eq!(tokens[11], Token::Comma);

    assert_eq!(tokens[12], Token::String(String::from("Title")));
    assert_eq!(tokens[13], Token::Colon);
    assert_eq!(
        tokens[14],
        Token::String(String::from("View from 15th Floor"))
    );
    assert_eq!(tokens[15], Token::Comma);

    assert_eq!(tokens[16], Token::String(String::from("Thumbnail")));
    assert_eq!(tokens[17], Token::Colon);
    assert_eq!(tokens[18], Token::LeftCurlyBracket);

    assert_eq!(tokens[19], Token::String(String::from("Url")));
    assert_eq!(tokens[20], Token::Colon);
    assert_eq!(
        tokens[21],
        Token::String(String::from("http://www.example.com/image/481989943"))
    );
    assert_eq!(tokens[22], Token::Comma);

    assert_eq!(tokens[23], Token::String(String::from("asdf")));
    assert_eq!(tokens[24], Token::Colon);
    assert_eq!(tokens[25], Token::String(String::from("")));
    assert_eq!(tokens[26], Token::Comma);

    assert_eq!(tokens[27], Token::String(String::from("Height")));
    assert_eq!(tokens[28], Token::Colon);
    assert_eq!(tokens[29], Token::Number(String::from("125")));
    assert_eq!(tokens[30], Token::Comma);

    assert_eq!(tokens[31], Token::String(String::from("Width")));
    assert_eq!(tokens[32], Token::Colon);
    assert_eq!(tokens[33], Token::Number(String::from("100")));
    assert_eq!(tokens[34], Token::Comma);

    assert_eq!(tokens[35], Token::String(String::from("aspectRatio")));
    assert_eq!(tokens[36], Token::Colon);
    assert_eq!(tokens[37], Token::Number(String::from("1.2")));

    assert_eq!(tokens[38], Token::RightCurlyBracket);
    assert_eq!(tokens[39], Token::Comma);

    assert_eq!(tokens[40], Token::String(String::from("Animated")));
    assert_eq!(tokens[41], Token::Colon);
    assert_eq!(tokens[42], Token::False);
    assert_eq!(tokens[43], Token::Comma);

    assert_eq!(tokens[44], Token::String(String::from("AnimateOnHover")));
    assert_eq!(tokens[45], Token::Colon);
    assert_eq!(tokens[46], Token::True);
    assert_eq!(tokens[47], Token::Comma);

    assert_eq!(tokens[48], Token::String(String::from("IDs")));
    assert_eq!(tokens[49], Token::Colon);
    assert_eq!(tokens[50], Token::LeftSquareBracket);
    assert_eq!(tokens[51], Token::Number(String::from("116")));
    assert_eq!(tokens[52], Token::Comma);

    assert_eq!(tokens[53], Token::Number(String::from("943")));
    assert_eq!(tokens[54], Token::Comma);

    assert_eq!(tokens[55], Token::Number(String::from("234")));
    assert_eq!(tokens[56], Token::Comma);

    assert_eq!(tokens[57], Token::Number(String::from("38793")));
    assert_eq!(tokens[58], Token::RightSquareBracket);
    assert_eq!(tokens[59], Token::RightCurlyBracket);
    assert_eq!(tokens[60], Token::Comma);

    assert_eq!(tokens[61], Token::String(String::from("Escaped string")));
    assert_eq!(tokens[62], Token::Colon);
    assert_eq!(
        tokens[63],
        Token::String(String::from("\\ and \" are escaped in this lifet"))
    );
}

#[test]
fn image_document_ends_with_closing_bracket() {
    let tokens = tokenize_json(IMAGE_DOCUMENT).unwrap();
    assert_eq!(tokens[64], Token::RightCurlyBracket);
}

#[test]
fn empty_text_has_no_tokens() {
    assert_eq!(tokenize_json(""), Ok(vec![]));
    assert_eq!(tokenize_json(" \t\r\n "), Ok(vec![]));
}

#[test]
fn each_punctuation_character_gives_one_token() {
    assert_eq!(
        tokenize_json("{}[]:,"),
        Ok(vec![
            Token::LeftCurlyBracket,
            Token::RightCurlyBracket,
            Token::LeftSquareBracket,
            Token::RightSquareBracket,
            Token::Colon,
            Token::Comma,
        ])
    );
}

#[test]
fn keywords_give_their_tokens() {
    assert_eq!(
        tokenize_json("true false null"),
        Ok(vec![Token::True, Token::False, Token::Null])
    );
    assert_eq!(
        tokenize_json("truefalsenull"),
        Ok(vec![Token::True, Token::False, Token::Null])
    );
}

#[test]
fn null_is_not_false() {
    let tokens = tokenize_json("null").unwrap();
    assert_eq!(tokens, vec![Token::Null]);
    assert_ne!(tokens[0], Token::False);
    assert_eq!(tokens[0].kind(), TokenKind::Null);
}

#[test]
fn unknown_keyword_is_an_error_at_its_start() {
    assert_eq!(
        tokenize_json("  tru"),
        Err(LexError { kind: LexErrorKind::UnknownKeyword, position: 2 })
    );
    assert_eq!(
        tokenize_json("[trux]"),
        Err(LexError { kind: LexErrorKind::UnknownKeyword, position: 1 })
    );
    assert_eq!(
        tokenize_json("fals"),
        Err(LexError { kind: LexErrorKind::UnknownKeyword, position: 0 })
    );
    assert_eq!(
        tokenize_json("{\"a\": nil}"),
        Err(LexError { kind: LexErrorKind::UnknownKeyword, position: 6 })
    );
    assert_eq!(
        tokenize_json("t"),
        Err(LexError { kind: LexErrorKind::UnknownKeyword, position: 0 })
    );
}

#[test]
fn text_literal_keeps_its_content() {
    assert_eq!(
        tokenize_json("\"hello world\""),
        Ok(vec![Token::String(String::from("hello world"))])
    );
    assert_eq!(tokenize_json("\"\""), Ok(vec![Token::String(String::new())]));
    assert_eq!(
        tokenize_json("\"{[:,]} true 12\""),
        Ok(vec![Token::String(String::from("{[:,]} true 12"))])
    );
}

#[test]
fn backslash_keeps_the_next_character_as_it_is() {
    assert_eq!(
        tokenize_json(r#""a\"b""#),
        Ok(vec![Token::String(String::from("a\"b"))])
    );
    assert_eq!(
        tokenize_json(r#""a\\""#),
        Ok(vec![Token::String(String::from("a\\"))])
    );
    assert_eq!(
        tokenize_json(r#""line\nbreak""#),
        Ok(vec![Token::String(String::from("linenbreak"))])
    );
}

#[test]
fn unterminated_text_literal_is_an_error_at_its_quote() {
    assert_eq!(
        tokenize_json("{\"abc"),
        Err(LexError { kind: LexErrorKind::UnterminatedString, position: 1 })
    );
    assert_eq!(
        tokenize_json("\""),
        Err(LexError { kind: LexErrorKind::UnterminatedString, position: 0 })
    );
    assert_eq!(
        tokenize_json("\"abc\\"),
        Err(LexError { kind: LexErrorKind::UnterminatedString, position: 0 })
    );
    assert_eq!(
        tokenize_json("\"abc\\\""),
        Err(LexError { kind: LexErrorKind::UnterminatedString, position: 0 })
    );
}

#[test]
fn numeric_literal_keeps_its_text() {
    assert_eq!(
        tokenize_json("800"),
        Ok(vec![Token::Number(String::from("800"))])
    );
    assert_eq!(
        tokenize_json("1.2"),
        Ok(vec![Token::Number(String::from("1.2"))])
    );
    assert_eq!(
        tokenize_json("007."),
        Ok(vec![Token::Number(String::from("007."))])
    );
    assert_eq!(
        tokenize_json("12,34"),
        Ok(vec![
            Token::Number(String::from("12")),
            Token::Comma,
            Token::Number(String::from("34")),
        ])
    );
}

#[test]
fn sign_and_exponent_are_not_part_of_a_number() {
    assert_eq!(
        tokenize_json("-5"),
        Ok(vec![Token::Number(String::from("5"))])
    );
    assert_eq!(
        tokenize_json("1e5"),
        Ok(vec![
            Token::Number(String::from("1")),
            Token::Number(String::from("5")),
        ])
    );
    assert_eq!(
        tokenize_json(".5"),
        Ok(vec![Token::Number(String::from("5"))])
    );
}

#[test]
fn more_than_one_decimal_point_is_an_error() {
    assert_eq!(
        tokenize_json("1.2.3"),
        Err(LexError { kind: LexErrorKind::MalformedNumber, position: 0 })
    );
    assert_eq!(
        tokenize_json("[10, 1..]"),
        Err(LexError { kind: LexErrorKind::MalformedNumber, position: 5 })
    );
}

#[test]
fn other_characters_are_skipped() {
    assert_eq!(
        tokenize_json("a b c ; # {x}"),
        Ok(vec![Token::LeftCurlyBracket, Token::RightCurlyBracket])
    );
}

#[test]
fn positions_count_characters_not_bytes() {
    assert_eq!(
        tokenize_json("\u{e9}\u{e9} t"),
        Err(LexError { kind: LexErrorKind::UnknownKeyword, position: 3 })
    );
    assert_eq!(
        tokenize_json("\"h\u{e9}llo\""),
        Ok(vec![Token::String(String::from("h\u{e9}llo"))])
    );
}

#[test]
fn tokenizing_twice_gives_equal_sequences() {
    let first = tokenize_json(IMAGE_DOCUMENT).unwrap();
    let second = tokenize_json(IMAGE_DOCUMENT).unwrap();
    assert_eq!(first.len(), second.len());
    for i in 0..first.len() {
        assert_eq!(first[i], second[i]);
    }
    assert_eq!(tokenize_json("1.2.3"), tokenize_json("1.2.3"));
}

#[test]
fn token_kinds() {
    let tokens = tokenize_json("{ } [ ] : , \"s\" 1 true false null").unwrap();
    let kinds: Vec<TokenKind> = tokens.iter().map(|t| t.kind()).collect();
    assert_eq!(
        kinds,
        vec![
            TokenKind::LeftCurlyBracket,
            TokenKind::RightCurlyBracket,
            TokenKind::LeftSquareBracket,
            TokenKind::RightSquareBracket,
            TokenKind::Colon,
            TokenKind::Comma,
            TokenKind::String,
            TokenKind::Number,
            TokenKind::True,
            TokenKind::False,
            TokenKind::Null,
        ]
    );
}
