use rust_json_parser::tokenizer::{tokenize_json, Token};
use rust_json_parser::{
    get_next_token, parse, parse_list, parse_object, parse_tokens, parse_value, Expected,
    GrammarError, JsonObject, JsonValue, LexError, LexErrorKind, ParseError, TokenCursor,
    TokenKind,
};

fn text(s: &str) -> JsonValue {
    JsonValue::String(String::from(s))
}

fn number(s: &str) -> JsonValue {
    JsonValue::Number(String::from(s))
}

fn object_of(value: &JsonValue) -> &JsonObject {
    match value {
        JsonValue::Object(object) => object,
        other => panic!("not an object: {:?}", other),
    }
}

fn grammar(expected: Expected, found: TokenKind, position: usize) -> ParseError {
    ParseError::GrammarError(GrammarError { expected, found, position })
}

#[test]
fn duplicate_key_keeps_the_last_value() {
    let value = parse(r#"{"a": 1, "a": 2}"#).unwrap();
    let object = object_of(&value);
    assert_eq!(object.len(), 1);
    assert_eq!(object.get("a"), Some(&number("2")));
}

#[test]
fn duplicate_key_keeps_its_first_place() {
    let value = parse(r#"{"a": 1, "b": 2, "a": 3}"#).unwrap();
    let mut expected = JsonObject::new();
    expected.insert(String::from("a"), number("3"));
    expected.insert(String::from("b"), number("2"));
    assert_eq!(value, JsonValue::Object(expected));
}

#[test]
fn escaped_quote_stays_in_the_text() {
    let value = parse(r#"{"k": "a\"b"}"#).unwrap();
    let object = object_of(&value);
    assert_eq!(object.get("k"), Some(&text("a\"b")));
    assert_eq!(object.len(), 1);
}

#[test]
fn empty_containers() {
    let value = parse(r#"{"a": [], "b": {}}"#).unwrap();
    let object = object_of(&value);
    assert_eq!(object.len(), 2);
    assert_eq!(object.get("a"), Some(&JsonValue::Array(vec![])));
    assert_eq!(object.get("b"), Some(&JsonValue::Object(JsonObject::new())));
    match object.get("b") {
        Some(JsonValue::Object(inner)) => assert!(inner.is_empty()),
        other => panic!("not an object: {:?}", other),
    }
}

#[test]
fn nested_document() {
    let value = parse(r#"{"Image":{"Width":800,"Height":600,"IDs":[1,2,3]}}"#).unwrap();
    let top = object_of(&value);
    assert_eq!(top.len(), 1);
    assert!(top.contains_key("Image"));
    let image = object_of(top.get("Image").unwrap());
    assert_eq!(image.len(), 3);
    assert_eq!(image.get("Width"), Some(&number("800")));
    assert_eq!(image.get("Height"), Some(&number("600")));
    assert_eq!(
        image.get("IDs"),
        Some(&JsonValue::Array(vec![number("1"), number("2"), number("3")]))
    );
}

#[test]
fn flat_object_keeps_every_pair() {
    let value = parse(r#"{"s": "x", "n": 1.5, "t": true, "f": false, "z": null}"#).unwrap();
    let object = object_of(&value);
    assert_eq!(object.len(), 5);
    assert_eq!(object.get("s"), Some(&text("x")));
    assert_eq!(object.get("n"), Some(&number("1.5")));
    assert_eq!(object.get("t"), Some(&JsonValue::Boolean(true)));
    assert_eq!(object.get("f"), Some(&JsonValue::Boolean(false)));
    assert_eq!(object.get("z"), Some(&JsonValue::Null));
    assert_eq!(object.get("missing"), None);
    assert!(!object.contains_key("missing"));
}

#[test]
fn flat_object_in_another_key_order_has_the_same_pairs() {
    let first = parse(r#"{"a": 1, "b": "two", "c": null}"#).unwrap();
    let second = parse(r#"{"c": null, "a": 1, "b": "two"}"#).unwrap();
    for key in ["a", "b", "c"] {
        assert_eq!(object_of(&first).get(key), object_of(&second).get(key));
    }
    assert_eq!(object_of(&first).len(), object_of(&second).len());
}

#[test]
fn number_in_an_object_is_a_number() {
    let value = parse(r#"{"n": 12}"#).unwrap();
    assert_eq!(object_of(&value).get("n"), Some(&number("12")));
    assert_ne!(object_of(&value).get("n"), Some(&text("12")));
}

#[test]
fn empty_object() {
    let value = parse("{}").unwrap();
    assert_eq!(value, JsonValue::Object(JsonObject::new()));
}

#[test]
fn object_follows_empty_object_member() {
    let value = parse(r#"{"a": {}, "b": 1}"#).unwrap();
    let object = object_of(&value);
    assert_eq!(object.len(), 2);
    assert_eq!(object.get("b"), Some(&number("1")));
}

#[test]
fn arrays_nest() {
    let value = parse(r#"{"m": [[], [1, [2]], {"k": [true]}]}"#).unwrap();
    let mut inner = JsonObject::new();
    inner.insert(String::from("k"), JsonValue::Array(vec![JsonValue::Boolean(true)]));
    assert_eq!(
        object_of(&value).get("m"),
        Some(&JsonValue::Array(vec![
            JsonValue::Array(vec![]),
            JsonValue::Array(vec![number("1"), JsonValue::Array(vec![number("2")])]),
            JsonValue::Object(inner),
        ]))
    );
}

#[test]
fn first_token_other_than_object_gives_empty_object() {
    assert_eq!(parse("[1, 2]"), Ok(JsonValue::Object(JsonObject::new())));
    assert_eq!(parse("12"), Ok(JsonValue::Object(JsonObject::new())));
    assert_eq!(parse("\"x\""), Ok(JsonValue::Object(JsonObject::new())));
}

#[test]
fn tokens_after_the_document_are_ignored() {
    let value = parse(r#"{"a": 1} [2] "x""#).unwrap();
    assert_eq!(object_of(&value).len(), 1);
}

#[test]
fn empty_text_is_unexpected_end_of_input() {
    assert_eq!(parse(""), Err(ParseError::UnexpectedEndOfInput));
    assert_eq!(parse("  \n "), Err(ParseError::UnexpectedEndOfInput));
}

#[test]
fn lexical_anomaly_is_reported() {
    assert_eq!(
        parse(r#"{"a": tru}"#),
        Err(ParseError::LexError(LexError { kind: LexErrorKind::UnknownKeyword, position: 6 }))
    );
    assert_eq!(
        parse(r#"{"a": "b}"#),
        Err(ParseError::LexError(LexError {
            kind: LexErrorKind::UnterminatedString,
            position: 6
        }))
    );
    assert_eq!(
        parse(r#"{"a": 1.2.3}"#),
        Err(ParseError::LexError(LexError { kind: LexErrorKind::MalformedNumber, position: 6 }))
    );
}

#[test]
fn unbalanced_brackets_are_a_structural_error() {
    assert_eq!(parse(r#"{"a": [1, 2}"#), Err(ParseError::StructuralError));
    assert_eq!(parse(r#"{"a": 1}}"#), Err(ParseError::StructuralError));
    assert_eq!(parse(r#"{"a":1"#), Err(ParseError::StructuralError));
    assert_eq!(parse(r#"{"a": 1} ]"#), Err(ParseError::StructuralError));
}

#[test]
fn key_must_be_a_text_literal() {
    assert_eq!(
        parse(r#"{1: 2}"#),
        Err(grammar(Expected::Key, TokenKind::Number, 1))
    );
    assert_eq!(
        parse(r#"{"a": 1,}"#),
        Err(grammar(Expected::Key, TokenKind::RightCurlyBracket, 5))
    );
    assert_eq!(
        parse(r#"{[]}"#),
        Err(grammar(Expected::Key, TokenKind::LeftSquareBracket, 1))
    );
}

#[test]
fn colon_must_follow_the_key() {
    assert_eq!(
        parse(r#"{"a" 1}"#),
        Err(grammar(Expected::Colon, TokenKind::Number, 2))
    );
    assert_eq!(
        parse(r#"{"a", "b"}"#),
        Err(grammar(Expected::Colon, TokenKind::Comma, 2))
    );
}

#[test]
fn value_must_follow_the_colon() {
    assert_eq!(
        parse(r#"{"a": }"#),
        Err(grammar(Expected::Value, TokenKind::RightCurlyBracket, 3))
    );
    assert_eq!(
        parse(r#"{"a": , "b": 1}"#),
        Err(grammar(Expected::Value, TokenKind::Comma, 3))
    );
    assert_eq!(
        parse(r#"{"a": [1, ]}"#),
        Err(grammar(Expected::Value, TokenKind::RightSquareBracket, 6))
    );
    assert_eq!(
        parse(r#"{"a": [:]}"#),
        Err(grammar(Expected::Value, TokenKind::Colon, 4))
    );
}

#[test]
fn comma_or_closing_bracket_must_follow_a_value() {
    assert_eq!(
        parse(r#"{"a": 1 "b": 2}"#),
        Err(grammar(Expected::CommaOrCloseObject, TokenKind::String, 4))
    );
    assert_eq!(
        parse(r#"{"a": [1 2]}"#),
        Err(grammar(Expected::CommaOrCloseArray, TokenKind::Number, 5))
    );
    assert_eq!(
        parse(r#"{"a": [1: 2]}"#),
        Err(grammar(Expected::CommaOrCloseArray, TokenKind::Colon, 5))
    );
}

#[test]
fn parse_tokens_builds_from_tokens() {
    let tokens = vec![
        Token::LeftCurlyBracket,
        Token::String(String::from("k")),
        Token::Colon,
        Token::Null,
        Token::RightCurlyBracket,
    ];
    let value = parse_tokens(&tokens).unwrap();
    assert_eq!(object_of(&value).get("k"), Some(&JsonValue::Null));
    assert_eq!(parse_tokens(&vec![]), Err(ParseError::UnexpectedEndOfInput));
    assert_eq!(
        parse_tokens(&vec![Token::RightCurlyBracket]),
        Err(ParseError::StructuralError)
    );
    assert_eq!(
        parse_tokens(&vec![Token::Comma]),
        Ok(JsonValue::Object(JsonObject::new()))
    );
}

#[test]
fn get_next_token_walks_the_tokens() {
    let tokens = tokenize_json("[1]").unwrap();
    let mut cursor = TokenCursor::new(&tokens);
    assert_eq!(cursor.consumed(), 0);
    assert_eq!(cursor.peek(), Some(&Token::LeftSquareBracket));
    assert_eq!(get_next_token(&mut cursor), Ok(&Token::LeftSquareBracket));
    assert_eq!(get_next_token(&mut cursor), Ok(&Token::Number(String::from("1"))));
    assert_eq!(cursor.consumed(), 2);
    assert_eq!(get_next_token(&mut cursor), Ok(&Token::RightSquareBracket));
    assert_eq!(cursor.peek(), None);
    assert_eq!(get_next_token(&mut cursor), Err(ParseError::UnexpectedEndOfInput));
    assert_eq!(cursor.consumed(), 3);
}

#[test]
fn parse_value_reads_one_value() {
    let tokens = tokenize_json(r#"[1, {"a": []}] true"#).unwrap();
    let mut cursor = TokenCursor::new(&tokens);
    let mut inner = JsonObject::new();
    inner.insert(String::from("a"), JsonValue::Array(vec![]));
    assert_eq!(
        parse_value(&mut cursor),
        Ok(JsonValue::Array(vec![number("1"), JsonValue::Object(inner)]))
    );
    assert_eq!(cursor.consumed(), 10);
    assert_eq!(parse_value(&mut cursor), Ok(JsonValue::Boolean(true)));
    assert_eq!(parse_value(&mut cursor), Err(ParseError::UnexpectedEndOfInput));
}

#[test]
fn parse_list_appends_to_the_elements_it_is_given() {
    let tokens = tokenize_json(r#"2, "x"] 3"#).unwrap();
    let mut cursor = TokenCursor::new(&tokens);
    let mut items = vec![number("1")];
    assert_eq!(parse_list(&mut items, &mut cursor), Ok(()));
    assert_eq!(items, vec![number("1"), number("2"), text("x")]);
    assert_eq!(cursor.consumed(), 4);
}

#[test]
fn parse_list_consumes_the_bracket_of_an_empty_array() {
    let tokens = tokenize_json("] 1").unwrap();
    let mut cursor = TokenCursor::new(&tokens);
    let mut items = Vec::new();
    assert_eq!(parse_list(&mut items, &mut cursor), Ok(()));
    assert!(items.is_empty());
    assert_eq!(cursor.consumed(), 1);
}

#[test]
fn parse_object_sets_members_in_the_object_it_is_given() {
    let tokens = tokenize_json(r#""a": 2, "b": 3} 4"#).unwrap();
    let mut cursor = TokenCursor::new(&tokens);
    let mut object = JsonObject::new();
    object.insert(String::from("a"), number("1"));
    assert_eq!(parse_object(&mut object, &mut cursor), Ok(()));
    assert_eq!(object.len(), 2);
    assert_eq!(object.get("a"), Some(&number("2")));
    assert_eq!(object.get("b"), Some(&number("3")));
    assert_eq!(cursor.consumed(), 8);
}

#[test]
fn truncated_tokens_are_unexpected_end_of_input() {
    for input in [r#""a""#, r#""a":"#, r#""a": 1"#, r#""a": 1,"#, r#""a": ["#, ""] {
        let tokens = tokenize_json(input).unwrap();
        let mut cursor = TokenCursor::new(&tokens);
        let mut object = JsonObject::new();
        assert_eq!(
            parse_object(&mut object, &mut cursor),
            Err(ParseError::UnexpectedEndOfInput)
        );
    }
    for input in ["1", "1,", "[", ""] {
        let tokens = tokenize_json(input).unwrap();
        let mut cursor = TokenCursor::new(&tokens);
        let mut items = Vec::new();
        assert_eq!(
            parse_list(&mut items, &mut cursor),
            Err(ParseError::UnexpectedEndOfInput)
        );
    }
}

#[test]
fn object_insert_get_and_len() {
    let mut object = JsonObject::new();
    assert!(object.is_empty());
    assert_eq!(object.len(), 0);
    object.insert(String::from("x"), JsonValue::Null);
    object.insert(String::from("y"), JsonValue::Boolean(true));
    object.insert(String::from("x"), JsonValue::Boolean(false));
    assert!(!object.is_empty());
    assert_eq!(object.len(), 2);
    assert_eq!(object.get("x"), Some(&JsonValue::Boolean(false)));
    assert_eq!(object.get("y"), Some(&JsonValue::Boolean(true)));
    assert_eq!(object.get("z"), None);
    assert!(object.contains_key("y"));
    assert!(!object.contains_key(""));
}

#[test]
fn number_is_read_as_integer_on_request() {
    let value = parse(r#"{"n": 800, "d": 1.2, "s": "7", "big": 18446744073709551616}"#).unwrap();
    let object = object_of(&value);
    assert_eq!(object.get("n").unwrap().as_u64(), Some(800));
    assert_eq!(object.get("d").unwrap().as_u64(), None);
    assert_eq!(object.get("s").unwrap().as_u64(), None);
    assert_eq!(object.get("big").unwrap().as_u64(), None);
    assert_eq!(object.get("n"), Some(&number("800")));
}

#[test]
fn objects_are_equal_whatever_the_order_of_their_keys() {
    let first = parse(r#"{"a": 1, "b": {"x": [1, 2], "y": null}}"#).unwrap();
    let second = parse(r#"{"b": {"y": null, "x": [1, 2]}, "a": 1}"#).unwrap();
    assert_eq!(first, second);
    assert!(first.same_as(&second));
    assert!(object_of(&first).same_as(object_of(&second)));
}

#[test]
fn values_that_differ_are_not_equal() {
    let base = parse(r#"{"a": 1, "b": [1, 2]}"#).unwrap();
    assert_ne!(base, parse(r#"{"a": 1}"#).unwrap());
    assert_ne!(base, parse(r#"{"a": 1, "b": [2, 1]}"#).unwrap());
    assert_ne!(base, parse(r#"{"a": 1, "b": [1, 2, 3]}"#).unwrap());
    assert_ne!(base, parse(r#"{"a": "1", "b": [1, 2]}"#).unwrap());
    assert_ne!(base, parse(r#"{"a": 1, "c": [1, 2]}"#).unwrap());
    assert_ne!(base, parse(r#"{"a": 1, "b": [1, 2], "c": 3}"#).unwrap());
    assert_ne!(number("1"), text("1"));
    assert_ne!(number("1"), number("1.0"));
    assert_ne!(JsonValue::Null, JsonValue::Boolean(false));
    assert_ne!(JsonValue::Array(vec![]), JsonValue::Object(JsonObject::new()));
    assert_eq!(JsonValue::Null, JsonValue::Null);
}

#[test]
fn members_stand_in_the_order_of_their_first_appearance() {
    let value = parse(r#"{"z": 1, "a": 2, "z": 3, "m": 4}"#).unwrap();
    let object = object_of(&value);
    assert_eq!(object.len(), 3);
    assert_eq!(object.entry(0), Some((&String::from("z"), &number("3"))));
    assert_eq!(object.entry(1), Some((&String::from("a"), &number("2"))));
    assert_eq!(object.entry(2), Some((&String::from("m"), &number("4"))));
    assert_eq!(object.entry(3), None);
}
