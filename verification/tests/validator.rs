use rust_json_parser::tokenizer::{tokenize_json, Token};
use rust_json_parser::validate;

fn valid(text: &str) -> bool {
    validate(&tokenize_json(text).unwrap())
}

#[test]
fn nested_pairs_are_valid() {
    assert!(valid(""));
    assert!(valid("{ }"));
    assert!(valid("[ ]"));
    assert!(valid("{ [ ] }"));
    assert!(valid("{ [ ] { } } [ { { } } ]"));
    assert!(valid("{\n\t[ ]\r\n}"));
    assert!(valid("{[]{}}[{{}}]"));
}

#[test]
fn crossed_brackets_are_invalid() {
    assert!(!valid("[ }"));
    assert!(!valid("{ ]"));
    assert!(!valid("{ [ } ]"));
    assert!(!valid("[ { ] }"));
    assert!(!valid("{ \"a\": [ 1, 2 } }"));
    assert!(!valid("{ [ } ] { }"));
}

#[test]
fn closing_bracket_without_an_open_one_is_invalid() {
    assert!(!valid("}"));
    assert!(!valid("]"));
    assert!(!valid("{ } }"));
    assert!(!valid("[ ] ] ["));
}

#[test]
fn bracket_left_open_is_invalid() {
    assert!(!valid("{"));
    assert!(!valid("["));
    assert!(!valid("{\"a\":1"));
    assert!(!valid("{ [ ]"));
    assert!(!valid("{ } ["));
}

#[test]
fn other_tokens_do_not_count() {
    assert!(valid("1 , : \"x\" true false null"));
    assert!(valid("{\"Image\":{\"Width\":800,\"IDs\":[1,2,3]}}"));
    assert!(valid("{ : , }"));
}

#[test]
fn validate_takes_tokens_as_they_are() {
    assert!(validate(&vec![]));
    assert!(validate(&vec![
        Token::LeftSquareBracket,
        Token::String(String::from("}")),
        Token::RightSquareBracket,
    ]));
    assert!(!validate(&vec![
        Token::LeftSquareBracket,
        Token::RightCurlyBracket,
    ]));
    assert!(!validate(&vec![
        Token::LeftCurlyBracket,
        Token::RightSquareBracket,
    ]));
}
