use rust_json_parser::number::to_u64;
use rust_json_parser::tokenizer::characters;

#[test]
fn digits_give_their_value() {
    assert_eq!(to_u64("0"), Some(0));
    assert_eq!(to_u64("7"), Some(7));
    assert_eq!(to_u64("800"), Some(800));
    assert_eq!(to_u64("007"), Some(7));
    assert_eq!(to_u64("38793"), Some(38793));
}

#[test]
fn largest_value_that_fits() {
    assert_eq!(to_u64("18446744073709551615"), Some(u64::MAX));
    assert_eq!(to_u64("18446744073709551616"), None);
    assert_eq!(to_u64("99999999999999999999"), None);
    assert_eq!(to_u64("000000000000000000000000001"), Some(1));
}

#[test]
fn other_text_is_no_integer() {
    assert_eq!(to_u64(""), None);
    assert_eq!(to_u64("1.2"), None);
    assert_eq!(to_u64("12."), None);
    assert_eq!(to_u64("-1"), None);
    assert_eq!(to_u64("1e5"), None);
    assert_eq!(to_u64(" 1"), None);
    assert_eq!(to_u64("\u{0661}"), None);
    assert_eq!(to_u64("99999999999999999999x"), None);
}

#[test]
fn characters_of_a_text() {
    assert_eq!(characters(""), Vec::<char>::new());
    assert_eq!(characters("a\u{e9}\"}"), vec!['a', '\u{e9}', '"', '}']);
}
