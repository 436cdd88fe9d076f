//! Numbers are kept as the text they were written with. This module is the
//! separate step that turns such a text into a machine integer.

use crate::tokenizer::{characters, is_digit};
use vstd::prelude::*;

verus! {

/// Every character of `text` is a decimal digit.
pub open spec fn all_digits(text: Seq<char>) -> bool {
    forall|i: int| 0 <= i < text.len() ==> is_digit(#[trigger] text[i])
}

/// The value of one decimal digit.
pub open spec fn digit_value(c: char) -> nat {
    (c as int - '0' as int) as nat
}

/// The number that the decimal digits `digits` denote.
pub open spec fn decimal_value(digits: Seq<char>) -> nat
    decreases digits.len(),
{
    if digits.len() == 0 {
        0
    } else {
        decimal_value(digits.drop_last()) * 10 + digit_value(digits.last())
    }
}

/// The integer that `text` denotes, where it is a non-empty run of decimal
/// digits.
pub open spec fn integer_of(text: Seq<char>) -> Option<nat> {
    if text.len() > 0 && all_digits(text) {
        Some(decimal_value(text))
    } else {
        None
    }
}

/// A run of digits denotes at least as much as each of its beginnings.
pub proof fn lemma_decimal_value_grows(digits: Seq<char>, n: int)
    requires
        0 <= n <= digits.len(),
    ensures
        decimal_value(digits.take(n)) <= decimal_value(digits),
    decreases digits.len() - n,
{
    if n < digits.len() {
        assert(digits.take(n + 1).drop_last() =~= digits.take(n));
        lemma_decimal_value_grows(digits, n + 1);
    } else {
        assert(digits.take(n) =~= digits);
    }
}

/// Reads `text` as an unsigned integer: `Some` with its value where `text`
/// is a non-empty run of decimal digits whose value fits in 64 bits, `None`
/// for any other text.
pub fn to_u64(text: &str) -> (number: Option<u64>)
    ensures
        match number {
            Some(value) => integer_of(text@) == Some(value as nat),
            None => match integer_of(text@) {
                Some(value) => value > u64::MAX,
                None => true,
            },
        },
{
    let chars = characters(text);
    if chars.len() == 0 {
        return None;
    }
    let mut value: u64 = 0;
    let mut i: usize = 0;
    assert(chars@.take(0) =~= Seq::empty());
    while i < chars.len()
        invariant
            i <= chars@.len(),
            chars@ == text@,
            all_digits(chars@.take(i as int)),
            value == decimal_value(chars@.take(i as int)),
        decreases chars@.len() - i,
    {
        let c = chars[i];
        let ghost next = chars@.take(i + 1);
        assert(next.drop_last() =~= chars@.take(i as int));
        assert(next.last() == c);
        if !('0' <= c && c <= '9') {
            assert(!is_digit(chars@[i as int]));
            return None;
        }
        let digit: u64 = (c as u32 - '0' as u32) as u64;
        assert(digit == digit_value(c));
        let grown = match value.checked_mul(10) {
            Some(tenfold) => tenfold.checked_add(digit),
            None => None,
        };
        match grown {
            Some(sum) => {
                value = sum;
            },
            None => {
                proof {
                    assert(decimal_value(next) > u64::MAX);
                    lemma_decimal_value_grows(chars@, i + 1);
                    if !all_digits(chars@) {
                        assert(integer_of(text@).is_none());
                    }
                }
                return None;
            },
        }
        assert forall|j: int| 0 <= j < next.len() implies is_digit(#[trigger] next[j]) by {
            if j < i {
                assert(next[j] == chars@.take(i as int)[j]);
            }
        }
        i += 1;
    }
    assert(chars@.take(i as int) =~= chars@);
    Some(value)
}

} // verus!
