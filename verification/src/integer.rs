//! Signed 32-bit integers in decimal notation.

use vstd::prelude::*;

use crate::text::{all_digits, char_is_digit, chars_of, is_digit};

verus! {

/// The number that the decimal digit `c` stands for.
pub open spec fn digit_value(c: char) -> int {
    c as int - '0' as int
}

/// The number that a sequence of decimal digits denotes, the most
/// significant digit first.
pub open spec fn decimal_value(digits: Seq<char>) -> int
    decreases digits.len(),
{
    if digits.len() == 0 {
        0
    } else {
        10 * decimal_value(digits.drop_last()) + digit_value(digits.last())
    }
}

/// Whether `text` starts with a sign.
pub open spec fn has_sign(text: Seq<char>) -> bool {
    text.len() > 0 && (text[0] == '-' || text[0] == '+')
}

/// The digits of `text`: all of it but a leading sign.
pub open spec fn unsigned_part(text: Seq<char>) -> Seq<char> {
    if has_sign(text) {
        text.skip(1)
    } else {
        text
    }
}

/// The number that `text` denotes where it is an optional sign and then
/// nothing but decimal digits, at least one.
pub open spec fn signed_value(text: Seq<char>) -> int {
    if text.len() > 0 && text[0] == '-' {
        -decimal_value(unsigned_part(text))
    } else {
        decimal_value(unsigned_part(text))
    }
}

/// The signed 32-bit integer that `text` denotes: an optional `+` or `-`, then
/// one or more decimal digits, the value within the range of `i32`. `None`
/// for every other text.
pub open spec fn integer_value(text: Seq<char>) -> Option<i32> {
    if unsigned_part(text).len() > 0 && all_digits(unsigned_part(text)) && i32::MIN <= signed_value(
        text,
    ) <= i32::MAX {
        Some(signed_value(text) as i32)
    } else {
        None
    }
}

/// Reads `text` as a signed 32-bit integer in decimal notation.
pub fn parse_integer(text: &str) -> (value: Option<i32>)
    ensures
        value == integer_value(text@),
{
    let chars = chars_of(text);
    let n: usize = chars.len();
    if n == 0 {
        return None;
    }
    let negative = chars[0] == '-';
    let start: usize = if chars[0] == '-' || chars[0] == '+' {
        1
    } else {
        0
    };
    if start == n {
        return None;
    }
    let ghost digits = unsigned_part(chars@);
    let mut magnitude: i64 = 0;
    let mut too_large = false;
    let mut i: usize = start;
    while i < n
        invariant
            start <= i <= n,
            n == chars.len(),
            digits == chars@.skip(start as int),
            digits == unsigned_part(text@),
            all_digits(digits.take(i - start)),
            0 <= magnitude <= 0x8000_0000,
            !too_large ==> magnitude == decimal_value(digits.take(i - start)),
            too_large ==> decimal_value(digits.take(i - start)) > 0x8000_0000,
        decreases n - i,
    {
        let c = chars[i];
        let ghost before = digits.take(i - start);
        let ghost after = digits.take(i + 1 - start);
        assert(after.drop_last() == before);
        if !char_is_digit(c) {
            assert(digits[i - start] == c);
            return None;
        }
        assert forall|j: int| 0 <= j < after.len() implies is_digit(#[trigger] after[j]) by {
            if j < before.len() {
                assert(after[j] == before[j]);
            }
        }
        let digit: i64 = (c as u32 - '0' as u32) as i64;
        if !too_large {
            magnitude = magnitude * 10 + digit;
            if magnitude > 0x8000_0000 {
                too_large = true;
                magnitude = 0;
            }
        }
        i += 1;
    }
    assert(digits.take(n - start) == digits);
    if too_large {
        None
    } else if negative {
        Some((-magnitude) as i32)
    } else if magnitude > 0x7fff_ffff {
        None
    } else {
        Some(magnitude as i32)
    }
}

} // verus!
