use vstd::prelude::*;

verus! {

/// The horizontal tab.
pub const TAB: u8 = 9;

/// The line feed.
pub const LINE_FEED: u8 = 10;

/// The carriage return.
pub const CARRIAGE_RETURN: u8 = 13;

/// The space.
pub const SPACE: u8 = 32;

/// `"`, which starts and ends a byte string.
pub const QUOTE: u8 = 34;

/// `'`, which may end an identifier.
pub const PRIME: u8 = 39;

/// `(`, which starts an application.
pub const OPEN_PAREN: u8 = 40;

/// `)`, which ends an application.
pub const CLOSE_PAREN: u8 = 41;

/// `-`, the sign of a negative integer and the first byte of the arrow.
pub const MINUS: u8 = 45;

/// `0`, the first of the ten digits.
pub const DIGIT_ZERO: u8 = 48;

/// `;`, which may end a statement.
pub const SEMICOLON: u8 = 59;

/// `=`, which stands between the name and the term of a binding.
pub const EQUALS: u8 = 61;

/// `>`, the second byte of the arrow.
pub const GREATER: u8 = 62;

/// `\`, which starts a lambda.
pub const BACKSLASH: u8 = 92;

/// `_`, which may stand inside an identifier.
pub const UNDERSCORE: u8 = 95;

/// Space, tab, carriage return or line feed.
pub open spec fn is_space(b: u8) -> bool {
    b == SPACE || b == TAB || b == CARRIAGE_RETURN || b == LINE_FEED
}

/// An ASCII letter.
pub open spec fn is_alpha(b: u8) -> bool {
    (65 <= b <= 90) || (97 <= b <= 122)
}

/// A decimal digit.
pub open spec fn is_digit(b: u8) -> bool {
    48 <= b <= 57
}

/// A byte that may follow the first letter of an identifier: a letter, a digit or `_`.
pub open spec fn is_word(b: u8) -> bool {
    is_alpha(b) || is_digit(b) || b == UNDERSCORE
}

/// Whether `b` is white space.
#[verifier::when_used_as_spec(is_space)]
pub fn space(b: u8) -> (res: bool)
    ensures
        res == is_space(b),
{
    b == SPACE || b == TAB || b == CARRIAGE_RETURN || b == LINE_FEED
}

/// Whether `b` is an ASCII letter.
#[verifier::when_used_as_spec(is_alpha)]
pub fn alpha(b: u8) -> (res: bool)
    ensures
        res == is_alpha(b),
{
    (65 <= b && b <= 90) || (97 <= b && b <= 122)
}

/// Whether `b` is a decimal digit.
#[verifier::when_used_as_spec(is_digit)]
pub fn digit(b: u8) -> (res: bool)
    ensures
        res == is_digit(b),
{
    48 <= b && b <= 57
}

/// Whether `b` is a letter, a digit or `_`.
#[verifier::when_used_as_spec(is_word)]
pub fn word(b: u8) -> (res: bool)
    ensures
        res == is_word(b),
{
    alpha(b) || digit(b) || b == UNDERSCORE
}

} // verus!
