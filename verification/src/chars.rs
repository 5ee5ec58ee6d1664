//! ASCII byte classes that drive the scanner's dispatch: whitespace,
//! letters, digits, identifier characters, and quote delimiters.

use vstd::prelude::*;

verus! {

/// ASCII whitespace: space, horizontal tab, line feed, form feed, carriage return.
pub open spec fn is_whitespace(b: u8) -> bool {
    b == 32 || b == 9 || b == 10 || b == 12 || b == 13
}

/// An ASCII letter, upper or lower case.
pub open spec fn is_letter(b: u8) -> bool {
    (65 <= b && b <= 90) || (97 <= b && b <= 122)
}

/// A byte that may open an identifier: a letter or an underscore.
pub open spec fn is_name_start(b: u8) -> bool {
    is_letter(b) || b == 95
}

/// An ASCII decimal digit.
pub open spec fn is_digit(b: u8) -> bool {
    48 <= b && b <= 57
}

/// A byte that may continue an identifier: a letter, a digit, or an underscore.
pub open spec fn is_name_char(b: u8) -> bool {
    is_name_start(b) || is_digit(b)
}

/// A string delimiter: a double or a single quote.
pub open spec fn is_quote(b: u8) -> bool {
    b == 34 || b == 39
}

/// Tests whether `b` is ASCII whitespace.
pub fn whitespace(b: u8) -> (r: bool)
    ensures
        r == is_whitespace(b),
{
    b == 32 || b == 9 || b == 10 || b == 12 || b == 13
}

/// Tests whether `b` may open an identifier.
pub fn name_start(b: u8) -> (r: bool)
    ensures
        r == is_name_start(b),
{
    (65 <= b && b <= 90) || (97 <= b && b <= 122) || b == 95
}

/// Tests whether `b` may continue an identifier.
pub fn name_char(b: u8) -> (r: bool)
    ensures
        r == is_name_char(b),
{
    (65 <= b && b <= 90) || (97 <= b && b <= 122) || b == 95 || (48 <= b && b <= 57)
}

/// Tests whether `b` is an ASCII decimal digit.
pub fn digit(b: u8) -> (r: bool)
    ensures
        r == is_digit(b),
{
    48 <= b && b <= 57
}

/// Tests whether `b` is a string delimiter.
pub fn quote(b: u8) -> (r: bool)
    ensures
        r == is_quote(b),
{
    b == 34 || b == 39
}

} // verus!
