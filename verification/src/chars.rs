//! Character classification over ASCII, at code-point granularity.

use vstd::prelude::*;

verus! {

/// True for code points in the ASCII range.
pub open spec fn is_ascii_char(c: char) -> bool {
    (c as u32) < 128
}

/// True for the ASCII digits '0' to '9'.
pub open spec fn is_ascii_digit_char(c: char) -> bool {
    48 <= (c as u32) && (c as u32) <= 57
}

/// True for the ASCII capital letters 'A' to 'Z'.
pub open spec fn is_ascii_upper_char(c: char) -> bool {
    65 <= (c as u32) && (c as u32) <= 90
}

/// True for the ASCII small letters 'a' to 'z'.
pub open spec fn is_ascii_lower_char(c: char) -> bool {
    97 <= (c as u32) && (c as u32) <= 122
}

/// True for the ASCII letters.
pub open spec fn is_ascii_alpha_char(c: char) -> bool {
    is_ascii_upper_char(c) || is_ascii_lower_char(c)
}

/// True for the ASCII letters and digits.
pub open spec fn is_ascii_alnum_char(c: char) -> bool {
    is_ascii_alpha_char(c) || is_ascii_digit_char(c)
}

/// The lowercase form of an ASCII capital letter; any other character is
/// left unchanged.
pub open spec fn lower_char(c: char) -> char {
    if is_ascii_upper_char(c) {
        ((c as u32) + 32) as char
    } else {
        c
    }
}

pub fn ascii_char(c: char) -> (r: bool)
    ensures
        r == is_ascii_char(c),
{
    (c as u32) < 128
}

pub fn ascii_alpha_char(c: char) -> (r: bool)
    ensures
        r == is_ascii_alpha_char(c),
{
    let u: u32 = c as u32;
    (65 <= u && u <= 90) || (97 <= u && u <= 122)
}

pub fn ascii_alnum_char(c: char) -> (r: bool)
    ensures
        r == is_ascii_alnum_char(c),
{
    let u: u32 = c as u32;
    (48 <= u && u <= 57) || (65 <= u && u <= 90) || (97 <= u && u <= 122)
}

pub fn to_lower_char(c: char) -> (r: char)
    ensures
        r == lower_char(c),
{
    let u: u32 = c as u32;
    if 65 <= u && u <= 90 {
        ((u + 32) as u8) as char
    } else {
        c
    }
}

} // verus!
