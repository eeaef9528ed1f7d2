use vstd::prelude::*;

verus! {

pub const UNDERSCORE: u8 = 95;
pub const DOUBLE_QUOTE: u8 = 34;
pub const BACKSLASH: u8 = 92;
pub const FORWARDSLASH: u8 = 47;
pub const SPACE: u8 = 32;
pub const LINEBREAK: u8 = 10;

/// An ASCII letter, upper or lower case.
pub open spec fn spec_is_alphabetic(ch: u8) -> bool {
    (65 <= ch && ch <= 90) || (97 <= ch && ch <= 122)
}

/// An ASCII decimal digit.
pub open spec fn spec_is_numeric(ch: u8) -> bool {
    48 <= ch && ch <= 57
}

pub fn is_alphabetic_ch(ch: u8) -> (r: bool)
    ensures
        r == spec_is_alphabetic(ch),
{
    (65 <= ch && ch <= 90) || (97 <= ch && ch <= 122)
}

pub fn is_numeric_ch(ch: u8) -> (r: bool)
    ensures
        r == spec_is_numeric(ch),
{
    48 <= ch && ch < 58
}

pub fn is_alphanumeric_ch(ch: u8) -> (r: bool)
    ensures
        r == (spec_is_alphabetic(ch) || spec_is_numeric(ch)),
{
    is_alphabetic_ch(ch) || is_numeric_ch(ch)
}

} // verus!
