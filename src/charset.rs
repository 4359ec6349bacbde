use vstd::prelude::*;

use crate::error::DecodeError;

verus! {

/// The backtick, which stands for the six-bit value zero.
pub const BACKTICK: u8 = 96;

/// A byte that may stand in a data line: the backtick, or a printable
/// character above the space.
pub open spec fn is_data_char(c: u8) -> bool {
    c == BACKTICK || (32 < c && c < 127)
}

/// The value that a data byte stands for: below 64 for the characters that
/// an encoder writes, below 95 for every data byte.
pub open spec fn char_value(c: u8) -> u8 {
    if c == BACKTICK {
        0
    } else {
        (c - 32) as u8
    }
}

/// The six-bit value of one data byte, or the error that names it.
pub fn byte_value(c: u8) -> (r: Result<u8, DecodeError>)
    ensures
        is_data_char(c) ==> r == Ok::<u8, DecodeError>(char_value(c)),
        !is_data_char(c) ==> r == Err::<u8, DecodeError>(DecodeError::InvalidCharacter(c)),
{
    if c == BACKTICK {
        Ok(0)
    } else if c > 32 && c < 127 {
        Ok(c - 32)
    } else {
        Err(DecodeError::InvalidCharacter(c))
    }
}

} // verus!
