use vstd::prelude::*;

verus! {

/// Why a document could not be decoded.
#[derive(Debug, Clone, Copy, PartialEq, Eq, Structural)]
pub enum DecodeError {
    /// A character outside the data alphabet was met; it carries the byte.
    InvalidCharacter(u8),
    /// A data line held no length character.
    EmptyLine,
    /// A data line ended before the bytes it declared were complete.
    LineTooShort,
    /// The input ended before any `begin` marker.
    NoBeginMarker,
    /// The input ended inside the data, before the `end` marker.
    MissingEndMarker,
}

} // verus!
