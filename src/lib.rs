//! Verified decoding of uuencoded text.
//!
//! A uuencoded document is a sequence of text lines: a `begin <mode> <name>`
//! marker, data lines whose characters each carry six bits, and an `end`
//! marker. The library decodes such a document, line by line, back into the
//! bytes it encodes.

pub mod charset;
pub mod document;
pub mod error;
pub mod laws;
pub mod line;
pub mod marker;
pub mod roundtrip;

pub use charset::byte_value;
pub use document::{decode_lines, DecoderState};
pub use error::DecodeError;
pub use line::decode_line;
pub use marker::{is_begin_line, is_end_line};
