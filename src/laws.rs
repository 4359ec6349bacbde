use vstd::prelude::*;
use vstd::utf8::encode_utf8;

use crate::charset::{char_value, is_data_char};
use crate::document::{body_outcome, decode_outcome, scan_outcome};
use crate::error::DecodeError;
use crate::line::{chars_needed, lemma_first_bad_none, line_outcome};
use crate::marker::{is_begin_marker, is_end_marker};

verus! {

proof fn lemma_scan_without_begin(lines: Seq<Seq<char>>, i: int)
    requires
        0 <= i <= lines.len(),
        forall|j: int| i <= j < lines.len() ==> !is_begin_marker(#[trigger] lines[j]),
    ensures
        scan_outcome(lines, i) == Err::<Seq<u8>, DecodeError>(DecodeError::NoBeginMarker),
    decreases lines.len() - i,
{
    if i < lines.len() {
        lemma_scan_without_begin(lines, i + 1);
    }
}

/// A document in which no line is a begin marker fails with
/// `NoBeginMarker`.
pub proof fn lemma_no_begin_marker(lines: Seq<Seq<char>>)
    requires
        forall|j: int| 0 <= j < lines.len() ==> !is_begin_marker(#[trigger] lines[j]),
    ensures
        decode_outcome(lines) == Err::<Seq<u8>, DecodeError>(DecodeError::NoBeginMarker),
{
    lemma_scan_without_begin(lines, 0);
}

proof fn lemma_scan_to_begin(lines: Seq<Seq<char>>, i: int, b: int)
    requires
        0 <= i <= b < lines.len(),
        is_begin_marker(lines[b]),
        forall|j: int| 0 <= j < b ==> !is_begin_marker(#[trigger] lines[j]),
    ensures
        scan_outcome(lines, i) == body_outcome(lines, b + 1),
    decreases b - i,
{
    if i < b {
        lemma_scan_to_begin(lines, i + 1, b);
    }
}

proof fn lemma_body_without_end(lines: Seq<Seq<char>>, i: int)
    requires
        0 <= i <= lines.len(),
        forall|j: int|
            i <= j < lines.len() ==> !is_end_marker(#[trigger] lines[j]) && line_outcome(
                encode_utf8(lines[j]),
            ) is Ok,
    ensures
        body_outcome(lines, i) == Err::<Seq<u8>, DecodeError>(DecodeError::MissingEndMarker),
    decreases lines.len() - i,
{
    if i < lines.len() {
        lemma_body_without_end(lines, i + 1);
    }
}

/// A document whose first begin marker stands at `b`, and whose later lines
/// are all data lines that decode and none of them `end`, fails with
/// `MissingEndMarker`.
pub proof fn lemma_missing_end_marker(lines: Seq<Seq<char>>, b: int)
    requires
        0 <= b < lines.len(),
        is_begin_marker(lines[b]),
        forall|j: int| 0 <= j < b ==> !is_begin_marker(#[trigger] lines[j]),
        forall|j: int|
            b < j < lines.len() ==> !is_end_marker(#[trigger] lines[j]) && line_outcome(
                encode_utf8(lines[j]),
            ) is Ok,
    ensures
        decode_outcome(lines) == Err::<Seq<u8>, DecodeError>(DecodeError::MissingEndMarker),
{
    lemma_scan_to_begin(lines, 0, b);
    lemma_body_without_end(lines, b + 1);
}

/// A data line made only of data characters, but with fewer characters after
/// its length character than the declared length needs, fails with
/// `LineTooShort`.
pub proof fn lemma_line_too_short(s: Seq<u8>)
    requires
        s.len() >= 1,
        forall|j: int| 0 <= j < s.len() ==> is_data_char(#[trigger] s[j]),
        s.len() - 1 < chars_needed(char_value(s[0]) as nat),
    ensures
        line_outcome(s) == Err::<Seq<u8>, DecodeError>(DecodeError::LineTooShort),
{
    lemma_first_bad_none(s, 1, s.len() as int);
}

} // verus!
