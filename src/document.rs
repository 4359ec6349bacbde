use vstd::prelude::*;
use vstd::string::*;
use vstd::utf8::encode_utf8;

use crate::error::DecodeError;
use crate::line::{decode_line, line_outcome, same_outcome};
use crate::marker::{is_begin_line, is_begin_marker, is_end_line, is_end_marker};

verus! {

/// Where the decoder stands in a document.
#[derive(Debug, Clone, Copy, PartialEq, Eq, Structural)]
pub enum DecoderState {
    /// Looking for the begin marker.
    Scanning,
    /// Inside the body: each line is data until the end marker.
    ReadingData,
    /// The end marker was seen; nothing after it is read.
    Done,
}

/// `p` put in front of the bytes of `r`, when `r` succeeded.
pub open spec fn prepend(p: Seq<u8>, r: Result<Seq<u8>, DecodeError>) -> Result<Seq<u8>, DecodeError> {
    match r {
        Ok(s) => Ok(p + s),
        Err(e) => Err(e),
    }
}

/// What the lines of a body from index `i` on decode to: data lines up to
/// the end marker, the first failing line stopping everything.
pub open spec fn body_outcome(lines: Seq<Seq<char>>, i: int) -> Result<Seq<u8>, DecodeError>
    decreases lines.len() - i,
{
    if i >= lines.len() {
        Err(DecodeError::MissingEndMarker)
    } else if is_end_marker(lines[i]) {
        Ok(Seq::empty())
    } else {
        match line_outcome(encode_utf8(lines[i])) {
            Ok(b) => prepend(b, body_outcome(lines, i + 1)),
            Err(e) => Err(e),
        }
    }
}

/// What the lines from index `i` on decode to while the begin marker is
/// still to be found.
pub open spec fn scan_outcome(lines: Seq<Seq<char>>, i: int) -> Result<Seq<u8>, DecodeError>
    decreases lines.len() - i,
{
    if i >= lines.len() {
        Err(DecodeError::NoBeginMarker)
    } else if is_begin_marker(lines[i]) {
        body_outcome(lines, i + 1)
    } else {
        scan_outcome(lines, i + 1)
    }
}

/// What a whole document, given as its lines, decodes to.
pub open spec fn decode_outcome(lines: Seq<Seq<char>>) -> Result<Seq<u8>, DecodeError> {
    scan_outcome(lines, 0)
}

/// The text of each line.
pub open spec fn line_texts(lines: Seq<&str>) -> Seq<Seq<char>> {
    lines.map_values(|l: &str| l@)
}

/// Putting `q` and then `p` in front is putting `p + q` in front.
pub(crate) proof fn lemma_prepend_twice(p: Seq<u8>, q: Seq<u8>, r: Result<Seq<u8>, DecodeError>)
    ensures
        prepend(p, prepend(q, r)) == prepend(p + q, r),
{
    if let Ok(s) = r {
        assert(p + (q + s) =~= (p + q) + s);
    }
}

proof fn lemma_prepend_empty(r: Result<Seq<u8>, DecodeError>)
    ensures
        prepend(Seq::empty(), r) == r,
{
    if let Ok(s) = r {
        assert(Seq::<u8>::empty() + s =~= s);
    }
}

impl DecoderState {
    /// Takes one line in the state `self`: returns the next state, and appends
    /// to `out` the bytes that a data line decodes to.
    pub fn feed(self, line: &str, out: &mut Vec<u8>) -> (r: Result<DecoderState, DecodeError>)
        ensures
            self == DecoderState::Scanning ==> r == Ok::<DecoderState, DecodeError>(
                if is_begin_marker(line@) {
                    DecoderState::ReadingData
                } else {
                    DecoderState::Scanning
                },
            ),
            self == DecoderState::Done ==> r == Ok::<DecoderState, DecodeError>(DecoderState::Done),
            self == DecoderState::ReadingData && is_end_marker(line@) ==> r == Ok::<
                DecoderState,
                DecodeError,
            >(DecoderState::Done),
            self == DecoderState::ReadingData && !is_end_marker(line@) ==> match line_outcome(
                encode_utf8(line@),
            ) {
                Ok(b) => r == Ok::<DecoderState, DecodeError>(DecoderState::ReadingData)
                    && final(out)@ == old(out)@ + b,
                Err(e) => r == Err::<DecoderState, DecodeError>(e),
            },
            r is Err || r == Ok::<DecoderState, DecodeError>(DecoderState::Done)
                || self == DecoderState::Scanning ==> final(out)@ == old(out)@,
    {
        match self {
            DecoderState::Scanning => {
                if is_begin_line(line) {
                    Ok(DecoderState::ReadingData)
                } else {
                    Ok(DecoderState::Scanning)
                }
            },
            DecoderState::ReadingData => {
                if is_end_line(line) {
                    return Ok(DecoderState::Done);
                }
                match decode_line(line) {
                    Ok(bytes) => {
                        let mut bytes = bytes;
                        out.append(&mut bytes);
                        Ok(DecoderState::ReadingData)
                    },
                    Err(e) => Err(e),
                }
            },
            DecoderState::Done => Ok(DecoderState::Done),
        }
    }

    /// Ends the input in the state `self`: only a document whose end marker
    /// was seen is complete.
    pub fn finish(self) -> (r: Result<(), DecodeError>)
        ensures
            self == DecoderState::Scanning ==> r == Err::<(), DecodeError>(DecodeError::NoBeginMarker),
            self == DecoderState::ReadingData ==> r == Err::<(), DecodeError>(
                DecodeError::MissingEndMarker,
            ),
            self == DecoderState::Done ==> r == Ok::<(), DecodeError>(()),
    {
        match self {
            DecoderState::Scanning => Err(DecodeError::NoBeginMarker),
            DecoderState::ReadingData => Err(DecodeError::MissingEndMarker),
            DecoderState::Done => Ok(()),
        }
    }
}

/// Decodes a document given as its lines, without line terminators.
pub fn decode_lines(lines: &[&str]) -> (r: Result<Vec<u8>, DecodeError>)
    ensures
        same_outcome(r, decode_outcome(line_texts(lines@))),
{
    let ghost ls = line_texts(lines@);
    let mut state = DecoderState::Scanning;
    let mut out: Vec<u8> = Vec::new();
    let mut i: usize = 0;
    while i < lines.len() && state != DecoderState::Done
        invariant
            ls == line_texts(lines@),
            ls.len() == lines@.len(),
            i <= lines.len(),
            state == DecoderState::Scanning ==> out@ == Seq::<u8>::empty() && decode_outcome(ls)
                == scan_outcome(ls, i as int),
            state == DecoderState::ReadingData ==> decode_outcome(ls) == prepend(
                out@,
                body_outcome(ls, i as int),
            ),
            state == DecoderState::Done ==> decode_outcome(ls) == Ok::<Seq<u8>, DecodeError>(out@),
        decreases lines.len() - i,
    {
        let ghost before = out@;
        assert(ls[i as int] == lines@[i as int]@);
        let next = match state.feed(lines[i], &mut out) {
            Ok(s) => s,
            Err(e) => return Err(e),
        };
        proof {
            if state == DecoderState::Scanning && next == DecoderState::ReadingData {
                lemma_prepend_empty(body_outcome(ls, i + 1));
            }
            if state == DecoderState::ReadingData && next == DecoderState::ReadingData {
                let b = line_outcome(encode_utf8(ls[i as int]))->Ok_0;
                lemma_prepend_twice(before, b, body_outcome(ls, i + 1));
            }
            if state == DecoderState::ReadingData && next == DecoderState::Done {
                assert(before + Seq::<u8>::empty() =~= before);
            }
        }
        state = next;
        i = i + 1;
    }
    match state.finish() {
        Ok(()) => Ok(out),
        Err(e) => Err(e),
    }
}

} // verus!
