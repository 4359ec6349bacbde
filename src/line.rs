use vstd::prelude::*;
use vstd::string::*;

use crate::charset::{byte_value, char_value, is_data_char};
use crate::error::DecodeError;

verus! {

/// How many data characters carry `len` decoded bytes: six bits each, so
/// `8 * len / 6` rounded up.
pub open spec fn chars_needed(len: nat) -> nat {
    (4 * len + 2) / 3
}

/// Twelve bits formed from two data bytes: the low six bits of `hi` shifted
/// up by six, with the value of `lo` or-ed in.
pub open spec fn pair_bits(hi: u8, lo: u8) -> u32 {
    (((char_value(hi) & 63) as u32) << 6u32) | (char_value(lo) as u32)
}

/// Byte `k` of what the data characters `d` decode to. Each group of four
/// characters yields three bytes; byte `j` of a group takes the eight bits
/// that start `2 * j` bits into the pair of characters `j` and `j + 1`.
pub open spec fn decoded_byte(d: Seq<u8>, k: int) -> u8 {
    let g = k / 3;
    let j = k % 3;
    let shift: u32 = if j == 0 {
        4
    } else if j == 1 {
        2
    } else {
        0
    };
    ((pair_bits(d[4 * g + j], d[4 * g + j + 1]) >> shift) & 0xff) as u8
}

/// The first index in `[i, end)` of `s` that holds no data character, or
/// `end` when there is none.
pub open spec fn first_bad(s: Seq<u8>, i: int, end: int) -> int
    decreases end - i,
{
    if i >= end {
        end
    } else if !is_data_char(s[i]) {
        i
    } else {
        first_bad(s, i + 1, end)
    }
}

/// What one data line, as bytes, decodes to. The first byte gives the number
/// of decoded bytes; the characters after it are read in order until enough
/// bits are there, and characters beyond those are ignored.
pub open spec fn line_outcome(s: Seq<u8>) -> Result<Seq<u8>, DecodeError> {
    if s.len() == 0 {
        Err(DecodeError::EmptyLine)
    } else if !is_data_char(s[0]) {
        Err(DecodeError::InvalidCharacter(s[0]))
    } else {
        let len = char_value(s[0]) as nat;
        let end = 1 + chars_needed(len);
        let stop = if end <= s.len() { end as int } else { s.len() as int };
        let bad = first_bad(s, 1, stop);
        if bad < stop {
            Err(DecodeError::InvalidCharacter(s[bad]))
        } else if s.len() < end {
            Err(DecodeError::LineTooShort)
        } else {
            Ok(Seq::new(len, |k: int| decoded_byte(s.drop_first(), k)))
        }
    }
}

/// Whether an executable result agrees with a result of the model.
pub open spec fn same_outcome(r: Result<Vec<u8>, DecodeError>, m: Result<Seq<u8>, DecodeError>) -> bool {
    match r {
        Ok(v) => m == Ok::<Seq<u8>, DecodeError>(v@),
        Err(e) => m == Err::<Seq<u8>, DecodeError>(e),
    }
}

/// With data characters only in `[i, end)`, the search finds none.
pub(crate) proof fn lemma_first_bad_none(s: Seq<u8>, i: int, end: int)
    requires
        0 <= i,
        end <= s.len(),
        forall|j: int| i <= j < end ==> is_data_char(#[trigger] s[j]),
    ensures
        first_bad(s, i, end) == end,
    decreases end - i,
{
    if i < end {
        lemma_first_bad_none(s, i + 1, end);
    }
}

/// Shifting a character into the accumulator keeps its low six bits, and
/// the low twelve bits are then the pair of the last two characters.
proof fn lemma_take_char(acc: u32, v: u32)
    requires
        v < 128,
    ensures
        ((acc << 6u32) | v) & 63 == v & 63,
        ((acc << 6u32) | v) & 0xfff == ((acc & 63) << 6u32) | v,
{
    assert(((acc << 6u32) | v) & 63 == v & 63) by (bit_vector)
        requires
            v < 128,
    ;
    assert(((acc << 6u32) | v) & 0xfff == ((acc & 63) << 6u32) | v) by (bit_vector)
        requires
            v < 128,
    ;
}

/// A byte taken at most four bits up lies within the low twelve bits.
proof fn lemma_low_bits(acc: u32, b: u32)
    requires
        b <= 4,
    ensures
        (acc >> b) & 0xff == ((acc & 0xfff) >> b) & 0xff,
        (acc >> b) & 0xff < 256,
{
    assert((acc >> b) & 0xff < 256) by (bit_vector);
    assert((acc >> b) & 0xff == ((acc & 0xfff) >> b) & 0xff) by (bit_vector)
        requires
            b <= 4,
    ;
}

/// Decodes one data line into the bytes it carries.
pub fn decode_line(line: &str) -> (r: Result<Vec<u8>, DecodeError>)
    ensures
        same_outcome(r, line_outcome(line.spec_bytes())),
{
    let s = line.as_bytes();
    if s.len() == 0 {
        return Err(DecodeError::EmptyLine);
    }
    let length = match byte_value(s[0]) {
        Ok(v) => v,
        Err(e) => return Err(e),
    };
    let ghost sq = s@;
    let ghost d = sq.drop_first();
    let ghost end = 1 + chars_needed(length as nat);
    let ghost stop = if end <= sq.len() { end as int } else { sq.len() as int };
    let mut out: Vec<u8> = Vec::new();
    let mut acc: u32 = 0;
    let mut bits: u32 = 0;
    let mut pos: usize = 1;
    let mut k: u8 = 0;
    while k < length
        invariant
            sq == s@,
            sq == line.spec_bytes(),
            d == sq.drop_first(),
            sq.len() >= 1,
            is_data_char(sq[0]),
            length == char_value(sq[0]),
            end == 1 + chars_needed(length as nat),
            stop == if end <= sq.len() { end as int } else { sq.len() as int },
            k <= length,
            pos == 1 + chars_needed(k as nat),
            pos <= stop,
            bits as int == 6 * (pos - 1) - 8 * k,
            first_bad(sq, 1, stop) == first_bad(sq, pos as int, stop),
            pos >= 2 ==> acc & 63 == (char_value(sq[pos - 1]) as u32) & 63,
            pos >= 3 ==> acc & 0xfff == pair_bits(sq[pos - 2], sq[pos - 1]),
            out@ =~= Seq::new(k as nat, |i: int| decoded_byte(d, i)),
        decreases length - k,
    {
        while bits < 8
            invariant
                sq == s@,
                sq == line.spec_bytes(),
                sq.len() >= 1,
                is_data_char(sq[0]),
                k < length,
                length == char_value(sq[0]),
                end == 1 + chars_needed(length as nat),
                stop == if end <= sq.len() { end as int } else { sq.len() as int },
                1 + chars_needed(k as nat) <= pos,
                pos <= 1 + chars_needed(k as nat + 1),
                pos <= stop,
                stop <= sq.len(),
                bits <= 12,
                bits as int == 6 * (pos - 1) - 8 * k,
                first_bad(sq, 1, stop) == first_bad(sq, pos as int, stop),
                pos >= 2 ==> acc & 63 == (char_value(sq[pos - 1]) as u32) & 63,
                pos >= 3 ==> acc & 0xfff == pair_bits(sq[pos - 2], sq[pos - 1]),
            decreases 12 - bits,
        {
            assert(pos < 1 + chars_needed(k as nat + 1));
            assert(chars_needed(k as nat + 1) <= chars_needed(length as nat));
            if pos >= s.len() {
                return Err(DecodeError::LineTooShort);
            }
            let next = match byte_value(s[pos]) {
                Ok(v) => v,
                Err(e) => return Err(e),
            };
            proof {
                lemma_take_char(acc, next as u32);
            }
            acc = acc << 6 | next as u32;
            bits = bits + 6;
            pos = pos + 1;
        }
        assert(pos == 1 + chars_needed(k as nat + 1));
        assert(chars_needed(k as nat + 1) <= chars_needed(length as nat));
        bits = bits - 8;
        proof {
            lemma_low_bits(acc, bits);
            let g = k as int / 3;
            let j = k as int % 3;
            assert(pos - 2 == 1 + 4 * g + j);
            assert(bits == if j == 0 { 4u32 } else if j == 1 { 2u32 } else { 0u32 });
            assert(d[4 * g + j] == sq[pos - 2]);
            assert(d[4 * g + j + 1] == sq[pos - 1]);
        }
        out.push(((acc >> bits) & 0xff) as u8);
        k = k + 1;
    }
    Ok(out)
}

} // verus!
