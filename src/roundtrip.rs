use vstd::prelude::*;
use vstd::utf8::*;

use crate::charset::{char_value, is_data_char};
use crate::document::{body_outcome, decode_outcome, lemma_prepend_twice, prepend};
use crate::error::DecodeError;
use crate::marker::{begin_prefix, is_begin_marker, is_end_marker};
use crate::line::{chars_needed, decoded_byte, lemma_first_bad_none, line_outcome, pair_bits};

verus! {

/// The character that an encoder writes for a six-bit value; zero becomes
/// the backtick rather than a space.
pub open spec fn encode_char(v: u8) -> u8 {
    if v == 0 {
        96
    } else {
        (v + 32) as u8
    }
}

/// Byte `i` of `p`, or zero past its end: an encoder pads the last group
/// with zero bytes.
pub open spec fn byte_at(p: Seq<u8>, i: int) -> u8 {
    if 0 <= i < p.len() {
        p[i]
    } else {
        0
    }
}

/// The four characters that carry three bytes, six bits each, most
/// significant bits first.
pub open spec fn encode_group(b0: u8, b1: u8, b2: u8) -> Seq<u8> {
    seq![
        encode_char(b0 >> 2u8),
        encode_char(((b0 & 3u8) << 4u8) | (b1 >> 4u8)),
        encode_char(((b1 & 15u8) << 2u8) | (b2 >> 6u8)),
        encode_char(b2 & 63u8),
    ]
}

/// The data characters for `p`, group by group.
pub open spec fn encode_data(p: Seq<u8>) -> Seq<u8>
    decreases p.len(),
{
    if p.len() == 0 {
        Seq::empty()
    } else {
        let head = encode_group(byte_at(p, 0), byte_at(p, 1), byte_at(p, 2));
        if p.len() <= 3 {
            head
        } else {
            head + encode_data(p.subrange(3, p.len() as int))
        }
    }
}

/// A data line as an encoder writes it: the length character, then the data
/// characters.
pub open spec fn encode_line(p: Seq<u8>) -> Seq<u8> {
    seq![encode_char(p.len() as u8)] + encode_data(p)
}

proof fn lemma_encode_char(v: u8)
    requires
        v < 64,
    ensures
        is_data_char(encode_char(v)),
        char_value(encode_char(v)) == v,
        32 < encode_char(v) < 97,
{
}

proof fn lemma_group_chars(b0: u8, b1: u8, b2: u8)
    ensures
        forall|i: int|
            0 <= i < 4 ==> is_data_char(#[trigger] encode_group(b0, b1, b2)[i]) && 32
                < encode_group(b0, b1, b2)[i] < 97,
        pair_bits(encode_group(b0, b1, b2)[0], encode_group(b0, b1, b2)[1]) >> 4u32 & 0xff
            == b0 as u32,
        pair_bits(encode_group(b0, b1, b2)[1], encode_group(b0, b1, b2)[2]) >> 2u32 & 0xff
            == b1 as u32,
        pair_bits(encode_group(b0, b1, b2)[2], encode_group(b0, b1, b2)[3]) >> 0u32 & 0xff
            == b2 as u32,
{
    let s0 = b0 >> 2u8;
    let s1 = ((b0 & 3u8) << 4u8) | (b1 >> 4u8);
    let s2 = ((b1 & 15u8) << 2u8) | (b2 >> 6u8);
    let s3 = b2 & 63u8;
    assert(s0 < 64 && s1 < 64 && s2 < 64 && s3 < 64) by (bit_vector)
        requires
            s0 == b0 >> 2u8,
            s1 == ((b0 & 3u8) << 4u8) | (b1 >> 4u8),
            s2 == ((b1 & 15u8) << 2u8) | (b2 >> 6u8),
            s3 == b2 & 63u8,
    ;
    lemma_encode_char(s0);
    lemma_encode_char(s1);
    lemma_encode_char(s2);
    lemma_encode_char(s3);
    assert((((((s0 & 63u8) as u32) << 6u32) | (s1 as u32)) >> 4u32) & 0xff == b0 as u32)
        by (bit_vector)
        requires
            s0 == b0 >> 2u8,
            s1 == ((b0 & 3u8) << 4u8) | (b1 >> 4u8),
    ;
    assert((((((s1 & 63u8) as u32) << 6u32) | (s2 as u32)) >> 2u32) & 0xff == b1 as u32)
        by (bit_vector)
        requires
            s1 == ((b0 & 3u8) << 4u8) | (b1 >> 4u8),
            s2 == ((b1 & 15u8) << 2u8) | (b2 >> 6u8),
    ;
    assert((((((s2 & 63u8) as u32) << 6u32) | (s3 as u32)) >> 0u32) & 0xff == b2 as u32)
        by (bit_vector)
        requires
            s2 == ((b1 & 15u8) << 2u8) | (b2 >> 6u8),
            s3 == b2 & 63u8,
    ;
}

/// The number of groups of three that `n` bytes fill, the last one padded.
pub open spec fn groups(n: nat) -> nat {
    (n + 2) / 3
}

proof fn lemma_encode_data(p: Seq<u8>)
    ensures
        encode_data(p).len() == 4 * groups(p.len()),
        forall|g: int, i: int|
            0 <= g < groups(p.len()) && 0 <= i < 4 ==> #[trigger] encode_data(p)[4 * g + i]
                == encode_group(byte_at(p, 3 * g), byte_at(p, 3 * g + 1), byte_at(p, 3 * g + 2))[i],
    decreases p.len(),
{
    if p.len() > 3 {
        let rest = p.subrange(3, p.len() as int);
        lemma_encode_data(rest);
        let head = encode_group(byte_at(p, 0), byte_at(p, 1), byte_at(p, 2));
        assert forall|g: int, i: int|
            0 <= g < groups(p.len()) && 0 <= i < 4 implies #[trigger] encode_data(p)[4 * g + i]
                == encode_group(byte_at(p, 3 * g), byte_at(p, 3 * g + 1), byte_at(p, 3 * g + 2))[i] by {
            if g > 0 {
                assert(encode_data(p)[4 * g + i] == encode_data(rest)[4 * (g - 1) + i]);
                assert(byte_at(rest, 3 * (g - 1)) == byte_at(p, 3 * g));
                assert(byte_at(rest, 3 * (g - 1) + 1) == byte_at(p, 3 * g + 1));
                assert(byte_at(rest, 3 * (g - 1) + 2) == byte_at(p, 3 * g + 2));
            }
        }
    }
}

proof fn lemma_encoded_line_chars(p: Seq<u8>)
    requires
        p.len() < 64,
    ensures
        forall|j: int|
            0 <= j < encode_line(p).len() ==> is_data_char(#[trigger] encode_line(p)[j]) && 32
                < encode_line(p)[j] < 97,
        encode_line(p).len() == 1 + 4 * groups(p.len()),
{
    let s = encode_line(p);
    let d = encode_data(p);
    lemma_encode_data(p);
    lemma_encode_char(p.len() as u8);
    assert forall|j: int| 0 <= j < s.len() implies is_data_char(#[trigger] s[j]) && 32 < s[j] < 97 by {
        if j > 0 {
            let g = (j - 1) / 4;
            let i = (j - 1) % 4;
            assert(s[j] == d[4 * g + i]);
            lemma_group_chars(byte_at(p, 3 * g), byte_at(p, 3 * g + 1), byte_at(p, 3 * g + 2));
        }
    }
}

/// Decoding a line that an encoder wrote for at most 63 bytes gives those
/// bytes back.
pub proof fn lemma_line_round_trip(p: Seq<u8>)
    requires
        p.len() < 64,
    ensures
        line_outcome(encode_line(p)) == Ok::<Seq<u8>, DecodeError>(p),
{
    let s = encode_line(p);
    let d = encode_data(p);
    let len = p.len();
    lemma_encode_data(p);
    lemma_encode_char(len as u8);
    lemma_encoded_line_chars(p);
    assert(s.drop_first() =~= d);
    assert(chars_needed(len) <= 4 * groups(len));
    lemma_first_bad_none(s, 1, (1 + chars_needed(len)) as int);
    let out = Seq::new(len, |k: int| decoded_byte(s.drop_first(), k));
    assert forall|k: int| 0 <= k < len implies out[k] == p[k] by {
        let g = k / 3;
        let j = k % 3;
        lemma_group_chars(byte_at(p, 3 * g), byte_at(p, 3 * g + 1), byte_at(p, 3 * g + 2));
        assert(d[4 * g + j] == encode_group(byte_at(p, 3 * g), byte_at(p, 3 * g + 1), byte_at(p, 3 * g + 2))[j]);
        assert(d[4 * g + (j + 1)] == encode_group(byte_at(p, 3 * g), byte_at(p, 3 * g + 1), byte_at(p, 3 * g + 2))[j + 1]);
        assert(byte_at(p, 3 * g + j) == p[k]);
    }
    assert(out =~= p);
}

/// ASCII bytes read as text.
pub open spec fn text_of(s: Seq<u8>) -> Seq<char> {
    s.map_values(|b: u8| b as char)
}

/// The most bytes that an encoder puts on one line.
pub open spec fn line_capacity() -> nat {
    45
}

/// The data lines for `p`: full lines of 45 bytes, then the rest.
pub open spec fn body_lines(p: Seq<u8>) -> Seq<Seq<char>>
    decreases p.len(),
{
    if p.len() == 0 {
        Seq::empty()
    } else if p.len() <= line_capacity() {
        seq![text_of(encode_line(p))]
    } else {
        seq![text_of(encode_line(p.take(line_capacity() as int)))] + body_lines(
            p.skip(line_capacity() as int),
        )
    }
}

/// A whole document as an encoder writes it for `p` under the file name
/// `name`: the begin marker with mode 644, the data lines, an empty data
/// line and the end marker.
pub open spec fn encoded_document(name: Seq<char>, p: Seq<u8>) -> Seq<Seq<char>> {
    seq![begin_prefix() + seq!['6', '4', '4', ' '] + name] + body_lines(p) + seq![
        seq!['`'],
        seq!['e', 'n', 'd'],
    ]
}

proof fn lemma_text_bytes(s: Seq<u8>)
    requires
        forall|j: int| 0 <= j < s.len() ==> #[trigger] s[j] < 128,
    ensures
        encode_utf8(text_of(s)) == s,
{
    let t = text_of(s);
    assert(is_ascii_chars(t));
    is_ascii_chars_encode_utf8(t);
    assert(encode_utf8(t) =~= s);
}

proof fn lemma_encoded_line_text(p: Seq<u8>)
    requires
        0 < p.len() < 64,
    ensures
        encode_utf8(text_of(encode_line(p))) == encode_line(p),
        line_outcome(encode_utf8(text_of(encode_line(p)))) == Ok::<Seq<u8>, DecodeError>(p),
        !is_end_marker(text_of(encode_line(p))),
{
    lemma_encoded_line_chars(p);
    lemma_text_bytes(encode_line(p));
    lemma_line_round_trip(p);
    lemma_encode_char(p.len() as u8);
    let t = text_of(encode_line(p));
    assert(t[0] == (encode_line(p)[0]) as char);
    assert(encode_line(p)[0] < 97);
}

proof fn lemma_body_lines(p: Seq<u8>, ls: Seq<Seq<char>>, i: int)
    requires
        0 <= i,
        i + body_lines(p).len() <= ls.len(),
        forall|j: int| 0 <= j < body_lines(p).len() ==> ls[i + j] == #[trigger] body_lines(p)[j],
    ensures
        body_outcome(ls, i) == prepend(p, body_outcome(ls, i + body_lines(p).len())),
    decreases p.len(),
{
    if p.len() == 0 {
        assert(Seq::<u8>::empty() == p);
        let r = body_outcome(ls, i);
        if let Ok(x) = r {
            assert(p + x =~= x);
        }
    } else if p.len() <= line_capacity() {
        assert(ls[i + 0] == body_lines(p)[0]);
        lemma_encoded_line_text(p);
    } else {
        let q = p.take(line_capacity() as int);
        let rest = p.skip(line_capacity() as int);
        assert(ls[i + 0] == body_lines(p)[0]);
        lemma_encoded_line_text(q);
        assert forall|j: int| 0 <= j < body_lines(rest).len() implies ls[(i + 1) + j]
            == #[trigger] body_lines(rest)[j] by {
            assert(ls[i + (j + 1)] == body_lines(p)[j + 1]);
        }
        lemma_body_lines(rest, ls, i + 1);
        lemma_prepend_twice(q, rest, body_outcome(ls, i + 1 + body_lines(rest).len()));
        assert(q + rest =~= p);
    }
}

/// Decoding what a standard encoder writes for any payload, under any file
/// name, gives the payload back byte for byte.
pub proof fn lemma_round_trip(name: Seq<char>, p: Seq<u8>)
    ensures
        decode_outcome(encoded_document(name, p)) == Ok::<Seq<u8>, DecodeError>(p),
{
    let ls = encoded_document(name, p);
    let n = body_lines(p).len() as int;
    let begin = begin_prefix() + seq!['6', '4', '4', ' '] + name;
    assert(ls[0] == begin);
    assert(begin.subrange(0, 6) =~= begin_prefix());
    assert(is_begin_marker(begin));
    assert forall|j: int| 0 <= j < n implies ls[1 + j] == #[trigger] body_lines(p)[j] by {}
    lemma_body_lines(p, ls, 1);
    let last = seq!['`'];
    assert(ls[1 + n] == last);
    assert(ls[2 + n] == seq!['e', 'n', 'd']);
    lemma_text_bytes(seq![96u8]);
    assert(text_of(seq![96u8]) =~= last);
    lemma_line_round_trip(Seq::empty());
    assert(encode_line(Seq::empty()) =~= seq![96u8]);
    assert(body_outcome(ls, 1 + n) == prepend(Seq::empty(), body_outcome(ls, 2 + n)));
    assert(p + Seq::<u8>::empty() =~= p);
}

} // verus!
