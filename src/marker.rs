use vstd::prelude::*;
use vstd::string::*;

verus! {

/// The literal text that opens a begin marker.
pub open spec fn begin_prefix() -> Seq<char> {
    seq!['b', 'e', 'g', 'i', 'n', ' ']
}

/// An ASCII digit.
pub open spec fn is_digit_char(c: char) -> bool {
    '0' <= c && c <= '9'
}

/// A begin marker: `begin `, three ASCII digits and a space. What follows
/// (the file name) is not looked at.
pub open spec fn is_begin_marker(l: Seq<char>) -> bool {
    &&& l.len() >= 10
    &&& l.subrange(0, 6) == begin_prefix()
    &&& is_digit_char(l[6])
    &&& is_digit_char(l[7])
    &&& is_digit_char(l[8])
    &&& l[9] == ' '
}

/// The end marker: the line `end` and nothing else.
pub open spec fn is_end_marker(l: Seq<char>) -> bool {
    l == seq!['e', 'n', 'd']
}

/// Whether `line` opens the encoded body.
pub fn is_begin_line(line: &str) -> (r: bool)
    ensures
        r == is_begin_marker(line@),
{
    let prefix = "begin ";
    proof {
        reveal_strlit("begin ");
    }
    // The prefix, three digits and a space.
    if line.unicode_len() < 10 {
        return false;
    }
    let mut i: usize = 0;
    while i < 6
        invariant
            i <= 6,
            line@.len() >= 10,
            prefix@ == begin_prefix(),
            forall|j: int| 0 <= j < i ==> line@[j] == begin_prefix()[j],
        decreases 6 - i,
    {
        if line.get_char(i) != prefix.get_char(i) {
            return false;
        }
        i = i + 1;
    }
    assert(line@.subrange(0, 6) =~= begin_prefix());
    while i < 9
        invariant
            6 <= i <= 9,
            line@.len() >= 10,
            forall|j: int| 6 <= j < i ==> is_digit_char(line@[j]),
        decreases 9 - i,
    {
        let c = line.get_char(i);
        if !('0' <= c && c <= '9') {
            return false;
        }
        i = i + 1;
    }
    line.get_char(9) == ' '
}

/// Whether `line` closes the encoded body.
pub fn is_end_line(line: &str) -> (r: bool)
    ensures
        r == is_end_marker(line@),
{
    if line.unicode_len() != 3 {
        return false;
    }
    let r = line.get_char(0) == 'e' && line.get_char(1) == 'n' && line.get_char(2) == 'd';
    assert(r ==> line@ =~= seq!['e', 'n', 'd']);
    r
}

} // verus!
