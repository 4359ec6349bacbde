use uudecode::charset::byte_value;
use uudecode::document::{decode_lines, DecoderState};
use uudecode::error::DecodeError;
use uudecode::line::decode_line;
use uudecode::marker::{is_begin_line, is_end_line};

#[test]
fn byte_value_backtick_is_zero() {
    assert_eq!(byte_value(b'`'), Ok(0));
}

#[test]
fn byte_value_printable_range() {
    assert_eq!(byte_value(b'!'), Ok(1));
    assert_eq!(byte_value(b'A'), Ok(33));
    assert_eq!(byte_value(b'_'), Ok(63));
    assert_eq!(byte_value(b'a'), Ok(65));
    assert_eq!(byte_value(b'~'), Ok(94));
}

#[test]
fn byte_value_rejects_everything_else() {
    for c in [0u8, 10, 31, 32, 127, 128, 200, 255] {
        assert_eq!(byte_value(c), Err(DecodeError::InvalidCharacter(c)));
    }
}

#[test]
fn byte_value_all_bytes() {
    for c in 0u8..=255 {
        let expected = if c == 96 {
            Ok(0)
        } else if c > 32 && c < 127 {
            Ok(c - 32)
        } else {
            Err(DecodeError::InvalidCharacter(c))
        };
        assert_eq!(byte_value(c), expected);
    }
}

#[test]
fn begin_marker_matching() {
    assert!(is_begin_line("begin 644 file.txt"));
    assert!(!is_begin_line("begin 64 x"));
    assert!(!is_begin_line("beginx644 x"));
    assert!(!is_begin_line("begin "));
    assert!(!is_begin_line(""));
}

#[test]
fn begin_marker_edges() {
    assert!(is_begin_line("begin 755 "));
    assert!(!is_begin_line("begin 755"));
    assert!(!is_begin_line("begin 7a5 x"));
    assert!(!is_begin_line("begin 6444 x"));
    assert!(!is_begin_line("Begin 644 x"));
    assert!(!is_begin_line(" begin 644 x"));
    assert!(!is_begin_line("begin 64é x"));
    assert!(is_begin_line("begin 000 é"));
}

#[test]
fn end_marker_matching() {
    assert!(is_end_line("end"));
    assert!(!is_end_line("end "));
    assert!(!is_end_line("en"));
    assert!(!is_end_line("End"));
    assert!(!is_end_line(""));
}

#[test]
fn zero_length_line_decodes_to_nothing() {
    assert_eq!(decode_line("`"), Ok(vec![]));
    assert_eq!(decode_line("`garbage \u{1}"), Ok(vec![]));
}

#[test]
fn decode_line_three_bytes() {
    assert_eq!(decode_line("#0V%T"), Ok(b"Cat".to_vec()));
}

#[test]
fn decode_line_with_padding() {
    assert_eq!(decode_line("-2&5L;&\\L('=O<FQD(0``"), Ok(b"Hello, world!".to_vec()));
}

#[test]
fn decode_line_high_bits() {
    assert_eq!(decode_line("%````__\\`"), Ok(vec![0, 0, 0, 255, 255]));
}

#[test]
fn decode_line_ignores_trailing_characters() {
    assert_eq!(decode_line("#0V%T extra \u{7f}"), Ok(b"Cat".to_vec()));
}

#[test]
fn decode_line_characters_above_underscore_overlap() {
    // 'a' stands for 65, whose seventh bit falls on the lowest bit of the
    // character before it: (1 << 6 | 65) >> 4 == 4.
    assert_eq!(decode_line("!!a"), Ok(vec![4]));
}

#[test]
fn empty_line_is_rejected() {
    assert_eq!(decode_line(""), Err(DecodeError::EmptyLine));
}

#[test]
fn truncated_data_line() {
    assert_eq!(decode_line("#0V%"), Err(DecodeError::LineTooShort));
    assert_eq!(decode_line("#"), Err(DecodeError::LineTooShort));
    assert_eq!(decode_line("#0"), Err(DecodeError::LineTooShort));
}

#[test]
fn invalid_length_character() {
    assert_eq!(decode_line(" 0V%T"), Err(DecodeError::InvalidCharacter(32)));
    assert_eq!(decode_line("\u{7f}0V%T"), Err(DecodeError::InvalidCharacter(127)));
}

#[test]
fn invalid_data_character() {
    assert_eq!(decode_line("#0 %T"), Err(DecodeError::InvalidCharacter(32)));
    assert_eq!(decode_line("#0V%\t"), Err(DecodeError::InvalidCharacter(9)));
}

#[test]
fn invalid_character_before_line_ends() {
    // The bad character is met before the line runs out.
    assert_eq!(decode_line("#0 "), Err(DecodeError::InvalidCharacter(32)));
}

#[test]
fn non_ascii_character_is_rejected() {
    assert_eq!(decode_line("#0é%T"), Err(DecodeError::InvalidCharacter(0xc3)));
}

#[test]
fn end_to_end_scenario() {
    let lines = ["begin 644 test.txt", "(:&AU<&5R<PH`", "`", "end"];
    assert_eq!(decode_lines(&lines), Ok(b"hhupers\n".to_vec()));
}

#[test]
fn end_to_end_scenario_literal_fixture() {
    // The length character '+' declares 11 bytes, which need 15 data
    // characters; the line carries 12.
    let lines = ["begin 644 test.txt", "+:&AU<&5R<PH`", "`", "end"];
    assert_eq!(decode_lines(&lines), Err(DecodeError::LineTooShort));
}

#[test]
fn end_to_end_superb() {
    let lines = ["begin 644 superb.txt", ".02!S=7!E<F(@=&5S=`H`", "`", "end"];
    assert_eq!(decode_lines(&lines), Ok(b"A superb test\n".to_vec()));
}

#[test]
fn round_trip_several_lines() {
    let lines = [
        "some preamble",
        "begin 600 bytes.bin",
        "M``$\"`P0%!@<(\"0H+#`T.#Q`1$A,4%187&!D:&QP='A\\@(2(C)\"4F)R@I*BLL",
        "/+2XO,#$R,S0U-C<X.3H[",
        "`",
        "end",
    ];
    let expected: Vec<u8> = (0u8..60).collect();
    assert_eq!(decode_lines(&lines), Ok(expected));
}

#[test]
fn missing_terminator() {
    let lines = ["begin 644 test.txt", "#0V%T", "`"];
    assert_eq!(decode_lines(&lines), Err(DecodeError::MissingEndMarker));
    let lines = ["begin 644 test.txt"];
    assert_eq!(decode_lines(&lines), Err(DecodeError::MissingEndMarker));
}

#[test]
fn no_marker() {
    let lines = ["hello", "world", "end"];
    assert_eq!(decode_lines(&lines), Err(DecodeError::NoBeginMarker));
    let lines: [&str; 0] = [];
    assert_eq!(decode_lines(&lines), Err(DecodeError::NoBeginMarker));
}

#[test]
fn truncated_line_in_document() {
    let lines = ["begin 644 x", "#0V%", "end"];
    assert_eq!(decode_lines(&lines), Err(DecodeError::LineTooShort));
}

#[test]
fn empty_line_in_document() {
    let lines = ["begin 644 x", "#0V%T", "", "end"];
    assert_eq!(decode_lines(&lines), Err(DecodeError::EmptyLine));
}

#[test]
fn lines_before_begin_are_not_decoded() {
    let lines = ["", "  \u{1}", "begin 644 x", "#0V%T", "end"];
    assert_eq!(decode_lines(&lines), Ok(b"Cat".to_vec()));
}

#[test]
fn content_after_end_is_ignored() {
    let lines = ["begin 644 x", "#0V%T", "end", "", "begin 644 y", "#0V%T", "end"];
    assert_eq!(decode_lines(&lines), Ok(b"Cat".to_vec()));
}

#[test]
fn state_machine_steps() {
    let mut out: Vec<u8> = vec![7];
    let s = DecoderState::Scanning.feed("hello", &mut out);
    assert_eq!(s, Ok(DecoderState::Scanning));
    let s = DecoderState::Scanning.feed("begin 644 x", &mut out);
    assert_eq!(s, Ok(DecoderState::ReadingData));
    let s = DecoderState::ReadingData.feed("#0V%T", &mut out);
    assert_eq!(s, Ok(DecoderState::ReadingData));
    assert_eq!(out, vec![7, b'C', b'a', b't']);
    let s = DecoderState::ReadingData.feed("end", &mut out);
    assert_eq!(s, Ok(DecoderState::Done));
    let s = DecoderState::Done.feed("#0V%T", &mut out);
    assert_eq!(s, Ok(DecoderState::Done));
    assert_eq!(out, vec![7, b'C', b'a', b't']);
    let s = DecoderState::ReadingData.feed("#0V%", &mut out);
    assert_eq!(s, Err(DecodeError::LineTooShort));
    assert_eq!(out, vec![7, b'C', b'a', b't']);
}

#[test]
fn state_machine_finish() {
    assert_eq!(DecoderState::Scanning.finish(), Err(DecodeError::NoBeginMarker));
    assert_eq!(DecoderState::ReadingData.finish(), Err(DecodeError::MissingEndMarker));
    assert_eq!(DecoderState::Done.finish(), Ok(()));
}
