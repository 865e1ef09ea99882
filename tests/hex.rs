use hxx::{format_hex_dump_line, format_reverse_hex_dump_line, hex_dump, reverse_hex_dump, run};
use hxx::{Config, HexError};

fn config(cols: usize, byte_groups: usize, reverse: bool) -> Config {
    Config { cols, byte_groups, reverse, input: None, output: None }
}

#[test]
fn test_missing_colon() {
    let result = reverse_hex_dump("00000000  48 65 6c 6c 6f 20 77 6f  72 6c 64\n");
    assert!(result.is_err());
    assert!(result.unwrap_err().message().contains("missing ':'"));
}

#[test]
fn test_missing_double_space_separator() {
    let result = reverse_hex_dump("00000000: 48 65 6c 6c 6f 20 776f726c64\n");
    assert!(result.is_err());
    assert!(result.unwrap_err().message().contains("missing double space separator"));
}

#[test]
fn test_line_too_short() {
    let result = reverse_hex_dump("00000000: 48\n");
    assert!(result.is_err());
    assert!(result.unwrap_err().message().contains("missing double space separator"));
}

#[test]
fn test_odd_number_of_hex_digits() {
    let result = reverse_hex_dump("00000000: 4 8 6 5 6 c 6 c 6 f 2 0 7 7 6 f 7 2 6 c 6  \n");
    assert!(result.is_err());
    assert!(result.unwrap_err().message().contains("odd number of hex digits"));
}

#[test]
fn test_invalid_hex_character() {
    let result = reverse_hex_dump("00000000: 48 65 6c 6c 6f 2G 77 6f 72 6c 64  \n");
    assert!(result.is_err());
    assert!(result.unwrap_err().message().contains("invalid hex char"));
}

#[test]
fn decoder_error_literals() {
    assert_eq!(reverse_hex_dump("00000000  48 65\n"), Err(HexError::MissingOffsetDelimiter));
    assert_eq!(reverse_hex_dump("00000000: 4865 6c6c\n"), Err(HexError::MissingPanelSeparator));
    assert_eq!(reverse_hex_dump("00000000: 4  \n"), Err(HexError::OddDigitCount));
    assert_eq!(reverse_hex_dump("00000000: 4g  \n"), Err(HexError::InvalidHexDigit));
}

#[test]
fn section_starting_past_the_end() {
    assert_eq!(reverse_hex_dump("abc:"), Err(HexError::LineTooShort));
    assert_eq!(reverse_hex_dump("abc:\n"), Err(HexError::MissingPanelSeparator));
}

#[test]
fn empty_input_gives_no_lines() {
    assert_eq!(hex_dump(b"", 16, 2), "");
    assert_eq!(reverse_hex_dump(""), Ok(vec![]));
}

#[test]
fn short_line_padding() {
    // Five spaces of padding (two missing bytes, one missing group gap), then two.
    assert_eq!(hex_dump(b"AB", 4, 2), "00000000: 4142       AB\n");
}

#[test]
fn hello_world_line() {
    assert_eq!(
        hex_dump(b"Hello world", 16, 2),
        "00000000: 4865 6c6c 6f20 776f 726c 64              Hello world\n"
    );
}

#[test]
fn offsets_advance_by_chunk_length() {
    let data: Vec<u8> = (0u8..20).collect();
    let text = hex_dump(&data, 8, 4);
    assert_eq!(
        text,
        "00000000: 00010203 04050607  ........\n\
         00000008: 08090a0b 0c0d0e0f  ........\n\
         00000010: 10111213           ....\n"
    );
}

#[test]
fn panels_line_up_when_groups_divide_columns() {
    let data: Vec<u8> = (0u8..37).collect();
    let text = hex_dump(&data, 16, 2);
    let lengths = [16, 16, 5];
    let columns: Vec<usize> = text.lines().zip(lengths).map(|(l, n)| l.len() - n).collect();
    assert_eq!(columns.len(), 3);
    assert!(columns.iter().all(|&c| c == columns[0]));
}

#[test]
fn padding_truncates_when_groups_do_not_divide_columns() {
    assert_eq!(hex_dump(b"AB", 4, 3), "00000000: 4142      AB\n");
    assert_eq!(hex_dump(b"ABCD", 4, 3), "00000000: 414243 44  ABCD\n");
}

#[test]
fn panel_shows_printable_ascii_only() {
    let text = hex_dump(&[0x1f, 0x20, 0x7e, 0x7f, 0x0a, 0xff], 6, 1);
    assert_eq!(text, "00000000: 1f 20 7e 7f 0a ff  . ~...\n");
}

#[test]
fn zero_columns_give_no_lines() {
    assert_eq!(hex_dump(b"abc", 0, 2), "");
}

#[test]
fn wide_offsets_keep_all_digits() {
    let mut line = String::from(">");
    format_hex_dump_line(&mut line, &[0xab], 0x1_0000_0000, 2, 1);
    assert_eq!(line, ">100000000: ab     .");
    let mut line = String::new();
    format_hex_dump_line(&mut line, b"xyz", 0x2a, 3, 2);
    assert_eq!(line, "0000002a: 7879 7a  xyz");
}

#[test]
fn round_trip_on_samples() {
    let all: Vec<u8> = (0..=255u8).collect();
    let samples: Vec<(Vec<u8>, usize, usize)> = vec![
        (all.clone(), 16, 2),
        (all.clone(), 5, 3),
        (all.clone(), 256, 256),
        (b"Hello world".to_vec(), 1, 1),
        (b"x".to_vec(), 7, 9),
        (vec![], 16, 2),
    ];
    for (data, cols, groups) in samples {
        let text = hex_dump(&data, cols, groups);
        assert_eq!(reverse_hex_dump(&text), Ok(data.clone()));
        let bytes = run(&config(cols, groups, false), &data).unwrap();
        assert_eq!(run(&config(16, 2, true), &bytes), Ok(data));
    }
}

#[test]
fn same_input_same_dump() {
    let data = b"deterministic \x00\x01 output";
    assert_eq!(hex_dump(data, 7, 3), hex_dump(data, 7, 3));
    assert_eq!(run(&config(7, 3, false), data), run(&config(7, 3, false), data));
}

#[test]
fn run_dumps_to_bytes() {
    assert_eq!(run(&config(4, 2, false), b"AB"), Ok(b"00000000: 4142       AB\n".to_vec()));
}

#[test]
fn run_rejects_text_that_is_not_utf8() {
    assert_eq!(run(&config(16, 2, true), &[0x30, 0xff, 0x3a]), Err(HexError::InvalidUtf8));
    assert_eq!(
        run(&config(16, 2, true), "00000000: 4142  AB\n".as_bytes()),
        Ok(vec![0x41, 0x42])
    );
}

#[test]
fn reader_ignores_offsets_and_panel() {
    let text = "ffffffff: 4A4b  whatever: 00 11\n00000000: 43  C";
    assert_eq!(reverse_hex_dump(text), Ok(vec![0x4a, 0x4b, 0x43]));
}

#[test]
fn reader_skips_all_whitespace_in_section() {
    assert_eq!(reverse_hex_dump("0: 41\t42\r43  x\n"), Ok(vec![0x41, 0x42, 0x43]));
    assert_eq!(reverse_hex_dump("0: 41\u{3000}42  x\n"), Ok(vec![0x41, 0x42]));
    assert_eq!(reverse_hex_dump("0: 41\u{e9}2  x\n"), Err(HexError::InvalidHexDigit));
}

#[test]
fn first_bad_line_stops_reading() {
    assert_eq!(
        reverse_hex_dump("0: 41  A\nno colon here\n0: 42  B\n"),
        Err(HexError::MissingOffsetDelimiter)
    );
}

#[test]
fn line_reader_appends_or_leaves_buffer() {
    let mut out = vec![0x01];
    assert_eq!(format_reverse_hex_dump_line(&mut out, "00000000: 0203 04  ...\n"), Ok(()));
    assert_eq!(out, vec![0x01, 0x02, 0x03, 0x04]);
    assert_eq!(format_reverse_hex_dump_line(&mut out, "00000000: 0  \n"), Err(HexError::OddDigitCount));
    assert_eq!(out, vec![0x01, 0x02, 0x03, 0x04]);
}
