use hibppwdflt::parser::{
    hex_digit, parse_line, parse_shard, shard_warnings, text_to_hash_stream, ParseWarning,
};

const FIRST: [u8; 13] = [
    0x01, 0xF4, 0xA4, 0x73, 0xED, 0x69, 0x59, 0xF0, 0x44, 0x64, 0xF9, 0x1B, 0xB5,
];

#[test]
fn test_text_to_hash_stream() {
    let prefix = 0x00000;
    let text = "\
001F4A473ED6959F04464F91BB5:4
0034C209E9CA85D03512759C405:3
00CEB20FBC9D76790D7F9E6E22B:1
00F23B59311F4FFB01D6D620487:4
011059407D743D40689940F858C:1
0113BDEB707C98A8234826BF788:6
0128830292D92FA6B226EEC986B:4
015B1284879951DC072C80735DC:4
01991F12B30E3B00E7CCED2ADFB:3
01FE8FBE6BE79FC5A0D39CDFD68:5";
    let result = text_to_hash_stream(prefix, text);
    assert_eq!(
        result,
        vec![
            (
                0,
                [0x01, 0xF4, 0xA4, 0x73, 0xED, 0x69, 0x59, 0xF0, 0x44, 0x64, 0xF9, 0x1B, 0xB5]
            ),
            (
                0,
                [0x03, 0x4C, 0x20, 0x9E, 0x9C, 0xA8, 0x5D, 0x03, 0x51, 0x27, 0x59, 0xC4, 0x05]
            ),
            (
                0,
                [0x0C, 0xEB, 0x20, 0xFB, 0xC9, 0xD7, 0x67, 0x90, 0xD7, 0xF9, 0xE6, 0xE2, 0x2B]
            ),
            (
                0,
                [0x0F, 0x23, 0xB5, 0x93, 0x11, 0xF4, 0xFF, 0xB0, 0x1D, 0x6D, 0x62, 0x04, 0x87]
            ),
            (
                0,
                [0x11, 0x05, 0x94, 0x07, 0xD7, 0x43, 0xD4, 0x06, 0x89, 0x94, 0x0F, 0x85, 0x8C]
            ),
            (
                0,
                [0x11, 0x3B, 0xDE, 0xB7, 0x07, 0xC9, 0x8A, 0x82, 0x34, 0x82, 0x6B, 0xF7, 0x88]
            ),
            (
                0,
                [0x12, 0x88, 0x30, 0x29, 0x2D, 0x92, 0xFA, 0x6B, 0x22, 0x6E, 0xEC, 0x98, 0x6B]
            ),
            (
                0,
                [0x15, 0xB1, 0x28, 0x48, 0x79, 0x95, 0x1D, 0xC0, 0x72, 0xC8, 0x07, 0x35, 0xDC]
            ),
            (
                0,
                [0x19, 0x91, 0xF1, 0x2B, 0x30, 0xE3, 0xB0, 0x0E, 0x7C, 0xCE, 0xD2, 0xAD, 0xFB]
            ),
            (
                0,
                [0x1F, 0xE8, 0xFB, 0xE6, 0xBE, 0x79, 0xFC, 0x5A, 0x0D, 0x39, 0xCD, 0xFD, 0x68]
            )
        ]
    );
}

#[test]
fn first_digit_completes_the_bucket() {
    let result = text_to_hash_stream(0, "101FE8FBE6BE79FC5A0D39CDFD68:5");
    assert_eq!(
        result,
        vec![(
            0x000001,
            [0x01, 0xFE, 0x8F, 0xBE, 0x6B, 0xE7, 0x9F, 0xC5, 0xA0, 0xD3, 0x9C, 0xDF, 0xD6]
        )]
    );
    let result = text_to_hash_stream(0x8846F, "7EAEE8FB117AD06BDD830B7586C:9");
    assert_eq!(
        result,
        vec![(
            0x8846F7,
            [0xEA, 0xEE, 0x8F, 0xB1, 0x17, 0xAD, 0x06, 0xBD, 0xD8, 0x30, 0xB7, 0x58, 0x6C]
        )]
    );
    let result = text_to_hash_stream(0xFFFFF, "F01F4A473ED6959F04464F91BB5");
    assert_eq!(result, vec![(0xFFFFFF, FIRST)]);
}

#[test]
fn short_response_yields_nothing() {
    assert_eq!(text_to_hash_stream(0, "XX:N"), vec![]);
    assert_eq!(text_to_hash_stream(0, ""), vec![]);
    assert_eq!(text_to_hash_stream(0, "\n\n\n"), vec![]);
    assert_eq!(text_to_hash_stream(0, "001F4A473ED6959F04464F91BB"), vec![]);
}

#[test]
fn malformed_lines_are_passed_over() {
    let text = "\
G01F4A473ED6959F04464F91BB5:4
001F4A473ED6959F04464F91BBX:4
+01F4A473ED6959F04464F91BB5:4
001F4A473ED6959F04464F91BB5:4
short:1
00 F4A473ED6959F04464F91BB5:4
e01f4a473ed6959f04464f91bb5:2
";
    let result = text_to_hash_stream(0x00001, text);
    assert_eq!(result, vec![(0x000010, FIRST), (0x00001E, FIRST)]);
}

#[test]
fn carriage_returns_do_not_matter() {
    let text = "001F4A473ED6959F04464F91BB5:4\r\n101F4A473ED6959F04464F91BB5\r\n01F4A473ED6959F04464F91BB5\r\n";
    let result = text_to_hash_stream(2, text);
    assert_eq!(result, vec![(0x20, FIRST), (0x21, FIRST)]);
}

#[test]
fn text_beyond_ascii_is_passed_over() {
    let text = "é01F4A473ED6959F04464F91BB5:4\n201F4A473ED6959F04464F91BBé:4\n301F4A473ED6959F04464F91BB5:é";
    let result = text_to_hash_stream(0, text);
    assert_eq!(result, vec![(3, FIRST)]);
}

#[test]
fn parse_shard_reads_bytes() {
    let text: &[u8] = b"A01F4A473ED6959F04464F91BB5:4\n\xFF\xFE\nB01F4A473ED6959F04464F91BB5";
    assert_eq!(parse_shard(0xABCDE, text), vec![(0xABCDEA, FIRST), (0xABCDEB, FIRST)]);
}

#[test]
fn parse_line_needs_27_digits() {
    assert_eq!(parse_line(1, b"F01F4A473ED6959F04464F91BB5"), Ok((0x1F, FIRST)));
    assert_eq!(parse_line(1, b"F01F4A473ED6959F04464F91BB5:123"), Ok((0x1F, FIRST)));
    assert_eq!(parse_line(1, b"F01F4A473ED6959F04464F91BB5anything"), Ok((0x1F, FIRST)));
    assert_eq!(parse_line(1, b"F01F4A473ED6959F04464F91BB"), Err(ParseWarning::LineTooShort));
    assert_eq!(parse_line(1, b"F01F4A473ED6959F04464F91BB:5"), Err(ParseWarning::InvalidSuffix));
    assert_eq!(parse_line(1, b"F01F4A473ED6959F04464F91BB5"[..26].as_ref()), Err(ParseWarning::LineTooShort));
    assert_eq!(parse_line(1, b":01F4A473ED6959F04464F91BB5"), Err(ParseWarning::InvalidFirstChar));
    assert_eq!(parse_line(1, b":01F4A473ED6959F04464F91BB:"), Err(ParseWarning::InvalidFirstChar));
    assert_eq!(parse_line(1, b"+01F4A473ED6959F04464F91BB5"), Err(ParseWarning::InvalidFirstChar));
    assert_eq!(parse_line(1, b"0+1F4A473ED6959F04464F91BB5"), Err(ParseWarning::InvalidSuffix));
    assert_eq!(parse_line(1, b""), Err(ParseWarning::LineTooShort));
    assert_eq!(parse_line(1, b"XX:N"), Err(ParseWarning::LineTooShort));
}

#[test]
fn lines_passed_over_are_reported() {
    let text = "\
G01F4A473ED6959F04464F91BB5:4
001F4A473ED6959F04464F91BBX:4
001F4A473ED6959F04464F91BB5:4

short:1\r
e01f4a473ed6959f04464f91bb5:2\r
e01f4a473ed6959f04464f91bb\r
e01f4a473ed6959f04464f91bb\r";
    assert_eq!(
        shard_warnings(text),
        vec![
            (0, ParseWarning::InvalidFirstChar),
            (1, ParseWarning::InvalidSuffix),
            (3, ParseWarning::LineTooShort),
            (4, ParseWarning::LineTooShort),
            (6, ParseWarning::LineTooShort),
            (7, ParseWarning::InvalidSuffix),
        ]
    );
    assert_eq!(text_to_hash_stream(0, text), vec![(0, FIRST), (0xE, FIRST)]);
    assert_eq!(shard_warnings(""), vec![]);
    assert_eq!(shard_warnings("\n"), vec![(0, ParseWarning::LineTooShort)]);
    assert_eq!(shard_warnings("001F4A473ED6959F04464F91BB5:4\n"), vec![]);
    assert_eq!(shard_warnings("001F4A473ED6959F04464F91BB5:4\r\n"), vec![]);
    assert_eq!(
        shard_warnings("001F4A473ED6959F04464F91BB5:4\n\n"),
        vec![(1, ParseWarning::LineTooShort)]
    );
    assert_eq!(shard_warnings("XX:N"), vec![(0, ParseWarning::LineTooShort)]);
}

#[test]
fn hex_digit_values() {
    assert_eq!(hex_digit(b'0'), Some(0));
    assert_eq!(hex_digit(b'9'), Some(9));
    assert_eq!(hex_digit(b'A'), Some(10));
    assert_eq!(hex_digit(b'F'), Some(15));
    assert_eq!(hex_digit(b'a'), Some(10));
    assert_eq!(hex_digit(b'f'), Some(15));
    assert_eq!(hex_digit(b'G'), None);
    assert_eq!(hex_digit(b'g'), None);
    assert_eq!(hex_digit(b'/'), None);
    assert_eq!(hex_digit(b':'), None);
    assert_eq!(hex_digit(b'@'), None);
    assert_eq!(hex_digit(b'`'), None);
    assert_eq!(hex_digit(b'+'), None);
    assert_eq!(hex_digit(0xC3), None);
}

#[test]
fn line_of_a_record_is_read_back() {
    let suffix: [u8; 13] = [
        0x00, 0xFF, 0x10, 0x0F, 0xA5, 0x5A, 0x7E, 0xE7, 0x99, 0xAB, 0xCD, 0xEF, 0x01,
    ];
    for nibble in 0u32..16 {
        let prefix20 = 0x4C2B1;
        let mut line = format!("{:X}", nibble);
        for byte in suffix.iter() {
            line.push_str(&format!("{:02X}", byte));
        }
        line.push_str(":17");
        assert_eq!(text_to_hash_stream(prefix20, &line), vec![(prefix20 * 16 + nibble, suffix)]);
    }
}
