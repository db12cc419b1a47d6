use ppm_decoder::error::{PpmError, Separator};
use ppm_decoder::header::{next_n, parse_ws_delim_ascii_decimal, parse_u32_token, utf8_check};

#[test]
fn next_n_collects_exactly_n_bytes() {
    let bytes = vec![1, 2, 3];
    assert_eq!(next_n(&bytes, 0, 2), Some(vec![1, 2]));
    assert_eq!(next_n(&bytes, 1, 2), Some(vec![2, 3]));
    assert_eq!(next_n(&bytes, 2, 2), None);
    assert_eq!(next_n(&bytes, 0, 0), Some(vec![]));
    assert_eq!(next_n(&bytes, 3, 1), None);
}

#[test]
fn field_parse_returns_value_and_cursor_at_terminator() {
    let bytes = b" 42 ".to_vec();
    let (value, cursor) = parse_ws_delim_ascii_decimal(&bytes, 0, Separator::AfterSignature)
        .unwrap();
    assert_eq!(value, 42);
    assert_eq!(cursor, 3);
    assert_eq!(bytes[cursor], b' ');
}

#[test]
fn field_parse_skips_whitespace_runs() {
    let bytes = b" \t\r\n 42 ".to_vec();
    let (value, cursor) = parse_ws_delim_ascii_decimal(&bytes, 0, Separator::AfterWidth).unwrap();
    assert_eq!(value, 42);
    assert_eq!(cursor, 7);
}

#[test]
fn field_parse_requires_leading_whitespace() {
    let bytes = b"42 ".to_vec();
    assert_eq!(
        parse_ws_delim_ascii_decimal(&bytes, 0, Separator::AfterHeight),
        Err(PpmError::IncorrectFormat(Separator::AfterHeight))
    );
}

#[test]
fn field_parse_reports_eof() {
    // Runs out while skipping whitespace, inside the token, and at once.
    assert_eq!(
        parse_ws_delim_ascii_decimal(&b"  ".to_vec(), 0, Separator::AfterWidth),
        Err(PpmError::UnexpectedEOF)
    );
    assert_eq!(
        parse_ws_delim_ascii_decimal(&b" 42".to_vec(), 0, Separator::AfterWidth),
        Err(PpmError::UnexpectedEOF)
    );
    assert_eq!(
        parse_ws_delim_ascii_decimal(&b"".to_vec(), 0, Separator::AfterWidth),
        Err(PpmError::UnexpectedEOF)
    );
}

#[test]
fn field_parse_distinguishes_parse_and_conversion_errors() {
    assert_eq!(
        parse_ws_delim_ascii_decimal(&b" 4a2 ".to_vec(), 0, Separator::AfterWidth),
        Err(PpmError::Parse)
    );
    let mut bytes = b" ".to_vec();
    bytes.push(0xff);
    bytes.extend_from_slice(b" ");
    assert_eq!(
        parse_ws_delim_ascii_decimal(&bytes, 0, Separator::AfterWidth),
        Err(PpmError::StringConversion)
    );
}

#[test]
fn utf8_check_agrees_with_std() {
    let cases: Vec<Vec<u8>> = vec![
        b"".to_vec(),
        b"123".to_vec(),
        "héllo".as_bytes().to_vec(),
        "\u{07FF}\u{0800}\u{FFFD}\u{10FFFF}".as_bytes().to_vec(),
        vec![0xff],
        vec![0xc3, 0x28],
        vec![0xc0, 0xaf],             // overlong two-byte form
        vec![0xe0, 0x80, 0x80],       // overlong three-byte form
        vec![0xed, 0xa0, 0x80],       // surrogate
        vec![0xf4, 0x90, 0x80, 0x80], // above U+10FFFF
        vec![0xf0, 0x9f, 0x92, 0x96],
        vec![0xe2, 0x82],             // truncated sequence
        vec![0x80],                   // stray continuation byte
    ];
    for case in cases {
        assert_eq!(
            utf8_check(&case),
            std::str::from_utf8(&case).is_ok(),
            "disagrees on {:?}",
            case
        );
    }
}

#[test]
fn u32_token_parse_agrees_with_std() {
    let cases: Vec<&str> = vec![
        "0",
        "42",
        "+7",
        "007",
        "4294967295",
        "4294967296",
        "99999999999999999999",
        "",
        "+",
        "++1",
        "1a",
        "-1",
        " 1",
    ];
    for case in cases {
        let bytes = case.as_bytes().to_vec();
        let expected = case.parse::<u32>().ok();
        assert_eq!(parse_u32_token(&bytes), expected, "disagrees on {:?}", case);
    }
}
