use wol_rs::address::is_white_space_char;
use wol_rs::{format_mac, parse_mac, parse_password, ParseError};

#[test]
fn parse_mac_accepts_common_spellings() {
    let want = [0x00, 0x11, 0x22, 0x33, 0x44, 0x55];
    for s in [
        "00:11:22:33:44:55",
        "00-11-22-33-44-55",
        "0011.2233.4455",
        "001122334455",
        "00 11 22 33 44 55",
    ] {
        assert_eq!(parse_mac(s).unwrap(), want, "input: {s}");
    }
}

#[test]
fn parse_mac_rejects_short_long_and_garbage() {
    assert_eq!(parse_mac("aa:bb:cc").unwrap_err(), ParseError::TooShort);
    assert_eq!(
        parse_mac("00112233445566").unwrap_err(),
        ParseError::TooLong
    );
    assert_eq!(
        parse_mac("00:11:2g:33:44:55").unwrap_err(),
        ParseError::InvalidChar('g')
    );
}

#[test]
fn format_mac_round_trip() {
    let m = [0xAA, 0xBB, 0xCC, 0xDD, 0xEE, 0xFF];
    let s = format_mac(m);
    assert_eq!(s, "AA:BB:CC:DD:EE:FF");
    assert_eq!(parse_mac(&s).unwrap(), m);
}

#[test]
fn format_mac_pads_each_byte_to_two_digits() {
    assert_eq!(format_mac([0, 1, 0x0a, 0x10, 0x9f, 0xff]), "00:01:0A:10:9F:FF");
}

#[test]
fn format_then_parse_gives_the_bytes_back() {
    for seed in 0u32..2000 {
        let b = [
            (seed * 7) as u8,
            (seed * 13 + 1) as u8,
            (seed >> 3) as u8,
            (seed * 31) as u8,
            (seed ^ 0x5a) as u8,
            (seed * 101 + 17) as u8,
        ];
        assert_eq!(parse_mac(&format_mac(b)), Ok(b));
        assert_eq!(parse_password(&format_mac(b)), Ok(b));
    }
}

#[test]
fn hex_digits_are_read_without_regard_to_case() {
    let want = [0xAA, 0xBB, 0xCC, 0xDD, 0xEE, 0xFF];
    assert_eq!(parse_mac("aa:bb:cc:dd:ee:ff"), Ok(want));
    assert_eq!(parse_mac("AA:BB:CC:DD:EE:FF"), Ok(want));
    assert_eq!(parse_mac("aA:Bb:cC:Dd:eE:Ff"), Ok(want));
    assert_eq!(parse_mac("ab"), parse_mac("AB"));
}

#[test]
fn separators_may_stand_anywhere() {
    let want = Ok([0x00, 0x11, 0x22, 0x33, 0x44, 0x55]);
    assert_eq!(parse_mac(":0.0-1 1::22\t33\n44--55.."), want);
    assert_eq!(parse_mac("00\u{3000}11\u{a0}22\u{2028}33\u{85}44\u{1680}55"), want);
    assert_eq!(parse_mac(" 001122334455 "), want);
}

#[test]
fn empty_and_separator_only_inputs_are_too_short() {
    assert_eq!(parse_mac(""), Err(ParseError::TooShort));
    assert_eq!(parse_mac(":-. "), Err(ParseError::TooShort));
    assert_eq!(parse_mac("00112233445"), Err(ParseError::TooShort));
}

#[test]
fn the_first_offending_character_decides_the_error() {
    // A non-digit among the first thirteen digits is reported as such.
    assert_eq!(parse_mac("001122334455g"), Err(ParseError::InvalidChar('g')));
    assert_eq!(parse_mac("g01122334455"), Err(ParseError::InvalidChar('g')));
    // A thirteenth digit makes the input too long, whatever follows.
    assert_eq!(parse_mac("0011223344556g"), Err(ParseError::TooLong));
    // A short input with a bad character reports the character.
    assert_eq!(parse_mac("00:zz"), Err(ParseError::InvalidChar('z')));
    assert_eq!(parse_mac("é"), Err(ParseError::InvalidChar('é')));
}

#[test]
fn parse_password_reads_like_parse_mac() {
    for s in ["DE:AD:BE:EF:DE:AD", "nope", "de-ad", "deadbeefdeadbe", ""] {
        assert_eq!(parse_password(s), parse_mac(s), "input: {s}");
    }
    assert_eq!(
        parse_password("DE:AD:BE:EF:DE:AD"),
        Ok([0xDE, 0xAD, 0xBE, 0xEF, 0xDE, 0xAD])
    );
}

#[test]
fn every_character_is_a_separator_a_digit_or_invalid() {
    // Between the first two digits, a separator is skipped, a hex digit makes
    // thirteen digits, and anything else is reported.
    for c in (0u32..=0x10FFFF).filter_map(char::from_u32) {
        let s = format!("0{c}01122334455");
        let got = parse_mac(&s);
        if matches!(c, ':' | '-' | '.') || c.is_whitespace() {
            assert_eq!(got, Ok([0x00, 0x11, 0x22, 0x33, 0x44, 0x55]), "char {c:?}");
        } else if c.to_digit(16).is_some() {
            assert_eq!(got, Err(ParseError::TooLong), "char {c:?}");
        } else {
            assert_eq!(got, Err(ParseError::InvalidChar(c)), "char {c:?}");
        }
        assert_eq!(is_white_space_char(c), c.is_whitespace(), "char {c:?}");
    }
}

#[test]
fn error_messages() {
    assert_eq!(ParseError::TooShort.message(), "too few hex digits (need 12)");
    assert_eq!(ParseError::TooLong.message(), "too many hex digits (max 12)");
    assert_eq!(ParseError::InvalidChar('g').message(), "invalid character: 'g'");
    assert_eq!(ParseError::InvalidChar('\n').message(), "invalid character: '\\n'");
}
