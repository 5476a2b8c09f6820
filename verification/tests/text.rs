use ferrumdb::error::FerrumError;
use ferrumdb::text::{parse_u64, push_decimal, trim};

#[test]
fn parse_u64_agrees_with_std() {
    let cases = [
        "0", "7", "+7", "+", "", "-1", "-0", "12a", " 1", "1 ", "18446744073709551615",
        "18446744073709551616", "99999999999999999999", "00042", "++1", "٣",
    ];
    for c in cases {
        assert_eq!(parse_u64(c), c.parse::<u64>().ok(), "input {:?}", c);
    }
}

#[test]
fn trim_agrees_with_std() {
    let cases = ["", "   ", " a ", "\t\nab c\r\n", "x", "\u{3000}wide\u{2003}", "a  b"];
    for c in cases {
        assert_eq!(trim(c), c.trim(), "input {:?}", c);
    }
}

#[test]
fn decimal_digits() {
    let mut s = String::from("n=");
    push_decimal(&mut s, 0);
    assert_eq!(s, "n=0");
    let mut s = String::new();
    push_decimal(&mut s, 1234567890123);
    assert_eq!(s, "1234567890123");
    let mut s = String::new();
    push_decimal(&mut s, u128::MAX);
    assert_eq!(s, u128::MAX.to_string());
}

#[test]
fn error_messages() {
    assert_eq!(FerrumError::Io("disk full".into()).message(), "IO error: disk full");
    assert_eq!(FerrumError::Bincode("bad".into()).message(), "Bincode error: bad");
    assert_eq!(FerrumError::Corruption("At offset 0".into()).message(), "Data corruption: At offset 0");
    assert_eq!(FerrumError::InvalidCommand("FOO".into()).message(), "Unknown command: FOO");
    assert_eq!(FerrumError::InvalidConfig("x".into()).message(), "Invalid config: x");
    assert_eq!(FerrumError::MissingArgument("key").message(), "Missing argument: key");
}

#[test]
fn whitespace_set_matches_char_is_whitespace() {
    for n in 0u32..0x11000 {
        if let Some(c) = char::from_u32(n) {
            assert_eq!(ferrumdb::text::is_whitespace(c), c.is_whitespace(), "U+{:04X}", n);
        }
    }
    assert!(ferrumdb::text::is_whitespace('\u{3000}'));
    assert!(!ferrumdb::text::is_whitespace('\u{FEFF}'));
}
