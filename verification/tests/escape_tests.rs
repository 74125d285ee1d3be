//! Tests of the escaping strategies and the line separator.

use burne::errors::RenameError;
use burne::escape::{line_separator_from_null_data_flag, Escape, LineSeparator};
use burne::utf8::is_utf8_bytes;

fn b(s: &str) -> Vec<u8> {
    s.as_bytes().to_vec()
}

#[test]
fn line_separator_flag_and_values() {
    assert_eq!(line_separator_from_null_data_flag(false), LineSeparator::LineFeed);
    assert_eq!(line_separator_from_null_data_flag(true), LineSeparator::Null);
    assert_eq!(LineSeparator::LineFeed.to_byte(), b'\n');
    assert_eq!(LineSeparator::Null.to_byte(), 0);
    assert_eq!(LineSeparator::LineFeed.to_char(), '\n');
    assert_eq!(LineSeparator::Null.to_char(), '\0');
}

#[test]
fn escape_from_cli_str() {
    assert_eq!(Escape::try_from_cli_str("none").unwrap(), Escape::NoEscape);
    assert_eq!(Escape::try_from_cli_str("percent").unwrap(), Escape::PercentEncoding);
    assert_eq!(
        Escape::try_from_cli_str("percent-encoding").unwrap(),
        Escape::PercentEncoding
    );
    match Escape::try_from_cli_str("rot13") {
        Err(RenameError::UnknownEscape { value }) => assert_eq!(value, "rot13"),
        other => panic!("expected an unknown-escape error, got {:?}", other),
    }
}

#[test]
fn escape_cli_possible_values() {
    assert_eq!(
        Escape::cli_possible_values(),
        vec!["none", "percent", "percent-encoding"]
    );
}

#[test]
fn escape_none_passes_plain_names() {
    let r = Escape::NoEscape.escape(&b("plain name.txt"), LineSeparator::LineFeed);
    assert_eq!(r.unwrap(), b("plain name.txt"));
}

#[test]
fn escape_none_rejects_separator() {
    match Escape::NoEscape.escape(&b("two\nlines"), LineSeparator::LineFeed) {
        Err(RenameError::SeparatorInName { name }) => assert_eq!(name, b("two\nlines")),
        other => panic!("expected a separator error, got {:?}", other),
    }
    // The same name is fine when the separator is the null byte.
    let r = Escape::NoEscape.escape(&b("two\nlines"), LineSeparator::Null);
    assert_eq!(r.unwrap(), b("two\nlines"));
}

#[test]
fn escape_none_rejects_invalid_text() {
    match Escape::NoEscape.escape(&vec![0x66, 0xff, 0x66], LineSeparator::LineFeed) {
        Err(RenameError::InvalidText { name }) => assert_eq!(name, vec![0x66, 0xff, 0x66]),
        other => panic!("expected an invalid-text error, got {:?}", other),
    }
}

#[test]
fn escape_percent_exact_values() {
    let e = Escape::PercentEncoding;
    assert_eq!(e.escape(&b("a b"), LineSeparator::LineFeed).unwrap(), b("a%20b"));
    assert_eq!(e.escape(&b("a\nb"), LineSeparator::LineFeed).unwrap(), b("a%0Ab"));
    assert_eq!(e.escape(&vec![0xff], LineSeparator::LineFeed).unwrap(), b("%FF"));
    // A literal percent sign is not in the escape set.
    assert_eq!(e.escape(&b("50%"), LineSeparator::LineFeed).unwrap(), b("50%"));
    assert_eq!(e.escape(&vec![0x00], LineSeparator::Null).unwrap(), b("%00"));
}

#[test]
fn unescape_percent_exact_values() {
    let e = Escape::PercentEncoding;
    assert_eq!(e.unescape_line(&b("a%20b")), b("a b"));
    // Hex digits of either case decode.
    assert_eq!(e.unescape_line(&b("%2f%2F")), b("//"));
    // A percent sign not followed by two hex digits passes through.
    assert_eq!(e.unescape_line(&b("%zz")), b("%zz"));
    assert_eq!(e.unescape_line(&b("%4")), b("%4"));
    assert_eq!(e.unescape_line(&b("%41")), b("A"));
}

#[test]
fn unescape_none_is_identity() {
    assert_eq!(Escape::NoEscape.unescape_line(&b("kept as-is")), b("kept as-is"));
}

#[test]
fn round_trip_both_strategies() {
    let tricky: Vec<u8> = vec![0x01, b' ', 0xff, b'\n', 0x00, b'z'];
    let enc = Escape::PercentEncoding
        .escape(&tricky, LineSeparator::LineFeed)
        .unwrap();
    assert_eq!(Escape::PercentEncoding.unescape_line(&enc), tricky);

    let plain = b("ordinary.txt");
    let enc2 = Escape::NoEscape.escape(&plain, LineSeparator::LineFeed).unwrap();
    assert_eq!(Escape::NoEscape.unescape_line(&enc2), plain);
}

#[test]
fn percent_round_trip_fails_on_hex_after_percent() {
    // The escape set leaves `%` alone, so a raw name that looks like an
    // escape decodes to something else: the round trip law excludes names
    // with a literal `%`.
    let name = b("%41");
    let enc = Escape::PercentEncoding
        .escape(&name, LineSeparator::LineFeed)
        .unwrap();
    assert_eq!(enc, b("%41"));
    assert_eq!(Escape::PercentEncoding.unescape_line(&enc), b("A"));
}

#[test]
fn utf8_check_matches_std() {
    let samples: Vec<Vec<u8>> = vec![
        b(""),
        b("ascii"),
        vec![0xc3, 0xa9],
        vec![0xc3],
        vec![0xed, 0xa0, 0x80],
        vec![0xe2, 0x82, 0xac],
        vec![0xf0, 0x9f, 0x92, 0xa9],
        vec![0xf5, 0x80, 0x80, 0x80],
        vec![0xc0, 0xaf],
        vec![0x80],
        vec![b'a', 0xf4, 0x8f, 0xbf, 0xbf],
    ];
    for s in samples {
        assert_eq!(
            is_utf8_bytes(&s),
            std::str::from_utf8(&s).is_ok(),
            "disagreement on {:?}",
            s
        );
    }
}
