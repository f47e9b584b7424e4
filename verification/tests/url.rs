use zapper::number::{push_decimal, read_unsigned};
use zapper::text::{chars_of, split_lines, split_words, string_of, trimmed, without_line_end};
use zapper::url::{hex_value, parse_query, percent_decode, percent_encode};

#[test]
fn percent_encode_escapes_what_is_reserved() {
    assert_eq!(percent_encode("a b/\u{fc}~"), "a+b%2F%C3%BC~");
    assert_eq!(percent_encode("AZaz09-_.~"), "AZaz09-_.~");
    assert_eq!(percent_encode("+&=%"), "%2B%26%3D%25");
    assert_eq!(percent_encode("\n"), "%0A");
    assert_eq!(percent_encode(""), "");
}

#[test]
fn percent_decode_undoes_percent_encode() {
    for s in ["", "plain", "a b+c&d=e%f", "\u{fc}\u{4e2d}\u{1f600}\n", "100%"] {
        assert_eq!(percent_decode(&percent_encode(s)), s);
    }
}

#[test]
fn percent_decode_keeps_what_is_malformed() {
    assert_eq!(percent_decode("100%"), "100%");
    assert_eq!(percent_decode("%4"), "%4");
    assert_eq!(percent_decode("%zz1"), "%zz1");
    assert_eq!(percent_decode("%4x%41"), "%4xA");
    assert_eq!(percent_decode("%%41"), "%%41");
    assert_eq!(percent_decode("a+b"), "a b");
    assert_eq!(percent_decode("%c3%bc"), "\u{fc}");
}

#[test]
fn percent_decode_repairs_what_is_not_text() {
    assert_eq!(percent_decode("a%FFb"), "a\u{fffd}b");
}

#[test]
fn hex_value_reads_both_cases() {
    assert_eq!(hex_value(b'0'), Some(0));
    assert_eq!(hex_value(b'9'), Some(9));
    assert_eq!(hex_value(b'a'), Some(10));
    assert_eq!(hex_value(b'F'), Some(15));
    assert_eq!(hex_value(b'g'), None);
    assert_eq!(hex_value(b'/'), None);
}

fn pair(key: &str, value: &str) -> (String, String) {
    (key.to_string(), value.to_string())
}

#[test]
fn parse_query_splits_pairs() {
    assert_eq!(
        parse_query("q=a+b&limit=5&&flag&x=1=2"),
        vec![pair("q", "a b"), pair("limit", "5"), pair("flag", ""), pair("x", "1=2")]
    );
    assert!(parse_query("").is_empty());
    assert_eq!(parse_query("=v"), vec![pair("", "v")]);
}

fn number(s: &str, max: u64) -> Option<u64> {
    read_unsigned(&chars_of(s), max)
}

#[test]
fn numbers_are_read_back() {
    for n in [0u64, 7, 10, 65535, u64::MAX] {
        let mut digits = String::new();
        push_decimal(&mut digits, n);
        assert_eq!(digits, n.to_string());
        assert_eq!(number(&digits, u64::MAX), Some(n));
    }
    let mut out = "n=".to_string();
    push_decimal(&mut out, 1234567890);
    assert_eq!(out, "n=1234567890");
}

#[test]
fn numbers_are_read_as_strictly_as_by_the_standard_library() {
    for s in ["", "+", "+7", "-0", "007", " 1", "1 ", "65535", "65536", "1e3", "\u{661}"] {
        assert_eq!(number(s, 65535), s.parse::<u16>().ok().map(u64::from), "{:?}", s);
    }
    assert_eq!(number("18446744073709551616", u64::MAX), None);
    assert_eq!(number("18446744073709551615", u64::MAX), Some(u64::MAX));
}

#[test]
fn text_is_split_as_by_the_standard_library() {
    for s in ["", "\n", "a\r\nb\n", "a\n\nb", "a\rb", "a\r", "\r\n", " x \u{3000}y\t", "\u{a0}z"] {
        let chars = chars_of(s);
        assert_eq!(split_lines(&chars), s.lines().collect::<Vec<_>>(), "{:?}", s);
        assert_eq!(split_words(&chars), s.split_whitespace().collect::<Vec<_>>(), "{:?}", s);
        assert_eq!(string_of(trimmed(&chars)), s.trim(), "{:?}", s);
        assert_eq!(
            string_of(without_line_end(&chars)),
            s.trim_end_matches(['\r', '\n']),
            "{:?}",
            s
        );
    }
}

#[test]
fn white_space_is_that_of_the_standard_library() {
    for code in 0..0x11_0000u32 {
        if let Some(c) = char::from_u32(code) {
            assert_eq!(zapper::text::is_space_char(c), c.is_whitespace());
        }
    }
}
