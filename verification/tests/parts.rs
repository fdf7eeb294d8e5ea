use listcrunch::decimal::{parse_number, push_decimal};
use listcrunch::text::{blank, cut, space};

#[test]
fn space_is_unicode_white_space() {
    for code in 0..=0x10ffffu32 {
        if let Some(c) = char::from_u32(code) {
            assert_eq!(space(c), c.is_whitespace(), "U+{:04X}", code);
        }
    }
}

#[test]
fn blank_is_what_trims_to_nothing() {
    for s in ["", " ", "\t\n", "\u{2028}\u{2029}", " a ", "a", "\u{200b}", "  \u{feff}"] {
        assert_eq!(blank(s), s.trim().len() == 0, "{:?}", s);
    }
}

#[test]
fn cut_at_the_first_delimiter() {
    assert_eq!(cut("a:b:c", b':'), ("a", Some("b:c")));
    assert_eq!(cut("abc", b':'), ("abc", None));
    assert_eq!(cut(":", b':'), ("", Some("")));
    assert_eq!(cut("", b':'), ("", None));
    assert_eq!(cut("a:", b':'), ("a", Some("")));
    assert_eq!(cut(":a", b':'), ("", Some("a")));
}

#[test]
fn cut_between_wide_characters() {
    assert_eq!(cut("日本;語", b';'), ("日本", Some("語")));
    assert_eq!(cut("é,ü", b','), ("é", Some("ü")));
    assert_eq!(cut("😀-😀", b'-'), ("😀", Some("😀")));
    assert_eq!(cut("日本語", b';'), ("日本語", None));
}

#[test]
fn cut_agrees_with_split_once() {
    for s in ["", "a", "a;b", ";;", "x;y;z", "é;", ";é", "日;本;語"] {
        let expected = match s.split_once(';') {
            Some((head, tail)) => (head, Some(tail)),
            None => (s, None),
        };
        assert_eq!(cut(s, b';'), expected);
    }
}

#[test]
fn decimal_of_a_position() {
    for n in [0usize, 1, 9, 10, 11, 99, 100, 101, 12345, 1000000, usize::MAX] {
        let mut out = String::from("x");
        push_decimal(&mut out, n);
        assert_eq!(out, format!("x{}", n));
    }
}

#[test]
fn number_of_a_text() {
    assert_eq!(parse_number("0", 10), Some(0));
    assert_eq!(parse_number("10", 10), Some(10));
    assert_eq!(parse_number("11", 10), None);
    assert_eq!(parse_number("+7", 10), Some(7));
    assert_eq!(parse_number("007", 10), Some(7));
    assert_eq!(parse_number("", 10), None);
    assert_eq!(parse_number("+", 10), None);
    assert_eq!(parse_number("-1", 10), None);
    assert_eq!(parse_number("1 ", 10), None);
    assert_eq!(parse_number("１", 10), None);
    assert_eq!(parse_number("4294967295", u32::MAX), Some(u32::MAX));
    assert_eq!(parse_number("4294967296", u32::MAX), None);
    assert_eq!(parse_number("42949672950", u32::MAX), None);
}

#[test]
fn number_agrees_with_parse() {
    let texts = [
        "", "+", "-", "0", "+0", "-0", "1", "+1", "12", "0012", "+0012", "1a", "a1", "1+", "++1",
        " 1", "1 ", "4294967295", "4294967296", "+4294967295", "18446744073709551616", "9",
        "2147483647", "2147483648", "०", "1.0", "1e3", "0x10",
    ];
    for s in texts {
        assert_eq!(parse_number(s, u32::MAX), s.parse::<u32>().ok(), "{:?}", s);
        if !s.contains('-') {
            let expected = s.parse::<i32>().ok().map(|n| n as u32);
            assert_eq!(parse_number(s, i32::MAX as u32), expected, "{:?}", s);
        }
    }
}
