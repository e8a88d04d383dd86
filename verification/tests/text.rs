use rustcuts::text::{
    chars_of, digit, parse_signed, parse_unsigned, read_digits, split, trimmed, whitespace,
};

fn chars(s: &str) -> Vec<char> {
    s.chars().collect()
}

fn text(s: &[char]) -> String {
    s.iter().collect()
}

#[test]
fn chars_of_keeps_every_character() {
    assert_eq!(chars_of("a\u{e9}\u{4e2d}z"), vec!['a', '\u{e9}', '\u{4e2d}', 'z']);
    assert_eq!(chars_of(""), Vec::<char>::new());
}

#[test]
fn whitespace_is_what_the_standard_library_calls_so() {
    for u in 0..0x3100u32 {
        if let Some(c) = char::from_u32(u) {
            assert_eq!(whitespace(c), c.is_whitespace(), "U+{:04X}", u);
        }
    }
    assert!(!whitespace('\u{200B}'));
    assert!(!whitespace('\u{FEFF}'));
}

#[test]
fn trimmed_drops_white_space_at_both_ends() {
    for s in ["", " ", "a", "  a b \t\n", "\u{3000}x\u{a0}", "x  ", "  x", " \r\n "] {
        assert_eq!(text(trimmed(&chars(s))), s.trim());
    }
}

#[test]
fn split_cuts_at_every_separator() {
    for s in ["", "a", "a/b", "/", "//", "a//b/", "/a", "10.0.0.1", "a/b/c/d"] {
        let parts: Vec<String> = split(&chars(s), '/').iter().map(|p| text(p)).collect();
        let expected: Vec<String> = s.split('/').map(|p| p.to_string()).collect();
        assert_eq!(parts, expected);
    }
}

#[test]
fn digit_reads_figures_and_letters() {
    assert_eq!(digit('0', 10), Some(0));
    assert_eq!(digit('9', 10), Some(9));
    assert_eq!(digit('a', 10), None);
    assert_eq!(digit('a', 16), Some(10));
    assert_eq!(digit('F', 16), Some(15));
    assert_eq!(digit('g', 16), None);
    assert_eq!(digit('z', 36), Some(35));
    assert_eq!(digit('/', 10), None);
    assert_eq!(digit(':', 10), None);
    for radix in [2u32, 8, 10, 16, 36] {
        for u in 0..0x200u32 {
            let c = char::from_u32(u).unwrap();
            assert_eq!(digit(c, radix), c.to_digit(radix));
        }
    }
}

#[test]
fn read_digits_stops_at_the_limit() {
    assert_eq!(read_digits(&chars("255"), 10, 255), Some(255));
    assert_eq!(read_digits(&chars("256"), 10, 255), None);
    assert_eq!(read_digits(&chars("000000000000000000000000255"), 10, 255), Some(255));
    assert_eq!(read_digits(&chars(""), 10, 255), Some(0));
    assert_eq!(read_digits(&chars("12a"), 10, 255), None);
    assert_eq!(read_digits(&chars("ff"), 16, 255), Some(255));
    assert_eq!(
        read_digits(&chars("18446744073709551615"), 10, u64::MAX),
        Some(u64::MAX)
    );
    assert_eq!(read_digits(&chars("18446744073709551616"), 10, u64::MAX), None);
}

#[test]
fn parse_unsigned_takes_a_plus_sign_only() {
    assert_eq!(parse_unsigned(&chars("24"), 10, 32), Some(24));
    assert_eq!(parse_unsigned(&chars("+24"), 10, 32), Some(24));
    assert_eq!(parse_unsigned(&chars("-24"), 10, 32), None);
    assert_eq!(parse_unsigned(&chars("+"), 10, 32), None);
    assert_eq!(parse_unsigned(&chars(""), 10, 32), None);
    assert_eq!(parse_unsigned(&chars("33"), 10, 32), None);
    assert_eq!(parse_unsigned(&chars("++1"), 10, 32), None);
}

#[test]
fn parse_signed_reads_what_the_standard_library_reads() {
    for s in [
        "0",
        "-0",
        "+0",
        "7",
        "-7",
        "+7",
        "",
        "+",
        "-",
        "--1",
        "+-1",
        "1-",
        "12x",
        " 1",
        "9223372036854775807",
        "9223372036854775808",
        "-9223372036854775808",
        "-9223372036854775809",
        "00000000000000000000000000042",
        "65535",
    ] {
        assert_eq!(parse_signed(&chars(s), 10), s.parse::<i64>().ok(), "{:?}", s);
    }
    for s in ["ff", "FF", "-80", "7fffffffffffffff", "8000000000000000", "g", "+a"] {
        assert_eq!(
            parse_signed(&chars(s), 16),
            i64::from_str_radix(s, 16).ok(),
            "{:?}",
            s
        );
    }
}
