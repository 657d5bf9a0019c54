use rtk_filters::numbers::{is_float_text, parse_usize, usize_to_string};
use rtk_filters::text::{
    bytes_eq, chars_of, contains_char, contains_str, join, lines, starts_with, starts_with_char,
    str_eq, substring, trim, trim_start,
};

fn strings(values: &[&str]) -> Vec<String> {
    values.iter().map(|s| s.to_string()).collect()
}

#[test]
fn lines_end_at_newlines() {
    for s in ["", "a", "a\n", "a\nb", "a\r\nb\r", "\n\n", "a\r\r\n", "\r\n"] {
        let expected: Vec<String> = s.lines().map(|l| l.to_string()).collect();
        assert_eq!(lines(s), expected, "{:?}", s);
    }
}

#[test]
fn joined_parts_are_read_back_as_lines() {
    let parts = strings(&["a", "", "b c"]);
    let joined = join(&parts, "\n");
    assert_eq!(joined, "a\n\nb c");
    assert_eq!(lines(&joined), parts);
    assert_eq!(join(&strings(&[]), ", "), "");
    assert_eq!(join(&strings(&["x", "y"]), ", "), "x, y");
}

#[test]
fn white_space_is_trimmed() {
    for s in ["", " ", "a", "  a b \n", "\u{a0}x\u{2003}", "\u{3000}", "\u{200b}x"] {
        assert_eq!(trim(s), s.trim(), "{:?}", s);
        assert_eq!(trim_start(s), s.trim_start(), "{:?}", s);
    }
}

#[test]
fn every_white_space_character_is_trimmed() {
    for n in 0u32..0x3100 {
        if let Some(c) = char::from_u32(n) {
            let s = format!("{}x", c);
            assert_eq!(trim(&s), s.trim(), "{:?}", c);
        }
    }
}

#[test]
fn texts_are_compared() {
    assert!(str_eq("abc", "abc"));
    assert!(!str_eq("abc", "abd"));
    assert!(bytes_eq(b"ab", b"ab"));
    assert!(!bytes_eq(b"ab", b"a"));
    assert!(starts_with("abc", "ab"));
    assert!(starts_with("abc", ""));
    assert!(!starts_with("abc", "b"));
    assert!(!starts_with("a", "ab"));
    assert!(starts_with_char("-x", '-'));
    assert!(!starts_with_char("", '-'));
    assert!(contains_char("a@b", '@'));
    assert!(!contains_char("ab", '@'));
    assert!(contains_str("3 pass", " pass"));
    assert!(!contains_str("pass", " pass"));
    assert!(contains_str("x", ""));
    assert_eq!(substring(&chars_of("äöü"), 1, 2), "ö");
}

#[test]
fn numbers_are_read_as_the_standard_library_does() {
    for s in [
        "", "0", "7", "007", "+5", "+", "-1", "1 ", "１", "18446744073709551615",
        "18446744073709551616", "1e3", "99999999999999999999999999",
    ] {
        assert_eq!(parse_usize(s), s.parse::<usize>().ok(), "{:?}", s);
    }
}

#[test]
fn numbers_are_written_and_read_back() {
    for n in [0usize, 9, 10, 1234567890, usize::MAX] {
        let s = usize_to_string(n);
        assert_eq!(s, n.to_string());
        assert_eq!(parse_usize(&s), Some(n));
    }
}

#[test]
fn fractions_are_told_as_the_standard_library_does() {
    for s in [
        "", ".", "1", "1.", ".5", "0.008253", "-3.25", "+1e5", "1e", "1e+", "1e-7", "e5", "1.5E3",
        "inf", "-INFINITY", "nan", "NaN", "+nan", "infin", "1_000", " 1", "1 ", "--1", "1..2",
        "0x10", ".e1", "1.e1",
    ] {
        assert_eq!(is_float_text(s), s.parse::<f64>().is_ok(), "{:?}", s);
    }
}
