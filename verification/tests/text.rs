use raoc22::text::{
    chars_of, code, is_space, paragraph_end, parse_digits, parse_i64, parse_isize, parse_unsigned,
    parse_usize, slice, spells, split_at_first, split_lines, split_words,
};

fn chars(s: &str) -> Vec<char> {
    s.chars().collect()
}

fn strings(v: Vec<Vec<char>>) -> Vec<String> {
    v.into_iter().map(|w| w.into_iter().collect()).collect()
}

#[test]
fn characters_of_a_string() {
    assert_eq!(chars_of("héllo"), vec!['h', 'é', 'l', 'l', 'o']);
    assert_eq!(chars_of(""), Vec::<char>::new());
    assert_eq!(code('a'), 97);
    assert_eq!(slice(&chars("abcdef"), 2, 4), chars("cd"));
    assert_eq!(slice(&chars("abcdef"), 3, 3), chars(""));
    assert!(spells(&chars("move"), "move"));
    assert!(!spells(&chars("move"), "mov"));
    assert!(!spells(&chars("move"), "mole"));
    assert!(spells(&chars(""), ""));
}

#[test]
fn words_are_separated_by_any_whitespace() {
    let split = |s: &str| strings(split_words(&chars(s)));
    assert_eq!(split("move 1 from 2"), vec!["move", "1", "from", "2"]);
    assert_eq!(split("  a\t\tb\u{a0}c\u{3000}d \r\n"), vec!["a", "b", "c", "d"]);
    assert_eq!(split(""), Vec::<String>::new());
    assert_eq!(split(" \t "), Vec::<String>::new());
    assert_eq!(split("one"), vec!["one"]);
    for c in ['\u{9}', '\u{d}', ' ', '\u{85}', '\u{1680}', '\u{2000}', '\u{200a}', '\u{2028}', '\u{205f}'] {
        assert!(is_space(c));
        assert!(c.is_whitespace());
    }
    for c in ['a', '0', '\u{8}', '\u{e}', '\u{200b}', '\u{feff}', '\u{180e}'] {
        assert!(!is_space(c));
        assert!(!c.is_whitespace());
    }
}

#[test]
fn whitespace_is_what_the_standard_library_says() {
    for u in 0..=0x10ffffu32 {
        if let Some(c) = char::from_u32(u) {
            assert_eq!(is_space(c), c.is_whitespace());
        }
    }
}

#[test]
fn lines_end_with_a_newline_or_with_the_text() {
    let split = |s: &str| strings(split_lines(&chars(s)));
    assert_eq!(split("a\nb\n"), vec!["a", "b"]);
    assert_eq!(split("a\nb"), vec!["a", "b"]);
    assert_eq!(split("a\r\nb\r\n"), vec!["a", "b"]);
    assert_eq!(split("a\n\nb\n\n"), vec!["a", "", "b", ""]);
    assert_eq!(split("\n"), vec![""]);
    assert_eq!(split(""), Vec::<String>::new());
    assert_eq!(split("a\rb\r"), vec!["a\rb\r"]);
    assert_eq!(split("a\r\r\n"), vec!["a\r"]);
    let rows = split_lines(&chars("a\nb\n\nc\n"));
    assert_eq!(paragraph_end(&rows, 0), 2);
    assert_eq!(paragraph_end(&rows, 2), 2);
    assert_eq!(paragraph_end(&rows, 3), 4);
    assert_eq!(paragraph_end(&rows, 4), 4);
}

#[test]
fn splitting_at_the_first_of_a_character() {
    assert_eq!(split_at_first(&chars("2-4,6-8"), ','), Some((chars("2-4"), chars("6-8"))));
    assert_eq!(split_at_first(&chars("2-4-6"), '-'), Some((chars("2"), chars("4-6"))));
    assert_eq!(split_at_first(&chars("-"), '-'), Some((chars(""), chars(""))));
    assert_eq!(split_at_first(&chars("24"), '-'), None);
    assert_eq!(split_at_first(&chars(""), '-'), None);
}

#[test]
fn numbers_without_sign() {
    assert_eq!(parse_usize(&chars("0")), Some(0));
    assert_eq!(parse_usize(&chars("007")), Some(7));
    assert_eq!(parse_usize(&chars("+12")), Some(12));
    assert_eq!(parse_usize(&chars("-0")), None);
    assert_eq!(parse_usize(&chars("")), None);
    assert_eq!(parse_usize(&chars("+")), None);
    assert_eq!(parse_usize(&chars("1 ")), None);
    assert_eq!(parse_usize(&chars("1_000")), None);
    assert_eq!(parse_usize(&chars("٣")), None);
    assert_eq!(parse_usize(&chars(&usize::MAX.to_string())), Some(usize::MAX));
    assert_eq!(parse_usize(&chars("18446744073709551616")), None);
    assert_eq!(parse_unsigned(&chars("255"), 255), Some(255));
    assert_eq!(parse_unsigned(&chars("256"), 255), None);
    assert_eq!(parse_unsigned(&chars("0"), 0), Some(0));
    assert_eq!(parse_digits(&chars("x=42"), 2, 100), Some(42));
    assert_eq!(parse_digits(&chars("x=42"), 4, 100), None);
    assert_eq!(parse_digits(&chars("x=42"), 1, 100), None);
}

#[test]
fn numbers_with_sign() {
    assert_eq!(parse_i64(&chars("-12")), Some(-12));
    assert_eq!(parse_i64(&chars("+12")), Some(12));
    assert_eq!(parse_i64(&chars("12")), Some(12));
    assert_eq!(parse_i64(&chars("-0")), Some(0));
    assert_eq!(parse_i64(&chars("-")), None);
    assert_eq!(parse_i64(&chars("--1")), None);
    assert_eq!(parse_i64(&chars("+-1")), None);
    assert_eq!(parse_i64(&chars("9223372036854775807")), Some(i64::MAX));
    assert_eq!(parse_i64(&chars("9223372036854775808")), None);
    assert_eq!(parse_i64(&chars("-9223372036854775808")), Some(i64::MIN));
    assert_eq!(parse_i64(&chars("-9223372036854775809")), None);
    assert_eq!(parse_isize(&chars(&isize::MIN.to_string())), Some(isize::MIN));
    assert_eq!(parse_isize(&chars(&isize::MAX.to_string())), Some(isize::MAX));
    assert_eq!(parse_isize(&chars("1e3")), None);
}

#[test]
fn numbers_are_read_as_the_standard_library_reads_them() {
    let samples = [
        "0", "1", "-1", "+1", "00012", "-00012", "", "+", "-", " 1", "1 ", "1.0", "0x10", "１２",
        "9223372036854775807", "9223372036854775808", "-9223372036854775808",
        "-9223372036854775809", "18446744073709551615", "18446744073709551616", "+-3", "3-",
    ];
    for s in samples {
        assert_eq!(parse_i64(&chars(s)), s.parse::<i64>().ok());
        assert_eq!(parse_isize(&chars(s)), s.parse::<isize>().ok());
        assert_eq!(parse_usize(&chars(s)), s.parse::<usize>().ok());
    }
}
