use rr::codec::sha256_hex;
use rr::order::{lt, order_of};
use rr::text::{
    blank, bytes_of, end_of_text, has_char, has_prefix, has_suffix, lines_of,
    parse_unsigned, push_decimal, push_signed_decimal, push_wide_decimal, split_chars,
    start_of_text, string_of, to_ascii_lower, trimmed, white,
};

fn chars(s: &str) -> Vec<char> {
    s.chars().collect()
}

fn joined(parts: Vec<Vec<char>>) -> Vec<String> {
    parts.iter().map(|p| p.iter().collect()).collect()
}

#[test]
fn white_space_is_that_of_std() {
    for n in 0..0x3100u32 {
        if let Some(c) = char::from_u32(n) {
            assert_eq!(white(c), c.is_whitespace(), "{n:x}");
        }
    }
}

#[test]
fn trimming_is_that_of_std() {
    for s in ["", " ", " a b ", "\u{feff}a", "\u{a0}x\u{3000}", "a", "\r\n\tz\u{b}"] {
        let t: String = trimmed(&chars(s)).iter().collect();
        assert_eq!(t, s.trim());
        assert_eq!(blank(&chars(s)), s.trim().is_empty());
        let cs = chars(s);
        let at = start_of_text(&cs);
        assert_eq!(string_of(&cs, at, cs.len()), s.trim_start());
        assert_eq!(string_of(&cs, 0, end_of_text(&cs, 0)), s.trim_end());
    }
}

#[test]
fn lines_and_splits_are_those_of_std() {
    for s in ["", "\n", "a", "a\n", "a\r\nb\rc\n\nd", "\r\n", "a\n\r", "x:y::z:"] {
        let mine = joined(lines_of(&chars(s)));
        let std_lines: Vec<String> = s.lines().map(str::to_owned).collect();
        assert_eq!(mine, std_lines, "{s:?}");
        let mine = joined(split_chars(&chars(s), ':'));
        let std_parts: Vec<String> = s.split(':').map(str::to_owned).collect();
        assert_eq!(mine, std_parts, "{s:?}");
    }
}

#[test]
fn numbers_are_written_and_read() {
    for n in [0u64, 9, 10, 12345, u64::MAX] {
        let mut out = String::new();
        push_decimal(&mut out, n);
        assert_eq!(out, n.to_string());
        assert_eq!(parse_unsigned(&chars(&n.to_string()), u64::MAX), Some(n));
    }
    for n in [0i64, -1, 42, i64::MIN, i64::MAX] {
        let mut out = String::new();
        push_signed_decimal(&mut out, n);
        assert_eq!(out, n.to_string());
    }
    let mut out = "x".to_string();
    push_wide_decimal(&mut out, u128::MAX);
    push_decimal(&mut out, 7);
    assert_eq!(out, format!("x{}7", u128::MAX));
    for s in ["", "+", "-1", "1 ", "0x1", "18446744073709551616"] {
        assert_eq!(parse_unsigned(&chars(s), u64::MAX), s.parse::<u64>().ok());
    }
    assert_eq!(parse_unsigned(&chars("+007"), 7), Some(7));
    assert_eq!(parse_unsigned(&chars("8"), 7), None);
}

#[test]
fn text_tests() {
    assert!(has_prefix(&chars("abc"), "ab"));
    assert!(!has_prefix(&chars("a"), "ab"));
    assert!(has_suffix(&chars("abc"), "bc"));
    assert!(!has_suffix(&chars("c"), "bc"));
    assert!(has_char(&chars("abc"), 'c'));
    assert!(!has_char(&chars(""), 'c'));
    let low: String = to_ascii_lower(&chars("AbÉZ[")).iter().collect();
    assert_eq!(low, "abÉz[");
    assert_eq!(bytes_of("é"), "é".as_bytes());
}

#[test]
fn order_is_that_of_std_strings() {
    let words = ["b", "", "a", "é", "ab", "B", "a", "日"];
    for x in words {
        for y in words {
            assert_eq!(lt(&chars(x), &chars(y)), x < y);
        }
    }
    let keys = words.iter().map(|w| chars(w)).collect();
    let mut expected: Vec<usize> = (0..words.len()).collect();
    expected.sort_by(|a, b| words[*a].cmp(words[*b]));
    assert_eq!(order_of(&keys), expected);
}

#[test]
fn digests_are_known() {
    assert_eq!(
        sha256_hex(b""),
        "e3b0c44298fc1c149afbf4c8996fb92427ae41e4649b934ca495991b7852b855"
    );
}
