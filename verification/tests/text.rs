//! Text and numbers.

use modern_ip_scanner::num::{
    dec_string, int_string, parse_i64, parse_u32, parse_unsigned, push_hex2, push_zero_padded,
};
use modern_ip_scanner::text::{
    chars_of, find, find_char, is_blank, join_strings, lower_chars, push_once, slice, sort_once,
    split_chars, split_lines, split_words, starts_with, str_lt, string_of, stripped_back,
    take_before, trim, upper_chars,
};

fn pieces(v: Vec<Vec<char>>) -> Vec<String> {
    v.iter().map(string_of).collect()
}

fn strings(v: &[&str]) -> Vec<String> {
    v.iter().map(|s| s.to_string()).collect()
}

#[test]
fn white_space_around_a_text_is_trimmed() {
    for s in ["", "  ", "a", "  a b\t\n", "\u{00a0}x\u{3000}", "é "] {
        assert_eq!(trim(s), s.trim());
        assert_eq!(is_blank(s), s.trim().is_empty());
    }
}

#[test]
fn splitting_and_joining_undo_each_other() {
    for s in ["", ".", "a.b.c", "..x", "no dots", "é.ü"] {
        let parts = pieces(split_chars(&chars_of(s), '.'));
        let expected: Vec<String> = s.split('.').map(|p| p.to_string()).collect();
        assert_eq!(parts, expected);
        assert_eq!(join_strings(&parts, "."), s);
    }
}

#[test]
fn lines_and_words_are_those_of_the_standard_library() {
    for s in ["", "\n", "a\nb", "a\r\nb\r\n", "x\r\r\n\ny", "tail\r"] {
        let got = pieces(split_lines(&chars_of(s)));
        let expected: Vec<String> = s.lines().map(|p| p.to_string()).collect();
        assert_eq!(got, expected);
    }
    for s in ["", "  ", " a  b\tc ", "one"] {
        let got = pieces(split_words(&chars_of(s)));
        let expected: Vec<String> = s.split_whitespace().map(|p| p.to_string()).collect();
        assert_eq!(got, expected);
    }
}

#[test]
fn finding_a_text_in_another() {
    let v = chars_of("abcabc");
    assert_eq!(find(&v, &chars_of("ca"), 0), Some(2));
    assert_eq!(find(&v, &chars_of("abc"), 1), Some(3));
    assert_eq!(find(&v, &chars_of("abd"), 0), None);
    assert_eq!(find_char(&v, 'c'), Some(2));
    assert_eq!(find_char(&v, 'x'), None);
    assert!(starts_with("HTTP/1.1 200 OK", "HTTP/1.1 200"));
    assert!(!starts_with("HTTP", "HTTP/1.1"));
    assert_eq!(string_of(&take_before(&chars_of("host:80"), ':')), "host");
    assert_eq!(string_of(&take_before(&chars_of("host"), ':')), "host");
    assert_eq!(string_of(&slice(&v, 1, 4)), "bca");
    assert_eq!(string_of(&stripped_back(&chars_of("AB \0 "), ' ', '\0')), "AB");
}

#[test]
fn only_ascii_letters_change_their_case() {
    assert_eq!(string_of(&upper_chars(&chars_of("Usn-é1"))), "USN-é1");
    assert_eq!(string_of(&lower_chars(&chars_of("AbZ-É1"))), "abz-É1");
}

#[test]
fn texts_are_sorted_as_strings_are() {
    let v = strings(&["b", "a", "", "b", "ab", "é", "z", "a"]);
    let mut expected = v.clone();
    expected.sort();
    expected.dedup();
    assert_eq!(sort_once(&v), expected);
    assert!(str_lt("a", "ab"));
    assert!(!str_lt("b", "ab"));
    assert!(!str_lt("a", "a"));
    let mut once = strings(&["x"]);
    push_once(&mut once, "y");
    push_once(&mut once, "x");
    assert_eq!(once, strings(&["x", "y"]));
}

#[test]
fn numbers_are_read_as_the_standard_library_reads_them() {
    for s in ["0", "7", "007", "+5", "-5", "", "+", "4294967295", "4294967296", "1a", " 1"] {
        assert_eq!(parse_u32(s), s.parse::<u32>().ok(), "{s:?}");
        assert_eq!(parse_i64(s), s.parse::<i64>().ok(), "{s:?}");
    }
    for s in ["9223372036854775807", "9223372036854775808", "-9223372036854775808", "--1"] {
        assert_eq!(parse_i64(s), s.parse::<i64>().ok(), "{s:?}");
    }
    for s in ["ff", "FF", "0100A8C0", "g", "+f", "100000000"] {
        let expected = u32::from_str_radix(s, 16).ok().map(|n| n as u64);
        assert_eq!(parse_unsigned(s, 16, u32::MAX as u64), expected, "{s:?}");
    }
}

#[test]
fn numbers_are_written_as_the_standard_library_writes_them() {
    for n in [0u64, 9, 10, 1234567890, u64::MAX] {
        assert_eq!(dec_string(n), n.to_string());
    }
    for i in [0i64, -1, 42, i64::MAX, i64::MIN] {
        assert_eq!(int_string(i), i.to_string());
    }
    let mut s = String::new();
    push_hex2(&mut s, 0x0a);
    push_hex2(&mut s, 0xff);
    assert_eq!(s, "0aff");
    let mut s = String::new();
    push_zero_padded(&mut s, 7, 4);
    push_zero_padded(&mut s, -7, 4);
    push_zero_padded(&mut s, 12345, 2);
    assert_eq!(s, format!("{:04}{:04}{:02}", 7, -7, 12345));
}
