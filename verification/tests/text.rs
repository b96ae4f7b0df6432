use timecraft::numeral::{parse_i64, push_decimal};
use timecraft::tally::{keep_long, tally};
use timecraft::text::{chars_of, contains, find_byte, find_char, first_token, same_text};

fn strings(items: &[&str]) -> Vec<String> {
    items.iter().map(|s| s.to_string()).collect()
}

fn decimal(n: u128) -> String {
    let mut out = String::new();
    push_decimal(&mut out, n);
    out
}

fn parse(text: &str) -> Option<i64> {
    let v: Vec<char> = text.chars().collect();
    parse_i64(&v, 0, v.len())
}

#[test]
fn first_token_is_the_leading_word() {
    assert_eq!(first_token("git status"), "git");
    assert_eq!(first_token("ls"), "ls");
    assert_eq!(first_token("  ls -la"), "ls");
    assert_eq!(first_token("\t\ncargo\tbuild"), "cargo");
    assert_eq!(first_token("a\u{3000}b"), "a");
    assert_eq!(first_token("\u{a0}x y"), "x");
    assert_eq!(first_token("naïve café"), "naïve");
    assert_eq!(first_token("a;b|c d"), "a;b|c");
}

#[test]
fn first_token_of_blank_text_is_empty() {
    assert_eq!(first_token(""), "");
    assert_eq!(first_token(" "), "");
    assert_eq!(first_token(" \t\r\n "), "");
}

#[test]
fn chars_are_listed_in_order() {
    assert_eq!(chars_of("a→b"), vec!['a', '→', 'b']);
    assert_eq!(chars_of(""), Vec::<char>::new());
}

#[test]
fn substring_search() {
    assert!(contains("rm -rf /tmp", "rm -rf"));
    assert!(contains("xrm -rf", "rm -rf"));
    assert!(contains("abc", ""));
    assert!(contains("", ""));
    assert!(contains("abc", "abc"));
    assert!(contains("aab", "ab"));
    assert!(contains("日本語", "本"));
    assert!(!contains("abc", "abcd"));
    assert!(!contains("", "a"));
    assert!(!contains("rm  -rf", "rm -rf"));
    assert!(!contains("rm -r", "rm -rf"));
    assert!(!contains("abc", "ac"));
}

#[test]
fn text_equality() {
    assert!(same_text("git", "git"));
    assert!(same_text("", ""));
    assert!(!same_text("git", "Git"));
    assert!(!same_text("git", "gi"));
}

#[test]
fn finding_a_character_or_byte() {
    let v: Vec<char> = "a:b;c:d".chars().collect();
    assert_eq!(find_char(&v, 0, v.len(), ';'), 3);
    assert_eq!(find_char(&v, 0, v.len(), ':'), 1);
    assert_eq!(find_char(&v, 2, v.len(), ':'), 5);
    assert_eq!(find_char(&v, 2, 5, ':'), 5);
    assert_eq!(find_char(&v, 0, v.len(), 'z'), 7);
    assert_eq!(find_char(&v, 4, 4, 'c'), 4);
    assert_eq!(find_byte(b"ab\ncd\n", 0, b'\n'), 2);
    assert_eq!(find_byte(b"ab\ncd\n", 3, b'\n'), 5);
    assert_eq!(find_byte(b"ab\ncd", 3, b'\n'), 5);
    assert_eq!(find_byte(b"", 0, b'\n'), 0);
}

#[test]
fn decimal_numerals() {
    assert_eq!(decimal(0), "0");
    assert_eq!(decimal(7), "7");
    assert_eq!(decimal(10), "10");
    assert_eq!(decimal(1_234_567_890), "1234567890");
    assert_eq!(decimal(u128::MAX), "340282366920938463463374607431768211455");
    let mut out = "n=".to_string();
    push_decimal(&mut out, 42);
    assert_eq!(out, "n=42");
}

#[test]
fn signed_numerals() {
    assert_eq!(parse("0"), Some(0));
    assert_eq!(parse("-0"), Some(0));
    assert_eq!(parse("+0"), Some(0));
    assert_eq!(parse("123"), Some(123));
    assert_eq!(parse("-123"), Some(-123));
    assert_eq!(parse("+123"), Some(123));
    assert_eq!(parse("0009"), Some(9));
    assert_eq!(parse("9223372036854775807"), Some(i64::MAX));
    assert_eq!(parse("-9223372036854775808"), Some(i64::MIN));
    assert_eq!(parse("9223372036854775808"), None);
    assert_eq!(parse("-9223372036854775809"), None);
    assert_eq!(parse("99999999999999999999999999999999999999999999999999"), None);
    assert_eq!(parse(""), None);
    assert_eq!(parse("-"), None);
    assert_eq!(parse("+"), None);
    assert_eq!(parse("--1"), None);
    assert_eq!(parse("1-"), None);
    assert_eq!(parse(" 1"), None);
    assert_eq!(parse("1 "), None);
    assert_eq!(parse("1.5"), None);
    assert_eq!(parse("٣"), None);
    assert_eq!(parse("abc"), None);
}

#[test]
fn numerals_agree_with_the_standard_parser() {
    let samples = [
        "0", "-1", "+1", "17", "-", "+", "", "00", "-00012", "9223372036854775807",
        "9223372036854775808", "-9223372036854775808", "-9223372036854775809", "1e3", "0x10",
        "12a", "a12", "+-1", "１２", "1_000",
    ];
    for text in samples {
        assert_eq!(parse(text), text.parse::<i64>().ok());
    }
}

#[test]
fn numeral_inside_a_longer_text() {
    let v: Vec<char> = ": 100:0;x".chars().collect();
    assert_eq!(parse_i64(&v, 2, 5), Some(100));
    assert_eq!(parse_i64(&v, 2, 4), Some(10));
    assert_eq!(parse_i64(&v, 2, 6), None);
    assert_eq!(parse_i64(&v, 3, 3), None);
}

#[test]
fn tally_counts_in_order_of_first_appearance() {
    let counts = tally(&strings(&["b", "a", "b", "c", "a", "b"]));
    assert_eq!(
        counts,
        vec![("b".to_string(), 3), ("a".to_string(), 2), ("c".to_string(), 1)]
    );
    assert_eq!(tally(&Vec::new()), Vec::<(String, usize)>::new());
    assert_eq!(tally(&strings(&["", ""])), vec![("".to_string(), 2)]);
}

#[test]
fn short_texts_are_dropped_by_character_count() {
    let kept = keep_long(&strings(&["a", "ab", "", "é", "éé", "abc"]), 2);
    assert_eq!(kept, strings(&["ab", "éé", "abc"]));
    assert_eq!(keep_long(&strings(&["", "a"]), 1), strings(&["a"]));
    assert_eq!(keep_long(&strings(&["", "a"]), 0), strings(&["", "a"]));
}
