use rmd::search::{str_take, str_trim};
use rmd::text::{contains_sub, split_words, str_eq, str_lex_le, str_lines, str_repeat,
    to_lower, u64_to_string};

#[test]
fn words_split_on_whitespace() {
    let words = split_words("  one\ttwo\n three  ");
    assert_eq!(words, vec!["one".to_string(), "two".to_string(), "three".to_string()]);
    assert_eq!(split_words(""), Vec::<String>::new());
    assert_eq!(split_words("   "), Vec::<String>::new());
}

#[test]
fn lines_split_like_std() {
    assert_eq!(str_lines("a\nb"), vec!["a".to_string(), "b".to_string()]);
    assert_eq!(str_lines("a\n"), vec!["a".to_string()]);
    assert_eq!(str_lines("a\r\nb"), vec!["a".to_string(), "b".to_string()]);
    assert_eq!(str_lines("a\n\nb"), vec!["a".to_string(), "".to_string(), "b".to_string()]);
    assert_eq!(str_lines(""), Vec::<String>::new());
}

#[test]
fn repeat_builds_runs() {
    assert_eq!(str_repeat("ab", 3), "ababab");
    assert_eq!(str_repeat("x", 0), "");
}

#[test]
fn decimal_formatting() {
    assert_eq!(u64_to_string(0), "0");
    assert_eq!(u64_to_string(7), "7");
    assert_eq!(u64_to_string(12345), "12345");
    assert_eq!(u64_to_string(u64::MAX), u64::MAX.to_string());
}

#[test]
fn substring_search() {
    assert!(contains_sub("hello world", "lo wo"));
    assert!(contains_sub("hello", ""));
    assert!(!contains_sub("hello", "worlds"));
    assert!(!contains_sub("ab", "abc"));
    assert!(contains_sub("aaab", "aab"));
}

#[test]
fn string_equality_by_characters() {
    assert!(str_eq("abc", "abc"));
    assert!(!str_eq("abc", "abd"));
    assert!(!str_eq("abc", "ab"));
}

#[test]
fn lowercase_through_the_wrapper() {
    assert_eq!(to_lower("HeLLo"), "hello");
    assert_eq!(to_lower(""), "");
}

#[test]
fn lexicographic_order() {
    assert!(str_lex_le("abc", "abd"));
    assert!(str_lex_le("ab", "abc"));
    assert!(!str_lex_le("abd", "abc"));
    assert!(str_lex_le("", "a"));
    assert!(str_lex_le("same", "same"));
}

#[test]
fn unicode_whitespace_delimits_words() {
    let words = split_words("a\u{00A0}b\u{2003}c");
    assert_eq!(words, vec!["a".to_string(), "b".to_string(), "c".to_string()]);
    assert_eq!(str_trim("\u{00A0} padded \u{3000}"), "padded");
}

#[test]
fn trim_and_take() {
    assert_eq!(str_trim("  padded \t"), "padded");
    assert_eq!(str_trim("\n\n"), "");
    assert_eq!(str_trim("bare"), "bare");
    assert_eq!(str_take("abcdef", 3), "abc");
    assert_eq!(str_take("ab", 10), "ab");
}
