use toggl_sync::text::clean_description;
use toggl_sync::text::clean_key;
use toggl_sync::text::parse_u64_or_zero;
use toggl_sync::text::str_contains_sub;
use toggl_sync::text::str_eq;

#[test]
fn clean_description_trims_whitespace_and_punctuation() {
    assert_eq!(clean_description("  : fix bug -  "), "fix bug");
    assert_eq!(clean_description("fix bug"), "fix bug");
    assert_eq!(clean_description("-- fix bug"), "fix bug");
    assert_eq!(clean_description(""), "");
    assert_eq!(clean_description("  "), "");
    assert_eq!(clean_description(":-:"), "");
}

#[test]
fn clean_description_keeps_inner_text() {
    // only the ends are trimmed; inner whitespace stays
    assert_eq!(clean_description("Fix  login bug"), "Fix  login bug");
    assert_eq!(clean_description(" a - b "), "a - b");
}

#[test]
fn clean_key_cuts_at_first_colon() {
    assert_eq!(clean_key("KEY-7: fix bug"), "KEY-7");
    assert_eq!(clean_key("  KEY-7  "), "KEY-7");
    assert_eq!(clean_key("no colon here"), "no colon here");
    assert_eq!(clean_key("a:b:c"), "a");
    assert_eq!(clean_key(""), "");
    assert_eq!(clean_key(":desc"), "");
}

#[test]
fn parse_u64_accepts_plain_numbers() {
    assert_eq!(parse_u64_or_zero("123"), 123);
    assert_eq!(parse_u64_or_zero("0"), 0);
    assert_eq!(parse_u64_or_zero("+5"), 5);
    assert_eq!(parse_u64_or_zero("18446744073709551615"), u64::MAX);
}

#[test]
fn parse_u64_yields_zero_on_garbage_or_overflow() {
    assert_eq!(parse_u64_or_zero(""), 0);
    assert_eq!(parse_u64_or_zero("+"), 0);
    assert_eq!(parse_u64_or_zero("12a"), 0);
    assert_eq!(parse_u64_or_zero("-3"), 0);
    assert_eq!(parse_u64_or_zero("18446744073709551616"), 0);
    assert_eq!(parse_u64_or_zero("99999999999999999999999"), 0);
}

#[test]
fn substring_search_is_case_sensitive() {
    assert!(str_contains_sub("hello world", "lo wo"));
    assert!(str_contains_sub("hello", ""));
    assert!(str_contains_sub("", ""));
    assert!(!str_contains_sub("", "a"));
    assert!(!str_contains_sub("hello", "Hello"));
    assert!(!str_contains_sub("abc", "abcd"));
}

#[test]
fn string_equality_by_characters() {
    assert!(str_eq("abc", "abc"));
    assert!(!str_eq("abc", "abd"));
    assert!(!str_eq("abc", "ab"));
    assert!(str_eq("", ""));
}
