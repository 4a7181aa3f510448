use registry_proxy::access::pattern_covers;
use registry_proxy::engine::check_list;
use registry_proxy::number::{decimal_text, parse_i64};
use registry_proxy::text::{
    contains, has_char, head, join, replace, same, split, split_once, starts_with,
};

fn strings(words: &[&str]) -> Vec<String> {
    words.iter().map(|w| w.to_string()).collect()
}

fn covered(keywords: &[&str], list: &[&str]) -> bool {
    check_list(&strings(keywords), &strings(list))
}

#[test]
fn nothing_is_covered_without_keywords_or_patterns() {
    assert!(!covered(&[], &["*"]));
    assert!(!covered(&["library"], &[]));
    assert!(covered(&[""], &["*"]));
}

#[test]
fn plain_patterns_are_prefixes() {
    assert!(covered(&["library", "nginx"], &["library/nginx"]));
    assert!(covered(&["library", "nginx"], &["library"]));
    assert!(covered(&["library", "nginx"], &["lib"]));
    assert!(covered(&["library", "nginx"], &[""]));
    assert!(!covered(&["library", "nginx"], &["nginx"]));
    assert!(!covered(&["library", "nginx"], &["library/nginx/x"]));
}

#[test]
fn stars_stand_for_anything_on_a_line() {
    assert!(covered(&["library", "nginx"], &["*"]));
    assert!(covered(&["library", "nginx"], &["library/*"]));
    assert!(covered(&["library", "nginx"], &["*/nginx"]));
    assert!(covered(&["library", "nginx"], &["l*y/n*x"]));
    assert!(covered(&["library", ""], &["library/*"]));
    assert!(!covered(&["library", "nginx"], &["*/ngin"]));
    assert!(!covered(&["library", "nginx"], &["lib*/x"]));
    assert!(!covered(&["library", "a\nb"], &["library/*"]));
    assert!(covered(&["library", "a\nb"], &["*"]));
}

#[test]
fn dots_are_only_dots() {
    assert!(covered(&["gcr.io", "x"], &["gcr.io/*"]));
    assert!(!covered(&["gcrxio", "x"], &["gcr.io/*"]));
}

#[test]
fn patterns_with_stars_are_regular_expressions() {
    assert!(covered(&["a", "b"], &["[ab]/*"]));
    assert!(covered(&["aaa", "b"], &["a+/*"]));
    assert!(!covered(&["a", "b"], &["(a/*"]));
    assert!(covered(&["a", "b"], &["(a/*", "a"]));
}

#[test]
fn more_patterns_cover_more() {
    assert!(covered(&["a", "b"], &["x", "a/*"]));
    assert!(covered(&["a", "b"], &["a/*", "x"]));
    assert!(covered(&["a", "b"], &["y", "a/*", "x"]));
    assert!(!covered(&["a", "b"], &["x", "y"]));
}

#[test]
fn single_patterns() {
    assert!(pattern_covers("*", ""));
    assert!(pattern_covers("**", "x"));
    assert!(!pattern_covers("**", "\n"));
    assert!(!pattern_covers("a*", "ba"));
}

#[test]
fn long_wildcards_are_still_wildcards() {
    let stars = "*".repeat(1000);
    assert!(pattern_covers(&stars, "library/nginx"));
    assert!(!pattern_covers(&stars, "a\nb"));
    let dots = format!("*{}", ".".repeat(999));
    assert!(!pattern_covers(&dots, "library/nginx"));
    let word = format!("a*{}", "b".repeat(998));
    assert!(pattern_covers(&word, &format!("a-{}", "b".repeat(998))));
}

#[test]
fn text_operations() {
    assert!(same("\u{e9}a", "\u{e9}a"));
    assert!(!same("a", "ab"));
    assert!(starts_with("\u{e9}a", "\u{e9}"));
    assert!(!starts_with("a", "ab"));
    assert!(has_char("a?b", '?'));
    assert!(!has_char("", '?'));
    assert_eq!(head("a/b/c", '/'), "a");
    assert_eq!(head("abc", '/'), "abc");
    assert_eq!(split_once("a=b=c", '='), Some(("a", "b=c")));
    assert_eq!(split_once("abc", '='), None);
    assert_eq!(split("a&&b&", '&'), vec!["a", "", "b", ""]);
    assert_eq!(split("", '&'), vec![""]);
    assert!(contains("abc", "bc"));
    assert!(contains("abc", ""));
    assert!(!contains("abc", "cb"));
    assert_eq!(replace("aaaa", "aa", "b"), "bb");
    assert_eq!(replace("xaxax", "axa", "-"), "x-x");
    assert_eq!(replace("abc", "d", "x"), "abc");
    assert_eq!(join(&strings(&["a", "", "b"]), "--"), "a----b");
    assert_eq!(join(&[], "-"), "");
}

#[test]
fn splitting_and_joining_undo_each_other() {
    for text in ["", "&", "a&b", "&&a", "abc"] {
        let parts: Vec<String> = split(text, '&').iter().map(|p| p.to_string()).collect();
        assert_eq!(join(&parts, "&"), text);
    }
}

#[test]
fn numbers_in_decimal() {
    assert_eq!(decimal_text(0), "0");
    assert_eq!(decimal_text(1098765432), "1098765432");
    assert_eq!(decimal_text(u64::MAX), u64::MAX.to_string());
    assert_eq!(parse_i64("-12"), Some(-12));
    assert_eq!(parse_i64("+12"), Some(12));
    assert_eq!(parse_i64("-9223372036854775808"), Some(i64::MIN));
    assert_eq!(parse_i64("-9223372036854775809"), None);
    assert_eq!(parse_i64("9223372036854775808"), None);
    for text in ["", "-", "+", "--1", "1 ", "1_0", "\u{0661}"] {
        assert_eq!(parse_i64(text), text.parse::<i64>().ok());
    }
}
