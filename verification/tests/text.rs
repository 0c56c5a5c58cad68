use nexious_quick::item::{default_true, Item};
use nexious_quick::order::{lex_less, stable_order};
use nexious_quick::text::{
    chars_eq, contains_exec, ends_with_exec, eq_ignore_ascii_case_exec, i64_to_string,
    is_whitespace, lowercase_chars, parse_u128_exec, push_text, starts_with_exec,
    str_eq, string_of, strings_of, to_ascii_lower, trim_chars, trim_end_char_exec,
    trim_start_char_exec, trim_str, u128_to_string,
};

fn chars(s: &str) -> Vec<char> {
    s.chars().collect()
}

#[test]
fn lowercasing_follows_unicode() {
    assert_eq!(lowercase_chars(&chars("ÀBC Ω")), chars("àbc ω"));
    assert_eq!(lowercase_chars(&chars("İ")), chars("i\u{307}"));
    assert_eq!(lowercase_chars(&chars("HeLLo")), chars("hello"));
    assert_eq!(to_ascii_lower('Q'), 'q');
    assert_eq!(to_ascii_lower('Ä'), 'Ä');
}

#[test]
fn trimming_uses_unicode_white_space() {
    assert_eq!(trim_str("\u{3000} a b \t\n"), chars("a b"));
    assert_eq!(trim_chars(&chars("   ")), Vec::<char>::new());
    assert!(is_whitespace('\u{a0}'));
    assert!(!is_whitespace('x'));
    assert_eq!(trim_end_char_exec(&chars("a//"), '/'), chars("a"));
    assert_eq!(trim_start_char_exec(&chars("//a/"), '/'), chars("a/"));
}

#[test]
fn searching_in_text() {
    assert!(starts_with_exec(&chars("hello"), &chars("he")));
    assert!(!starts_with_exec(&chars("he"), &chars("hello")));
    assert!(ends_with_exec(&chars("hello"), &chars("llo")));
    assert!(contains_exec(&chars("hello"), &chars("ell")));
    assert!(contains_exec(&chars("hello"), &chars("")));
    assert!(!contains_exec(&chars("hello"), &chars("olé")));
    assert!(chars_eq(&chars("ab"), &chars("ab")));
    assert!(!str_eq("ab", "aB"));
    assert!(eq_ignore_ascii_case_exec("DeFault", "default"));
    assert!(!eq_ignore_ascii_case_exec("Ä", "ä"));
}

#[test]
fn strings_are_built_from_characters() {
    let mut s = "ab".to_string();
    push_text(&mut s, "中c");
    assert_eq!(s, "ab中c");
    assert_eq!(string_of(&chars("xyz")), "xyz");
    assert_eq!(strings_of(&vec![chars("a"), chars(""), chars("bc")]), vec!["a", "", "bc"]);
}

#[test]
fn numbers_are_written_and_read_in_decimal() {
    assert_eq!(i64_to_string(0), "0");
    assert_eq!(i64_to_string(-42), "-42");
    assert_eq!(i64_to_string(i64::MIN), i64::MIN.to_string());
    assert_eq!(u128_to_string(u128::MAX), u128::MAX.to_string());
    assert_eq!(parse_u128_exec("1700000000000"), Some(1_700_000_000_000));
    assert_eq!(parse_u128_exec("+7"), Some(7));
    assert_eq!(parse_u128_exec(""), None);
    assert_eq!(parse_u128_exec("+"), None);
    assert_eq!(parse_u128_exec("-1"), None);
    assert_eq!(parse_u128_exec("12a"), None);
    assert_eq!(parse_u128_exec(&u128::MAX.to_string()), Some(u128::MAX));
    assert_eq!(parse_u128_exec("340282366920938463463374607431768211456"), None);
}

#[test]
fn keys_sort_stably() {
    assert!(lex_less(&vec![1, 2], &vec![1, 3]));
    assert!(lex_less(&vec![1], &vec![1, 0]));
    assert!(!lex_less(&vec![2], &vec![1, 9]));
    assert!(!lex_less(&vec![1, 2], &vec![1, 2]));
    let keys = vec![vec![2, 0], vec![1, 5], vec![2, 0], vec![0, 9], vec![1, 5]];
    assert_eq!(stable_order(&keys), vec![3, 1, 4, 0, 2]);
    assert!(stable_order(&vec![]).is_empty());
}

#[test]
fn entries_copy_and_default_to_enabled() {
    assert!(default_true());
    let it = Item::from_columns(
        3,
        "n".to_string(),
        "a".to_string(),
        "file".to_string(),
        "u".to_string(),
        "".to_string(),
        "".to_string(),
        "d".to_string(),
        "i".to_string(),
        0,
        "t".to_string(),
    );
    assert!(!it.enabled);
    assert_eq!(it.duplicate(), it);
    assert_eq!(it.kind, "file");
    assert_eq!(it.icon, "i");
    assert!(Item::from_columns(1, String::new(), String::new(), String::new(), String::new(), String::new(), String::new(), String::new(), String::new(), -1, String::new()).enabled);
}
