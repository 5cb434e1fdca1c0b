use gallery_core::natural::{ByName, ByNumber};
use gallery_core::order::stable_order;
use gallery_core::text::{
    ascii_lower_char, chars_of, contains_text, find_last, has_prefix, is_space_char, owned,
    replace_in_chars, same_chars, same_text, string_of, strip_chars, Strip,
};

fn chars(s: &str) -> Vec<char> {
    s.chars().collect()
}

#[test]
fn strings_and_characters_round_trip() {
    let text = "photos/été/图片 1.jpg";
    assert_eq!(chars_of(text), chars(text));
    assert_eq!(string_of(&chars(text)), text);
    assert_eq!(string_of(&chars_of("")), "");
    assert_eq!(owned("abc"), "abc");
}

#[test]
fn white_space_is_the_unicode_class() {
    for c in [' ', '\t', '\n', '\u{b}', '\u{c}', '\r', '\u{85}', '\u{a0}', '\u{1680}', '\u{2000}',
        '\u{200a}', '\u{2028}', '\u{2029}', '\u{202f}', '\u{205f}', '\u{3000}']
    {
        assert!(is_space_char(c));
        assert!(c.is_whitespace());
    }
    for c in ['a', '/', '\u{8}', '\u{e}', '\u{200b}', '\u{feff}', '0'] {
        assert!(!is_space_char(c));
        assert!(!c.is_whitespace());
    }
}

#[test]
fn stripping_takes_only_the_ends() {
    assert_eq!(strip_chars(&chars("  a b  "), Strip::Whitespace), chars("a b"));
    assert_eq!(strip_chars(&chars("//a/b//"), Strip::Slashes), chars("a/b"));
    assert_eq!(strip_chars(&chars("////"), Strip::Slashes), chars(""));
    assert_eq!(strip_chars(&chars(""), Strip::Whitespace), chars(""));
    assert_eq!(strip_chars(&chars(" / "), Strip::Slashes), chars(" / "));
}

#[test]
fn characters_are_replaced_and_lowered() {
    assert_eq!(replace_in_chars(&chars("a\\b\\c"), '\\', '/'), chars("a/b/c"));
    assert_eq!(replace_in_chars(&chars("abc"), 'x', 'y'), chars("abc"));
    assert_eq!(ascii_lower_char('A'), 'a');
    assert_eq!(ascii_lower_char('Z'), 'z');
    assert_eq!(ascii_lower_char('a'), 'a');
    assert_eq!(ascii_lower_char('É'), 'É');
    assert_eq!(ascii_lower_char('['), '[');
    assert_eq!(ascii_lower_char('@'), '@');
}

#[test]
fn searching_in_characters() {
    assert_eq!(find_last(&chars("a/b/c"), '/'), Some(3));
    assert_eq!(find_last(&chars("abc"), '/'), None);
    assert_eq!(find_last(&chars(""), '/'), None);
    assert!(has_prefix(&chars("abc"), &chars("ab")));
    assert!(has_prefix(&chars("abc"), &chars("")));
    assert!(has_prefix(&chars("abc"), &chars("abc")));
    assert!(!has_prefix(&chars("abc"), &chars("abcd")));
    assert!(!has_prefix(&chars("abc"), &chars("b")));
    assert!(same_chars(&chars("abc"), &chars("abc")));
    assert!(!same_chars(&chars("abc"), &chars("abd")));
    assert!(!same_chars(&chars("abc"), &chars("ab")));
    assert!(same_text(&"x".to_string(), &"x".to_string()));
    assert!(!same_text(&"x".to_string(), &"X".to_string()));
    let list = vec!["a".to_string(), "b".to_string()];
    assert!(contains_text(&list, &"b".to_string()));
    assert!(!contains_text(&list, &"c".to_string()));
}

#[test]
fn stable_order_of_numbers() {
    let keys: Vec<u64> = vec![5, 1, 5, 3, 1];
    let up = stable_order(&ByNumber { keys: &keys, descending: false });
    assert_eq!(up, vec![1, 4, 3, 0, 2]);
    let down = stable_order(&ByNumber { keys: &keys, descending: true });
    assert_eq!(down, vec![0, 2, 3, 1, 4]);
    let none: Vec<u64> = Vec::new();
    assert!(stable_order(&ByNumber { keys: &none, descending: false }).is_empty());
    let one: Vec<u64> = vec![9];
    assert_eq!(stable_order(&ByNumber { keys: &one, descending: true }), vec![0]);
}

#[test]
fn stable_order_of_names() {
    let names: Vec<String> =
        ["rfc2086.txt", "rfc822.txt", "rfc1.txt"].iter().map(|s| s.to_string()).collect();
    assert_eq!(stable_order(&ByName { names: &names }), vec![2, 1, 0]);
}
