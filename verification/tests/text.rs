//! Text as sequences of characters.

use myailocalmodel::text::{characters, contains, copy, ends_with, join, same, starts_with};

#[test]
fn texts_are_compared() {
    assert!(same("abc", "abc"));
    assert!(!same("abc", "abd"));
    assert!(same("", ""));
    assert_eq!(characters("a\u{e9}b"), vec!['a', '\u{e9}', 'b']);
}

#[test]
fn parts_are_found() {
    for (whole, part) in [
        ("abcabd", "abd"), ("abc", ""), ("", ""), ("", "a"), ("aab", "ab"), ("abc", "abcd"),
        ("\u{e9}t\u{e9}", "t\u{e9}"), ("basic display", "basic display"),
    ] {
        assert_eq!(contains(whole, part), whole.contains(part), "{whole} {part}");
        assert_eq!(starts_with(whole, part), whole.starts_with(part), "{whole} {part}");
        assert_eq!(ends_with(whole, part), whole.ends_with(part), "{whole} {part}");
    }
}

#[test]
fn texts_are_joined() {
    let list = |parts: &[&str]| parts.iter().map(|p| p.to_string()).collect::<Vec<String>>();
    assert_eq!(join(&list(&["a", "b", "c"]), " "), "a b c");
    assert_eq!(join(&list(&["a"]), " "), "a");
    assert_eq!(join(&list(&[]), " "), "");
    assert_eq!(copy(&list(&["a", "b"])), list(&["a", "b"]));
}
