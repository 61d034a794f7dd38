use ytools::strutil::{str_contains, str_lex_le};

#[test]
fn test_contains_basics() {
    assert!(str_contains("workspace", "spa"));
    assert!(str_contains("workspace", ""));
    assert!(str_contains("", ""));
    assert!(!str_contains("", "a"));
    assert!(!str_contains("abc", "abcd"));
    assert!(str_contains("你好项目", "好项"));
}

#[test]
fn test_lex_order() {
    assert!(str_lex_le("abc", "abd"));
    assert!(!str_lex_le("abd", "abc"));
    assert!(str_lex_le("ab", "abc"));
    assert!(!str_lex_le("abc", "ab"));
    assert!(str_lex_le("same", "same"));
    assert!(str_lex_le("", "a"));
}
