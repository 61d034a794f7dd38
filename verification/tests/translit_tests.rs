use ytools::{to_pinyin_full_multi, to_pinyin_initials_multi};

#[test]
fn test_full_spelling_unique_reading() {
    assert_eq!(to_pinyin_full_multi("你"), vec!["ni".to_string()]);
}

#[test]
fn test_full_spelling_multi_pronunciation_fan_out() {
    // One character with three recognized readings yields three variants,
    // in the table's order.
    assert_eq!(
        to_pinyin_full_multi("还"),
        vec!["hai".to_string(), "huan".to_string(), "fu".to_string()]
    );
}

#[test]
fn test_initials_multi_pronunciation_fan_out() {
    // Initials keep one entry per reading, even when first letters repeat.
    assert_eq!(
        to_pinyin_initials_multi("还"),
        vec!["h".to_string(), "h".to_string(), "f".to_string()]
    );
}

#[test]
fn test_full_spelling_word() {
    // 你 has one reading, 好 has two (both spelled "hao" without tones).
    assert_eq!(to_pinyin_full_multi("你好"), vec!["nihao".to_string(), "nihao".to_string()]);
}

#[test]
fn test_initials_word() {
    assert_eq!(to_pinyin_initials_multi("你好"), vec!["nh".to_string(), "nh".to_string()]);
}

#[test]
fn test_ascii_passthrough() {
    // Letters are lowercased in both flavors; other ASCII characters pass
    // through full spellings only.
    assert_eq!(to_pinyin_full_multi("Ab-1"), vec!["ab-1".to_string()]);
    assert_eq!(to_pinyin_initials_multi("Ab-1"), vec!["ab".to_string()]);
}

#[test]
fn test_mixed_ascii_and_ideograph() {
    assert_eq!(
        to_pinyin_full_multi("a中"),
        vec!["azhong".to_string(), "azhong".to_string()]
    );
    assert_eq!(to_pinyin_initials_multi("a中"), vec!["az".to_string(), "az".to_string()]);
}

#[test]
fn test_unrecognized_character_vanishes() {
    // A non-ASCII character without readings contributes nothing.
    assert_eq!(to_pinyin_full_multi("☃"), vec![String::new()]);
    assert_eq!(to_pinyin_initials_multi("☃"), vec![String::new()]);
}

#[test]
fn test_empty_text() {
    assert_eq!(to_pinyin_full_multi(""), vec![String::new()]);
    assert_eq!(to_pinyin_initials_multi(""), vec![String::new()]);
}
