use ytools::{levenshtein_distance, longest_common_subsequence_len, longest_common_substring_len};

#[test]
fn test_substring_exact_values() {
    assert_eq!(longest_common_substring_len("abcdef", "zabcy"), 3);
    assert_eq!(longest_common_substring_len("workspace", "space"), 5);
    assert_eq!(longest_common_substring_len("abc", "xyz"), 0);
}

#[test]
fn test_subsequence_exact_values() {
    assert_eq!(longest_common_subsequence_len("abcde", "ace"), 3);
    assert_eq!(longest_common_subsequence_len("axbxc", "abc"), 3);
    assert_eq!(longest_common_subsequence_len("abc", "xyz"), 0);
}

#[test]
fn test_distance_exact_values() {
    assert_eq!(levenshtein_distance("kitten", "sitting"), 3);
    assert_eq!(levenshtein_distance("flaw", "lawn"), 2);
    assert_eq!(levenshtein_distance("abc", "abc"), 0);
}

#[test]
fn test_scorers_on_equal_strings() {
    // Each scorer against itself: full length, full length, zero edits.
    for s in vec!["", "a", "workspace", "项目管理"] {
        let n = s.chars().count();
        assert_eq!(longest_common_substring_len(s, s), n);
        assert_eq!(longest_common_subsequence_len(s, s), n);
        assert_eq!(levenshtein_distance(s, s), 0);
    }
}

#[test]
fn test_distance_symmetric() {
    let pairs = vec![("kitten", "sitting"), ("", "abc"), ("你好", "好"), ("ab", "ba")];
    for (a, b) in pairs {
        assert_eq!(levenshtein_distance(a, b), levenshtein_distance(b, a));
    }
}

#[test]
fn test_subsequence_dominates_substring() {
    let pairs = vec![("axbxc", "abc"), ("kitten", "sitting"), ("", ""), ("你好吗", "好吗你")];
    for (a, b) in pairs {
        assert!(longest_common_subsequence_len(a, b) >= longest_common_substring_len(a, b));
    }
}

#[test]
fn test_scorers_empty_boundary() {
    assert_eq!(longest_common_substring_len("", "abc"), 0);
    assert_eq!(longest_common_substring_len("abc", ""), 0);
    assert_eq!(longest_common_subsequence_len("", "abc"), 0);
    assert_eq!(longest_common_subsequence_len("abc", ""), 0);
    assert_eq!(levenshtein_distance("", "abc"), 3);
    assert_eq!(levenshtein_distance("abc", ""), 3);
}

#[test]
fn test_scorers_use_characters_not_bytes() {
    // Multi-byte characters count as single units.
    assert_eq!(longest_common_substring_len("中文a", "文a"), 2);
    assert_eq!(longest_common_subsequence_len("中x文", "中文"), 2);
    assert_eq!(levenshtein_distance("中文", "中喂"), 1);
    assert_eq!(levenshtein_distance("", "中文字"), 3);
}
