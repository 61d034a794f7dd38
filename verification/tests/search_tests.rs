use ytools::search_workspaces;

fn names(items: Vec<&str>) -> Vec<String> {
    items.into_iter().map(|s| s.to_string()).collect()
}

#[test]
fn test_search_workspaces_empty_directories() {
    let result = search_workspaces("test", Vec::new());
    assert_eq!(result, Vec::<String>::new());
}

#[test]
fn test_search_workspaces_empty_query() {
    // An empty query lists every candidate, lexicographically sorted.
    let result = search_workspaces("", names(vec!["dir2", "dir3", "dir1"]));
    assert_eq!(result, names(vec!["dir1", "dir2", "dir3"]));
}

#[test]
fn test_search_workspaces_empty_query_keeps_duplicates() {
    let result = search_workspaces("", names(vec!["dup", "alpha", "dup"]));
    assert_eq!(result, names(vec!["alpha", "dup", "dup"]));
}

#[test]
fn test_search_workspaces_exact_match() {
    // An exact literal match wins the containment phase on its own.
    let result = search_workspaces("my-project", names(vec!["my-project", "other-project"]));
    assert_eq!(result, names(vec!["my-project"]));
}

#[test]
fn test_search_workspaces_partial_match() {
    let result = search_workspaces("my-project", names(vec!["my-project-v2", "other-project"]));
    assert_eq!(result.len(), 1);
    assert!(result.contains(&"my-project-v2".to_string()));
}

#[test]
fn test_search_workspaces_case_insensitive() {
    let result = search_workspaces("myproject", names(vec!["MyProject"]));
    assert!(result.contains(&"MyProject".to_string()));
}

#[test]
fn test_search_unicode_case_insensitive() {
    // Case folding beyond ASCII happens on the literal form only.
    let result = search_workspaces("étude", vec!["ÉTUDE".to_string(), "zzz".to_string()]);
    assert_eq!(result, vec!["ÉTUDE".to_string()]);
}

#[test]
fn test_search_normalized_containment() {
    // Separator differences disappear under normalization.
    let result = search_workspaces("mycool", names(vec!["My_Cool_App", "other"]));
    assert_eq!(result, names(vec!["My_Cool_App"]));
}

#[test]
fn test_search_pinyin_single_ideograph() {
    // A single recognized ideograph with a unique reading is found by that
    // reading's full spelling.
    let result = search_workspaces("ni", names(vec!["你", "zzz"]));
    assert_eq!(result, names(vec!["你"]));
}

#[test]
fn test_search_pinyin_full_spelling() {
    let result = search_workspaces("nihao", names(vec!["你好项目", "other"]));
    assert_eq!(result, names(vec!["你好项目"]));
}

#[test]
fn test_search_pinyin_initials() {
    let result = search_workspaces("xm", names(vec!["项目", "other"]));
    assert_eq!(result, names(vec!["项目"]));
}

#[test]
fn test_search_containment_suppresses_fallback() {
    // With containment hits, near misses never appear in the result.
    let result = search_workspaces("abc", names(vec!["abcd", "zz", "abc"]));
    assert_eq!(result, names(vec!["abc", "abcd"]));
}

#[test]
fn test_search_fallback_order() {
    // No candidate contains the query, so all are ranked: longest common
    // substring first, then subsequence, then edit distance, then name.
    let result = search_workspaces("abc", names(vec!["zzz", "axbxc", "abxx"]));
    assert_eq!(result, names(vec!["abxx", "axbxc", "zzz"]));
}

#[test]
fn test_search_fallback_top_five() {
    let cands = names(vec!["ffffff", "eeeee", "dddd", "ccc", "bb", "a"]);
    let result = search_workspaces("zzz", cands);
    assert_eq!(result, names(vec!["a", "bb", "ccc", "dddd", "eeeee"]));
}

#[test]
fn test_search_fallback_scores_pinyin() {
    // The fallback weighs pinyin renderings too: a near-miss spelling ranks
    // the Chinese name first.
    let result = search_workspaces("nihoo", names(vec!["zzz", "你好"]));
    assert_eq!(result, names(vec!["你好", "zzz"]));
}
