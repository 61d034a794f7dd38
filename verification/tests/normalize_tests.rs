use ytools::normalize;

#[test]
fn test_normalize() {
    // Only ASCII alphanumerics survive; no case folding happens here.
    assert_eq!(normalize("Hello-World"), "HelloWorld");
    assert_eq!(normalize("helloworld"), "helloworld");
    assert_eq!(normalize("Test_123"), "Test123");
    assert_eq!(normalize("test123"), "test123");
    // Ideographs are dropped entirely: normalization serves Latin matching.
    assert_eq!(normalize("项目-管理"), "");
    assert_eq!(normalize("项目管理"), "");
    assert_eq!(normalize(""), "");
}

#[test]
fn test_normalize_idempotent() {
    let samples = vec!["Hello-World", "a b c", "x_y-z.9", "项目abc", ""];
    for s in samples {
        let once = normalize(s);
        let twice = normalize(once.as_str());
        assert_eq!(twice, once);
    }
}

#[test]
fn test_normalize_keeps_order_and_case() {
    assert_eq!(normalize("A1-b2_C3"), "A1b2C3");
    assert_eq!(normalize("..9z--Y.."), "9zY");
    assert_eq!(normalize("!@#$%"), "");
}
