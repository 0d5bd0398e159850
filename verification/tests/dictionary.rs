use chinese_segmenter::Dictionary;

#[test]
fn new_dictionary_contains_nothing() {
    let d = Dictionary::new();
    assert!(!d.contains("中华"));
    assert!(!d.contains(""));
}

#[test]
fn added_words_are_members() {
    let mut d = Dictionary::new();
    d.add("你好".to_string());
    d.add("中华".to_string());
    assert!(d.contains("你好"));
    assert!(d.contains("中华"));
    assert!(!d.contains("人民"));
}

#[test]
fn membership_is_exact_string_equality() {
    let mut d = Dictionary::new();
    d.add("你好".to_string());
    d.add("Abc".to_string());
    assert!(!d.contains("你"));
    assert!(!d.contains("你好吗"));
    assert!(!d.contains("abc"));
    assert!(d.contains("Abc"));
}
