use chinese_segmenter::cedict::is_comment;
use chinese_segmenter::cedict::second_field;

#[test]
fn comment_lines_start_with_a_hash() {
    assert!(is_comment("# CC-CEDICT"));
    assert!(is_comment("#"));
    assert!(!is_comment(""));
    assert!(!is_comment("中華 中华 [zhong1 hua2] /China/"));
    assert!(!is_comment(" # not at the start"));
}

#[test]
fn second_field_is_the_simplified_form() {
    assert_eq!(
        second_field("中華 中华 [zhong1 hua2] /China/"),
        Some("中华".to_string())
    );
    assert_eq!(second_field("你好 你好 [ni3 hao3] /hello/"), Some("你好".to_string()));
}

#[test]
fn a_line_without_a_space_has_no_second_field() {
    assert_eq!(second_field("nospace"), None);
    assert_eq!(second_field(""), None);
}

#[test]
fn a_second_field_may_be_empty() {
    assert_eq!(second_field("a "), Some(String::new()));
    assert_eq!(second_field("a  b"), Some(String::new()));
}

#[test]
fn a_leading_space_makes_the_first_field_empty() {
    assert_eq!(second_field(" x y"), Some("x".to_string()));
}
