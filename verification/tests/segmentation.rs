use chinese_segmenter::join;
use chinese_segmenter::segment;
use chinese_segmenter::segment_words;
use chinese_segmenter::Dictionary;

fn dict_of(words: &[&str]) -> Dictionary {
    let mut d = Dictionary::new();
    for w in words {
        d.add(w.to_string());
    }
    d
}

#[test]
fn empty_input_yields_no_segments() {
    let d = dict_of(&["你好", "中华"]);
    assert!(segment_words("", &d).is_empty());
    assert_eq!(segment(String::new(), &d), "");
}

#[test]
fn empty_dictionary_drops_every_character() {
    let d = Dictionary::new();
    assert!(segment_words("中华人民共和国", &d).is_empty());
    assert_eq!(segment("中华人民共和国".to_string(), &d), "");
    assert!(segment_words("abc def", &d).is_empty());
}

#[test]
fn longest_match_wins_at_each_position() {
    let d = dict_of(&["中华", "中华人民", "人民"]);
    assert_eq!(segment_words("中华人民共和国", &d), vec!["中华人民".to_string()]);
    assert_eq!(segment("中华人民共和国".to_string(), &d), "中华人民");
}

#[test]
fn longer_match_beats_shorter_at_same_position() {
    let d = dict_of(&["中", "中华"]);
    assert_eq!(segment_words("中华", &d), vec!["中华".to_string()]);
}

#[test]
fn unmatched_character_is_dropped() {
    let d = dict_of(&["你好"]);
    assert_eq!(segment_words("你好吗", &d), vec!["你好".to_string()]);
    assert_eq!(segment("你好吗".to_string(), &d), "你好");
}

#[test]
fn dropped_characters_between_matches() {
    let d = dict_of(&["ab", "cd"]);
    assert_eq!(
        segment_words("abxcd", &d),
        vec!["ab".to_string(), "cd".to_string()]
    );
    assert_eq!(segment("abxcd".to_string(), &d), "ab/cd");
}

#[test]
fn match_at_end_of_input() {
    let d = dict_of(&["人民"]);
    assert_eq!(segment_words("共人民", &d), vec!["人民".to_string()]);
}

#[test]
fn entry_longer_than_the_ceiling_never_matches() {
    let d = dict_of(&["中华人民共"]);
    assert!(segment_words("中华人民共", &d).is_empty());
    assert_eq!(segment("中华人民共".to_string(), &d), "");
}

#[test]
fn segmentation_is_deterministic() {
    let d = dict_of(&["中华", "中华人民", "人民", "你好"]);
    let first = segment("中华人民你好吗".to_string(), &d);
    let second = segment("中华人民你好吗".to_string(), &d);
    assert_eq!(first, second);
    assert_eq!(first, "中华人民/你好");
}

#[test]
fn resegmenting_a_joined_output_is_not_idempotent() {
    // The join delimiter is not filtered from later lookups: a dictionary
    // entry that itself contains the delimiter can swallow a whole joined
    // pair, so segmenting a joined output need not reproduce the segments.
    let d = dict_of(&["ab", "c", "ab/c"]);
    let first = segment_words("abc", &d);
    assert_eq!(first, vec!["ab".to_string(), "c".to_string()]);
    let rejoined = join(first.clone());
    assert_eq!(rejoined, "ab/c");
    let second = segment_words(&rejoined, &d);
    assert_eq!(second, vec!["ab/c".to_string()]);
    assert_ne!(first, second);
}

#[test]
fn join_of_zero_segments_is_empty() {
    assert_eq!(join(Vec::new()), "");
}

#[test]
fn join_of_one_segment_has_no_separator() {
    assert_eq!(join(vec!["你好".to_string()]), "你好");
}

#[test]
fn join_separates_consecutive_segments() {
    assert_eq!(
        join(vec!["a".to_string(), "b".to_string(), "c".to_string()]),
        "a/b/c"
    );
}

#[test]
fn join_skips_a_leading_empty_segment() {
    assert_eq!(join(vec![String::new(), "a".to_string()]), "a");
}
