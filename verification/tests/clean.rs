use xuexi::clean::clean_sentence;

#[test]
fn clean_removes_each_pattern_in_turn() {
    let patterns = vec![".".to_string(), "?".to_string(), " ".to_string()];
    assert_eq!(clean_sentence("a. b? c", &patterns), "abc");
}
