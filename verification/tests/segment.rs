use xuexi::clean::clean_chars;
use xuexi::lexicon::Lexicon;
use xuexi::ordered::OrderedMap;
use xuexi::segment::{scan_words, segment};
use xuexi::text::code_points;
use xuexi::word::Word;

fn word(written: &str, meaning: &str) -> Word {
    Word {
        written: vec![written.to_string()],
        pronunciations: Vec::new(),
        translations: vec![meaning.to_string()],
        count: 0,
    }
}

fn lexicon(entries: &[(&str, &str)]) -> Lexicon<Word> {
    let mut lexicon = Lexicon::new();
    for (key, meaning) in entries {
        lexicon.insert(key.to_string(), word(key, meaning));
    }
    lexicon
}

fn run(sentence: &str, lexicon: &Lexicon<Word>) -> OrderedMap<Word> {
    segment(&code_points(sentence), lexicon)
}

fn counts(words: &OrderedMap<Word>) -> Vec<(String, i128)> {
    (0..words.len()).map(|i| (words.key_at(i).clone(), words.value_at(i).count)).collect()
}

#[test]
fn the_longest_match_is_preferred() {
    let lexicon = lexicon(&[("今", "D1"), ("今夜", "D2")]);
    let words = run("今夜", &lexicon);
    assert_eq!(counts(&words), vec![("今夜".to_string(), 1)]);
    assert_eq!(words.get("今夜").unwrap().translations, vec!["D2"]);
    assert!(words.get("今").is_none());
}

#[test]
fn adjacent_words_are_both_found() {
    let lexicon = lexicon(&[("去", "D0"), ("去年", "D1"), ("今", "D3"), ("今夜", "D2")]);
    let words = run("去年今夜", &lexicon);
    assert_eq!(counts(&words), vec![("去年".to_string(), 1), ("今夜".to_string(), 1)]);
}

#[test]
fn a_word_whose_first_character_is_no_word_is_not_reached() {
    let lexicon = lexicon(&[("去年", "D1"), ("今夜", "D2")]);
    assert!(run("去年今夜", &lexicon).is_empty());
    let lexicon = lexicon_with_heads();
    assert_eq!(
        counts(&run("去年今夜", &lexicon)),
        vec![("今夜".to_string(), 1)]
    );
}

fn lexicon_with_heads() -> Lexicon<Word> {
    lexicon(&[("去年", "D1"), ("今", "D3"), ("今夜", "D2")])
}

#[test]
fn a_sentence_without_known_words_gives_nothing() {
    let lexicon = lexicon(&[("今", "D1"), ("今夜", "D2"), ("ກິນ", "eat")]);
    assert!(run("hello", &lexicon).is_empty());
    assert!(run("h", &lexicon).is_empty());
    assert!(run("", &lexicon).is_empty());
    assert!(run("今夜", &Lexicon::new()).is_empty());
}

#[test]
fn a_sentence_that_ends_on_a_long_match_commits_it() {
    let lexicon = lexicon(&[("今", "D1"), ("今夜", "D2")]);
    assert_eq!(counts(&run("xx今夜", &lexicon)), vec![("今夜".to_string(), 1)]);
}

#[test]
fn a_single_known_character_is_committed() {
    let lexicon = lexicon(&[("今", "D1")]);
    assert_eq!(counts(&run("今", &lexicon)), vec![("今".to_string(), 1)]);
}

#[test]
fn a_trailing_unknown_tail_flushes_the_last_match_twice() {
    let lexicon = lexicon(&[("今", "D1"), ("今夜", "D2")]);
    assert_eq!(counts(&run("今夜x", &lexicon)), vec![("今夜".to_string(), 2)]);
    assert_eq!(counts(&run("今夜xyz", &lexicon)), vec![("今夜".to_string(), 2)]);
    assert_eq!(counts(&run("今x", &lexicon)), vec![("今".to_string(), 2)]);
}

#[test]
fn repeated_words_are_counted_at_their_first_place() {
    let lexicon = lexicon(&[("a", "A"), ("b", "B"), ("ab", "AB")]);
    let words = run("bab", &lexicon);
    assert_eq!(counts(&words), vec![("b".to_string(), 1), ("ab".to_string(), 1)]);
    let words = run("abab", &lexicon);
    assert_eq!(counts(&words), vec![("ab".to_string(), 2)]);
    let words = run("baba", &lexicon);
    assert_eq!(
        counts(&words),
        vec![("b".to_string(), 1), ("ab".to_string(), 1), ("a".to_string(), 1)]
    );
}

#[test]
fn keys_are_words_of_the_lexicon_that_occur_in_the_cleaned_sentence() {
    let lexicon = lexicon(&[("a", "A"), ("ab", "AB"), ("c", "C"), ("abc", "ABC"), ("zz", "Z")]);
    let marks = vec!["-".to_string(), ".".to_string()];
    let chars = clean_chars("a-b.c xa.bzc-ab", &marks);
    let cleaned: String = chars.iter().collect();
    let words = segment(&chars, &lexicon);
    assert!(!words.is_empty());
    for i in 0..words.len() {
        let key = words.key_at(i);
        assert!(lexicon.contains_key(key));
        assert!(cleaned.contains(key.as_str()));
        assert!(words.value_at(i).count >= 1);
    }
}

#[test]
fn counting_twice_and_adding_equals_counting_the_doubled_sentence() {
    let lexicon = lexicon(&[("去", "D0"), ("去年", "D1"), ("今", "D3"), ("今夜", "D2")]);
    let once = run("去年今夜", &lexicon);
    let doubled = run("去年今夜去年今夜", &lexicon);
    assert_eq!(once.len(), doubled.len());
    for i in 0..once.len() {
        let key = once.key_at(i);
        assert_eq!(doubled.get(key).unwrap().count, 2 * once.value_at(i).count);
    }
}

#[test]
fn doubling_can_merge_two_words_into_a_longer_one() {
    let lexicon = lexicon(&[("今", "D1"), ("今今", "D2")]);
    assert_eq!(counts(&run("今", &lexicon)), vec![("今".to_string(), 1)]);
    assert_eq!(counts(&run("今今", &lexicon)), vec![("今今".to_string(), 1)]);
}

#[test]
fn the_tally_holds_the_words_without_their_records() {
    let lexicon = lexicon(&[("a", "A"), ("ab", "AB")]);
    let tally = scan_words(&code_points("abaab"), &lexicon);
    assert_eq!(tally.len(), 2);
    assert_eq!(tally.word_at(0), "ab");
    assert_eq!(tally.count_at(0), 2);
    assert_eq!(tally.word_at(1), "a");
    assert_eq!(tally.count_at(1), 1);
    assert_eq!(tally.find("a"), Some(1));
    assert_eq!(tally.find("b"), None);
}

#[test]
fn separable_words_are_recovered_and_counted_twice_when_doubled() {
    let lexicon =
        lexicon(&[("去", "a"), ("去年", "b"), ("今", "c"), ("今夜", "d"), ("我", "e")]);
    let once = run("去年我今夜去年", &lexicon);
    assert_eq!(
        counts(&once),
        vec![("去年".to_string(), 2), ("我".to_string(), 1), ("今夜".to_string(), 1)]
    );
    let twice = run("去年我今夜去年去年我今夜去年", &lexicon);
    assert_eq!(
        counts(&twice),
        vec![("去年".to_string(), 4), ("我".to_string(), 2), ("今夜".to_string(), 2)]
    );
    assert_eq!(twice.get("今夜").unwrap().translations, once.get("今夜").unwrap().translations);
}

#[test]
fn no_key_is_empty() {
    let mut lexicon = lexicon(&[("a", "A")]);
    lexicon.insert(String::new(), word("", "nothing"));
    let words = run("xaxa", &lexicon);
    assert_eq!(words.len(), 1);
    assert_eq!(words.key_at(0), "a");
}
