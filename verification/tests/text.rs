use xuexi::clean::{clean_chars, clean_sentence, Clean};
use xuexi::error::DictionaryError;
use xuexi::number::decimal_text;
use xuexi::ordered::OrderedMap;
use xuexi::punctuation::Puncutation;
use xuexi::rank::rank_order;
use xuexi::tally::WordTally;
use xuexi::text::{
    code_points, copy_range, copy_texts, find_char, join, occurs_at, remove_pattern, slice_text,
    text_of, trim, trim_chars,
};
use xuexi::theme::{get_theme_color, Colors};
use xuexi::ui::{App, Effect, Language, Message, SupportedLanguage};

fn chars(text: &str) -> Vec<char> {
    text.chars().collect()
}

#[test]
fn text_is_taken_by_code_points() {
    assert_eq!(code_points("今a夜"), vec!['今', 'a', '夜']);
    assert!(code_points("").is_empty());
    assert_eq!(slice_text(&chars("去年今夜"), 1, 3), "年今");
    assert_eq!(slice_text(&chars("去年今夜"), 2, 2), "");
    assert_eq!(text_of(&chars("去年")), "去年");
    assert_eq!(copy_range(&chars("abcd"), 1, 3), vec!['b', 'c']);
    assert_eq!(copy_texts(&vec!["a".to_string(), "今".to_string()]), vec!["a", "今"]);
}

#[test]
fn patterns_are_removed_from_left_to_right_without_overlap() {
    assert_eq!(remove_pattern(&chars("aaa"), &chars("aa")), chars("a"));
    assert_eq!(remove_pattern(&chars("ababa"), &chars("aba")), chars("ba"));
    assert_eq!(remove_pattern(&chars("abc"), &chars("")), chars("abc"));
    assert_eq!(remove_pattern(&chars("abc"), &chars("abcd")), chars("abc"));
    assert_eq!(remove_pattern(&chars("a.b.c."), &chars(".")), chars("abc"));
    assert_eq!(remove_pattern(&chars(""), &chars(".")), chars(""));
    assert!(occurs_at(&chars("abc"), 1, &chars("bc")));
    assert!(!occurs_at(&chars("abc"), 2, &chars("bc")));
    assert!(occurs_at(&chars("abc"), 3, &chars("")));
}

#[test]
fn cleaning_is_a_fold_over_the_patterns() {
    let marks = vec!["...".to_string(), ".".to_string()];
    assert_eq!(clean_sentence("a...b.c", &marks), "abc");
    let marks = vec![".".to_string(), "...".to_string()];
    assert_eq!(clean_sentence("a...b.c", &marks), "abc");
    let marks = vec!["b".to_string(), "ac".to_string()];
    assert_eq!(clean_sentence("xabcx", &marks), "xx");
    let marks = vec!["ac".to_string(), "b".to_string()];
    assert_eq!(clean_sentence("xabcx", &marks), "xacx");
    assert_eq!(clean_sentence("今天。", &Vec::new()), "今天。");
    assert_eq!(clean_chars("a b", &vec![" ".to_string()]), vec!['a', 'b']);
}

#[test]
fn every_holder_of_punctuation_cleans_alike() {
    let tables = Puncutation::new(vec!["。".to_string()], Vec::new(), vec![".".to_string()]);
    let dictionnary = xuexi::cedict::Dictionnary::new();
    assert_eq!(dictionnary.remove_punctuation_from_sentence("今。天.", &tables.chinese), "今天.");
    assert_eq!(dictionnary.remove_punctuation_from_sentence("今。天.", &tables.western), "今。天");
    assert!(tables.laotian.is_empty());
}

#[test]
fn trimming_takes_the_white_space_off_both_ends() {
    assert_eq!(trim("  a b \t\n"), "a b");
    assert_eq!(trim("\u{3000}今 天\u{a0}"), "今 天");
    assert_eq!(trim("   "), "");
    assert_eq!(trim(""), "");
    assert_eq!(trim("x"), "x");
    assert_eq!(trim_chars(&chars(" x")), vec!['x']);
}

#[test]
fn characters_are_found_from_a_position_on() {
    assert_eq!(find_char(&chars("a/b/c"), 0, 5, '/'), 1);
    assert_eq!(find_char(&chars("a/b/c"), 2, 5, '/'), 1);
    assert_eq!(find_char(&chars("a/b/c"), 4, 5, '/'), 1);
    assert_eq!(find_char(&chars("a/b/c"), 0, 1, '/'), 1);
    assert_eq!(find_char(&chars(""), 0, 0, '/'), 0);
}

#[test]
fn lists_are_joined_with_a_mark_between() {
    assert_eq!(join(&vec!["a".to_string(), "b".to_string(), "".to_string()], ","), "a,b,");
    assert_eq!(join(&vec!["a".to_string()], ","), "a");
    assert_eq!(join(&Vec::new(), ","), "");
    assert_eq!(join(&vec!["a".to_string(), "b".to_string()], " - "), "a - b");
}

#[test]
fn counts_are_written_in_decimal() {
    assert_eq!(decimal_text(0), "0");
    assert_eq!(decimal_text(7), "7");
    assert_eq!(decimal_text(10), "10");
    assert_eq!(decimal_text(1234567890), "1234567890");
    assert_eq!(decimal_text(-45), "-45");
    assert_eq!(decimal_text(i128::MAX), i128::MAX.to_string());
    assert_eq!(decimal_text(i128::MIN), i128::MIN.to_string());
}

#[test]
fn positions_are_ranked_by_falling_count() {
    assert_eq!(rank_order(&vec![2, 2, 1]), vec![0, 1, 2]);
    assert_eq!(rank_order(&vec![1, 3, 2, 3, 1]), vec![1, 3, 2, 0, 4]);
    assert_eq!(rank_order(&vec![5]), vec![0]);
    assert!(rank_order(&Vec::new()).is_empty());
}

#[test]
fn a_tally_counts_commits_at_the_place_of_the_first() {
    let mut tally = WordTally::new();
    tally.commit("b");
    tally.commit("a");
    tally.commit("b");
    assert_eq!(tally.len(), 2);
    assert_eq!(tally.word_at(0), "b");
    assert_eq!(tally.count_at(0), 2);
    assert_eq!(*tally.count_ref(1), 1);
    assert_eq!(tally.find("a"), Some(1));
    assert_eq!(tally.find("c"), None);
}

#[test]
fn an_ordered_map_keeps_its_keys_in_order() {
    let mut map: OrderedMap<i128> = OrderedMap::new();
    assert!(map.is_empty());
    map.push_new("b".to_string(), 1);
    map.push_new("a".to_string(), 2);
    map.replace_at(0, 5);
    assert_eq!(map.len(), 2);
    assert_eq!(map.find("a"), Some(1));
    assert_eq!(map.find("c"), None);
    assert_eq!(map.get("b"), Some(&5));
    assert_eq!(map.get("c"), None);
    assert_eq!(map.key_at(0), "b");
    assert_eq!(*map.value_at(1), 2);
}

#[test]
fn every_error_says_what_failed_and_why() {
    let cause = || "cause".to_string();
    assert_eq!(DictionaryError::Serialize(cause()).message(), "Fail to serialize due to: cause");
    assert_eq!(
        DictionaryError::Utf8(cause()).message(),
        "Fail to convert utf-8 to string: cause"
    );
    assert_eq!(
        DictionaryError::ChineseDictionary(cause()).message(),
        "Fail to load chinese dinctionary: cause"
    );
    assert_eq!(
        DictionaryError::LaoDictionary(cause()).message(),
        "Fail to load lao dictionary: cause"
    );
    assert_eq!(
        DictionaryError::Puncutation(cause()).message(),
        "Unable to retrieve the punctuation: cause"
    );
}

#[test]
fn the_theme_is_light_only_by_name() {
    assert_eq!(get_theme_color("light").class_name, "light");
    assert_eq!(get_theme_color("dark").class_name, "dark");
    assert_eq!(get_theme_color("Light").class_name, "dark");
    assert_eq!(get_theme_color("").class_name, "dark");
    assert_eq!(Colors::from_dark_theme().class_name, "dark");
    assert_eq!(Colors::from_light_theme().class_name, "light");
}

#[test]
fn messages_change_what_the_front_end_keeps() {
    let mut app = App::new();
    assert_eq!(app.title(), "Lunette");
    assert!(matches!(app.update(Message::OnInput("今天".to_string())), Effect::Nothing));
    assert_eq!(app.input_text, "今天");
    assert!(matches!(
        app.update(Message::LanguageSelected(Language::TraditionalChinese)),
        Effect::Nothing
    ));
    assert_eq!(app.selected_language, Some(Language::TraditionalChinese));
    assert!(matches!(app.update(Message::GenerateBtnPressed), Effect::Nothing));
    assert_eq!(app.words, vec!["foo"]);
    match app.update(Message::ExportBtnPressed) {
        Effect::Announce(line) => assert_eq!(line, "export pressed"),
        Effect::Nothing => panic!("an export is announced"),
    }
    assert_eq!(app.words.len(), 1);
    assert_eq!(app.input_text, "今天");
    assert_eq!(Language::TraditionalChinese.label(), "Traditional Chinese");
    assert_eq!(SupportedLanguage::from_name("laotian"), SupportedLanguage::Chinese);
    assert_eq!(SupportedLanguage::from_name("chinese").name(), "chinese");
}
