use xuexi::dictionary::{Dictionary, Lang, Laotian};
use xuexi::laotian::{count_known, JPEnLaoItem};
use xuexi::lexicon::Lexicon;
use xuexi::load_laotian_dictionary;
use xuexi::punctuation::Puncutation;
use xuexi::word::{Word, WordParser};

fn tables() -> Puncutation {
    Puncutation::new(
        vec!["。".to_string()],
        vec![".".to_string(), "?".to_string(), "!".to_string(), " ".to_string()],
        vec![".".to_string()],
    )
}

fn line(lao: &str, phonetic: &str, english: &str) -> JPEnLaoItem {
    JPEnLaoItem {
        lao: lao.to_string(),
        phonetic: phonetic.to_string(),
        english: english.to_string(),
    }
}

fn lines() -> Vec<JPEnLaoItem> {
    vec![
        line("ກິນ", "kin", "eat"),
        line(" ຮັກ ", " hak", "love "),
        line("ຢາກ", "yàrk", "want"),
        line("ລູກຫລ້າ", "lù:k lar", "youngest child"),
        line("ຫຍັງ", "nyãng", "what"),
        line("ໄດ້", "dâi", "can"),
    ]
}

fn dictionary() -> Dictionary<Laotian> {
    let mut dictionnary = Dictionary::<Laotian>::initialize(tables());
    dictionnary.load(&lines());
    dictionnary
}

#[test]
fn expect_to_load_lao_dictionnary() {
    let mut dictionnary = Dictionary::<Laotian>::initialize(tables());
    dictionnary.load(&lines());

    assert!(!dictionnary.dict.is_empty());
    assert!(matches!(dictionnary.params, Lang::Laotian(Some(_))));
}

#[test]
fn expect_to_get_item() {
    let dictionary = dictionary();
    let item = dictionary.dict.get("ຮັກ");
    assert!(item.is_some());

    let item = item.unwrap();
    assert_eq!(item.written.first().unwrap(), "ຮັກ");
    assert_eq!(item.pronunciations.get(0).unwrap(), "hak");
    assert_eq!(item.translations.get(0).unwrap(), "love");
}

#[test]
fn expect_to_get_list_word_for_sentence() {
    let words = dictionary().parse_sentence_into_words("ລູກຫລ້າຢາກໄດ້ກິນຫຍັງ");
    let baby = words.get("ລູກຫລ້າ");
    assert!(baby.is_some());

    let baby = baby.unwrap();
    assert_eq!(baby.written.first().unwrap(), "ລູກຫລ້າ");
    assert_eq!(baby.pronunciations.first().unwrap(), "lù:k lar");
    assert_eq!(baby.translations, vec!["youngest child"]);
}

#[test]
fn expect_to_not_match_anything() {
    let words = dictionary().parse_sentence_into_words("hello");
    assert!(words.is_empty());
}

#[test]
fn lao_words_are_cut_and_counted_in_order() {
    let words = dictionary().parse_sentence_into_words("ກິນ ລູກຫລ້າ. ກິນ!");
    assert_eq!(words.len(), 2);
    assert_eq!(words.key_at(0), "ກິນ");
    assert_eq!(words.value_at(0).count, 2);
    assert_eq!(words.key_at(1), "ລູກຫລ້າ");
    assert_eq!(words.value_at(1).count, 1);
}

#[test]
fn a_dictionary_without_lao_parameters_finds_nothing() {
    let mut dictionary = dictionary();
    dictionary.params = Lang::Chinese(xuexi::dictionary::ChineseVersion::Traditional);
    assert!(dictionary.parse_sentence_into_words("ກິນ").is_empty());
}

#[test]
fn loading_builds_the_lexicon_and_the_detector() {
    let dictionary = load_laotian_dictionary(&lines(), tables());
    assert_eq!(dictionary.punctuation, tables().laotian);
    assert!(dictionary.dict.contains_key("ໄດ້"));
    assert!(!dictionary.dict.contains_key(" ຮັກ "));
    assert_eq!(dictionary.dict.get("ກິນ").unwrap().count, 0);
    let empty = Dictionary::<Laotian>::initialize(tables());
    assert!(empty.dict.is_empty());
    assert!(matches!(empty.params, Lang::Laotian(None)));
}

#[test]
fn known_tokens_are_counted_and_unknown_ones_dropped() {
    let mut lexicon: Lexicon<Word> = Lexicon::new();
    let mut word = Word::default();
    word.written.push("b".to_string());
    lexicon.insert("b".to_string(), word);
    lexicon.insert("a".to_string(), Word::default());
    let tokens: Vec<String> = ["b", "x", "a", "b", "", "b"].iter().map(|t| t.to_string()).collect();
    let words = count_known(&tokens, &lexicon);
    assert_eq!(words.len(), 2);
    assert_eq!(words.key_at(0), "b");
    assert_eq!(words.value_at(0).count, 3);
    assert_eq!(words.value_at(0).written, vec!["b"]);
    assert_eq!(words.key_at(1), "a");
    assert_eq!(words.value_at(1).count, 1);
    assert!(count_known(&Vec::new(), &lexicon).is_empty());
}

#[test]
fn lines_with_one_lao_form_are_merged() {
    let lines = vec![
        line("ຮັກ", "hak", "love"),
        line("ກິນ", "kin", "eat"),
        line(" ຮັກ", "hák ", "to love"),
        line("ຮັກ ", "hak", "affection"),
    ];
    let dictionary = load_laotian_dictionary(&lines, tables());
    let word = dictionary.dict.get("ຮັກ").unwrap();
    assert_eq!(word.written, vec!["ຮັກ"]);
    assert_eq!(word.pronunciations, vec!["hak", "hák"]);
    assert_eq!(word.translations, vec!["love", "to love", "affection"]);
    assert_eq!(dictionary.dict.get("ກິນ").unwrap().translations, vec!["eat"]);
}
