use xuexi::chinese::Item;
use xuexi::dictionary::{Chinese, ChineseVersion, Dictionary, Lang};
use xuexi::error::DictionaryError;
use xuexi::load_chinese_dictionary;
use xuexi::punctuation::Puncutation;
use xuexi::word::{Word, WordParser};

fn tables() -> Puncutation {
    let chinese = vec![".", "?", "!", ",", " ", "。", "，", "！", "？", "\n"];
    Puncutation::new(
        chinese.iter().map(|mark| mark.to_string()).collect(),
        vec![" ".to_string()],
        vec![".".to_string(), "?".to_string()],
    )
}

fn item(traditional: &str, simplified: &str, pinyin: &str, translations: &[&str]) -> Item {
    Item {
        traditional_character: traditional.to_string(),
        simplified_character: simplified.to_string(),
        pinyin_tone_number: pinyin.split(' ').map(|syllable| syllable.to_string()).collect(),
        translations: translations.iter().map(|meaning| meaning.to_string()).collect(),
    }
}

fn items() -> Vec<Item> {
    vec![
        item("得", "得", "de2", &["to obtain", "to get"]),
        item("得", "得", "de5", &["structural particle"]),
        item("得", "得", "dei3", &["to have to", "must"]),
        item("你", "你", "ni3", &["you (informal)"]),
        item("好", "好", "hao3", &["good", "well"]),
        item("你好", "你好", "ni3 hao3", &["hello", "hi"]),
        item("去", "去", "qu4", &["to go"]),
        item("去年", "去年", "qu4 nian2", &["last year"]),
        item("我", "我", "wo3", &["I", "me"]),
        item("過", "过", "guo4", &["to cross", "to go over"]),
        item("日", "日", "ri4", &["sun", "day"]),
        item("日本", "日本", "Ri4 ben3", &["Japan"]),
        item("看", "看", "kan4", &["to see", "to look at"]),
        item("朋", "朋", "peng2", &["friend"]),
        item("朋友", "朋友", "peng2 you5", &["friend"]),
        item("很", "很", "hen3", &["very"]),
        item("好看", "好看", "hao3 kan4", &["good-looking"]),
        item("今", "今", "jin1", &["now"]),
        item("今天", "今天", "jin1 tian1", &["today"]),
        item("天", "天", "tian1", &["day", "sky"]),
        item("天氣", "天气", "tian1 qi4", &["weather"]),
        item("嗎", "吗", "ma5", &["(question particle)"]),
        item("非", "非", "fei1", &["not"]),
        item("非常", "非常", "fei1 chang2", &["very", "extraordinary"]),
        item("吃", "吃", "chi1", &["to eat"]),
        item("拉", "拉", "la1", &["to pull"]),
        item("拉麵", "拉面", "la1 mian4", &["pulled noodles", "ramen"]),
        item("起", "起", "qi3", &["to rise"]),
        item("起來", "起来", "qi3 lai5", &["to stand up"]),
        item("好吃", "好吃", "hao3 chi1", &["tasty", "delicious"]),
        item("讓", "让", "rang4", &["to yield", "to let"]),
        item("高", "高", "gao1", &["high", "tall"]),
        item("高興", "高兴", "gao1 xing4", &["happy", "glad"]),
        item("喜", "喜", "xi3", &["to be fond of"]),
        item("喜歡", "喜欢", "xi3 huan5", &["to like"]),
        item("開", "开", "kai1", &["to open"]),
        item("開車", "开车", "kai1 che1", &["to drive a car"]),
    ]
}

fn keyed(version: ChineseVersion) -> Vec<(String, Item)> {
    items()
        .into_iter()
        .map(|entry| match version {
            ChineseVersion::Traditional => (entry.traditional_character.clone(), entry),
            ChineseVersion::Simplified => (entry.simplified_character.clone(), entry),
        })
        .collect()
}

fn dictionary() -> Dictionary<Chinese> {
    let mut dictionary =
        Dictionary::<Chinese>::initialize(Lang::Chinese(ChineseVersion::Traditional), tables());
    dictionary.load(&keyed(ChineseVersion::Traditional)).unwrap();
    dictionary
}

#[test]
fn expect_to_load_dictionary() {
    let mut dictionary =
        Dictionary::<Chinese>::initialize(Lang::Chinese(ChineseVersion::Traditional), tables());
    dictionary.load(&keyed(ChineseVersion::Traditional)).unwrap();

    assert!(!dictionary.dict.is_empty());
}

#[test]
fn expect_to_get_same_char_and_different_pronounciation() {
    let res = dictionary().parse_sentence_into_words("得");
    let dei = res.get("得").unwrap();

    assert_eq!(dei.pronunciations.get(0).unwrap(), "de2");
    assert_eq!(dei.pronunciations.last().unwrap(), "dei3");
}

#[test]
fn records_under_one_key_are_merged_on_load() {
    let mut dictionary =
        Dictionary::<Chinese>::initialize(Lang::Chinese(ChineseVersion::Traditional), tables());
    let entries = vec![
        ("得".to_string(), item("得", "得", "de2", &["to obtain", "to get"])),
        ("好".to_string(), item("好", "好", "hao3", &["good"])),
        ("得".to_string(), item("得", "得", "dei3", &["to have to", "must"])),
        ("得".to_string(), item("得", "得", "de2", &["to obtain"])),
    ];
    dictionary.load(&entries).unwrap();
    let dei = dictionary.dict.get("得").unwrap();
    assert_eq!(dei.pronunciations, vec!["de2", "dei3"]);
    assert_eq!(dei.translations, vec!["to obtain", "to get", "to have to"]);
    assert_eq!(dei.written, vec!["得", "得"]);
    assert_eq!(dei.count, 0);
    assert_eq!(dictionary.dict.get("好").unwrap().pronunciations, vec!["hao3"]);

    let words = dictionary.parse_sentence_into_words("得");
    assert_eq!(words.get("得").unwrap().pronunciations, vec!["de2", "dei3"]);
    assert_eq!(words.get("得").unwrap().count, 1);
}

#[test]
fn expect_to_get_characters() {
    let words = dictionary().parse_sentence_into_words("你好你好");
    let nihao = words.get("你好");

    assert!(nihao.is_some());

    let nihao = nihao.unwrap();
    assert_eq!(nihao.count, 2);
    assert_eq!(nihao.written.first().unwrap(), "你好");
}

#[test]
fn expect_to_get_ordered_characters() {
    let words = dictionary().parse_sentence_into_words("去年我去過日本看我好朋友日本很好看");
    let riben = words.get("日本").unwrap();

    assert_eq!(riben.count, 2);
    assert_eq!(riben.written.first().unwrap(), "日本");
}

#[test]
fn expect_to_generate_list_with_for_multiple_sentences() {
    let words = dictionary()
        .parse_sentence_into_words("今天我日本朋友吃拉麵. 日本拉麵看起來好吃! 吃拉麵讓我高興");

    let riben = words.get("日本").unwrap();
    assert_eq!(riben.count, 2);
    assert_eq!(riben.written.first().unwrap(), "日本");

    let chi = words.get("吃").unwrap();
    assert_eq!(chi.count, 2);
    assert_eq!(chi.written.first().unwrap(), "吃");

    let gaoxing = words.get("高興").unwrap();
    assert_eq!(gaoxing.count, 1);
    assert_eq!(gaoxing.written.first().unwrap(), "高興");
}

#[test]
fn expect_to_generate_list_with_punctuation() {
    let words = dictionary().parse_sentence_into_words("今天天氣好嗎 ? 天氣非常好. ");

    let weather = words.get("天氣").unwrap();
    assert_eq!(weather.count, 2);

    let ma = words.get("嗎").unwrap();
    assert_eq!(ma.count, 1);
}

#[test]
fn expect_to_return_none_when_no_chinese_word() {
    let words = dictionary().parse_sentence_into_words("hello");
    assert!(words.is_empty());
}

#[test]
fn expect_to_load_simplified_chinese() {
    let mut dictionary =
        Dictionary::<Chinese>::initialize(Lang::Chinese(ChineseVersion::Simplified), tables());
    dictionary.load(&keyed(ChineseVersion::Simplified)).unwrap();

    let words = dictionary.parse_sentence_into_words("你喜欢开车吗?");

    let like = words.get("喜欢").unwrap();
    assert_eq!(like.count, 1);
    assert_eq!(like.written.first().unwrap(), "喜歡");

    let question_mark = words.get("吗").unwrap();
    assert_eq!(question_mark.count, 1);
    assert_eq!(question_mark.written.first().unwrap(), "嗎");
}

#[test]
fn a_word_is_made_of_both_scripts_and_not_counted() {
    let word = Word::from_item(&item("熱", "热", "re4", &["hot"]));
    assert_eq!(word.written, vec!["熱", "热"]);
    assert_eq!(word.pronunciations, vec!["re4"]);
    assert_eq!(word.translations, vec!["hot"]);
    assert_eq!(word.count, 0);
}

#[test]
fn loading_without_a_chinese_version_fails() {
    let mut dictionary = Dictionary::<Chinese>::initialize(Lang::Laotian(None), tables());
    let failure = dictionary.load(&keyed(ChineseVersion::Traditional)).unwrap_err();
    assert!(matches!(failure, DictionaryError::ChineseDictionary(_)));
    assert_eq!(
        failure.message(),
        "Fail to load chinese dinctionary: Unable to found the definition of chinese version to use"
    );
    assert!(dictionary.dict.is_empty());

    let loaded = load_chinese_dictionary(
        Lang::Laotian(None),
        &keyed(ChineseVersion::Traditional),
        tables(),
    );
    assert!(matches!(loaded, Err(DictionaryError::ChineseDictionary(_))));
}

#[test]
fn a_loaded_dictionary_strips_the_chinese_punctuation() {
    let dictionary = load_chinese_dictionary(
        Lang::Chinese(ChineseVersion::default()),
        &keyed(ChineseVersion::Traditional),
        tables(),
    )
    .unwrap();
    assert_eq!(dictionary.punctuation, tables().chinese);
    assert!(matches!(dictionary.params, Lang::Chinese(ChineseVersion::Traditional)));
    let words = dictionary.parse_sentence_into_words("你。好");
    assert_eq!(words.len(), 1);
    assert_eq!(words.key_at(0), "你好");
}

#[test]
fn insert_word_counts_and_keeps_the_first_record() {
    let dictionary = dictionary();
    let mut map = dictionary.parse_sentence_into_words("");
    let hot = Word::from_item(&item("熱", "热", "re4", &["hot"]));
    let other = Word::from_item(&item("熱", "热", "re5", &["warm"]));
    dictionary.insert_word(&mut map, "熱", hot);
    dictionary.insert_word(&mut map, "熱", other);
    let stored = map.get("熱").unwrap();
    assert_eq!(stored.count, 2);
    assert_eq!(stored.pronunciations, vec!["re4"]);
    assert_eq!(map.len(), 1);
}
