use xuexi::chinese::Item;
use xuexi::dictionary::{Chinese, ChineseVersion, Dictionary, Lang};
use xuexi::error::DictionaryError;
use xuexi::export::{export_to_csv, read_written, write_rows, Export, Tabular};
use xuexi::punctuation::Puncutation;
use xuexi::rank::ranked;
use xuexi::word::{Word, WordParser};

fn item(traditional: &str, simplified: &str, pinyin: &str, meaning: &str) -> (String, Item) {
    (
        traditional.to_string(),
        Item {
            traditional_character: traditional.to_string(),
            simplified_character: simplified.to_string(),
            pinyin_tone_number: pinyin.split(' ').map(|s| s.to_string()).collect(),
            translations: vec![meaning.to_string()],
        },
    )
}

fn dictionary() -> Dictionary<Chinese> {
    let tables = Puncutation::new(vec![".".to_string()], Vec::new(), Vec::new());
    let mut dictionary =
        Dictionary::<Chinese>::initialize(Lang::Chinese(ChineseVersion::Traditional), tables);
    let entries = vec![
        item("今", "今", "jin1", "now"),
        item("今天", "今天", "jin1 tian1", "today"),
        item("天", "天", "tian1", "day, sky"),
        item("天氣", "天气", "tian1 qi4", "weather"),
        item("好", "好", "hao3", "say \"good\""),
        item("熱", "热", "re4", "hot"),
    ];
    dictionary.load(&entries).unwrap();
    dictionary
}

#[test]
fn a_table_read_back_gives_the_written_forms_and_counts() {
    let words = dictionary().parse_sentence_into_words("今天天氣好熱.今天好熱.熱");
    let text = words.to_csv().unwrap();

    let mut reader = csv::Reader::from_reader(text.as_bytes());
    let headers: Vec<String> = reader.headers().unwrap().iter().map(|h| h.to_string()).collect();
    assert_eq!(headers, vec!["written", "pronunciations", "translations", "count"]);
    let records: Vec<Vec<String>> = reader
        .records()
        .map(|record| record.unwrap().iter().map(|field| field.to_string()).collect())
        .collect();

    let sorted = ranked(&words);
    assert_eq!(records.len(), sorted.len());
    assert_eq!(records.len(), 4);
    for (i, record) in records.iter().enumerate() {
        let word = sorted.value_at(i);
        assert_eq!(record[0], word.written.join(","));
        assert_eq!(record[1], word.pronunciations.join(","));
        assert_eq!(record[2], word.translations.join(","));
        assert_eq!(record[3].parse::<i128>().unwrap(), word.count);
    }
    assert_eq!(records[0][0], "熱,热");
    assert_eq!(records[0][3], "3");
    assert_eq!(records[1][0], "今天,今天");
    assert_eq!(records[1][3], "2");
    assert_eq!(records[2][2], "say \"good\"");
}

#[test]
fn words_are_written_with_their_lists_joined() {
    let word = Word {
        written: vec!["熱".to_string(), "热".to_string()],
        pronunciations: vec!["re4".to_string()],
        translations: Vec::new(),
        count: -12,
    };
    assert_eq!(word.row(), vec!["熱,热", "re4", "", "-12"]);
    assert_eq!(Word::header(), vec!["written", "pronunciations", "translations", "count"]);
}

#[test]
fn rows_are_encoded_by_the_writer() {
    let rows = vec![
        vec!["a".to_string(), "b,c".to_string()],
        vec!["say \"x\"".to_string(), "".to_string()],
    ];
    assert_eq!(export_to_csv(&rows).unwrap(), "a,\"b,c\"\n\"say \"\"x\"\"\",\n");
    assert_eq!(write_rows(&rows).unwrap(), "a,\"b,c\"\n\"say \"\"x\"\"\",\n".as_bytes());
    assert_eq!(export_to_csv(&Vec::new()).unwrap(), "");
}

#[test]
fn rows_of_one_length_are_always_written() {
    let rows = vec![vec![String::new()], vec![String::new()]];
    assert_eq!(export_to_csv(&rows).unwrap(), "\"\"\n\"\"\n");
    let rows: Vec<Vec<String>> = vec![Vec::new(), Vec::new()];
    assert!(export_to_csv(&rows).is_ok());
    let big = vec![vec!["今".repeat(20000), "x".to_string()]; 3];
    assert!(write_rows(&big).is_ok());
}

#[test]
fn rows_of_different_lengths_are_refused() {
    let rows = vec![vec!["a".to_string(), "b".to_string()], vec!["c".to_string()]];
    let failure = export_to_csv(&rows).unwrap_err();
    assert!(matches!(failure, DictionaryError::Serialize(_)));
    assert!(failure.message().starts_with("Fail to serialize due to: "));
    assert!(write_rows(&rows).is_err());
}

#[test]
fn what_the_writer_hands_back_decides_the_outcome() {
    assert_eq!(read_written(Ok("今天".as_bytes().to_vec())).unwrap(), "今天");
    let failure = read_written(Ok(vec![0xff, 0xfe])).unwrap_err();
    assert!(matches!(failure, DictionaryError::Utf8(_)));
    assert!(failure.message().starts_with("Fail to convert utf-8 to string: "));
    let failure = read_written(Err("disk full".to_string())).unwrap_err();
    assert!(matches!(failure, DictionaryError::Serialize(_)));
    assert_eq!(failure.message(), "Fail to serialize due to: disk full");
}
