use xuexi::character::{count_chars, Characters};
use xuexi::export::Export;
use xuexi::get_character_by_usage;
use xuexi::ordering::Ops;

#[test]
fn character_expect_to_return_chinese_char_list() {
    let content = "我喜歡你的狗. 你喜不喜歡我的狗?";
    let handler = Characters::new(content);
    let res = handler.generate_characters_list();

    assert_eq!(*res.get(&'喜').unwrap(), 3);
    assert_eq!(*res.get(&'的').unwrap(), 2);
    assert_eq!(*res.get(&'不').unwrap(), 1);
}

#[test]
fn character_expect_to_return_chinese_char_for_list_sentences() {
    let content = r#"
        上個星期天我跟朋友一起去了學校的年位居活動. 我們一起介紹一首詞.
        詞的作者是呂本中. 呂本中是宋代人. 詞的題目是去年今夜.
        "#;

    let handler = Characters::new(content);
    let res = handler.generate_characters_list();

    assert_eq!(*res.get(&'是').unwrap(), 3);
    assert_eq!(*res.get(&'我').unwrap(), 2);
    assert_eq!(*res.get(&'中').unwrap(), 2);
}

#[test]
fn character_expect_to_return_ordered_character_by_presence() {
    let content = "我跟你一起吃飯. 你要喝什麼";
    let handler = Characters::new(content);
    let res = handler.generate_characters_list();

    let ordered_list = res.get_ordered_characters();
    let most_present = ordered_list.first();

    assert!(most_present.is_some());
    let (character, count) = most_present.unwrap();
    assert_eq!(*character, '你');
    assert_eq!(*count, 2);
}

#[test]
fn expect_to_export_to_csv() {
    let content = "今天天氣非常熱";
    let handler = Characters::new(content);
    let res = handler.generate_characters_list();

    let csv = res.to_csv();
    assert!(csv.is_ok());
}

#[test]
fn character_counts_are_written_most_frequent_first() {
    let res = Characters::new("今天天氣非常熱").generate_characters_list();
    assert_eq!(
        res.to_csv().unwrap(),
        "char,count\n天,2\n今,1\n氣,1\n非,1\n常,1\n熱,1\n"
    );
    assert_eq!(Characters::new("").generate_characters_list().to_csv().unwrap(), "");
}

#[test]
fn punctuation_is_not_counted() {
    let res = get_character_by_usage("a.b?c!d,e...f《g》h。i\nj;k");
    assert_eq!(res.len(), 11);
    assert!(res.get(&'.').is_none());
    assert!(res.get(&'《').is_none());
    assert!(res.get(&'\n').is_none());
    assert_eq!(*res.get(&'k').unwrap(), 1);
}

#[test]
fn given_punctuation_takes_the_place_of_the_common_one() {
    let handler = Characters::with_punctuation("a-b.c", vec!["-".to_string()]);
    let res = handler.generate_characters_list();
    assert!(res.get(&'-').is_none());
    assert_eq!(*res.get(&'.').unwrap(), 1);
    let raw = handler.count_char_for_sentence("a-a");
    assert_eq!(*raw.get(&'-').unwrap(), 1);
    assert_eq!(*raw.get(&'a').unwrap(), 2);
}

#[test]
fn characters_keep_the_order_of_their_first_occurrence() {
    let chars: Vec<char> = "baab".chars().collect();
    let res = count_chars(&chars);
    assert_eq!(res.at(0), ('b', 2));
    assert_eq!(res.at(1), ('a', 2));
    assert_eq!(res.get_ordered_characters(), vec![('b', 2), ('a', 2)]);
}
