use xuexi::cedict::{parse_line, read_line, split_lines, Cedict, Dictionnary};
use xuexi::detect::DetectWord;
use xuexi::load_chinese_dictionnary;
use xuexi::ordering::Ops;
use xuexi::text::code_points;

const SAMPLE: &str = "# CC-CEDICT sample
#! version=1
% a line kept out as well
上 上 [shang4] /on top/upon/above/upper/previous/to climb/to go up/
下 下 [xia4] /down/downwards/below/lower/later/next (week etc)/
去 去 [qu4] /to go/to go to (a place)/to remove/
去年 去年 [qu4 nian2] /last year/
今 今 [jin1] /now/the present time/current/
今夜 今夜 [jin1 ye4] /tonight/this evening/
今天 今天 [jin1 tian1] /today/at the present/now/
天 天 [tian1] /day/sky/heaven/
天氣 天气 [tian1 qi4] /weather/
好 好 [hao3] /good/well/proper/
熱 热 [re4] /to warm up/to heat up/hot (of weather)/
我 我 [wo3] /I/me/my/
要 要 [yao4] /important/vital/to want/
吃 吃 [chi1] /to eat/to consume/
冰 冰 [bing1] /ice/
冰糕 冰糕 [bing1 gao1] /ice-cream/popsicle/
中 中 [zhong1] /within/among/in/middle/
中國 中国 [Zhong1 guo2] /China/
中國人 中国人 [Zhong1 guo2 ren2] /Chinese person/
人 人 [ren2] /man/person/people/
同 同 [tong2] /like/same/similar/together/
醉 醉 [zui4] /intoxicated/
月 月 [yue4] /moon/month/
月明 月明 [yue4 ming2] /moonlight/
明 明 [ming2] /bright/clear/
花 花 [hua1] /flower/blossom/
樹 树 [shu4] /tree/
台 台 [tai2] /desk/table/platform/
台灣 台湾 [Tai2 wan1] /Taiwan/
氣 气 [qi4] /gas/air/smell/
不 不 [bu4] /(negative prefix)/not/no/
不錯 不错 [bu4 cuo4] /correct/right/not bad/pretty good/
你 你 [ni3] /you (informal)/
你好 你好 [ni3 hao3] /hello/hi/
喜 喜 [xi3] /to be fond of/to like/
喜歡 喜欢 [xi3 huan5] /to like/to be fond of/
喝 喝 [he1] /to drink/
酒 酒 [jiu3] /wine (esp. rice wine)/liquor/
嗎 吗 [ma5] /(question particle for \"yes-no\" questions)/
跟 跟 [gen1] /heel/to follow closely/with/
一 一 [yi1] /one/single/
一起 一起 [yi1 qi3] /in the same place/together/with/
";

fn sample() -> Dictionnary {
    load_chinese_dictionnary(SAMPLE)
}

#[test]
fn expect_to_get_dictionnary() {
    let dictionnary = sample();
    let res = dictionnary.get("上");

    assert!(res.is_some());
    let shang = res.unwrap();
    assert_eq!(shang.traditional_character, "上");
}

#[test]
fn expect_to_get_dictionnary_for_sentence() {
    let dictionnary = sample();
    let res = dictionnary.get_definitions_for_sentence("去年今夜");

    let qu = res.get("去年");
    assert!(qu.is_some());

    let (qu_def, qu_count) = qu.unwrap();
    assert_eq!(qu_def.traditional_character, "去年");
    assert_eq!(*qu_count, 1);

    let english_translation = qu_def.get_english_translations();
    let english_translation = english_translation.get(0).unwrap();
    assert_eq!(english_translation, "last year");
}

#[test]
fn expect_to_get_dictionnary_for_complicated_sentence() {
    let dictionnary = sample();
    let res = dictionnary
        .get_definitions_for_sentence("去年今夜中國人同醉月明花樹下lol台灣去年");

    let qu = res.get("去年");
    assert!(qu.is_some());

    let (qu_def, qu_count) = qu.unwrap();
    assert_eq!(qu_def.traditional_character, "去年");
    assert_eq!(*qu_count, 2);

    let taiwan = res.get("台灣");
    assert!(taiwan.is_some());

    let (taiwan_def, taiwan_count) = taiwan.unwrap();
    assert_eq!(taiwan_def.traditional_character, "台灣");
    assert_eq!(*taiwan_count, 1);
}

#[test]
fn expect_to_get_ordered_list_of_definition() {
    let dictionnary = sample();
    let content = "今天天氣好熱.我今天要吃冰糕";
    let definitions = dictionnary.get_definitions_for_sentence(content);
    let ordered_definition = definitions.get_ordered_characters();

    let (today_def, count) = ordered_definition.first().unwrap();
    assert_eq!(today_def.traditional_character, "今天");
    assert_eq!(*count, 2);
}

#[test]
fn expect_to_load_dictionnary() {
    let mut dictionnary = Dictionnary::new();
    dictionnary.load(SAMPLE);
    let words = dictionnary.get_list_detected_words("氣不錯你喜歡喝酒嗎你跟我一起喝");

    println!("{:?}", words.as_ref().map(|w| w.len()));
    assert!(!words.unwrap().is_empty());
}

#[test]
fn expect_to_not_load_dictionnary() {
    let mut dictionnary = Dictionnary::new();
    dictionnary.load(SAMPLE);
    let words = dictionnary.get_list_detected_words("你好你好");

    println!("{:?}", words.as_ref().map(|w| w.len()));
    let words = words.unwrap();
    assert_eq!(words.len(), 1);
    assert_eq!(words.get("你好").unwrap().count, 2);
}

#[test]
fn expect_to_load_dictionnary_en() {
    let mut dictionnary = Dictionnary::new();
    dictionnary.load(SAMPLE);
    let words = dictionnary.get_list_detected_words("You");

    println!("{:?}", words.as_ref().map(|w| w.len()));
    assert!(words.unwrap().is_empty());
}

#[test]
fn detected_words_come_as_definitions() {
    let dictionnary = sample();
    let words = DetectWord::get_list_detected_words(&dictionnary, "天氣不錯").unwrap();
    let weather = words.get("天氣").unwrap();
    assert_eq!(weather.writing_method, "天氣");
    assert_eq!(weather.second_writing_method.as_deref(), Some("天气"));
    assert_eq!(weather.pronunciations, vec!["tian1 qi4"]);
    assert_eq!(weather.translations, vec!["weather"]);
    assert_eq!(weather.count, 1);
    assert!(weather.level.is_none());
    assert_eq!(words.key_at(1), "不錯");
}

#[test]
fn a_line_is_taken_apart_at_its_marks() {
    let line = code_points("中國 中国 [Zhong1 guo2] /China/Middle Kingdom/ ");
    let record = parse_line(&line);
    assert_eq!(record.traditional_character, "中國");
    assert_eq!(record.simplify_character, "中国");
    assert_eq!(record.pinyin, "Zhong1 guo2");
    assert_eq!(record.english, "/China/Middle Kingdom/");
}

#[test]
fn a_line_without_marks_gives_empty_parts() {
    let record = parse_line(&code_points("nothing"));
    assert_eq!(record.traditional_character, "");
    assert_eq!(record.simplify_character, "");
    assert_eq!(record.pinyin, "");
    assert_eq!(record.english, "");

    let record = parse_line(&code_points("一 二"));
    assert_eq!(record.traditional_character, "一");
    assert_eq!(record.simplify_character, "");
    assert_eq!(record.pinyin, "");
    assert_eq!(record.english, "");

    let record = parse_line(&code_points("一 二 三"));
    assert_eq!(record.traditional_character, "一");
    assert_eq!(record.simplify_character, "二");
    assert_eq!(record.pinyin, "");
    assert_eq!(record.english, "");
}

#[test]
fn translations_skip_empty_pieces_and_lose_their_margins() {
    let record = Cedict {
        traditional_character: String::new(),
        simplify_character: String::new(),
        pinyin: String::new(),
        english: "/to go / to leave//   /last".to_string(),
    };
    assert_eq!(
        record.get_english_translations(),
        vec!["to go", "to leave", "", "last"]
    );
    let none = Cedict::default();
    assert!(none.get_english_translations().is_empty());
}

#[test]
fn lines_end_at_line_feeds() {
    let lines = split_lines(&code_points("a\r\nb\n\nc\r"));
    let lines: Vec<String> = lines.iter().map(|l| l.iter().collect()).collect();
    assert_eq!(lines, vec!["a", "b", "", "c\r"]);
    assert!(split_lines(&code_points("")).is_empty());
    assert_eq!(split_lines(&code_points("a\n")).len(), 1);
}

#[test]
fn comments_are_no_entries() {
    let dictionnary = sample();
    assert!(dictionnary.get("#").is_none());
    assert!(dictionnary.get("%").is_none());
    assert!(dictionnary.verify_line("# comment".to_string()).is_none());
    assert!(dictionnary.verify_line("% comment".to_string()).is_none());
    assert_eq!(
        dictionnary.verify_line("上 上 [shang4] /on top/".to_string()),
        Some("上 上 [shang4] /on top/".to_string())
    );
}

#[test]
fn lines_for_one_form_are_merged() {
    let dictionnary = load_chinese_dictionnary(
        "得 得 [de2] /to obtain/to get/\n得 得 [dei3] /to have to/must/\n得 得 [de2] /to get/\n",
    );
    let record = dictionnary.get("得").unwrap();
    assert_eq!(record.pinyin, "de2,dei3");
    assert_eq!(record.english, "/to obtain/to get/to have to/");
    let definition = dictionnary.definition("得").unwrap();
    assert_eq!(definition.pronunciations, vec!["de2", "dei3"]);
    assert_eq!(definition.translations, vec!["to obtain", "to get", "to have to"]);
    assert!(dictionnary.definition("好").is_none());
}

#[test]
fn a_definition_is_written_as_a_record() {
    let definition = xuexi::definition::Definition {
        writing_method: "熱".to_string(),
        second_writing_method: None,
        pronunciations: Vec::new(),
        translations: Vec::new(),
        count: 3,
        level: None,
    };
    let record = Cedict::from_definition(&definition);
    assert_eq!(record.traditional_character, "熱");
    assert_eq!(record.simplify_character, "");
    assert_eq!(record.pinyin, "");
    assert_eq!(record.english, "");
}

#[test]
fn a_word_followed_by_two_unknown_characters_is_committed_twice() {
    let dictionnary = sample();
    let res = dictionnary.get_definitions_for_sentence("去年xy");
    let (_, count) = res.get("去年").unwrap();
    assert_eq!(*count, 2);
    assert_eq!(res.len(), 1);
}

#[test]
fn lines_that_are_no_entries_are_passed_over() {
    let dictionnary = load_chinese_dictionnary(
        "好 好 [hao3] /good/\n\nbroken\n天 天 tian1 /sky/\n上 上 [shang4] /on top/\n",
    );
    assert!(dictionnary.get("").is_none());
    assert!(dictionnary.get("天").is_none());
    assert!(dictionnary.get("好").is_some());
    assert_eq!(dictionnary.get("上").unwrap().english, "/on top/");
    assert!(read_line(&code_points("broken")).is_none());
    assert!(read_line(&code_points("天 天 tian1 /sky/")).is_none());
    assert_eq!(read_line(&code_points("天 天 [tian1]")).unwrap().pinyin, "tian1");
}
