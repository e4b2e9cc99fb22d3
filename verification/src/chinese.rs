//! The Chinese dictionary: loaded from CEDICT entries and scanned by greedy
//! longest match.

use crate::clean::{clean_chars, cleaned};
use crate::dictionary::{Chinese, Dictionary, Lang};
use crate::error::DictionaryError;
use crate::lexicon::Lexicon;
use crate::punctuation::Puncutation;
use crate::record::Entries;
use crate::segment::{is_window, segment, segmented};
use crate::text::{copy_texts, texts};
use crate::word::{store_word, with_word, Word, WordParser, WordParserResult, WordView};
use std::marker::PhantomData;
use vstd::prelude::*;
use vstd::string::StringExecFns;

verus! {

/// One entry of a CEDICT file.
#[derive(Debug, Clone)]
pub struct Item {
    /// The word in traditional characters.
    pub traditional_character: String,
    /// The word in simplified characters.
    pub simplified_character: String,
    /// Its syllables in pinyin with tone numbers.
    pub pinyin_tone_number: Vec<String>,
    /// Its translations.
    pub translations: Vec<String>,
}

/// A CEDICT entry in specifications.
pub struct ItemView {
    pub traditional_character: Seq<char>,
    pub simplified_character: Seq<char>,
    pub pinyin_tone_number: Seq<Seq<char>>,
    pub translations: Seq<Seq<char>>,
}

impl View for Item {
    type V = ItemView;

    open spec fn view(&self) -> ItemView {
        ItemView {
            traditional_character: self.traditional_character@,
            simplified_character: self.simplified_character@,
            pinyin_tone_number: texts(self.pinyin_tone_number@),
            translations: texts(self.translations@),
        }
    }
}

/// The word that a CEDICT entry stands for: written in both scripts, the
/// traditional one first, and not counted yet.
pub open spec fn word_of(item: ItemView) -> WordView {
    WordView {
        written: seq![item.traditional_character, item.simplified_character],
        pronunciations: item.pinyin_tone_number,
        translations: item.translations,
        count: 0,
    }
}

impl Word {
    /// The word that `item` stands for.
    pub fn from_item(item: &Item) -> (word: Word)
        ensures
            word@ == word_of(item@),
    {
        let mut written: Vec<String> = Vec::new();
        written.push(item.traditional_character.clone());
        written.push(item.simplified_character.clone());
        assert(texts(written@) =~= seq![
            item.traditional_character@,
            item.simplified_character@,
        ]);
        Word {
            written,
            pronunciations: copy_texts(&item.pinyin_tone_number),
            translations: copy_texts(&item.translations),
            count: 0,
        }
    }
}

/// The lexicon made of the entries, taken in order: the word of an entry is
/// stored under the entry's key where the key is free, and merged into the
/// word stored there where it is taken.
pub open spec fn lexicon_of(entries: Seq<(Seq<char>, ItemView)>) -> Map<Seq<char>, WordView>
    decreases entries.len(),
{
    if entries.len() == 0 {
        Map::empty()
    } else {
        with_word(lexicon_of(entries.drop_last()), entries.last().0, word_of(entries.last().1))
    }
}

/// The keys and views of the entries.
pub open spec fn entry_views(entries: Seq<(String, Item)>) -> Seq<(Seq<char>, ItemView)> {
    entries.map_values(|e: (String, Item)| (e.0@, e.1@))
}

impl Dictionary<Chinese> {
    /// An empty dictionary that strips the Chinese punctuation of `tables`.
    pub fn initialize(params: Lang, tables: Puncutation) -> (dictionary: Dictionary<Chinese>)
        ensures
            dictionary.dict@ == Map::<Seq<char>, WordView>::empty(),
            dictionary.punctuation == tables.chinese,
            dictionary.params == params,
    {
        Dictionary { _lang: PhantomData, dict: Lexicon::new(), punctuation: tables.chinese, params }
    }

    /// Replaces the lexicon by the one made of `entries`, each given with the
    /// key it is to be found by; entries under one key are merged in the
    /// order in which they come. Fails, and changes nothing, if the
    /// dictionary was not initialized for Chinese.
    pub fn load(&mut self, entries: &Vec<(String, Item)>) -> (done: Result<(), DictionaryError>)
        ensures
            final(self).punctuation == old(self).punctuation,
            final(self).params == old(self).params,
            match done {
                Ok(_) => old(self).params is Chinese && final(self).dict@ == lexicon_of(
                    entry_views(entries@),
                ),
                Err(error) => !(old(self).params is Chinese) && final(self).dict@ == old(
                    self,
                ).dict@ && error is ChineseDictionary && error.cause()
                    == "Unable to found the definition of chinese version to use"@,
            },
    {
        match &self.params {
            Lang::Chinese(_) => {},
            Lang::Laotian(_) => {
                return Err(
                    DictionaryError::ChineseDictionary(
                        String::from_str("Unable to found the definition of chinese version to use"),
                    ),
                );
            },
        }
        let mut dict: Lexicon<Word> = Lexicon::new();
        let mut i: usize = 0;
        while i < entries.len()
            invariant
                i <= entries.len(),
                dict@ == lexicon_of(entry_views(entries@).subrange(0, i as int)),
            decreases entries.len() - i,
        {
            let word = Word::from_item(&entries[i].1);
            store_word(&mut dict, entries[i].0.clone(), word);
            proof {
                let done = entry_views(entries@).subrange(0, i + 1);
                assert(done.drop_last() =~= entry_views(entries@).subrange(0, i as int));
                assert(done.last() == (entries@[i as int].0@, entries@[i as int].1@));
            }
            i += 1;
        }
        assert(entry_views(entries@).subrange(0, entries@.len() as int) =~= entry_views(entries@));
        self.dict = dict;
        Ok(())
    }
}

impl WordParser for Dictionary<Chinese> {
    open spec fn ready(&self) -> bool {
        true
    }

    open spec fn parsed(&self, sentence: Seq<char>) -> Entries<Word> {
        segmented::<Word>(cleaned(sentence, texts(self.punctuation@)), self.dict@)
    }

    fn parse_sentence_into_words(&self, sentence: &str) -> (words: WordParserResult)
        ensures
            forall|i: int|
                0 <= i < words@.len() ==> self.dict@.contains_key((#[trigger] words@[i]).0)
                    && words@[i].0.len() > 0 && is_window(
                    cleaned(sentence@, texts(self.punctuation@)),
                    words@[i].0,
                ) && words@[i].1.count >= 1,
    {
        let chars = clean_chars(sentence, &self.punctuation);
        segment(&chars, &self.dict)
    }
}

} // verus!
