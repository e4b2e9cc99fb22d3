//! A dictionary entry with all its written forms, and what every
//! dictionary must be able to do with a sentence.

use crate::definition::{lemma_with_first_distinct, take_first, with_first};
use crate::export::Tabular;
use crate::lexicon::Lexicon;
use crate::number::{decimal, decimal_text, decimal_value, lemma_decimal_value};
use crate::ordered::{position, OrderedMap};
use crate::record::{record_word, recorded, Counted, Entries};
use crate::text::{copy_texts, join, joined_by, texts};
use vstd::prelude::*;
use vstd::string::StringExecFns;

verus! {

/// A word of a dictionary.
#[derive(Debug, Clone)]
pub struct Word {
    /// How the word is written: the form it is looked up by first.
    pub written: Vec<String>,
    /// How it is pronounced.
    pub pronunciations: Vec<String>,
    /// What it means.
    pub translations: Vec<String>,
    /// How often it occurred in what was segmented.
    pub count: i128,
}

/// A word in specifications.
pub struct WordView {
    pub written: Seq<Seq<char>>,
    pub pronunciations: Seq<Seq<char>>,
    pub translations: Seq<Seq<char>>,
    pub count: int,
}

impl View for Word {
    type V = WordView;

    open spec fn view(&self) -> WordView {
        WordView {
            written: texts(self.written@),
            pronunciations: texts(self.pronunciations@),
            translations: texts(self.translations@),
            count: self.count as int,
        }
    }
}

impl Default for Word {
    /// A word without forms, readings or meanings, counted zero times.
    fn default() -> (word: Word)
        ensures
            word@ == (WordView {
                written: Seq::empty(),
                pronunciations: Seq::empty(),
                translations: Seq::empty(),
                count: 0,
            }),
    {
        let word = Word {
            written: Vec::new(),
            pronunciations: Vec::new(),
            translations: Vec::new(),
            count: 0,
        };
        assert(texts(word.written@) =~= Seq::empty());
        assert(texts(word.pronunciations@) =~= Seq::empty());
        assert(texts(word.translations@) =~= Seq::empty());
        word
    }
}

impl Counted for Word {
    open spec fn count_in(view: WordView) -> int {
        view.count
    }

    open spec fn recount(view: WordView, count: int) -> WordView {
        WordView { count, ..view }
    }

    proof fn lemma_recount(view: WordView, count: int, again: int) {
    }

    fn count(&self) -> (n: i128) {
        self.count
    }

    fn with_count(&self, count: i128) -> (copy: Word) {
        Word {
            written: copy_texts(&self.written),
            pronunciations: copy_texts(&self.pronunciations),
            translations: copy_texts(&self.translations),
            count,
        }
    }
}

/// What `known` becomes when `new` arrives under the same key: it takes the
/// first reading and the first meaning of `new` that it does not have yet,
/// and keeps everything else.
pub open spec fn merged_word(known: WordView, new: WordView) -> WordView {
    WordView {
        pronunciations: with_first(known.pronunciations, new.pronunciations),
        translations: with_first(known.translations, new.translations),
        ..known
    }
}

/// The lexicon after `word` arrived under `key`: stored as it is where the
/// key was free, merged into the stored word where it was taken.
pub open spec fn with_word(
    lexicon: Map<Seq<char>, WordView>,
    key: Seq<char>,
    word: WordView,
) -> Map<Seq<char>, WordView> {
    if lexicon.contains_key(key) {
        lexicon.insert(key, merged_word(lexicon[key], word))
    } else {
        lexicon.insert(key, word)
    }
}

/// A merge keeps readings and meanings free of repetitions.
pub proof fn lemma_merged_word_distinct(known: WordView, new: WordView)
    requires
        known.pronunciations.no_duplicates(),
        known.translations.no_duplicates(),
    ensures
        merged_word(known, new).pronunciations.no_duplicates(),
        merged_word(known, new).translations.no_duplicates(),
{
    lemma_with_first_distinct(known.pronunciations, new.pronunciations);
    lemma_with_first_distinct(known.translations, new.translations);
}

impl Word {
    /// Merges `item`, which arrived under the key of this word, into it.
    pub fn merge_word(&mut self, item: &Word)
        ensures
            final(self)@ == merged_word(old(self)@, item@),
    {
        take_first(&mut self.pronunciations, &item.pronunciations);
        take_first(&mut self.translations, &item.translations);
    }
}

/// Stores `word` under `key` if the key is free, and merges it into the
/// stored word if not.
pub fn store_word(lexicon: &mut Lexicon<Word>, key: String, word: Word)
    ensures
        final(lexicon)@ == with_word(old(lexicon)@, key@, word@),
{
    let stored = match lexicon.get(key.as_str()) {
        Some(known) => {
            let mut copy = known.with_count(known.count);
            copy.merge_word(&word);
            copy
        },
        None => word,
    };
    lexicon.insert(key, stored);
}

/// The words found in a sentence, in the order in which each was first found.
pub type WordParserResult = OrderedMap<Word>;

/// What a dictionary of any language does with a sentence.
pub trait WordParser {
    /// Whether the dictionary has all it needs to take a sentence apart.
    spec fn ready(&self) -> bool;

    /// The words of `sentence` that the dictionary knows, with their counts.
    spec fn parsed(&self, sentence: Seq<char>) -> Entries<Word>;

    /// Strips the punctuation from `sentence` and finds the dictionary's
    /// words in what is left.
    fn parse_sentence_into_words(&self, sentence: &str) -> (words: WordParserResult)
        requires
            self.ready(),
        ensures
            words@ == self.parsed(sentence@),
            words.wf(),
    ;

    /// Commits `word` under `word_str`: one more occurrence if `map` holds the
    /// key, a copy of `word` with count 1 if not.
    fn insert_word(&self, map: &mut WordParserResult, word_str: &str, word: Word)
        requires
            old(map).wf(),
            position(old(map)@, word_str@) matches Some(i) ==> old(map)@[i].1.count < i128::MAX,
        ensures
            final(map)@ == recorded::<Word>(old(map)@, word_str@, word@),
            final(map).wf(),
    {
        record_word(map, word_str, &word)
    }
}

impl Tabular for Word {
    open spec fn columns() -> Seq<Seq<char>> {
        seq!["written"@, "pronunciations"@, "translations"@, "count"@]
    }

    /// The written forms, the readings and the meanings, each list with commas
    /// between its values, and the count.
    open spec fn fields(view: WordView) -> Seq<Seq<char>> {
        seq![
            joined_by(view.written, ","@),
            joined_by(view.pronunciations, ","@),
            joined_by(view.translations, ","@),
            decimal(view.count),
        ]
    }

    proof fn lemma_width(view: WordView) {
    }

    fn header() -> (row: Vec<String>) {
        let mut row: Vec<String> = Vec::new();
        row.push(String::from_str("written"));
        row.push(String::from_str("pronunciations"));
        row.push(String::from_str("translations"));
        row.push(String::from_str("count"));
        assert(texts(row@) =~= Self::columns());
        row
    }

    fn row(&self) -> (row: Vec<String>) {
        let mut row: Vec<String> = Vec::new();
        row.push(join(&self.written, ","));
        row.push(join(&self.pronunciations, ","));
        row.push(join(&self.translations, ","));
        row.push(decimal_text(self.count));
        assert(texts(row@) =~= Self::fields(self@));
        row
    }
}

/// The row of a word holds its written forms, as they stand, with commas
/// between them, and its count in a form that reads back as the same count.
pub proof fn lemma_row_keeps_forms_and_count(view: WordView)
    ensures
        Word::fields(view)[0] == joined_by(view.written, ","@),
        decimal_value(Word::fields(view)[3]) == Some(view.count),
{
    lemma_decimal_value(view.count);
}

} // verus!
