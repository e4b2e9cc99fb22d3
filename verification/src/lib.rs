//! Dictionary-backed word segmentation for languages written without spaces
//! between words.
//!
//! A lexicon maps written words to their records. A sentence is stripped of
//! punctuation and scanned for the longest words of the lexicon; what is
//! found is counted, and can be ranked by frequency and written out as a
//! table.

pub mod cedict;
pub mod character;
pub mod chinese;
pub mod clean;
pub mod definition;
pub mod detect;
pub mod detector;
pub mod dictionary;
pub mod doubling;
pub mod error;
pub mod export;
pub mod laotian;
pub mod lexicon;
pub mod number;
pub mod ordered;
pub mod ordering;
pub mod punctuation;
pub mod rank;
pub mod record;
pub mod recovery;
pub mod segment;
pub mod tally;
pub mod text;
pub mod theme;
pub mod ui;
pub mod word;

use crate::cedict::{lexicon_of_lines, lines_of, Dictionnary};
use crate::character::{letter_counts, Characters, CharactersList};
use crate::chinese::{entry_views, lexicon_of, Item};
use crate::clean::cleaned;
use crate::dictionary::{Chinese, Dictionary, Lang, Laotian};
use crate::error::DictionaryError;
use crate::laotian::{keys_of_lines, line_views, JPEnLaoItem};
use crate::punctuation::Puncutation;
use vstd::prelude::*;

verus! {

/// Builds a Chinese dictionary of `entries`, each given with the key it is
/// to be found by, that strips the Chinese punctuation of `tables`. Fails if
/// `version` is not Chinese.
pub fn load_chinese_dictionary(
    version: Lang,
    entries: &Vec<(String, Item)>,
    tables: Puncutation,
) -> (loaded: Result<Dictionary<Chinese>, DictionaryError>)
    ensures
        match loaded {
            Ok(dictionary) => version is Chinese && dictionary.params == version
                && dictionary.punctuation == tables.chinese && dictionary.dict@ == lexicon_of(
                entry_views(entries@),
            ),
            Err(error) => !(version is Chinese) && error is ChineseDictionary && error.cause()
                == "Unable to found the definition of chinese version to use"@,
        },
{
    let mut dictionary = Dictionary::<Chinese>::initialize(version, tables);
    match dictionary.load(entries) {
        Ok(_) => Ok(dictionary),
        Err(error) => Err(error),
    }
}

/// Builds a Lao dictionary of the lines of a dictionary source, with a
/// detector for their words, that strips the Lao punctuation of `tables`.
pub fn load_laotian_dictionary(lines: &Vec<JPEnLaoItem>, tables: Puncutation) -> (dictionary:
    Dictionary<Laotian>)
    ensures
        dictionary.punctuation == tables.laotian,
        dictionary.dict@ == crate::laotian::lexicon_of_lines(line_views(lines@)),
        dictionary.params matches Lang::Laotian(Some(detector)) && detector.words()
            == keys_of_lines(line_views(lines@)),
{
    let mut dictionary = Dictionary::<Laotian>::initialize(tables);
    dictionary.load(lines);
    dictionary
}

/// Builds a dictionary of the content of a CEDICT file.
pub fn load_chinese_dictionnary(content: &str) -> (dictionnary: Dictionnary)
    ensures
        dictionnary@ == lexicon_of_lines(lines_of(content@)),
{
    let mut dictionnary = Dictionnary::new();
    dictionnary.load(content);
    dictionnary
}

/// Counts the characters of `content` that are no punctuation.
pub fn get_character_by_usage(content: &str) -> (list: CharactersList)
    ensures
        list@ == letter_counts(cleaned(content@, crate::punctuation::punctuation_marks())),
        list.wf(),
{
    let handler = Characters::new(content);
    handler.generate_characters_list()
}

} // verus!
