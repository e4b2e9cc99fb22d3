//! A dictionary: a lexicon, the punctuation to strip, and the language it is
//! for.

use crate::clean::Clean;
use crate::detector::Detector;
use crate::error::DictionaryError;
use crate::lexicon::Lexicon;
use crate::word::Word;
use std::marker::PhantomData;
use vstd::prelude::*;

verus! {

/// Marks a dictionary of no language in particular.
pub struct NoLang;

/// Marks a Chinese dictionary.
pub struct Chinese;

/// Marks a Lao dictionary.
pub struct Laotian;

/// Which of its two scripts a Chinese dictionary is keyed by.
#[derive(Debug, PartialEq, Eq, Clone, Copy, Structural)]
pub enum ChineseVersion {
    Traditional,
    Simplified,
}

impl Default for ChineseVersion {
    fn default() -> (version: ChineseVersion)
        ensures
            version == ChineseVersion::Traditional,
    {
        ChineseVersion::Traditional
    }
}

/// The language of a dictionary, with what segmenting that language needs.
pub enum Lang {
    /// Chinese, scanned by longest match against the lexicon.
    Chinese(ChineseVersion),
    /// Lao, cut into words by a detector once the dictionary is loaded.
    Laotian(Option<Box<Detector>>),
}

/// The language of a dictionary that is ready to segment: for Lao, with its
/// detector.
pub enum Options {
    Chinese(ChineseVersion),
    Laotian(Box<Detector>),
}

/// A dictionary of the language that `T` marks.
pub struct Dictionary<T> {
    pub _lang: PhantomData<T>,
    /// The words that the dictionary knows.
    pub dict: Lexicon<Word>,
    /// The punctuation that is stripped from a sentence before it is scanned.
    pub punctuation: Vec<String>,
    /// The language and what belongs to it.
    pub params: Lang,
}

impl<T> Clean for Dictionary<T> {

}

/// What a dictionary of the language that `T` marks offers once it is bound
/// to the place where its words are kept: making itself, and filling its
/// lexicon from there.
pub trait DictionaryLoader<T> {
    /// A dictionary without words.
    fn new_lang() -> Result<Dictionary<T>, DictionaryError>;

    /// Fills the lexicon.
    fn load(&mut self) -> Result<(), DictionaryError>;
}

} // verus!
