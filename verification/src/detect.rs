//! Finding the words of a dictionary of definitions in a sentence.

use crate::cedict::Dictionnary;
use crate::clean::Clean;
use crate::definition::{Definition, DefinitionList};
use crate::ordered::position;
use crate::record::{record_word, recorded, Entries};
use vstd::prelude::*;

verus! {

/// A dictionary that finds its words in a sentence.
pub trait DetectWord: Clean {
    /// The words of the dictionary in `sentence`, with their definitions and
    /// counts, in the order in which each is first found.
    spec fn detected(&self, sentence: Seq<char>) -> Entries<Definition>;

    /// Commits `item` under `key`, if there is an item: one more occurrence
    /// if `map` holds the key, a copy of the item with count 1 if not.
    fn insert_map_word(&self, map: &mut DefinitionList, item: &Option<Definition>, key: &str)
        requires
            old(map).wf(),
            item is Some ==> (position(old(map)@, key@) matches Some(i) ==> old(map)@[i].1.count
                < i128::MAX),
        ensures
            final(map).wf(),
            final(map)@ == match item {
                Some(definition) => recorded::<Definition>(old(map)@, key@, definition@),
                None => old(map)@,
            },
    {
        match item {
            Some(definition) => record_word(map, key, definition),
            None => {},
        }
    }

    /// Finds the words of the dictionary in `sentence`. No result stands for
    /// an empty one.
    fn get_list_detected_words(&self, sentence: &str) -> (found: Option<DefinitionList>)
        ensures
            match found {
                Some(words) => words@ == self.detected(sentence@) && words.wf(),
                None => self.detected(sentence@).len() == 0,
            },
    ;
}

impl DetectWord for Dictionnary {
    open spec fn detected(&self, sentence: Seq<char>) -> Entries<Definition> {
        self.detected_in(sentence)
    }

    fn get_list_detected_words(&self, sentence: &str) -> (found: Option<DefinitionList>) {
        Dictionnary::get_list_detected_words(self, sentence)
    }
}

} // verus!
