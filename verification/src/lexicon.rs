//! The lexicon: the table of known words that a sentence is scanned against.

use vstd::hash_map::StringHashMap;
use vstd::prelude::*;

verus! {

/// A table from written words to records.
#[verifier::reject_recursive_types(V)]
pub struct Lexicon<V> {
    entries: StringHashMap<V>,
}

impl<V: View> View for Lexicon<V> {
    type V = Map<Seq<char>, V::V>;

    closed spec fn view(&self) -> Map<Seq<char>, V::V> {
        self.entries@.map_values(|record: V| record@)
    }
}

impl<V: View> Lexicon<V> {
    /// A lexicon without words.
    pub fn new() -> (lexicon: Self)
        ensures
            lexicon@ == Map::<Seq<char>, V::V>::empty(),
    {
        let lexicon = Lexicon { entries: StringHashMap::new() };
        assert(lexicon@ =~= Map::<Seq<char>, V::V>::empty());
        lexicon
    }

    /// Whether the lexicon has no word.
    pub fn is_empty(&self) -> (b: bool)
        ensures
            b == (self@.dom() == Set::<Seq<char>>::empty()),
    {
        let b = self.entries.is_empty();
        proof {
            assert(self@.dom() =~= self.entries@.dom());
            if b {
                assert(self.entries@.dom() =~= Set::<Seq<char>>::empty());
            }
        }
        b
    }

    /// Whether `word` is a key of the lexicon.
    pub fn contains_key(&self, word: &str) -> (b: bool)
        ensures
            b == self@.contains_key(word@),
    {
        self.entries.contains_key(word)
    }

    /// The record stored under `word`, if any.
    pub fn get(&self, word: &str) -> (record: Option<&V>)
        ensures
            match record {
                Some(r) => self@.contains_key(word@) && self@[word@] == r@,
                None => !self@.contains_key(word@),
            },
    {
        self.entries.get(word)
    }

    /// Stores `record` under `word`, in place of what was stored there.
    pub fn insert(&mut self, word: String, record: V)
        ensures
            final(self)@ == old(self)@.insert(word@, record@),
    {
        self.entries.insert(word, record);
        assert(self@ =~= old(self)@.insert(word@, record@));
    }
}

} // verus!
