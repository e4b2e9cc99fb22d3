//! The Lao dictionary: a word-boundary detector cuts the sentence, and the
//! pieces that the lexicon knows are counted.

use crate::clean::{clean_sentence, cleaned};
use crate::detector::{lemma_pieces_are_windows, word_boundaries, Detector};
use crate::dictionary::{Dictionary, Lang, Laotian};
use crate::lexicon::Lexicon;
use crate::ordered::OrderedMap;
use crate::punctuation::Puncutation;
use crate::record::{attach, attached, Counted, Entries};
use crate::segment::is_window;
use crate::tally::{lemma_tally_bounds, lemma_tally_keys, lemma_tally_push, tally_of, WordTally};
use crate::text::{texts, trim, trimmed};
use crate::word::{store_word, with_word, Word, WordParser, WordParserResult, WordView};
use std::marker::PhantomData;
use vstd::prelude::*;

verus! {

/// One line of the Lao dictionary source.
#[derive(Debug, Clone)]
pub struct JPEnLaoItem {
    /// The word in Lao script.
    pub lao: String,
    /// How it is pronounced.
    pub phonetic: String,
    /// What it means in English.
    pub english: String,
}

/// A line of the Lao dictionary source in specifications.
pub struct JPEnLaoItemView {
    pub lao: Seq<char>,
    pub phonetic: Seq<char>,
    pub english: Seq<char>,
}

impl View for JPEnLaoItem {
    type V = JPEnLaoItemView;

    open spec fn view(&self) -> JPEnLaoItemView {
        JPEnLaoItemView { lao: self.lao@, phonetic: self.phonetic@, english: self.english@ }
    }
}

/// The tokens that are keys, in order.
pub open spec fn known(tokens: Seq<Seq<char>>, keys: Set<Seq<char>>) -> Seq<Seq<char>>
    decreases tokens.len(),
{
    if tokens.len() == 0 {
        Seq::empty()
    } else if keys.contains(tokens.last()) {
        known(tokens.drop_last(), keys).push(tokens.last())
    } else {
        known(tokens.drop_last(), keys)
    }
}

/// The known tokens are not more than the tokens, each is a key and each is
/// one of the tokens.
pub proof fn lemma_known(tokens: Seq<Seq<char>>, keys: Set<Seq<char>>)
    ensures
        known(tokens, keys).len() <= tokens.len(),
        forall|i: int|
            0 <= i < known(tokens, keys).len() ==> keys.contains(#[trigger] known(tokens, keys)[i])
                && tokens.contains(known(tokens, keys)[i]),
    decreases tokens.len(),
{
    if tokens.len() > 0 {
        let before = known(tokens.drop_last(), keys);
        lemma_known(tokens.drop_last(), keys);
        assert forall|i: int| 0 <= i < known(tokens, keys).len() implies keys.contains(
            #[trigger] known(tokens, keys)[i],
        ) && tokens.contains(known(tokens, keys)[i]) by {
            if i < before.len() {
                assert(known(tokens, keys)[i] == before[i]);
                let at = choose|at: int|
                    0 <= at < tokens.drop_last().len() && tokens.drop_last()[at] == before[i];
                assert(tokens[at] == before[i]);
            } else {
                assert(tokens[tokens.len() - 1] == tokens.last());
            }
        }
    }
}

/// The words of the lexicon among `tokens`, each counted as often as it
/// occurs among them, in the order of their first occurrence.
pub open spec fn counted_known<V: Counted>(
    tokens: Seq<Seq<char>>,
    lexicon: Map<Seq<char>, V::V>,
) -> Entries<V> {
    attached::<V>(tally_of(known(tokens, lexicon.dom())), lexicon)
}

/// Every key of the count is a key of the lexicon and one of the tokens; its
/// record is the lexicon's, but for the count, which is at least 1.
pub proof fn lemma_counted_known<V: Counted>(tokens: Seq<Seq<char>>, lexicon: Map<Seq<char>, V::V>)
    ensures
        forall|i: int|
            0 <= i < counted_known::<V>(tokens, lexicon).len() ==> {
                let entry = #[trigger] counted_known::<V>(tokens, lexicon)[i];
                &&& lexicon.contains_key(entry.0)
                &&& tokens.contains(entry.0)
                &&& V::count_in(entry.1) >= 1
                &&& entry.1 == V::recount(lexicon[entry.0], V::count_in(entry.1))
            },
{
    let commits = known(tokens, lexicon.dom());
    let tally = tally_of(commits);
    let words = counted_known::<V>(tokens, lexicon);
    lemma_known(tokens, lexicon.dom());
    lemma_tally_keys(commits);
    lemma_tally_bounds(commits);
    assert forall|i: int| 0 <= i < words.len() implies {
        let entry = #[trigger] words[i];
        &&& lexicon.contains_key(entry.0)
        &&& tokens.contains(entry.0)
        &&& V::count_in(entry.1) >= 1
        &&& entry.1 == V::recount(lexicon[entry.0], V::count_in(entry.1))
    } by {
        let word = tally[i].0;
        let at = choose|at: int| 0 <= at < commits.len() && commits[at] == word;
        assert(lexicon.dom().contains(commits[at]));
        assert(tokens.contains(commits[at]));
        V::lemma_recount(lexicon[word], tally[i].1, 0);
    }
}

/// Counts the tokens that `lexicon` knows.
pub fn count_known<V: Counted>(tokens: &Vec<String>, lexicon: &Lexicon<V>) -> (words: OrderedMap<V>)
    ensures
        words@ == counted_known::<V>(texts(tokens@), lexicon@),
        words.wf(),
{
    let mut tally = WordTally::new();
    let mut i: usize = 0;
    let ghost all = texts(tokens@);
    while i < tokens.len()
        invariant
            i <= tokens.len(),
            all == texts(tokens@),
            tally.wf(),
            tally@ == tally_of(known(all.subrange(0, i as int), lexicon@.dom())),
        decreases tokens.len() - i,
    {
        proof {
            let seen = all.subrange(0, i as int);
            lemma_known(seen, lexicon@.dom());
            lemma_tally_bounds(known(seen, lexicon@.dom()));
            tally.lemma_has_room();
            let next = all.subrange(0, i + 1);
            assert(next.drop_last() =~= seen);
            assert(next.last() == tokens@[i as int]@);
            lemma_tally_push(known(seen, lexicon@.dom()), tokens@[i as int]@);
        }
        if lexicon.contains_key(tokens[i].as_str()) {
            tally.commit(tokens[i].as_str());
        }
        i += 1;
    }
    proof {
        assert(all.subrange(0, tokens@.len() as int) =~= all);
        let commits = known(all, lexicon@.dom());
        lemma_known(all, lexicon@.dom());
        lemma_tally_keys(commits);
        assert forall|j: int| 0 <= j < tally@.len() implies lexicon@.dom().contains(
            (#[trigger] tally@[j]).0,
        ) by {
            let at = choose|at: int| 0 <= at < commits.len() && commits[at] == tally@[j].0;
            assert(lexicon@.dom().contains(commits[at]));
        }
    }
    attach(&tally, lexicon)
}

/// The word that a line of the source stands for.
pub open spec fn word_of_line(line: JPEnLaoItemView) -> WordView {
    WordView {
        written: seq![trimmed(line.lao)],
        pronunciations: seq![trimmed(line.phonetic)],
        translations: seq![trimmed(line.english)],
        count: 0,
    }
}

/// The lexicon made of the lines, taken in order: the word of a line is
/// stored under its Lao form without the white space around it where that
/// key is free, and merged into the word stored there where it is taken.
pub open spec fn lexicon_of_lines(lines: Seq<JPEnLaoItemView>) -> Map<Seq<char>, WordView>
    decreases lines.len(),
{
    if lines.len() == 0 {
        Map::empty()
    } else {
        with_word(
            lexicon_of_lines(lines.drop_last()),
            trimmed(lines.last().lao),
            word_of_line(lines.last()),
        )
    }
}

/// The views of the lines.
pub open spec fn line_views(lines: Seq<JPEnLaoItem>) -> Seq<JPEnLaoItemView> {
    lines.map_values(|line: JPEnLaoItem| line@)
}

/// The keys of the lines, one for each line, in order.
pub open spec fn keys_of_lines(lines: Seq<JPEnLaoItemView>) -> Seq<Seq<char>> {
    lines.map_values(|line: JPEnLaoItemView| trimmed(line.lao))
}

/// A vector that holds `text` and nothing else.
fn single(text: String) -> (list: Vec<String>)
    ensures
        texts(list@) == seq![text@],
{
    let mut list: Vec<String> = Vec::new();
    list.push(text);
    assert(texts(list@) =~= seq![text@]);
    list
}

impl Dictionary<Laotian> {
    /// An empty dictionary that strips the Lao punctuation of `tables`. It has
    /// no detector until it is loaded.
    pub fn initialize(tables: Puncutation) -> (dictionary: Dictionary<Laotian>)
        ensures
            dictionary.dict@ == Map::<Seq<char>, WordView>::empty(),
            dictionary.punctuation == tables.laotian,
            dictionary.params == Lang::Laotian(None),
    {
        Dictionary {
            _lang: PhantomData,
            dict: Lexicon::new(),
            punctuation: tables.laotian,
            params: Lang::Laotian(None),
        }
    }

    /// Replaces the lexicon by the one made of `lines`, lines with the same
    /// Lao form being merged in the order in which they come, and the
    /// detector by the one built from the Lao forms of all lines.
    pub fn load(&mut self, lines: &Vec<JPEnLaoItem>)
        ensures
            final(self).punctuation == old(self).punctuation,
            final(self).dict@ == lexicon_of_lines(line_views(lines@)),
            final(self).params matches Lang::Laotian(Some(detector)) && detector.words()
                == keys_of_lines(line_views(lines@)),
    {
        let mut dict: Lexicon<Word> = Lexicon::new();
        let mut keys: Vec<String> = Vec::new();
        let mut i: usize = 0;
        let ghost all = line_views(lines@);
        while i < lines.len()
            invariant
                i <= lines.len(),
                all == line_views(lines@),
                dict@ == lexicon_of_lines(all.subrange(0, i as int)),
                texts(keys@) == keys_of_lines(all.subrange(0, i as int)),
            decreases lines.len() - i,
        {
            let key = trim(lines[i].lao.as_str());
            let word = Word {
                written: single(key.clone()),
                pronunciations: single(trim(lines[i].phonetic.as_str())),
                translations: single(trim(lines[i].english.as_str())),
                count: 0,
            };
            let ghost earlier = keys@;
            keys.push(key.clone());
            store_word(&mut dict, key, word);
            proof {
                let seen = all.subrange(0, i as int);
                let done = all.subrange(0, i + 1);
                assert(done.drop_last() =~= seen);
                assert(done.last() == lines@[i as int]@);
                assert(texts(earlier).len() == keys_of_lines(seen).len());
                assert forall|j: int| 0 <= j < done.len() implies texts(keys@)[j] == keys_of_lines(
                    done,
                )[j] by {
                    if j < i {
                        assert(keys@[j] == earlier[j]);
                        assert(texts(earlier)[j] == keys_of_lines(seen)[j]);
                        assert(seen[j] == done[j]);
                    }
                }
                assert(texts(keys@) =~= keys_of_lines(done));
            }
            i += 1;
        }
        assert(all.subrange(0, lines@.len() as int) =~= all);
        let detector = Detector::new(&keys);
        self.dict = dict;
        self.params = Lang::Laotian(Some(Box::new(detector)));
    }
}

impl WordParser for Dictionary<Laotian> {
    open spec fn ready(&self) -> bool {
        !(self.params matches Lang::Laotian(None))
    }

    open spec fn parsed(&self, sentence: Seq<char>) -> Entries<Word> {
        match self.params {
            Lang::Laotian(Some(detector)) => counted_known::<Word>(
                word_boundaries(
                    detector.words(),
                    cleaned(sentence, texts(self.punctuation@)),
                ),
                self.dict@,
            ),
            _ => Seq::empty(),
        }
    }

    fn parse_sentence_into_words(&self, sentence: &str) -> (words: WordParserResult)
        ensures
            forall|i: int|
                0 <= i < words@.len() ==> self.dict@.contains_key((#[trigger] words@[i]).0)
                    && is_window(cleaned(sentence@, texts(self.punctuation@)), words@[i].0)
                    && words@[i].1.count >= 1,
    {
        let text = clean_sentence(sentence, &self.punctuation);
        match &self.params {
            Lang::Laotian(Some(detector)) => {
                let pieces = detector.segment_into_strings(text.as_str());
                let words = count_known(&pieces, &self.dict);
                proof {
                    lemma_counted_known::<Word>(texts(pieces@), self.dict@);
                    assert forall|i: int| 0 <= i < words@.len() implies is_window(
                        text@,
                        (#[trigger] words@[i]).0,
                    ) by {
                        let at = choose|at: int|
                            0 <= at < texts(pieces@).len() && texts(pieces@)[at] == words@[i].0;
                        lemma_pieces_are_windows(texts(pieces@), at);
                    }
                }
                words
            },
            _ => OrderedMap::new(),
        }
    }
}

} // verus!
