//! Counting the characters of a text.

use crate::punctuation::{punctuation, punctuation_marks};
use crate::clean::{clean_chars, cleaned, Clean};
use crate::export::{ragged, table_of, Export, Table};
use crate::number::{decimal, decimal_text};
use crate::ordered::{lemma_position, position};
use crate::ordering::Ops;
use crate::rank::{as_ints, as_positions, is_ranking, rank_order, ranking};
use crate::tally::{
    lemma_tally_bounds, lemma_tally_keys, lemma_tally_push, tally_of, Counts, WordTally,
};
use crate::text::{code_points, texts};
use vstd::prelude::*;
use vstd::string::StringExecFns;

verus! {

/// Each character as a text of its own.
pub open spec fn letters(chars: Seq<char>) -> Seq<Seq<char>> {
    chars.map_values(|c: char| seq![c])
}

/// The characters of a text with the number of times each occurs, in the
/// order in which each occurs first.
pub open spec fn letter_counts(chars: Seq<char>) -> Seq<(char, int)> {
    tally_of(letters(chars)).map_values(|e: (Seq<char>, int)| (e.0[0], e.1))
}

/// Characters with their counts, in the order of their first occurrence.
pub struct CharactersList {
    tally: WordTally,
}

impl View for CharactersList {
    type V = Seq<(char, int)>;

    closed spec fn view(&self) -> Seq<(char, int)> {
        self.tally@.map_values(|e: (Seq<char>, int)| (e.0[0], e.1))
    }
}

/// The text that holds `c` and nothing else.
fn letter(c: char) -> (text: String)
    ensures
        text@ == seq![c],
{
    let mut text = String::new();
    text.push(c);
    assert(text@ =~= seq![c]);
    text
}

/// The counts of the entries.
pub open spec fn counts_in(entries: Seq<(char, int)>) -> Seq<int> {
    entries.map_values(|e: (char, int)| e.1)
}

/// The count of `c` among the entries: that of the first entry for it, or
/// nothing.
pub open spec fn count_for(entries: Seq<(char, int)>, c: char) -> Option<int>
    decreases entries.len(),
{
    if entries.len() == 0 {
        None
    } else {
        match count_for(entries.drop_last(), c) {
            Some(n) => Some(n),
            None => if entries.last().0 == c {
                Some(entries.last().1)
            } else {
                None
            },
        }
    }
}

impl CharactersList {
    /// Every entry is a single character counted at least once, and no
    /// character has two entries.
    pub closed spec fn wf(&self) -> bool {
        &&& self.tally.wf()
        &&& forall|i: int| 0 <= i < self.tally@.len() ==> (#[trigger] self.tally@[i]).0.len() == 1
    }

    /// The number of different characters.
    pub fn len(&self) -> (n: usize)
        requires
            self.wf(),
        ensures
            n == self@.len(),
    {
        self.tally.len()
    }

    /// The character and the count at position `i`.
    pub fn at(&self, i: usize) -> (entry: (char, i128))
        requires
            self.wf(),
            i < self@.len(),
        ensures
            entry.0 == self@[i as int].0,
            entry.1 == self@[i as int].1,
    {
        let word = self.tally.word_at(i);
        assert(self.tally@[i as int].0.len() == 1);
        (word.as_str().get_char(0), self.tally.count_at(i))
    }

    /// The count of `c`, if it was counted.
    pub fn get(&self, c: &char) -> (count: Option<&i128>)
        requires
            self.wf(),
        ensures
            match count {
                Some(n) => count_for(self@, *c) == Some(*n as int),
                None => count_for(self@, *c) is None,
            },
    {
        let key = letter(*c);
        proof {
            self.lemma_count_for(*c);
        }
        match self.tally.find(key.as_str()) {
            Some(i) => Some(self.tally.count_ref(i)),
            None => None,
        }
    }

    /// The count for a character is what the tally holds for the text made of it.
    proof fn lemma_count_for(&self, c: char)
        requires
            self.wf(),
        ensures
            count_for(self@, c) == match position(self.tally@, seq![c]) {
                Some(i) => Some(self.tally@[i].1),
                None => None,
            },
    {
        Self::lemma_count_for_entries(self.tally@, c);
    }

    /// The same of any tally of single characters.
    proof fn lemma_count_for_entries(tally: Counts, c: char)
        requires
            forall|i: int| 0 <= i < tally.len() ==> (#[trigger] tally[i]).0.len() == 1,
        ensures
            count_for(tally.map_values(|e: (Seq<char>, int)| (e.0[0], e.1)), c) == match position(
                tally,
                seq![c],
            ) {
                Some(i) => Some(tally[i].1),
                None => None,
            },
        decreases tally.len(),
    {
        let entries = tally.map_values(|e: (Seq<char>, int)| (e.0[0], e.1));
        if tally.len() > 0 {
            let shorter = tally.drop_last();
            assert(entries.drop_last() =~= shorter.map_values(
                |e: (Seq<char>, int)| (e.0[0], e.1),
            ));
            assert forall|i: int| 0 <= i < shorter.len() implies (#[trigger] shorter[i]).0.len()
                == 1 by {
                assert(shorter[i] == tally[i]);
            }
            Self::lemma_count_for_entries(shorter, c);
            lemma_position(shorter, seq![c]);
            lemma_position(tally, seq![c]);
            let last = tally.last();
            assert(last == tally[tally.len() - 1]);
            assert(last.0.len() == 1);
            assert((last.0 == seq![c]) <==> (last.0[0] == c)) by {
                if last.0[0] == c {
                    assert(last.0 =~= seq![c]);
                }
            }
            match position(shorter, seq![c]) {
                Some(j) => {
                    assert(shorter[j] == tally[j]);
                },
                None => {},
            }
        }
    }
}

/// A text whose characters are to be counted.
pub struct Characters {
    content: String,
    punctuation: Vec<String>,
}

impl Clean for Characters {

}

impl Characters {
    /// The text that is counted.
    pub closed spec fn content(&self) -> Seq<char> {
        self.content@
    }

    /// The punctuation that is left out of the count.
    pub closed spec fn marks(&self) -> Seq<Seq<char>> {
        texts(self.punctuation@)
    }

    /// Takes `content` to be counted without the common punctuation.
    pub fn new(content: &str) -> (characters: Characters)
        ensures
            characters.content() == content@,
            characters.marks() == punctuation_marks(),
    {
        Characters { content: content.to_owned(), punctuation: punctuation() }
    }

    /// Takes `content` to be counted without the given punctuation.
    pub fn with_punctuation(content: &str, marks: Vec<String>) -> (characters: Characters)
        ensures
            characters.content() == content@,
            characters.marks() == texts(marks@),
    {
        Characters { content: content.to_owned(), punctuation: marks }
    }

    /// Counts the characters of the text that are no punctuation.
    pub fn generate_characters_list(&self) -> (list: CharactersList)
        ensures
            list@ == letter_counts(cleaned(self.content(), self.marks())),
            list.wf(),
    {
        let chars = clean_chars(self.content.as_str(), &self.punctuation);
        count_chars(&chars)
    }

    /// Counts the characters of `sentence`, punctuation and all.
    pub fn count_char_for_sentence(&self, sentence: &str) -> (list: CharactersList)
        ensures
            list@ == letter_counts(sentence@),
            list.wf(),
    {
        let chars = code_points(sentence);
        count_chars(&chars)
    }
}

/// Counts the characters.
pub fn count_chars(chars: &Vec<char>) -> (list: CharactersList)
    ensures
        list@ == letter_counts(chars@),
        list.wf(),
{
    let mut tally = WordTally::new();
    let mut i: usize = 0;
    let ghost all = letters(chars@);
    assert(all.subrange(0, 0) =~= Seq::<Seq<char>>::empty());
    while i < chars.len()
        invariant
            i <= chars.len(),
            all == letters(chars@),
            tally.wf(),
            tally@ == tally_of(all.subrange(0, i as int)),
        decreases chars.len() - i,
    {
        proof {
            lemma_tally_bounds(all.subrange(0, i as int));
            tally.lemma_has_room();
            lemma_tally_push(all.subrange(0, i as int), seq![chars@[i as int]]);
            assert(all.subrange(0, i as int).push(seq![chars@[i as int]]) =~= all.subrange(
                0,
                i + 1,
            ));
        }
        let key = letter(chars[i]);
        tally.commit(key.as_str());
        i += 1;
    }
    proof {
        assert(all.subrange(0, chars@.len() as int) =~= all);
        lemma_tally_keys(all);
        assert forall|j: int| 0 <= j < tally@.len() implies (#[trigger] tally@[j]).0.len() == 1 by {
            let at = choose|at: int| 0 <= at < all.len() && all[at] == tally@[j].0;
            assert(all[at] == seq![chars@[at]]);
        }
    }
    CharactersList { tally }
}

impl Ops<(char, i128)> for CharactersList {
    open spec fn listable(&self) -> bool {
        self.wf()
    }

    open spec fn ordered(&self) -> Seq<(char, i128)> {
        ranking(counts_in(self@), self@.len()).map_values(
            |p: int| (self@[p].0, self@[p].1 as i128),
        )
    }

    fn get_ordered_characters(&self) -> (list: Vec<(char, i128)>) {
        assert(self.listable());
        let mut counts: Vec<i128> = Vec::new();
        let mut i: usize = 0;
        while i < self.len()
            invariant
                i <= self@.len(),
                self.wf(),
                counts@.len() == i,
                forall|j: int| 0 <= j < i ==> counts@[j] == (#[trigger] self@[j]).1,
            decreases self@.len() - i,
        {
            counts.push(self.at(i).1);
            i += 1;
        }
        assert(as_ints(counts@) =~= counts_in(self@));
        let order = rank_order(&counts);
        let ghost target = self.ordered();
        let mut list: Vec<(char, i128)> = Vec::new();
        let mut p: usize = 0;
        while p < order.len()
            invariant
                p <= order.len(),
                self.wf(),
                order.len() == self@.len(),
                is_ranking(as_positions(order@), counts_in(self@), self@.len() as int),
                as_positions(order@) == ranking(counts_in(self@), self@.len()),
                target == self.ordered(),
                list@ == target.subrange(0, p as int),
            decreases order.len() - p,
        {
            let at = order[p];
            assert(as_positions(order@)[p as int] == at);
            list.push(self.at(at));
            assert(list@ =~= target.subrange(0, p + 1));
            p += 1;
        }
        assert(target.subrange(0, order@.len() as int) =~= target);
        proof {
            assert(list@.map_values(|item: (char, i128)| item@) =~= list@);
        }
        list
    }
}

/// The table of character counts: nothing where no character was counted,
/// else the column names and then each character with its count, the most
/// frequent first.
pub open spec fn table_of_counts(entries: Seq<(char, int)>) -> Table {
    if entries.len() == 0 {
        Seq::empty()
    } else {
        seq![seq!["char"@, "count"@]] + ranking(counts_in(entries), entries.len()).map_values(
            |p: int| seq![seq![entries[p].0], decimal(entries[p].1)],
        )
    }
}

/// All rows of the table of character counts have two fields, so that the
/// table never fails to serialize.
pub proof fn lemma_counts_table_is_even(entries: Seq<(char, int)>)
    ensures
        !ragged(table_of_counts(entries)),
{
    let table = table_of_counts(entries);
    assert forall|i: int| 0 <= i < table.len() implies (#[trigger] table[i]).len() == 2 by {}
    if table.len() > 0 {
        assert(table[0].len() == 2);
    }
}

impl Export for CharactersList {
    open spec fn exportable(&self) -> bool {
        self.wf()
    }

    open spec fn table(&self) -> Table {
        table_of_counts(self@)
    }

    fn rows(&self) -> (rows: Vec<Vec<String>>) {
        let mut rows: Vec<Vec<String>> = Vec::new();
        if self.len() == 0 {
            assert(table_of(rows@) =~= self.table());
            return rows;
        }
        let sorted = self.get_ordered_characters();
        let ghost wanted = self.table();
        let ghost order = ranking(counts_in(self@), self@.len());
        proof {
            crate::rank::lemma_ranking(counts_in(self@), self@.len());
            assert(sorted@.map_values(|item: (char, i128)| item@).len() == sorted@.len());
            assert(self.ordered().len() == order.len());
        }
        let mut names: Vec<String> = Vec::new();
        names.push(String::from_str("char"));
        names.push(String::from_str("count"));
        assert(texts(names@) =~= seq!["char"@, "count"@]);
        rows.push(names);
        assert(table_of(rows@) =~= wanted.subrange(0, 1));
        let mut i: usize = 0;
        while i < sorted.len()
            invariant
                i <= sorted@.len(),
                self.wf(),
                sorted@.len() == self@.len(),
                sorted@.map_values(|item: (char, i128)| item@) == self.ordered(),
                order == ranking(counts_in(self@), self@.len()),
                is_ranking(order, counts_in(self@), self@.len() as int),
                self@.len() > 0,
                wanted == self.table(),
                rows@.len() == i + 1,
                table_of(rows@) == wanted.subrange(0, i + 1),
            decreases sorted@.len() - i,
        {
            let ghost before = rows@;
            let ghost p = order[i as int];
            let mut row: Vec<String> = Vec::new();
            row.push(letter(sorted[i].0));
            row.push(decimal_text(sorted[i].1));
            proof {
                assert(sorted@.map_values(|item: (char, i128)| item@)[i as int] == sorted@[i as int]);
                assert(self.ordered()[i as int] == (self@[p].0, self@[p].1 as i128));
                lemma_counts_fit(self, p);
                assert(texts(row@) =~= seq![seq![self@[p].0], decimal(self@[p].1)]);
                assert(wanted[i + 1] == seq![seq![self@[p].0], decimal(self@[p].1)]);
            }
            rows.push(row);
            proof {
                let target = wanted.subrange(0, i + 2);
                assert(table_of(rows@).len() == target.len());
                assert forall|j: int| 0 <= j < target.len() implies table_of(rows@)[j]
                    == target[j] by {
                    if j <= i {
                        assert(rows@[j] == before[j]);
                        assert(table_of(before)[j] == wanted.subrange(0, i + 1)[j]);
                    }
                }
                assert(table_of(rows@) =~= target);
            }
            i += 1;
        }
        assert(wanted.subrange(0, sorted@.len() as int + 1) =~= wanted);
        rows
    }
}

/// The counts of a well-formed list fit the machine's integers.
proof fn lemma_counts_fit(list: &CharactersList, p: int)
    requires
        list.wf(),
        0 <= p < list@.len(),
    ensures
        1 <= list@[p].1 <= i128::MAX,
{
    list.tally.lemma_wf();
    assert(list@[p].1 == list.tally@[p].1);
}

} // verus!
