//! Counting committed words: each word is recorded once, at the place of its
//! first commit, with the number of times it was committed.

use crate::ordered::{distinct_keys, lemma_position, position};
use vstd::prelude::*;

verus! {

/// A tally in specifications: words with their counts, in first-commit order.
pub type Counts = Seq<(Seq<char>, int)>;

/// The tally after one more commit of `word`: its count goes up by one if the
/// tally holds it, otherwise it is appended with count 1.
pub open spec fn committed(tally: Counts, word: Seq<char>) -> Counts {
    match position(tally, word) {
        Some(i) => tally.update(i, (word, tally[i].1 + 1)),
        None => tally.push((word, 1)),
    }
}

/// The tally of a sequence of commits, made from left to right.
pub open spec fn tally_of(commits: Seq<Seq<char>>) -> Counts
    decreases commits.len(),
{
    if commits.len() == 0 {
        Seq::empty()
    } else {
        committed(tally_of(commits.drop_last()), commits.last())
    }
}

/// One more commit changes the tally by one commit.
pub proof fn lemma_tally_push(commits: Seq<Seq<char>>, word: Seq<char>)
    ensures
        tally_of(commits.push(word)) == committed(tally_of(commits), word),
{
    assert(commits.push(word).drop_last() =~= commits);
}

/// How often `word` occurs in `commits`.
pub open spec fn occurrences(commits: Seq<Seq<char>>, word: Seq<char>) -> int
    decreases commits.len(),
{
    if commits.len() == 0 {
        0
    } else {
        occurrences(commits.drop_last(), word) + if commits.last() == word {
            1int
        } else {
            0int
        }
    }
}

/// A word that occurs among the commits stands at some place in them.
pub proof fn lemma_occurs(commits: Seq<Seq<char>>, word: Seq<char>)
    requires
        occurrences(commits, word) > 0,
    ensures
        commits.contains(word),
    decreases commits.len(),
{
    if commits.len() > 0 {
        if commits.last() == word {
            assert(commits[commits.len() - 1] == word);
        } else {
            lemma_occurs(commits.drop_last(), word);
            let i = choose|i: int| 0 <= i < commits.drop_last().len() && commits.drop_last()[i] == word;
            assert(commits[i] == word);
        }
    }
}

/// The count that a tally gives for `word`: 0 if it does not hold it.
pub open spec fn count_of(tally: Counts, word: Seq<char>) -> int {
    match position(tally, word) {
        Some(i) => tally[i].1,
        None => 0,
    }
}

/// A commit keeps keys distinct.
pub proof fn lemma_committed_distinct(tally: Counts, word: Seq<char>)
    requires
        distinct_keys(tally),
    ensures
        distinct_keys(committed(tally, word)),
{
    let after = committed(tally, word);
    lemma_position(tally, word);
    match position(tally, word) {
        Some(i) => {
            assert forall|a: int, b: int| 0 <= a < b < after.len() implies (#[trigger] after[a]).0
                != (#[trigger] after[b]).0 by {
                assert(after[a].0 == tally[a].0);
                assert(after[b].0 == tally[b].0);
            }
        },
        None => {
            assert forall|a: int, b: int| 0 <= a < b < after.len() implies (#[trigger] after[a]).0
                != (#[trigger] after[b]).0 by {
                assert(after[a] == tally[a]);
                if b < tally.len() {
                    assert(after[b] == tally[b]);
                }
            }
        },
    }
}

/// A commit raises the count of the committed word by one and leaves every
/// other count as it was.
pub proof fn lemma_committed_count(tally: Counts, word: Seq<char>, other: Seq<char>)
    requires
        distinct_keys(tally),
    ensures
        count_of(committed(tally, word), other) == count_of(tally, other) + if other == word {
            1int
        } else {
            0int
        },
        (position(committed(tally, word), other) is Some) <==> (other == word || position(
            tally,
            other,
        ) is Some),
{
    let after = committed(tally, word);
    lemma_position(tally, word);
    lemma_position(tally, other);
    lemma_position(after, other);
    lemma_committed_distinct(tally, word);
    match position(tally, word) {
        Some(i) => {
            assert(after[i].0 == word);
            assert(after[i].1 == tally[i].1 + 1);
            match position(after, other) {
                Some(k) => {
                    assert(after[k].0 == tally[k].0);
                    match position(tally, other) {
                        Some(j) => {
                            assert(after[j].0 == tally[j].0);
                            assert(j == k) by {
                                if j < k {
                                    assert(after[j].0 != after[k].0);
                                }
                                if k < j {
                                    assert(after[k].0 != after[j].0);
                                }
                            }
                        },
                        None => {
                            assert(tally[k].0 != other);
                        },
                    }
                },
                None => {
                    if position(tally, other) is Some {
                        let j = position(tally, other)->0;
                        assert(after[j].0 == tally[j].0);
                    }
                },
            }
        },
        None => {
            let n = tally.len() as int;
            assert(after[n] == (word, 1int));
            match position(after, other) {
                Some(k) => {
                    if k < n {
                        assert(after[k] == tally[k]);
                        let j = position(tally, other)->0;
                        if position(tally, other) is None {
                            assert(tally[k].0 != other);
                        } else {
                            assert(after[j] == tally[j]);
                            assert(j == k) by {
                                if j < k {
                                    assert(after[j].0 != after[k].0);
                                }
                                if k < j {
                                    assert(after[k].0 != after[j].0);
                                }
                            }
                        }
                    } else {
                        if position(tally, other) is Some {
                            let j = position(tally, other)->0;
                            assert(tally[j].0 == word);
                        }
                    }
                },
                None => {
                    assert(after[n].0 != other);
                    if position(tally, other) is Some {
                        let j = position(tally, other)->0;
                        assert(after[j] == tally[j]);
                    }
                },
            }
        },
    }
}

/// A tally has distinct keys, and the count it gives for a word is the
/// number of commits of that word.
pub proof fn lemma_tally_counts(commits: Seq<Seq<char>>)
    ensures
        distinct_keys(tally_of(commits)),
        forall|word: Seq<char>|
            #[trigger] count_of(tally_of(commits), word) == occurrences(commits, word),
        forall|word: Seq<char>|
            (#[trigger] position(tally_of(commits), word) is Some) <==> occurrences(commits, word)
                > 0,
        forall|word: Seq<char>| 0 <= #[trigger] occurrences(commits, word) <= commits.len(),
    decreases commits.len(),
{
    if commits.len() > 0 {
        let before = tally_of(commits.drop_last());
        lemma_tally_counts(commits.drop_last());
        lemma_committed_distinct(before, commits.last());
        assert forall|word: Seq<char>|
            count_of(tally_of(commits), word) == occurrences(commits, word) && ((position(
                tally_of(commits),
                word,
            ) is Some) <==> occurrences(commits, word) > 0) && 0 <= occurrences(commits, word)
                <= commits.len() by {
            lemma_committed_count(before, commits.last(), word);
            assert(count_of(before, word) == occurrences(commits.drop_last(), word));
            assert(0 <= occurrences(commits.drop_last(), word) <= commits.drop_last().len());
            assert((position(before, word) is Some) <==> occurrences(commits.drop_last(), word)
                > 0);
        }
    } else {
        assert forall|word: Seq<char>| position(tally_of(commits), word) is None by {}
    }
}

/// Every entry of a tally has a count between 1 and the number of commits.
pub proof fn lemma_tally_bounds(commits: Seq<Seq<char>>)
    ensures
        forall|i: int|
            0 <= i < tally_of(commits).len() ==> 1 <= (#[trigger] tally_of(commits)[i]).1
                <= commits.len(),
{
    let tally = tally_of(commits);
    lemma_tally_counts(commits);
    assert forall|i: int| 0 <= i < tally.len() implies 1 <= (#[trigger] tally[i]).1
        <= commits.len() by {
        let word = tally[i].0;
        lemma_position(tally, word);
        let p = position(tally, word)->0;
        assert(tally[p].0 == tally[i].0);
        assert(p == i);
        assert(count_of(tally, word) == occurrences(commits, word));
    }
}

/// Every word of a tally is one of the commits.
pub proof fn lemma_tally_keys(commits: Seq<Seq<char>>)
    ensures
        forall|i: int|
            0 <= i < tally_of(commits).len() ==> commits.contains((#[trigger] tally_of(commits)[i]).0),
{
    let tally = tally_of(commits);
    lemma_tally_counts(commits);
    lemma_tally_bounds(commits);
    assert forall|i: int| 0 <= i < tally.len() implies commits.contains((#[trigger] tally[i]).0) by {
        let word = tally[i].0;
        lemma_position(tally, word);
        let p = position(tally, word)->0;
        assert(tally[p].0 == tally[i].0);
        assert(p == i);
        assert(count_of(tally, word) == occurrences(commits, word));
        lemma_occurs(commits, word);
    }
}

/// More commits of words that were committed before leave every word at its
/// place and raise its count by the number of times it is committed again.
pub proof fn lemma_tally_extends(first: Seq<Seq<char>>, second: Seq<Seq<char>>)
    requires
        forall|j: int| 0 <= j < second.len() ==> occurrences(first, #[trigger] second[j]) > 0,
    ensures
        tally_of(first + second).len() == tally_of(first).len(),
        forall|i: int|
            0 <= i < tally_of(first).len() ==> (#[trigger] tally_of(first + second)[i]).0
                == tally_of(first)[i].0 && tally_of(first + second)[i].1 == tally_of(first)[i].1
                + occurrences(second, tally_of(first)[i].0),
    decreases second.len(),
{
    let base = tally_of(first);
    if second.len() == 0 {
        assert(first + second =~= first);
    } else {
        let shorter = second.drop_last();
        let word = second.last();
        assert forall|j: int| 0 <= j < shorter.len() implies occurrences(
            first,
            #[trigger] shorter[j],
        ) > 0 by {
            assert(shorter[j] == second[j]);
        }
        lemma_tally_extends(first, shorter);
        assert((first + second).drop_last() =~= first + shorter);
        assert((first + second).last() == word);
        let before = tally_of(first + shorter);
        let after = tally_of(first + second);
        assert(after == committed(before, word));
        lemma_tally_counts(first);
        lemma_tally_counts(first + shorter);
        assert(second[second.len() - 1] == word);
        assert(occurrences(first, word) > 0);
        assert(position(base, word) is Some);
        lemma_position(base, word);
        lemma_position(before, word);
        let p = position(base, word)->0;
        assert(before[p].0 == base[p].0);
        if position(before, word) is None {
            assert(before[p].0 != word);
        }
        let q = position(before, word)->0;
        assert(before[q].0 == base[q].0);
        assert(q == p) by {
            if q < p {
                assert(base[q].0 != word);
            }
            if p < q {
                assert(before[p].0 != word);
            }
        }
        assert forall|i: int| 0 <= i < base.len() implies (#[trigger] after[i]).0 == base[i].0
            && after[i].1 == base[i].1 + occurrences(second, base[i].0) by {
            assert(before[i].0 == base[i].0);
            if i != p {
                if i < p {
                    assert(base[i].0 != base[p].0);
                } else {
                    assert(base[p].0 != base[i].0);
                }
            }
        }
    }
}

/// Counting is additive: the count of a word after two runs of commits is the
/// sum of its counts in each.
pub proof fn lemma_tally_additive(first: Seq<Seq<char>>, second: Seq<Seq<char>>, word: Seq<char>)
    ensures
        count_of(tally_of(first + second), word) == count_of(tally_of(first), word) + count_of(
            tally_of(second),
            word,
        ),
{
    lemma_tally_counts(first + second);
    lemma_tally_counts(first);
    lemma_tally_counts(second);
    lemma_occurrences_additive(first, second, word);
}

/// Occurrences in a concatenation are the sum of the occurrences in its parts.
pub proof fn lemma_occurrences_additive(
    first: Seq<Seq<char>>,
    second: Seq<Seq<char>>,
    word: Seq<char>,
)
    ensures
        occurrences(first + second, word) == occurrences(first, word) + occurrences(second, word),
    decreases second.len(),
{
    if second.len() == 0 {
        assert(first + second =~= first);
    } else {
        assert((first + second).drop_last() =~= first + second.drop_last());
        assert((first + second).last() == second.last());
        lemma_occurrences_additive(first, second.drop_last(), word);
    }
}

/// Word counts in first-commit order.
pub struct WordTally {
    words: Vec<String>,
    counts: Vec<i128>,
}

impl View for WordTally {
    type V = Counts;

    closed spec fn view(&self) -> Counts {
        Seq::new(self.words@.len(), |i: int| (self.words@[i]@, self.counts@[i] as int))
    }
}

impl WordTally {
    /// Keys are pairwise different and every count is at least 1.
    pub closed spec fn wf(&self) -> bool {
        &&& self.words@.len() == self.counts@.len()
        &&& distinct_keys(self@)
        &&& forall|i: int| 0 <= i < self.counts@.len() ==> 1 <= #[trigger] self.counts@[i]
    }

    /// Every count can still be raised by one.
    pub closed spec fn has_room(&self) -> bool {
        forall|i: int| 0 <= i < self.counts@.len() ==> (#[trigger] self.counts@[i]) < i128::MAX
    }

    /// What well-formedness means for the view.
    pub proof fn lemma_wf(&self)
        requires
            self.wf(),
        ensures
            distinct_keys(self@),
            forall|i: int| 0 <= i < self@.len() ==> 1 <= (#[trigger] self@[i]).1 <= i128::MAX,
    {
    }

    /// A tally whose counts stay below the largest count has room.
    pub proof fn lemma_has_room(&self)
        requires
            self.wf(),
            forall|i: int| 0 <= i < self@.len() ==> (#[trigger] self@[i]).1 < i128::MAX,
        ensures
            self.has_room(),
    {
        assert forall|i: int| 0 <= i < self.counts@.len() implies (#[trigger] self.counts@[i])
            < i128::MAX by {
            assert(self@[i].1 == self.counts@[i]);
        }
    }

    /// The empty tally.
    pub fn new() -> (tally: Self)
        ensures
            tally@ == tally_of(Seq::empty()),
            tally@.len() == 0,
            tally.wf(),
    {
        let tally = WordTally { words: Vec::new(), counts: Vec::new() };
        assert(tally@ =~= tally_of(Seq::empty()));
        tally
    }

    /// The number of different words.
    pub fn len(&self) -> (n: usize)
        requires
            self.wf(),
        ensures
            n == self@.len(),
    {
        self.words.len()
    }

    /// The word at position `i`.
    pub fn word_at(&self, i: usize) -> (word: &String)
        requires
            self.wf(),
            i < self@.len(),
        ensures
            word@ == self@[i as int].0,
    {
        &self.words[i]
    }

    /// The count at position `i`.
    pub fn count_at(&self, i: usize) -> (count: i128)
        requires
            self.wf(),
            i < self@.len(),
        ensures
            count == self@[i as int].1,
            count >= 1,
    {
        self.counts[i]
    }

    /// The count at position `i`, where it is kept.
    pub fn count_ref(&self, i: usize) -> (count: &i128)
        requires
            self.wf(),
            i < self@.len(),
        ensures
            *count == self@[i as int].1,
    {
        &self.counts[i]
    }

    /// The position of `word`, if the tally holds it.
    pub fn find(&self, word: &str) -> (at: Option<usize>)
        requires
            self.wf(),
        ensures
            match at {
                Some(i) => position(self@, word@) == Some(i as int) && i < self@.len(),
                None => position(self@, word@) is None,
            },
    {
        let probe = word.to_owned();
        let mut i: usize = 0;
        while i < self.words.len()
            invariant
                i <= self.words.len(),
                self.words@.len() == self@.len(),
                probe@ == word@,
                forall|j: int| 0 <= j < i ==> (#[trigger] self@[j]).0 != word@,
            decreases self.words.len() - i,
        {
            if self.words[i] == probe {
                proof {
                    lemma_position(self@, word@);
                    assert(self@[i as int].0 == word@);
                }
                return Some(i);
            }
            i += 1;
        }
        proof {
            lemma_position(self@, word@);
        }
        None
    }

    /// Records one more occurrence of `word`.
    pub fn commit(&mut self, word: &str)
        requires
            old(self).wf(),
            old(self).has_room(),
        ensures
            final(self)@ == committed(old(self)@, word@),
            final(self).wf(),
    {
        proof {
            lemma_committed_distinct(self@, word@);
            lemma_position(self@, word@);
        }
        match self.find(word) {
            Some(i) => {
                let raised: i128 = self.counts[i] + 1;
                self.counts.set(i, raised);
                assert(self@ =~= committed(old(self)@, word@));
            },
            None => {
                let owned = word.to_owned();
                self.words.push(owned);
                self.counts.push(1);
                proof {
                    let after = committed(old(self)@, word@);
                    assert(self@.len() == after.len());
                    assert forall|i: int| 0 <= i < after.len() implies self@[i] == after[i] by {
                        if i < old(self)@.len() {
                            assert(self.words@[i] == old(self).words@[i]);
                            assert(after[i] == old(self)@[i]);
                        }
                    }
                    assert(self@ =~= after);
                }
            },
        }
    }
}

} // verus!
