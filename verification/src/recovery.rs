//! A sentence written as known words one after the other is cut back into
//! exactly those words, provided that every beginning of each word is a word
//! too and that no word, prolonged by the first code point of the next, is
//! one.

use crate::detector::joined;
use crate::ordered::{lemma_position, position};
use crate::record::Counted;
use crate::segment::{initial, run, scan_commits, segmented, step, window_exists, Scan};
use crate::tally::{
    count_of, lemma_occurrences_additive, lemma_tally_counts, lemma_tally_extends,
    occurrences, tally_of,
};
use vstd::prelude::*;

verus! {

/// No word is empty, every beginning of every word is a key, and no word
/// followed by the first code point of the next word is a key.
pub open spec fn separable(words: Seq<Seq<char>>, keys: Set<Seq<char>>) -> bool {
    &&& forall|i: int| 0 <= i < words.len() ==> (#[trigger] words[i]).len() > 0
    &&& forall|i: int, j: int|
        0 <= i < words.len() && 1 <= j <= words[i].len() ==> keys.contains(
            #[trigger] words[i].take(j),
        )
    &&& forall|i: int|
        0 <= i < words.len() - 1 ==> !keys.contains(#[trigger] words[i] + words[i + 1].take(1))
}

/// The last word followed by the first code point of the first word is no key.
pub open spec fn closes(words: Seq<Seq<char>>, keys: Set<Seq<char>>) -> bool {
    words.len() > 0 ==> !keys.contains(words.last() + words[0].take(1))
}

/// Where the word at position `i` begins in the sentence.
pub open spec fn offset(words: Seq<Seq<char>>, i: int) -> int {
    joined(words.take(i)).len() as int
}

/// What the first `i` words join to is the beginning of what the first `m`
/// words join to.
proof fn lemma_joined_prefix(words: Seq<Seq<char>>, i: int, m: int)
    requires
        0 <= i <= m <= words.len(),
    ensures
        offset(words, i) <= offset(words, m),
        joined(words.take(m)).subrange(0, offset(words, i)) == joined(words.take(i)),
    decreases m - i,
{
    if i == m {
        assert(joined(words.take(m)).subrange(0, offset(words, i)) =~= joined(words.take(i)));
    } else {
        lemma_joined_prefix(words, i, m - 1);
        assert(words.take(m).drop_last() =~= words.take(m - 1));
        assert(words.take(m).last() == words[m - 1]);
        assert(joined(words.take(m)).subrange(0, offset(words, i)) =~= joined(
            words.take(m - 1),
        ).subrange(0, offset(words, i)));
    }
}

/// The word at position `i` stands in the sentence from its offset to the
/// offset of the next word.
proof fn lemma_word_at(words: Seq<Seq<char>>, i: int)
    requires
        0 <= i < words.len(),
    ensures
        offset(words, i + 1) == offset(words, i) + words[i].len(),
        offset(words, i + 1) <= joined(words).len(),
        joined(words).subrange(offset(words, i), offset(words, i + 1)) == words[i],
{
    let whole = joined(words);
    assert(words.take(words.len() as int) =~= words);
    lemma_joined_prefix(words, i + 1, words.len() as int);
    assert(words.take(i + 1).drop_last() =~= words.take(i));
    assert(words.take(i + 1).last() == words[i]);
    assert(whole.subrange(offset(words, i), offset(words, i + 1)) =~= whole.subrange(
        0,
        offset(words, i + 1),
    ).subrange(offset(words, i), offset(words, i + 1)));
    assert(joined(words.take(i + 1)).subrange(offset(words, i), offset(words, i + 1))
        =~= words[i]);
}

/// From a window that spells the first `j` code points of the word at
/// position `i`, with the words before it committed, the scan commits the
/// words.
proof fn lemma_inside(words: Seq<Seq<char>>, keys: Set<Seq<char>>, i: int, j: int, scan: Scan)
    requires
        separable(words, keys),
        0 <= i < words.len(),
        1 <= j <= words[i].len(),
        scan.start == offset(words, i),
        scan.end == offset(words, i) + j,
        scan.commits == words.take(i),
    ensures
        run(joined(words), keys, scan).commits == words,
    decreases words.len() - i, words[i].len() - j,
{
    let whole = joined(words);
    let n = whole.len() as int;
    let word = words[i];
    lemma_word_at(words, i);
    assert(words.take(words.len() as int) =~= words);
    assert(whole.subrange(scan.start, scan.end) =~= word.take(j)) by {
        assert(whole.subrange(scan.start, scan.end) =~= whole.subrange(
            offset(words, i),
            offset(words, i + 1),
        ).take(j));
    }
    assert(keys.contains(word.take(j)));
    assert(window_exists(whole, scan));
    let next = step(whole, keys, scan);
    assert(run(whole, keys, scan) == run(whole, keys, next));
    if j < word.len() {
        lemma_inside(words, keys, i, j + 1, next);
    } else {
        assert(word.take(j) =~= word);
        if i == words.len() - 1 {
            assert(offset(words, i + 1) == n);
            assert(next.commits =~= words);
            assert(!window_exists(whole, next));
        } else {
            lemma_word_at(words, i + 1);
            let following = words[i + 1];
            assert(whole.subrange(next.start, next.end) =~= word + following.take(1)) by {
                assert(whole.subrange(offset(words, i + 1), offset(words, i + 2)) == following);
                assert(whole.subrange(offset(words, i), offset(words, i + 1)) == word);
                assert forall|p: int| 0 <= p < word.len() + 1 implies whole.subrange(
                    next.start,
                    next.end,
                )[p] == (word + following.take(1))[p] by {
                    if p < word.len() {
                        assert(whole[offset(words, i) + p] == whole.subrange(
                            offset(words, i),
                            offset(words, i + 1),
                        )[p]);
                    } else {
                        assert(whole[offset(words, i + 1)] == whole.subrange(
                            offset(words, i + 1),
                            offset(words, i + 2),
                        )[0]);
                    }
                }
            }
            assert(!keys.contains(words[i] + words[i + 1].take(1)));
            assert(window_exists(whole, next));
            let after = step(whole, keys, next);
            assert(run(whole, keys, next) == run(whole, keys, after));
            assert(after.commits =~= words.take(i + 1));
            lemma_inside(words, keys, i + 1, 1, after);
        }
    }
}

/// The scan of a sentence written as separable words commits exactly those
/// words, in their order.
pub proof fn lemma_words_are_recovered(words: Seq<Seq<char>>, keys: Set<Seq<char>>)
    requires
        separable(words, keys),
    ensures
        scan_commits(joined(words), keys) == words,
{
    if words.len() == 0 {
        assert(scan_commits(joined(words), keys) =~= words);
    } else {
        assert(words.take(0) =~= Seq::<Seq<char>>::empty());
        lemma_inside(words, keys, 0, 1, initial());
    }
}

/// What two lists of words join to, one after the other, is what the two
/// lists in one join to.
pub proof fn lemma_joined_twice(first: Seq<Seq<char>>, second: Seq<Seq<char>>)
    ensures
        joined(first + second) == joined(first) + joined(second),
    decreases second.len(),
{
    if second.len() == 0 {
        assert(first + second =~= first);
        assert(joined(first) + joined(second) =~= joined(first));
    } else {
        lemma_joined_twice(first, second.drop_last());
        assert((first + second).drop_last() =~= first + second.drop_last());
        assert((first + second).last() == second.last());
        assert(joined(first + second) =~= joined(first) + joined(second));
    }
}

/// The scan of a sentence of separable words written twice commits the words
/// twice over, provided the last word is not prolonged by the first.
pub proof fn lemma_doubled_words_are_recovered(words: Seq<Seq<char>>, keys: Set<Seq<char>>)
    requires
        separable(words, keys),
        closes(words, keys),
    ensures
        scan_commits(joined(words) + joined(words), keys) == words + words,
        scan_commits(joined(words), keys) == words,
{
    let twice = words + words;
    let k = words.len() as int;
    lemma_joined_twice(words, words);
    lemma_words_are_recovered(words, keys);
    assert forall|i: int| 0 <= i < twice.len() implies (#[trigger] twice[i]).len() > 0 by {
        if i < k {
            assert(twice[i] == words[i]);
        } else {
            assert(twice[i] == words[i - k]);
        }
    }
    assert forall|i: int, j: int|
        0 <= i < twice.len() && 1 <= j <= twice[i].len() implies keys.contains(
        #[trigger] twice[i].take(j),
    ) by {
        if i < k {
            assert(twice[i] == words[i]);
            assert(keys.contains(words[i].take(j)));
        } else {
            assert(twice[i] == words[i - k]);
            assert(keys.contains(words[i - k].take(j)));
        }
    }
    assert forall|i: int| 0 <= i < twice.len() - 1 implies !keys.contains(
        #[trigger] twice[i] + twice[i + 1].take(1),
    ) by {
        if i < k - 1 {
            assert(twice[i] == words[i] && twice[i + 1] == words[i + 1]);
            assert(!keys.contains(words[i] + words[i + 1].take(1)));
        } else if i == k - 1 {
            assert(twice[i] == words.last() && twice[i + 1] == words[0]);
        } else {
            assert(twice[i] == words[i - k] && twice[i + 1] == words[i - k + 1]);
            assert(!keys.contains(words[i - k] + words[i - k + 1].take(1)));
        }
    }
    lemma_words_are_recovered(twice, keys);
}

/// For a sentence of separable words whose last word is not prolonged by the
/// first, every word is counted as often as it stands in the sentence, and
/// twice as often in the sentence written twice.
pub proof fn lemma_doubled_words_are_counted_twice(
    words: Seq<Seq<char>>,
    keys: Set<Seq<char>>,
    word: Seq<char>,
)
    requires
        separable(words, keys),
        closes(words, keys),
    ensures
        count_of(tally_of(scan_commits(joined(words), keys)), word) == occurrences(words, word),
        count_of(tally_of(scan_commits(joined(words) + joined(words), keys)), word) == 2
            * occurrences(words, word),
{
    lemma_doubled_words_are_recovered(words, keys);
    lemma_tally_counts(words);
    lemma_tally_counts(words + words);
    lemma_occurrences_additive(words, words, word);
}

/// A word that stands at some place among the commits occurs among them.
proof fn lemma_stands(commits: Seq<Seq<char>>, at: int)
    requires
        0 <= at < commits.len(),
    ensures
        occurrences(commits, commits[at]) > 0,
    decreases commits.len(),
{
    lemma_tally_counts(commits.drop_last());
    let word = commits[at];
    assert(0 <= occurrences(commits.drop_last(), word));
    if at < commits.len() - 1 {
        lemma_stands(commits.drop_last(), at);
        assert(commits.drop_last()[at] == word);
    } else {
        assert(commits.last() == word);
    }
}

/// Segmenting a sentence of separable words, whose last word is not
/// prolonged by the first, and segmenting the sentence written twice give
/// the same keys in the same order. Each key is counted as often as it
/// stands among the words, and twice as often in the sentence written
/// twice; but for the count, its record is the same in both.
pub proof fn lemma_doubled_segmentation<V: Counted>(
    words: Seq<Seq<char>>,
    lexicon: Map<Seq<char>, V::V>,
)
    requires
        separable(words, lexicon.dom()),
        closes(words, lexicon.dom()),
    ensures
        ({
            let once = segmented::<V>(joined(words), lexicon);
            let twice = segmented::<V>(joined(words) + joined(words), lexicon);
            &&& twice.len() == once.len()
            &&& forall|i: int|
                0 <= i < once.len() ==> (#[trigger] twice[i]).0 == once[i].0 && V::count_in(
                    once[i].1,
                ) == occurrences(words, once[i].0) && twice[i].1 == V::recount(
                    once[i].1,
                    2 * V::count_in(once[i].1),
                )
        }),
{
    let keys = lexicon.dom();
    lemma_doubled_words_are_recovered(words, keys);
    let once = segmented::<V>(joined(words), lexicon);
    let twice = segmented::<V>(joined(words) + joined(words), lexicon);
    let base = tally_of(words);
    let both = tally_of(words + words);
    assert forall|j: int| 0 <= j < words.len() implies occurrences(words, #[trigger] words[j])
        > 0 by {
        lemma_stands(words, j);
    }
    lemma_tally_extends(words, words);
    lemma_tally_counts(words);
    assert forall|i: int| 0 <= i < once.len() implies (#[trigger] twice[i]).0 == once[i].0
        && V::count_in(once[i].1) == occurrences(words, once[i].0) && twice[i].1 == V::recount(
        once[i].1,
        2 * V::count_in(once[i].1),
    ) by {
        let key = base[i].0;
        assert(both[i].0 == key);
        lemma_position(base, key);
        let p = position(base, key)->0;
        assert(base[p].0 == base[i].0);
        assert(p == i);
        assert(count_of(base, key) == occurrences(words, key));
        V::lemma_recount(lexicon[key], base[i].1, both[i].1);
    }
}

} // verus!
