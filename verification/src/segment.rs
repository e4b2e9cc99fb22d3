//! Greedy longest-match segmentation of a sentence against a lexicon.
//!
//! The scan slides a window `[start, end)` over the code points of the
//! sentence. While the window spells a word of the lexicon it grows to the
//! right; when it stops doing so, the last word that was found is committed
//! and the window is re-anchored one code point before its right edge, so that
//! a word starting there is not skipped. A window that keeps failing is pushed
//! forward one code point at a time.

use crate::lexicon::Lexicon;
use crate::ordered::{lemma_position, position, OrderedMap};
use crate::record::{attach, attached, Counted, Entries};
use crate::tally::{
    count_of, lemma_occurs, lemma_tally_bounds, lemma_tally_counts, lemma_tally_push, occurrences,
    tally_of, WordTally,
};
use crate::text::slice_text;
use vstd::prelude::*;

verus! {

/// What the scan remembers between two steps.
pub struct Scan {
    /// Left edge of the window.
    pub start: int,
    /// Right edge of the window, exclusive.
    pub end: int,
    /// Consecutive misses since the last hit.
    pub unmatched: int,
    /// The last word that was found, if any.
    pub slot: Option<Seq<char>>,
    /// The words committed so far, in order.
    pub commits: Seq<Seq<char>>,
}

/// The state in which every scan begins.
pub open spec fn initial() -> Scan {
    Scan { start: 0, end: 1, unmatched: 0, slot: None, commits: Seq::empty() }
}

/// The window of `scan` lies inside the sentence.
pub open spec fn window_exists(chars: Seq<char>, scan: Scan) -> bool {
    0 <= scan.start <= scan.end <= chars.len()
}

/// `commits` followed by the word in `slot`, if there is one.
pub open spec fn flushed(commits: Seq<Seq<char>>, slot: Option<Seq<char>>) -> Seq<Seq<char>> {
    match slot {
        Some(word) => commits.push(word),
        None => commits,
    }
}

/// One step of the scan.
///
/// On a hit the window's word goes into the slot and the window grows; a hit
/// that reaches the end of the sentence is committed at once. The first two
/// misses in a row each commit the slot and re-anchor the window at its last
/// code point; any further miss moves the whole window one code point on.
pub open spec fn step(chars: Seq<char>, keys: Set<Seq<char>>, scan: Scan) -> Scan {
    let candidate = chars.subrange(scan.start, scan.end);
    if keys.contains(candidate) {
        Scan {
            start: scan.start,
            end: scan.end + 1,
            unmatched: 0,
            slot: Some(candidate),
            commits: if scan.end == chars.len() {
                scan.commits.push(candidate)
            } else {
                scan.commits
            },
        }
    } else if scan.unmatched > 1 {
        Scan {
            start: scan.start + 1,
            end: scan.end + 1,
            unmatched: scan.unmatched + 1,
            slot: scan.slot,
            commits: scan.commits,
        }
    } else {
        Scan {
            start: scan.end - 1,
            end: scan.end,
            unmatched: scan.unmatched + 1,
            slot: scan.slot,
            commits: flushed(scan.commits, scan.slot),
        }
    }
}

/// The misses that may still be answered by re-anchoring.
pub open spec fn retries_left(scan: Scan) -> int {
    if scan.unmatched >= 2 {
        0
    } else {
        2 - scan.unmatched
    }
}

/// The state in which the scan that continues from `scan` stops: the first
/// one whose window no longer lies inside the sentence.
pub open spec fn run(chars: Seq<char>, keys: Set<Seq<char>>, scan: Scan) -> Scan
    decreases chars.len() + 1 - scan.end, retries_left(scan),
{
    if window_exists(chars, scan) {
        run(chars, keys, step(chars, keys, scan))
    } else {
        scan
    }
}

/// The words that the scan of `chars` commits, in order.
pub open spec fn scan_commits(chars: Seq<char>, keys: Set<Seq<char>>) -> Seq<Seq<char>> {
    run(chars, keys, initial()).commits
}

/// `word` is spelled by some window of `chars`.
pub open spec fn is_window(chars: Seq<char>, word: Seq<char>) -> bool {
    exists|from: int, to: int|
        0 <= from <= to <= chars.len() && #[trigger] chars.subrange(from, to) == word
}

/// Every word of `words` is a key of the lexicon and a window of the
/// sentence, and none is empty.
pub open spec fn all_found(chars: Seq<char>, keys: Set<Seq<char>>, words: Seq<Seq<char>>) -> bool {
    forall|i: int|
        0 <= i < words.len() ==> keys.contains(#[trigger] words[i]) && is_window(chars, words[i])
            && words[i].len() > 0
}

/// What holds of every state that a scan reaches: the window is not empty,
/// and after a miss it is one code point wide.
pub open spec fn regular(scan: Scan) -> bool {
    &&& 0 <= scan.start < scan.end
    &&& scan.unmatched >= 0
    &&& scan.unmatched >= 1 ==> scan.end == scan.start + 1
}

/// The slot and the commits of `scan` hold only words of the lexicon that
/// occur in the sentence, none of them empty.
pub open spec fn sound(chars: Seq<char>, keys: Set<Seq<char>>, scan: Scan) -> bool {
    &&& regular(scan)
    &&& all_found(chars, keys, scan.commits)
    &&& scan.slot matches Some(word) ==> keys.contains(word) && is_window(chars, word)
        && word.len() > 0
}

/// A step keeps the scan sound.
pub proof fn lemma_step_sound(chars: Seq<char>, keys: Set<Seq<char>>, scan: Scan)
    requires
        window_exists(chars, scan),
        sound(chars, keys, scan),
    ensures
        sound(chars, keys, step(chars, keys, scan)),
{
    let next = step(chars, keys, scan);
    let candidate = chars.subrange(scan.start, scan.end);
    assert forall|i: int| 0 <= i < next.commits.len() implies keys.contains(
        #[trigger] next.commits[i],
    ) && is_window(chars, next.commits[i]) by {
        if i < scan.commits.len() {
            assert(next.commits[i] == scan.commits[i]);
        }
    }
}

/// A scan that starts sound ends sound.
pub proof fn lemma_run_sound(chars: Seq<char>, keys: Set<Seq<char>>, scan: Scan)
    requires
        sound(chars, keys, scan),
    ensures
        sound(chars, keys, run(chars, keys, scan)),
    decreases chars.len() + 1 - scan.end, retries_left(scan),
{
    if window_exists(chars, scan) {
        lemma_step_sound(chars, keys, scan);
        lemma_run_sound(chars, keys, step(chars, keys, scan));
    }
}

/// Whatever the sentence and the lexicon, the scan commits only words that
/// are keys of the lexicon and that occur in the sentence as they stand, and
/// never the empty word.
pub proof fn lemma_commits_found(chars: Seq<char>, keys: Set<Seq<char>>)
    ensures
        all_found(chars, keys, scan_commits(chars, keys)),
{
    lemma_run_sound(chars, keys, initial());
}

/// The commits still to come, weighed so that no step raises the sum of this
/// and the commits already made.
pub open spec fn budget(chars: Seq<char>, scan: Scan) -> int {
    3 * (chars.len() + 1 - scan.end) + retries_left(scan)
}

/// Scans `chars` against the keys of `lexicon` and counts the committed words.
pub fn scan_words<V: View>(chars: &Vec<char>, lexicon: &Lexicon<V>) -> (tally: WordTally)
    ensures
        tally@ == tally_of(scan_commits(chars@, lexicon@.dom())),
        tally.wf(),
{
    let n = chars.len();
    let mut tally = WordTally::new();
    if n == 0 {
        return tally;
    }
    let ghost keys = lexicon@.dom();
    let ghost mut scan = initial();
    let mut start: usize = 0;
    let mut end: usize = 1;
    let mut unmatched: u8 = 0;
    let mut slot: Option<String> = None;
    loop
        invariant_except_break
            n == chars.len(),
            keys == lexicon@.dom(),
            scan.start == start,
            scan.end == end,
            start < end <= n,
            scan.unmatched >= 0,
            unmatched == if scan.unmatched >= 2 {
                2int
            } else {
                scan.unmatched
            },
            match slot {
                Some(word) => scan.slot == Some(word@),
                None => scan.slot is None,
            },
            tally.wf(),
            tally@ == tally_of(scan.commits),
            scan.commits.len() + budget(chars@, scan) <= 3 * n + 2,
            run(chars@, keys, scan) == run(chars@, keys, initial()),
        ensures
            tally.wf(),
            tally@ == tally_of(scan_commits(chars@, lexicon@.dom())),
        decreases n + 1 - end, 2 - unmatched,
    {
        proof {
            lemma_tally_bounds(scan.commits);
            tally.lemma_has_room();
        }
        let candidate = slice_text(chars, start, end);
        let ghost next = step(chars@, keys, scan);
        proof {
            assert(window_exists(chars@, scan));
            assert(run(chars@, keys, scan) == run(chars@, keys, next));
            lemma_tally_push(scan.commits, candidate@);
            if scan.slot is Some {
                lemma_tally_push(scan.commits, scan.slot->0);
            }
        }
        if lexicon.contains_key(candidate.as_str()) {
            if end == n {
                tally.commit(candidate.as_str());
                proof {
                    assert(!window_exists(chars@, next));
                    scan = next;
                }
                break ;
            }
            slot = Some(candidate);
            end += 1;
            unmatched = 0;
        } else if unmatched > 1 {
            if end == n {
                proof {
                    assert(!window_exists(chars@, next));
                    scan = next;
                }
                break ;
            }
            start += 1;
            end += 1;
        } else {
            match &slot {
                Some(word) => {
                    tally.commit(word.as_str());
                },
                None => {},
            }
            start = end - 1;
            unmatched += 1;
        }
        proof {
            scan = next;
        }
    }
    tally
}

/// The result of segmenting `chars` against `lexicon`: every committed word,
/// in the order of its first commit, with the lexicon's record for it, whose
/// count is the number of times the word was committed.
pub open spec fn segmented<V: Counted>(chars: Seq<char>, lexicon: Map<Seq<char>, V::V>) -> Entries<
    V,
> {
    attached::<V>(tally_of(scan_commits(chars, lexicon.dom())), lexicon)
}

/// Every key of a segmentation is a key of the lexicon, is not empty and
/// occurs in the sentence as it stands; its record is the lexicon's, but for
/// the count, which is at least 1 and is the number of commits of the key.
pub proof fn lemma_segmented<V: Counted>(chars: Seq<char>, lexicon: Map<Seq<char>, V::V>)
    ensures
        forall|i: int|
            0 <= i < segmented::<V>(chars, lexicon).len() ==> {
                let entry = #[trigger] segmented::<V>(chars, lexicon)[i];
                &&& lexicon.contains_key(entry.0)
                &&& entry.0.len() > 0
                &&& is_window(chars, entry.0)
                &&& V::count_in(entry.1) >= 1
                &&& V::count_in(entry.1) == occurrences(scan_commits(chars, lexicon.dom()), entry.0)
                &&& entry.1 == V::recount(lexicon[entry.0], V::count_in(entry.1))
            },
{
    let commits = scan_commits(chars, lexicon.dom());
    let tally = tally_of(commits);
    let words = segmented::<V>(chars, lexicon);
    lemma_commits_found(chars, lexicon.dom());
    lemma_tally_counts(commits);
    lemma_tally_bounds(commits);
    assert forall|i: int| 0 <= i < words.len() implies {
        let entry = #[trigger] words[i];
        &&& lexicon.contains_key(entry.0)
        &&& entry.0.len() > 0
        &&& is_window(chars, entry.0)
        &&& V::count_in(entry.1) >= 1
        &&& V::count_in(entry.1) == occurrences(commits, entry.0)
        &&& entry.1 == V::recount(lexicon[entry.0], V::count_in(entry.1))
    } by {
        let word = tally[i].0;
        lemma_position(tally, word);
        let p = position(tally, word)->0;
        assert(tally[p].0 == tally[i].0);
        assert(p == i);
        assert(count_of(tally, word) == occurrences(commits, word));
        lemma_occurs(commits, word);
        let at = choose|at: int| 0 <= at < commits.len() && commits[at] == word;
        assert(lexicon.dom().contains(commits[at]));
        V::lemma_recount(lexicon[word], tally[i].1, 0);
    }
}

/// Segments `chars` against `lexicon` by greedy longest match.
pub fn segment<V: Counted>(chars: &Vec<char>, lexicon: &Lexicon<V>) -> (words: OrderedMap<V>)
    ensures
        words@ == segmented::<V>(chars@, lexicon@),
        words.wf(),
        forall|i: int|
            0 <= i < words@.len() ==> lexicon@.contains_key((#[trigger] words@[i]).0)
                && words@[i].0.len() > 0 && is_window(chars@, words@[i].0) && V::count_in(
                words@[i].1,
            ) >= 1,
{
    let tally = scan_words(chars, lexicon);
    proof {
        lemma_segmented::<V>(chars@, lexicon@);
        assert forall|i: int| 0 <= i < tally@.len() implies lexicon@.dom().contains(
            (#[trigger] tally@[i]).0,
        ) by {
            assert(segmented::<V>(chars@, lexicon@)[i].0 == tally@[i].0);
        }
    }
    attach(&tally, lexicon)
}

} // verus!
