//! Counting is additive over a sentence written twice, wherever the scan
//! crosses the seam between the two copies as it would begin afresh.

use crate::segment::{initial, regular, run, scan_commits, step, window_exists, Scan};
use crate::tally::{count_of, lemma_tally_additive, tally_of};
use vstd::prelude::*;

verus! {

/// The scan of `chars` either ends on text that is no word, or it ends on a
/// match such that the first code point of `chars` is a word of its own and
/// does not prolong that match to another word.
pub open spec fn seam_is_clean(chars: Seq<char>, keys: Set<Seq<char>>) -> bool {
    let last = run(chars, keys, initial());
    chars.len() > 0 && last.unmatched == 0 ==> keys.contains(chars.subrange(0, 1))
        && !keys.contains(chars.subrange(last.start, chars.len() as int) + chars.subrange(0, 1))
}

/// `late` is in the second copy of the sentence where `early` is in the
/// sentence alone, with the commits `before` made ahead of it.
pub open spec fn shifted(early: Scan, late: Scan, before: Seq<Seq<char>>, n: int) -> bool {
    &&& regular(early)
    &&& late.start == early.start + n
    &&& late.end == early.end + n
    &&& late.commits == before + early.commits
    &&& late.unmatched >= 0
    &&& (early.unmatched > 1 && late.unmatched > 1) || (early.unmatched == late.unmatched
        && early.slot == late.slot)
}

/// The state of the scan of the doubled sentence at the end of the first copy.
pub open spec fn at_seam(last: Scan) -> Scan {
    if last.unmatched == 0 {
        Scan { commits: last.commits.drop_last(), ..last }
    } else {
        last
    }
}

/// A step keeps a state regular.
proof fn lemma_step_regular(chars: Seq<char>, keys: Set<Seq<char>>, scan: Scan)
    requires
        regular(scan),
    ensures
        regular(step(chars, keys, scan)),
{
}

/// Inside the first copy the scan of the doubled sentence goes as the scan
/// of the sentence alone, up to the step with which the latter ends.
proof fn lemma_first_copy(chars: Seq<char>, keys: Set<Seq<char>>, scan: Scan)
    requires
        chars.len() > 0,
        window_exists(chars, scan),
        regular(scan),
    ensures
        ({
            let last = run(chars, keys, scan);
            let n = chars.len() as int;
            &&& last.end == n + 1
            &&& run(chars + chars, keys, scan) == run(chars + chars, keys, at_seam(last))
            &&& last.unmatched == 0 ==> 0 <= last.start < n && last.slot == Some(
                chars.subrange(last.start, n),
            ) && last.commits.len() > 0 && last.commits.last() == chars.subrange(last.start, n)
            &&& last.unmatched != 0 ==> last.unmatched > 1 && last.start == n
        }),
    decreases chars.len() + 1 - scan.end, crate::segment::retries_left(scan),
{
    let twice = chars + chars;
    let n = chars.len() as int;
    let next = step(chars, keys, scan);
    assert(twice.subrange(scan.start, scan.end) =~= chars.subrange(scan.start, scan.end));
    assert(window_exists(twice, scan));
    lemma_step_regular(chars, keys, scan);
    if window_exists(chars, next) {
        assert(step(twice, keys, scan) == next);
        lemma_first_copy(chars, keys, next);
    } else {
        assert(run(chars, keys, scan) == next);
        if keys.contains(chars.subrange(scan.start, scan.end)) {
            assert(scan.end == n);
            assert(next.commits.drop_last() =~= scan.commits);
            assert(step(twice, keys, scan) == at_seam(next));
        } else {
            assert(step(twice, keys, scan) == next);
        }
    }
}

/// Inside the second copy the scan of the doubled sentence goes as the scan
/// of the sentence alone, and commits the same words.
proof fn lemma_second_copy(
    chars: Seq<char>,
    keys: Set<Seq<char>>,
    early: Scan,
    late: Scan,
    before: Seq<Seq<char>>,
)
    requires
        shifted(early, late, before, chars.len() as int),
    ensures
        run(chars + chars, keys, late).commits == before + run(chars, keys, early).commits,
    decreases chars.len() + 1 - early.end, crate::segment::retries_left(early),
{
    let twice = chars + chars;
    let n = chars.len() as int;
    if window_exists(chars, early) {
        assert(twice.subrange(late.start, late.end) =~= chars.subrange(early.start, early.end));
        assert(window_exists(twice, late));
        let early_next = step(chars, keys, early);
        let late_next = step(twice, keys, late);
        lemma_step_regular(chars, keys, early);
        let candidate = chars.subrange(early.start, early.end);
        if keys.contains(candidate) {
            assert(late_next.commits =~= before + early_next.commits);
        } else if early.unmatched > 1 {
        } else {
            assert(late_next.commits =~= before + early_next.commits);
        }
        assert(shifted(early_next, late_next, before, n));
        lemma_second_copy(chars, keys, early_next, late_next, before);
    } else {
        assert(!window_exists(twice, late));
    }
}

/// From the seam on, the scan of the doubled sentence commits what the scan
/// of the sentence commits from its beginning.
proof fn lemma_across_seam(chars: Seq<char>, keys: Set<Seq<char>>, last: Scan)
    requires
        chars.len() > 0,
        last == run(chars, keys, initial()),
        last.end == chars.len() + 1,
        last.unmatched == 0 ==> 0 <= last.start < chars.len() && last.slot == Some(
            chars.subrange(last.start, chars.len() as int),
        ) && last.commits.len() > 0 && last.commits.last() == chars.subrange(
            last.start,
            chars.len() as int,
        ),
        last.unmatched != 0 ==> last.unmatched > 1 && last.start == chars.len(),
        seam_is_clean(chars, keys),
    ensures
        run(chars + chars, keys, at_seam(last)).commits == last.commits + last.commits,
{
    let twice = chars + chars;
    let n = chars.len() as int;
    let first = chars.subrange(0, 1);
    let begin = initial();
    assert(twice.subrange(n, n + 1) =~= first);
    assert(window_exists(chars, begin));
    let begun = step(chars, keys, begin);
    assert(run(chars, keys, begin) == run(chars, keys, begun));
    if last.unmatched == 0 {
        let word = chars.subrange(last.start, n);
        let seam = at_seam(last);
        assert(twice.subrange(last.start, n + 1) =~= word + first);
        assert(window_exists(twice, seam));
        let flushed = step(twice, keys, seam);
        assert(flushed.commits =~= last.commits) by {
            assert(last.commits.drop_last().push(word) =~= last.commits);
        }
        assert(window_exists(twice, flushed));
        let resumed = step(twice, keys, flushed);
        assert(run(twice, keys, seam) == run(twice, keys, flushed));
        assert(run(twice, keys, flushed) == run(twice, keys, resumed));
        assert(resumed.commits =~= last.commits + begun.commits);
        assert(shifted(begun, resumed, last.commits, n));
        lemma_second_copy(chars, keys, begun, resumed, last.commits);
    } else {
        assert(window_exists(twice, last));
        let moved = step(twice, keys, last);
        assert(run(twice, keys, last) == run(twice, keys, moved));
        if keys.contains(first) {
            assert(moved.commits =~= last.commits + begun.commits);
            assert(shifted(begun, moved, last.commits, n));
            lemma_second_copy(chars, keys, begun, moved, last.commits);
        } else {
            assert(window_exists(chars, begun));
            let again = step(chars, keys, begun);
            assert(window_exists(chars, again));
            let third = step(chars, keys, again);
            assert(third.commits =~= Seq::<Seq<char>>::empty());
            assert(moved.commits =~= last.commits + third.commits);
            assert(shifted(third, moved, last.commits, n));
            lemma_second_copy(chars, keys, third, moved, last.commits);
            assert(run(chars, keys, begun) == run(chars, keys, again));
            assert(run(chars, keys, again) == run(chars, keys, third));
        }
    }
}

/// Scanning a sentence written twice commits what scanning it once commits,
/// twice over, provided the seam is clean.
pub proof fn lemma_doubled_commits(chars: Seq<char>, keys: Set<Seq<char>>)
    requires
        seam_is_clean(chars, keys),
    ensures
        scan_commits(chars + chars, keys) == scan_commits(chars, keys) + scan_commits(
            chars,
            keys,
        ),
{
    if chars.len() == 0 {
        assert(chars + chars =~= chars);
        assert(scan_commits(chars, keys) + scan_commits(chars, keys) =~= scan_commits(
            chars,
            keys,
        ));
    } else {
        lemma_first_copy(chars, keys, initial());
        lemma_across_seam(chars, keys, run(chars, keys, initial()));
    }
}

/// Segmenting a sentence twice and adding the counts gives what segmenting
/// the sentence written twice gives, for every word, provided the seam is
/// clean.
pub proof fn lemma_counting_is_additive(chars: Seq<char>, keys: Set<Seq<char>>, word: Seq<char>)
    requires
        seam_is_clean(chars, keys),
    ensures
        count_of(tally_of(scan_commits(chars + chars, keys)), word) == 2 * count_of(
            tally_of(scan_commits(chars, keys)),
            word,
        ),
{
    lemma_doubled_commits(chars, keys);
    lemma_tally_additive(scan_commits(chars, keys), scan_commits(chars, keys), word);
}

} // verus!
