//! Records that carry an occurrence count, and maps of such records.

use crate::lexicon::Lexicon;
use crate::ordered::{distinct_keys, lemma_position, position, OrderedMap};
use crate::tally::{Counts, WordTally};
use vstd::prelude::*;

verus! {

/// A dictionary record with an occurrence count.
pub trait Counted: View + Sized {
    /// The count that a record with this view carries.
    spec fn count_in(view: Self::V) -> int;

    /// The view of the same record with another count.
    spec fn recount(view: Self::V, count: int) -> Self::V;

    /// Changing the count changes nothing else, and is undone by changing it back.
    proof fn lemma_recount(view: Self::V, count: int, again: int)
        ensures
            Self::count_in(Self::recount(view, count)) == count,
            Self::recount(Self::recount(view, count), again) == Self::recount(view, again),
            Self::recount(view, Self::count_in(view)) == view,
    ;

    /// The record's count.
    fn count(&self) -> (n: i128)
        ensures
            n == Self::count_in(self@),
    ;

    /// A copy of the record that carries `count`.
    fn with_count(&self, count: i128) -> (copy: Self)
        ensures
            copy@ == Self::recount(self@, count as int),
    ;
}

/// A map of records in specifications: keys with record views, in first-insertion order.
pub type Entries<V> = Seq<(Seq<char>, <V as View>::V)>;

/// The records that a tally stands for: each word with the lexicon's record
/// for it, carrying the tally's count.
pub open spec fn attached<V: Counted>(tally: Counts, lexicon: Map<Seq<char>, V::V>) -> Entries<V> {
    Seq::new(
        tally.len(),
        |i: int| (tally[i].0, V::recount(lexicon[tally[i].0], tally[i].1)),
    )
}

/// The map after one commit of `record` under `key`: the count of the record
/// stored under `key` goes up by one, or, if there is none, a copy of
/// `record` is appended with count 1.
pub open spec fn recorded<V: Counted>(entries: Entries<V>, key: Seq<char>, record: V::V) -> Entries<
    V,
> {
    match position(entries, key) {
        Some(i) => entries.update(i, (key, V::recount(entries[i].1, V::count_in(entries[i].1) + 1))),
        None => entries.push((key, V::recount(record, 1))),
    }
}

/// Builds the map of records that `tally` stands for.
pub fn attach<V: Counted>(tally: &WordTally, lexicon: &Lexicon<V>) -> (map: OrderedMap<V>)
    requires
        tally.wf(),
        forall|i: int| 0 <= i < tally@.len() ==> lexicon@.dom().contains((#[trigger] tally@[i]).0),
    ensures
        map@ == attached::<V>(tally@, lexicon@),
        map.wf(),
{
    let mut map: OrderedMap<V> = OrderedMap::new();
    let mut i: usize = 0;
    proof {
        tally.lemma_wf();
    }
    while i < tally.len()
        invariant
            i <= tally@.len(),
            tally.wf(),
            distinct_keys(tally@),
            forall|j: int|
                0 <= j < tally@.len() ==> lexicon@.dom().contains((#[trigger] tally@[j]).0),
            map.wf(),
            map@ == attached::<V>(tally@, lexicon@).subrange(0, i as int),
        decreases tally@.len() - i,
    {
        let word = tally.word_at(i);
        let count = tally.count_at(i);
        assert(lexicon@.dom().contains(tally@[i as int].0));
        match lexicon.get(word.as_str()) {
            Some(record) => {
                let copy = record.with_count(count);
                proof {
                    lemma_position(map@, word@);
                    if position(map@, word@) is Some {
                        let j = position(map@, word@)->0;
                        assert(map@[j].0 == tally@[j].0);
                    }
                }
                map.push_new(word.clone(), copy);
                assert(map@ =~= attached::<V>(tally@, lexicon@).subrange(0, i + 1));
            },
            None => {},
        }
        i += 1;
    }
    assert(attached::<V>(tally@, lexicon@).subrange(0, tally@.len() as int) =~= attached::<V>(
        tally@,
        lexicon@,
    ));
    map
}

/// Commits `record` under `key`: raises the count of the record that `map`
/// holds under `key`, or inserts a copy of `record` with count 1. The count
/// under `key`, if there is one, must not be the largest there is.
pub fn record_word<V: Counted>(map: &mut OrderedMap<V>, key: &str, record: &V)
    requires
        old(map).wf(),
        position(old(map)@, key@) matches Some(i) ==> V::count_in(old(map)@[i].1) < i128::MAX,
    ensures
        final(map)@ == recorded::<V>(old(map)@, key@, record@),
        final(map).wf(),
{
    proof {
        lemma_position(map@, key@);
    }
    match map.find(key) {
        Some(i) => {
            let stored = map.value_at(i);
            let raised = stored.with_count(stored.count() + 1);
            map.replace_at(i, raised);
        },
        None => {
            map.push_new(key.to_owned(), record.with_count(1));
        },
    }
}

} // verus!
