//! Ranking by frequency: larger counts first, and among equal counts what
//! came first stays first.

use crate::ordered::{lemma_position, position, OrderedMap};
use crate::ordering::Ops;
use crate::record::{Counted, Entries};
use vstd::prelude::*;

verus! {

/// Position `a` comes before position `b` in the ranking of `counts`.
pub open spec fn outranks(counts: Seq<int>, a: int, b: int) -> bool {
    counts[a] > counts[b] || (counts[a] == counts[b] && a < b)
}

/// `order` lists the first `n` positions of `counts`, each once, so that
/// every position outranks all that are listed after it.
pub open spec fn is_ranking(order: Seq<int>, counts: Seq<int>, n: int) -> bool {
    &&& order.len() == n
    &&& forall|p: int| 0 <= p < order.len() ==> 0 <= #[trigger] order[p] < n
    &&& forall|k: int| 0 <= k < n ==> #[trigger] order.contains(k)
    &&& forall|p: int, q: int|
        0 <= p < q < order.len() ==> outranks(counts, #[trigger] order[p], #[trigger] order[q])
}

/// Where a new position with count `count` goes into `order`: behind the
/// last position whose count is not smaller.
pub open spec fn place(order: Seq<int>, counts: Seq<int>, count: int) -> int
    decreases order.len(),
{
    if order.len() == 0 {
        0
    } else if counts[order.last()] >= count {
        order.len() as int
    } else {
        place(order.drop_last(), counts, count)
    }
}

/// The ranking of the first `n` positions of `counts`.
pub open spec fn ranking(counts: Seq<int>, n: nat) -> Seq<int>
    decreases n,
{
    if n == 0 {
        Seq::empty()
    } else {
        let before = ranking(counts, (n - 1) as nat);
        before.insert(place(before, counts, counts[n - 1]), n - 1)
    }
}

/// `place` lies inside `order`, behind counts that are not smaller and before
/// counts that are smaller, provided `order` is sorted by count.
pub proof fn lemma_place(order: Seq<int>, counts: Seq<int>, count: int)
    requires
        forall|p: int, q: int|
            0 <= p < q < order.len() ==> counts[#[trigger] order[p]] >= counts[#[trigger] order[q]],
    ensures
        0 <= place(order, counts, count) <= order.len(),
        forall|p: int| 0 <= p < place(order, counts, count) ==> counts[#[trigger] order[p]] >= count,
        forall|p: int|
            place(order, counts, count) <= p < order.len() ==> counts[#[trigger] order[p]] < count,
    decreases order.len(),
{
    if order.len() > 0 {
        if counts[order.last()] >= count {
            assert forall|p: int| 0 <= p < order.len() implies counts[#[trigger] order[p]]
                >= count by {
                if p < order.len() - 1 {
                    assert(counts[order[p]] >= counts[order[order.len() - 1]]);
                }
            }
        } else {
            let shorter = order.drop_last();
            assert forall|p: int, q: int| 0 <= p < q < shorter.len() implies counts[#[trigger] shorter[p]]
                >= counts[#[trigger] shorter[q]] by {
                assert(shorter[p] == order[p]);
                assert(shorter[q] == order[q]);
            }
            lemma_place(shorter, counts, count);
            assert forall|p: int| 0 <= p < place(order, counts, count) implies counts[#[trigger] order[p]]
                >= count by {
                assert(shorter[p] == order[p]);
            }
            assert forall|p: int| place(order, counts, count) <= p < order.len() implies counts[#[trigger] order[p]]
                < count by {
                if p < order.len() - 1 {
                    assert(shorter[p] == order[p]);
                }
            }
        }
    }
}

/// The ranking is what it is named for: a listing of the positions by
/// falling count in which positions of equal count keep their order.
pub proof fn lemma_ranking(counts: Seq<int>, n: nat)
    requires
        n <= counts.len(),
    ensures
        is_ranking(ranking(counts, n), counts, n as int),
    decreases n,
{
    if n > 0 {
        let before = ranking(counts, (n - 1) as nat);
        lemma_ranking(counts, (n - 1) as nat);
        assert forall|p: int, q: int| 0 <= p < q < before.len() implies counts[#[trigger] before[p]]
            >= counts[#[trigger] before[q]] by {
            assert(outranks(counts, before[p], before[q]));
        }
        lemma_place(before, counts, counts[n - 1]);
        let at = place(before, counts, counts[n - 1]);
        let order = before.insert(at, n - 1);
        assert(order == ranking(counts, n));
        assert forall|k: int| 0 <= k < n implies #[trigger] order.contains(k) by {
            if k == n - 1 {
                assert(order[at] == k);
            } else {
                assert(before.contains(k));
                let p = choose|p: int| 0 <= p < before.len() && before[p] == k;
                if p < at {
                    assert(order[p] == k);
                } else {
                    assert(order[p + 1] == k);
                }
            }
        }
        assert forall|p: int, q: int| 0 <= p < q < order.len() implies outranks(
            counts,
            #[trigger] order[p],
            #[trigger] order[q],
        ) by {
            if q < at {
                assert(order[p] == before[p] && order[q] == before[q]);
            } else if q == at {
                assert(order[p] == before[p]);
                assert(counts[before[p]] >= counts[n - 1]);
            } else if p < at {
                assert(order[p] == before[p] && order[q] == before[q - 1]);
            } else if p == at {
                assert(order[q] == before[q - 1]);
                assert(counts[before[q - 1]] < counts[n - 1]);
            } else {
                assert(order[p] == before[p - 1] && order[q] == before[q - 1]);
            }
        }
        assert forall|p: int| 0 <= p < order.len() implies 0 <= #[trigger] order[p] < n by {
            if p < at {
                assert(order[p] == before[p]);
            } else if p > at {
                assert(order[p] == before[p - 1]);
            }
        }
    }
}

/// The counts as integers.
pub open spec fn as_ints(counts: Seq<i128>) -> Seq<int> {
    counts.map_values(|c: i128| c as int)
}

/// The positions as integers.
pub open spec fn as_positions(order: Seq<usize>) -> Seq<int> {
    order.map_values(|p: usize| p as int)
}

/// The positions of `counts` in ranking order.
pub fn rank_order(counts: &Vec<i128>) -> (order: Vec<usize>)
    ensures
        as_positions(order@) == ranking(as_ints(counts@), counts@.len()),
        is_ranking(as_positions(order@), as_ints(counts@), counts@.len() as int),
{
    let mut order: Vec<usize> = Vec::new();
    let mut i: usize = 0;
    assert(as_positions(order@) =~= ranking(as_ints(counts@), 0));
    while i < counts.len()
        invariant
            i <= counts.len(),
            as_positions(order@) == ranking(as_ints(counts@), i as nat),
        decreases counts.len() - i,
    {
        proof {
            lemma_ranking(as_ints(counts@), i as nat);
        }
        let ghost before = as_positions(order@);
        let count = counts[i];
        let mut at: usize = order.len();
        assert(before.subrange(0, at as int) =~= before);
        while at > 0 && counts[order[at - 1]] < count
            invariant
                at <= order.len(),
                order.len() == i,
                i < counts.len(),
                before == as_positions(order@),
                count == counts[i as int],
                forall|p: int| 0 <= p < order.len() ==> 0 <= #[trigger] before[p] < i,
                place(before, as_ints(counts@), count as int) == place(
                    before.subrange(0, at as int),
                    as_ints(counts@),
                    count as int,
                ),
            decreases at,
        {
            proof {
                let head = before.subrange(0, at as int);
                assert(head.last() == before[at - 1]);
                assert(head.drop_last() =~= before.subrange(0, at - 1));
            }
            at -= 1;
        }
        proof {
            let head = before.subrange(0, at as int);
            if at > 0 {
                assert(head.last() == before[at - 1]);
                assert(before[at - 1] == order@[at - 1]);
            }
            assert(place(head, as_ints(counts@), count as int) == at);
        }
        order.insert(at, i);
        assert(as_positions(order@) =~= before.insert(at as int, i as int));
        i += 1;
    }
    proof {
        lemma_ranking(as_ints(counts@), counts@.len());
    }
    order
}

/// The counts that the entries carry, in order.
pub open spec fn counts_of<V: Counted>(entries: Entries<V>) -> Seq<int> {
    entries.map_values(|e: (Seq<char>, V::V)| V::count_in(e.1))
}

/// The entries in ranking order: by falling count, entries of equal count in
/// the order in which they stand.
pub open spec fn ranked_entries<V: Counted>(entries: Entries<V>) -> Entries<V> {
    ranking(counts_of::<V>(entries), entries.len()).map_values(|p: int| entries[p])
}

/// Ranks the entries of `map` by count, the most frequent first. Entries
/// with the same count keep the order that they have in `map`.
pub fn ranked<V: Counted>(map: &OrderedMap<V>) -> (out: OrderedMap<V>)
    requires
        map.wf(),
    ensures
        out@ == ranked_entries::<V>(map@),
        out.wf(),
{
    let mut counts: Vec<i128> = Vec::new();
    let mut i: usize = 0;
    while i < map.len()
        invariant
            i <= map@.len(),
            counts@.len() == i,
            as_ints(counts@) == counts_of::<V>(map@).subrange(0, i as int),
        decreases map@.len() - i,
    {
        let ghost earlier = counts@;
        counts.push(map.value_at(i).count());
        proof {
            let wanted = counts_of::<V>(map@).subrange(0, i + 1);
            assert(as_ints(counts@).len() == wanted.len());
            assert forall|j: int| 0 <= j < wanted.len() implies as_ints(counts@)[j]
                == wanted[j] by {
                if j < i {
                    assert(counts@[j] == earlier[j]);
                    assert(as_ints(earlier)[j] == counts_of::<V>(map@).subrange(0, i as int)[j]);
                }
            }
            assert(as_ints(counts@) =~= wanted);
        }
        i += 1;
    }
    assert(counts_of::<V>(map@).subrange(0, map@.len() as int) =~= counts_of::<V>(map@));
    let order = rank_order(&counts);
    let ghost target = ranked_entries::<V>(map@);
    let ghost positions = as_positions(order@);
    let mut out: OrderedMap<V> = OrderedMap::new();
    let mut p: usize = 0;
    while p < order.len()
        invariant
            p <= order.len(),
            order.len() == map@.len(),
            map.wf(),
            positions == as_positions(order@),
            positions == ranking(counts_of::<V>(map@), map@.len()),
            is_ranking(positions, counts_of::<V>(map@), map@.len() as int),
            target == ranked_entries::<V>(map@),
            out.wf(),
            out@ == target.subrange(0, p as int),
        decreases order.len() - p,
    {
        let at = order[p];
        assert(positions[p as int] == at);
        let key = map.key_at(at);
        let value = map.value_at(at);
        let copy = value.with_count(value.count());
        proof {
            V::lemma_recount(value@, 0, 0);
            lemma_position(out@, key@);
            if position(out@, key@) is Some {
                let q = position(out@, key@)->0;
                assert(out@[q] == map@[positions[q]]);
                assert(outranks(counts_of::<V>(map@), positions[q], positions[p as int]));
                assert(positions[q] != positions[p as int]);
                if positions[q] < at {
                    assert(map@[positions[q]].0 != map@[at as int].0);
                } else {
                    assert(map@[at as int].0 != map@[positions[q]].0);
                }
            }
        }
        map_push(&mut out, key, copy);
        assert(out@ =~= target.subrange(0, p + 1));
        p += 1;
    }
    assert(target.subrange(0, order@.len() as int) =~= target);
    out
}

/// Appends a copy of `key` with `value` to `out`.
fn map_push<V: View>(out: &mut OrderedMap<V>, key: &String, value: V)
    requires
        old(out).wf(),
        position(old(out)@, key@) is None,
    ensures
        final(out)@ == old(out)@.push((key@, value@)),
        final(out).wf(),
{
    out.push_new(key.clone(), value);
}

impl<V: Counted> Ops<V> for OrderedMap<V> {
    open spec fn listable(&self) -> bool {
        self.wf()
    }

    open spec fn ordered(&self) -> Seq<V::V> {
        ranked_entries::<V>(self@).map_values(|e: (Seq<char>, V::V)| e.1)
    }

    fn get_ordered_characters(&self) -> (list: Vec<V>) {
        let sorted = ranked(self);
        let ghost target = self.ordered();
        let mut list: Vec<V> = Vec::new();
        let mut i: usize = 0;
        while i < sorted.len()
            invariant
                i <= sorted@.len(),
                sorted@ == ranked_entries::<V>(self@),
                target == self.ordered(),
                list@.len() == i,
                list@.map_values(|item: V| item@) == target.subrange(0, i as int),
            decreases sorted@.len() - i,
        {
            let value = sorted.value_at(i);
            let ghost before = list@;
            list.push(value.with_count(value.count()));
            proof {
                V::lemma_recount(value@, 0, 0);
                let views = list@.map_values(|item: V| item@);
                let wanted = target.subrange(0, i + 1);
                assert(views.len() == wanted.len());
                assert forall|q: int| 0 <= q < wanted.len() implies views[q] == wanted[q] by {
                    if q < i {
                        assert(list@[q] == before[q]);
                        assert(before.map_values(|item: V| item@)[q] == target.subrange(
                            0,
                            i as int,
                        )[q]);
                    }
                }
                assert(views =~= wanted);
            }
            i += 1;
        }
        assert(target.subrange(0, sorted@.len() as int) =~= target);
        list
    }
}

} // verus!
