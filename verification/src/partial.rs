//! Partial selection on an arrangement of positions.
//!
//! The working collection is a vector that lists each position `0..n` once.
//! It is only ever changed by exchanging two entries, so it stays such a
//! listing. Partitioning about a pivot is the one primitive: selection by rank
//! narrows a window with it, and the sort of a range hands the smaller side to
//! a call of its own and goes on with the larger.

use crate::rank::{outranks, ranks_before};
use vstd::prelude::*;

verus! {

/// `order` lists each position of `0..n` exactly once.
pub(crate) open spec fn is_arrangement(order: Seq<usize>, n: nat) -> bool {
    &&& order.len() == n
    &&& forall|p: int| 0 <= p < n ==> (#[trigger] order[p]) < n
    &&& forall|p: int, q: int| 0 <= p < q < n ==> order[p] != order[q]
    &&& forall|m: usize| m < n ==> #[trigger] order.contains(m)
}

/// `x` is an entry of `order` at a place within `lo..hi`.
pub(crate) open spec fn occurs_within(order: Seq<usize>, lo: int, hi: int, x: usize) -> bool {
    exists|q: int| lo <= q < hi && #[trigger] order[q] == x
}

/// `after` differs from `before` only within `lo..hi`, and what it holds there
/// was within `lo..hi` before.
pub(crate) open spec fn drawn_from(
    before: Seq<usize>,
    after: Seq<usize>,
    lo: int,
    hi: int,
) -> bool {
    &&& after.len() == before.len()
    &&& forall|p: int|
        0 <= p < before.len() && !(lo <= p < hi) ==> #[trigger] after[p] == before[p]
    &&& forall|p: int| lo <= p < hi ==> occurs_within(before, lo, hi, #[trigger] after[p])
}

/// Every entry within `lo..mid` is ranked before every entry within `mid..hi`.
pub(crate) open spec fn split_at(
    scores: Seq<u64>,
    order: Seq<usize>,
    lo: int,
    mid: int,
    hi: int,
) -> bool {
    forall|a: int, b: int|
        lo <= a < mid && mid <= b < hi ==> outranks(
            scores,
            #[trigger] order[a] as int,
            #[trigger] order[b] as int,
        )
}

/// The entries within `lo..hi` stand in ranking order, the best first.
pub(crate) open spec fn ranked_within(
    scores: Seq<u64>,
    order: Seq<usize>,
    lo: int,
    hi: int,
) -> bool {
    forall|a: int, b: int|
        lo <= a < b < hi ==> outranks(
            scores,
            #[trigger] order[a] as int,
            #[trigger] order[b] as int,
        )
}

/// Exchanging two entries within `lo..hi` keeps an arrangement an arrangement
/// and draws the range from itself.
pub(crate) proof fn lemma_exchange(before: Seq<usize>, n: nat, a: int, b: int, lo: int, hi: int)
    requires
        is_arrangement(before, n),
        0 <= lo <= a < hi <= n,
        lo <= b < hi,
    ensures
        is_arrangement(before.update(a, before[b]).update(b, before[a]), n),
        drawn_from(before, before.update(a, before[b]).update(b, before[a]), lo, hi),
{
    let after = before.update(a, before[b]).update(b, before[a]);
    assert forall|m: usize| m < n implies #[trigger] after.contains(m) by {
        assert(before.contains(m));
        let p = choose|p: int| 0 <= p < before.len() && before[p] == m;
        let q = if p == a {
            b
        } else if p == b {
            a
        } else {
            p
        };
        assert(after[q] == m);
    }
    assert forall|p: int| lo <= p < hi implies occurs_within(
        before,
        lo,
        hi,
        #[trigger] after[p],
    ) by {
        let q = if p == a {
            b
        } else if p == b {
            a
        } else {
            p
        };
        assert(before[q] == after[p]);
    }
}

/// Drawing a range from itself twice is drawing it once.
pub(crate) proof fn lemma_drawn_twice(
    first: Seq<usize>,
    second: Seq<usize>,
    third: Seq<usize>,
    lo: int,
    hi: int,
)
    requires
        drawn_from(first, second, lo, hi),
        drawn_from(second, third, lo, hi),
    ensures
        drawn_from(first, third, lo, hi),
{
    assert forall|p: int| lo <= p < hi implies occurs_within(
        first,
        lo,
        hi,
        #[trigger] third[p],
    ) by {
        let q = choose|q: int| lo <= q < hi && second[q] == third[p];
        assert(occurs_within(first, lo, hi, second[q]));
    }
}

/// Where a range is split before and after the entry at `p`, it is split at
/// `p` and at `p + 1`.
pub(crate) proof fn lemma_split_about(scores: Seq<u64>, order: Seq<usize>, lo: int, p: int, hi: int)
    requires
        0 <= lo <= p < hi <= order.len(),
        split_at(scores, order, lo, p, p + 1),
        split_at(scores, order, p, p + 1, hi),
    ensures
        split_at(scores, order, lo, p, hi),
        split_at(scores, order, lo, p + 1, hi),
{
    let pivot = order[p];
    assert forall|a: int, b: int| lo <= a < p && p <= b < hi implies outranks(
        scores,
        #[trigger] order[a] as int,
        #[trigger] order[b] as int,
    ) by {
        assert(outranks(scores, order[a] as int, pivot as int));
        if b > p {
            assert(outranks(scores, pivot as int, order[b] as int));
        }
    }
    assert forall|a: int, b: int| lo <= a < p + 1 && p + 1 <= b < hi implies outranks(
        scores,
        #[trigger] order[a] as int,
        #[trigger] order[b] as int,
    ) by {
        assert(outranks(scores, pivot as int, order[b] as int));
        if a < p {
            assert(outranks(scores, order[a] as int, pivot as int));
        }
    }
}

/// Exchanges the entries at `a` and `b`.
fn exchange(order: &mut Vec<usize>, a: usize, b: usize)
    requires
        a < old(order).len(),
        b < old(order).len(),
    ensures
        final(order)@ == old(order)@.update(a as int, old(order)@[b as int]).update(
            b as int,
            old(order)@[a as int],
        ),
{
    let x = order[a];
    let y = order[b];
    order.set(a, y);
    order.set(b, x);
}

/// Partitions the range `lo..hi` about one of its entries and returns the
/// place where that entry, the pivot, comes to stand: what is ranked before
/// the pivot stands before it, the rest of the range after it.
pub(crate) fn partition(order: &mut Vec<usize>, scores: &[u64], lo: usize, hi: usize) -> (p: usize)
    requires
        is_arrangement(old(order)@, scores@.len()),
        lo < hi <= scores.len(),
    ensures
        lo <= p < hi,
        is_arrangement(final(order)@, scores@.len()),
        drawn_from(old(order)@, final(order)@, lo as int, hi as int),
        split_at(scores@, final(order)@, lo as int, p as int, p + 1),
        split_at(scores@, final(order)@, p as int, p + 1, hi as int),
{
    let ghost n = scores@.len();
    let ghost start = order@;
    let last = hi - 1;
    let mid = lo + (hi - lo) / 2;
    proof {
        lemma_exchange(order@, n, mid as int, last as int, lo as int, hi as int);
    }
    exchange(order, mid, last);
    let pivot = order[last];
    let mut store = lo;
    let mut i = lo;
    while i < last
        invariant
            n == scores@.len(),
            lo <= store <= i <= last,
            last == hi - 1,
            hi <= n,
            is_arrangement(order@, n),
            drawn_from(start, order@, lo as int, hi as int),
            order@[last as int] == pivot,
            forall|a: int|
                lo <= a < store ==> outranks(scores@, #[trigger] order@[a] as int, pivot as int),
            forall|b: int|
                store <= b < i ==> outranks(scores@, pivot as int, #[trigger] order@[b] as int),
        decreases last - i,
    {
        if ranks_before(scores, order[i], pivot) {
            proof {
                lemma_exchange(order@, n, i as int, store as int, lo as int, hi as int);
                lemma_drawn_twice(
                    start,
                    order@,
                    order@.update(i as int, order@[store as int]).update(
                        store as int,
                        order@[i as int],
                    ),
                    lo as int,
                    hi as int,
                );
            }
            exchange(order, i, store);
            store += 1;
        }
        i += 1;
    }
    proof {
        lemma_exchange(order@, n, store as int, last as int, lo as int, hi as int);
        lemma_drawn_twice(
            start,
            order@,
            order@.update(store as int, order@[last as int]).update(
                last as int,
                order@[store as int],
            ),
            lo as int,
            hi as int,
        );
    }
    exchange(order, store, last);
    store
}

/// Selection by rank: reorders the arrangement so that the `nth + 1` best
/// positions stand within `0..nth + 1`, in no particular order.
pub(crate) fn select_nth(order: &mut Vec<usize>, scores: &[u64], nth: usize)
    requires
        is_arrangement(old(order)@, scores@.len()),
        nth < scores.len(),
    ensures
        is_arrangement(final(order)@, scores@.len()),
        split_at(scores@, final(order)@, 0, nth + 1, scores@.len() as int),
{
    let ghost n = scores@.len();
    let mut lo: usize = 0;
    let mut hi: usize = scores.len();
    loop
        invariant_except_break
            lo <= nth < hi <= n,
        invariant
            n == scores@.len(),
            is_arrangement(order@, n),
            split_at(scores@, order@, 0, lo as int, n as int),
            split_at(scores@, order@, 0, hi as int, n as int),
        ensures
            split_at(scores@, order@, 0, nth + 1, n as int),
        decreases hi - lo,
    {
        let p = partition(order, scores, lo, hi);
        proof {
            lemma_split_about(scores@, order@, lo as int, p as int, hi as int);
        }
        if p == nth {
            break;
        } else if p < nth {
            lo = p + 1;
        } else {
            hi = p;
        }
    }
}

/// Sorts the range `lo..hi` into ranking order, the best first.
///
/// The range is partitioned; the smaller side is sorted by a call of its own,
/// the larger side is taken up in the next round. The calls therefore nest no
/// deeper than the logarithm of the length of the range.
pub(crate) fn sort_range(order: &mut Vec<usize>, scores: &[u64], lo: usize, hi: usize)
    requires
        is_arrangement(old(order)@, scores@.len()),
        lo <= hi <= scores.len(),
    ensures
        is_arrangement(final(order)@, scores@.len()),
        drawn_from(old(order)@, final(order)@, lo as int, hi as int),
        ranked_within(scores@, final(order)@, lo as int, hi as int),
    decreases hi - lo,
{
    let ghost n = scores@.len();
    let ghost start = order@;
    let mut from = lo;
    let mut to = hi;
    while to - from >= 2
        invariant
            n == scores@.len(),
            lo <= from <= to <= hi <= n,
            is_arrangement(order@, n),
            drawn_from(start, order@, lo as int, hi as int),
            ranked_within(scores@, order@, lo as int, from as int),
            ranked_within(scores@, order@, to as int, hi as int),
            split_at(scores@, order@, lo as int, from as int, hi as int),
            split_at(scores@, order@, lo as int, to as int, hi as int),
        decreases to - from,
    {
        let p = partition(order, scores, from, to);
        proof {
            lemma_split_about(scores@, order@, from as int, p as int, to as int);
        }
        if p - from < to - (p + 1) {
            sort_range(order, scores, from, p);
            from = p + 1;
        } else {
            sort_range(order, scores, p + 1, to);
            to = p;
        }
    }
}

} // verus!
