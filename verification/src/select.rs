//! Selection of the best position and of the best `k` positions.

use crate::partial::{is_arrangement, select_nth, sort_range, split_at};
use crate::rank::{is_picked, is_top, is_top_k, outranks};
use vstd::prelude::*;

verus! {

/// The best position of `scores`: `None` when there is no position at all.
pub fn select_top(scores: &[u64]) -> (r: Option<usize>)
    ensures
        scores.len() == 0 ==> r is None,
        scores.len() > 0 ==> r is Some && is_top(scores@, r->0 as int),
{
    let n = scores.len();
    if n == 0 {
        return None;
    }
    let mut best: usize = 0;
    let mut i: usize = 1;
    while i < n
        invariant
            n == scores.len(),
            1 <= i <= n,
            best < i,
            forall|j: int| 0 <= j < best ==> #[trigger] scores@[j] <= scores@[best as int],
            forall|j: int| best < j < i ==> #[trigger] scores@[j] < scores@[best as int],
        decreases n - i,
    {
        if scores[i] >= scores[best] {
            best = i;
        }
        i += 1;
    }
    Some(best)
}

/// The arrangement that lists the positions `0..n` in their own order.
fn identity_order(n: usize) -> (order: Vec<usize>)
    ensures
        is_arrangement(order@, n as nat),
        forall|p: int| 0 <= p < n ==> order@[p] == p,
{
    let mut order: Vec<usize> = Vec::with_capacity(n);
    let mut i: usize = 0;
    while i < n
        invariant
            i <= n,
            order@.len() == i,
            forall|p: int| 0 <= p < i ==> order@[p] == p,
        decreases n - i,
    {
        order.push(i);
        i += 1;
    }
    proof {
        assert forall|m: usize| m < n implies #[trigger] order@.contains(m) by {
            assert(order@[m as int] == m);
        }
    }
    order
}

/// The `min(k, n)` best positions of `scores`, the best first.
///
/// Unless all positions are asked for, they are first partitioned so that the
/// best `k` stand in front, in any order. Only that front is then sorted.
pub fn select_top_k(scores: &[u64], k: usize) -> (picks: Vec<usize>)
    ensures
        is_top_k(scores@, k as nat, picks@),
{
    let n = scores.len();
    let take = if k < n {
        k
    } else {
        n
    };
    if take == 0 {
        return Vec::new();
    }
    let mut order = identity_order(n);
    if take < n {
        select_nth(&mut order, scores, take - 1);
    }
    sort_range(&mut order, scores, 0, take);
    let ghost sorted = order@;
    order.truncate(take);
    proof {
        assert forall|i: int, m: int|
            #![trigger order@[i], is_picked(order@, m)]
            0 <= i < order@.len() && 0 <= m < scores@.len() && !is_picked(
            order@,
            m,
        ) implies outranks(
            scores@,
            order@[i] as int,
            m,
        ) by {
            assert(sorted.contains(m as usize));
            let q = choose|q: int| 0 <= q < sorted.len() && sorted[q] == m as usize;
            if q < take {
                assert(order@[q] == m);
            }
            assert(outranks(scores@, sorted[i] as int, sorted[q] as int));
        }
    }
    order
}

} // verus!
