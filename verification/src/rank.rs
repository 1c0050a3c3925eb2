//! The ranking of scored positions.
//!
//! A score sequence gives each position `0..n` a 64-bit weight. Positions are
//! ranked by weight, the highest first; between two positions of equal weight
//! the later one comes first. The ranking is therefore a strict total order on
//! positions, and the best position and the best `k` positions are unique.

use crate::members::swap_removed;
use vstd::prelude::*;
use vstd::seq_lib::seq_to_set_is_finite;
use vstd::set_lib::{lemma_int_range, lemma_len_subset, lemma_subset_equality, set_int_range};

verus! {

/// Position `a` is ranked before position `b`: it has the higher score, or the
/// same score and the later position.
pub open spec fn outranks(scores: Seq<u64>, a: int, b: int) -> bool {
    scores[a] > scores[b] || (scores[a] == scores[b] && a > b)
}

/// Position `t` is ranked before every other position of `scores`.
pub open spec fn is_top(scores: Seq<u64>, t: int) -> bool {
    &&& 0 <= t < scores.len()
    &&& forall|j: int| 0 <= j < scores.len() && j != t ==> outranks(scores, t, j)
}

/// Position `m` is one of `picks`.
pub open spec fn is_picked(picks: Seq<usize>, m: int) -> bool {
    exists|i: int| 0 <= i < picks.len() && #[trigger] picks[i] == m
}

/// `picks` holds the `min(k, n)` best positions of `scores`, the best first:
/// each pick is ranked before the picks that follow it and before every
/// position that was not picked.
pub open spec fn is_top_k(scores: Seq<u64>, k: nat, picks: Seq<usize>) -> bool {
    &&& picks.len() == if k <= scores.len() { k } else { scores.len() }
    &&& forall|i: int| 0 <= i < picks.len() ==> (#[trigger] picks[i]) < scores.len()
    &&& forall|i: int, j: int|
        0 <= i < j < picks.len() ==> outranks(scores, picks[i] as int, picks[j] as int)
    &&& forall|i: int, m: int|
        #![trigger picks[i], is_picked(picks, m)]
        0 <= i < picks.len() && 0 <= m < scores.len() && !is_picked(picks, m) ==> outranks(
            scores,
            picks[i] as int,
            m,
        )
}

/// Executable form of [`outranks`].
pub fn ranks_before(scores: &[u64], a: usize, b: usize) -> (r: bool)
    requires
        a < scores.len(),
        b < scores.len(),
    ensures
        r == outranks(scores@, a as int, b as int),
{
    scores[a] > scores[b] || (scores[a] == scores[b] && a > b)
}

/// The best position is unique.
pub proof fn lemma_top_unique(scores: Seq<u64>, a: int, b: int)
    requires
        is_top(scores, a),
        is_top(scores, b),
    ensures
        a == b,
{
    if a != b {
        assert(outranks(scores, a, b));
        assert(outranks(scores, b, a));
    }
}

/// The best position holds the highest score, and no later position holds it
/// too.
pub proof fn lemma_top_has_best_score(scores: Seq<u64>, t: int)
    requires
        is_top(scores, t),
    ensures
        forall|j: int| 0 <= j < scores.len() ==> #[trigger] scores[j] <= scores[t],
        forall|j: int| t < j < scores.len() ==> #[trigger] scores[j] < scores[t],
{
    assert forall|j: int| 0 <= j < scores.len() implies #[trigger] scores[j] <= scores[t] by {
        if j != t {
            assert(outranks(scores, t, j));
        }
    }
    assert forall|j: int| t < j < scores.len() implies #[trigger] scores[j] < scores[t] by {
        assert(outranks(scores, t, j));
    }
}

/// With one more score at the end, the best position is the new one if its
/// score is at least the best so far, and else stays where it was.
pub proof fn lemma_top_after_push(scores: Seq<u64>, t: int, x: u64)
    requires
        is_top(scores, t),
    ensures
        is_top(
            scores.push(x),
            if x >= scores[t] {
                scores.len() as int
            } else {
                t
            },
        ),
{
    let grown = scores.push(x);
    let n = scores.len() as int;
    let best = if x >= scores[t] {
        n
    } else {
        t
    };
    assert forall|j: int| 0 <= j < grown.len() && j != best implies outranks(grown, best, j) by {
        if j < n && j != t {
            assert(outranks(scores, t, j));
        }
    }
}

/// Where there is a score, there is a best position.
pub proof fn lemma_top_exists(scores: Seq<u64>)
    requires
        scores.len() > 0,
    ensures
        exists|t: int| is_top(scores, t),
    decreases scores.len(),
{
    if scores.len() == 1 {
        assert(is_top(scores, 0));
    } else {
        let front = scores.drop_last();
        lemma_top_exists(front);
        let t = choose|t: int| is_top(front, t);
        lemma_top_after_push(front, t, scores.last());
        assert(front.push(scores.last()) == scores);
    }
}

/// When the score at `i` is removed and the last score takes its place, the
/// best position, if it was not `i`, holds the same score as before: it
/// stays, or moves to `i` if it was the last. This fails only where the best
/// position was the last and a position after `i` held the same score; such
/// score sequences are left out.
pub proof fn lemma_top_after_swap_remove(scores: Seq<u64>, t: int, i: int)
    requires
        is_top(scores, t),
        0 <= i < scores.len(),
        i != t,
        t == scores.len() - 1 ==> forall|j: int|
            i < j < scores.len() - 1 ==> #[trigger] scores[j] != scores[t],
    ensures
        is_top(
            swap_removed(scores, i),
            if t == scores.len() - 1 {
                i
            } else {
                t
            },
        ),
{
    let rest = swap_removed(scores, i);
    let last = scores.len() - 1;
    let best = if t == last {
        i
    } else {
        t
    };
    assert forall|j: int| 0 <= j < rest.len() && j != best implies outranks(rest, best, j) by {
        if t == last {
            assert(outranks(scores, t, j));
            if j > i {
                assert(scores[j] != scores[t]);
            }
        } else if j == i {
            assert(outranks(scores, t, last));
        } else {
            assert(outranks(scores, t, j));
        }
    }
}

/// No position is picked twice.
pub proof fn lemma_picks_distinct(scores: Seq<u64>, k: nat, picks: Seq<usize>)
    requires
        is_top_k(scores, k, picks),
    ensures
        picks.no_duplicates(),
{
    assert forall|i: int, j: int|
        0 <= i < picks.len() && 0 <= j < picks.len() && i != j implies picks[i] != picks[j] by {
        if i < j {
            assert(outranks(scores, picks[i] as int, picks[j] as int));
        } else {
            assert(outranks(scores, picks[j] as int, picks[i] as int));
        }
    }
}

/// Along the best `k` positions the scores never rise, and of two picks with
/// the same score the later position comes first.
pub proof fn lemma_picks_descend(scores: Seq<u64>, k: nat, picks: Seq<usize>)
    requires
        is_top_k(scores, k, picks),
    ensures
        forall|i: int, j: int|
            0 <= i < j < picks.len() ==> scores[#[trigger] picks[i] as int]
                >= scores[#[trigger] picks[j] as int],
        forall|i: int, j: int|
            0 <= i < j < picks.len() && scores[#[trigger] picks[i] as int]
                == scores[#[trigger] picks[j] as int]
                ==> picks[i] > picks[j],
{
    assert forall|i: int, j: int|
        0 <= i < j < picks.len() implies scores[#[trigger] picks[i] as int]
        >= scores[#[trigger] picks[j] as int] && (scores[picks[i] as int] == scores[picks[j] as int]
        ==> picks[i] > picks[j]) by {
        assert(outranks(scores, picks[i] as int, picks[j] as int));
    }
}

/// Where `k` is at least the number of positions, every position is picked.
pub proof fn lemma_all_picked(scores: Seq<u64>, k: nat, picks: Seq<usize>)
    requires
        is_top_k(scores, k, picks),
        k >= scores.len(),
    ensures
        forall|m: int| 0 <= m < scores.len() ==> #[trigger] is_picked(picks, m),
{
    let n = scores.len();
    let places = picks.map_values(|p: usize| p as int);
    lemma_picks_distinct(scores, k, picks);
    places.unique_seq_to_set();
    lemma_int_range(0, n as int);
    let all = set_int_range(0, n as int);
    assert(places.to_set().subset_of(all)) by {
        assert forall|x: int| places.to_set().contains(x) implies all.contains(x) by {
            let i = places.index_of(x);
            assert(places[i] == picks[i]);
        }
    }
    lemma_subset_equality(places.to_set(), all);
    assert forall|m: int| 0 <= m < n implies #[trigger] is_picked(picks, m) by {
        assert(all.contains(m));
        let i = places.index_of(m);
        assert(picks[i] == m);
    }
}

/// The first of the best `k` positions is the best position.
pub proof fn lemma_first_pick_is_top(scores: Seq<u64>, k: nat, picks: Seq<usize>)
    requires
        is_top_k(scores, k, picks),
        k > 0,
        scores.len() > 0,
    ensures
        is_top(scores, picks[0] as int),
{
    assert forall|j: int| 0 <= j < scores.len() && j != picks[0] implies outranks(
        scores,
        picks[0] as int,
        j,
    ) by {
        if is_picked(picks, j) {
            let p = choose|p: int| 0 <= p < picks.len() && #[trigger] picks[p] == j;
            assert(outranks(scores, picks[0] as int, picks[p] as int));
        }
    }
}

/// Every prefix of the best `k` positions is the best positions of its
/// length.
pub proof fn lemma_fewer_picks(scores: Seq<u64>, k: nat, picks: Seq<usize>, fewer: nat)
    requires
        is_top_k(scores, k, picks),
        fewer <= k,
    ensures
        is_top_k(
            scores,
            fewer,
            picks.take(
                if fewer <= picks.len() {
                    fewer as int
                } else {
                    picks.len() as int
                },
            ),
        ),
{
    let len = if fewer <= picks.len() {
        fewer as int
    } else {
        picks.len() as int
    };
    let front = picks.take(len);
    assert forall|i: int, m: int|
        #![trigger front[i], is_picked(front, m)]
        0 <= i < front.len() && 0 <= m < scores.len() && !is_picked(front, m) implies outranks(
        scores,
        front[i] as int,
        m,
    ) by {
        assert(front[i] == picks[i]);
        if is_picked(picks, m) {
            let p = choose|p: int| 0 <= p < picks.len() && #[trigger] picks[p] == m;
            if p < len {
                assert(front[p] == m);
            }
            assert(outranks(scores, picks[i] as int, picks[p] as int));
        }
    }
}

/// Two sequences of best positions agree at every place up to `i`.
proof fn lemma_same_pick(scores: Seq<u64>, k: nat, a: Seq<usize>, b: Seq<usize>, i: int)
    requires
        is_top_k(scores, k, a),
        is_top_k(scores, k, b),
        0 <= i < a.len(),
    ensures
        a[i] == b[i],
    decreases i,
{
    assert forall|j: int| 0 <= j < i implies a[j] == b[j] by {
        lemma_same_pick(scores, k, a, b, j);
    }
    lemma_picks_distinct(scores, k, a);
    lemma_picks_distinct(scores, k, b);
    if a[i] != b[i] {
        if outranks(scores, a[i] as int, b[i] as int) {
            lemma_outranked_is_later(scores, k, a, b, i);
        } else {
            lemma_outranked_is_later(scores, k, b, a, i);
        }
    }
}

/// Where two sequences of best positions agree before place `i`, the entry of
/// the one at `i` is not ranked before the entry of the other.
proof fn lemma_outranked_is_later(scores: Seq<u64>, k: nat, a: Seq<usize>, b: Seq<usize>, i: int)
    requires
        is_top_k(scores, k, a),
        is_top_k(scores, k, b),
        a.no_duplicates(),
        0 <= i < a.len(),
        forall|j: int| 0 <= j < i ==> a[j] == b[j],
        a[i] != b[i],
    ensures
        !outranks(scores, a[i] as int, b[i] as int),
{
    if is_picked(b, a[i] as int) {
        let p = choose|p: int| 0 <= p < b.len() && #[trigger] b[p] == a[i];
        if p < i {
            assert(a[p] == b[p]);
        } else {
            assert(outranks(scores, b[i] as int, b[p] as int));
        }
    } else {
        assert(outranks(scores, b[i] as int, a[i] as int));
    }
}

/// The best `k` positions are unique, as a sequence.
pub proof fn lemma_top_k_unique(scores: Seq<u64>, k: nat, a: Seq<usize>, b: Seq<usize>)
    requires
        is_top_k(scores, k, a),
        is_top_k(scores, k, b),
    ensures
        a == b,
{
    assert forall|i: int| 0 <= i < a.len() implies a[i] == b[i] by {
        lemma_same_pick(scores, k, a, b, i);
    }
    assert(a =~= b);
}

/// Among the positions below `bound` that are not picked, if there is one,
/// there is a best one.
proof fn lemma_best_unpicked(scores: Seq<u64>, picks: Seq<usize>, bound: int) -> (best: int)
    requires
        0 <= bound <= scores.len(),
        exists|m: int| 0 <= m < bound && !is_picked(picks, m),
    ensures
        0 <= best < bound,
        !is_picked(picks, best),
        forall|m: int|
            0 <= m < bound && m != best && !#[trigger] is_picked(picks, m) ==> outranks(
                scores,
                best,
                m,
            ),
    decreases bound,
{
    let last = bound - 1;
    if exists|m: int| 0 <= m < last && !is_picked(picks, m) {
        let before = lemma_best_unpicked(scores, picks, last);
        if is_picked(picks, last) || outranks(scores, before, last) {
            before
        } else {
            last
        }
    } else {
        last
    }
}

/// Fewer picks than positions leave a position that is not picked.
proof fn lemma_some_unpicked(scores: Seq<u64>, k: nat, picks: Seq<usize>)
    requires
        is_top_k(scores, k, picks),
        picks.len() < scores.len(),
    ensures
        exists|m: int| 0 <= m < scores.len() && !is_picked(picks, m),
{
    let n = scores.len();
    if forall|m: int| 0 <= m < n ==> is_picked(picks, m) {
        let places = picks.map_values(|p: usize| p as int);
        let all = set_int_range(0, n as int);
        lemma_int_range(0, n as int);
        assert(all.subset_of(places.to_set())) by {
            assert forall|m: int| all.contains(m) implies places.to_set().contains(m) by {
                assert(is_picked(picks, m));
                let i = choose|i: int| 0 <= i < picks.len() && #[trigger] picks[i] == m;
                assert(places[i] == m);
            }
        }
        seq_to_set_is_finite(places);
        lemma_len_subset(all, places.to_set());
        places.lemma_cardinality_of_set();
    }
}

/// The best `k` positions exist, whatever `k` is.
pub proof fn lemma_top_k_exists(scores: Seq<u64>, k: nat)
    requires
        scores.len() <= usize::MAX,
    ensures
        exists|picks: Seq<usize>| is_top_k(scores, k, picks),
    decreases k,
{
    if k == 0 {
        assert(is_top_k(scores, k, Seq::<usize>::empty()));
    } else {
        let less = (k - 1) as nat;
        lemma_top_k_exists(scores, less);
        let fewer = choose|picks: Seq<usize>| is_top_k(scores, less, picks);
        if less >= scores.len() {
            assert(is_top_k(scores, k, fewer));
        } else {
            lemma_some_unpicked(scores, less, fewer);
            let best = lemma_best_unpicked(scores, fewer, scores.len() as int);
            let picks = fewer.push(best as usize);
            assert forall|i: int, j: int| 0 <= i < j < picks.len() implies outranks(
                scores,
                picks[i] as int,
                picks[j] as int,
            ) by {
                if j == fewer.len() {
                    assert(fewer[i] == picks[i]);
                    assert(!is_picked(fewer, best));
                } else {
                    assert(outranks(scores, fewer[i] as int, fewer[j] as int));
                }
            }
            assert forall|i: int, m: int|
                #![trigger picks[i], is_picked(picks, m)]
                0 <= i < picks.len() && 0 <= m < scores.len() && !is_picked(
                picks,
                m,
            ) implies outranks(
                scores,
                picks[i] as int,
                m,
            ) by {
                if is_picked(fewer, m) {
                    let at = choose|at: int| 0 <= at < fewer.len() && #[trigger] fewer[at] == m;
                    assert(picks[at] == m);
                }
                if m == best {
                    assert(picks[fewer.len() as int] == m);
                }
                if i < fewer.len() {
                    assert(fewer[i] == picks[i]);
                }
            }
            assert(is_top_k(scores, k, picks));
        }
    }
}

} // verus!
