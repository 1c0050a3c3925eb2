//! What holds of the selector as a whole: laws that relate several of its
//! functions, stated over their models.
//!
//! A selector is modelled by the sequence of its nodes, and a key by the
//! sequence of scores that it gives to the nodes, place by place. Adding a
//! node appends a score; removing the node at a place moves the last score to
//! that place, as it moves the last node.

use crate::members::{swap_removed, with_node, with_nodes, without_node};
use crate::rank::{
    is_picked, is_top, is_top_k, lemma_all_picked, lemma_first_pick_is_top, lemma_picks_descend,
    lemma_picks_distinct, lemma_top_after_push, lemma_top_after_swap_remove,
    lemma_top_has_best_score, lemma_top_k_unique, lemma_top_unique,
};
use crate::rendezvous::{are_picks, is_pick, nodes_at};
use vstd::prelude::*;

verus! {

/// Adding nodes one after another never stores a node twice, and stores
/// exactly the nodes that were there or were added.
pub proof fn lemma_adds_hold_each_once<N>(start: Seq<N>, adds: Seq<N>)
    requires
        start.no_duplicates(),
    ensures
        with_nodes(start, adds).no_duplicates(),
        forall|x: N| #[trigger]
            with_nodes(start, adds).contains(x) <==> start.contains(x) || adds.contains(x),
    decreases adds.len(),
{
    if adds.len() > 0 {
        let front = adds.drop_last();
        let prev = with_nodes(start, front);
        let now = with_nodes(start, adds);
        lemma_adds_hold_each_once(start, front);
        assert(now == with_node(prev, adds.last()));
        assert forall|x: N| #[trigger] now.contains(x) <==> start.contains(x) || adds.contains(
            x,
        ) by {
            if now.contains(x) {
                let i = now.index_of(x);
                if i < prev.len() {
                    assert(prev[i] == x);
                    assert(prev.contains(x));
                    if front.contains(x) {
                        let j = front.index_of(x);
                        assert(adds[j] == x);
                    }
                } else {
                    assert(adds[adds.len() - 1] == x);
                }
            }
            if start.contains(x) {
                assert(prev.contains(x));
                let i = prev.index_of(x);
                assert(now[i] == x);
            }
            if adds.contains(x) {
                let j = adds.index_of(x);
                if j < front.len() {
                    assert(front[j] == x);
                    assert(prev.contains(x));
                    let i = prev.index_of(x);
                    assert(now[i] == x);
                } else if prev.contains(x) {
                    let i = prev.index_of(x);
                    assert(now[i] == x);
                } else {
                    assert(now[prev.len() as int] == x);
                }
            }
        }
    }
}

/// After any sequence of additions to a selector without nodes, the number of
/// nodes is the number of distinct values that were added, and so never
/// exceeds it.
pub proof fn lemma_count_of_adds<N>(adds: Seq<N>)
    ensures
        with_nodes(Seq::empty(), adds).len() == adds.to_set().len(),
        with_nodes(Seq::empty(), adds).len() <= adds.len(),
{
    let nodes = with_nodes(Seq::<N>::empty(), adds);
    lemma_adds_hold_each_once(Seq::<N>::empty(), adds);
    nodes.unique_seq_to_set();
    assert(nodes.to_set() =~= adds.to_set()) by {
        assert forall|x: N| nodes.to_set().contains(x) <==> adds.to_set().contains(x) by {
            assert(nodes.contains(x) <==> Seq::<N>::empty().contains(x) || adds.contains(x));
        }
    }
    adds.lemma_cardinality_of_set();
}

/// For given nodes and scores there is one pick only.
pub proof fn lemma_pick_unique<N>(nodes: Seq<N>, scores: Seq<u64>, a: N, b: N)
    requires
        is_pick(nodes, scores, a),
        is_pick(nodes, scores, b),
    ensures
        a == b,
{
    let s = choose|s: int| #[trigger] is_top(scores, s) && nodes[s] == a;
    let t = choose|t: int| #[trigger] is_top(scores, t) && nodes[t] == b;
    lemma_top_unique(scores, s, t);
}

/// For given nodes and scores there is one sequence of the best `k` nodes
/// only.
pub proof fn lemma_picks_unique<N>(nodes: Seq<N>, scores: Seq<u64>, k: nat, a: Seq<N>, b: Seq<N>)
    requires
        are_picks(nodes, scores, k, a),
        are_picks(nodes, scores, k, b),
    ensures
        a == b,
{
    let s = choose|s: Seq<usize>| #[trigger] is_top_k(scores, k, s) && a == nodes_at(nodes, s);
    let t = choose|t: Seq<usize>| #[trigger] is_top_k(scores, k, t) && b == nodes_at(nodes, t);
    lemma_top_k_unique(scores, k, s, t);
}

/// The best `k` nodes for `k = 1` are the pick alone.
pub proof fn lemma_one_pick_is_the_pick<N>(nodes: Seq<N>, scores: Seq<u64>, pick: N, picks: Seq<N>)
    requires
        is_pick(nodes, scores, pick),
        are_picks(nodes, scores, 1, picks),
    ensures
        picks == seq![pick],
{
    let t = choose|t: int| #[trigger] is_top(scores, t) && nodes[t] == pick;
    let at = choose|at: Seq<usize>| #[trigger]
        is_top_k(scores, 1, at) && picks == nodes_at(nodes, at);
    lemma_first_pick_is_top(scores, 1, at);
    lemma_top_unique(scores, t, at[0] as int);
    assert(picks =~= seq![pick]);
}

/// Without nodes, the best `k` nodes are none, as there is no pick.
pub proof fn lemma_no_picks_without_nodes<N>(nodes: Seq<N>, scores: Seq<u64>, k: nat, picks: Seq<N>)
    requires
        scores.len() == 0,
        are_picks(nodes, scores, k, picks),
    ensures
        picks == Seq::<N>::empty(),
{
    assert(picks =~= Seq::<N>::empty());
}

/// The best `k` nodes are `min(k, n)` nodes of the selector, no node twice,
/// and stand by falling score.
pub proof fn lemma_picks_are_members<N>(nodes: Seq<N>, scores: Seq<u64>, k: nat, picks: Seq<N>)
    requires
        scores.len() == nodes.len(),
        are_picks(nodes, scores, k, picks),
    ensures
        picks.len() == if k <= nodes.len() { k } else { nodes.len() },
        forall|i: int| 0 <= i < picks.len() ==> nodes.contains(#[trigger] picks[i]),
        nodes.no_duplicates() ==> picks.no_duplicates(),
        exists|at: Seq<usize>|
            {
                &&& #[trigger] is_top_k(scores, k, at)
                &&& picks == nodes_at(nodes, at)
                &&& forall|i: int, j: int|
                    0 <= i < j < at.len() ==> scores[#[trigger] at[i] as int]
                        >= scores[#[trigger] at[j] as int]
            },
{
    let at = choose|at: Seq<usize>| #[trigger]
        is_top_k(scores, k, at) && picks == nodes_at(nodes, at);
    lemma_picks_distinct(scores, k, at);
    lemma_picks_descend(scores, k, at);
    assert forall|i: int| 0 <= i < picks.len() implies nodes.contains(#[trigger] picks[i]) by {
        assert(at[i] < scores.len());
        assert(nodes[at[i] as int] == picks[i]);
    }
    if nodes.no_duplicates() {
        assert forall|i: int, j: int|
            0 <= i < picks.len() && 0 <= j < picks.len() && i != j implies picks[i] != picks[j] by {
            assert(at[i] != at[j]);
            assert(at[i] < scores.len() && at[j] < scores.len());
        }
    }
}

/// Where `k` is at least the number of nodes, every node is among the best
/// `k`.
pub proof fn lemma_all_nodes_picked<N>(nodes: Seq<N>, scores: Seq<u64>, k: nat, picks: Seq<N>)
    requires
        scores.len() == nodes.len(),
        are_picks(nodes, scores, k, picks),
        k >= nodes.len(),
    ensures
        forall|node: N| nodes.contains(node) ==> #[trigger] picks.contains(node),
{
    let at = choose|at: Seq<usize>| #[trigger]
        is_top_k(scores, k, at) && picks == nodes_at(nodes, at);
    lemma_all_picked(scores, k, at);
    assert forall|node: N| nodes.contains(node) implies #[trigger] picks.contains(node) by {
        let m = nodes.index_of(node);
        assert(is_picked(at, m));
        let i = choose|i: int| 0 <= i < at.len() && #[trigger] at[i] == m;
        assert(picks[i] == node);
    }
}

/// When a node is added, the pick for a key stays the same unless the new
/// node becomes the pick. Here `x` is the score of the new node; the other
/// nodes keep their scores.
pub proof fn lemma_growth_moves_only_to_new<N>(
    nodes: Seq<N>,
    scores: Seq<u64>,
    node: N,
    x: u64,
    before: N,
    after: N,
)
    requires
        scores.len() == nodes.len(),
        !nodes.contains(node),
        is_pick(nodes, scores, before),
        is_pick(with_node(nodes, node), scores.push(x), after),
    ensures
        after == node || after == before,
{
    let t = choose|t: int| #[trigger] is_top(scores, t) && nodes[t] == before;
    let u = choose|u: int| #[trigger] is_top(scores.push(x), u) && nodes.push(node)[u] == after;
    lemma_top_after_push(scores, t, x);
    let v = if x >= scores[t] {
        scores.len() as int
    } else {
        t
    };
    lemma_top_unique(scores.push(x), u, v);
}

/// When a node is removed, the pick for a key stays the same unless the
/// removed node was the pick. The other nodes keep their scores, and the score
/// of the last node moves with it. This fails only where the pick was the node
/// stored last and a node stored after the removed one had the same score;
/// such selectors are left out.
pub proof fn lemma_removal_keeps_other_picks<N>(
    nodes: Seq<N>,
    scores: Seq<u64>,
    gone: N,
    before: N,
    after: N,
)
    requires
        nodes.no_duplicates(),
        scores.len() == nodes.len(),
        nodes.contains(gone),
        is_pick(nodes, scores, before),
        before != gone,
        before == nodes.last() ==> forall|j: int|
            nodes.index_of(gone) < j < nodes.len() - 1 ==> #[trigger] scores[j] != scores.last(),
        is_pick(without_node(nodes, gone), swap_removed(scores, nodes.index_of(gone)), after),
    ensures
        after == before,
{
    let i = nodes.index_of(gone);
    let t = choose|t: int| #[trigger] is_top(scores, t) && nodes[t] == before;
    let u = choose|u: int| #[trigger]
        is_top(swap_removed(scores, i), u) && swap_removed(nodes, i)[u] == after;
    if t == scores.len() - 1 {
        assert(before == nodes.last());
    }
    lemma_top_after_swap_remove(scores, t, i);
    let v = if t == scores.len() - 1 {
        i
    } else {
        t
    };
    lemma_top_unique(swap_removed(scores, i), u, v);
}

/// `(node, score)` stands at some place of `nodes` and `scores`.
pub open spec fn is_scored<N>(nodes: Seq<N>, scores: Seq<u64>, node: N, score: u64) -> bool {
    exists|i: int| 0 <= i < nodes.len() && #[trigger] nodes[i] == node && scores[i] == score
}

/// The order in which the nodes are stored has no bearing on the pick, as
/// long as no two nodes have the same score: two selectors that hold the same
/// nodes with the same scores, in whatever order, pick the same node.
pub proof fn lemma_pick_ignores_order<N>(
    nodes: Seq<N>,
    scores: Seq<u64>,
    pick: N,
    other_nodes: Seq<N>,
    other_scores: Seq<u64>,
    other_pick: N,
)
    requires
        scores.len() == nodes.len(),
        other_scores.len() == other_nodes.len(),
        forall|i: int, j: int|
            0 <= i < j < scores.len() ==> #[trigger] scores[i] != #[trigger] scores[j],
        forall|i: int|
            0 <= i < nodes.len() ==> is_scored(
                other_nodes,
                other_scores,
                #[trigger] nodes[i],
                scores[i],
            ),
        forall|j: int|
            0 <= j < other_nodes.len() ==> is_scored(
                nodes,
                scores,
                #[trigger] other_nodes[j],
                other_scores[j],
            ),
        is_pick(nodes, scores, pick),
        is_pick(other_nodes, other_scores, other_pick),
    ensures
        pick == other_pick,
{
    let t = choose|t: int| #[trigger] is_top(scores, t) && nodes[t] == pick;
    let u = choose|u: int| #[trigger] is_top(other_scores, u) && other_nodes[u] == other_pick;
    lemma_top_has_best_score(scores, t);
    lemma_top_has_best_score(other_scores, u);
    assert(is_scored(other_nodes, other_scores, nodes[t], scores[t]));
    let j = choose|j: int|
        0 <= j < other_nodes.len() && #[trigger] other_nodes[j] == nodes[t] && other_scores[j]
            == scores[t];
    assert(other_scores[j] <= other_scores[u]);
    assert(is_scored(nodes, scores, other_nodes[u], other_scores[u]));
    let i = choose|i: int|
        0 <= i < nodes.len() && #[trigger] nodes[i] == other_nodes[u] && scores[i]
            == other_scores[u];
    assert(scores[i] <= scores[t]);
    if i < t {
        assert(scores[i] != scores[t]);
    } else if t < i {
        assert(scores[t] != scores[i]);
    }
}

} // verus!
