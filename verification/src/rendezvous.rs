//! The selector: a set of nodes and a hash builder.
//!
//! For a key, every node gets a score: the digest of the key and the node,
//! fed in that order into a fresh accumulator of the hash builder. The node
//! with the best score is the pick. Between nodes of equal score the one that
//! is stored later wins, for one pick and for the best `k` alike.
//!
//! What a hash builder returns is not known here. The functions that take a
//! key say what holds of every outcome; the functions that take the scores say
//! exactly which nodes are picked.

use crate::hashing::{digest, feed, fresh_random_state, start_hasher};
use crate::members::{distinct, push_distinct, take_out, with_node, with_nodes, without_node};
use crate::laws::{lemma_all_nodes_picked, lemma_picks_are_members};
use crate::rank::{is_top, is_top_k};
use crate::select::{select_top, select_top_k};
use std::collections::hash_map::RandomState;
use std::fmt::Debug;
use std::hash::{BuildHasher, Hash};
use vstd::laws_eq::obeys_concrete_eq;
use vstd::prelude::*;

verus! {

/// The nodes that stand at the places `at`, in the order of `at`.
pub open spec fn nodes_at<N>(nodes: Seq<N>, at: Seq<usize>) -> Seq<N> {
    Seq::new(at.len(), |i: int| nodes[at[i] as int])
}

/// `node` is the pick among `nodes` with the scores `scores`: it stands at the
/// best position.
pub open spec fn is_pick<N>(nodes: Seq<N>, scores: Seq<u64>, node: N) -> bool {
    exists|t: int| #[trigger] is_top(scores, t) && nodes[t] == node
}

/// `picks` are the best `min(k, n)` among `nodes` with the scores `scores`,
/// the best first.
pub open spec fn are_picks<N>(nodes: Seq<N>, scores: Seq<u64>, k: nat, picks: Seq<N>) -> bool {
    exists|at: Seq<usize>| #[trigger] is_top_k(scores, k, at) && picks == nodes_at(nodes, at)
}

/// A rendezvous selector over nodes of type `N`, scored with hash builder `S`.
#[derive(Debug)]
pub struct Rendezvous<N, S = RandomState> {
    nodes: Vec<N>,
    build: S,
}

impl<N, S> View for Rendezvous<N, S> {
    type V = Seq<N>;

    /// The nodes, in the order in which they are stored.
    closed spec fn view(&self) -> Seq<N> {
        self.nodes@
    }
}

impl<N, S> Rendezvous<N, S> {
    /// No node is held twice.
    pub open spec fn wf(&self) -> bool {
        self@.no_duplicates()
    }

    /// The hash builder, which stays the same for the life of the selector.
    pub closed spec fn builder(&self) -> S {
        self.build
    }
}

impl<N: Clone, S: Clone> Clone for Rendezvous<N, S> {
    /// A selector over a clone of each node, in the same order, with a clone
    /// of the hash builder.
    fn clone(&self) -> (r: Self)
        ensures
            r@.len() == self@.len(),
            forall|i: int| 0 <= i < self@.len() ==> cloned::<N>(self@[i], #[trigger] r@[i]),
            cloned::<S>(self.builder(), r.builder()),
    {
        Self { nodes: self.nodes.clone(), build: self.build.clone() }
    }
}

impl<N> Rendezvous<N, RandomState> where N: Hash + Eq {
    /// A selector without nodes, with a hash builder of freshly drawn keys.
    pub fn new() -> (r: Self)
        ensures
            r@ == Seq::<N>::empty(),
            r.wf(),
    {
        Self { nodes: Vec::new(), build: fresh_random_state() }
    }

    /// A selector over the entries of `nodes`, with a hash builder of freshly
    /// drawn keys. The nodes keep their order; an entry that occurred before
    /// is passed over.
    pub fn from_nodes(nodes: Vec<N>) -> (r: Self)
        requires
            obeys_concrete_eq::<N>(),
        ensures
            r.wf(),
            r@ == with_nodes(Seq::empty(), nodes@),
    {
        Self { nodes: distinct(nodes), build: fresh_random_state() }
    }
}

impl<N> Default for Rendezvous<N, RandomState> where N: Hash + Eq {
    fn default() -> (r: Self)
        ensures
            r@ == Seq::<N>::empty(),
            r.wf(),
    {
        Self::new()
    }
}

impl<N, S> Rendezvous<N, S> where
    N: Hash + Eq + PartialOrd + Debug,
    S: BuildHasher + Clone,
 {
    /// A selector over the entries of `nodes`, with the hash builder `build`.
    /// The nodes keep their order; an entry that occurred before is passed
    /// over.
    pub fn from_nodes_and_hasher(nodes: Vec<N>, build: S) -> (r: Self)
        requires
            obeys_concrete_eq::<N>(),
        ensures
            r.wf(),
            r@ == with_nodes(Seq::empty(), nodes@),
            r.builder() == build,
    {
        Self { nodes: distinct(nodes), build }
    }

    /// Adds `node` unless an equal node is held already, and says whether it
    /// was added.
    pub fn add_node(&mut self, node: N) -> (added: bool)
        requires
            obeys_concrete_eq::<N>(),
            old(self).wf(),
        ensures
            final(self).wf(),
            added == !old(self)@.contains(node),
            final(self)@ == with_node(old(self)@, node),
            final(self).builder() == old(self).builder(),
    {
        push_distinct(&mut self.nodes, node)
    }

    /// Removes the node equal to `node`, if one is held, and says whether one
    /// was removed. The node that was stored last takes the place of the
    /// removed one.
    pub fn remove_node(&mut self, node: &N) -> (removed: bool)
        requires
            obeys_concrete_eq::<N>(),
            old(self).wf(),
        ensures
            final(self).wf(),
            removed == old(self)@.contains(*node),
            final(self)@ == without_node(old(self)@, *node),
            !final(self)@.contains(*node),
            final(self)@.len() == old(self)@.len() - if removed { 1int } else { 0int },
            forall|other: N|
                other != *node ==> (final(self)@.contains(other) <==> old(self)@.contains(other)),
            final(self).builder() == old(self).builder(),
    {
        take_out(&mut self.nodes, node)
    }

    /// The weight of `node` for `key`: both are fed into a fresh accumulator
    /// of `build`, the key first, and the digest is the score.
    fn hrw_score<K: Hash>(key: &K, node: &N, build: &S) -> u64 {
        let mut h = start_hasher(build);
        feed(key, &mut h);
        feed(node, &mut h);
        digest(&h)
    }

    /// The scores of the nodes for `key`, in the order in which the nodes are
    /// stored.
    pub fn scores<K: Hash>(&self, key: &K) -> (scores: Vec<u64>)
        ensures
            scores@.len() == self@.len(),
    {
        let n = self.nodes.len();
        let mut scores: Vec<u64> = Vec::with_capacity(n);
        let mut i: usize = 0;
        while i < n
            invariant
                n == self.nodes@.len(),
                i <= n,
                scores@.len() == i,
            decreases n - i,
        {
            scores.push(Self::hrw_score(key, &self.nodes[i], &self.build));
            i += 1;
        }
        scores
    }

    /// The pick for the given scores, where `scores[i]` is the score of the
    /// node stored at place `i`: the node with the best score, and of several
    /// such the one stored last. `None` when there is no node.
    pub fn pick_top_scored(&self, scores: &[u64]) -> (r: Option<&N>)
        requires
            scores@.len() == self@.len(),
        ensures
            r is None <==> self@.len() == 0,
            r matches Some(node) ==> is_pick(self@, scores@, *node),
    {
        match select_top(scores) {
            Some(t) => Some(&self.nodes[t]),
            None => None,
        }
    }

    /// The best `min(k, n)` nodes for the given scores, the best first, where
    /// `scores[i]` is the score of the node stored at place `i`. Of two nodes
    /// with the same score the one stored later comes first.
    pub fn pick_top_k_scored(&self, scores: &[u64], k: usize) -> (r: Vec<&N>)
        requires
            scores@.len() == self@.len(),
        ensures
            are_picks(self@, scores@, k as nat, r@.unref()),
    {
        let at = select_top_k(scores, k);
        let mut picks: Vec<&N> = Vec::with_capacity(at.len());
        let mut i: usize = 0;
        while i < at.len()
            invariant
                is_top_k(scores@, k as nat, at@),
                scores@.len() == self.nodes@.len(),
                i <= at@.len(),
                picks@.len() == i,
                forall|j: int| 0 <= j < i ==> *picks@[j] == self.nodes@[at@[j] as int],
            decreases at@.len() - i,
        {
            picks.push(&self.nodes[at[i]]);
            i += 1;
        }
        proof {
            assert(picks@.unref() == nodes_at(self@, at@));
        }
        picks
    }

    /// The node that is responsible for `key`: the one with the best score.
    /// `None` when there is no node.
    pub fn pick_top<K: Hash>(&self, key: &K) -> (r: Option<&N>)
        ensures
            r is None <==> self@.len() == 0,
            r matches Some(node) ==> self@.contains(*node),
    {
        let scores = self.scores(key);
        self.pick_top_scored(scores.as_slice())
    }

    /// The `min(k, n)` nodes with the best scores for `key`, the best first.
    pub fn pick_top_k<K: Hash>(&self, key: &K, k: usize) -> (r: Vec<&N>)
        ensures
            r@.len() == if k <= self@.len() { k as nat } else { self@.len() },
            forall|i: int| 0 <= i < r@.len() ==> self@.contains(*#[trigger] r@[i]),
            self.wf() ==> r@.unref().no_duplicates(),
            k >= self@.len() ==> forall|node: N|
                self@.contains(node) ==> #[trigger] r@.unref().contains(node),
            exists|scores: Seq<u64>|
                scores.len() == self@.len() && #[trigger] are_picks(
                    self@,
                    scores,
                    k as nat,
                    r@.unref(),
                ),
    {
        let scores = self.scores(key);
        let r = self.pick_top_k_scored(scores.as_slice(), k);
        proof {
            lemma_picks_are_members(self@, scores@, k as nat, r@.unref());
            if k >= self@.len() {
                lemma_all_nodes_picked(self@, scores@, k as nat, r@.unref());
            }
            assert forall|i: int| 0 <= i < r@.len() implies self@.contains(*#[trigger] r@[i]) by {
                assert(r@.unref()[i] == *r@[i]);
            }
        }
        r
    }

    /// The number of nodes.
    pub fn len(&self) -> (n: usize)
        ensures
            n == self@.len(),
    {
        self.nodes.len()
    }

    /// Whether there is no node.
    pub fn is_empty(&self) -> (empty: bool)
        ensures
            empty == (self@.len() == 0),
    {
        self.nodes.is_empty()
    }

    /// The nodes, in the order in which they are stored.
    pub fn nodes(&self) -> (nodes: &[N])
        ensures
            nodes@ == self@,
    {
        self.nodes.as_slice()
    }
}

} // verus!
