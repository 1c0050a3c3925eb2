//! Membership: a list of nodes in which no node stands twice.
//!
//! A node is found, added and removed by the node type's `==`, which must be
//! equality of values (`obeys_concrete_eq`).

use vstd::laws_eq::obeys_concrete_eq;
use vstd::prelude::*;

verus! {

/// `nodes` with `node` added at the end, unless it is there already.
pub open spec fn with_node<N>(nodes: Seq<N>, node: N) -> Seq<N> {
    if nodes.contains(node) {
        nodes
    } else {
        nodes.push(node)
    }
}

/// `nodes` with each entry of `more` added in turn.
pub open spec fn with_nodes<N>(nodes: Seq<N>, more: Seq<N>) -> Seq<N>
    decreases more.len(),
{
    if more.len() == 0 {
        nodes
    } else {
        with_node(with_nodes(nodes, more.drop_last()), more.last())
    }
}

/// `nodes` without the entry at place `i`, which the last entry takes.
pub open spec fn swap_removed<N>(nodes: Seq<N>, i: int) -> Seq<N> {
    nodes.update(i, nodes.last()).drop_last()
}

/// `nodes` without `node`, whose place the last entry takes.
pub open spec fn without_node<N>(nodes: Seq<N>, node: N) -> Seq<N> {
    if nodes.contains(node) {
        swap_removed(nodes, nodes.index_of(node))
    } else {
        nodes
    }
}

/// The first place at which `node` stands in `nodes`, if it stands there.
pub fn position<N: PartialEq>(nodes: &Vec<N>, node: &N) -> (at: Option<usize>)
    requires
        obeys_concrete_eq::<N>(),
    ensures
        at is None <==> !nodes@.contains(*node),
        at matches Some(i) ==> i < nodes@.len() && nodes@[i as int] == *node && forall|j: int|
            0 <= j < i ==> nodes@[j] != *node,
{
    let n = nodes.len();
    let mut i: usize = 0;
    while i < n
        invariant
            obeys_concrete_eq::<N>(),
            n == nodes@.len(),
            i <= n,
            forall|j: int| 0 <= j < i ==> nodes@[j] != *node,
        decreases n - i,
    {
        proof {
            reveal(obeys_concrete_eq);
        }
        if nodes[i] == *node {
            return Some(i);
        }
        i += 1;
    }
    None
}

/// Adds `node` at the end of `nodes` unless it is there already, and says
/// whether it was added.
pub fn push_distinct<N: PartialEq>(nodes: &mut Vec<N>, node: N) -> (added: bool)
    requires
        obeys_concrete_eq::<N>(),
    ensures
        added == !old(nodes)@.contains(node),
        final(nodes)@ == with_node(old(nodes)@, node),
        old(nodes)@.no_duplicates() ==> final(nodes)@.no_duplicates(),
{
    if position(nodes, &node).is_some() {
        false
    } else {
        nodes.push(node);
        true
    }
}

/// Removes `node` from `nodes` if it is there, moving the last entry into its
/// place, and says whether it was removed.
pub fn take_out<N: PartialEq>(nodes: &mut Vec<N>, node: &N) -> (removed: bool)
    requires
        obeys_concrete_eq::<N>(),
        old(nodes)@.no_duplicates(),
    ensures
        removed == old(nodes)@.contains(*node),
        final(nodes)@ == without_node(old(nodes)@, *node),
        final(nodes)@.no_duplicates(),
        !final(nodes)@.contains(*node),
        final(nodes)@.len() == old(nodes)@.len() - if removed { 1int } else { 0int },
        forall|other: N|
            other != *node ==> (final(nodes)@.contains(other) <==> old(nodes)@.contains(other)),
{
    match position(nodes, node) {
        Some(i) => {
            proof {
                lemma_swap_removed(nodes@, i as int);
            }
            nodes.swap_remove(i);
            true
        },
        None => false,
    }
}

/// Removing one entry of a list without duplicates leaves the other entries,
/// each once.
pub proof fn lemma_swap_removed<N>(nodes: Seq<N>, i: int)
    requires
        nodes.no_duplicates(),
        0 <= i < nodes.len(),
    ensures
        swap_removed(nodes, i) == without_node(nodes, nodes[i]),
        swap_removed(nodes, i).no_duplicates(),
        swap_removed(nodes, i).len() == nodes.len() - 1,
        !swap_removed(nodes, i).contains(nodes[i]),
        forall|other: N|
            other != nodes[i] ==> (swap_removed(nodes, i).contains(other) <==> nodes.contains(
                other,
            )),
{
    let rest = swap_removed(nodes, i);
    let last = nodes.len() - 1;
    assert(nodes.contains(nodes[i]));
    assert(nodes.index_of(nodes[i]) == i);
    assert forall|other: N| other != nodes[i] && nodes.contains(other) implies rest.contains(
        other,
    ) by {
        let j = nodes.index_of(other);
        if j == last {
            assert(rest[i] == other);
        } else {
            assert(rest[j] == other);
        }
    }
    assert forall|other: N| rest.contains(other) implies nodes.contains(other) && other
        != nodes[i] by {
        let j = rest.index_of(other);
        if j == i {
            assert(nodes[last] == other);
        } else {
            assert(nodes[j] == other);
        }
    }
}

/// The entries of `list` in their order, each at its first occurrence only.
pub fn distinct<N: PartialEq>(list: Vec<N>) -> (nodes: Vec<N>)
    requires
        obeys_concrete_eq::<N>(),
    ensures
        nodes@ == with_nodes(Seq::empty(), list@),
        nodes@.no_duplicates(),
{
    let ghost all = list@;
    let mut nodes: Vec<N> = Vec::new();
    for node in it: list
        invariant
            obeys_concrete_eq::<N>(),
            it.seq() == all,
            nodes@ == with_nodes(Seq::empty(), all.take(it.index() as int)),
            nodes@.no_duplicates(),
    {
        proof {
            let i = it.index() as int;
            assert(all.take(i + 1).drop_last() == all.take(i));
        }
        push_distinct(&mut nodes, node);
    }
    proof {
        assert(all.take(all.len() as int) == all);
    }
    nodes
}

} // verus!
