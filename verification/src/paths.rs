//! Walks, reachability and hop distance over an adjacency map.
//!
//! Everything here is specification and proof: the adjacency map is the
//! mathematical model of a graph store, and `distance` is what a traversal
//! has to compute.

use vstd::prelude::*;
use vstd::seq_lib::seq_to_set_is_finite;
use vstd::set_lib::{full_set_properties, lemma_len_subset, range_set_properties};

verus! {

/// The out-neighbours of `node`, in insertion order; empty when `node` is not a key.
pub open spec fn successors(adj: Map<u32, Seq<u32>>, node: u32) -> Seq<u32> {
    if adj.contains_key(node) {
        adj[node]
    } else {
        Seq::empty()
    }
}

/// The nodes that have at least one outgoing edge.
pub open spec fn nodes_with_out_edges(adj: Map<u32, Seq<u32>>) -> Set<u32> {
    Set::new(|node: u32| successors(adj, node).len() > 0)
}

/// There is at least one edge `from -> to`.
pub open spec fn has_edge(adj: Map<u32, Seq<u32>>, from: u32, to: u32) -> bool {
    successors(adj, from).contains(to)
}

/// The adjacency map after one more edge `from -> to` has been appended.
pub open spec fn with_edge(adj: Map<u32, Seq<u32>>, from: u32, to: u32) -> Map<u32, Seq<u32>> {
    adj.insert(from, successors(adj, from).push(to))
}

/// The adjacency map after the out-edge of `from` at position `index` has
/// been taken away. A node that loses its last out-edge stops being a key.
pub open spec fn without_edge(adj: Map<u32, Seq<u32>>, from: u32, index: int) -> Map<
    u32,
    Seq<u32>,
> {
    let rest = successors(adj, from).remove(index);
    if rest.len() == 0 {
        adj.remove(from)
    } else {
        adj.insert(from, rest)
    }
}

/// Every edge of `smaller` is an edge of `larger`.
pub open spec fn edges_included(smaller: Map<u32, Seq<u32>>, larger: Map<u32, Seq<u32>>) -> bool {
    forall|from: u32, to: u32| #[trigger] has_edge(smaller, from, to) ==> has_edge(larger, from, to)
}

/// Position `i` of `walk` is followed by one of its successors.
pub open spec fn follows_edge(adj: Map<u32, Seq<u32>>, walk: Seq<u32>, i: int) -> bool {
    has_edge(adj, walk[i], walk[i + 1])
}

/// `walk` is a non-empty sequence of nodes, each joined to the next by a forward edge.
pub open spec fn is_walk(adj: Map<u32, Seq<u32>>, walk: Seq<u32>) -> bool {
    &&& walk.len() > 0
    &&& forall|i: int| 0 <= i < walk.len() - 1 ==> #[trigger] follows_edge(adj, walk, i)
}

/// `walk` leads from `source` to `target` over exactly `hops` forward edges.
pub open spec fn connects(
    adj: Map<u32, Seq<u32>>,
    walk: Seq<u32>,
    source: u32,
    target: u32,
    hops: nat,
) -> bool {
    &&& is_walk(adj, walk)
    &&& walk.len() == hops + 1
    &&& walk.first() == source
    &&& walk.last() == target
}

/// Some walk of exactly `hops` forward edges leads from `source` to `target`.
pub open spec fn reaches_in(adj: Map<u32, Seq<u32>>, source: u32, target: u32, hops: nat) -> bool {
    exists|walk: Seq<u32>| connects(adj, walk, source, target, hops)
}

/// `target` can be reached from `source` by following forward edges.
pub open spec fn reachable(adj: Map<u32, Seq<u32>>, source: u32, target: u32) -> bool {
    exists|hops: nat| reaches_in(adj, source, target, hops)
}

/// `hops` is the length of a shortest walk from `source` to `target`.
pub open spec fn is_distance(adj: Map<u32, Seq<u32>>, source: u32, target: u32, hops: nat) -> bool {
    &&& reaches_in(adj, source, target, hops)
    &&& forall|fewer: nat| fewer < hops ==> !reaches_in(adj, source, target, fewer)
}

/// The hop distance from `source` to `target`; meaningful when `target` is reachable.
pub open spec fn distance(adj: Map<u32, Seq<u32>>, source: u32, target: u32) -> nat {
    choose|hops: nat| is_distance(adj, source, target, hops)
}

/// The distance map of `source`: one entry per reachable node, holding its hop distance.
pub open spec fn distances_from(adj: Map<u32, Seq<u32>>, source: u32) -> Map<u32, usize> {
    Map::new(
        |target: u32| reachable(adj, source, target),
        |target: u32| distance(adj, source, target) as usize,
    )
}

/// Every node reaches itself in zero hops.
pub proof fn lemma_reaches_self(adj: Map<u32, Seq<u32>>, source: u32)
    ensures
        reaches_in(adj, source, source, 0),
        is_distance(adj, source, source, 0),
{
    assert(connects(adj, seq![source], source, source, 0));
}

/// Only the source itself is reached in zero hops.
pub proof fn lemma_zero_hops_is_source(adj: Map<u32, Seq<u32>>, source: u32, target: u32)
    requires
        reaches_in(adj, source, target, 0),
    ensures
        target == source,
{
    let walk = choose|walk: Seq<u32>| connects(adj, walk, source, target, 0);
    assert(walk.first() == walk.last());
}

/// A walk can be extended by one edge at its end.
pub proof fn lemma_reaches_extend(
    adj: Map<u32, Seq<u32>>,
    source: u32,
    via: u32,
    target: u32,
    hops: nat,
)
    requires
        reaches_in(adj, source, via, hops),
        has_edge(adj, via, target),
    ensures
        reaches_in(adj, source, target, hops + 1),
{
    let walk = choose|walk: Seq<u32>| connects(adj, walk, source, via, hops);
    let longer = walk.push(target);
    assert forall|i: int| 0 <= i < longer.len() - 1 implies #[trigger] follows_edge(
        adj,
        longer,
        i,
    ) by {
        if i < walk.len() - 1 {
            assert(follows_edge(adj, walk, i));
        }
    }
    assert(connects(adj, longer, source, target, hops + 1));
}

/// A walk of at least one hop arrives over an edge from a node reached one hop earlier.
pub proof fn lemma_reaches_last_edge(
    adj: Map<u32, Seq<u32>>,
    source: u32,
    target: u32,
    hops: nat,
) -> (via: u32)
    requires
        hops > 0,
        reaches_in(adj, source, target, hops),
    ensures
        reaches_in(adj, source, via, (hops - 1) as nat),
        has_edge(adj, via, target),
{
    let walk = choose|walk: Seq<u32>| connects(adj, walk, source, target, hops);
    let shorter = walk.drop_last();
    let via = shorter.last();
    assert forall|i: int| 0 <= i < shorter.len() - 1 implies #[trigger] follows_edge(
        adj,
        shorter,
        i,
    ) by {
        assert(follows_edge(adj, walk, i));
    }
    assert(connects(adj, shorter, source, via, (hops - 1) as nat));
    assert(follows_edge(adj, walk, hops - 1));
    via
}

/// Among the hop counts that reach `target`, one is least.
proof fn lemma_least_hops(adj: Map<u32, Seq<u32>>, source: u32, target: u32, hops: nat) -> (least:
    nat)
    requires
        reaches_in(adj, source, target, hops),
    ensures
        least <= hops,
        is_distance(adj, source, target, least),
    decreases hops,
{
    if forall|fewer: nat| fewer < hops ==> !reaches_in(adj, source, target, fewer) {
        hops
    } else {
        let fewer = choose|fewer: nat| fewer < hops && reaches_in(adj, source, target, fewer);
        lemma_least_hops(adj, source, target, fewer)
    }
}

/// A reachable node has a hop distance, and `distance` names it.
pub proof fn lemma_distance_of_reachable(adj: Map<u32, Seq<u32>>, source: u32, target: u32)
    requires
        reachable(adj, source, target),
    ensures
        is_distance(adj, source, target, distance(adj, source, target)),
{
    let hops = choose|hops: nat| reaches_in(adj, source, target, hops);
    let least = lemma_least_hops(adj, source, target, hops);
}

/// The hop distance is unique: whatever satisfies `is_distance` is `distance`.
pub proof fn lemma_distance_unique(adj: Map<u32, Seq<u32>>, source: u32, target: u32, hops: nat)
    requires
        is_distance(adj, source, target, hops),
    ensures
        reachable(adj, source, target),
        distance(adj, source, target) == hops,
{
    lemma_distance_of_reachable(adj, source, target);
}

/// No walk is shorter than the distance.
pub proof fn lemma_distance_is_lower_bound(
    adj: Map<u32, Seq<u32>>,
    source: u32,
    target: u32,
    hops: nat,
)
    requires
        reaches_in(adj, source, target, hops),
    ensures
        reachable(adj, source, target),
        distance(adj, source, target) <= hops,
{
    lemma_distance_of_reachable(adj, source, target);
}

/// The distance from a node to itself is zero.
pub proof fn lemma_distance_to_self(adj: Map<u32, Seq<u32>>, source: u32)
    ensures
        reachable(adj, source, source),
        distance(adj, source, source) == 0,
{
    lemma_reaches_self(adj, source);
    lemma_distance_unique(adj, source, source, 0);
}

/// A walk in a graph is a walk in every graph that has all of its edges.
pub proof fn lemma_reaches_in_larger(
    smaller: Map<u32, Seq<u32>>,
    larger: Map<u32, Seq<u32>>,
    source: u32,
    target: u32,
    hops: nat,
)
    requires
        edges_included(smaller, larger),
        reaches_in(smaller, source, target, hops),
    ensures
        reaches_in(larger, source, target, hops),
{
    let walk = choose|walk: Seq<u32>| connects(smaller, walk, source, target, hops);
    assert forall|i: int| 0 <= i < walk.len() - 1 implies #[trigger] follows_edge(
        larger,
        walk,
        i,
    ) by {
        assert(follows_edge(smaller, walk, i));
    }
    assert(connects(larger, walk, source, target, hops));
}

/// There are no more than 2^32 nodes.
pub proof fn lemma_at_most_all_nodes(nodes: Set<u32>)
    requires
        nodes.finite(),
    ensures
        nodes.len() <= 0x1_0000_0000,
{
    broadcast use full_set_properties;

    range_set_properties::<u32>(0, u32::MAX);
    let all = Set::<u32>::full();
    assert(all =~= Set::<u32>::range_inclusive(0, u32::MAX));
    lemma_len_subset(nodes, all);
}

/// A walk that comes back to a node can leave out the round trip.
proof fn lemma_cut_round_trip(
    adj: Map<u32, Seq<u32>>,
    walk: Seq<u32>,
    source: u32,
    target: u32,
    hops: nat,
    first: int,
    second: int,
)
    requires
        connects(adj, walk, source, target, hops),
        0 <= first < second < walk.len(),
        walk[first] == walk[second],
    ensures
        reaches_in(adj, source, target, (hops - (second - first)) as nat),
{
    let shortcut = walk.subrange(0, first + 1) + walk.subrange(second + 1, walk.len() as int);
    assert forall|i: int| 0 <= i < shortcut.len() - 1 implies #[trigger] follows_edge(
        adj,
        shortcut,
        i,
    ) by {
        if i < first {
            assert(follows_edge(adj, walk, i));
        } else {
            assert(follows_edge(adj, walk, i + (second - first)));
        }
    }
    assert(connects(adj, shortcut, source, target, (hops - (second - first)) as nat));
}

/// A shortest walk visits no node twice.
proof fn lemma_shortest_walk_is_simple(
    adj: Map<u32, Seq<u32>>,
    walk: Seq<u32>,
    source: u32,
    target: u32,
    hops: nat,
)
    requires
        connects(adj, walk, source, target, hops),
        is_distance(adj, source, target, hops),
    ensures
        walk.no_duplicates(),
{
    assert forall|i: int, j: int|
        0 <= i < walk.len() && 0 <= j < walk.len() && i != j implies walk[i] != walk[j] by {
        if walk[i] == walk[j] {
            if i < j {
                lemma_cut_round_trip(adj, walk, source, target, hops, i, j);
            } else {
                lemma_cut_round_trip(adj, walk, source, target, hops, j, i);
            }
        }
    }
}

/// A distance is smaller than the number of nodes there can be, so it fits
/// the hop count of a distance map.
pub proof fn lemma_distance_fits(adj: Map<u32, Seq<u32>>, source: u32, target: u32)
    requires
        reachable(adj, source, target),
    ensures
        distance(adj, source, target) < 0x1_0000_0000,
        distances_from(adj, source).contains_key(target),
        distances_from(adj, source)[target] == distance(adj, source, target),
{
    lemma_distance_of_reachable(adj, source, target);
    let hops = distance(adj, source, target);
    let walk = choose|walk: Seq<u32>| connects(adj, walk, source, target, hops);
    lemma_shortest_walk_is_simple(adj, walk, source, target, hops);
    walk.unique_seq_to_set();
    seq_to_set_is_finite(walk);
    lemma_at_most_all_nodes(walk.to_set());
}

/// The entry of the source in its own distance map is zero.
pub proof fn lemma_source_is_at_distance_zero(adj: Map<u32, Seq<u32>>, source: u32)
    ensures
        distances_from(adj, source).contains_key(source),
        distances_from(adj, source)[source] == 0,
{
    lemma_distance_to_self(adj, source);
}

/// Every entry of a distance map is the length of a shortest walk: a walk
/// of exactly that many forward edges leads from the source to the node,
/// and no shorter one does.
pub proof fn lemma_entries_are_shortest_walks(adj: Map<u32, Seq<u32>>, source: u32, target: u32)
    requires
        distances_from(adj, source).contains_key(target),
    ensures
        is_distance(adj, source, target, distances_from(adj, source)[target] as nat),
{
    lemma_distance_of_reachable(adj, source, target);
    lemma_distance_fits(adj, source, target);
}

/// Distances never grow when edges are added: whatever is reachable in a
/// graph is reachable, at no greater distance, in every graph that has all
/// of its edges.
pub proof fn lemma_more_edges_shorter_distances(
    smaller: Map<u32, Seq<u32>>,
    larger: Map<u32, Seq<u32>>,
    source: u32,
    target: u32,
)
    requires
        edges_included(smaller, larger),
        reachable(smaller, source, target),
    ensures
        reachable(larger, source, target),
        distance(larger, source, target) <= distance(smaller, source, target),
        distances_from(larger, source)[target] <= distances_from(smaller, source)[target],
{
    lemma_distance_of_reachable(smaller, source, target);
    let hops = distance(smaller, source, target);
    lemma_reaches_in_larger(smaller, larger, source, target, hops);
    lemma_distance_is_lower_bound(larger, source, target, hops);
    lemma_distance_fits(smaller, source, target);
    lemma_distance_fits(larger, source, target);
}

/// Appending an edge keeps every edge that was there.
pub proof fn lemma_with_edge_includes(adj: Map<u32, Seq<u32>>, from: u32, to: u32)
    ensures
        edges_included(adj, with_edge(adj, from, to)),
        has_edge(with_edge(adj, from, to), from, to),
{
    let after = with_edge(adj, from, to);
    let grown = successors(adj, from).push(to);
    assert(grown[grown.len() - 1] == to);
    assert forall|a: u32, b: u32| #[trigger] has_edge(adj, a, b) implies has_edge(after, a, b) by {
        if a == from {
            let i = choose|i: int| 0 <= i < successors(adj, a).len() && successors(adj, a)[i] == b;
            assert(grown[i] == b);
        }
    }
}

/// Taking an edge away adds no edge.
pub proof fn lemma_without_edge_included(adj: Map<u32, Seq<u32>>, from: u32, index: int)
    requires
        0 <= index < successors(adj, from).len(),
    ensures
        edges_included(without_edge(adj, from, index), adj),
{
    let after = without_edge(adj, from, index);
    let before = successors(adj, from);
    let rest = before.remove(index);
    assert forall|a: u32, b: u32| #[trigger] has_edge(after, a, b) implies has_edge(adj, a, b) by {
        if a == from {
            let i = choose|i: int| 0 <= i < rest.len() && rest[i] == b;
            if i < index {
                assert(before[i] == b);
            } else {
                assert(before[i + 1] == b);
            }
        }
    }
}

/// Adding an edge can never increase a distance: every node that had an
/// entry in the distance map of `source` still has one, and it has not grown.
pub proof fn lemma_add_edge_never_increases_distance(
    adj: Map<u32, Seq<u32>>,
    from: u32,
    to: u32,
    source: u32,
    target: u32,
)
    requires
        distances_from(adj, source).contains_key(target),
    ensures
        distances_from(with_edge(adj, from, to), source).contains_key(target),
        distances_from(with_edge(adj, from, to), source)[target] <= distances_from(
            adj,
            source,
        )[target],
{
    lemma_with_edge_includes(adj, from, to);
    lemma_more_edges_shorter_distances(adj, with_edge(adj, from, to), source, target);
}

/// Removing an edge can never decrease a distance: every node that still
/// has an entry in the distance map of `source` had one before, and it was
/// no greater.
pub proof fn lemma_remove_edge_never_decreases_distance(
    adj: Map<u32, Seq<u32>>,
    from: u32,
    index: int,
    source: u32,
    target: u32,
)
    requires
        0 <= index < successors(adj, from).len(),
        distances_from(without_edge(adj, from, index), source).contains_key(target),
    ensures
        distances_from(adj, source).contains_key(target),
        distances_from(adj, source)[target] <= distances_from(
            without_edge(adj, from, index),
            source,
        )[target],
{
    lemma_without_edge_included(adj, from, index);
    lemma_more_edges_shorter_distances(without_edge(adj, from, index), adj, source, target);
}

} // verus!
