//! What the statistics of a distance map are.
//!
//! A distance map sends every reachable node to its hop count. This module
//! says, over the mathematical map, what its largest and smallest hop count,
//! its median, its total and its distribution are, and proves the laws that
//! tie them together. It holds no executable code.

use crate::sorting::ascending;
use vstd::prelude::*;
use vstd::relations::{sorted_by, total_ordering};
use vstd::seq_lib::lemma_sorted_unique;
use vstd::set_lib::{lemma_len_subset, lemma_set_empty_equivalency_len};

verus! {

/// The nodes that lie exactly `hops` away.
pub open spec fn nodes_at(distances: Map<u32, usize>, hops: usize) -> Set<u32> {
    Set::new(|node: u32| distances.contains_key(node) && distances[node] == hops)
}

/// How many nodes lie exactly `hops` away.
pub open spec fn count_at(distances: Map<u32, usize>, hops: usize) -> nat {
    nodes_at(distances, hops).len()
}

/// `hops` is the hop count of some node, and no node lies further away.
pub open spec fn is_max_of(distances: Map<u32, usize>, hops: usize) -> bool {
    &&& exists|node: u32| distances.contains_key(node) && distances[node] == hops
    &&& forall|node: u32| distances.contains_key(node) ==> distances[node] <= hops
}

/// `hops` is the hop count of some node, and no node lies nearer.
pub open spec fn is_min_of(distances: Map<u32, usize>, hops: usize) -> bool {
    &&& exists|node: u32| distances.contains_key(node) && distances[node] == hops
    &&& forall|node: u32| distances.contains_key(node) ==> hops <= distances[node]
}

/// `values` holds the hop counts of the map in ascending order, each as
/// often as there are nodes that far away.
pub open spec fn is_sorted_listing(distances: Map<u32, usize>, values: Seq<usize>) -> bool {
    &&& ascending(values)
    &&& forall|hops: usize| #[trigger]
        values.to_multiset().count(hops) == count_at(distances, hops)
}

/// The median of an ascending sequence: the central value when the length
/// is odd, the truncated mean of the two central values when it is even.
pub open spec fn median_of(values: Seq<usize>) -> int {
    let n = values.len() as int;
    if n % 2 == 1 {
        values[n / 2] as int
    } else {
        (values[n / 2 - 1] + values[n / 2]) / 2
    }
}

/// `median` is the median of the hop counts of the map.
pub open spec fn is_median_of(distances: Map<u32, usize>, median: usize) -> bool {
    exists|values: Seq<usize>|
        is_sorted_listing(distances, values) && median == median_of(values)
}

/// The sum of the values of a finite map.
pub open spec fn total_of<K>(m: Map<K, usize>) -> nat
    decreases m.dom().len(),
    when m.dom().finite()
{
    if m.dom().is_empty() {
        0
    } else {
        let key = m.dom().choose();
        (m[key] + total_of(m.remove(key))) as nat
    }
}

/// `counts` is the distribution of `distances`: its keys are the hop counts
/// that occur, and each is sent to the number of nodes that far away.
pub open spec fn is_distribution_of(counts: Map<usize, usize>, distances: Map<u32, usize>) -> bool {
    &&& forall|hops: usize| #[trigger]
        counts.contains_key(hops) <==> count_at(distances, hops) > 0
    &&& forall|hops: usize| #[trigger]
        counts.contains_key(hops) ==> counts[hops] == count_at(distances, hops)
}

/// The nodes at one distance are among the nodes of the map.
pub proof fn lemma_nodes_at_finite(distances: Map<u32, usize>, hops: usize)
    requires
        distances.dom().finite(),
    ensures
        nodes_at(distances, hops).finite(),
        count_at(distances, hops) <= distances.len(),
        count_at(distances, hops) > 0 <==> distances.contains_value(hops),
{
    let at = nodes_at(distances, hops);
    lemma_len_subset(at, distances.dom());
    lemma_set_empty_equivalency_len(at);
    if distances.contains_value(hops) {
        let node = choose|node: u32| distances.contains_key(node) && distances[node] == hops;
        assert(at.contains(node));
    }
    if at.len() > 0 {
        let node = choose|node: u32| at.contains(node);
        assert(distances.contains_key(node) && distances[node] == hops);
    }
}

/// A distance map has only one sorted listing.
pub proof fn lemma_sorted_listing_unique(distances: Map<u32, usize>, a: Seq<usize>, b: Seq<usize>)
    requires
        is_sorted_listing(distances, a),
        is_sorted_listing(distances, b),
    ensures
        a == b,
{
    let at_most = |x: usize, y: usize| x <= y;
    assert(total_ordering(at_most));
    assert(sorted_by(a, at_most));
    assert(sorted_by(b, at_most));
    assert forall|hops: usize| a.to_multiset().count(hops) == b.to_multiset().count(hops) by {
        assert(a.to_multiset().count(hops) == count_at(distances, hops));
        assert(b.to_multiset().count(hops) == count_at(distances, hops));
    }
    assert(a.to_multiset() =~= b.to_multiset());
    lemma_sorted_unique(a, b, at_most);
}

/// The median law: whenever the hop counts of a distance map, sorted
/// ascending, are `values`, the median of the map is the central value of
/// `values` if their number is odd, and the truncated mean of the two
/// central values if it is even.
pub proof fn lemma_median_of_sorted_listing(
    distances: Map<u32, usize>,
    median: usize,
    values: Seq<usize>,
)
    requires
        is_median_of(distances, median),
        is_sorted_listing(distances, values),
    ensures
        values.len() % 2 == 1 ==> median == values[values.len() as int / 2],
        values.len() % 2 == 0 ==> median == (values[values.len() as int / 2 - 1]
            + values[values.len() as int / 2]) / 2,
{
    let witness = choose|witness: Seq<usize>|
        is_sorted_listing(distances, witness) && median == median_of(witness);
    lemma_sorted_listing_unique(distances, witness, values);
}

/// The total of a map is the value at any one key plus the total of the rest.
pub proof fn lemma_total_remove<K>(m: Map<K, usize>, key: K)
    requires
        m.dom().finite(),
        m.contains_key(key),
    ensures
        total_of(m) == m[key] + total_of(m.remove(key)),
    decreases m.dom().len(),
{
    let chosen = m.dom().choose();
    if chosen != key {
        lemma_total_remove(m.remove(chosen), key);
        lemma_total_remove(m.remove(key), chosen);
        assert(m.remove(chosen).remove(key) =~= m.remove(key).remove(chosen));
    }
}

/// A map whose values are all at most `bound` totals at most `bound` per entry.
pub proof fn lemma_total_at_most<K>(m: Map<K, usize>, bound: nat)
    requires
        m.dom().finite(),
        forall|key: K| #[trigger] m.contains_key(key) ==> m[key] <= bound,
    ensures
        total_of(m) <= bound * m.len(),
    decreases m.dom().len(),
{
    if m.dom().is_empty() {
        assert(bound * m.len() == 0) by (nonlinear_arith)
            requires
                m.len() == 0,
        ;
    } else {
        let key = m.dom().choose();
        let rest = m.remove(key);
        lemma_total_at_most(rest, bound);
        assert(bound + bound * rest.len() == bound * m.len()) by (nonlinear_arith)
            requires
                m.len() == rest.len() + 1,
        ;
    }
}

/// The distribution law: the counts of a distribution add up to the number
/// of entries of the distance map it was taken from.
pub proof fn lemma_distribution_total(counts: Map<usize, usize>, distances: Map<u32, usize>)
    requires
        distances.dom().finite(),
        is_distribution_of(counts, distances),
    ensures
        counts.dom().finite(),
        total_of(counts) == distances.len(),
    decreases distances.len(),
{
    if distances.dom().is_empty() {
        assert forall|hops: usize| !counts.contains_key(hops) by {
            assert(nodes_at(distances, hops) =~= Set::empty());
        }
        assert(counts.dom() =~= Set::empty());
    } else {
        let node = distances.dom().choose();
        let hops = distances[node];
        let at = nodes_at(distances, hops);
        lemma_nodes_at_finite(distances, hops);
        assert(at.contains(node));
        let fewer = distances.remove_keys(at);
        let rest = counts.remove(hops);
        distances.lemma_remove_keys_len(at);
        lemma_len_subset(fewer.dom(), distances.dom());
        assert forall|other: usize| nodes_at(fewer, other) == (if other == hops {
            Set::<u32>::empty()
        } else {
            nodes_at(distances, other)
        }) by {
            if other == hops {
                assert(nodes_at(fewer, other) =~= Set::<u32>::empty());
            } else {
                assert(nodes_at(fewer, other) =~= nodes_at(distances, other));
            }
        }
        assert(is_distribution_of(rest, fewer)) by {
            assert forall|other: usize| #[trigger]
                rest.contains_key(other) <==> count_at(fewer, other) > 0 by {
                assert(counts.contains_key(other) <==> count_at(distances, other) > 0);
            }
            assert forall|other: usize| #[trigger] rest.contains_key(other) implies rest[other]
                == count_at(fewer, other) by {
                assert(counts.contains_key(other));
            }
        }
        lemma_distribution_total(rest, fewer);
        assert(counts.contains_key(hops));
        assert(counts.dom() =~= rest.dom().insert(hops));
        lemma_total_remove(counts, hops);
    }
}

} // verus!
