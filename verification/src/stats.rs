//! The statistics of a distance map, computed.
//!
//! Each reducer takes a distance map as a traversal returns it and computes
//! one summary of its hop counts; `summary` says what each summary is. The
//! methods on `Graph` run the traversal from a source and reduce its result.

use crate::error::GraphError;
use crate::graph::Graph;
use crate::paths::{distances_from, lemma_at_most_all_nodes};
use crate::sorting::{ascending, sort_ascending};
use crate::summary::{
    count_at, is_distribution_of, is_max_of, is_median_of, is_min_of, is_sorted_listing,
    lemma_distribution_total, lemma_nodes_at_finite, lemma_total_at_most, lemma_total_remove,
    median_of, nodes_at, total_of,
};
use std::collections::HashMap;
use vstd::prelude::*;
use vstd::seq_lib::{to_multiset_build, to_multiset_contains, to_multiset_len};
use vstd::std_specs::hash::{spec_hash_map_iter, spec_keys_iter, spec_values_iter};
use vstd::std_specs::iter::IteratorSpec;

verus! {

/// `entries` holds every entry of `m` exactly once.
spec fn lists(m: Map<u32, usize>, entries: Seq<(u32, usize)>) -> bool {
    &&& entries.len() == m.len()
    &&& forall|i: int|
        0 <= i < entries.len() ==> m.contains_key((#[trigger] entries[i]).0) && m[entries[i].0]
            == entries[i].1
    &&& forall|i: int, j: int|
        0 <= i < j < entries.len() ==> (#[trigger] entries[i]).0 != (#[trigger] entries[j]).0
    &&& forall|key: u32| #[trigger]
        m.contains_key(key) ==> exists|i: int|
            0 <= i < entries.len() && (#[trigger] entries[i]).0 == key
}

/// The hop counts of `entries`, in the same order.
spec fn hops_of(entries: Seq<(u32, usize)>) -> Seq<usize> {
    Seq::new(entries.len(), |i: int| entries[i].1)
}

/// Walking a hash map visits every entry exactly once.
proof fn lemma_iteration_lists(distances: &HashMap<u32, usize>)
    requires
        spec_hash_map_iter(distances).remaining().no_duplicates(),
    ensures
        lists(distances@, spec_hash_map_iter(distances).remaining().unref()),
{
    let pairs = spec_hash_map_iter(distances).remaining();
    let entries = pairs.unref();
    assert forall|i: int, j: int| 0 <= i < j < entries.len() implies (#[trigger] entries[i]).0 != (
    #[trigger] entries[j]).0 by {
        if entries[i].0 == entries[j].0 {
            assert(distances@[*pairs[i].0] == *pairs[i].1);
            assert(distances@[*pairs[j].0] == *pairs[j].1);
            assert(pairs[i] == pairs[j]);
        }
    }
    assert forall|key: u32| #[trigger] distances@.contains_key(key) implies exists|i: int|
        0 <= i < entries.len() && (#[trigger] entries[i]).0 == key by {
        assert(pairs.contains((&key, &distances@[key])));
        let i = choose|i: int| 0 <= i < pairs.len() && pairs[i] == (&key, &distances@[key]);
        assert(entries[i].0 == key);
    }
}

/// Without its last entry, a listing lists the map without that entry's key.
proof fn lemma_listing_drop_last(m: Map<u32, usize>, entries: Seq<(u32, usize)>)
    requires
        m.dom().finite(),
        lists(m, entries),
        entries.len() > 0,
    ensures
        lists(m.remove(entries.last().0), entries.drop_last()),
        m.contains_key(entries.last().0),
        m[entries.last().0] == entries.last().1,
{
    let last = entries.last();
    let fewer = m.remove(last.0);
    let front = entries.drop_last();
    assert(entries[entries.len() - 1] == last);
    assert forall|i: int| 0 <= i < front.len() implies fewer.contains_key((#[trigger] front[i]).0)
        && fewer[front[i].0] == front[i].1 by {
        assert(front[i] == entries[i]);
    }
    assert forall|i: int, j: int| 0 <= i < j < front.len() implies (#[trigger] front[i]).0 != (
    #[trigger] front[j]).0 by {
        assert(front[i] == entries[i]);
        assert(front[j] == entries[j]);
    }
    assert forall|key: u32| #[trigger] fewer.contains_key(key) implies exists|i: int|
        0 <= i < front.len() && (#[trigger] front[i]).0 == key by {
        assert(m.contains_key(key));
        let i = choose|i: int| 0 <= i < entries.len() && (#[trigger] entries[i]).0 == key;
        assert(front[i] == entries[i]);
    }
}

/// In a listing, a hop count occurs as often as there are nodes that far away.
proof fn lemma_listing_counts(m: Map<u32, usize>, entries: Seq<(u32, usize)>, hops: usize)
    requires
        m.dom().finite(),
        lists(m, entries),
    ensures
        hops_of(entries).to_multiset().count(hops) == count_at(m, hops),
    decreases entries.len(),
{
    let values = hops_of(entries);
    if entries.len() == 0 {
        to_multiset_len(values);
        assert(nodes_at(m, hops) =~= Set::<u32>::empty());
    } else {
        let last = entries.last();
        let fewer = m.remove(last.0);
        let front = entries.drop_last();
        lemma_listing_drop_last(m, entries);
        lemma_listing_counts(fewer, front, hops);
        assert(values =~= hops_of(front).push(last.1));
        to_multiset_build(hops_of(front), last.1);
        lemma_nodes_at_finite(fewer, hops);
        if last.1 == hops {
            assert(nodes_at(m, hops) =~= nodes_at(fewer, hops).insert(last.0));
        } else {
            assert(nodes_at(m, hops) =~= nodes_at(fewer, hops));
        }
    }
}

/// The entries from position `from` on are exactly the entries of `rest`.
spec fn lists_from(rest: Map<u32, usize>, entries: Seq<(u32, usize)>, from: int) -> bool {
    &&& rest.dom().finite()
    &&& forall|i: int|
        from <= i < entries.len() ==> rest.contains_key((#[trigger] entries[i]).0)
            && rest[entries[i].0] == entries[i].1
    &&& forall|key: u32| #[trigger]
        rest.contains_key(key) ==> exists|i: int|
            from <= i < entries.len() && (#[trigger] entries[i]).0 == key
}

/// Taking the entry at `from` out of `rest` leaves the entries after it.
proof fn lemma_lists_from_next(
    m: Map<u32, usize>,
    rest: Map<u32, usize>,
    entries: Seq<(u32, usize)>,
    from: int,
)
    requires
        lists(m, entries),
        lists_from(rest, entries, from),
        0 <= from < entries.len(),
    ensures
        lists_from(rest.remove(entries[from].0), entries, from + 1),
        total_of(rest) == entries[from].1 + total_of(rest.remove(entries[from].0)),
{
    let key = entries[from].0;
    let after = rest.remove(key);
    lemma_total_remove(rest, key);
    assert forall|i: int| from + 1 <= i < entries.len() implies after.contains_key(
        (#[trigger] entries[i]).0,
    ) && after[entries[i].0] == entries[i].1 by {
        assert(entries[from].0 != entries[i].0);
    }
    assert forall|other: u32| #[trigger] after.contains_key(other) implies exists|i: int|
        from + 1 <= i < entries.len() && (#[trigger] entries[i]).0 == other by {
        assert(rest.contains_key(other));
        let i = choose|i: int| from <= i < entries.len() && (#[trigger] entries[i]).0 == other;
        assert(i != from);
    }
}

/// The hop counts tallied so far: `counts` holds, for every hop count among
/// `seen`, how often it occurs there.
spec fn tallies(counts: Map<usize, usize>, seen: Seq<usize>) -> bool {
    &&& forall|hops: usize| #[trigger] counts.contains_key(hops) <==> seen.contains(hops)
    &&& forall|hops: usize| #[trigger]
        counts.contains_key(hops) ==> counts[hops] == seen.to_multiset().count(hops)
}

/// Tallying one more hop count.
proof fn lemma_tally_one_more(counts: Map<usize, usize>, seen: Seq<usize>, hops: usize)
    requires
        tallies(counts, seen),
        seen.len() < usize::MAX,
    ensures
        counts.contains_key(hops) ==> counts[hops] < usize::MAX,
        counts.contains_key(hops) ==> tallies(
            counts.insert(hops, (counts[hops] + 1) as usize),
            seen.push(hops),
        ),
        !counts.contains_key(hops) ==> tallies(counts.insert(hops, 1), seen.push(hops)),
{
    let more = seen.push(hops);
    to_multiset_build(seen, hops);
    to_multiset_len(seen);
    to_multiset_contains(seen, hops);
    assert(seen.to_multiset().count(hops) <= seen.to_multiset().len());
    assert(more[more.len() - 1] == hops);
    assert forall|other: usize| more.contains(other) <==> (other == hops || seen.contains(other)) by {
        if seen.contains(other) {
            let i = choose|i: int| 0 <= i < seen.len() && seen[i] == other;
            assert(more[i] == other);
        }
        if more.contains(other) && other != hops {
            let i = choose|i: int| 0 <= i < more.len() && more[i] == other;
            assert(seen[i] == other);
        }
    }
}

/// An average kept exact: `total` is to be divided by `count`, which is not zero.
#[derive(Clone, Copy, Debug, PartialEq, Eq, Structural)]
pub struct Average {
    pub total: u64,
    pub count: usize,
}

/// Returns the largest hop count of the map, and `usize::MAX` for an empty map.
pub fn max_distance(distances: &HashMap<u32, usize>) -> (longest: usize)
    ensures
        distances@.len() == 0 ==> longest == usize::MAX,
        distances@.len() > 0 ==> is_max_of(distances@, longest),
{
    let mut best: Option<usize> = None;
    let ghost all = spec_values_iter(distances).remaining();
    for hops in it: distances.values()
        invariant
            it.seq() == all,
            best is None ==> it.index() == 0,
            best matches Some(found) ==> (exists|i: int| 0 <= i < it.index() && *all[i] == found)
                && forall|i: int| 0 <= i < it.index() ==> *all[i] <= found,
    {
        match best {
            Some(found) => {
                if *hops > found {
                    best = Some(*hops);
                }
            },
            None => {
                best = Some(*hops);
            },
        }
    }
    match best {
        Some(found) => {
            proof {
                let i = choose|i: int| 0 <= i < all.len() && *all[i] == found;
                assert(all.unref()[i] == found);
                assert(distances@.values().contains(found));
                assert forall|node: u32| distances@.contains_key(node) implies distances@[node]
                    <= found by {
                    assert(distances@.values().contains(distances@[node]));
                    let j = choose|j: int|
                        0 <= j < all.unref().len() && all.unref()[j] == distances@[node];
                    assert(*all[j] <= found);
                }
            }
            found
        },
        None => usize::MAX,
    }
}

/// Returns the smallest hop count of the map, and `usize::MAX` for an empty map.
pub fn min_distance(distances: &HashMap<u32, usize>) -> (shortest: usize)
    ensures
        distances@.len() == 0 ==> shortest == usize::MAX,
        distances@.len() > 0 ==> is_min_of(distances@, shortest),
{
    let mut best: Option<usize> = None;
    let ghost all = spec_values_iter(distances).remaining();
    for hops in it: distances.values()
        invariant
            it.seq() == all,
            best is None ==> it.index() == 0,
            best matches Some(found) ==> (exists|i: int| 0 <= i < it.index() && *all[i] == found)
                && forall|i: int| 0 <= i < it.index() ==> found <= *all[i],
    {
        match best {
            Some(found) => {
                if *hops < found {
                    best = Some(*hops);
                }
            },
            None => {
                best = Some(*hops);
            },
        }
    }
    match best {
        Some(found) => {
            proof {
                let i = choose|i: int| 0 <= i < all.len() && *all[i] == found;
                assert(all.unref()[i] == found);
                assert(distances@.values().contains(found));
                assert forall|node: u32| distances@.contains_key(node) implies found
                    <= distances@[node] by {
                    assert(distances@.values().contains(distances@[node]));
                    let j = choose|j: int|
                        0 <= j < all.unref().len() && all.unref()[j] == distances@[node];
                    assert(found <= *all[j]);
                }
            }
            found
        },
        None => usize::MAX,
    }
}

/// Returns the median hop count of a map that is not empty: with the hop
/// counts sorted ascending, the central one if their number is odd, and the
/// mean of the two central ones, rounded down, if it is even.
pub fn median_distance(distances: &HashMap<u32, usize>) -> (median: usize)
    requires
        distances@.len() > 0,
    ensures
        is_median_of(distances@, median),
{
    let mut values: Vec<usize> = Vec::new();
    let ghost entries = spec_hash_map_iter(distances).remaining().unref();
    for (node, hops) in it: distances.iter()
        invariant
            it.seq().unref() == entries,
            spec_hash_map_iter(distances).remaining().no_duplicates(),
            values.len() == it.index(),
            forall|i: int| 0 <= i < it.index() ==> values[i] == entries[i].1,
    {
        values.push(*hops);
    }
    let sorted = sort_ascending(&values);
    proof {
        lemma_iteration_lists(distances);
        assert(values@ =~= hops_of(entries));
        assert forall|hops: usize| #[trigger]
            sorted@.to_multiset().count(hops) == count_at(distances@, hops) by {
            lemma_listing_counts(distances@, entries, hops);
        }
        assert(is_sorted_listing(distances@, sorted@));
    }
    let n = sorted.len();
    let middle = n / 2;
    let median = if n % 2 == 0 {
        let low = sorted[middle - 1];
        let high = sorted[middle];
        low + (high - low) / 2
    } else {
        sorted[middle]
    };
    assert(median == median_of(sorted@));
    median
}

/// Returns the distribution of the map: for every hop count that occurs,
/// the number of nodes that far away.
pub fn distance_distribution(distances: &HashMap<u32, usize>) -> (counts: HashMap<usize, usize>)
    ensures
        is_distribution_of(counts@, distances@),
        total_of(counts@) == distances@.len(),
{
    let mut counts: HashMap<usize, usize> = HashMap::new();
    let ghost entries = spec_hash_map_iter(distances).remaining().unref();
    let ghost mut seen: Seq<usize> = Seq::empty();
    for (node, hops) in it: distances.iter()
        invariant
            it.seq().unref() == entries,
            spec_hash_map_iter(distances).remaining().no_duplicates(),
            entries.len() == distances@.len(),
            seen.len() == it.index(),
            forall|i: int| 0 <= i < it.index() ==> seen[i] == entries[i].1,
            tallies(counts@, seen),
    {
        proof {
            assert(distances.len() == distances@.len());
            lemma_tally_one_more(counts@, seen, *hops);
        }
        let count = match counts.get(hops) {
            Some(count) => *count,
            None => 0,
        };
        counts.insert(*hops, count + 1);
        proof {
            seen = seen.push(*hops);
        }
    }
    proof {
        lemma_iteration_lists(distances);
        assert(seen =~= hops_of(entries));
        assert forall|hops: usize| seen.to_multiset().count(hops) == count_at(distances@, hops) by {
            lemma_listing_counts(distances@, entries, hops);
        }
        assert forall|hops: usize| seen.contains(hops) <==> count_at(distances@, hops) > 0 by {
            to_multiset_contains(seen, hops);
        }
        lemma_distribution_total(counts@, distances@);
    }
    counts
}

/// Returns the sum of the hop counts of the map.
pub fn total_distance(distances: &HashMap<u32, usize>) -> (total: u64)
    requires
        total_of(distances@) <= u64::MAX,
    ensures
        total == total_of(distances@),
{
    let mut total: u64 = 0;
    let ghost entries = spec_hash_map_iter(distances).remaining().unref();
    let ghost mut rest = distances@;
    for (node, hops) in it: distances.iter()
        invariant
            it.seq().unref() == entries,
            spec_hash_map_iter(distances).remaining().no_duplicates(),
            lists(distances@, entries) ==> lists_from(rest, entries, it.index()),
            total + total_of(rest) == total_of(distances@),
            total_of(distances@) <= u64::MAX,
    {
        proof {
            lemma_iteration_lists(distances);
            assert(entries[it.index()] == (*node, *hops));
            lemma_lists_from_next(distances@, rest, entries, it.index());
            rest = rest.remove(*node);
        }
        total = total + *hops as u64;
    }
    proof {
        lemma_iteration_lists(distances);
        assert(rest.dom() =~= Set::<u32>::empty());
    }
    total
}

/// Returns the entries of a distribution in ascending order of hop count.
pub fn ascending_distribution(counts: &HashMap<usize, usize>) -> (listing: Vec<(usize, usize)>)
    ensures
        listing.len() == counts@.len(),
        forall|i: int, j: int| 0 <= i < j < listing.len() ==> listing[i].0 < listing[j].0,
        forall|i: int|
            0 <= i < listing.len() ==> counts@.contains_key((#[trigger] listing[i]).0)
                && counts@[listing[i].0] == listing[i].1,
        forall|hops: usize| #[trigger]
            counts@.contains_key(hops) ==> exists|i: int|
                0 <= i < listing.len() && (#[trigger] listing[i]).0 == hops,
{
    let mut keys: Vec<usize> = Vec::new();
    let ghost all = spec_keys_iter(counts).remaining().unref();
    for hops in it: counts.keys()
        invariant
            it.seq().unref() == all,
            keys.len() == it.index(),
            forall|i: int| 0 <= i < it.index() ==> keys[i] == all[i],
    {
        keys.push(*hops);
    }
    let sorted = sort_ascending(&keys);
    proof {
        assert(keys@ =~= all);
        assert(spec_keys_iter(counts).remaining().no_duplicates());
        assert forall|i: int, j: int| 0 <= i < j < all.len() implies all[i] != all[j] by {
            let refs = spec_keys_iter(counts).remaining();
            assert(refs[i] != refs[j]);
        }
        assert(all.no_duplicates());
        all.lemma_multiset_has_no_duplicates();
        sorted@.lemma_multiset_has_no_duplicates_conv();
        assert forall|hops: usize| sorted@.contains(hops) <==> counts@.contains_key(hops) by {
            to_multiset_contains(sorted@, hops);
            to_multiset_contains(all, hops);
            assert(all.to_set().contains(hops) <==> counts@.dom().contains(hops));
        }
    }
    let mut listing: Vec<(usize, usize)> = Vec::new();
    for k in 0..sorted.len()
        invariant
            ascending(sorted@),
            sorted@.no_duplicates(),
            sorted.len() == counts@.len(),
            forall|hops: usize| sorted@.contains(hops) <==> counts@.contains_key(hops),
            listing.len() == k,
            forall|i: int|
                0 <= i < k ==> (#[trigger] listing[i]).0 == sorted[i] && counts@[sorted[i]]
                    == listing[i].1,
    {
        let hops = sorted[k];
        assert(sorted@.contains(hops));
        match counts.get(&hops) {
            Some(count) => {
                listing.push((hops, *count));
            },
            None => {
                assert(false);
            },
        }
    }
    proof {
        assert forall|i: int, j: int| 0 <= i < j < listing.len() implies listing[i].0
            < listing[j].0 by {
            assert(sorted[i] <= sorted[j]);
            assert(sorted[i] != sorted[j]);
        }
        assert forall|i: int| 0 <= i < listing.len() implies counts@.contains_key(
            (#[trigger] listing[i]).0,
        ) by {
            assert(sorted@.contains(sorted[i]));
        }
        assert forall|hops: usize| #[trigger] counts@.contains_key(hops) implies exists|i: int|
            0 <= i < listing.len() && (#[trigger] listing[i]).0 == hops by {
            assert(sorted@.contains(hops));
            let i = choose|i: int| 0 <= i < sorted.len() && sorted[i] == hops;
            assert(listing[i].0 == hops);
        }
    }
    listing
}

impl Graph {
    /// The hop distance from `source` to the node furthest from it.
    pub fn max_shortest_path_length(&self, source: u32) -> (longest: usize)
        ensures
            is_max_of(distances_from(self@, source), longest),
    {
        let distances = self.bfs(source);
        max_distance(&distances)
    }

    /// The hop distance from `source` to the node nearest to it, which is
    /// the source itself.
    pub fn min_shortest_path_length(&self, source: u32) -> (shortest: usize)
        ensures
            is_min_of(distances_from(self@, source), shortest),
            shortest == 0,
    {
        let distances = self.bfs(source);
        min_distance(&distances)
    }

    /// The median of the hop distances from `source` to the nodes it reaches.
    pub fn median_shortest_path_length(&self, source: u32) -> (median: usize)
        ensures
            is_median_of(distances_from(self@, source), median),
    {
        let distances = self.bfs(source);
        median_distance(&distances)
    }

    /// For every hop distance from `source` that occurs, the number of
    /// nodes that far away. The counts add up to the number of nodes that
    /// `source` reaches.
    pub fn shortest_path_length_distribution(&self, source: u32) -> (counts: HashMap<usize, usize>)
        ensures
            is_distribution_of(counts@, distances_from(self@, source)),
            total_of(counts@) == distances_from(self@, source).len(),
    {
        let distances = self.bfs(source);
        distance_distribution(&distances)
    }

    /// The sum of the hop distances from `source` to the nodes it reaches.
    pub fn total_shortest_path_length(&self, source: u32) -> (total: u64)
        ensures
            total == total_of(distances_from(self@, source)),
    {
        let distances = self.bfs(source);
        proof {
            lemma_at_most_all_nodes(distances@.dom());
            let bound = (distances@.len() - 1) as nat;
            lemma_total_at_most(distances@, bound);
            assert(bound * distances@.len() <= 0xffff_ffff * 0x1_0000_0000) by (nonlinear_arith)
                requires
                    bound <= 0xffff_ffff,
                    distances@.len() <= 0x1_0000_0000,
            ;
        }
        total_distance(&distances)
    }

    /// The average hop distance from `source`, kept exact as a sum and the
    /// number it is to be divided by.
    ///
    /// The sum runs over the nodes that `source` reaches; the divisor is the
    /// number of nodes of the graph that have an outgoing edge, whether
    /// `source` reaches them or not. A graph without edges has no average.
    pub fn exact_average_shortest_path_length(&self, source: u32) -> (average: Result<
        Average,
        GraphError,
    >)
        ensures
            average is Err <==> self@.len() == 0,
            average matches Err(error) ==> error == GraphError::EmptyGraph,
            average matches Ok(exact) ==> exact.total == total_of(distances_from(self@, source))
                && exact.count == self@.len(),
    {
        let count = self.node_count();
        if count == 0 {
            Err(GraphError::EmptyGraph)
        } else {
            let total = self.total_shortest_path_length(source);
            Ok(Average { total, count })
        }
    }
}

} // verus!
