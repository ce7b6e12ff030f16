//! Single-source breadth-first traversal.
//!
//! The work-list is a first-in first-out queue, so nodes leave it in order
//! of non-decreasing hop count and the hop count a node receives on
//! discovery is its distance from the source.

use crate::graph::Graph;
use crate::paths::{
    distance, distances_from, has_edge, is_distance, lemma_distance_unique, lemma_reaches_extend,
    lemma_reaches_last_edge, lemma_reaches_self, lemma_zero_hops_is_source, reachable, reaches_in,
    successors,
};
use std::collections::{HashMap, HashSet, VecDeque};
use vstd::prelude::*;

verus! {

/// The nodes discovered so far, each with the hop count it was given, in
/// order of discovery, together with the position of every discovered node.
struct Discovery {
    order: Seq<(u32, usize)>,
    slot: Map<u32, int>,
}

impl Discovery {
    spec fn len(self) -> int {
        self.order.len() as int
    }

    /// The entry whose successors are being, or were last, examined.
    spec fn current(self, done: int) -> int {
        if done == 0 {
            0
        } else {
            done - 1
        }
    }

    /// `node` has been discovered with a hop count of at most `limit`.
    spec fn found_within(self, node: u32, limit: int) -> bool {
        self.slot.contains_key(node) && self.order[self.slot[node]].1 <= limit
    }

    /// Every successor of entry `i` has been discovered, at most one hop further out.
    spec fn expanded(self, adj: Map<u32, Seq<u32>>, i: int) -> bool {
        forall|next: u32| #[trigger]
            has_edge(adj, self.order[i].0, next) ==> self.found_within(next, self.order[i].1 + 1)
    }

    /// The first `full` entries are expanded.
    spec fn expanded_up_to(self, adj: Map<u32, Seq<u32>>, full: int) -> bool {
        forall|i: int| 0 <= i < full ==> #[trigger] self.expanded(adj, i)
    }

    /// The first `count` successors of the entry in `targets` have been discovered.
    spec fn scanned(self, targets: Seq<u32>, count: int, limit: int) -> bool {
        forall|k: int| 0 <= k < count ==> self.found_within(#[trigger] targets[k], limit)
    }

    /// What holds of the discovery order once `done` entries have left the work-list.
    spec fn wf(self, adj: Map<u32, Seq<u32>>, source: u32, done: int) -> bool {
        &&& self.order.len() >= 1
        &&& self.order[0] == (source, 0usize)
        &&& 0 <= done <= self.order.len()
        &&& done == 0 ==> self.order.len() == 1
        &&& forall|node: u32| #[trigger]
            self.slot.contains_key(node) ==> 0 <= self.slot[node] < self.order.len()
                && self.order[self.slot[node]].0 == node
        &&& forall|i: int|
            0 <= i < self.order.len() ==> self.slot.contains_key((#[trigger] self.order[i]).0)
                && self.slot[self.order[i].0] == i
        &&& forall|i: int|
            0 <= i < self.order.len() ==> reaches_in(
                adj,
                source,
                (#[trigger] self.order[i]).0,
                self.order[i].1 as nat,
            )
        &&& forall|i: int| 0 <= i < self.order.len() ==> (#[trigger] self.order[i]).1 <= i
        &&& forall|i: int, j: int|
            0 <= i <= j < self.order.len() ==> (#[trigger] self.order[i]).1 <= (
            #[trigger] self.order[j]).1
        &&& self.order.last().1 <= self.order[self.current(done)].1 + 1
    }

    /// The distance map holds exactly the entries that have left the work-list.
    spec fn recorded(self, done: int, distances: Map<u32, usize>) -> bool {
        &&& forall|node: u32| #[trigger]
            distances.contains_key(node) <==> self.slot.contains_key(node) && self.slot[node]
                < done
        &&& forall|node: u32| #[trigger]
            distances.contains_key(node) ==> distances[node] == self.order[self.slot[node]].1
    }

    spec fn start(source: u32) -> Discovery {
        Discovery { order: seq![(source, 0usize)], slot: map![source => 0int] }
    }

    spec fn push(self, node: u32, level: usize) -> Discovery {
        Discovery {
            order: self.order.push((node, level)),
            slot: self.slot.insert(node, self.order.len() as int),
        }
    }

    proof fn lemma_start(adj: Map<u32, Seq<u32>>, source: u32)
        ensures
            Discovery::start(source).wf(adj, source, 0),
            Discovery::start(source).expanded_up_to(adj, 0),
            Discovery::start(source).slot.dom() =~= set![source],
    {
        lemma_reaches_self(adj, source);
    }

    /// Taking the next entry off the work-list keeps the order well formed.
    proof fn lemma_pop(self, adj: Map<u32, Seq<u32>>, source: u32, done: int)
        requires
            self.wf(adj, source, done),
            done < self.order.len(),
        ensures
            self.wf(adj, source, done + 1),
    {
        assert(self.order[self.current(done)].1 <= self.order[done].1);
    }

    /// A successor that was discovered earlier lies at most one hop further
    /// out than the entry being expanded.
    proof fn lemma_seen(self, adj: Map<u32, Seq<u32>>, source: u32, done: int, next: u32)
        requires
            self.wf(adj, source, done),
            done >= 1,
            self.slot.contains_key(next),
        ensures
            self.found_within(next, self.order[done - 1].1 + 1),
    {
        let i = self.slot[next];
        assert(self.order[i].1 <= self.order[self.len() - 1].1);
    }

    /// Appending a newly discovered successor of the entry being expanded
    /// keeps the order well formed and loses nothing that was known.
    proof fn lemma_push(
        self,
        adj: Map<u32, Seq<u32>>,
        source: u32,
        done: int,
        next: u32,
        targets: Seq<u32>,
        count: int,
        distances: Map<u32, usize>,
    )
        requires
            self.wf(adj, source, done),
            done >= 1,
            self.expanded_up_to(adj, done - 1),
            self.scanned(targets, count, self.order[done - 1].1 + 1),
            self.recorded(done, distances),
            has_edge(adj, self.order[done - 1].0, next),
            !self.slot.contains_key(next),
            self.order[done - 1].1 < usize::MAX,
        ensures
            self.push(next, (self.order[done - 1].1 + 1) as usize).wf(adj, source, done),
            self.push(next, (self.order[done - 1].1 + 1) as usize).expanded_up_to(adj, done - 1),
            self.push(next, (self.order[done - 1].1 + 1) as usize).scanned(
                targets,
                count,
                self.order[done - 1].1 + 1,
            ),
            self.push(next, (self.order[done - 1].1 + 1) as usize).found_within(
                next,
                self.order[done - 1].1 + 1,
            ),
            self.push(next, (self.order[done - 1].1 + 1) as usize).recorded(done, distances),
    {
        let level = (self.order[done - 1].1 + 1) as usize;
        let after = self.push(next, level);
        let n = self.len();
        assert(after.order.len() == n + 1);
        assert(forall|i: int| 0 <= i < n ==> after.order[i] == self.order[i]);
        assert(after.order[n] == (next, level));
        lemma_reaches_extend(
            adj,
            source,
            self.order[done - 1].0,
            next,
            self.order[done - 1].1 as nat,
        );
        assert forall|node: u32| #[trigger] after.slot.contains_key(node) implies 0
            <= after.slot[node] < after.order.len() && after.order[after.slot[node]].0 == node by {
            if node != next {
                assert(self.slot.contains_key(node));
            }
        }
        assert forall|i: int| 0 <= i < after.order.len() implies after.slot.contains_key(
            (#[trigger] after.order[i]).0,
        ) && after.slot[after.order[i].0] == i by {
            if i < n {
                assert(self.slot.contains_key(self.order[i].0));
            }
        }
        assert forall|i: int| 0 <= i < after.order.len() implies reaches_in(
            adj,
            source,
            (#[trigger] after.order[i]).0,
            after.order[i].1 as nat,
        ) by {
            if i < n {
                assert(reaches_in(adj, source, self.order[i].0, self.order[i].1 as nat));
            }
        }
        assert forall|i: int| 0 <= i < after.order.len() implies (#[trigger] after.order[i]).1
            <= i by {
            if i < n {
                assert(self.order[i].1 <= i);
            } else {
                assert(self.order[done - 1].1 <= done - 1);
            }
        }
        assert forall|i: int, j: int| 0 <= i <= j < after.order.len() implies (
        #[trigger] after.order[i]).1 <= (#[trigger] after.order[j]).1 by {
            if j < n {
                assert(self.order[i].1 <= self.order[j].1);
            } else if i < n {
                assert(self.order[i].1 <= self.order[n - 1].1);
            }
        }
        assert(after.wf(adj, source, done));
        assert forall|node: u32, limit: int| self.found_within(node, limit) implies after.found_within(
            node,
            limit,
        ) by {
            assert(self.slot.contains_key(node));
        }
        assert forall|i: int| 0 <= i < done - 1 implies #[trigger] after.expanded(adj, i) by {
            assert(self.expanded(adj, i));
        }
        assert forall|node: u32| #[trigger] distances.contains_key(node) implies distances[node]
            == after.order[after.slot[node]].1 by {
            assert(self.slot.contains_key(node));
        }
    }

    /// Once every successor of the entry being expanded has been scanned,
    /// the entry is expanded.
    proof fn lemma_scanned_all(self, adj: Map<u32, Seq<u32>>, done: int, targets: Seq<u32>)
        requires
            done >= 1,
            self.expanded_up_to(adj, done - 1),
            targets == successors(adj, self.order[done - 1].0),
            self.scanned(targets, targets.len() as int, self.order[done - 1].1 + 1),
        ensures
            self.expanded_up_to(adj, done),
    {
        assert forall|i: int| 0 <= i < done implies #[trigger] self.expanded(adj, i) by {
            if i < done - 1 {
                assert(self.expanded(adj, i));
            }
        }
    }

    /// When nothing is left to expand, whatever a walk of `hops` edges
    /// reaches has been discovered with a hop count of at most `hops`.
    proof fn lemma_walks_are_found(
        self,
        adj: Map<u32, Seq<u32>>,
        source: u32,
        target: u32,
        hops: nat,
    )
        requires
            self.wf(adj, source, self.len()),
            self.expanded_up_to(adj, self.len()),
            reaches_in(adj, source, target, hops),
        ensures
            self.found_within(target, hops as int),
        decreases hops,
    {
        if hops == 0 {
            lemma_zero_hops_is_source(adj, source, target);
            assert(self.slot.contains_key(self.order[0].0));
        } else {
            let via = lemma_reaches_last_edge(adj, source, target, hops);
            self.lemma_walks_are_found(adj, source, via, (hops - 1) as nat);
            let i = self.slot[via];
            assert(self.expanded(adj, i));
            assert(has_edge(adj, self.order[i].0, target));
        }
    }

    /// When nothing is left to expand, the recorded hop counts are the distances.
    proof fn lemma_complete(self, adj: Map<u32, Seq<u32>>, source: u32, distances: Map<u32, usize>)
        requires
            self.wf(adj, source, self.len()),
            self.expanded_up_to(adj, self.len()),
            self.recorded(self.len(), distances),
        ensures
            forall|node: u32| #[trigger]
                distances.contains_key(node) <==> reachable(adj, source, node),
            forall|node: u32| #[trigger]
                distances.contains_key(node) ==> is_distance(
                    adj,
                    source,
                    node,
                    distances[node] as nat,
                ),
            forall|node: u32| #[trigger] distances.contains_key(node) ==> distances[node] < self.len(),
            distances.contains_key(source),
            distances[source] == 0,
    {
        assert(self.slot.contains_key(self.order[0].0));
        assert forall|node: u32| #[trigger] distances.contains_key(node) implies is_distance(
            adj,
            source,
            node,
            distances[node] as nat,
        ) && distances[node] < self.len() && reachable(adj, source, node) by {
            let i = self.slot[node];
            assert(reaches_in(adj, source, self.order[i].0, self.order[i].1 as nat));
            assert(self.order[i].1 <= i);
            assert forall|fewer: nat| fewer < distances[node] as nat implies !reaches_in(
                adj,
                source,
                node,
                fewer,
            ) by {
                if reaches_in(adj, source, node, fewer) {
                    self.lemma_walks_are_found(adj, source, node, fewer);
                }
            }
        }
        assert forall|node: u32| reachable(adj, source, node) implies #[trigger]
            distances.contains_key(node) by {
            let hops = choose|hops: nat| reaches_in(adj, source, node, hops);
            self.lemma_walks_are_found(adj, source, node, hops);
        }
    }
}

impl Graph {
    /// Computes the hop distance from `source` to every node that can be
    /// reached from it by following edges forward.
    ///
    /// The result has exactly one entry per reachable node, the source
    /// included, and each entry is the length of a shortest walk.
    pub fn bfs(&self, source: u32) -> (distances: HashMap<u32, usize>)
        ensures
            distances@ == distances_from(self@, source),
            forall|node: u32| #[trigger]
                distances@.contains_key(node) <==> reachable(self@, source, node),
            forall|node: u32| #[trigger]
                distances@.contains_key(node) ==> is_distance(
                    self@,
                    source,
                    node,
                    distances@[node] as nat,
                ),
            distances@.contains_key(source),
            distances@[source] == 0,
            forall|node: u32| #[trigger]
                distances@.contains_key(node) ==> distances@[node] < distances@.len(),
    {
        let mut visited: HashSet<u32> = HashSet::new();
        let mut distances: HashMap<u32, usize> = HashMap::new();
        let mut queue: VecDeque<(u32, usize)> = VecDeque::new();

        visited.insert(source);
        queue.push_back((source, 0));

        let ghost mut found = Discovery::start(source);
        let ghost mut done: int = 0;
        proof {
            Discovery::lemma_start(self@, source);
            assert(queue@ =~= found.order.subrange(0, 1));
        }

        loop
            invariant
                found.wf(self@, source, done),
                found.expanded_up_to(self@, done),
                found.recorded(done, distances@),
                visited@ == found.slot.dom(),
                visited@.finite(),
                visited@.len() == found.order.len(),
                distances@.len() == done,
                queue@ == found.order.subrange(done, found.len()),
            ensures
                done == found.len(),
            decreases usize::MAX - done,
        {
            let (node, distance) = match queue.pop_front() {
                Some(entry) => entry,
                None => {
                    break;
                },
            };
            proof {
                assert(queue@ =~= found.order.subrange(done + 1, found.len()));
                assert(found.order[done] == (node, distance));
                assert(found.slot.contains_key(found.order[done].0));
                assert(visited.len() == visited@.len());
                found.lemma_pop(self@, source, done);
                done = done + 1;
            }
            distances.insert(node, distance);

            let targets = self.neighbors(node);
            for k in 0..targets.len()
                invariant
                    done >= 1,
                    found.order[done - 1] == (node, distance),
                    targets@ == successors(self@, node),
                    found.wf(self@, source, done),
                    found.expanded_up_to(self@, done - 1),
                    found.scanned(targets@, k as int, distance + 1),
                    found.recorded(done, distances@),
                    visited@ == found.slot.dom(),
                    visited@.finite(),
                    visited@.len() == found.order.len(),
                    distances@.len() == done,
                    queue@ == found.order.subrange(done, found.len()),
            {
                let neighbor = targets[k];
                proof {
                    assert(targets@.contains(neighbor));
                    assert(has_edge(self@, node, neighbor));
                }
                if !visited.contains(&neighbor) {
                    proof {
                        assert(visited.len() == visited@.len());
                        assert(found.order[done - 1].1 <= done - 1);
                        found.lemma_push(
                            self@,
                            source,
                            done,
                            neighbor,
                            targets@,
                            k as int,
                            distances@,
                        );
                    }
                    visited.insert(neighbor);
                    queue.push_back((neighbor, distance + 1));
                    proof {
                        found = found.push(neighbor, (distance + 1) as usize);
                        assert(queue@ =~= found.order.subrange(done, found.len()));
                        assert(visited@ =~= found.slot.dom());
                    }
                } else {
                    proof {
                        found.lemma_seen(self@, source, done, neighbor);
                    }
                }
            }
            proof {
                found.lemma_scanned_all(self@, done, targets@);
            }
        }
        proof {
            found.lemma_complete(self@, source, distances@);
            assert forall|node: u32| #[trigger] distances@.contains_key(node) implies distances@[node]
                == distance(self@, source, node) as usize by {
                lemma_distance_unique(self@, source, node, distances@[node] as nat);
            }
            assert(distances@ =~= distances_from(self@, source));
        }
        distances
    }
}

} // verus!
