//! The graph store: adjacency lists that grow one edge at a time.

use crate::paths::{nodes_with_out_edges, successors, with_edge};
use std::collections::HashMap;
use vstd::prelude::*;

verus! {

/// A directed graph over nodes named by unsigned integers.
///
/// Its view is the adjacency map: every node that has an outgoing edge is
/// sent to the targets of its edges, in the order in which the edges were
/// added. Repeated edges and self-loops are kept as given. A node that is
/// only ever a target is no key, yet a traversal reaches and visits it.
pub struct Graph {
    edges: HashMap<u32, Vec<u32>>,
}

impl View for Graph {
    type V = Map<u32, Seq<u32>>;

    closed spec fn view(&self) -> Map<u32, Seq<u32>> {
        self.edges@.map_values(|targets: Vec<u32>| targets@)
    }
}

impl Graph {
    /// Every key of the adjacency map has at least one outgoing edge.
    ///
    /// `new` establishes this and `add_edge` keeps it, so it holds of every
    /// graph that a program builds.
    pub open spec fn wf(&self) -> bool {
        forall|node: u32| #[trigger] self@.contains_key(node) ==> self@[node].len() > 0
    }

    /// Creates a graph without edges.
    pub fn new() -> (graph: Graph)
        ensures
            graph@ == Map::<u32, Seq<u32>>::empty(),
            graph.wf(),
    {
        let graph = Graph { edges: HashMap::new() };
        assert(graph@ =~= Map::<u32, Seq<u32>>::empty());
        graph
    }

    /// Appends the edge `from -> to` to the outgoing edges of `from`.
    pub fn add_edge(&mut self, from: u32, to: u32)
        ensures
            final(self)@ == with_edge(old(self)@, from, to),
            old(self).wf() ==> final(self).wf(),
    {
        self.edges.entry(from).or_insert(Vec::new()).push(to);
        assert(self@ =~= with_edge(old(self)@, from, to));
    }

    /// Returns the targets of the outgoing edges of `node`, in the order in
    /// which they were added; nothing for a node without outgoing edges.
    pub fn neighbors(&self, node: u32) -> (targets: &[u32])
        ensures
            targets@ == successors(self@, node),
    {
        match self.edges.get(&node) {
            Some(targets) => targets.as_slice(),
            None => &[],
        }
    }

    /// Returns the number of keys of the adjacency map, which is the
    /// number of nodes that have at least one outgoing edge.
    pub fn node_count(&self) -> (count: usize)
        ensures
            count == self@.len(),
            self.wf() ==> count == nodes_with_out_edges(self@).len(),
    {
        assert(self@.dom() =~= self.edges@.dom());
        proof {
            if self.wf() {
                assert(self@.dom() =~= nodes_with_out_edges(self@));
            }
        }
        self.edges.len()
    }
}

} // verus!
