//! The static graph model: edge list, node set, adjacency lists and the
//! degree table derived from them.

use crate::fx::{map_get, map_insert, map_remove, set_clone, set_insert, set_items, set_len};
use rustc_hash::{FxHashMap, FxHashSet};
use std::collections::BTreeMap;
use vstd::prelude::*;

verus! {

pub type NodeId = i32;

pub type CommunityId = i32;

pub type Partition = BTreeMap<NodeId, CommunityId>;

/// The neighbours that the edge list `edges` records for `node`, in the order
/// in which the edges were added. An edge `(a, b)` puts `b` into the list of
/// `a` and `a` into the list of `b`; a self-loop puts the node into its own
/// list twice.
pub open spec fn neighbors_of(edges: Seq<(NodeId, NodeId)>, node: NodeId) -> Seq<NodeId>
    decreases edges.len(),
{
    if edges.len() == 0 {
        Seq::empty()
    } else {
        let rest = neighbors_of(edges.drop_last(), node);
        let (from, to) = edges.last();
        let forward = if from == node {
            rest.push(to)
        } else {
            rest
        };
        if to == node {
            forward.push(from)
        } else {
            forward
        }
    }
}

/// The number of edge ends at `node`: a self-loop counts twice.
pub open spec fn degree_of(edges: Seq<(NodeId, NodeId)>, node: NodeId) -> nat {
    neighbors_of(edges, node).len()
}

/// A node that is an end of no edge has no neighbours.
pub proof fn lemma_neighbors_of_stranger(edges: Seq<(NodeId, NodeId)>, node: NodeId)
    requires
        forall|i: int| 0 <= i < edges.len() ==> edges[i].0 != node && edges[i].1 != node,
    ensures
        neighbors_of(edges, node) == Seq::<NodeId>::empty(),
    decreases edges.len(),
{
    if edges.len() > 0 {
        let shorter = edges.drop_last();
        assert forall|i: int| 0 <= i < shorter.len() implies shorter[i].0 != node && shorter[i].1
            != node by {
            assert(shorter[i] == edges[i]);
        }
        lemma_neighbors_of_stranger(shorter, node);
    }
}

#[derive(Debug)]
pub struct Graph {
    pub edges: Vec<(NodeId, NodeId)>,
    pub nodes: FxHashSet<NodeId>,
    pub adjacency_list: FxHashMap<NodeId, Vec<NodeId>>,
}

impl Graph {
    /// The invariant of a graph: the node set is finite, both ends of every
    /// edge are nodes, every node has an adjacency list, and that list is
    /// what the edge list records for the node.
    pub open spec fn wf(&self) -> bool {
        &&& self.nodes@.finite()
        &&& forall|i: int|
            0 <= i < self.edges@.len() ==> self.nodes@.contains(#[trigger] self.edges@[i].0)
                && self.nodes@.contains(self.edges@[i].1)
        &&& self.adjacency_list@.dom() == self.nodes@
        &&& forall|node: NodeId| #[trigger]
            self.nodes@.contains(node) ==> self.adjacency_list@[node]@ == neighbors_of(
                self.edges@,
                node,
            )
    }

    pub fn new() -> (graph: Self)
        ensures
            graph.wf(),
            graph.edges@ == Seq::<(NodeId, NodeId)>::empty(),
            graph.nodes@ == Set::<NodeId>::empty(),
    {
        Graph {
            edges: Vec::new(),
            nodes: FxHashSet::default(),
            adjacency_list: FxHashMap::default(),
        }
    }

    /// Adds `node` to the node set, with no neighbours if it is new.
    pub fn add_node(&mut self, node: NodeId)
        requires
            old(self).wf(),
        ensures
            final(self).wf(),
            final(self).edges@ == old(self).edges@,
            final(self).nodes@ == old(self).nodes@.insert(node),
    {
        if map_get(&self.adjacency_list, node).is_none() {
            proof {
                lemma_neighbors_of_stranger(self.edges@, node);
            }
            set_insert(&mut self.nodes, node);
            map_insert(&mut self.adjacency_list, node, Vec::new());
        } else {
            assert(self.nodes@.insert(node) == self.nodes@);
        }
    }

    /// Appends `value` to the list stored under `key`, starting a list where
    /// there is none.
    fn push_neighbor(lists: &mut FxHashMap<NodeId, Vec<NodeId>>, key: NodeId, value: NodeId)
        ensures
            final(lists)@.dom() == old(lists)@.dom().insert(key),
            final(lists)@[key]@ == (if old(lists)@.contains_key(key) {
                old(lists)@[key]@
            } else {
                Seq::<NodeId>::empty()
            }).push(value),
            forall|other: NodeId|
                other != key && old(lists)@.contains_key(other) ==> #[trigger] final(lists)@[other]
                    == old(lists)@[other],
    {
        let mut list = match map_remove(lists, key) {
            Some(list) => list,
            None => Vec::new(),
        };
        list.push(value);
        map_insert(lists, key, list);
        assert(final(lists)@.dom() =~= old(lists)@.dom().insert(key));
    }

    /// Appends the edge to the edge list, makes both ends nodes, and records
    /// each end in the other's adjacency list.
    pub fn add_edge(&mut self, from: NodeId, to: NodeId)
        requires
            old(self).wf(),
        ensures
            final(self).wf(),
            final(self).edges@ == old(self).edges@.push((from, to)),
            final(self).nodes@ == old(self).nodes@.insert(from).insert(to),
    {
        proof {
            if !self.nodes@.contains(from) {
                lemma_neighbors_of_stranger(self.edges@, from);
            }
            if !self.nodes@.contains(to) {
                lemma_neighbors_of_stranger(self.edges@, to);
            }
        }
        self.edges.push((from, to));
        set_insert(&mut self.nodes, from);
        set_insert(&mut self.nodes, to);
        Self::push_neighbor(&mut self.adjacency_list, from, to);
        Self::push_neighbor(&mut self.adjacency_list, to, from);
        proof {
            let before = old(self).edges@;
            let after = self.edges@;
            assert(after.drop_last() == before);
            assert(after.last() == (from, to));
            assert forall|i: int| 0 <= i < after.len() implies self.nodes@.contains(
                #[trigger] after[i].0,
            ) && self.nodes@.contains(after[i].1) by {
                if i < before.len() {
                    assert(after[i] == before[i]);
                }
            }
            assert(self.adjacency_list@.dom() =~= self.nodes@);
        }
    }

    pub fn num_nodes(&self) -> (count: usize)
        ensures
            count == self.nodes@.len(),
    {
        set_len(&self.nodes)
    }

    pub fn num_edges(&self) -> (count: usize)
        ensures
            count == self.edges@.len(),
    {
        self.edges.len()
    }

    pub fn neighbors(&self, node: &NodeId) -> (list: &[NodeId])
        requires
            self.wf(),
        ensures
            list@ == neighbors_of(self.edges@, *node),
    {
        match map_get(&self.adjacency_list, *node) {
            Some(list) => list.as_slice(),
            None => {
                proof {
                    lemma_neighbors_of_stranger(self.edges@, *node);
                }
                &[]
            },
        }
    }

    /// Precomputes the degree of each node.
    pub fn precompute_degrees(&self) -> (degrees: FxHashMap<NodeId, usize>)
        requires
            self.wf(),
        ensures
            degrees@.dom() == self.nodes@,
            forall|node: NodeId| #[trigger]
                self.nodes@.contains(node) ==> degrees@[node] == degree_of(self.edges@, node),
    {
        let mut degrees: FxHashMap<NodeId, usize> = FxHashMap::default();
        let nodes = set_items(&self.nodes);
        let mut i: usize = 0;
        while i < nodes.len()
            invariant
                self.wf(),
                i <= nodes@.len(),
                nodes@.to_set() == self.nodes@,
                degrees@.dom() == nodes@.take(i as int).to_set(),
                forall|node: NodeId| #[trigger]
                    degrees@.contains_key(node) ==> degrees@[node] == degree_of(
                        self.edges@,
                        node,
                    ),
            decreases nodes@.len() - i,
        {
            let node = nodes[i];
            assert(nodes@.to_set().contains(node));
            let degree = match map_get(&self.adjacency_list, node) {
                Some(list) => list.len(),
                None => 0,
            };
            map_insert(&mut degrees, node, degree);
            assert(nodes@.take(i + 1) == nodes@.take(i as int).push(node));
            proof {
                nodes@.take(i as int).lemma_push_to_set_commute(node);
            }
            i += 1;
        }
        assert(nodes@.take(i as int) == nodes@);
        degrees
    }
}

impl Default for Graph {
    fn default() -> (graph: Self)
        ensures
            graph.wf(),
            graph.edges@ == Seq::<(NodeId, NodeId)>::empty(),
            graph.nodes@ == Set::<NodeId>::empty(),
    {
        Self::new()
    }
}

/// The nodes that are an end of some edge.
pub open spec fn endpoints(edges: Seq<(NodeId, NodeId)>) -> Set<NodeId>
    decreases edges.len(),
{
    if edges.len() == 0 {
        Set::empty()
    } else {
        endpoints(edges.drop_last()).insert(edges.last().0).insert(edges.last().1)
    }
}

/// Builds the graph that has the edges `edges`, in their order, and the
/// ends of these edges as its nodes.
pub fn build_graph(edges: Vec<(NodeId, NodeId)>) -> (graph: Graph)
    ensures
        graph.wf(),
        graph.edges@ == edges@,
        graph.nodes@ == endpoints(edges@),
{
    let mut graph = Graph::new();
    let mut i: usize = 0;
    assert(edges@.take(0) =~= Seq::empty());
    while i < edges.len()
        invariant
            i <= edges@.len(),
            graph.wf(),
            graph.edges@ == edges@.take(i as int),
            graph.nodes@ == endpoints(edges@.take(i as int)),
        decreases edges@.len() - i,
    {
        graph.add_edge(edges[i].0, edges[i].1);
        proof {
            let longer = edges@.take(i + 1);
            assert(longer.drop_last() =~= edges@.take(i as int));
            assert(longer.last() == edges@[i as int]);
            assert(longer =~= edges@.take(i as int).push(edges@[i as int]));
        }
        i += 1;
    }
    assert(edges@.take(i as int) =~= edges@);
    graph
}

impl Clone for Graph {
    fn clone(&self) -> (copy: Self)
        ensures
            copy.edges@ == self.edges@,
            copy.nodes@ == self.nodes@,
            copy.adjacency_list@ == self.adjacency_list@,
            self.wf() ==> copy.wf(),
    {
        let mut edges: Vec<(NodeId, NodeId)> = Vec::new();
        let mut i: usize = 0;
        while i < self.edges.len()
            invariant
                i <= self.edges@.len(),
                edges@ == self.edges@.take(i as int),
            decreases self.edges@.len() - i,
        {
            edges.push(self.edges[i]);
            i += 1;
        }
        assert(self.edges@.take(i as int) == self.edges@);
        Graph {
            edges,
            nodes: set_clone(&self.nodes),
            adjacency_list: self.adjacency_list.clone(),
        }
    }
}

} // verus!
