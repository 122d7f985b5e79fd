//! The two objectives of a partition: the intra-community and the
//! inter-community loss, as exact fractions.
//!
//! For a graph with `m > 0` edges and a partition of its nodes,
//!
//! * the intra loss is `1 - e / m`, where `e` counts the edges whose two
//!   ends lie in one community;
//! * the inter loss is the sum over the communities of `(v / 2m)^2`, where
//!   the volume `v` of a community counts the edge ends that lie in it;
//! * the modularity is `Q = 1 - intra - inter`.
//!
//! Both losses are held as numerators over the common denominator `4 m^2`.
//! A graph without edges has both losses zero over the denominator one, so
//! that its modularity is one.

use crate::error::InputError;
use crate::fx::{map_get, map_insert, set_items};
use crate::graph::{degree_of, CommunityId, Graph, NodeId, Partition};
use crate::graph::lemma_neighbors_of_stranger;
use crate::partition::{is_listing, label_of, partition_entries};
use rustc_hash::FxHashMap;
use vstd::prelude::*;

verus! {

/// The largest number of edges for which the objectives are computed: with
/// it `4 m^2` still fits the 64 bits of a numerator.
pub const MAX_EDGES: usize = 0x7fff_ffff;

/// The objective pair of one partition. The intra loss is `intra / scale`,
/// the inter loss `inter / scale`.
#[derive(Debug, Clone, Copy, PartialEq, Eq, Structural)]
pub struct Objectives {
    pub intra: u64,
    pub inter: u64,
    pub scale: u64,
}

impl Objectives {
    /// Both losses lie between zero and one.
    pub open spec fn wf(&self) -> bool {
        0 < self.scale && self.intra <= self.scale && self.inter <= self.scale
    }

    /// The numerator of the modularity `Q = 1 - intra - inter` over `scale`.
    pub fn modularity_numerator(&self) -> (q: i128)
        ensures
            q == self.scale - self.intra - self.inter,
    {
        self.scale as i128 - self.intra as i128 - self.inter as i128
    }
}

/// The sum, over both ends of every edge, of the weight that `weight` gives
/// to the community of that end.
pub open spec fn end_sum(
    edges: Seq<(NodeId, NodeId)>,
    partition: Map<NodeId, CommunityId>,
    weight: spec_fn(CommunityId) -> nat,
) -> nat
    decreases edges.len(),
{
    if edges.len() == 0 {
        0
    } else {
        end_sum(edges.drop_last(), partition, weight) + weight(partition[edges.last().0]) + weight(
            partition[edges.last().1],
        )
    }
}

/// The weight that is one on `community` and zero elsewhere.
pub open spec fn indicator(community: CommunityId) -> spec_fn(CommunityId) -> nat {
    |label: CommunityId|
        if label == community {
            1nat
        } else {
            0nat
        }
}

/// The number of edges whose two ends carry the same label.
pub open spec fn internal_edges(
    edges: Seq<(NodeId, NodeId)>,
    partition: Map<NodeId, CommunityId>,
) -> nat
    decreases edges.len(),
{
    if edges.len() == 0 {
        0
    } else {
        internal_edges(edges.drop_last(), partition) + if partition[edges.last().0]
            == partition[edges.last().1] {
            1nat
        } else {
            0nat
        }
    }
}

/// The volume of a community: the number of edge ends that lie in it, which
/// is the sum of the degrees of its nodes.
pub open spec fn community_volume(
    edges: Seq<(NodeId, NodeId)>,
    partition: Map<NodeId, CommunityId>,
    community: CommunityId,
) -> nat {
    end_sum(edges, partition, indicator(community))
}

/// The weight that gives each community its volume.
pub open spec fn volume_weight(
    edges: Seq<(NodeId, NodeId)>,
    partition: Map<NodeId, CommunityId>,
) -> spec_fn(CommunityId) -> nat {
    |label: CommunityId| community_volume(edges, partition, label)
}

/// The sum over the communities of the squared volume, counted end by end:
/// every edge end adds the volume of its community, so that a community of
/// volume `v` adds `v * v` in all.
pub open spec fn squared_volumes(
    edges: Seq<(NodeId, NodeId)>,
    partition: Map<NodeId, CommunityId>,
) -> nat {
    end_sum(edges, partition, volume_weight(edges, partition))
}

/// The common denominator of the two losses.
pub open spec fn objective_scale(edge_count: nat) -> nat {
    if edge_count == 0 {
        1
    } else {
        4 * edge_count * edge_count
    }
}

/// The numerator of the intra loss `1 - e / m` over `4 m^2`.
pub open spec fn intra_loss(
    edges: Seq<(NodeId, NodeId)>,
    partition: Map<NodeId, CommunityId>,
) -> nat {
    (4 * edges.len() * (edges.len() - internal_edges(edges, partition))) as nat
}

/// The numerator of the inter loss over `4 m^2`.
pub open spec fn inter_loss(
    edges: Seq<(NodeId, NodeId)>,
    partition: Map<NodeId, CommunityId>,
) -> nat {
    squared_volumes(edges, partition)
}

/// The objectives that the definitions give to `partition` on `edges`.
pub open spec fn objectives_of(
    edges: Seq<(NodeId, NodeId)>,
    partition: Map<NodeId, CommunityId>,
) -> (nat, nat, nat) {
    (intra_loss(edges, partition), inter_loss(edges, partition), objective_scale(edges.len()))
}

/// Every node of the graph has a label.
pub open spec fn covers(nodes: Set<NodeId>, partition: Map<NodeId, CommunityId>) -> bool {
    forall|node: NodeId| #[trigger] nodes.contains(node) ==> partition.contains_key(node)
}

/// `degrees` is the degree table of the graph.
pub open spec fn is_degree_table(degrees: Map<NodeId, usize>, graph: &Graph) -> bool {
    &&& degrees.dom() == graph.nodes@
    &&& forall|node: NodeId| #[trigger]
        graph.nodes@.contains(node) ==> degrees[node] == degree_of(graph.edges@, node)
}

/// No more edges can be internal than there are edges.
pub proof fn lemma_internal_edges_bound(
    edges: Seq<(NodeId, NodeId)>,
    partition: Map<NodeId, CommunityId>,
)
    ensures
        internal_edges(edges, partition) <= edges.len(),
    decreases edges.len(),
{
    if edges.len() > 0 {
        lemma_internal_edges_bound(edges.drop_last(), partition);
    }
}

/// A sum over the edge ends is at most the number of ends times the largest
/// weight.
pub proof fn lemma_end_sum_bound(
    edges: Seq<(NodeId, NodeId)>,
    partition: Map<NodeId, CommunityId>,
    weight: spec_fn(CommunityId) -> nat,
    bound: nat,
)
    requires
        forall|label: CommunityId| #[trigger] weight(label) <= bound,
    ensures
        end_sum(edges, partition, weight) <= 2 * edges.len() * bound,
    decreases edges.len(),
{
    if edges.len() > 0 {
        lemma_end_sum_bound(edges.drop_last(), partition, weight, bound);
        assert(2 * (edges.len() - 1) * bound + bound + bound == 2 * edges.len() * bound)
            by (nonlinear_arith);
    }
}

/// Both losses lie between zero and one: the numerators do not exceed the
/// common denominator.
pub proof fn lemma_losses_within_scale(
    edges: Seq<(NodeId, NodeId)>,
    partition: Map<NodeId, CommunityId>,
)
    ensures
        intra_loss(edges, partition) <= objective_scale(edges.len()),
        inter_loss(edges, partition) <= objective_scale(edges.len()),
        edges.len() == 0 ==> intra_loss(edges, partition) == 0 && inter_loss(edges, partition)
            == 0,
{
    let m = edges.len();
    let e = internal_edges(edges, partition);
    lemma_internal_edges_bound(edges, partition);
    assert(4 * m * (m - e) <= 4 * m * m) by (nonlinear_arith)
        requires
            0 <= e <= m,
    ;
    assert forall|label: CommunityId| #[trigger]
        volume_weight(edges, partition)(label) <= 2 * m by {
        lemma_end_sum_bound(edges, partition, indicator(label), 1);
    }
    lemma_end_sum_bound(edges, partition, volume_weight(edges, partition), 2 * m);
    assert(2 * m * (2 * m) == 4 * m * m) by (nonlinear_arith);
}

/// The sum over the listed nodes of the node's degree times the weight of
/// its community.
pub open spec fn node_sum(
    entries: Seq<(NodeId, CommunityId)>,
    edges: Seq<(NodeId, NodeId)>,
    weight: spec_fn(CommunityId) -> nat,
) -> nat
    decreases entries.len(),
{
    if entries.len() == 0 {
        0
    } else {
        node_sum(entries.drop_last(), edges, weight) + degree_of(edges, entries.last().0) * weight(
            entries.last().1,
        )
    }
}

/// The sum of the weights of the entries whose node is `node`.
spec fn hit(
    entries: Seq<(NodeId, CommunityId)>,
    node: NodeId,
    weight: spec_fn(CommunityId) -> nat,
) -> nat
    decreases entries.len(),
{
    if entries.len() == 0 {
        0
    } else {
        hit(entries.drop_last(), node, weight) + if entries.last().0 == node {
            weight(entries.last().1)
        } else {
            0
        }
    }
}

/// One more edge raises the degree of each of its ends by one.
pub proof fn lemma_degree_push(edges: Seq<(NodeId, NodeId)>, edge: (NodeId, NodeId), node: NodeId)
    ensures
        degree_of(edges.push(edge), node) == degree_of(edges, node) + (if edge.0 == node {
            1nat
        } else {
            0nat
        }) + (if edge.1 == node {
            1nat
        } else {
            0nat
        }),
{
    let longer = edges.push(edge);
    assert(longer.drop_last() == edges);
    assert(longer.last() == edge);
}

/// A node has at most two neighbours for each edge.
pub proof fn lemma_degree_bound(edges: Seq<(NodeId, NodeId)>, node: NodeId)
    ensures
        degree_of(edges, node) <= 2 * edges.len(),
    decreases edges.len(),
{
    if edges.len() > 0 {
        lemma_degree_bound(edges.drop_last(), node);
    }
}

proof fn lemma_node_sum_no_edges(
    entries: Seq<(NodeId, CommunityId)>,
    weight: spec_fn(CommunityId) -> nat,
)
    ensures
        node_sum(entries, Seq::empty(), weight) == 0,
    decreases entries.len(),
{
    if entries.len() > 0 {
        lemma_node_sum_no_edges(entries.drop_last(), weight);
        assert(degree_of(Seq::<(NodeId, NodeId)>::empty(), entries.last().0) == 0);
        assert(0 * weight(entries.last().1) == 0);
    }
}

proof fn lemma_node_sum_push(
    entries: Seq<(NodeId, CommunityId)>,
    edges: Seq<(NodeId, NodeId)>,
    edge: (NodeId, NodeId),
    weight: spec_fn(CommunityId) -> nat,
)
    ensures
        node_sum(entries, edges.push(edge), weight) == node_sum(entries, edges, weight) + hit(
            entries,
            edge.0,
            weight,
        ) + hit(entries, edge.1, weight),
    decreases entries.len(),
{
    if entries.len() > 0 {
        lemma_node_sum_push(entries.drop_last(), edges, edge, weight);
        let node = entries.last().0;
        let w = weight(entries.last().1);
        let d = degree_of(edges, node);
        lemma_degree_push(edges, edge, node);
        let x: nat = if edge.0 == node {
            1
        } else {
            0
        };
        let y: nat = if edge.1 == node {
            1
        } else {
            0
        };
        assert((d + x + y) * w == d * w + x * w + y * w) by (nonlinear_arith);
        assert(x * w == if edge.0 == node {
            w
        } else {
            0
        }) by (nonlinear_arith)
            requires
                x == if edge.0 == node {
                    1nat
                } else {
                    0nat
                },
        ;
        assert(y * w == if edge.1 == node {
            w
        } else {
            0
        }) by (nonlinear_arith)
            requires
                y == if edge.1 == node {
                    1nat
                } else {
                    0nat
                },
        ;
    }
}

proof fn lemma_hit_absent(
    entries: Seq<(NodeId, CommunityId)>,
    node: NodeId,
    weight: spec_fn(CommunityId) -> nat,
)
    requires
        forall|j: int| 0 <= j < entries.len() ==> (#[trigger] entries[j]).0 != node,
    ensures
        hit(entries, node, weight) == 0,
    decreases entries.len(),
{
    if entries.len() > 0 {
        let shorter = entries.drop_last();
        assert forall|j: int| 0 <= j < shorter.len() implies (#[trigger] shorter[j]).0 != node by {
            assert(shorter[j] == entries[j]);
        }
        lemma_hit_absent(shorter, node, weight);
        assert(entries.last() == entries[entries.len() - 1]);
    }
}

proof fn lemma_hit_present(
    entries: Seq<(NodeId, CommunityId)>,
    node: NodeId,
    weight: spec_fn(CommunityId) -> nat,
    at: int,
)
    requires
        forall|i: int, j: int| 0 <= i < j < entries.len() ==> entries[i].0 < entries[j].0,
        0 <= at < entries.len(),
        entries[at].0 == node,
    ensures
        hit(entries, node, weight) == weight(entries[at].1),
    decreases entries.len(),
{
    let shorter = entries.drop_last();
    assert forall|i: int, j: int| 0 <= i < j < shorter.len() implies shorter[i].0
        < shorter[j].0 by {
        assert(shorter[i] == entries[i]);
        assert(shorter[j] == entries[j]);
    }
    if at == entries.len() - 1 {
        assert forall|j: int| 0 <= j < shorter.len() implies (#[trigger] shorter[j]).0 != node by {
            assert(shorter[j] == entries[j]);
            assert(entries[j].0 < entries[at].0);
        }
        lemma_hit_absent(shorter, node, weight);
    } else {
        assert(entries[at].0 < entries[entries.len() - 1].0);
        assert(shorter[at] == entries[at]);
        lemma_hit_present(shorter, node, weight, at);
    }
}

/// Summing by node is summing by edge end: the degree of a node counts the
/// edge ends at it, so the sum over the nodes of degree times weight is the
/// sum of the weights over all edge ends.
pub proof fn lemma_node_sum_is_end_sum(
    entries: Seq<(NodeId, CommunityId)>,
    partition: Map<NodeId, CommunityId>,
    edges: Seq<(NodeId, NodeId)>,
    weight: spec_fn(CommunityId) -> nat,
)
    requires
        is_listing(entries, partition),
        forall|i: int|
            0 <= i < edges.len() ==> partition.contains_key((#[trigger] edges[i]).0)
                && partition.contains_key(edges[i].1),
    ensures
        node_sum(entries, edges, weight) == end_sum(edges, partition, weight),
    decreases edges.len(),
{
    if edges.len() == 0 {
        assert(edges =~= Seq::empty());
        lemma_node_sum_no_edges(entries, weight);
    } else {
        let rest = edges.drop_last();
        let edge = edges.last();
        assert(edges =~= rest.push(edge));
        assert forall|i: int| 0 <= i < rest.len() implies partition.contains_key(
            (#[trigger] rest[i]).0,
        ) && partition.contains_key(rest[i].1) by {
            assert(rest[i] == edges[i]);
        }
        lemma_node_sum_is_end_sum(entries, partition, rest, weight);
        lemma_node_sum_push(entries, rest, edge, weight);
        assert(edge == edges[edges.len() - 1]);
        let from = choose|j: int| 0 <= j < entries.len() && #[trigger] entries[j].0 == edge.0;
        lemma_hit_present(entries, edge.0, weight, from);
        let to = choose|j: int| 0 <= j < entries.len() && #[trigger] entries[j].0 == edge.1;
        lemma_hit_present(entries, edge.1, weight, to);
    }
}

/// A sum over the first entries of a listing is no more than the sum over
/// all of them.
proof fn lemma_node_sum_prefix(
    entries: Seq<(NodeId, CommunityId)>,
    edges: Seq<(NodeId, NodeId)>,
    weight: spec_fn(CommunityId) -> nat,
    count: int,
)
    requires
        0 <= count <= entries.len(),
    ensures
        node_sum(entries.take(count), edges, weight) <= node_sum(entries, edges, weight),
    decreases entries.len() - count,
{
    if count == entries.len() {
        assert(entries.take(count) =~= entries);
    } else {
        lemma_node_sum_prefix(entries, edges, weight, count + 1);
        lemma_node_sum_step(entries, edges, weight, count);
    }
}

/// Taking one more entry into the sum adds that entry's degree times weight.
proof fn lemma_node_sum_step(
    entries: Seq<(NodeId, CommunityId)>,
    edges: Seq<(NodeId, NodeId)>,
    weight: spec_fn(CommunityId) -> nat,
    count: int,
)
    requires
        0 <= count < entries.len(),
    ensures
        node_sum(entries.take(count + 1), edges, weight) == node_sum(
            entries.take(count),
            edges,
            weight,
        ) + degree_of(edges, entries[count].0) * weight(entries[count].1),
{
    let longer = entries.take(count + 1);
    assert(longer.drop_last() =~= entries.take(count));
    assert(longer.last() == entries[count]);
}

/// The volume that `volumes` holds for `community`: zero where it holds
/// none.
pub open spec fn volume_or_zero(volumes: Map<CommunityId, u64>, community: CommunityId) -> nat {
    if volumes.contains_key(community) {
        volumes[community] as nat
    } else {
        0
    }
}

/// Both ends of every edge have a label.
pub open spec fn ends_labelled(
    edges: Seq<(NodeId, NodeId)>,
    partition: Map<NodeId, CommunityId>,
) -> bool {
    forall|i: int|
        0 <= i < edges.len() ==> partition.contains_key((#[trigger] edges[i]).0)
            && partition.contains_key(edges[i].1)
}

/// Tells whether every node of the graph has a label in `partition`.
pub fn covers_graph(graph: &Graph, partition: &Partition) -> (covered: bool)
    ensures
        covered == covers(graph.nodes@, partition@),
{
    let nodes = set_items(&graph.nodes);
    let mut i: usize = 0;
    while i < nodes.len()
        invariant
            i <= nodes@.len(),
            nodes@.to_set() == graph.nodes@,
            forall|j: int| 0 <= j < i ==> partition@.contains_key(#[trigger] nodes@[j]),
        decreases nodes@.len() - i,
    {
        if label_of(partition, nodes[i]).is_none() {
            assert(nodes@.to_set().contains(nodes@[i as int]));
            return false;
        }
        i += 1;
    }
    assert forall|node: NodeId| #[trigger] graph.nodes@.contains(node) implies partition@.contains_key(
        node,
    ) by {
        assert(nodes@.to_set().contains(node));
        let j = choose|j: int| 0 <= j < nodes@.len() && nodes@[j] == node;
        assert(partition@.contains_key(nodes@[j]));
    }
    true
}

/// Counts the edges whose two ends carry the same label.
fn count_internal_edges(edges: &Vec<(NodeId, NodeId)>, partition: &Partition) -> (count: usize)
    requires
        ends_labelled(edges@, partition@),
    ensures
        count == internal_edges(edges@, partition@),
{
    let mut count: usize = 0;
    let mut i: usize = 0;
    while i < edges.len()
        invariant
            i <= edges@.len(),
            ends_labelled(edges@, partition@),
            count == internal_edges(edges@.take(i as int), partition@),
            count <= i,
        decreases edges@.len() - i,
    {
        let from = label_of(partition, edges[i].0);
        let to = label_of(partition, edges[i].1);
        proof {
            let longer = edges@.take(i + 1);
            assert(longer.drop_last() =~= edges@.take(i as int));
            assert(longer.last() == edges@[i as int]);
        }
        if from == to {
            count += 1;
        }
        i += 1;
    }
    assert(edges@.take(i as int) =~= edges@);
    count
}

/// Looks the degree of `node` up in the degree table. A node that the
/// graph does not have has degree zero.
fn degree_in(graph: &Graph, degrees: &FxHashMap<NodeId, usize>, node: NodeId) -> (degree: u64)
    requires
        graph.wf(),
        graph.edges@.len() <= MAX_EDGES,
        is_degree_table(degrees@, graph),
    ensures
        degree == degree_of(graph.edges@, node),
        degree <= 2 * graph.edges@.len(),
{
    proof {
        lemma_degree_bound(graph.edges@, node);
    }
    match map_get(degrees, node) {
        Some(degree) => *degree as u64,
        None => {
            proof {
                lemma_neighbors_of_stranger(graph.edges@, node);
            }
            0
        },
    }
}

/// Adds up the degrees of the nodes of each community.
fn sum_volumes(
    graph: &Graph,
    degrees: &FxHashMap<NodeId, usize>,
    entries: &Vec<(NodeId, CommunityId)>,
    partition: Ghost<Map<NodeId, CommunityId>>,
) -> (volumes: FxHashMap<CommunityId, u64>)
    requires
        graph.wf(),
        graph.edges@.len() <= MAX_EDGES,
        is_degree_table(degrees@, graph),
        is_listing(entries@, partition@),
        ends_labelled(graph.edges@, partition@),
    ensures
        forall|community: CommunityId| #[trigger]
            volume_or_zero(volumes@, community) == community_volume(
                graph.edges@,
                partition@,
                community,
            ),
{
    let ghost edges = graph.edges@;
    let mut volumes: FxHashMap<CommunityId, u64> = FxHashMap::default();
    let mut i: usize = 0;
    while i < entries.len()
        invariant
            i <= entries@.len(),
            edges == graph.edges@,
            graph.wf(),
            edges.len() <= MAX_EDGES,
            is_degree_table(degrees@, graph),
            is_listing(entries@, partition@),
            ends_labelled(edges, partition@),
            forall|community: CommunityId| #[trigger]
                volume_or_zero(volumes@, community) == node_sum(
                    entries@.take(i as int),
                    edges,
                    indicator(community),
                ),
        decreases entries@.len() - i,
    {
        let node = entries[i].0;
        let label = entries[i].1;
        let degree = degree_in(graph, degrees, node);
        let ghost before = volumes@;
        assert(volume_or_zero(before, label) + degree <= 2 * edges.len()) by {
            lemma_node_sum_step(entries@, edges, indicator(label), i as int);
            lemma_node_sum_prefix(entries@, edges, indicator(label), i + 1);
            lemma_node_sum_is_end_sum(entries@, partition@, edges, indicator(label));
            lemma_end_sum_bound(edges, partition@, indicator(label), 1);
            assert(degree * 1 == degree) by (nonlinear_arith);
        }
        let sum = match map_get(&volumes, label) {
            Some(volume) => *volume + degree,
            None => degree,
        };
        map_insert(&mut volumes, label, sum);
        assert forall|community: CommunityId| #[trigger]
            volume_or_zero(volumes@, community) == node_sum(
                entries@.take(i + 1),
                edges,
                indicator(community),
            ) by {
            lemma_node_sum_step(entries@, edges, indicator(community), i as int);
            assert(volume_or_zero(before, community) == node_sum(
                entries@.take(i as int),
                edges,
                indicator(community),
            ));
            if community == label {
                assert(degree * 1 == degree) by (nonlinear_arith);
            } else {
                assert(degree * 0 == 0) by (nonlinear_arith);
            }
        }
        i += 1;
    }
    assert(entries@.take(i as int) =~= entries@);
    assert forall|community: CommunityId| #[trigger]
        volume_or_zero(volumes@, community) == community_volume(
            edges,
            partition@,
            community,
        ) by {
        assert(volume_or_zero(volumes@, community) == node_sum(
            entries@.take(i as int),
            edges,
            indicator(community),
        ));
        lemma_node_sum_is_end_sum(entries@, partition@, edges, indicator(community));
    }
    volumes
}

/// Adds up, over the nodes, the degree of the node times the volume of its
/// community.
fn sum_squared_volumes(
    graph: &Graph,
    degrees: &FxHashMap<NodeId, usize>,
    entries: &Vec<(NodeId, CommunityId)>,
    volumes: &FxHashMap<CommunityId, u64>,
    partition: Ghost<Map<NodeId, CommunityId>>,
) -> (total: u64)
    requires
        graph.wf(),
        0 < graph.edges@.len() <= MAX_EDGES,
        is_degree_table(degrees@, graph),
        is_listing(entries@, partition@),
        ends_labelled(graph.edges@, partition@),
        forall|community: CommunityId| #[trigger]
            volume_or_zero(volumes@, community) == community_volume(
                graph.edges@,
                partition@,
                community,
            ),
    ensures
        total == squared_volumes(graph.edges@, partition@),
        total <= objective_scale(graph.edges@.len()),
{
    let ghost edges = graph.edges@;
    let ghost weight = volume_weight(edges, partition@);
    proof {
        lemma_node_sum_is_end_sum(entries@, partition@, edges, weight);
        lemma_losses_within_scale(edges, partition@);
        assert(4 * edges.len() * edges.len() <= 4 * 0x7fff_ffff * 0x7fff_ffff) by (nonlinear_arith)
            requires
                edges.len() <= 0x7fff_ffff,
        ;
    }
    let mut total: u64 = 0;
    let mut i: usize = 0;
    while i < entries.len()
        invariant
            i <= entries@.len(),
            edges == graph.edges@,
            weight == volume_weight(edges, partition@),
            graph.wf(),
            0 < edges.len() <= MAX_EDGES,
            is_degree_table(degrees@, graph),
            forall|community: CommunityId| #[trigger]
                volume_or_zero(volumes@, community) == community_volume(
                    edges,
                    partition@,
                    community,
                ),
            total == node_sum(entries@.take(i as int), edges, weight),
            node_sum(entries@, edges, weight) == squared_volumes(edges, partition@),
            squared_volumes(edges, partition@) <= objective_scale(edges.len()),
            objective_scale(edges.len()) <= u64::MAX,
        decreases entries@.len() - i,
    {
        let node = entries[i].0;
        let label = entries[i].1;
        let degree = degree_in(graph, degrees, node);
        let volume = match map_get(volumes, label) {
            Some(volume) => *volume,
            None => 0,
        };
        proof {
            assert(volume == volume_or_zero(volumes@, label));
            assert(volume == weight(label));
            lemma_node_sum_step(entries@, edges, weight, i as int);
            lemma_node_sum_prefix(entries@, edges, weight, i + 1);
            assert(degree * volume >= 0) by (nonlinear_arith)
                requires
                    degree >= 0,
                    volume >= 0,
            ;
        }
        total = total + degree * volume;
        i += 1;
    }
    assert(entries@.take(i as int) =~= entries@);
    total
}

/// Evaluates `partition` on `graph`: the intra and the inter loss over
/// their common denominator. The degrees are read from the degree table
/// `degrees`, which was computed once for the graph.
pub fn get_fitness(
    graph: &Graph,
    partition: &Partition,
    degrees: &FxHashMap<NodeId, usize>,
) -> (objectives: Objectives)
    requires
        graph.wf(),
        graph.edges@.len() <= MAX_EDGES,
        covers(graph.nodes@, partition@),
        is_degree_table(degrees@, graph),
    ensures
        objectives.wf(),
        (objectives.intra as nat, objectives.inter as nat, objectives.scale as nat)
            == objectives_of(graph.edges@, partition@),
{
    let ghost edges = graph.edges@;
    let edge_count = graph.edges.len() as u64;
    if edge_count == 0 {
        proof {
            lemma_losses_within_scale(edges, partition@);
        }
        return Objectives { intra: 0, inter: 0, scale: 1 };
    }
    assert(ends_labelled(edges, partition@));
    let internal = count_internal_edges(&graph.edges, partition) as u64;
    let entries = partition_entries(partition);
    let volumes = sum_volumes(graph, degrees, &entries, Ghost(partition@));
    let inter = sum_squared_volumes(graph, degrees, &entries, &volumes, Ghost(partition@));
    proof {
        lemma_losses_within_scale(edges, partition@);
        lemma_internal_edges_bound(edges, partition@);
        let m = edges.len() as int;
        let e = internal as int;
        assert(4 * m * (m - e) <= 4 * m * m) by (nonlinear_arith)
            requires
                0 <= e <= m,
        ;
        assert(4 * m * m <= 4 * 0x7fff_ffff * 0x7fff_ffff) by (nonlinear_arith)
            requires
                0 <= m <= 0x7fff_ffff,
        ;
        assert(4 * m <= 4 * 0x7fff_ffff);
    }
    let spread = edge_count - internal;
    let intra = 4 * edge_count * spread;
    let scale = 4 * edge_count * edge_count;
    Objectives { intra, inter, scale }
}

/// The objectives of `partition` on `graph`, for a caller that holds no
/// degree table. The input is turned away where the graph has no node or
/// more than `MAX_EDGES` edges, or where some node has no label.
pub fn fitness(graph: &Graph, partition: &Partition) -> (outcome: Result<Objectives, InputError>)
    requires
        graph.wf(),
    ensures
        outcome == if graph.nodes@.len() == 0 {
            Err::<Objectives, InputError>(InputError::EmptyGraph)
        } else if graph.edges@.len() > MAX_EDGES {
            Err(InputError::TooManyEdges)
        } else if !covers(graph.nodes@, partition@) {
            Err(InputError::UncoveredNode)
        } else {
            Ok(
                (Objectives {
                    intra: intra_loss(graph.edges@, partition@) as u64,
                    inter: inter_loss(graph.edges@, partition@) as u64,
                    scale: objective_scale(graph.edges@.len()) as u64,
                }),
            )
        },
        outcome matches Ok(objectives) ==> objectives.wf() && (
            objectives.intra as nat,
            objectives.inter as nat,
            objectives.scale as nat,
        ) == objectives_of(graph.edges@, partition@),
{
    if graph.num_nodes() == 0 {
        return Err(InputError::EmptyGraph);
    }
    if graph.num_edges() > MAX_EDGES {
        return Err(InputError::TooManyEdges);
    }
    if !covers_graph(graph, partition) {
        return Err(InputError::UncoveredNode);
    }
    let degrees = graph.precompute_degrees();
    Ok(get_fitness(graph, partition, &degrees))
}

} // verus!
