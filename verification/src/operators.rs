//! The genetic operators: crossover and mutation of partitions, and the
//! random draws that steer them.
//!
//! Each operator is a function of its parents and of the draws that it is
//! handed. The draws are made apart from it, from the generator of the run.

use crate::fx::set_items;
use crate::graph::{neighbors_of, CommunityId, Graph, NodeId, Partition};
use crate::partition::{
    is_listing, label_of, lemma_listing_of, lemma_partition_from, listing_of, partition_entries,
    partition_from,
};
use crate::rng::{advance, draw_of, Rng};
use vstd::prelude::*;

verus! {

/// The label that a child takes at a node: the second parent's where the
/// draw says so and the second parent has one, else the first parent's.
pub open spec fn crossed_label(
    own: CommunityId,
    other: Option<CommunityId>,
    take_other: bool,
) -> CommunityId {
    match other {
        Some(label) if take_other => label,
        _ => own,
    }
}

/// The listing of the child of `first` and `second` under the draws
/// `take_second`, which go by the nodes of `first` in ascending order.
/// Nodes beyond the draws keep the label of `first`.
pub open spec fn crossover_of(
    first: Map<NodeId, CommunityId>,
    second: Map<NodeId, CommunityId>,
    take_second: Seq<bool>,
) -> Seq<(NodeId, CommunityId)> {
    let parent = listing_of(first);
    Seq::new(
        parent.len(),
        |i: int|
            (
                parent[i].0,
                crossed_label(
                    parent[i].1,
                    if second.contains_key(parent[i].0) {
                        Some(second[parent[i].0])
                    } else {
                        None
                    },
                    i < take_second.len() && take_second[i],
                ),
            ),
    )
}

/// The label that a node takes in a mutation: with a pick `r`, the label of
/// its neighbour number `r` modulo its degree; its own label where there is
/// no pick, where it has no neighbour, or where that neighbour has no label.
pub open spec fn mutated_label(
    partition: Map<NodeId, CommunityId>,
    neighbors: Seq<NodeId>,
    own: CommunityId,
    pick: Option<u64>,
) -> CommunityId {
    match pick {
        Some(draw) if neighbors.len() > 0 && partition.contains_key(
            neighbors[draw as int % neighbors.len() as int],
        ) => partition[neighbors[draw as int % neighbors.len() as int]],
        _ => own,
    }
}

/// The listing of the mutant of `partition` under the picks `picks`, which
/// go by the nodes in ascending order. Every node reads its neighbour's
/// label in `partition`, not in the mutant. Nodes beyond the picks keep
/// their label.
pub open spec fn mutation_of(
    partition: Map<NodeId, CommunityId>,
    edges: Seq<(NodeId, NodeId)>,
    picks: Seq<Option<u64>>,
) -> Seq<(NodeId, CommunityId)> {
    let parent = listing_of(partition);
    Seq::new(
        parent.len(),
        |i: int|
            (
                parent[i].0,
                mutated_label(
                    partition,
                    neighbors_of(edges, parent[i].0),
                    parent[i].1,
                    if i < picks.len() {
                        picks[i]
                    } else {
                        None
                    },
                ),
            ),
    )
}

/// A child has at each node the label of one of its parents.
pub proof fn lemma_crossed_label(own: CommunityId, other: Option<CommunityId>, take_other: bool)
    ensures
        crossed_label(own, other, take_other) == own || other == Some(
            crossed_label(own, other, take_other),
        ),
{
}

/// A mutation gives a node no label but its own or that of one of its
/// neighbours.
pub proof fn lemma_mutated_label(
    partition: Map<NodeId, CommunityId>,
    neighbors: Seq<NodeId>,
    own: CommunityId,
    pick: Option<u64>,
)
    ensures
        mutated_label(partition, neighbors, own, pick) == own || exists|k: int|
            0 <= k < neighbors.len() && partition.contains_key(#[trigger] neighbors[k])
                && mutated_label(partition, neighbors, own, pick) == partition[neighbors[k]],
{
    if mutated_label(partition, neighbors, own, pick) != own {
        let draw = pick->0;
        let k = draw as int % neighbors.len() as int;
        assert(partition.contains_key(neighbors[k]));
    }
}

/// The nodes of `entries` under the labels `labels`.
pub open spec fn relabelled_entries(
    entries: Seq<(NodeId, CommunityId)>,
    labels: Seq<CommunityId>,
) -> Seq<(NodeId, CommunityId)> {
    Seq::new(entries.len(), |i: int| (entries[i].0, labels[i]))
}

/// The nodes strictly increase along `entries`.
pub open spec fn ascending(entries: Seq<(NodeId, CommunityId)>) -> bool {
    forall|i: int, j: int| 0 <= i < j < entries.len() ==> entries[i].0 < entries[j].0
}

/// A listing stays a listing when a pair with a larger node is added to
/// both the list and the map.
pub proof fn lemma_listing_push(
    entries: Seq<(NodeId, CommunityId)>,
    partition: Map<NodeId, CommunityId>,
    node: NodeId,
    label: CommunityId,
)
    requires
        is_listing(entries, partition),
        forall|i: int| 0 <= i < entries.len() ==> (#[trigger] entries[i]).0 < node,
    ensures
        is_listing(entries.push((node, label)), partition.insert(node, label)),
{
    let longer = entries.push((node, label));
    let larger = partition.insert(node, label);
    assert forall|i: int, j: int| 0 <= i < j < longer.len() implies longer[i].0
        < longer[j].0 by {
        assert(longer[i] == entries[i]);
        if j < entries.len() {
            assert(longer[j] == entries[j]);
        }
    }
    assert forall|i: int| 0 <= i < longer.len() implies larger.contains_key(
        #[trigger] longer[i].0,
    ) && larger[longer[i].0] == longer[i].1 by {
        if i < entries.len() {
            assert(longer[i] == entries[i]);
        }
    }
    assert forall|other: NodeId| #[trigger] larger.contains_key(other) implies exists|i: int|
        0 <= i < longer.len() && #[trigger] longer[i].0 == other by {
        if other == node {
            assert(longer[entries.len() as int].0 == other);
        } else {
            assert(partition.contains_key(other));
            let i = choose|i: int| 0 <= i < entries.len() && #[trigger] entries[i].0 == other;
            assert(longer[i].0 == other);
        }
    }
}

/// Two maps whose listings go through the same nodes have the same nodes.
pub proof fn lemma_same_nodes(
    first: Seq<(NodeId, CommunityId)>,
    first_map: Map<NodeId, CommunityId>,
    second: Seq<(NodeId, CommunityId)>,
    second_map: Map<NodeId, CommunityId>,
)
    requires
        is_listing(first, first_map),
        is_listing(second, second_map),
        first.len() == second.len(),
        forall|i: int| 0 <= i < first.len() ==> (#[trigger] first[i]).0 == second[i].0,
    ensures
        first_map.dom() == second_map.dom(),
{
    assert forall|node: NodeId| first_map.contains_key(node) <==> second_map.contains_key(
        node,
    ) by {
        if first_map.contains_key(node) {
            let i = choose|i: int| 0 <= i < first.len() && #[trigger] first[i].0 == node;
            assert(first[i].0 == second[i].0);
            assert(second_map.contains_key(second[i].0));
        }
        if second_map.contains_key(node) {
            let i = choose|i: int| 0 <= i < second.len() && #[trigger] second[i].0 == node;
            assert(first[i].0 == second[i].0);
            assert(first_map.contains_key(first[i].0));
        }
    }
    assert(first_map.dom() =~= second_map.dom());
}

/// The partition that gives the nodes of `entries` the labels `labels`, in
/// order.
pub fn assemble(entries: &Vec<(NodeId, CommunityId)>, labels: &Vec<CommunityId>) -> (partition:
    Partition)
    requires
        ascending(entries@),
        labels@.len() == entries@.len(),
    ensures
        is_listing(relabelled_entries(entries@, labels@), partition@),
        listing_of(partition@) == relabelled_entries(entries@, labels@),
        partition@ == partition_from(relabelled_entries(entries@, labels@)),
{
    let ghost target = relabelled_entries(entries@, labels@);
    let mut partition = Partition::new();
    let mut i: usize = 0;
    assert(is_listing(target.take(0), partition@));
    while i < entries.len()
        invariant
            i <= entries@.len(),
            labels@.len() == entries@.len(),
            ascending(entries@),
            target == relabelled_entries(entries@, labels@),
            is_listing(target.take(i as int), partition@),
        decreases entries@.len() - i,
    {
        let ghost before = partition@;
        partition.insert(entries[i].0, labels[i]);
        proof {
            let done = target.take(i as int);
            assert forall|j: int| 0 <= j < done.len() implies (#[trigger] done[j]).0
                < entries@[i as int].0 by {
                assert(done[j].0 == entries@[j].0);
            }
            lemma_listing_push(done, before, entries@[i as int].0, labels@[i as int]);
            assert(target.take(i + 1) =~= done.push((entries@[i as int].0, labels@[i as int])));
        }
        i += 1;
    }
    proof {
        assert(target.take(i as int) =~= target);
        lemma_listing_of(target, partition@);
        lemma_partition_from(target, partition@);
    }
    partition
}

/// Crosses two parents: the child has the nodes of `first`, and at each node
/// the label of `second` where the draw for the node says so, else the label
/// of `first`.
pub fn crossover(first: &Partition, second: &Partition, take_second: &Vec<bool>) -> (child:
    Partition)
    ensures
        is_listing(crossover_of(first@, second@, take_second@), child@),
        child@ == partition_from(crossover_of(first@, second@, take_second@)),
        child@.dom() == first@.dom(),
{
    let entries = partition_entries(first);
    let ghost target = crossover_of(first@, second@, take_second@);
    let mut labels: Vec<CommunityId> = Vec::new();
    let mut i: usize = 0;
    while i < entries.len()
        invariant
            i <= entries@.len(),
            entries@ == listing_of(first@),
            target == crossover_of(first@, second@, take_second@),
            labels@.len() == i,
            forall|j: int| 0 <= j < i ==> #[trigger] labels@[j] == target[j].1,
        decreases entries@.len() - i,
    {
        let own = entries[i].1;
        let take = i < take_second.len() && take_second[i];
        let label = match label_of(second, entries[i].0) {
            Some(other) => if take {
                other
            } else {
                own
            },
            None => own,
        };
        labels.push(label);
        i += 1;
    }
    let child = assemble(&entries, &labels);
    proof {
        assert(relabelled_entries(entries@, labels@) =~= target);
        lemma_same_nodes(target, child@, entries@, first@);
    }
    child
}

/// Mutates a partition: each node with a pick takes the label that its
/// picked neighbour has in `partition`; the others keep theirs.
pub fn mutate(partition: &Partition, graph: &Graph, picks: &Vec<Option<u64>>) -> (mutant:
    Partition)
    requires
        graph.wf(),
    ensures
        is_listing(mutation_of(partition@, graph.edges@, picks@), mutant@),
        mutant@ == partition_from(mutation_of(partition@, graph.edges@, picks@)),
        mutant@.dom() == partition@.dom(),
{
    let entries = partition_entries(partition);
    let ghost target = mutation_of(partition@, graph.edges@, picks@);
    let mut labels: Vec<CommunityId> = Vec::new();
    let mut i: usize = 0;
    while i < entries.len()
        invariant
            i <= entries@.len(),
            graph.wf(),
            entries@ == listing_of(partition@),
            target == mutation_of(partition@, graph.edges@, picks@),
            labels@.len() == i,
            forall|j: int| 0 <= j < i ==> #[trigger] labels@[j] == target[j].1,
        decreases entries@.len() - i,
    {
        let node = entries[i].0;
        let own = entries[i].1;
        let mut label = own;
        if i < picks.len() {
            match picks[i] {
                Some(draw) => {
                    let neighbors = graph.neighbors(&node);
                    if neighbors.len() > 0 {
                        let at = (draw % (neighbors.len() as u64)) as usize;
                        match label_of(partition, neighbors[at]) {
                            Some(other) => {
                                label = other;
                            },
                            None => {},
                        }
                    }
                },
                None => {},
            }
        }
        labels.push(label);
        i += 1;
    }
    let mutant = assemble(&entries, &labels);
    proof {
        assert(relabelled_entries(entries@, labels@) =~= target);
        lemma_same_nodes(target, mutant@, entries@, partition@);
    }
    mutant
}

/// The partition that puts all nodes of the graph into the community zero.
pub fn single_community(graph: &Graph) -> (partition: Partition)
    ensures
        partition@.dom() == graph.nodes@,
        forall|node: NodeId| #[trigger] partition@.contains_key(node) ==> partition@[node] == 0,
{
    let nodes = set_items(&graph.nodes);
    let mut partition = Partition::new();
    let mut i: usize = 0;
    while i < nodes.len()
        invariant
            i <= nodes@.len(),
            partition@.dom() == nodes@.take(i as int).to_set(),
            forall|node: NodeId| #[trigger]
                partition@.contains_key(node) ==> partition@[node] == 0,
        decreases nodes@.len() - i,
    {
        partition.insert(nodes[i], 0);
        proof {
            assert(nodes@.take(i + 1) == nodes@.take(i as int).push(nodes@[i as int]));
            nodes@.take(i as int).lemma_push_to_set_commute(nodes@[i as int]);
        }
        i += 1;
    }
    assert(nodes@.take(i as int) == nodes@);
    partition
}

/// The state of the generator after `steps` draws from `state`.
pub open spec fn advance_by(state: u64, steps: nat) -> u64
    decreases steps,
{
    if steps == 0 {
        state
    } else {
        advance(advance_by(state, (steps - 1) as nat))
    }
}

/// Drawing `more` times after `steps` draws is drawing `steps + more` times.
pub proof fn lemma_advance_by_add(state: u64, steps: nat, more: nat)
    ensures
        advance_by(advance_by(state, steps), more) == advance_by(state, steps + more),
    decreases more,
{
    if more > 0 {
        lemma_advance_by_add(state, steps, (more - 1) as nat);
    }
}

/// The `count` yes-or-no draws at the rate `rate` that a generator in state
/// `state` yields.
pub open spec fn mask_from(state: u64, count: nat, rate: u32) -> Seq<bool> {
    Seq::new(count, |i: int| draw_of(advance_by(state, i as nat)) % 1_000_000 < rate)
}

/// The `count` picks at the rate `rate` that a generator in state `state`
/// yields. Each pick takes two draws: one decides whether there is a pick,
/// the other is the pick.
pub open spec fn picks_from(state: u64, count: nat, rate: u32) -> Seq<Option<u64>> {
    Seq::new(
        count,
        |i: int|
            if draw_of(advance_by(state, (2 * i) as nat)) % 1_000_000 < rate {
                Some(draw_of(advance_by(state, (2 * i + 1) as nat)))
            } else {
                None
            },
    )
}

/// The `count` labels below `range` that a generator in state `state`
/// yields.
pub open spec fn labels_from(state: u64, count: nat, range: u64) -> Seq<CommunityId> {
    Seq::new(count, |i: int| (draw_of(advance_by(state, i as nat)) % range) as CommunityId)
}

/// Draws, for each of `count` nodes, whether it takes the second parent's
/// label.
pub fn draw_mask(rng: &mut Rng, count: usize, rate: u32) -> (mask: Vec<bool>)
    ensures
        mask@ == mask_from(old(rng).state, count as nat, rate),
        final(rng).state == advance_by(old(rng).state, count as nat),
{
    let mut mask: Vec<bool> = Vec::new();
    let mut i: usize = 0;
    while i < count
        invariant
            i <= count,
            mask@.len() == i,
            rng.state == advance_by(old(rng).state, i as nat),
            forall|j: int| 0 <= j < i ==> #[trigger] mask@[j] == mask_from(old(rng).state, count as nat, rate)[j],
        decreases count - i,
    {
        let hit = rng.chance(rate);
        mask.push(hit);
        i += 1;
    }
    assert(mask@ =~= mask_from(old(rng).state, count as nat, rate));
    mask
}

/// Draws, for each of `count` nodes, whether it mutates and which of its
/// neighbours it then follows.
pub fn draw_picks(rng: &mut Rng, count: usize, rate: u32) -> (picks: Vec<Option<u64>>)
    ensures
        picks@ == picks_from(old(rng).state, count as nat, rate),
        final(rng).state == advance_by(old(rng).state, (2 * count) as nat),
{
    let mut picks: Vec<Option<u64>> = Vec::new();
    let mut i: usize = 0;
    while i < count
        invariant
            i <= count,
            picks@.len() == i,
            rng.state == advance_by(old(rng).state, (2 * i) as nat),
            forall|j: int| 0 <= j < i ==> #[trigger] picks@[j] == picks_from(old(rng).state, count as nat, rate)[j],
        decreases count - i,
    {
        let hit = rng.chance(rate);
        let draw = rng.next_u64();
        assert(rng.state == advance_by(old(rng).state, (2 * i + 2) as nat)) by {
            assert(advance_by(old(rng).state, (2 * i + 1) as nat) == advance(
                advance_by(old(rng).state, (2 * i) as nat),
            ));
        }
        picks.push(if hit {
            Some(draw)
        } else {
            None
        });
        i += 1;
    }
    assert(picks@ =~= picks_from(old(rng).state, count as nat, rate));
    picks
}

/// Draws a label below `range` for each of `count` nodes.
pub fn draw_labels(rng: &mut Rng, count: usize, range: u64) -> (labels: Vec<CommunityId>)
    requires
        0 < range <= i32::MAX,
    ensures
        labels@ == labels_from(old(rng).state, count as nat, range),
        final(rng).state == advance_by(old(rng).state, count as nat),
{
    let mut labels: Vec<CommunityId> = Vec::new();
    let mut i: usize = 0;
    while i < count
        invariant
            i <= count,
            0 < range <= i32::MAX,
            labels@.len() == i,
            rng.state == advance_by(old(rng).state, i as nat),
            forall|j: int| 0 <= j < i ==> #[trigger] labels@[j] == labels_from(old(rng).state, count as nat, range)[j],
        decreases count - i,
    {
        let draw = rng.below(range);
        labels.push(draw as CommunityId);
        i += 1;
    }
    assert(labels@ =~= labels_from(old(rng).state, count as nat, range));
    labels
}

} // verus!
