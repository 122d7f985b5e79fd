//! Picking one partition off a Pareto front.
//!
//! Two policies are offered. The first takes the member of the highest
//! modularity. The second compares the front with the fronts found on
//! randomized graphs of the same degrees, and takes the member that lies
//! farthest from everything that was found by chance.

use crate::fitness::Objectives;
use crate::graph::{degree_of, Graph, NodeId};
use crate::graph::lemma_neighbors_of_stranger;
use crate::fitness::lemma_degree_push;
use crate::fx::set_items;
use crate::operators::{advance_by, lemma_advance_by_add};
use crate::rng::{draw_of, Rng};
use crate::solution::{views, Solution, SolutionView};
use vstd::prelude::*;

verus! {

/// The sum of the two losses: the modularity is highest where it is lowest.
pub open spec fn loss_sum(objectives: Objectives) -> int {
    objectives.intra + objectives.inter
}

/// Among the first `upto` members, the index of the first one with the
/// lowest sum of losses.
pub open spec fn best_q(members: Seq<SolutionView>, upto: int) -> int
    decreases upto,
{
    if upto <= 1 {
        0
    } else {
        let before = best_q(members, upto - 1);
        if loss_sum(members[upto - 1].objectives) < loss_sum(members[before].objectives) {
            upto - 1
        } else {
            before
        }
    }
}

/// The member that `best_q` names has the lowest sum of losses, and it is
/// the first that has it.
pub proof fn lemma_best_q(members: Seq<SolutionView>, upto: int)
    requires
        1 <= upto <= members.len(),
    ensures
        0 <= best_q(members, upto) < upto,
        forall|j: int|
            0 <= j < upto ==> loss_sum(members[best_q(members, upto)].objectives) <= loss_sum(
                (#[trigger] members[j]).objectives,
            ),
        forall|j: int|
            0 <= j < best_q(members, upto) ==> loss_sum(members[best_q(members, upto)].objectives)
                < loss_sum((#[trigger] members[j]).objectives),
    decreases upto,
{
    if upto > 1 {
        lemma_best_q(members, upto - 1);
    }
}

/// The index of the member of the highest modularity; of several, the
/// first.
pub fn max_q_index(archive: &Vec<Solution>) -> (index: usize)
    requires
        archive@.len() > 0,
    ensures
        index == best_q(views(archive@), archive@.len() as int),
        index < archive@.len(),
{
    let ghost members = views(archive@);
    let mut index: usize = 0;
    let mut i: usize = 1;
    while i < archive.len()
        invariant
            1 <= i <= archive@.len(),
            members == views(archive@),
            index == best_q(members, i as int),
            index < i,
        decreases archive@.len() - i,
    {
        let candidate = archive[i].objectives;
        let best = archive[index].objectives;
        assert(candidate == members[i as int].objectives);
        assert(best == members[index as int].objectives);
        if candidate.intra as u128 + (candidate.inter as u128) < best.intra as u128 + (
        best.inter as u128) {
            index = i;
        }
        i += 1;
    }
    index
}

/// The member of the highest modularity; of several, the first.
pub fn max_q_selection(archive: &Vec<Solution>) -> (best: &Solution)
    requires
        archive@.len() > 0,
    ensures
        best@ == views(archive@)[best_q(views(archive@), archive@.len() as int)],
{
    let index = max_q_index(archive);
    &archive[index]
}

/// How far apart two pairs of losses lie: the sum of the two differences.
pub open spec fn distance(a: Objectives, b: Objectives) -> int {
    (if a.intra >= b.intra {
        a.intra - b.intra
    } else {
        b.intra - a.intra
    }) + (if a.inter >= b.inter {
        a.inter - b.inter
    } else {
        b.inter - a.inter
    })
}

/// The objectives of all members of all fronts, front after front.
pub open spec fn ensemble_of(fronts: Seq<Seq<SolutionView>>) -> Seq<Objectives>
    decreases fronts.len(),
{
    if fronts.len() == 0 {
        Seq::empty()
    } else {
        ensemble_of(fronts.drop_last()) + fronts.last().map_values(
            |member: SolutionView| member.objectives,
        )
    }
}

/// The distance from `objectives` to the nearest of the first `upto`
/// members of the ensemble, which are at least one.
pub open spec fn deviation(objectives: Objectives, ensemble: Seq<Objectives>, upto: int) -> int
    decreases upto,
{
    if upto <= 1 {
        distance(objectives, ensemble[0])
    } else {
        let before = deviation(objectives, ensemble, upto - 1);
        let here = distance(objectives, ensemble[upto - 1]);
        if here < before {
            here
        } else {
            before
        }
    }
}

/// Among the first `upto` members, the index of the first one that lies
/// farthest from the ensemble.
pub open spec fn most_deviant(
    members: Seq<SolutionView>,
    ensemble: Seq<Objectives>,
    upto: int,
) -> int
    decreases upto,
{
    if upto <= 1 {
        0
    } else {
        let before = most_deviant(members, ensemble, upto - 1);
        if deviation(members[upto - 1].objectives, ensemble, ensemble.len() as int) > deviation(
            members[before].objectives,
            ensemble,
            ensemble.len() as int,
        ) {
            upto - 1
        } else {
            before
        }
    }
}

/// The index that the min-max policy picks: with an ensemble, the first
/// member that lies farthest from it; without one, the member of the
/// highest modularity.
pub open spec fn min_max_pick(members: Seq<SolutionView>, ensemble: Seq<Objectives>) -> int {
    if ensemble.len() == 0 {
        best_q(members, members.len() as int)
    } else {
        most_deviant(members, ensemble, members.len() as int)
    }
}

/// The deviation is the distance to some member of the ensemble, and no
/// member is nearer.
pub proof fn lemma_deviation(objectives: Objectives, ensemble: Seq<Objectives>, upto: int)
    requires
        1 <= upto <= ensemble.len(),
    ensures
        forall|j: int|
            0 <= j < upto ==> deviation(objectives, ensemble, upto) <= distance(
                objectives,
                #[trigger] ensemble[j],
            ),
        exists|j: int|
            0 <= j < upto && deviation(objectives, ensemble, upto) == distance(
                objectives,
                #[trigger] ensemble[j],
            ),
        0 <= deviation(objectives, ensemble, upto) <= 2 * u64::MAX,
    decreases upto,
{
    if upto > 1 {
        lemma_deviation(objectives, ensemble, upto - 1);
        let j = choose|j: int|
            0 <= j < upto - 1 && deviation(objectives, ensemble, upto - 1) == distance(
                objectives,
                #[trigger] ensemble[j],
            );
        if distance(objectives, ensemble[upto - 1]) < deviation(objectives, ensemble, upto - 1) {
            assert(deviation(objectives, ensemble, upto) == distance(
                objectives,
                ensemble[upto - 1],
            ));
        } else {
            assert(deviation(objectives, ensemble, upto) == distance(objectives, ensemble[j]));
        }
    } else {
        assert(deviation(objectives, ensemble, upto) == distance(objectives, ensemble[0]));
    }
}

/// The deviation grows with the distances: a pair of losses that lies at
/// least as far from every member of the ensemble as another pair does has
/// at least the deviation of that pair.
pub proof fn lemma_deviation_monotone(
    far: Objectives,
    near: Objectives,
    ensemble: Seq<Objectives>,
    upto: int,
)
    requires
        1 <= upto <= ensemble.len(),
        forall|j: int|
            0 <= j < upto ==> distance(far, #[trigger] ensemble[j]) >= distance(near, ensemble[j]),
    ensures
        deviation(far, ensemble, upto) >= deviation(near, ensemble, upto),
    decreases upto,
{
    if upto > 1 {
        lemma_deviation_monotone(far, near, ensemble, upto - 1);
        assert(distance(far, ensemble[upto - 1]) >= distance(near, ensemble[upto - 1]));
    } else {
        assert(distance(far, ensemble[0]) >= distance(near, ensemble[0]));
    }
}

/// The member that `most_deviant` names lies at least as far from the
/// ensemble as every other, and it is the first that does.
pub proof fn lemma_most_deviant(members: Seq<SolutionView>, ensemble: Seq<Objectives>, upto: int)
    requires
        1 <= upto <= members.len(),
    ensures
        0 <= most_deviant(members, ensemble, upto) < upto,
        forall|j: int|
            0 <= j < upto ==> deviation(
                (#[trigger] members[j]).objectives,
                ensemble,
                ensemble.len() as int,
            ) <= deviation(
                members[most_deviant(members, ensemble, upto)].objectives,
                ensemble,
                ensemble.len() as int,
            ),
        forall|j: int|
            0 <= j < most_deviant(members, ensemble, upto) ==> deviation(
                (#[trigger] members[j]).objectives,
                ensemble,
                ensemble.len() as int,
            ) < deviation(
                members[most_deviant(members, ensemble, upto)].objectives,
                ensemble,
                ensemble.len() as int,
            ),
    decreases upto,
{
    if upto > 1 {
        lemma_most_deviant(members, ensemble, upto - 1);
    }
}

/// The views of each front of a sequence of fronts.
pub open spec fn front_views(fronts: Seq<Vec<Solution>>) -> Seq<Seq<SolutionView>> {
    fronts.map_values(|front: Vec<Solution>| views(front@))
}

/// Gathers the objectives of all members of all fronts.
fn gather(fronts: &Vec<Vec<Solution>>) -> (ensemble: Vec<Objectives>)
    ensures
        ensemble@ == ensemble_of(front_views(fronts@)),
{
    let ghost all = front_views(fronts@);
    let mut ensemble: Vec<Objectives> = Vec::new();
    let mut i: usize = 0;
    assert(all.take(0) =~= Seq::empty());
    while i < fronts.len()
        invariant
            i <= fronts@.len(),
            all == front_views(fronts@),
            ensemble@ == ensemble_of(all.take(i as int)),
        decreases fronts@.len() - i,
    {
        let front = &fronts[i];
        let ghost before = ensemble@;
        let ghost members = views(front@);
        let mut j: usize = 0;
        while j < front.len()
            invariant
                j <= front@.len(),
                members == views(front@),
                ensemble@ == before + members.map_values(
                    |member: SolutionView| member.objectives,
                ).take(j as int),
            decreases front@.len() - j,
        {
            ensemble.push(front[j].objectives);
            assert(ensemble@ =~= before + members.map_values(
                |member: SolutionView| member.objectives,
            ).take(j + 1));
            j += 1;
        }
        proof {
            let longer = all.take(i + 1);
            assert(longer.drop_last() =~= all.take(i as int));
            assert(longer.last() == members);
            assert(members.map_values(|member: SolutionView| member.objectives).take(j as int)
                =~= members.map_values(|member: SolutionView| member.objectives));
        }
        i += 1;
    }
    assert(all.take(i as int) =~= all);
    ensemble
}

/// The distance between two pairs of losses.
fn distance_between(a: &Objectives, b: &Objectives) -> (far: u128)
    ensures
        far == distance(*a, *b),
{
    let intra: u64 = if a.intra >= b.intra {
        a.intra - b.intra
    } else {
        b.intra - a.intra
    };
    let inter: u64 = if a.inter >= b.inter {
        a.inter - b.inter
    } else {
        b.inter - a.inter
    };
    intra as u128 + inter as u128
}

/// The distance from `objectives` to the nearest member of the ensemble.
fn deviation_from(objectives: &Objectives, ensemble: &Vec<Objectives>) -> (far: u128)
    requires
        ensemble@.len() > 0,
    ensures
        far == deviation(*objectives, ensemble@, ensemble@.len() as int),
{
    let mut far: u128 = distance_between(objectives, &ensemble[0]);
    let mut i: usize = 1;
    while i < ensemble.len()
        invariant
            1 <= i <= ensemble@.len(),
            far == deviation(*objectives, ensemble@, i as int),
        decreases ensemble@.len() - i,
    {
        let here = distance_between(objectives, &ensemble[i]);
        if here < far {
            far = here;
        }
        i += 1;
    }
    far
}

/// The index that the min-max policy picks in `archive` against the fronts
/// that were found on randomized graphs.
pub fn min_max_index(archive: &Vec<Solution>, random_archives: &Vec<Vec<Solution>>) -> (index:
    usize)
    requires
        archive@.len() > 0,
    ensures
        index == min_max_pick(views(archive@), ensemble_of(front_views(random_archives@))),
        index < archive@.len(),
{
    let ghost members = views(archive@);
    let ensemble = gather(random_archives);
    if ensemble.len() == 0 {
        return max_q_index(archive);
    }
    let mut index: usize = 0;
    let mut farthest: u128 = deviation_from(&archive[0].objectives, &ensemble);
    let mut i: usize = 1;
    while i < archive.len()
        invariant
            1 <= i <= archive@.len(),
            members == views(archive@),
            ensemble@.len() > 0,
            index == most_deviant(members, ensemble@, i as int),
            index < i,
            farthest == deviation(
                members[index as int].objectives,
                ensemble@,
                ensemble@.len() as int,
            ),
        decreases archive@.len() - i,
    {
        let here = deviation_from(&archive[i].objectives, &ensemble);
        assert(archive@[i as int].objectives == members[i as int].objectives);
        if here > farthest {
            index = i;
            farthest = here;
        }
        i += 1;
    }
    index
}

/// The member that the min-max policy picks: the one that lies farthest
/// from the fronts found on randomized graphs, of several the first; the
/// member of the highest modularity where those fronts are empty.
pub fn min_max_selection<'a>(
    archive: &'a Vec<Solution>,
    random_archives: &Vec<Vec<Solution>>,
) -> (best: &'a Solution)
    requires
        archive@.len() > 0,
    ensures
        best@ == views(archive@)[min_max_pick(
            views(archive@),
            ensemble_of(front_views(random_archives@)),
        )],
{
    let index = min_max_index(archive, random_archives);
    &archive[index]
}

/// The number of the ends of `edge` that are `node`.
pub open spec fn ends_at(edge: (NodeId, NodeId), node: NodeId) -> nat {
    (if edge.0 == node {
        1nat
    } else {
        0nat
    }) + (if edge.1 == node {
        1nat
    } else {
        0nat
    })
}

/// The edge list in which the edges at `i` and `j` have exchanged their
/// second ends: `(a, b)` and `(c, d)` become `(a, d)` and `(c, b)`.
pub open spec fn swap_targets(edges: Seq<(NodeId, NodeId)>, i: int, j: int) -> Seq<
    (NodeId, NodeId),
> {
    edges.update(i, (edges[i].0, edges[j].1)).update(j, (edges[j].0, edges[i].1))
}

/// The edge list after `steps` exchanges: step `k` exchanges the second end
/// of the edge at `k` with that of an edge drawn from all edges.
pub open spec fn rewired(edges: Seq<(NodeId, NodeId)>, state: u64, steps: nat) -> Seq<
    (NodeId, NodeId),
>
    decreases steps,
{
    if steps == 0 {
        edges
    } else {
        let before = rewired(edges, state, (steps - 1) as nat);
        swap_targets(
            before,
            steps - 1,
            draw_of(advance_by(state, (steps - 1) as nat)) as int % edges.len() as int,
        )
    }
}

/// The edge lists of the `count` randomized graphs that a generator in
/// state `state` yields: each is the edge list `edges`, rewired with one
/// exchange for every edge.
pub open spec fn random_edges_of(edges: Seq<(NodeId, NodeId)>, state: u64, count: nat) -> Seq<
    Seq<(NodeId, NodeId)>,
> {
    Seq::new(
        count,
        |k: int| rewired(edges, advance_by(state, (k * edges.len()) as nat), edges.len()),
    )
}

/// Replacing one edge changes the degree of a node by what the new edge
/// adds at the node and the old one took with it.
pub proof fn lemma_degree_update(
    edges: Seq<(NodeId, NodeId)>,
    at: int,
    edge: (NodeId, NodeId),
    node: NodeId,
)
    requires
        0 <= at < edges.len(),
    ensures
        degree_of(edges.update(at, edge), node) + ends_at(edges[at], node) == degree_of(
            edges,
            node,
        ) + ends_at(edge, node),
    decreases edges.len(),
{
    let shorter = edges.drop_last();
    assert(edges =~= shorter.push(edges.last()));
    lemma_degree_push(shorter, edges.last(), node);
    if at == edges.len() - 1 {
        assert(edges.update(at, edge) =~= shorter.push(edge));
        lemma_degree_push(shorter, edge, node);
    } else {
        lemma_degree_update(shorter, at, edge, node);
        assert(edges.update(at, edge) =~= shorter.update(at, edge).push(edges.last()));
        lemma_degree_push(shorter.update(at, edge), edges.last(), node);
        assert(shorter[at] == edges[at]);
    }
}

/// An exchange of second ends leaves every degree as it was.
pub proof fn lemma_swap_keeps_degrees(edges: Seq<(NodeId, NodeId)>, i: int, j: int, node: NodeId)
    requires
        0 <= i < edges.len(),
        0 <= j < edges.len(),
    ensures
        degree_of(swap_targets(edges, i, j), node) == degree_of(edges, node),
        swap_targets(edges, i, j).len() == edges.len(),
{
    let first = edges.update(i, (edges[i].0, edges[j].1));
    lemma_degree_update(edges, i, (edges[i].0, edges[j].1), node);
    lemma_degree_update(first, j, (edges[j].0, edges[i].1), node);
}

/// Degree-preserving randomization: the rewired edge list has as many
/// edges as the list that was rewired, and every node has the degree that
/// it had.
pub proof fn lemma_rewired(edges: Seq<(NodeId, NodeId)>, state: u64, steps: nat)
    requires
        steps <= edges.len(),
    ensures
        rewired(edges, state, steps).len() == edges.len(),
        forall|node: NodeId|
            degree_of(rewired(edges, state, steps), node) == #[trigger] degree_of(edges, node),
    decreases steps,
{
    if steps > 0 {
        lemma_rewired(edges, state, (steps - 1) as nat);
        let before = rewired(edges, state, (steps - 1) as nat);
        let j = draw_of(advance_by(state, (steps - 1) as nat)) as int % edges.len() as int;
        assert forall|node: NodeId|
            degree_of(rewired(edges, state, steps), node) == #[trigger] degree_of(
                edges,
                node,
            ) by {
            lemma_swap_keeps_degrees(before, steps - 1, j, node);
        }
    }
}

/// Rewires a copy of the edge list: one exchange of second ends for every
/// edge.
pub fn rewire(edges: &Vec<(NodeId, NodeId)>, rng: &mut Rng) -> (shuffled: Vec<(NodeId, NodeId)>)
    ensures
        shuffled@ == rewired(edges@, old(rng).state, edges@.len()),
        final(rng).state == advance_by(old(rng).state, edges@.len()),
{
    let ghost start = rng.state;
    let mut shuffled: Vec<(NodeId, NodeId)> = Vec::new();
    let mut i: usize = 0;
    while i < edges.len()
        invariant
            i <= edges@.len(),
            shuffled@ == edges@.take(i as int),
        decreases edges@.len() - i,
    {
        shuffled.push(edges[i]);
        i += 1;
    }
    assert(edges@.take(i as int) =~= edges@);
    let count = edges.len();
    let mut k: usize = 0;
    while k < count
        invariant
            k <= count,
            count == edges@.len(),
            shuffled@.len() == count,
            shuffled@ == rewired(edges@, start, k as nat),
            rng.state == advance_by(start, k as nat),
        decreases count - k,
    {
        let other = rng.below(count as u64) as usize;
        let here = shuffled[k];
        let there = shuffled[other];
        let ghost before = shuffled@;
        shuffled[k] = (here.0, there.1);
        shuffled[other] = (there.0, here.1);
        proof {
            assert(shuffled@ =~= swap_targets(before, k as int, other as int));
            lemma_rewired(edges@, start, (k + 1) as nat);
        }
        k += 1;
    }
    shuffled
}

/// An edge list all of whose ends are nodes of `nodes`.
pub open spec fn ends_within(edges: Seq<(NodeId, NodeId)>, nodes: Set<NodeId>) -> bool {
    forall|i: int|
        0 <= i < edges.len() ==> nodes.contains((#[trigger] edges[i]).0) && nodes.contains(
            edges[i].1,
        )
}

/// A node of positive degree is an end of some edge.
pub proof fn lemma_positive_degree(edges: Seq<(NodeId, NodeId)>, node: NodeId)
    requires
        degree_of(edges, node) > 0,
    ensures
        exists|i: int|
            0 <= i < edges.len() && ((#[trigger] edges[i]).0 == node || edges[i].1 == node),
{
    if forall|i: int| 0 <= i < edges.len() ==> (#[trigger] edges[i]).0 != node && edges[i].1 != node {
        lemma_neighbors_of_stranger(edges, node);
    }
}

/// An end of an edge has a positive degree.
pub proof fn lemma_end_has_degree(edges: Seq<(NodeId, NodeId)>, at: int, node: NodeId)
    requires
        0 <= at < edges.len(),
        edges[at].0 == node || edges[at].1 == node,
    ensures
        degree_of(edges, node) > 0,
    decreases edges.len(),
{
    let shorter = edges.drop_last();
    assert(edges =~= shorter.push(edges.last()));
    lemma_degree_push(shorter, edges.last(), node);
    if at < edges.len() - 1 {
        assert(shorter[at] == edges[at]);
        lemma_end_has_degree(shorter, at, node);
    }
}

/// Edge lists with the same degrees have their ends among the same nodes.
pub proof fn lemma_same_degrees_same_ends(
    edges: Seq<(NodeId, NodeId)>,
    other: Seq<(NodeId, NodeId)>,
    nodes: Set<NodeId>,
)
    requires
        ends_within(edges, nodes),
        forall|node: NodeId| degree_of(other, node) == #[trigger] degree_of(edges, node),
    ensures
        ends_within(other, nodes),
{
    assert forall|i: int| 0 <= i < other.len() implies nodes.contains((#[trigger] other[i]).0)
        && nodes.contains(other[i].1) by {
        lemma_end_has_degree(other, i, other[i].0);
        lemma_end_has_degree(other, i, other[i].1);
        assert(degree_of(other, other[i].0) == degree_of(edges, other[i].0));
        assert(degree_of(other, other[i].1) == degree_of(edges, other[i].1));
        lemma_positive_degree(edges, other[i].0);
        lemma_positive_degree(edges, other[i].1);
    }
}

/// The graph that has the nodes of `graph` and the edges `edges`, whose
/// ends are nodes of `graph`.
pub fn with_edges(graph: &Graph, edges: &Vec<(NodeId, NodeId)>) -> (rebuilt: Graph)
    requires
        graph.wf(),
        ends_within(edges@, graph.nodes@),
    ensures
        rebuilt.wf(),
        rebuilt.nodes@ == graph.nodes@,
        rebuilt.edges@ == edges@,
{
    let mut rebuilt = Graph::new();
    let nodes = set_items(&graph.nodes);
    let mut i: usize = 0;
    while i < nodes.len()
        invariant
            i <= nodes@.len(),
            rebuilt.wf(),
            rebuilt.edges@ == Seq::<(NodeId, NodeId)>::empty(),
            rebuilt.nodes@ == nodes@.take(i as int).to_set(),
        decreases nodes@.len() - i,
    {
        rebuilt.add_node(nodes[i]);
        proof {
            assert(nodes@.take(i + 1) == nodes@.take(i as int).push(nodes@[i as int]));
            nodes@.take(i as int).lemma_push_to_set_commute(nodes@[i as int]);
        }
        i += 1;
    }
    assert(nodes@.take(i as int) == nodes@);
    let mut k: usize = 0;
    assert(edges@.take(0) =~= Seq::empty());
    while k < edges.len()
        invariant
            k <= edges@.len(),
            rebuilt.wf(),
            ends_within(edges@, graph.nodes@),
            rebuilt.nodes@ == graph.nodes@,
            rebuilt.edges@ == edges@.take(k as int),
        decreases edges@.len() - k,
    {
        let ghost before = rebuilt.nodes@;
        rebuilt.add_edge(edges[k].0, edges[k].1);
        proof {
            assert(graph.nodes@.contains(edges@[k as int].0));
            assert(before.insert(edges@[k as int].0).insert(edges@[k as int].1) =~= before);
            assert(edges@.take(k + 1) =~= edges@.take(k as int).push(edges@[k as int]));
        }
        k += 1;
    }
    assert(edges@.take(k as int) =~= edges@);
    rebuilt
}

/// Generates `count` randomized graphs for comparison. Each has the nodes
/// of `graph` and as many edges, and every node has the degree that it has
/// in `graph`; the edges are those of `graph` with their second ends
/// exchanged at random.
pub fn generate_random_networks(graph: &Graph, count: usize, rng: &mut Rng) -> (networks: Vec<
    Graph,
>)
    requires
        graph.wf(),
    ensures
        networks@.len() == count,
        final(rng).state == advance_by(old(rng).state, (count * graph.edges@.len()) as nat),
        forall|k: int|
            0 <= k < count ==> (#[trigger] networks@[k]).wf() && networks@[k].nodes@
                == graph.nodes@ && networks@[k].edges@ == random_edges_of(
                graph.edges@,
                old(rng).state,
                count as nat,
            )[k] && networks@[k].edges@.len() == graph.edges@.len(),
        forall|k: int, node: NodeId|
            0 <= k < count ==> degree_of((#[trigger] networks@[k]).edges@, node)
                == #[trigger] degree_of(graph.edges@, node),
{
    let ghost start = rng.state;
    let ghost per_graph = graph.edges@.len();
    let mut networks: Vec<Graph> = Vec::new();
    let mut k: usize = 0;
    assert(0 * per_graph == 0) by (nonlinear_arith);
    while k < count
        invariant
            k <= count,
            graph.wf(),
            per_graph == graph.edges@.len(),
            networks@.len() == k,
            rng.state == advance_by(start, (k * per_graph) as nat),
            forall|j: int|
                0 <= j < k ==> (#[trigger] networks@[j]).wf() && networks@[j].nodes@
                    == graph.nodes@ && networks@[j].edges@ == rewired(
                    graph.edges@,
                    advance_by(start, (j * per_graph) as nat),
                    per_graph,
                ) && networks@[j].edges@.len() == graph.edges@.len(),
            forall|j: int, node: NodeId|
                0 <= j < k ==> degree_of((#[trigger] networks@[j]).edges@, node)
                    == #[trigger] degree_of(graph.edges@, node),
        decreases count - k,
    {
        let ghost state = rng.state;
        let edges = rewire(&graph.edges, rng);
        proof {
            lemma_rewired(graph.edges@, state, per_graph);
            assert(ends_within(graph.edges@, graph.nodes@));
            lemma_same_degrees_same_ends(graph.edges@, edges@, graph.nodes@);
            lemma_advance_by_add(start, (k * per_graph) as nat, per_graph);
            assert((k + 1) * per_graph == k * per_graph + per_graph) by (nonlinear_arith);
        }
        let network = with_edges(graph, &edges);
        networks.push(network);
        k += 1;
    }
    networks
}

} // verus!
