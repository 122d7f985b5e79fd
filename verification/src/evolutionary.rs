//! The evolutionary search: a population of partitions is bred, evaluated
//! and selected from, generation after generation, and the non-dominated
//! members of the last archive are the Pareto front that the search returns.
//!
//! The search starts from `pop_size` random partitions. They are evaluated,
//! and what the selection strategy selects from them, no more than
//! `pop_size`, is the first archive. Each generation breeds `pop_size`
//! children from parents picked in the archive, evaluates them, and selects
//! the next archive from the old archive and the children together. The
//! search always runs all its generations. Every draw comes from one
//! generator, so the archive after each generation is a function of the
//! graph, the settings and the seed.

use crate::fitness::{
    get_fitness, inter_loss, intra_loss, is_degree_table, objective_scale, Objectives,
    MAX_EDGES,
};
use crate::graph::{CommunityId, Graph, NodeId, Partition};
use crate::operators::{
    advance_by, assemble, crossover, crossover_of, draw_labels, draw_mask, draw_picks,
    labels_from, lemma_advance_by_add, mask_from, mutate, mutation_of, picks_from,
    relabelled_entries, single_community,
};
use crate::partition::{listing_of, partition_entries, partition_from};
use crate::rng::{draw_of, Rng};
use crate::selection::{lemma_selection_of, SelectionStrategy};
use crate::solution::{
    drawn_from, front_of, is_front, lemma_front_of_is_front, lemma_front_of_nonempty,
    pareto_front, views, Solution, SolutionView,
};
use crate::standing::{parent_of, pick_parent, Standing};
use rustc_hash::FxHashMap;
use vstd::prelude::*;

verus! {

/// What a run of the search depends on.
pub struct Run {
    pub strategy: SelectionStrategy,
    pub nodes: Set<NodeId>,
    pub edges: Seq<(NodeId, NodeId)>,
    pub pop_size: nat,
    pub cross_rate: u32,
    pub mut_rate: u32,
    pub seed: u64,
}

/// The maps of a sequence of partitions, one by one.
pub open spec fn maps_of(population: Seq<Partition>) -> Seq<Map<NodeId, CommunityId>> {
    population.map_values(|partition: Partition| partition@)
}

/// The partition `partition` with the objectives that it has on `edges`.
pub open spec fn evaluated(
    edges: Seq<(NodeId, NodeId)>,
    partition: Map<NodeId, CommunityId>,
) -> SolutionView {
    SolutionView {
        partition,
        objectives: Objectives {
            intra: intra_loss(edges, partition) as u64,
            inter: inter_loss(edges, partition) as u64,
            scale: objective_scale(edges.len()) as u64,
        },
    }
}

/// The partitions `population`, each with its objectives on `edges`.
pub open spec fn evaluated_all(
    edges: Seq<(NodeId, NodeId)>,
    population: Seq<Map<NodeId, CommunityId>>,
) -> Seq<SolutionView> {
    population.map_values(|partition: Map<NodeId, CommunityId>| evaluated(edges, partition))
}

/// The solution labels exactly the nodes `nodes`, and its objectives are
/// those of its partition on `edges`.
pub open spec fn sound(
    nodes: Set<NodeId>,
    edges: Seq<(NodeId, NodeId)>,
    solution: SolutionView,
) -> bool {
    solution.partition.dom() == nodes && solution == evaluated(edges, solution.partition)
        && solution.objectives.wf()
}

/// Every member is sound.
pub open spec fn all_sound(
    nodes: Set<NodeId>,
    edges: Seq<(NodeId, NodeId)>,
    members: Seq<SolutionView>,
) -> bool {
    forall|i: int| 0 <= i < members.len() ==> sound(nodes, edges, #[trigger] members[i])
}

/// The partition that puts all of `nodes` into the community zero.
pub open spec fn base_partition(nodes: Set<NodeId>) -> Map<NodeId, CommunityId> {
    Map::new(|node: NodeId| nodes.contains(node), |node: NodeId| 0i32)
}

/// The number of labels that a random partition of `count` nodes draws
/// from.
pub open spec fn label_range(count: nat) -> u64 {
    if count < i32::MAX {
        count as u64
    } else {
        i32::MAX as u64
    }
}

/// The random partition of `nodes` that a generator in state `state`
/// yields: one label below the label range for each node, by ascending node.
pub open spec fn initial_member(nodes: Set<NodeId>, state: u64) -> Map<NodeId, CommunityId> {
    partition_from(
        relabelled_entries(
            listing_of(base_partition(nodes)),
            labels_from(state, nodes.len(), label_range(nodes.len())),
        ),
    )
}

/// The `count` random partitions that a generator in state `state` yields.
pub open spec fn initial_population_of(nodes: Set<NodeId>, state: u64, count: nat) -> Seq<
    Map<NodeId, CommunityId>,
> {
    Seq::new(
        count,
        |k: int| initial_member(nodes, advance_by(state, (k * nodes.len()) as nat)),
    )
}

/// The number of draws that one child takes: four for the two pairs of
/// candidates, one for each node in the crossover, two for each node in the
/// mutation.
pub open spec fn draws_per_child(node_count: nat) -> nat {
    4 + 3 * node_count
}

/// The child that is bred from `archive` under the standings `standings`
/// by a generator in state `state`, on a graph of `count` nodes with the
/// edges `edges`.
///
/// For each parent two members are drawn, and the one of the better
/// standing is taken. The two parents are crossed node by node at the
/// crossover rate, and the result is mutated node by node at the mutation
/// rate.
pub open spec fn bred_from(
    archive: Seq<SolutionView>,
    standings: Seq<Standing>,
    edges: Seq<(NodeId, NodeId)>,
    count: nat,
    cross_rate: u32,
    mut_rate: u32,
    state: u64,
) -> Map<NodeId, CommunityId> {
    let size = archive.len() as int;
    let first = parent_of(
        standings,
        draw_of(state) as int % size,
        draw_of(advance_by(state, 1)) as int % size,
    );
    let second = parent_of(
        standings,
        draw_of(advance_by(state, 2)) as int % size,
        draw_of(advance_by(state, 3)) as int % size,
    );
    let crossed = partition_from(
        crossover_of(
            archive[first].partition,
            archive[second].partition,
            mask_from(advance_by(state, 4), count, cross_rate),
        ),
    );
    partition_from(
        mutation_of(crossed, edges, picks_from(advance_by(state, 4 + count), count, mut_rate)),
    )
}

/// The child that a generator in state `state` breeds from `archive`, with
/// the parents picked by the standings that the strategy gives.
pub open spec fn child_of(
    strategy: SelectionStrategy,
    archive: Seq<SolutionView>,
    edges: Seq<(NodeId, NodeId)>,
    count: nat,
    cross_rate: u32,
    mut_rate: u32,
    state: u64,
) -> Map<NodeId, CommunityId> {
    bred_from(archive, strategy.standings_of(archive), edges, count, cross_rate, mut_rate, state)
}

/// The `children` children that a generator in state `state` breeds from
/// `archive`, one after the other.
pub open spec fn offspring_of(
    strategy: SelectionStrategy,
    archive: Seq<SolutionView>,
    edges: Seq<(NodeId, NodeId)>,
    count: nat,
    cross_rate: u32,
    mut_rate: u32,
    state: u64,
    children: nat,
) -> Seq<Map<NodeId, CommunityId>> {
    Seq::new(
        children,
        |k: int|
            child_of(
                strategy,
                archive,
                edges,
                count,
                cross_rate,
                mut_rate,
                advance_by(state, (k * draws_per_child(count)) as nat),
            ),
    )
}

/// The archive that follows `archive` when a generator in state `state`
/// breeds `pop_size` children from it: what the strategy selects from the
/// archive and the evaluated children together.
pub open spec fn next_archive(
    strategy: SelectionStrategy,
    archive: Seq<SolutionView>,
    edges: Seq<(NodeId, NodeId)>,
    count: nat,
    pop_size: nat,
    cross_rate: u32,
    mut_rate: u32,
    state: u64,
) -> Seq<SolutionView> {
    strategy.selection_of(
        archive + evaluated_all(
            edges,
            offspring_of(strategy, archive, edges, count, cross_rate, mut_rate, state, pop_size),
        ),
        pop_size as int,
    )
}

/// The state of the generator when generation `generation` begins to breed.
pub open spec fn state_at(run: Run, generation: nat) -> u64 {
    advance_by(
        run.seed,
        run.pop_size * run.nodes.len() + generation * (run.pop_size * draws_per_child(
            run.nodes.len(),
        )),
    )
}

/// The archive after `generation` generations.
pub open spec fn archive_after(run: Run, generation: nat) -> Seq<SolutionView>
    decreases generation,
{
    if generation == 0 {
        run.strategy.selection_of(
            evaluated_all(run.edges, initial_population_of(run.nodes, run.seed, run.pop_size)),
            run.pop_size as int,
        )
    } else {
        next_archive(
            run.strategy,
            archive_after(run, (generation - 1) as nat),
            run.edges,
            run.nodes.len(),
            run.pop_size,
            run.cross_rate,
            run.mut_rate,
            state_at(run, (generation - 1) as nat),
        )
    }
}

/// One generation takes the generator from its state at the generation to
/// its state at the next.
pub proof fn lemma_state_step(run: Run, generation: nat)
    ensures
        advance_by(
            state_at(run, generation),
            run.pop_size * draws_per_child(run.nodes.len()),
        ) == state_at(run, generation + 1),
{
    let per_generation = run.pop_size * draws_per_child(run.nodes.len());
    lemma_advance_by_add(
        run.seed,
        run.pop_size * run.nodes.len() + generation * per_generation,
        per_generation,
    );
    assert((generation + 1) * per_generation == generation * per_generation + per_generation)
        by (nonlinear_arith);
}

/// The archive after one more generation is what follows the archive
/// before it.
pub proof fn lemma_archive_step(run: Run, generation: nat)
    ensures
        archive_after(run, generation + 1) == next_archive(
            run.strategy,
            archive_after(run, generation),
            run.edges,
            run.nodes.len(),
            run.pop_size,
            run.cross_rate,
            run.mut_rate,
            state_at(run, generation),
        ),
{
    assert((generation + 1 - 1) as nat == generation);
}

/// The Pareto front that the search returns after `generations`
/// generations: the non-dominated front of the last archive.
pub open spec fn front_after(run: Run, generations: nat) -> Seq<SolutionView> {
    front_of(archive_after(run, generations), archive_after(run, generations).len() as int)
}

/// After every selection the archive has at least one member and never
/// more than the population size.
pub proof fn lemma_archive_after(run: Run, generation: nat)
    requires
        run.pop_size >= 1,
    ensures
        1 <= archive_after(run, generation).len() <= run.pop_size,
    decreases generation,
{
    if generation == 0 {
        let all = evaluated_all(
            run.edges,
            initial_population_of(run.nodes, run.seed, run.pop_size),
        );
        lemma_selection_of(run.strategy, all, run.pop_size as int);
    } else {
        lemma_archive_after(run, (generation - 1) as nat);
        let before = archive_after(run, (generation - 1) as nat);
        let children = offspring_of(
            run.strategy,
            before,
            run.edges,
            run.nodes.len(),
            run.cross_rate,
            run.mut_rate,
            state_at(run, (generation - 1) as nat),
            run.pop_size,
        );
        lemma_selection_of(
            run.strategy,
            before + evaluated_all(run.edges, children),
            run.pop_size as int,
        );
    }
}

/// The front that the search returns is a front: no member dominates
/// another. It has at least one member and no more than the population
/// size, and its members are members of the last archive.
pub proof fn lemma_front_after(run: Run, generations: nat)
    requires
        run.pop_size >= 1,
    ensures
        is_front(front_after(run, generations)),
        1 <= front_after(run, generations).len() <= run.pop_size,
        drawn_from(front_after(run, generations), archive_after(run, generations)),
{
    let archive = archive_after(run, generations);
    lemma_archive_after(run, generations);
    lemma_front_of_is_front(archive);
    lemma_front_of_nonempty(archive);
    crate::solution::lemma_front_of_members(archive, archive.len() as int);
}

/// The search is repeatable: two runs with the same strategy on the same
/// graph, with the same settings and the same seed, have the same archive
/// after every generation and return the same front.
pub proof fn lemma_same_run_same_front(first: Run, second: Run, generation: nat)
    requires
        first.strategy == second.strategy,
        first.nodes == second.nodes,
        first.edges == second.edges,
        first.pop_size == second.pop_size,
        first.cross_rate == second.cross_rate,
        first.mut_rate == second.mut_rate,
        first.seed == second.seed,
    ensures
        archive_after(first, generation) == archive_after(second, generation),
        front_after(first, generation) == front_after(second, generation),
{
    assert(first == second);
}

/// Evaluates one partition of the graph.
pub fn evaluate(graph: &Graph, degrees: &FxHashMap<NodeId, usize>, partition: Partition) -> (solution:
    Solution)
    requires
        graph.wf(),
        graph.edges@.len() <= MAX_EDGES,
        is_degree_table(degrees@, graph),
        partition@.dom() == graph.nodes@,
    ensures
        solution@ == evaluated(graph.edges@, partition@),
        sound(graph.nodes@, graph.edges@, solution@),
{
    let objectives = get_fitness(graph, &partition, degrees);
    Solution { partition, objectives }
}

/// Evaluates every partition of a population.
pub fn evaluate_all(
    graph: &Graph,
    degrees: &FxHashMap<NodeId, usize>,
    population: &Vec<Partition>,
) -> (solutions: Vec<Solution>)
    requires
        graph.wf(),
        graph.edges@.len() <= MAX_EDGES,
        is_degree_table(degrees@, graph),
        forall|k: int|
            0 <= k < population@.len() ==> (#[trigger] population@[k])@.dom() == graph.nodes@,
    ensures
        views(solutions@) == evaluated_all(graph.edges@, maps_of(population@)),
        all_sound(graph.nodes@, graph.edges@, views(solutions@)),
        solutions@.len() == population@.len(),
{
    let mut solutions: Vec<Solution> = Vec::new();
    let mut i: usize = 0;
    while i < population.len()
        invariant
            i <= population@.len(),
            graph.wf(),
            graph.edges@.len() <= MAX_EDGES,
            is_degree_table(degrees@, graph),
            forall|k: int|
                0 <= k < population@.len() ==> (#[trigger] population@[k])@.dom() == graph.nodes@,
            solutions@.len() == i,
            forall|k: int|
                0 <= k < i ==> (#[trigger] solutions@[k])@ == evaluated(
                    graph.edges@,
                    population@[k]@,
                ) && sound(graph.nodes@, graph.edges@, solutions@[k]@),
        decreases population@.len() - i,
    {
        let partition = population[i].clone();
        let solution = evaluate(graph, degrees, partition);
        solutions.push(solution);
        i += 1;
    }
    assert(views(solutions@) =~= evaluated_all(graph.edges@, maps_of(population@)));
    solutions
}

/// Draws the first population: `pop_size` random partitions of the nodes.
pub fn initial_population(graph: &Graph, pop_size: usize, rng: &mut Rng) -> (population: Vec<
    Partition,
>)
    requires
        graph.wf(),
        graph.nodes@.len() >= 1,
    ensures
        maps_of(population@) == initial_population_of(
            graph.nodes@,
            old(rng).state,
            pop_size as nat,
        ),
        final(rng).state == advance_by(old(rng).state, (pop_size * graph.nodes@.len()) as nat),
        population@.len() == pop_size,
        forall|k: int|
            0 <= k < population@.len() ==> (#[trigger] population@[k])@.dom() == graph.nodes@,
{
    let ghost nodes = graph.nodes@;
    let ghost start = rng.state;
    let base = single_community(graph);
    let entries = partition_entries(&base);
    let count = entries.len();
    assert(base@ =~= base_partition(nodes));
    assert(count == nodes.len());
    let range: u64 = if count < 0x7fff_ffff {
        count as u64
    } else {
        0x7fff_ffff
    };
    let mut population: Vec<Partition> = Vec::new();
    let mut k: usize = 0;
    assert(0 * count == 0) by (nonlinear_arith);
    while k < pop_size
        invariant
            k <= pop_size,
            nodes == graph.nodes@,
            count == nodes.len(),
            count == entries@.len(),
            count >= 1,
            range == label_range(count as nat),
            0 < range <= i32::MAX,
            entries@ == listing_of(base_partition(nodes)),
            crate::partition::is_listing(entries@, base_partition(nodes)),
            base_partition(nodes).dom() == nodes,
            rng.state == advance_by(start, (k * count) as nat),
            population@.len() == k,
            forall|j: int|
                0 <= j < k ==> (#[trigger] population@[j])@ == initial_member(
                    nodes,
                    advance_by(start, (j * count) as nat),
                ) && population@[j]@.dom() == nodes,
        decreases pop_size - k,
    {
        let labels = draw_labels(rng, count, range);
        let member = assemble(&entries, &labels);
        proof {
            lemma_advance_by_add(start, (k * count) as nat, count as nat);
            assert((k + 1) * count == k * count + count) by (nonlinear_arith);
            crate::operators::lemma_same_nodes(
                relabelled_entries(entries@, labels@),
                member@,
                entries@,
                base_partition(nodes),
            );
        }
        population.push(member);
        k += 1;
    }
    assert(maps_of(population@) =~= initial_population_of(nodes, start, pop_size as nat));
    population
}

/// Breeds one child from the archive: draws two pairs of members, makes
/// the better of each pair a parent, crosses the parents and mutates the
/// result.
pub fn breed_one(
    archive: &Vec<Solution>,
    standings: &Vec<Standing>,
    graph: &Graph,
    cross_rate: u32,
    mut_rate: u32,
    rng: &mut Rng,
) -> (child: Partition)
    requires
        graph.wf(),
        archive@.len() >= 1,
        standings@.len() == archive@.len(),
        forall|i: int|
            0 <= i < archive@.len() ==> (#[trigger] archive@[i]).partition@.dom() == graph.nodes@,
    ensures
        child@ == bred_from(
            views(archive@),
            standings@,
            graph.edges@,
            graph.nodes@.len(),
            cross_rate,
            mut_rate,
            old(rng).state,
        ),
        final(rng).state == advance_by(old(rng).state, draws_per_child(graph.nodes@.len())),
        child@.dom() == graph.nodes@,
{
    let ghost all = views(archive@);
    let ghost state = rng.state;
    let count = graph.num_nodes();
    let size = archive.len() as u64;
    let a = rng.below(size) as usize;
    let b = rng.below(size) as usize;
    let first = pick_parent(standings, a, b);
    let c = rng.below(size) as usize;
    let d = rng.below(size) as usize;
    let second = pick_parent(standings, c, d);
    proof {
        reveal_with_fuel(advance_by, 5);
        assert(rng.state == advance_by(state, 4));
        assert(all[first as int] == archive@[first as int]@);
        assert(all[second as int] == archive@[second as int]@);
    }
    let mask = draw_mask(rng, count, cross_rate);
    let crossed = crossover(&archive[first].partition, &archive[second].partition, &mask);
    proof {
        lemma_advance_by_add(state, 4, count as nat);
    }
    let picks = draw_picks(rng, count, mut_rate);
    let child = mutate(&crossed, graph, &picks);
    proof {
        lemma_advance_by_add(state, 4 + count as nat, (2 * count) as nat);
    }
    child
}

/// Breeds `pop_size` children from the archive, with the parents picked by
/// the standings that the strategy gives.
pub fn breed(
    strategy: SelectionStrategy,
    archive: &Vec<Solution>,
    graph: &Graph,
    pop_size: usize,
    cross_rate: u32,
    mut_rate: u32,
    rng: &mut Rng,
) -> (offspring: Vec<Partition>)
    requires
        graph.wf(),
        archive@.len() >= 1,
        forall|i: int|
            0 <= i < archive@.len() ==> (#[trigger] archive@[i]).partition@.dom() == graph.nodes@,
    ensures
        maps_of(offspring@) == offspring_of(
            strategy,
            views(archive@),
            graph.edges@,
            graph.nodes@.len(),
            cross_rate,
            mut_rate,
            old(rng).state,
            pop_size as nat,
        ),
        final(rng).state == advance_by(
            old(rng).state,
            (pop_size * draws_per_child(graph.nodes@.len())) as nat,
        ),
        offspring@.len() == pop_size,
        forall|k: int|
            0 <= k < offspring@.len() ==> (#[trigger] offspring@[k])@.dom() == graph.nodes@,
{
    let ghost all = views(archive@);
    let ghost start = rng.state;
    let ghost count = graph.nodes@.len();
    let ghost per_child = draws_per_child(count);
    let standings = strategy.standings(archive);
    let mut offspring: Vec<Partition> = Vec::new();
    let mut k: usize = 0;
    assert(0 * per_child == 0) by (nonlinear_arith);
    while k < pop_size
        invariant
            k <= pop_size,
            graph.wf(),
            all == views(archive@),
            archive@.len() >= 1,
            count == graph.nodes@.len(),
            per_child == draws_per_child(count),
            standings@ == strategy.standings_of(all),
            standings@.len() == archive@.len(),
            forall|i: int|
                0 <= i < archive@.len() ==> (#[trigger] archive@[i]).partition@.dom()
                    == graph.nodes@,
            rng.state == advance_by(start, (k * per_child) as nat),
            offspring@.len() == k,
            forall|j: int|
                0 <= j < k ==> (#[trigger] offspring@[j])@ == child_of(
                    strategy,
                    all,
                    graph.edges@,
                    count,
                    cross_rate,
                    mut_rate,
                    advance_by(start, (j * per_child) as nat),
                ) && offspring@[j]@.dom() == graph.nodes@,
        decreases pop_size - k,
    {
        let child = breed_one(archive, &standings, graph, cross_rate, mut_rate, rng);
        proof {
            lemma_advance_by_add(start, (k * per_child) as nat, per_child);
            assert((k + 1) * per_child == k * per_child + per_child) by (nonlinear_arith);
        }
        offspring.push(child);
        k += 1;
    }
    assert(maps_of(offspring@) =~= offspring_of(
        strategy,
        all,
        graph.edges@,
        count,
        cross_rate,
        mut_rate,
        start,
        pop_size as nat,
    ));
    offspring
}

/// Members drawn from a sound collection are sound.
pub proof fn lemma_drawn_from_sound(
    nodes: Set<NodeId>,
    edges: Seq<(NodeId, NodeId)>,
    part: Seq<SolutionView>,
    whole: Seq<SolutionView>,
)
    requires
        drawn_from(part, whole),
        all_sound(nodes, edges, whole),
    ensures
        all_sound(nodes, edges, part),
{
    assert forall|i: int| 0 <= i < part.len() implies sound(nodes, edges, #[trigger] part[i]) by {
        assert(whole.contains(part[i]));
        let at = choose|at: int| 0 <= at < whole.len() && whole[at] == part[i];
        assert(sound(nodes, edges, whole[at]));
    }
}

/// Runs one generation: breeds `pop_size` children from the archive,
/// evaluates them, and lets the strategy select the next archive from the
/// archive and the children together.
pub fn next_generation(
    strategy: SelectionStrategy,
    archive: Vec<Solution>,
    graph: &Graph,
    pop_size: usize,
    cross_rate: u32,
    mut_rate: u32,
    degrees: &FxHashMap<NodeId, usize>,
    rng: &mut Rng,
) -> (next: Vec<Solution>)
    requires
        graph.wf(),
        graph.edges@.len() <= MAX_EDGES,
        is_degree_table(degrees@, graph),
        pop_size >= 1,
        archive@.len() >= 1,
        all_sound(graph.nodes@, graph.edges@, views(archive@)),
    ensures
        views(next@) == next_archive(
            strategy,
            views(archive@),
            graph.edges@,
            graph.nodes@.len(),
            pop_size as nat,
            cross_rate,
            mut_rate,
            old(rng).state,
        ),
        final(rng).state == advance_by(
            old(rng).state,
            (pop_size * draws_per_child(graph.nodes@.len())) as nat,
        ),
        1 <= next@.len() <= pop_size,
        all_sound(graph.nodes@, graph.edges@, views(next@)),
{
    let ghost before = views(archive@);
    let mut candidates = archive;
    proof {
        assert forall|i: int| 0 <= i < candidates@.len() implies (#[trigger] candidates@[i]).partition@.dom()
            == graph.nodes@ by {
            assert(sound(graph.nodes@, graph.edges@, views(candidates@)[i]));
        }
    }
    let offspring = breed(strategy, &candidates, graph, pop_size, cross_rate, mut_rate, rng);
    let mut children = evaluate_all(graph, degrees, &offspring);
    let ghost child_views = views(children@);
    candidates.append(&mut children);
    proof {
        assert(views(candidates@) =~= before + child_views);
        assert forall|i: int| 0 <= i < candidates@.len() implies sound(
            graph.nodes@,
            graph.edges@,
            #[trigger] views(candidates@)[i],
        ) by {
            if i < before.len() {
                assert(views(candidates@)[i] == before[i]);
            } else {
                assert(views(candidates@)[i] == child_views[i - before.len()]);
            }
        }
    }
    let next = strategy.select(&candidates, pop_size);
    proof {
        lemma_drawn_from_sound(graph.nodes@, graph.edges@, views(next@), views(candidates@));
    }
    next
}

/// Runs the search for `num_gens` generations and returns the Pareto
/// front: the non-dominated members of the last archive.
pub fn evolutionary_phase(
    graph: &Graph,
    strategy: SelectionStrategy,
    num_gens: usize,
    pop_size: usize,
    cross_rate: u32,
    mut_rate: u32,
    degrees: &FxHashMap<NodeId, usize>,
    rng: &mut Rng,
) -> (front: Vec<Solution>)
    requires
        graph.wf(),
        graph.nodes@.len() >= 1,
        graph.edges@.len() <= MAX_EDGES,
        is_degree_table(degrees@, graph),
        pop_size >= 1,
    ensures
        views(front@) == front_after(
            (Run {
                strategy,
                nodes: graph.nodes@,
                edges: graph.edges@,
                pop_size: pop_size as nat,
                cross_rate,
                mut_rate,
                seed: old(rng).state,
            }),
            num_gens as nat,
        ),
        final(rng).state == state_at(
            (Run {
                strategy,
                nodes: graph.nodes@,
                edges: graph.edges@,
                pop_size: pop_size as nat,
                cross_rate,
                mut_rate,
                seed: old(rng).state,
            }),
            num_gens as nat,
        ),
        is_front(views(front@)),
        1 <= front@.len() <= pop_size,
        all_sound(graph.nodes@, graph.edges@, views(front@)),
{
    let ghost run = Run {
        strategy,
        nodes: graph.nodes@,
        edges: graph.edges@,
        pop_size: pop_size as nat,
        cross_rate,
        mut_rate,
        seed: rng.state,
    };
    let population = initial_population(graph, pop_size, rng);
    let evaluated = evaluate_all(graph, degrees, &population);
    let mut archive = strategy.select(&evaluated, pop_size);
    proof {
        lemma_drawn_from_sound(run.nodes, run.edges, views(archive@), views(evaluated@));
        assert(state_at(run, 0) == advance_by(run.seed, run.pop_size * run.nodes.len())) by {
            assert(0 * (run.pop_size * draws_per_child(run.nodes.len())) == 0)
                by (nonlinear_arith);
        }
    }
    let mut generation: usize = 0;
    while generation < num_gens
        invariant
            generation <= num_gens,
            graph.wf(),
            graph.edges@.len() <= MAX_EDGES,
            is_degree_table(degrees@, graph),
            pop_size >= 1,
            run.strategy == strategy,
            run.nodes == graph.nodes@,
            run.edges == graph.edges@,
            run.pop_size == pop_size,
            run.cross_rate == cross_rate,
            run.mut_rate == mut_rate,
            rng.state == state_at(run, generation as nat),
            views(archive@) == archive_after(run, generation as nat),
            1 <= archive@.len() <= pop_size,
            all_sound(graph.nodes@, graph.edges@, views(archive@)),
        decreases num_gens - generation,
    {
        proof {
            lemma_state_step(run, generation as nat);
            lemma_archive_step(run, generation as nat);
        }
        archive = next_generation(
            strategy,
            archive,
            graph,
            pop_size,
            cross_rate,
            mut_rate,
            degrees,
            rng,
        );
        generation += 1;
    }
    let front = pareto_front(&archive);
    proof {
        lemma_drawn_from_sound(run.nodes, run.edges, views(front@), views(archive@));
    }
    front
}

} // verus!
