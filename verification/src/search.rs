//! A search from its settings: what is checked before it runs, and the
//! operations that run it.

use crate::evolutionary::{
    all_sound, draws_per_child, evolutionary_phase, front_after, sound, state_at, Run,
};
use crate::error::InputError;
use crate::fitness::{Objectives, MAX_EDGES};
use crate::graph::{Graph, Partition};
use crate::model_selection::{
    best_q, ensemble_of, front_views, generate_random_networks, lemma_best_q,
    lemma_most_deviant, max_q_selection, min_max_pick, min_max_selection, random_edges_of,
};
use crate::operators::{advance_by, lemma_advance_by_add};
use crate::partition::{is_normal_form_of, normalize_community_ids};
use crate::rng::{Rng, RATE_ONE};
use crate::selection::SelectionStrategy;
use crate::solution::{is_front, views, Solution, SolutionView};
use vstd::prelude::*;

verus! {

/// The settings of a search. The rates are counted in parts per million.
#[derive(Debug, Clone, Copy, PartialEq, Eq, Structural)]
pub struct Settings {
    /// How survivors are selected and parents are ranked.
    pub strategy: SelectionStrategy,
    /// The number of randomized graphs that the min-max policy compares
    /// with.
    pub rand_networks: usize,
    /// The number of partitions bred in each generation, and the bound on
    /// the archive.
    pub pop_size: usize,
    /// The number of generations.
    pub num_gens: usize,
    /// How often, per node, a child takes the label of the second parent.
    pub cross_rate: u32,
    /// How often, per node, a child takes the label of a neighbour.
    pub mut_rate: u32,
    /// The seed of the random number generator.
    pub seed: u64,
}

impl Settings {
    /// The usual settings: three randomized graphs, a population of a
    /// hundred, five hundred generations, a crossover rate of 0.8 and a
    /// mutation rate of 0.2.
    pub fn usual(strategy: SelectionStrategy, seed: u64) -> (settings: Settings)
        ensures
            settings == (Settings {
                strategy,
                rand_networks: 3,
                pop_size: 100,
                num_gens: 500,
                cross_rate: 800_000,
                mut_rate: 200_000,
                seed,
            }),
    {
        Settings {
            strategy,
            rand_networks: 3,
            pop_size: 100,
            num_gens: 500,
            cross_rate: 800_000,
            mut_rate: 200_000,
            seed,
        }
    }
}

/// What is wrong with the settings for the graph, if anything: the first of
/// the faults in the order of the variants of `InputError`.
pub open spec fn fault_of(graph: &Graph, settings: Settings) -> Option<InputError> {
    if graph.nodes@.len() == 0 {
        Some(InputError::EmptyGraph)
    } else if graph.nodes@.len() > i32::MAX {
        Some(InputError::TooManyNodes)
    } else if graph.edges@.len() > MAX_EDGES {
        Some(InputError::TooManyEdges)
    } else if settings.pop_size == 0 {
        Some(InputError::ZeroPopulation)
    } else if settings.cross_rate > RATE_ONE || settings.mut_rate > RATE_ONE {
        Some(InputError::RateOutOfRange)
    } else {
        None
    }
}

/// What a run of the search with these settings on the graph depends on.
pub open spec fn run_of(graph: &Graph, settings: Settings) -> Run {
    Run {
        strategy: settings.strategy,
        nodes: graph.nodes@,
        edges: graph.edges@,
        pop_size: settings.pop_size as nat,
        cross_rate: settings.cross_rate,
        mut_rate: settings.mut_rate,
        seed: settings.seed,
    }
}

/// The number of draws that a whole search of `generations` generations
/// takes.
pub open spec fn draws_per_run(run: Run, generations: nat) -> nat {
    run.pop_size * run.nodes.len() + generations * (run.pop_size * draws_per_child(
        run.nodes.len(),
    ))
}

/// The search on the randomized graph number `k` of `networks`, as it is
/// run for the comparison. The randomized graphs are drawn when the search
/// on the graph itself is over, and the searches on them follow one after
/// the other, all from the one generator.
pub open spec fn random_run(run: Run, generations: nat, networks: nat, k: int) -> Run {
    let after_search = state_at(run, generations);
    let after_networks = advance_by(after_search, networks * run.edges.len());
    Run {
        strategy: run.strategy,
        nodes: run.nodes,
        edges: random_edges_of(run.edges, after_search, networks)[k],
        pop_size: run.pop_size,
        cross_rate: run.cross_rate,
        mut_rate: run.mut_rate,
        seed: advance_by(after_networks, (k * draws_per_run(run, generations)) as nat),
    }
}

/// The fronts that the searches on the `networks` randomized graphs find.
pub open spec fn random_fronts(run: Run, generations: nat, networks: nat) -> Seq<
    Seq<SolutionView>,
> {
    Seq::new(
        networks,
        |k: int| front_after(random_run(run, generations, networks, k), generations),
    )
}

/// The member of the front that the max-Q policy picks.
pub open spec fn max_q_member(run: Run, generations: nat) -> SolutionView {
    let front = front_after(run, generations);
    front[best_q(front, front.len() as int)]
}

/// The member of the front that the min-max policy picks against the
/// fronts of `networks` randomized graphs.
pub open spec fn min_max_member(run: Run, generations: nat, networks: nat) -> SolutionView {
    let front = front_after(run, generations);
    front[min_max_pick(front, ensemble_of(random_fronts(run, generations, networks)))]
}

/// Checks the settings against the graph, before any work is done.
pub fn check(graph: &Graph, settings: &Settings) -> (outcome: Result<(), InputError>)
    requires
        graph.wf(),
    ensures
        outcome == match fault_of(graph, *settings) {
            Some(error) => Err::<(), InputError>(error),
            None => Ok(()),
        },
{
    let node_count = graph.num_nodes();
    if node_count == 0 {
        return Err(InputError::EmptyGraph);
    }
    if node_count > 0x7fff_ffff {
        return Err(InputError::TooManyNodes);
    }
    if graph.num_edges() > MAX_EDGES {
        return Err(InputError::TooManyEdges);
    }
    if settings.pop_size == 0 {
        return Err(InputError::ZeroPopulation);
    }
    if settings.cross_rate > RATE_ONE || settings.mut_rate > RATE_ONE {
        return Err(InputError::RateOutOfRange);
    }
    Ok(())
}

/// Runs the search and returns its Pareto front: at least one and at most
/// `pop_size` evaluated partitions of the graph's nodes, none of which
/// dominates another.
pub fn evolve(graph: &Graph, settings: &Settings) -> (front: Vec<Solution>)
    requires
        graph.wf(),
        fault_of(graph, *settings) is None,
    ensures
        views(front@) == front_after(run_of(graph, *settings), settings.num_gens as nat),
        is_front(views(front@)),
        1 <= front@.len() <= settings.pop_size,
        all_sound(graph.nodes@, graph.edges@, views(front@)),
{
    let degrees = graph.precompute_degrees();
    let mut rng = Rng::new(settings.seed);
    evolutionary_phase(
        graph,
        settings.strategy,
        settings.num_gens,
        settings.pop_size,
        settings.cross_rate,
        settings.mut_rate,
        &degrees,
        &mut rng,
    )
}

/// Runs the search and returns its front: each member's partition in
/// normal form, with the member's objectives.
pub fn normalized_front(graph: &Graph, settings: &Settings) -> (front: Vec<
    (Partition, Objectives),
>)
    requires
        graph.wf(),
        fault_of(graph, *settings) is None,
    ensures
        front@.len() == front_after(run_of(graph, *settings), settings.num_gens as nat).len(),
        1 <= front@.len() <= settings.pop_size,
        forall|i: int|
            0 <= i < front@.len() ==> is_normal_form_of(
                (#[trigger] front@[i]).0@,
                front_after(run_of(graph, *settings), settings.num_gens as nat)[i].partition,
            ) && front@[i].1 == front_after(
                run_of(graph, *settings),
                settings.num_gens as nat,
            )[i].objectives && front@[i].0@.dom() == graph.nodes@,
{
    let first_front = evolve(graph, settings);
    let ghost members = views(first_front@);
    let mut front: Vec<(Partition, Objectives)> = Vec::new();
    let mut i: usize = 0;
    while i < first_front.len()
        invariant
            i <= first_front@.len(),
            members == views(first_front@),
            all_sound(graph.nodes@, graph.edges@, members),
            graph.nodes@.len() <= i32::MAX,
            front@.len() == i,
            forall|j: int|
                0 <= j < i ==> is_normal_form_of((#[trigger] front@[j]).0@, members[j].partition)
                    && front@[j].1 == members[j].objectives && front@[j].0@.dom()
                    == graph.nodes@,
        decreases first_front@.len() - i,
    {
        let member = &first_front[i];
        assert(member@ == members[i as int]);
        assert(sound(graph.nodes@, graph.edges@, members[i as int]));
        let normal = normalize_community_ids(member.partition.clone());
        front.push((normal, member.objectives));
        i += 1;
    }
    front
}

/// Runs the search and returns, in normal form, the partition of the
/// member of the front that has the highest modularity; of several, the
/// first.
pub fn max_q_partition(graph: &Graph, settings: &Settings) -> (partition: Partition)
    requires
        graph.wf(),
        fault_of(graph, *settings) is None,
    ensures
        is_normal_form_of(
            partition@,
            max_q_member(run_of(graph, *settings), settings.num_gens as nat).partition,
        ),
        partition@.dom() == graph.nodes@,
{
    let archive = evolve(graph, settings);
    let best_solution = max_q_selection(&archive);
    proof {
        lemma_best_q(views(archive@), archive@.len() as int);
        assert(sound(
            graph.nodes@,
            graph.edges@,
            views(archive@)[best_q(views(archive@), archive@.len() as int)],
        ));
    }
    normalize_community_ids(best_solution.partition.clone())
}

/// Runs the search on each of the randomized graphs, one after the other.
fn random_searches(
    random_networks: &Vec<Graph>,
    settings: &Settings,
    run: Ghost<Run>,
    after_search: Ghost<u64>,
    rng: &mut Rng,
) -> (random_archives: Vec<Vec<Solution>>)
    requires
        settings.pop_size >= 1,
        1 <= run@.nodes.len(),
        run@.edges.len() <= MAX_EDGES,
        run@.strategy == settings.strategy,
        run@.pop_size == settings.pop_size,
        run@.cross_rate == settings.cross_rate,
        run@.mut_rate == settings.mut_rate,
        after_search@ == state_at(run@, settings.num_gens as nat),
        old(rng).state == advance_by(after_search@, random_networks@.len() * run@.edges.len()),
        forall|j: int|
            0 <= j < random_networks@.len() ==> (#[trigger] random_networks@[j]).wf()
                && random_networks@[j].nodes@ == run@.nodes && random_networks@[j].edges@
                == random_edges_of(run@.edges, after_search@, random_networks@.len())[j]
                && random_networks@[j].edges@.len() == run@.edges.len(),
    ensures
        front_views(random_archives@) == random_fronts(
            run@,
            settings.num_gens as nat,
            random_networks@.len(),
        ),
{
    let ghost generations = settings.num_gens as nat;
    let ghost networks = random_networks@.len();
    let ghost per_run = draws_per_run(run@, generations);
    let ghost after_networks = rng.state;
    let mut random_archives: Vec<Vec<Solution>> = Vec::new();
    let mut k: usize = 0;
    assert(0 * per_run == 0) by (nonlinear_arith);
    while k < random_networks.len()
        invariant
            k <= random_networks@.len(),
            networks == random_networks@.len(),
            generations == settings.num_gens,
            per_run == draws_per_run(run@, generations),
            settings.pop_size >= 1,
            1 <= run@.nodes.len(),
            run@.edges.len() <= MAX_EDGES,
            run@.strategy == settings.strategy,
            run@.pop_size == settings.pop_size,
            run@.cross_rate == settings.cross_rate,
            run@.mut_rate == settings.mut_rate,
            after_search@ == state_at(run@, generations),
            after_networks == advance_by(after_search@, networks * run@.edges.len()),
            forall|j: int|
                0 <= j < networks ==> (#[trigger] random_networks@[j]).wf()
                    && random_networks@[j].nodes@ == run@.nodes && random_networks@[j].edges@
                    == random_edges_of(run@.edges, after_search@, networks)[j]
                    && random_networks@[j].edges@.len() == run@.edges.len(),
            rng.state == advance_by(after_networks, (k * per_run) as nat),
            random_archives@.len() == k,
            forall|j: int|
                0 <= j < k ==> views((#[trigger] random_archives@[j])@) == front_after(
                    random_run(run@, generations, networks, j),
                    generations,
                ),
        decreases random_networks@.len() - k,
    {
        let random_graph = &random_networks[k];
        let random_degrees = random_graph.precompute_degrees();
        let front = evolutionary_phase(
            random_graph,
            settings.strategy,
            settings.num_gens,
            settings.pop_size,
            settings.cross_rate,
            settings.mut_rate,
            &random_degrees,
            rng,
        );
        proof {
            lemma_advance_by_add(after_networks, (k * per_run) as nat, per_run);
            assert((k + 1) * per_run == k * per_run + per_run) by (nonlinear_arith);
        }
        random_archives.push(front);
        k += 1;
    }
    assert(front_views(random_archives@) =~= random_fronts(run@, generations, networks));
    random_archives
}

/// Runs the search on the graph and on `rand_networks` randomized graphs
/// of the same degrees, and returns, in normal form, the partition of the
/// member of the front that lies farthest from the fronts of the
/// randomized graphs; of several, the first. Without randomized graphs it
/// is the member of the highest modularity.
pub fn min_max_partition(graph: &Graph, settings: &Settings) -> (partition: Partition)
    requires
        graph.wf(),
        fault_of(graph, *settings) is None,
    ensures
        is_normal_form_of(
            partition@,
            min_max_member(
                run_of(graph, *settings),
                settings.num_gens as nat,
                settings.rand_networks as nat,
            ).partition,
        ),
        partition@.dom() == graph.nodes@,
{
    let ghost run = run_of(graph, *settings);
    let degrees = graph.precompute_degrees();
    let mut rng = Rng::new(settings.seed);
    let archive = evolutionary_phase(
        graph,
        settings.strategy,
        settings.num_gens,
        settings.pop_size,
        settings.cross_rate,
        settings.mut_rate,
        &degrees,
        &mut rng,
    );
    let ghost after_search = rng.state;
    let random_networks = generate_random_networks(graph, settings.rand_networks, &mut rng);
    let random_archives = random_searches(
        &random_networks,
        settings,
        Ghost(run),
        Ghost(after_search),
        &mut rng,
    );
    let best_solution = min_max_selection(&archive, &random_archives);
    proof {
        let members = views(archive@);
        let ensemble = ensemble_of(front_views(random_archives@));
        if ensemble.len() == 0 {
            lemma_best_q(members, members.len() as int);
        } else {
            lemma_most_deviant(members, ensemble, members.len() as int);
        }
        assert(sound(graph.nodes@, graph.edges@, members[min_max_pick(members, ensemble)]));
    }
    normalize_community_ids(best_solution.partition.clone())
}

} // verus!
