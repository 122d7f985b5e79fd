use mocd::evolutionary::{breed, evaluate_all, evolutionary_phase, initial_population};
use mocd::error::InputError;
use mocd::fitness::{fitness, Objectives};
use mocd::graph::{build_graph, Graph, Partition};
use mocd::mocd_nsga_ii::MocdNsgaII;
use mocd::mocd_pesa_ii::MocdPesaII;
use mocd::model_selection::{generate_random_networks, rewire, with_edges};
use mocd::partition::normalize_community_ids;
use mocd::rng::Rng;
use mocd::search::{check, evolve, max_q_partition, min_max_partition, Settings};
use mocd::selection::SelectionStrategy;
use mocd::solution::Solution;

fn two_triangles() -> Graph {
    build_graph(vec![(0, 1), (1, 2), (2, 0), (3, 4), (4, 5), (5, 3)])
}

fn ring_of_cliques() -> Graph {
    let mut edges = Vec::new();
    for clique in 0..4 {
        let base = clique * 4;
        for a in 0..4 {
            for b in (a + 1)..4 {
                edges.push((base + a, base + b));
            }
        }
        edges.push((base + 3, (base + 4) % 16));
    }
    build_graph(edges)
}

fn search(graph: Graph, pop_size: usize, num_gens: usize, seed: u64) -> MocdPesaII {
    MocdPesaII::new(graph, 0, 3, pop_size, num_gens, 800_000, 200_000, seed).unwrap()
}

fn losses(front: &[Solution]) -> Vec<Objectives> {
    front.iter().map(|member| member.objectives).collect()
}

fn check_front(graph: &Graph, front: &[Solution], pop_size: usize) {
    assert!(!front.is_empty());
    assert!(front.len() <= pop_size);
    for a in front {
        assert_eq!(a.partition.len(), graph.num_nodes());
        assert_eq!(fitness(graph, &a.partition), Ok(a.objectives));
        for b in front {
            assert!(!a.objectives.dominates(&b.objectives));
        }
    }
}

#[test]
fn test_two_triangles_max_q() {
    let search = search(two_triangles(), 20, 50, 1);
    let partition = search.max_q();
    let mut expected = Partition::new();
    for node in 0..3 {
        expected.insert(node, 0);
    }
    for node in 3..6 {
        expected.insert(node, 1);
    }
    assert_eq!(partition, expected);
    let objectives = fitness(search.graph(), &partition).unwrap();
    assert_eq!(objectives, Objectives { intra: 0, inter: 72, scale: 144 });
    assert_eq!(2 * objectives.modularity_numerator(), 144);
}

#[test]
fn test_two_triangles_for_several_seeds() {
    for seed in 0..10 {
        let search = search(two_triangles(), 20, 50, seed);
        let partition = search.max_q();
        assert_eq!(partition[&0], partition[&1]);
        assert_eq!(partition[&0], partition[&2]);
        assert_eq!(partition[&3], partition[&4]);
        assert_eq!(partition[&3], partition[&5]);
        assert_ne!(partition[&0], partition[&3]);
    }
}

#[test]
fn test_single_node_without_edges() {
    let mut graph = Graph::new();
    graph.add_node(4);
    let search = search(graph, 10, 5, 42);
    let front = search.envolve();
    assert_eq!(front.len(), 1);
    assert_eq!(front[0].objectives, Objectives { intra: 0, inter: 0, scale: 1 });
    assert_eq!(front[0].objectives.modularity_numerator(), 1);
    let mut expected = Partition::new();
    expected.insert(4, 0);
    assert_eq!(search.max_q(), expected);
    assert_eq!(search.min_max(), expected);
    let pareto = search.generate_pareto_front();
    assert_eq!(pareto.len(), 1);
    assert_eq!(pareto[0].0, expected);
}

#[test]
fn test_graph_without_edges() {
    let mut graph = Graph::new();
    for node in 0..5 {
        graph.add_node(node);
    }
    let search = search(graph, 8, 3, 7);
    let front = search.envolve();
    check_front(search.graph(), &front, 8);
    assert_eq!(front.len(), 1);
    assert_eq!(front[0].objectives, Objectives { intra: 0, inter: 0, scale: 1 });
}

#[test]
fn test_front_is_non_dominated_and_bounded() {
    for seed in 0..5 {
        for &(pop_size, num_gens) in &[(1usize, 0usize), (1, 5), (3, 10), (10, 20), (30, 15)] {
            let search = search(ring_of_cliques(), pop_size, num_gens, seed);
            let front = search.envolve();
            check_front(search.graph(), &front, pop_size);
        }
    }
}

#[test]
fn test_archive_is_bounded_after_every_selection() {
    let graph = ring_of_cliques();
    let degrees = graph.precompute_degrees();
    for strategy in [SelectionStrategy::Hypergrid, SelectionStrategy::RankCrowding] {
        let mut rng = Rng::new(99);
        let population = initial_population(&graph, 12, &mut rng);
        assert_eq!(population.len(), 12);
        let evaluated = evaluate_all(&graph, &degrees, &population);
        let mut archive = strategy.select(&evaluated, 4);
        assert!(1 <= archive.len() && archive.len() <= 4);
        for _ in 0..30 {
            let offspring = breed(strategy, &archive, &graph, 12, 800_000, 200_000, &mut rng);
            assert_eq!(offspring.len(), 12);
            let mut children = evaluate_all(&graph, &degrees, &offspring);
            archive.append(&mut children);
            archive = strategy.select(&archive, 4);
            assert!(1 <= archive.len() && archive.len() <= 4);
            for member in &archive {
                assert_eq!(fitness(&graph, &member.partition), Ok(member.objectives));
            }
        }
    }
}

#[test]
fn test_zero_generations_return_the_front_of_the_first_population() {
    let graph = ring_of_cliques();
    let degrees = graph.precompute_degrees();
    let mut rng = Rng::new(5);
    let strategy = SelectionStrategy::Hypergrid;
    let front = evolutionary_phase(&graph, strategy, 0, 15, 800_000, 200_000, &degrees, &mut rng);
    let mut again = Rng::new(5);
    let population = initial_population(&graph, 15, &mut again);
    let expected = strategy.select(&evaluate_all(&graph, &degrees, &population), 15);
    assert_eq!(losses(&front), losses(&expected));
    assert_eq!(rng, again);
    check_front(&graph, &front, 15);
}

#[test]
fn test_same_seed_same_front() {
    let first = search(ring_of_cliques(), 15, 20, 2024).envolve();
    let second = search(ring_of_cliques(), 15, 20, 2024).envolve();
    assert_eq!(first.len(), second.len());
    for (a, b) in first.iter().zip(second.iter()) {
        assert_eq!(a.partition, b.partition);
        assert_eq!(a.objectives, b.objectives);
    }
    let search = search(ring_of_cliques(), 15, 20, 2024);
    assert_eq!(search.max_q(), search.max_q());
    assert_eq!(search.min_max(), search.min_max());
}

#[test]
fn test_search_improves_on_the_first_population() {
    let graph = ring_of_cliques();
    let start = search(ring_of_cliques(), 30, 0, 3).envolve();
    let end = search(ring_of_cliques(), 30, 60, 3).envolve();
    let best = |front: &[Solution]| {
        front.iter().map(|member| member.objectives.modularity_numerator()).max().unwrap()
    };
    assert!(best(&end) >= best(&start));
    check_front(&graph, &end, 30);
}

#[test]
fn test_pareto_front_is_normalized() {
    let search = search(ring_of_cliques(), 10, 10, 8);
    let raw = search.envolve();
    let front = search.generate_pareto_front();
    assert_eq!(front.len(), raw.len());
    assert!(!front.is_empty());
    for ((partition, objectives), member) in front.iter().zip(raw.iter()) {
        assert_eq!(*objectives, member.objectives);
        assert_eq!(*partition, normalize_community_ids(member.partition.clone()));
        assert_eq!(*partition, normalize_community_ids(partition.clone()));
        assert_eq!(partition[&0], 0);
    }
}

#[test]
fn test_min_max_returns_a_member_of_the_front() {
    let search = search(ring_of_cliques(), 12, 10, 21);
    let front = search.generate_pareto_front();
    let picked = search.min_max();
    assert!(front.iter().any(|(partition, _)| *partition == picked));
    let best = search.max_q();
    assert!(front.iter().any(|(partition, _)| *partition == best));
}

#[test]
fn test_min_max_without_random_networks_is_max_q() {
    let search =
        MocdPesaII::new(ring_of_cliques(), 0, 0, 12, 10, 800_000, 200_000, 21).unwrap();
    assert_eq!(search.min_max(), search.max_q());
}

#[test]
fn test_settings_are_checked() {
    let graph = two_triangles;
    assert!(matches!(
        MocdPesaII::new(Graph::new(), 0, 3, 10, 10, 800_000, 200_000, 0),
        Err(InputError::EmptyGraph)
    ));
    assert!(matches!(
        MocdPesaII::new(graph(), 0, 3, 0, 10, 800_000, 200_000, 0),
        Err(InputError::ZeroPopulation)
    ));
    assert!(matches!(
        MocdPesaII::new(graph(), 0, 3, 10, 10, 1_000_001, 200_000, 0),
        Err(InputError::RateOutOfRange)
    ));
    assert!(matches!(
        MocdPesaII::new(graph(), 0, 3, 10, 10, 800_000, 1_000_001, 0),
        Err(InputError::RateOutOfRange)
    ));
    assert!(matches!(
        MocdPesaII::new(Graph::new(), 0, 3, 0, 10, 2_000_000, 200_000, 0),
        Err(InputError::EmptyGraph)
    ));
    let search = MocdPesaII::new(graph(), 2, 4, 10, 11, 1_000_000, 0, 5).unwrap();
    assert_eq!(search.debug_level(), 2);
    assert_eq!(search.rand_networks(), 4);
    assert_eq!(search.pop_size(), 10);
    assert_eq!(search.num_gens(), 11);
    assert_eq!(search.cross_rate(), 1_000_000);
    assert_eq!(search.mut_rate(), 0);
    assert_eq!(search.seed(), 5);
    assert_eq!(search.graph().num_edges(), 6);
}

#[test]
fn test_random_networks_keep_the_degrees() {
    let mut graph = ring_of_cliques();
    graph.add_node(100);
    let degrees = graph.precompute_degrees();
    let mut rng = Rng::new(17);
    let networks = generate_random_networks(&graph, 5, &mut rng);
    assert_eq!(networks.len(), 5);
    let mut changed = false;
    for network in &networks {
        assert_eq!(network.num_nodes(), graph.num_nodes());
        assert_eq!(network.num_edges(), graph.num_edges());
        assert_eq!(network.nodes, graph.nodes);
        assert_eq!(network.precompute_degrees(), degrees);
        changed = changed || network.edges != graph.edges;
    }
    assert!(changed);
    assert_eq!(rng.state, Rng::new(17).state.wrapping_add(
        0x9E37_79B9_7F4A_7C15u64.wrapping_mul(5 * graph.num_edges() as u64)
    ));
}

#[test]
fn test_rewire_exchanges_second_ends() {
    let edges = vec![(0, 1), (2, 3), (4, 5)];
    let mut rng = Rng::new(1);
    let shuffled = rewire(&edges, &mut rng);
    let mut again = Rng::new(1);
    let mut expected = edges.clone();
    for k in 0..3 {
        let other = again.below(3) as usize;
        let here = expected[k];
        let there = expected[other];
        expected[k] = (here.0, there.1);
        expected[other] = (there.0, here.1);
    }
    assert_eq!(shuffled, expected);
    let firsts: Vec<i32> = shuffled.iter().map(|edge| edge.0).collect();
    assert_eq!(firsts, vec![0, 2, 4]);
    let mut seconds: Vec<i32> = shuffled.iter().map(|edge| edge.1).collect();
    seconds.sort();
    assert_eq!(seconds, vec![1, 3, 5]);
    assert!(rewire(&Vec::new(), &mut rng).is_empty());
}

#[test]
fn test_with_edges_keeps_isolated_nodes() {
    let mut graph = build_graph(vec![(0, 1), (2, 3)]);
    graph.add_node(8);
    let rebuilt = with_edges(&graph, &vec![(0, 3), (2, 1)]);
    assert_eq!(rebuilt.num_nodes(), 5);
    assert_eq!(rebuilt.edges, vec![(0, 3), (2, 1)]);
    assert_eq!(rebuilt.neighbors(&0), [3]);
    assert!(rebuilt.neighbors(&8).is_empty());
}

fn ranked_search(graph: Graph, pop_size: usize, num_gens: usize, seed: u64) -> MocdNsgaII {
    MocdNsgaII::new(graph, 0, 3, pop_size, num_gens, 800_000, 200_000, seed).unwrap()
}

#[test]
fn test_ranked_search_finds_the_two_triangles() {
    for seed in 0..10 {
        let search = ranked_search(two_triangles(), 20, 50, seed);
        let partition = search.max_q();
        let mut expected = Partition::new();
        for node in 0..6 {
            expected.insert(node, node / 3);
        }
        assert_eq!(partition, expected);
    }
}

#[test]
fn test_ranked_search_front_is_non_dominated_and_bounded() {
    for seed in 0..5 {
        for &(pop_size, num_gens) in &[(1usize, 0usize), (1, 5), (3, 10), (10, 20), (30, 15)] {
            let search = ranked_search(ring_of_cliques(), pop_size, num_gens, seed);
            let front = search.envolve();
            check_front(search.graph(), &front, pop_size);
        }
    }
}

#[test]
fn test_ranked_search_is_repeatable() {
    let first = ranked_search(ring_of_cliques(), 15, 20, 77);
    let second = ranked_search(ring_of_cliques(), 15, 20, 77);
    assert_eq!(losses(&first.envolve()), losses(&second.envolve()));
    assert_eq!(first.generate_pareto_front(), second.generate_pareto_front());
    assert_eq!(first.max_q(), second.max_q());
    assert_eq!(first.min_max(), second.min_max());
}

#[test]
fn test_ranked_search_on_a_single_node() {
    let mut graph = Graph::new();
    graph.add_node(4);
    let search = ranked_search(graph, 10, 5, 42);
    let mut expected = Partition::new();
    expected.insert(4, 0);
    assert_eq!(search.max_q(), expected);
    assert_eq!(search.min_max(), expected);
    assert_eq!(search.generate_pareto_front(), vec![(
        expected,
        Objectives { intra: 0, inter: 0, scale: 1 },
    )]);
}

#[test]
fn test_ranked_search_settings_are_checked() {
    assert!(matches!(
        MocdNsgaII::new(Graph::new(), 0, 3, 10, 10, 800_000, 200_000, 0),
        Err(InputError::EmptyGraph)
    ));
    assert!(matches!(
        MocdNsgaII::new(two_triangles(), 0, 3, 0, 10, 800_000, 200_000, 0),
        Err(InputError::ZeroPopulation)
    ));
    assert!(matches!(
        MocdNsgaII::new(two_triangles(), 0, 3, 10, 10, 800_000, 3_000_000, 0),
        Err(InputError::RateOutOfRange)
    ));
    let search = MocdNsgaII::new(two_triangles(), 1, 2, 3, 4, 5, 6, 7).unwrap();
    assert_eq!(search.debug_level(), 1);
    assert_eq!(search.rand_networks(), 2);
    assert_eq!(search.pop_size(), 3);
    assert_eq!(search.num_gens(), 4);
    assert_eq!(search.cross_rate(), 5);
    assert_eq!(search.mut_rate(), 6);
    assert_eq!(search.seed(), 7);
    assert_eq!(search.graph().num_nodes(), 6);
}

#[test]
fn test_usual_settings() {
    let settings = Settings::usual(SelectionStrategy::RankCrowding, 12);
    assert_eq!(
        settings,
        Settings {
            strategy: SelectionStrategy::RankCrowding,
            rand_networks: 3,
            pop_size: 100,
            num_gens: 500,
            cross_rate: 800_000,
            mut_rate: 200_000,
            seed: 12,
        }
    );
    assert_eq!(check(&two_triangles(), &settings), Ok(()));
}

#[test]
fn test_search_from_settings() {
    let graph = ring_of_cliques();
    let settings = Settings {
        strategy: SelectionStrategy::Hypergrid,
        rand_networks: 2,
        pop_size: 12,
        num_gens: 8,
        cross_rate: 800_000,
        mut_rate: 200_000,
        seed: 31,
    };
    assert_eq!(check(&graph, &settings), Ok(()));
    let search = MocdPesaII::new(ring_of_cliques(), 0, 2, 12, 8, 800_000, 200_000, 31).unwrap();
    assert_eq!(losses(&evolve(&graph, &settings)), losses(&search.envolve()));
    assert_eq!(max_q_partition(&graph, &settings), search.max_q());
    assert_eq!(min_max_partition(&graph, &settings), search.min_max());
    let ranked = Settings { strategy: SelectionStrategy::RankCrowding, ..settings };
    let other = ranked_search(ring_of_cliques(), 12, 8, 31);
    assert_eq!(losses(&evolve(&graph, &ranked)), losses(&other.envolve()));
    assert_eq!(check(&graph, &Settings { pop_size: 0, ..settings }), Err(InputError::ZeroPopulation));
    assert_eq!(check(&Graph::new(), &settings), Err(InputError::EmptyGraph));
    assert_eq!(
        check(&graph, &Settings { cross_rate: 1_000_001, ..settings }),
        Err(InputError::RateOutOfRange)
    );
}
