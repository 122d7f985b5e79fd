use mocd::error::InputError;
use mocd::fitness::{covers_graph, fitness, get_fitness, Objectives};
use mocd::graph::{build_graph, Graph, Partition};

fn partition_of(pairs: &[(i32, i32)]) -> Partition {
    let mut partition = Partition::new();
    for &(node, label) in pairs {
        partition.insert(node, label);
    }
    partition
}

fn two_triangles() -> Graph {
    build_graph(vec![(0, 1), (1, 2), (2, 0), (3, 4), (4, 5), (5, 3)])
}

#[test]
fn test_fitness_of_two_triangles() {
    let graph = two_triangles();
    let partition = partition_of(&[(0, 0), (1, 0), (2, 0), (3, 1), (4, 1), (5, 1)]);
    let objectives = fitness(&graph, &partition).unwrap();
    assert_eq!(objectives, Objectives { intra: 0, inter: 72, scale: 144 });
    assert_eq!(objectives.modularity_numerator(), 72);
}

#[test]
fn test_fitness_of_one_community() {
    let graph = two_triangles();
    let partition = partition_of(&[(0, 0), (1, 0), (2, 0), (3, 0), (4, 0), (5, 0)]);
    let objectives = fitness(&graph, &partition).unwrap();
    assert_eq!(objectives, Objectives { intra: 0, inter: 144, scale: 144 });
    assert_eq!(objectives.modularity_numerator(), 0);
}

#[test]
fn test_fitness_of_singletons() {
    let graph = two_triangles();
    let partition = partition_of(&[(0, 0), (1, 1), (2, 2), (3, 3), (4, 4), (5, 5)]);
    let objectives = fitness(&graph, &partition).unwrap();
    assert_eq!(objectives, Objectives { intra: 144, inter: 24, scale: 144 });
    assert_eq!(objectives.modularity_numerator(), -24);
}

#[test]
fn test_fitness_of_a_mixed_partition() {
    let graph = build_graph(vec![(0, 1), (1, 2), (2, 3)]);
    let partition = partition_of(&[(0, 5), (1, 5), (2, 8), (3, 8)]);
    let objectives = fitness(&graph, &partition).unwrap();
    assert_eq!(objectives, Objectives { intra: 12, inter: 18, scale: 36 });
    assert_eq!(objectives.modularity_numerator(), 6);
}

#[test]
fn test_losses_lie_between_zero_and_one() {
    let graph = build_graph(vec![(0, 1), (1, 2), (2, 3), (3, 0), (0, 2), (4, 4), (4, 0)]);
    for pattern in 0..32 {
        let mut partition = Partition::new();
        for node in 0..5 {
            partition.insert(node, (pattern >> node) & 1);
        }
        let objectives = fitness(&graph, &partition).unwrap();
        assert_eq!(objectives.scale, 196);
        assert!(objectives.intra <= objectives.scale);
        assert!(objectives.inter <= objectives.scale);
        assert_eq!(
            objectives.modularity_numerator(),
            objectives.scale as i128 - objectives.intra as i128 - objectives.inter as i128
        );
    }
}

#[test]
fn test_fitness_counts_self_loops_and_parallel_edges() {
    let graph = build_graph(vec![(0, 0), (0, 1), (0, 1)]);
    let partition = partition_of(&[(0, 0), (1, 1)]);
    let objectives = fitness(&graph, &partition).unwrap();
    assert_eq!(objectives, Objectives { intra: 24, inter: 20, scale: 36 });
}

#[test]
fn test_fitness_of_a_single_node_without_edges() {
    let mut graph = Graph::new();
    graph.add_node(0);
    let partition = partition_of(&[(0, 0)]);
    let objectives = fitness(&graph, &partition).unwrap();
    assert_eq!(objectives, Objectives { intra: 0, inter: 0, scale: 1 });
    assert_eq!(objectives.modularity_numerator(), 1);
}

#[test]
fn test_fitness_ignores_labels_of_strangers() {
    let graph = build_graph(vec![(0, 1)]);
    let partition = partition_of(&[(0, 0), (1, 0), (9, 0)]);
    let objectives = fitness(&graph, &partition).unwrap();
    assert_eq!(objectives, Objectives { intra: 0, inter: 4, scale: 4 });
}

#[test]
fn test_fitness_rejects_an_empty_graph() {
    let graph = Graph::new();
    assert_eq!(fitness(&graph, &Partition::new()), Err(InputError::EmptyGraph));
}

#[test]
fn test_fitness_rejects_an_uncovered_node() {
    let graph = two_triangles();
    let partition = partition_of(&[(0, 0), (1, 0), (2, 0), (3, 1), (4, 1)]);
    assert_eq!(fitness(&graph, &partition), Err(InputError::UncoveredNode));
    assert!(!covers_graph(&graph, &partition));
}

#[test]
fn test_get_fitness_reads_the_degree_table() {
    let graph = two_triangles();
    let degrees = graph.precompute_degrees();
    let partition = partition_of(&[(0, 0), (1, 0), (2, 1), (3, 1), (4, 1), (5, 1)]);
    assert!(covers_graph(&graph, &partition));
    let objectives = get_fitness(&graph, &partition, &degrees);
    assert_eq!(objectives, Objectives { intra: 48, inter: 80, scale: 144 });
    assert_eq!(fitness(&graph, &partition), Ok(objectives));
}
