use mocd::graph::{build_graph, Partition};
use mocd::operators::{assemble, crossover, mutate, single_community};

fn partition_of(pairs: &[(i32, i32)]) -> Partition {
    let mut partition = Partition::new();
    for &(node, label) in pairs {
        partition.insert(node, label);
    }
    partition
}

#[test]
fn test_crossover_takes_labels_by_the_mask() {
    let first = partition_of(&[(0, 1), (1, 1), (2, 1), (3, 1)]);
    let second = partition_of(&[(0, 5), (1, 6), (2, 7), (3, 8)]);
    let child = crossover(&first, &second, &vec![true, false, false, true]);
    assert_eq!(child, partition_of(&[(0, 5), (1, 1), (2, 1), (3, 8)]));
}

#[test]
fn test_crossover_with_an_empty_mask_copies_the_first_parent() {
    let first = partition_of(&[(0, 1), (1, 2)]);
    let second = partition_of(&[(0, 5), (1, 6)]);
    assert_eq!(crossover(&first, &second, &vec![]), first);
    assert_eq!(crossover(&first, &second, &vec![true, true]), second);
}

#[test]
fn test_crossover_keeps_the_nodes_of_the_first_parent() {
    let first = partition_of(&[(0, 1), (1, 2), (2, 3)]);
    let second = partition_of(&[(1, 9), (7, 9)]);
    let child = crossover(&first, &second, &vec![true, true, true]);
    assert_eq!(child, partition_of(&[(0, 1), (1, 9), (2, 3)]));
}

#[test]
fn test_mutation_follows_the_picked_neighbour() {
    let graph = build_graph(vec![(0, 1), (0, 2), (1, 2), (2, 3)]);
    let partition = partition_of(&[(0, 10), (1, 11), (2, 12), (3, 13)]);
    // node 0 has the neighbours [1, 2]; node 2 has [0, 1, 3]
    let mutant = mutate(&partition, &graph, &vec![Some(1), None, Some(5), Some(0)]);
    assert_eq!(mutant, partition_of(&[(0, 12), (1, 11), (2, 13), (3, 12)]));
}

#[test]
fn test_mutation_reads_the_labels_of_the_parent() {
    let graph = build_graph(vec![(0, 1)]);
    let partition = partition_of(&[(0, 3), (1, 4)]);
    let mutant = mutate(&partition, &graph, &vec![Some(0), Some(0)]);
    assert_eq!(mutant, partition_of(&[(0, 4), (1, 3)]));
}

#[test]
fn test_mutation_without_picks_changes_nothing() {
    let graph = build_graph(vec![(0, 1), (1, 2)]);
    let partition = partition_of(&[(0, 3), (1, 4), (2, 5)]);
    assert_eq!(mutate(&partition, &graph, &vec![None, None, None]), partition);
    assert_eq!(mutate(&partition, &graph, &vec![]), partition);
}

#[test]
fn test_mutation_of_an_isolated_node_keeps_its_label() {
    let mut graph = build_graph(vec![(0, 1)]);
    graph.add_node(2);
    let partition = partition_of(&[(0, 3), (1, 4), (2, 5)]);
    let mutant = mutate(&partition, &graph, &vec![None, None, Some(17)]);
    assert_eq!(mutant, partition);
}

#[test]
fn test_mutation_only_hands_out_labels_of_neighbours() {
    let graph = build_graph(vec![(0, 1), (1, 2), (2, 3), (3, 0), (0, 2)]);
    let partition = partition_of(&[(0, 0), (1, 1), (2, 2), (3, 3)]);
    for draw in 0..20u64 {
        let mutant = mutate(&partition, &graph, &vec![Some(draw); 4]);
        assert_eq!(mutant.len(), 4);
        for (node, label) in &mutant {
            let neighbours = graph.neighbors(node);
            assert!(neighbours.iter().any(|other| partition[other] == *label));
        }
    }
}

#[test]
fn test_single_community() {
    let mut graph = build_graph(vec![(4, 1), (1, 9)]);
    graph.add_node(-3);
    assert_eq!(single_community(&graph), partition_of(&[(-3, 0), (1, 0), (4, 0), (9, 0)]));
}

#[test]
fn test_assemble() {
    let entries = vec![(1, 0), (5, 0), (8, 0)];
    assert_eq!(assemble(&entries, &vec![7, 6, 7]), partition_of(&[(1, 7), (5, 6), (8, 7)]));
}
