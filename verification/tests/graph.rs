use mocd::graph::Graph;
use rustc_hash::FxHashMap;

#[test]
fn test_graph_num_nodes() {
    let mut graph: Graph = Graph::new();
    graph.add_edge(0, 1);
    graph.add_edge(0, 2);
    graph.add_edge(0, 4);

    assert_eq!(graph.num_nodes(), 4);
}

#[test]
fn test_neighbors() {
    let mut graph: Graph = Graph::new();
    graph.add_edge(0, 1);
    graph.add_edge(0, 2);
    graph.add_edge(0, 4);

    assert_eq!(graph.neighbors(&0), [1, 2, 4]);
}

#[test]
fn test_precompute_degrees() {
    let mut graph: Graph = Graph::new();
    graph.add_edge(0, 1);
    graph.add_edge(0, 2);
    graph.add_edge(0, 4);

    let mut expected = FxHashMap::default();
    expected.insert(0, 3);
    expected.insert(2, 1);
    expected.insert(4, 1);
    expected.insert(1, 1);

    assert_eq!(graph.precompute_degrees(), expected);
}

#[test]
fn test_graph_num_edges() {
    let mut graph: Graph = Graph::new();
    graph.add_edge(0, 1);
    graph.add_edge(0, 2);
    graph.add_edge(0, 4);

    assert_eq!(graph.num_edges(), 3);
}

#[test]
fn test_add_node_without_edges() {
    let mut graph = Graph::new();
    graph.add_node(7);
    graph.add_node(7);
    assert_eq!(graph.num_nodes(), 1);
    assert_eq!(graph.num_edges(), 0);
    assert!(graph.neighbors(&7).is_empty());
    let degrees = graph.precompute_degrees();
    assert_eq!(degrees.len(), 1);
    assert_eq!(degrees[&7], 0);
}

#[test]
fn test_add_node_keeps_neighbors() {
    let mut graph = Graph::new();
    graph.add_edge(1, 2);
    graph.add_node(1);
    assert_eq!(graph.neighbors(&1), [2]);
    assert_eq!(graph.num_nodes(), 2);
}

#[test]
fn test_neighbors_of_unknown_node() {
    let mut graph = Graph::new();
    graph.add_edge(0, 1);
    assert!(graph.neighbors(&5).is_empty());
}

#[test]
fn test_self_loop_counts_twice() {
    let mut graph = Graph::new();
    graph.add_edge(3, 3);
    assert_eq!(graph.num_nodes(), 1);
    assert_eq!(graph.num_edges(), 1);
    assert_eq!(graph.neighbors(&3), [3, 3]);
    assert_eq!(graph.precompute_degrees()[&3], 2);
}

#[test]
fn test_parallel_edges_are_kept() {
    let mut graph = Graph::new();
    graph.add_edge(0, 1);
    graph.add_edge(0, 1);
    graph.add_edge(1, 0);
    assert_eq!(graph.num_edges(), 3);
    assert_eq!(graph.num_nodes(), 2);
    assert_eq!(graph.neighbors(&0), [1, 1, 1]);
    assert_eq!(graph.neighbors(&1), [0, 0, 0]);
}

#[test]
fn test_neighbors_are_symmetric() {
    let mut graph = Graph::new();
    graph.add_edge(-4, 9);
    assert_eq!(graph.neighbors(&-4), [9]);
    assert_eq!(graph.neighbors(&9), [-4]);
}

#[test]
fn test_empty_graph() {
    let graph = Graph::new();
    assert_eq!(graph.num_nodes(), 0);
    assert_eq!(graph.num_edges(), 0);
    assert!(graph.precompute_degrees().is_empty());
    let other = Graph::default();
    assert_eq!(other.num_nodes(), 0);
}

#[test]
fn test_build_graph() {
    let graph = mocd::graph::build_graph(vec![(0, 1), (1, 2), (2, 0)]);
    assert_eq!(graph.num_nodes(), 3);
    assert_eq!(graph.num_edges(), 3);
    assert_eq!(graph.edges, vec![(0, 1), (1, 2), (2, 0)]);
    assert_eq!(graph.neighbors(&0), [1, 2]);
    assert_eq!(graph.neighbors(&1), [0, 2]);
    assert_eq!(graph.neighbors(&2), [1, 0]);
}

#[test]
fn test_clone_is_independent() {
    let mut graph = Graph::new();
    graph.add_edge(0, 1);
    let copy = graph.clone();
    graph.add_edge(1, 2);
    assert_eq!(copy.num_nodes(), 2);
    assert_eq!(copy.num_edges(), 1);
    assert_eq!(copy.neighbors(&1), [0]);
    assert_eq!(graph.num_nodes(), 3);
    assert_eq!(graph.neighbors(&1), [0, 2]);
}
