use karger::graph::Graph;
use karger::graph::GraphError;

fn matrix(g: &Graph) -> Vec<Vec<usize>> {
    g.adjacency_matrix.clone()
}

#[test]
fn new_graph_is_empty() {
    let g = Graph::new();
    assert_eq!(g.nodes, 0);
    assert_eq!(g.edges, 0);
    assert!(g.node_names.is_empty());
    assert!(g.adjacency_matrix.is_empty());
}

#[test]
fn add_node_assigns_dense_identifiers() {
    let mut g = Graph::new();
    assert!(g.add_node("A").is_ok());
    assert!(g.add_node("B").is_ok());
    assert!(g.add_node("C").is_ok());
    assert_eq!(g.nodes, 3);
    assert_eq!(g.node_names, vec!["A".to_string(), "B".to_string(), "C".to_string()]);
    assert_eq!(matrix(&g), vec![vec![0, 0, 0], vec![0, 0, 0], vec![0, 0, 0]]);
    assert_eq!(g.edges, 0);
}

#[test]
fn add_node_duplicate_is_rejected() {
    let mut g = Graph::new();
    assert!(g.add_node("A").is_ok());
    assert_eq!(g.add_node("A"), Err(GraphError::DuplicateLabel));
    assert_eq!(g.nodes, 1);
    assert_eq!(g.node_names, vec!["A".to_string()]);
}

#[test]
fn add_edge_increments_both_symmetric_cells() {
    let mut g = Graph::new();
    g.add_node("A").unwrap();
    g.add_node("B").unwrap();
    assert!(g.add_edge("A", "B").is_ok());
    assert_eq!(matrix(&g), vec![vec![0, 1], vec![1, 0]]);
    assert_eq!(g.edges, 1);
}

#[test]
fn add_edge_supports_parallel_edges() {
    let mut g = Graph::new();
    g.add_node("A").unwrap();
    g.add_node("B").unwrap();
    g.add_edge("A", "B").unwrap();
    g.add_edge("A", "B").unwrap();
    assert_eq!(matrix(&g), vec![vec![0, 2], vec![2, 0]]);
    assert_eq!(g.edges, 2);
}

#[test]
fn add_edge_unknown_label_is_a_noop() {
    let mut g = Graph::new();
    g.add_node("A").unwrap();
    g.add_node("B").unwrap();
    let before = matrix(&g);
    assert!(g.add_edge("A", "Z").is_ok());
    assert!(g.add_edge("Z", "B").is_ok());
    assert!(g.add_edge("Y", "Z").is_ok());
    assert_eq!(matrix(&g), before);
    assert_eq!(g.edges, 0);
    assert_eq!(g.nodes, 2);
}

#[test]
fn add_edge_self_loop_is_rejected() {
    let mut g = Graph::new();
    g.add_node("A").unwrap();
    assert_eq!(g.add_edge("A", "A"), Err(GraphError::InvalidEdge));
    assert_eq!(matrix(&g), vec![vec![0]]);
    assert_eq!(g.edges, 0);
}

#[test]
fn delete_edge_decrements_until_zero() {
    let mut g = Graph::new();
    g.add_node("A").unwrap();
    g.add_node("B").unwrap();
    g.add_edge("A", "B").unwrap();
    g.add_edge("A", "B").unwrap();
    g.delete_edge("A", "B");
    assert_eq!(matrix(&g), vec![vec![0, 1], vec![1, 0]]);
    assert_eq!(g.edges, 1);
    g.delete_edge("B", "A");
    assert_eq!(g.edges, 0);
    // already zero: a further delete is a no-op
    g.delete_edge("A", "B");
    assert_eq!(matrix(&g), vec![vec![0, 0], vec![0, 0]]);
    assert_eq!(g.edges, 0);
}

#[test]
fn delete_edge_unknown_label_is_a_noop() {
    let mut g = Graph::new();
    g.add_node("A").unwrap();
    g.add_node("B").unwrap();
    g.add_edge("A", "B").unwrap();
    g.delete_edge("A", "Z");
    assert_eq!(g.edges, 1);
}

#[test]
fn delete_node_removes_incident_edges() {
    // nodes [A, B, C], edges A-B and B-C; deleting B leaves {A, C} and no edges
    let mut g = Graph::new();
    g.add_node("A").unwrap();
    g.add_node("B").unwrap();
    g.add_node("C").unwrap();
    g.add_edge("A", "B").unwrap();
    g.add_edge("B", "C").unwrap();
    g.delete_node("B");
    assert_eq!(g.node_names, vec!["A".to_string(), "C".to_string()]);
    assert_eq!(g.nodes, 2);
    assert_eq!(matrix(&g), vec![vec![0, 0], vec![0, 0]]);
    assert_eq!(g.edges, 0);
}

#[test]
fn delete_node_keeps_identifiers_dense() {
    let mut g = Graph::new();
    g.add_node("A").unwrap();
    g.add_node("B").unwrap();
    g.add_node("C").unwrap();
    g.add_edge("A", "C").unwrap();
    g.delete_node("B");
    // C moved from identifier 2 to identifier 1; the A-C edge moved with it
    assert_eq!(g.node_names, vec!["A".to_string(), "C".to_string()]);
    assert_eq!(matrix(&g), vec![vec![0, 1], vec![1, 0]]);
    assert_eq!(g.edges, 1);
}

#[test]
fn delete_node_unknown_label_is_a_noop() {
    let mut g = Graph::new();
    g.add_node("A").unwrap();
    g.add_edge("A", "A").ok();
    g.delete_node("Z");
    assert_eq!(g.nodes, 1);
    assert_eq!(g.node_names, vec!["A".to_string()]);
}

#[test]
fn recompute_edges_agrees_with_the_matrix() {
    let mut g = Graph::new();
    g.add_node("A").unwrap();
    g.add_node("B").unwrap();
    g.add_node("C").unwrap();
    g.add_edge("A", "B").unwrap();
    g.add_edge("A", "B").unwrap();
    g.add_edge("B", "C").unwrap();
    g.recompute_edges();
    assert_eq!(g.edges, 3);
}

#[test]
fn contract_edge_accumulates_weights_and_drops_the_contracted_edge() {
    let mut g = Graph::new();
    g.add_node("A").unwrap();
    g.add_node("B").unwrap();
    g.add_node("C").unwrap();
    g.add_edge("A", "B").unwrap();
    g.add_edge("A", "C").unwrap();
    g.add_edge("A", "C").unwrap();
    g.add_edge("B", "C").unwrap();
    g.add_edge("B", "C").unwrap();
    g.add_edge("B", "C").unwrap();
    // weights: A-B = 1, A-C = 2, B-C = 3; total 6
    assert!(g.contract_edge("B", "C").is_ok());
    assert_eq!(g.node_names, vec!["A".to_string(), "B_C".to_string()]);
    // merged weight to A is A-B + A-C = 3; the three B-C edges vanished
    assert_eq!(matrix(&g), vec![vec![0, 3], vec![3, 0]]);
    assert_eq!(g.edges, 3);
}

#[test]
fn contract_edge_unknown_label_is_a_noop() {
    let mut g = Graph::new();
    g.add_node("A").unwrap();
    g.add_node("B").unwrap();
    g.add_edge("A", "B").unwrap();
    assert!(g.contract_edge("A", "Z").is_ok());
    assert_eq!(g.nodes, 2);
    assert_eq!(g.edges, 1);
}

#[test]
fn contract_edge_same_node_is_rejected() {
    let mut g = Graph::new();
    g.add_node("A").unwrap();
    g.add_node("B").unwrap();
    assert_eq!(g.contract_edge("A", "A"), Err(GraphError::InvalidEdge));
    assert_eq!(g.nodes, 2);
}

#[test]
fn contract_edge_merged_label_collision_is_rejected() {
    let mut g = Graph::new();
    g.add_node("A").unwrap();
    g.add_node("B").unwrap();
    g.add_node("A_B").unwrap();
    g.add_edge("A", "B").unwrap();
    assert_eq!(g.contract_edge("A", "B"), Err(GraphError::DuplicateLabel));
    assert_eq!(g.nodes, 3);
    assert_eq!(g.edges, 1);
}

#[test]
fn weighted_edges_lists_each_edge_once_per_multiplicity() {
    let mut g = Graph::new();
    g.add_node("A").unwrap();
    g.add_node("B").unwrap();
    g.add_node("C").unwrap();
    g.add_edge("A", "B").unwrap();
    g.add_edge("A", "B").unwrap();
    g.add_edge("B", "C").unwrap();
    let pool = g.weighted_edges();
    assert_eq!(pool, vec![(0, 1), (0, 1), (1, 2)]);
}

#[test]
fn random_edge_with_no_edges_gives_nothing() {
    let empty = Graph::new();
    assert!(empty.random_edge().is_none());

    let mut g = Graph::new();
    g.add_node("A").unwrap();
    g.add_node("B").unwrap();
    assert!(g.random_edge().is_none());
}

#[test]
fn random_edge_returns_the_only_edge() {
    let mut g = Graph::new();
    g.add_node("A").unwrap();
    g.add_node("B").unwrap();
    g.add_edge("A", "B").unwrap();
    let (u, v) = g.random_edge().expect("one edge exists");
    assert_eq!(u, "A");
    assert_eq!(v, "B");
}

#[test]
fn random_edge_sampling_is_weighted_by_multiplicity() {
    let mut g = Graph::new();
    g.add_node("A").unwrap();
    g.add_node("B").unwrap();
    g.add_node("C").unwrap();
    g.add_edge("A", "B").unwrap();
    g.add_edge("B", "C").unwrap();
    g.add_edge("B", "C").unwrap();
    g.add_edge("B", "C").unwrap();
    // B-C holds 3 of the 4 units of multiplicity
    let trials = 4000;
    let mut heavy = 0usize;
    let mut k = 0usize;
    while k < trials {
        let (u, v) = g.random_edge().expect("edges exist");
        if u == "B" && v == "C" {
            heavy += 1;
        } else {
            assert_eq!((u.as_str(), v.as_str()), ("A", "B"));
        }
        k += 1;
    }
    // expectation 3000 of 4000; a band of 400 on each side
    assert!(heavy > 2600 && heavy < 3400, "heavy = {}", heavy);
}

#[test]
fn clone_is_a_deep_independent_copy() {
    let mut g = Graph::new();
    g.add_node("A").unwrap();
    g.add_node("B").unwrap();
    g.add_edge("A", "B").unwrap();
    let mut c = g.clone();
    c.add_edge("A", "B").unwrap();
    assert_eq!(g.edges, 1);
    assert_eq!(c.edges, 2);
    assert_eq!(g.adjacency_matrix[0][1], 1);
    assert_eq!(c.adjacency_matrix[0][1], 2);
}
