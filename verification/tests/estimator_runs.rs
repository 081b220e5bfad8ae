use karger::estimator::Krager;
use karger::graph::Graph;

fn three_node_graph() -> Graph {
    // 3 nodes A, B, C; edges A-B (multiplicity 2) and B-C (multiplicity 1)
    let mut g = Graph::new();
    g.add_node("A").unwrap();
    g.add_node("B").unwrap();
    g.add_node("C").unwrap();
    g.add_edge("A", "B").unwrap();
    g.add_edge("A", "B").unwrap();
    g.add_edge("B", "C").unwrap();
    g
}

#[test]
fn krager_new_stores_the_graph() {
    let k = Krager::new(three_node_graph());
    assert_eq!(k.graph.nodes, 3);
    assert_eq!(k.graph.edges, 3);
}

#[test]
fn krager_iteration_partitions_the_original_labels() {
    let mut k = Krager::new(three_node_graph());
    let (u, v) = k.krager_iteration().expect("three nodes");
    let mut parts: Vec<&str> = u.split('_').collect();
    parts.extend(v.split('_'));
    parts.sort();
    assert_eq!(parts, vec!["A", "B", "C"]);
}

#[test]
fn krager_iteration_leaves_the_original_graph_intact() {
    let mut k = Krager::new(three_node_graph());
    k.krager_iteration().expect("three nodes");
    assert_eq!(k.graph.nodes, 3);
    assert_eq!(k.graph.edges, 3);
    assert_eq!(
        k.graph.node_names,
        vec!["A".to_string(), "B".to_string(), "C".to_string()]
    );
}

#[test]
fn krager_iteration_on_two_nodes_returns_them() {
    let mut g = Graph::new();
    g.add_node("A").unwrap();
    g.add_node("B").unwrap();
    g.add_edge("A", "B").unwrap();
    let mut k = Krager::new(g);
    let (u, v) = k.krager_iteration().expect("two nodes");
    assert_eq!(u, "A");
    assert_eq!(v, "B");
}

#[test]
fn krager_iteration_needs_two_nodes() {
    let mut empty = Krager::new(Graph::new());
    assert!(empty.krager_iteration().is_none());

    let mut g = Graph::new();
    g.add_node("A").unwrap();
    let mut single = Krager::new(g);
    assert!(single.krager_iteration().is_none());
}

#[test]
fn krager_iteration_stops_early_on_edge_starvation() {
    // three nodes but a single edge: the loop never runs (it needs more than
    // one edge), so the first two surviving nodes are reported as they stand
    let mut g = Graph::new();
    g.add_node("A").unwrap();
    g.add_node("B").unwrap();
    g.add_node("C").unwrap();
    g.add_edge("A", "B").unwrap();
    let mut k = Krager::new(g);
    let (u, v) = k.krager_iteration().expect("three nodes");
    assert_eq!(u, "A");
    assert_eq!(v, "B");
}

#[test]
fn krager_iteration_survives_a_merged_label_collision() {
    // contracting A and B would create "A_B", which is already a node; the
    // run then either stops there with the nodes as stored, or happens to
    // draw the A-A_B edge and merges those two instead
    let mut g = Graph::new();
    g.add_node("A").unwrap();
    g.add_node("B").unwrap();
    g.add_node("A_B").unwrap();
    g.add_edge("A", "B").unwrap();
    g.add_edge("A", "B").unwrap();
    g.add_edge("A", "A_B").unwrap();
    let mut k = Krager::new(g);
    let (u, v) = k.krager_iteration().expect("three nodes");
    let stopped = u == "A" && v == "B";
    let merged = u == "B" && v == "A_A_B";
    assert!(stopped || merged, "u = {}, v = {}", u, v);
}
