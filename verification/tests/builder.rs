use graph::errors::GraphError;
use graph::graph::Graph;
use graph::records::{EdgeRecord, NodeRecord};

fn edge(src: &str, dst: &str) -> EdgeRecord {
    Ok((src.to_string(), dst.to_string(), None, None))
}

fn labelled(src: &str, dst: &str, edge_type: &str, weight: f32) -> EdgeRecord {
    Ok((src.to_string(), dst.to_string(), Some(edge_type.to_string()), Some(weight.to_bits())))
}

fn nodes(names: &[&str]) -> Option<Vec<NodeRecord>> {
    Some(names.iter().map(|name| Ok((name.to_string(), None))).collect())
}

fn build(edges: Vec<EdgeRecord>, nodes: Option<Vec<NodeRecord>>, directed: bool) -> Result<Graph, GraphError> {
    Graph::from_string_unsorted(
        &edges,
        &nodes,
        directed,
        "test".to_string(),
        false,
        false,
        false,
        false,
        false,
        false,
    )
}

#[test]
fn path_of_four_nodes_has_six_edges() {
    let g = build(
        vec![edge("A", "B"), edge("B", "C"), edge("C", "D")],
        nodes(&["A", "B", "C", "D"]),
        false,
    )
    .unwrap();
    assert_eq!(g.get_nodes_number(), 4);
    assert_eq!(g.get_edges_number(), 6);
    assert_eq!(g.get_outbounds(), vec![1, 3, 5, 6]);
    assert_eq!(g.get_node_degrees(), vec![1, 2, 2, 1]);
    assert!(!g.is_multigraph());
    let (components, number, smallest, largest) = g.connected_components().unwrap();
    assert_eq!(number, 1);
    assert_eq!(components, vec![0, 0, 0, 0]);
    assert_eq!(smallest, 4);
    assert_eq!(largest, 4);
}

#[test]
fn parallel_edges_of_two_types_make_a_multigraph() {
    let g = build(
        vec![labelled("A", "B", "x", 1.0), labelled("A", "B", "y", 2.0)],
        nodes(&["A", "B"]),
        false,
    )
    .unwrap();
    assert_eq!(g.get_edges_number(), 4);
    assert!(g.is_multigraph());
    assert_eq!(g.get_unique_edges_number(), 2);
    assert_eq!(g.weights, Some(vec![1.0f32.to_bits(), 2.0f32.to_bits(), 1.0f32.to_bits(), 2.0f32.to_bits()]));
}

#[test]
fn self_loop_is_stored_once() {
    let g = build(vec![edge("A", "A"), edge("A", "B")], nodes(&["A", "B"]), false).unwrap();
    assert_eq!(g.get_self_loop_number(), 1);
    assert_eq!(g.get_unique_self_loop_number(), 1);
    assert_eq!(g.get_edges_number(), 3);
    assert_eq!(g.edges, vec![0, 1, 2]);
}

#[test]
fn duplicated_edge_is_refused_unless_ignored() {
    let edges = vec![edge("A", "B"), edge("A", "B")];
    assert!(matches!(build(edges.clone(), None, true), Err(GraphError::DuplicatedEdge)));
    let g = Graph::from_string_unsorted(
        &edges,
        &None,
        true,
        "test".to_string(),
        false,
        true,
        false,
        false,
        false,
        false,
    )
    .unwrap();
    assert_eq!(g.get_edges_number(), 1);
}

#[test]
fn unknown_node_is_refused() {
    let r = build(vec![edge("A", "Z")], nodes(&["A", "B"]), false);
    assert!(matches!(r, Err(GraphError::UnknownNode)));
}

#[test]
fn failed_record_is_refused() {
    let r = build(vec![edge("A", "B"), Err("bad line".to_string())], None, false);
    assert!(matches!(r, Err(GraphError::ParseFailure)));
}

#[test]
fn weight_has_to_be_positive_and_finite() {
    for weight in [0.0f32, -1.0, f32::INFINITY, f32::NAN] {
        let r = build(vec![labelled("A", "B", "x", weight)], None, false);
        assert!(matches!(r, Err(GraphError::InvalidWeight)));
    }
}

#[test]
fn no_edge_makes_no_graph() {
    let r = build(vec![], nodes(&["A"]), false);
    assert!(matches!(r, Err(GraphError::EmptyGraph)));
}

#[test]
fn numeric_names_are_their_own_identifiers() {
    let edges = vec![edge("2", "0"), edge("1", "2")];
    let g = Graph::from_string_unsorted(
        &edges,
        &None,
        true,
        "test".to_string(),
        false,
        false,
        false,
        false,
        true,
        false,
    )
    .unwrap();
    assert_eq!(g.get_nodes_number(), 3);
    assert_eq!(g.get_edge_from_edge_id(0), (1, 2));
    assert_eq!(g.get_edge_from_edge_id(1), (2, 0));
    let sparse = vec![edge("5", "0")];
    let r = Graph::from_string_unsorted(
        &sparse,
        &None,
        true,
        "test".to_string(),
        false,
        false,
        false,
        false,
        true,
        false,
    );
    assert!(matches!(r, Err(GraphError::NotDense)));
    let words = vec![edge("a", "0")];
    let r = Graph::from_string_unsorted(
        &words,
        &None,
        true,
        "test".to_string(),
        false,
        false,
        false,
        false,
        true,
        false,
    );
    assert!(matches!(r, Err(GraphError::NotNumeric)));
}
