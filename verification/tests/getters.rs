use graph::errors::GraphError;
use graph::graph::Graph;
use graph::metrics::{DensityClass, Ratio};
use graph::records::{EdgeRecord, NodeRecord};

fn edge(src: &str, dst: &str) -> EdgeRecord {
    Ok((src.to_string(), dst.to_string(), None, None))
}

fn typed_edge(src: &str, dst: &str, edge_type: &str, weight: f32) -> EdgeRecord {
    Ok((src.to_string(), dst.to_string(), Some(edge_type.to_string()), Some(weight.to_bits())))
}

fn typed_nodes(nodes: &[(&str, &str)]) -> Option<Vec<NodeRecord>> {
    Some(nodes.iter().map(|(name, kind)| Ok((name.to_string(), Some(kind.to_string())))).collect())
}

fn build(
    edges: Vec<EdgeRecord>,
    nodes: Option<Vec<NodeRecord>>,
    directed: bool,
) -> Graph {
    Graph::from_string_unsorted(
        &edges,
        &nodes,
        directed,
        "example".to_string(),
        false,
        false,
        false,
        false,
        false,
        false,
    )
    .unwrap()
}

fn path() -> Graph {
    build(vec![edge("A", "B"), edge("B", "C"), edge("C", "D")], None, false)
}

fn labelled() -> Graph {
    build(
        vec![
            typed_edge("a", "b", "likes", 1.0),
            typed_edge("b", "c", "knows", 2.5),
            typed_edge("c", "c", "likes", 4.0),
        ],
        typed_nodes(&[("a", "person"), ("b", "person"), ("c", "robot"), ("d", "robot")]),
        true,
    )
}

#[test]
fn path_graph_tells_of_its_edges() {
    let g = path();
    assert_eq!(g.get_name(), "example");
    assert!(!g.is_directed());
    assert!(!g.has_weights());
    assert!(!g.has_edge_types());
    assert!(!g.has_node_types());
    assert!(!g.has_selfloops());
    assert!(!g.has_singletons());
    assert!(!g.has_traps());
    assert_eq!(g.get_traps_number(), 0);
    assert_eq!(g.get_sources(), vec![0, 1, 1, 2, 2, 3]);
    assert_eq!(g.get_destinations(), vec![1, 0, 2, 1, 3, 2]);
    assert_eq!(g.get_source_names()[0], "A");
    assert_eq!(g.get_destination_names()[5], "C");
    assert_eq!(g.get_nodes_reverse_mapping(), vec!["A", "B", "C", "D"]);
    assert_eq!(g.get_nodes_mapping()[2], ("C".to_string(), 2));
    assert_eq!(g.get_node_name(3), Ok("D".to_string()));
    assert_eq!(g.get_node_name(4), Err(GraphError::OutOfRange));
    assert_eq!(g.get_node_id("B"), Ok(1));
    assert_eq!(g.get_node_id("Z"), Err(GraphError::NameNotFound));
    assert_eq!(g.get_unchecked_node_id("D"), 3);
    assert_eq!(g.get_unique_sources_number(), 4);
    assert_eq!(g.get_source_nodes_number(), 4);
    assert_eq!(g.get_not_singleton_nodes_number(), 4);
    assert_eq!(g.get_singleton_nodes_number(), 0);
    assert_eq!(g.get_not_singletons(), vec![0, 1, 2, 3]);
    assert_eq!(g.get_destinations_range(1, 3), vec![0, 2]);
    assert_eq!(g.get_source_destinations_range(2), vec![1, 3]);
    assert_eq!(g.get_destinations_min_max_edge_ids(2), (3, 5));
    assert_eq!(g.get_unchecked_edge_id_from_tuple(2, 0), 3);
    assert_eq!(g.get_max_encodable_edge_number(), 4 * 4 + 4);
    assert_eq!(g.get_top_k_central_nodes(2), vec![2, 1]);
    assert_eq!(g.get_top_k_central_nodes(9), vec![2, 1, 3, 0]);
    assert_eq!(g.get_edge_types(), None);
    assert_eq!(g.get_weights(), None);
    assert_eq!(g.get_node_type(0), Err(GraphError::MissingNodeTypes));
    assert_eq!(g.get_edge_type(0), Err(GraphError::MissingEdgeTypes));
    assert_eq!(g.get_edge_types_number(), 0);
    assert_eq!(g.get_node_types_number(), 0);
    assert_eq!(g.get_edge_type_number(0), 0);
    assert_eq!(g.get_node_type_number(0), 0);
    let mapping = g.get_dense_node_mapping();
    assert_eq!(mapping.len(), 4);
    assert_eq!(mapping[&2], 2);
}

#[test]
fn labelled_graph_tells_of_its_labels() {
    let g = labelled();
    assert!(g.is_directed());
    assert!(g.has_weights());
    assert!(g.has_edge_types());
    assert!(g.has_node_types());
    assert!(g.has_selfloops());
    assert!(g.has_singletons());
    assert_eq!(g.get_singleton_nodes_number(), 1);
    assert!(!g.has_traps());
    assert_eq!(g.get_traps_number(), 0);
    let arrow = build(vec![edge("a", "b")], None, true);
    assert!(arrow.has_traps());
    assert_eq!(arrow.get_traps_number(), 1);
    assert_eq!(g.get_edges_number(), 3);
    assert_eq!(g.get_edge_types(), Some(vec![0, 1, 0]));
    assert_eq!(g.get_node_types(), Some(vec![0, 0, 1, 1]));
    assert_eq!(g.get_weights(), Some(vec![1.0f32.to_bits(), 2.5f32.to_bits(), 4.0f32.to_bits()]));
    assert_eq!(g.get_edge_weight(1), Some(2.5f32.to_bits()));
    assert_eq!(g.get_edge_types_reverse_mapping(), Some(vec!["likes".to_string(), "knows".to_string()]));
    assert_eq!(g.get_node_types_reverse_mapping(), Some(vec!["person".to_string(), "robot".to_string()]));
    assert_eq!(g.get_unchecked_edge_type(1), Some(1));
    assert_eq!(g.get_unchecked_node_type(2), Some(1));
    assert_eq!(g.get_node_type(3), Ok(1));
    assert_eq!(g.get_node_type(4), Err(GraphError::OutOfRange));
    assert_eq!(g.get_edge_type(2), Ok(0));
    assert_eq!(g.get_edge_type(3), Err(GraphError::OutOfRange));
    assert_eq!(g.get_node_type_string(0), Some("person".to_string()));
    assert_eq!(g.get_edge_type_string(1), Some("knows".to_string()));
    assert_eq!(g.get_edge_types_number(), 2);
    assert_eq!(g.get_node_types_number(), 2);
    assert_eq!(g.get_edge_type_number(0), 2);
    assert_eq!(g.get_edge_type_number(7), 0);
    assert_eq!(g.get_node_type_number(1), 2);
    assert_eq!(g.get_not_singletons(), vec![0, 1, 2]);
    assert!(!g.is_node_trap(2));
    assert!(g.is_node_trap(3));
}

#[test]
fn measures_of_the_path_graph() {
    let g = path();
    assert_eq!(g.density(), Ratio { numerator: 6, denominator: 12 });
    assert_eq!(g.density().numerator as f64 / g.density().denominator as f64, 0.5);
    assert_eq!(g.density_class(), DensityClass::ExtremelyDense);
    assert_eq!(g.degrees_mean(), Ratio { numerator: 6, denominator: 4 });
    assert_eq!(g.get_self_loop_rate(), Ratio { numerator: 0, denominator: 6 });
    assert_eq!(g.get_undirected_edges_number(), 3);
    assert_eq!(g.degrees_max(), Ok(2));
    assert_eq!(g.degrees_min(), Ok(1));
    assert_eq!(g.degrees_median(), Ok(2));
    assert_eq!(g.degrees_mode(), Ok(1));
    assert_eq!(g.degrees_product(1, 2), Ok(4));
    assert_eq!(g.degrees_product(1, 4), Err(GraphError::OutOfRange));
    assert_eq!(g.get_common_neighbours(0, 2), Ok(vec![1]));
    assert_eq!(g.jaccard_index(0, 2), Ok(Ratio { numerator: 1, denominator: 3 }));
    assert_eq!(g.jaccard_index(0, 9), Err(GraphError::OutOfRange));
    assert_eq!(g.adamic_adar_index(0, 2), Ok(vec![2]));
    assert_eq!(g.resource_allocation_index(1, 3), Ok(vec![2]));
    assert_eq!(g.traps_rate(), vec![Ratio { numerator: 0, denominator: 1 }, Ratio { numerator: 0, denominator: 2 }, Ratio { numerator: 0, denominator: 2 }, Ratio { numerator: 0, denominator: 1 }]);
    assert_eq!(g.connected_components_number(), (1, 4));
    let report = g.report();
    assert_eq!(report.nodes_number, 4);
    assert_eq!(report.edges_number, 6);
    assert_eq!(report.undirected_edges_number, 3);
    assert!(!report.multigraph);
    assert_eq!(report.singletons, 0);
}

#[test]
fn traps_and_classes_of_a_directed_graph() {
    let g = labelled();
    assert_eq!(g.traps_rate()[3], Ratio { numerator: 1, denominator: 1 });
    assert_eq!(g.traps_rate()[0], Ratio { numerator: 0, denominator: 1 });
    assert_eq!(g.jaccard_index(0, 3), Ok(Ratio { numerator: 0, denominator: 1 }));
    assert_eq!(g.connected_components_number(), (2, 3));
    assert_eq!(g.get_undirected_edges_number(), 2);
    let sparse = build(
        (0..30).map(|i| edge(&format!("n{}", i), &format!("n{}", i + 1))).collect(),
        None,
        true,
    );
    assert_eq!(sparse.density_class(), DensityClass::Dense);
}
