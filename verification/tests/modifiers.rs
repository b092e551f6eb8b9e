use graph::edge_file_writer::{compose_lines, EdgeFileWriter};
use graph::errors::GraphError;
use graph::graph::Graph;
use graph::harness::{from_vec_harness, FromVecHarnessParams};
use graph::records::{EdgeRecord, NodeRecord};
use graph::test_utilities::{random_path, random_string};

fn edge(src: &str, dst: &str) -> EdgeRecord {
    Ok((src.to_string(), dst.to_string(), None, None))
}

fn typed_edge(src: &str, dst: &str, edge_type: &str, weight: f32) -> EdgeRecord {
    Ok((src.to_string(), dst.to_string(), Some(edge_type.to_string()), Some(weight.to_bits())))
}

fn build(edges: Vec<EdgeRecord>, nodes: Option<Vec<NodeRecord>>, directed: bool) -> Graph {
    Graph::from_string_unsorted(
        &edges,
        &nodes,
        directed,
        "example".to_string(),
        false,
        false,
        false,
        false,
        false,
        false,
    )
    .unwrap()
}

fn star() -> Graph {
    build(
        vec![edge("hub", "a"), edge("hub", "b"), edge("hub", "c"), edge("a", "b")],
        None,
        false,
    )
}

#[test]
fn fast_walk_columns_repeat_the_store() {
    let mut g = star();
    assert_eq!(g.enable_fast_walk(true, true, None), Ok(()));
    assert_eq!(g.destinations, Some(g.get_destinations()));
    assert_eq!(g.outbounds, Some(g.get_outbounds()));
    assert!(g.cached_destinations.is_none());
    assert_eq!(g.get_destinations_min_max_edge_ids(1), (3, 5));
    assert_eq!(g.get_destination(3), 0);
    let walk = g.uniform_walk(0, 5, 6);
    g.disable_fast_walk();
    assert!(g.destinations.is_none() && g.outbounds.is_none());
    assert_eq!(g.get_destinations_min_max_edge_ids(1), (3, 5));
    assert_eq!(g.uniform_walk(0, 5, 6), walk);
    assert_eq!(g.enable_fast_walk(false, false, Some(2)), Ok(()));
    let cache = g.cached_destinations.clone().unwrap();
    assert_eq!(cache.len(), 2);
    assert_eq!(cache[&0], vec![1, 2, 3]);
    assert_eq!(g.uniform_walk(0, 5, 6), walk);
    assert_eq!(g.enable_fast_walk(true, false, Some(2)), Err(GraphError::InvalidParameter));
    assert_eq!(g.enable_fast_walk(false, false, Some(0)), Err(GraphError::InvalidParameter));
    assert_eq!(g.enable_fast_walk(false, false, Some(4)), Err(GraphError::InvalidParameter));
    assert!(g.cached_destinations.is_some());
}

#[test]
fn all_edges_and_all_nodes_get_one_type() {
    let g = star().set_all_edge_types("same".to_string()).unwrap();
    assert_eq!(g.get_edge_types(), Some(vec![0; 8]));
    assert_eq!(g.get_edge_type_string(5), Some("same".to_string()));
    assert_eq!(g.get_edge_type_number(0), 8);
    let g = g.set_all_node_types("thing".to_string()).unwrap();
    assert_eq!(g.get_node_types(), Some(vec![0; 4]));
    assert_eq!(g.get_node_type_string(3), Some("thing".to_string()));
    assert!(matches!(star().set_all_edge_types(String::new()), Err(GraphError::EmptyName)));
    assert!(matches!(star().set_all_node_types(String::new()), Err(GraphError::EmptyName)));
}

#[test]
fn writer_has_its_defaults_and_takes_settings() {
    let w = EdgeFileWriter::new("edges.tsv".to_string());
    assert_eq!(w.writer.path, "edges.tsv");
    assert!(w.writer.verbose && w.writer.header);
    assert_eq!(w.writer.separator, "\t");
    assert_eq!((w.sources_column.as_str(), w.sources_column_number), ("subject", 0));
    assert_eq!((w.destinations_column.as_str(), w.destinations_column_number), ("object", 1));
    assert_eq!((w.edge_types_column.as_str(), w.edge_types_column_number), ("label", 2));
    assert_eq!((w.weights_column.as_str(), w.weights_column_number), ("weight", 3));
    assert!(!w.numeric_node_ids);
    assert_eq!(w.directed, None);
    let w = w
        .set_sources_column(Some("from".to_string()))
        .set_sources_column_number(Some(4))
        .set_destinations_column(Some("to".to_string()))
        .set_destinations_column_number(Some(5))
        .set_edge_types_column(Some("kind".to_string()))
        .set_edge_types_column_number(Some(6))
        .set_weights_column(Some("w".to_string()))
        .set_weights_column_number(Some(7))
        .set_verbose(Some(false))
        .set_numeric_node_ids(Some(true))
        .set_separator(Some(",".to_string()))
        .set_header(Some(false))
        .set_directed(Some(true));
    assert_eq!((w.sources_column.as_str(), w.sources_column_number), ("from", 4));
    assert_eq!((w.destinations_column.as_str(), w.destinations_column_number), ("to", 5));
    assert_eq!((w.edge_types_column.as_str(), w.edge_types_column_number), ("kind", 6));
    assert_eq!((w.weights_column.as_str(), w.weights_column_number), ("w", 7));
    assert!(!w.writer.verbose && !w.writer.header && w.numeric_node_ids);
    assert_eq!(w.writer.separator, ",");
    assert_eq!(w.directed, Some(true));
    let w = w
        .set_sources_column(None)
        .set_sources_column_number(None)
        .set_destinations_column(None)
        .set_destinations_column_number(None)
        .set_edge_types_column(None)
        .set_edge_types_column_number(None)
        .set_weights_column(None)
        .set_weights_column_number(None)
        .set_verbose(None)
        .set_numeric_node_ids(None)
        .set_separator(None)
        .set_header(None)
        .set_directed(None);
    assert_eq!((w.sources_column.as_str(), w.sources_column_number), ("from", 4));
    assert_eq!((w.weights_column.as_str(), w.weights_column_number), ("w", 7));
    assert!(!w.writer.verbose && !w.writer.header && w.numeric_node_ids);
    assert_eq!(w.directed, None);
}

#[test]
fn lines_hold_every_value_at_its_place() {
    let line = compose_lines(
        4,
        vec![("a".to_string(), 2), ("b".to_string(), 0), ("c".to_string(), 2)],
    );
    assert_eq!(line, vec!["b", "", "c", ""]);
}

fn read_back(lines: &[Vec<String>], typed: bool, weighted: bool) -> Vec<EdgeRecord> {
    lines
        .iter()
        .skip(1)
        .map(|line| {
            Ok((
                line[0].clone(),
                line[1].clone(),
                if typed { Some(line[2].clone()) } else { None },
                if weighted { Some(line[3].parse::<f32>().unwrap().to_bits()) } else { None },
            ))
        })
        .collect()
}

#[test]
fn edge_list_reads_back_as_the_same_graph() {
    let g = build(
        vec![
            typed_edge("b", "a", "x", 1.0),
            typed_edge("a", "b", "y", 2.0),
            typed_edge("c", "c", "x", 0.5),
            typed_edge("c", "a", "y", 3.0),
        ],
        None,
        false,
    );
    let texts: Vec<String> =
        g.get_weights().unwrap().iter().map(|w| f32::from_bits(*w).to_string()).collect();
    let lines = EdgeFileWriter::new("unused".to_string()).dump(&g, &texts).unwrap();
    assert_eq!(lines[0], vec!["subject", "object", "label", "weight"]);
    assert_eq!(lines.len(), 1 + 4);
    assert_eq!(lines[1], vec!["b", "a", "x", "1"]);
    let nodes: Vec<NodeRecord> =
        g.get_nodes_reverse_mapping().into_iter().map(|name| Ok((name, None))).collect();
    let again = build(read_back(&lines, true, true), Some(nodes), false);
    assert_eq!(again.edges, g.edges);
    assert_eq!(again.get_weights(), g.get_weights());
    assert_eq!(again.get_sources(), g.get_sources());
    assert_eq!(again.get_destinations(), g.get_destinations());
    for e in 0..g.get_edges_number() {
        assert_eq!(again.get_edge_type_string(e), g.get_edge_type_string(e));
    }
    let directed = EdgeFileWriter::new("unused".to_string())
        .set_directed(Some(true))
        .set_header(Some(false))
        .set_numeric_node_ids(Some(true))
        .dump(&g, &texts)
        .unwrap();
    assert_eq!(directed.len(), g.get_edges_number() as usize);
    assert_eq!(directed[0], vec!["0", "1", "x", "1"]);
    assert!(matches!(
        EdgeFileWriter::new("unused".to_string()).dump(&g, &Vec::new()),
        Err(GraphError::InvalidParameter)
    ));
    assert!(matches!(
        EdgeFileWriter::new("unused".to_string())
            .set_weights_column_number(Some(usize::MAX))
            .dump(&g, &texts),
        Err(GraphError::InvalidParameter)
    ));
}

#[test]
fn edge_list_reads_back_under_new_numbers() {
    let g = build(
        vec![
            typed_edge("d", "c", "x", 1.0),
            typed_edge("c", "d", "y", 2.0),
            typed_edge("a", "d", "y", 4.0),
            typed_edge("b", "b", "x", 0.5),
        ],
        Some(vec![
            Ok(("a".to_string(), None)),
            Ok(("b".to_string(), None)),
            Ok(("c".to_string(), None)),
            Ok(("d".to_string(), None)),
        ]),
        false,
    );
    assert_eq!(g.get_edges_number(), 7);
    let texts: Vec<String> =
        g.get_weights().unwrap().iter().map(|w| f32::from_bits(*w).to_string()).collect();
    let lines = EdgeFileWriter::new("unused".to_string()).dump(&g, &texts).unwrap();
    assert_eq!(lines.len(), 1 + 4);
    // Without a list of nodes the names are numbered as they come.
    let again = build(read_back(&lines, true, true), None, false);
    assert_ne!(again.get_nodes_reverse_mapping(), g.get_nodes_reverse_mapping());
    assert_eq!(again.get_edges_number(), g.get_edges_number());
    let named = |h: &Graph| {
        let names = h.get_nodes_reverse_mapping();
        let mut all: Vec<(String, String, Option<String>, u32)> = (0..h.get_edges_number())
            .map(|e| {
                let (src, dst) = h.get_edge_from_edge_id(e);
                (
                    names[src as usize].clone(),
                    names[dst as usize].clone(),
                    h.get_edge_type_string(e),
                    h.get_weights().unwrap()[e as usize],
                )
            })
            .collect();
        all.sort();
        all
    };
    assert_eq!(named(&again), named(&g));
}

#[test]
fn harness_builds_what_it_is_given() {
    let data = FromVecHarnessParams {
        edges: vec![edge("a", "b"), edge("b", "c")],
        nodes: None,
        directed: false,
        ignore_duplicated_nodes: false,
        ignore_duplicated_edges: false,
        numeric_edge_types_ids: false,
        numeric_node_ids: false,
        numeric_node_types_ids: false,
    };
    assert_eq!(from_vec_harness(data), Ok(()));
    let data = FromVecHarnessParams {
        edges: vec![edge("a", "b"), edge("a", "b")],
        nodes: None,
        directed: true,
        ignore_duplicated_nodes: false,
        ignore_duplicated_edges: false,
        numeric_edge_types_ids: false,
        numeric_node_ids: false,
        numeric_node_types_ids: false,
    };
    assert_eq!(from_vec_harness(data), Err(GraphError::DuplicatedEdge));
}

#[test]
fn random_names_are_made_of_the_charset() {
    let name = random_string(64);
    assert_eq!(name.chars().count(), 64);
    let charset = "ABCDEFGHIJKLMNOPQRSTUVWXYZabcdefghijklmnopqrstuvwxyz0123456789()*&^%$#@!~";
    assert!(name.chars().all(|c| charset.contains(c)));
    let path = random_path();
    assert!(path.starts_with("/tmp/"));
    assert_eq!(path.chars().count(), 5 + 64);
    assert_ne!(random_path(), path);
}

#[test]
fn graphs_are_built_from_columns() {
    let names = |list: &[&str]| list.iter().map(|s| s.to_string()).collect::<Vec<String>>();
    let g = Graph::new_undirected(
        names(&["a", "b", "c"]),
        names(&["a", "b"]),
        names(&["b", "c"]),
        Some(names(&["x", "y", "x"])),
        Some(names(&["r", "s"])),
        Some(vec![1.0f32.to_bits(), 2.0f32.to_bits()]),
        None,
    )
    .unwrap();
    assert_eq!(g.get_edges_number(), 4);
    assert!(!g.is_directed());
    assert_eq!(g.get_node_types(), Some(vec![0, 1, 0]));
    let d = Graph::new_directed(
        names(&["a", "b", "c"]),
        names(&["a", "b"]),
        names(&["b", "c"]),
        None,
        None,
        None,
        Some(true),
    )
    .unwrap();
    assert_eq!(d.get_edges_number(), 2);
    assert!(d.is_directed());
    let short = Graph::new_directed(
        names(&["a", "b"]),
        names(&["a", "b"]),
        names(&["b"]),
        None,
        None,
        None,
        None,
    );
    assert!(matches!(short, Err(GraphError::InconsistentRecords)));
    let twice = Graph::new_directed(
        names(&["a", "b"]),
        names(&["a", "a"]),
        names(&["b", "b"]),
        None,
        None,
        None,
        None,
    );
    assert!(matches!(twice, Err(GraphError::DuplicatedEdge)));
    let lenient = Graph::new_directed(
        names(&["a", "b"]),
        names(&["a", "a"]),
        names(&["b", "b"]),
        None,
        None,
        None,
        Some(false),
    )
    .unwrap();
    assert_eq!(lenient.get_edges_number(), 1);
}
