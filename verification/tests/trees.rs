use graph::graph::Graph;
use graph::records::EdgeRecord;
use graph::trees::spanning_forest;

fn edge(src: &str, dst: &str) -> EdgeRecord {
    Ok((src.to_string(), dst.to_string(), None, None))
}

fn undirected(edges: Vec<EdgeRecord>) -> Graph {
    Graph::from_string_unsorted(
        &edges,
        &None,
        false,
        "test".to_string(),
        false,
        false,
        false,
        false,
        false,
        false,
    )
    .unwrap()
}

#[test]
fn kruskal_path_of_five_nodes() {
    let edges: Vec<(u32, u32)> = vec![(2, 3), (0, 1), (3, 4), (1, 2)];
    let (tree, components, number, smallest, largest) = spanning_forest(5, &edges);
    assert_eq!(tree, vec![(2, 3), (0, 1), (3, 4), (1, 2)]);
    assert_eq!(number, 1);
    assert_eq!(smallest, 5);
    assert_eq!(largest, 5);
    assert_eq!(components, vec![0, 0, 0, 0, 0]);
}

#[test]
fn kruskal_leaves_out_cycles_and_loops() {
    let edges: Vec<(u32, u32)> = vec![(0, 1), (1, 1), (1, 2), (2, 0), (4, 5)];
    let (tree, components, number, smallest, largest) = spanning_forest(7, &edges);
    assert_eq!(tree, vec![(0, 1), (1, 2), (4, 5)]);
    assert_eq!(components, vec![0, 0, 0, 2, 1, 1, 3]);
    assert_eq!(number, 4);
    assert_eq!(smallest, 1);
    assert_eq!(largest, 3);
}

#[test]
fn random_kruskal_on_a_path_of_five_nodes() {
    let g = undirected(vec![edge("a", "b"), edge("b", "c"), edge("c", "d"), edge("d", "e")]);
    let (tree, _, number, smallest, largest) =
        g.random_spanning_arborescence_kruskal(7, &None).unwrap();
    assert_eq!(tree.len(), 4);
    assert_eq!(number, 1);
    assert_eq!(smallest, 5);
    assert_eq!(largest, 5);
}

#[test]
fn search_and_kruskal_count_the_same_components() {
    let g = undirected(vec![
        edge("a", "b"),
        edge("c", "d"),
        edge("d", "e"),
        edge("e", "c"),
        edge("f", "f"),
    ]);
    let (components, number, smallest, largest) = g.connected_components().unwrap();
    assert_eq!(components, vec![0, 0, 1, 1, 1, 2]);
    assert_eq!(number, 3);
    assert_eq!(smallest, 1);
    assert_eq!(largest, 3);
    let (count, tree) = g.spanning_arborescence().unwrap();
    assert_eq!(count, 3);
    assert_eq!(tree.len(), 3);
    for (node, parent) in tree {
        assert!(g.has_edge(parent, node));
    }
    let (forest, _, kruskal_number, _, _) = g.spanning_arborescence_kruskal();
    assert_eq!(kruskal_number, number);
    assert_eq!(forest.len(), 3);
}

#[test]
fn search_refuses_directed_graphs() {
    let edges = vec![edge("a", "b")];
    let g = Graph::from_string_unsorted(
        &edges,
        &None,
        true,
        "test".to_string(),
        false,
        false,
        false,
        false,
        false,
        false,
    )
    .unwrap();
    assert!(g.connected_components().is_err());
    assert!(g.spanning_arborescence().is_err());
}

#[test]
fn stacks_for_the_workers_of_a_search() {
    assert_eq!(graph::trees::stacks_for(8, 10), 1);
    assert_eq!(graph::trees::stacks_for(8, 1_249_999), 1);
    assert_eq!(graph::trees::stacks_for(8, 1_250_000), 2);
    assert_eq!(graph::trees::stacks_for(2, 2_000_000), 1);
    assert_eq!(graph::trees::stacks_for(3, 2_000_000), 2);
    assert_eq!(graph::trees::stacks_for(1, 2_000_000), 1);
    assert_eq!(graph::trees::stacks_for(0, 5), 1);
}
