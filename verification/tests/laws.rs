use graph::graph::Graph;
use graph::records::EdgeRecord;

fn typed_edge(src: &str, dst: &str, edge_type: &str, weight: f32) -> EdgeRecord {
    Ok((src.to_string(), dst.to_string(), Some(edge_type.to_string()), Some(weight.to_bits())))
}

fn example(directed: bool) -> Graph {
    let edges = vec![
        typed_edge("d", "a", "x", 1.0),
        typed_edge("a", "b", "x", 2.0),
        typed_edge("a", "b", "y", 3.0),
        typed_edge("b", "b", "x", 4.0),
        typed_edge("e", "f", "y", 5.0),
        typed_edge("g", "g", "y", 6.0),
        typed_edge("c", "a", "x", 7.0),
    ];
    Graph::from_string_unsorted(
        &edges,
        &None,
        directed,
        "example".to_string(),
        false,
        false,
        false,
        false,
        false,
        false,
    )
    .unwrap()
}

#[test]
fn ranges_cover_the_edges() {
    for directed in [false, true] {
        let g = example(directed);
        let outbounds = g.get_outbounds();
        let mut before = 0;
        let mut sum = 0;
        for upper in outbounds.iter() {
            assert!(*upper >= before);
            sum += upper - before;
            before = *upper;
        }
        assert_eq!(sum, g.get_edges_number());
        assert_eq!(*outbounds.last().unwrap(), g.get_edges_number());
        assert_eq!(g.get_node_degrees().iter().sum::<u64>(), g.get_edges_number());
    }
}

#[test]
fn edges_lie_in_the_range_of_their_source() {
    for directed in [false, true] {
        let g = example(directed);
        let keys = g.edges.clone();
        assert!(keys.windows(2).all(|pair| pair[0] <= pair[1]));
        for e in 0..g.get_edges_number() {
            let (src, _) = g.get_edge_from_edge_id(e);
            let (low, high) = g.get_destinations_min_max_edge_ids(src);
            assert!(low <= e && e < high);
        }
    }
}

#[test]
fn undirected_edges_have_their_mirrors() {
    let g = example(false);
    assert_eq!(g.get_edges_number(), 12);
    for e in 0..g.get_edges_number() {
        let (src, dst) = g.get_edge_from_edge_id(e);
        let mirrored = (0..g.get_edges_number()).any(|m| {
            g.get_edge_from_edge_id(m) == (dst, src)
                && g.get_edge_weight(m) == g.get_edge_weight(e)
                && g.get_unchecked_edge_type(m) == g.get_unchecked_edge_type(e)
        });
        assert!(mirrored);
    }
}

#[test]
fn distinct_and_repeated_edges_add_up() {
    for directed in [false, true] {
        let g = example(directed);
        let keys = g.edges.clone();
        let repeated = keys.windows(2).filter(|pair| pair[0] == pair[1]).count() as u64;
        assert_eq!(g.get_unique_edges_number() + repeated, g.get_edges_number());
        assert_eq!(g.is_multigraph(), repeated > 0);
        assert!(g.is_multigraph());
    }
}

#[test]
fn forest_spans_the_components() {
    let g = example(false);
    let all: Vec<(u32, u32)> =
        (0..g.get_edges_number()).map(|e| g.get_edge_from_edge_id(e)).collect();
    let (tree, components, number, smallest, largest) = g.kruskal(&all);
    assert_eq!(number, 3);
    assert_eq!(tree.len() as u32 + number, g.get_nodes_number());
    assert_eq!((smallest, largest), (1, 4));
    for (src, dst) in tree.iter() {
        assert!(g.has_edge(*src, *dst));
        assert_ne!(src, dst);
    }
    for (src, dst) in all.iter() {
        assert_eq!(components[*src as usize], components[*dst as usize]);
    }
    let (again, _, _, _, _) = g.kruskal(&tree);
    assert_eq!(again, tree);
    let (found, found_number, _, _) = g.connected_components().unwrap();
    assert_eq!(found_number, number);
    for u in 0..components.len() {
        for v in 0..components.len() {
            assert_eq!(components[u] == components[v], found[u] == found[v]);
        }
    }
    let (count, arborescence) = g.spanning_arborescence().unwrap();
    assert_eq!(count as u32, g.get_nodes_number() - number);
    assert_eq!(arborescence.len(), count);
    let (unique_forest, _, unique_number, _, _) = g.spanning_arborescence_kruskal();
    assert_eq!(unique_number, number);
    assert_eq!(unique_forest.len(), tree.len());
}

#[test]
fn unwanted_edge_types_come_last() {
    let g = example(false);
    let unwanted: std::collections::HashSet<u16> = [0u16].into_iter().collect();
    let order = g.get_preferred_edges(11, &Some(unwanted.clone()));
    let kinds: Vec<bool> = order
        .iter()
        .map(|(src, dst)| {
            (0..g.get_edges_number()).any(|e| {
                g.get_edge_from_edge_id(e) == (*src, *dst)
                    && unwanted.contains(&g.get_unchecked_edge_type(e).unwrap())
            }) && !(0..g.get_edges_number()).any(|e| {
                g.get_edge_from_edge_id(e) == (*src, *dst)
                    && !unwanted.contains(&g.get_unchecked_edge_type(e).unwrap())
            })
        })
        .collect();
    assert_eq!(order.len(), 5);
    assert!(!kinds[0]);
    let (tree, _, number, _, _) =
        g.random_spanning_arborescence_kruskal(11, &Some(unwanted)).unwrap();
    assert_eq!(number, 3);
    assert_eq!(tree.len(), 4);
    let plain = example(false).set_all_edge_types("t".to_string()).unwrap();
    assert!(plain.random_spanning_arborescence_kruskal(1, &None).is_ok());
}
