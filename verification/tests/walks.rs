use graph::errors::GraphError;
use graph::graph::Graph;
use graph::records::EdgeRecord;
use graph::walks::{
    update_explore_weight_transition, update_return_explore_weight_transition,
    update_return_weight_transition, Bias,
};
use graph::walks_parameters::{WalkWeights, WalksParameters};

type WeightT = f32;

fn edge(src: &str, dst: &str) -> EdgeRecord {
    Ok((src.to_string(), dst.to_string(), None, None))
}

fn path_graph(directed: bool) -> Graph {
    let edges = vec![edge("A", "B"), edge("B", "C"), edge("C", "D")];
    Graph::from_string_unsorted(
        &edges,
        &None,
        directed,
        "path".to_string(),
        false,
        false,
        false,
        false,
        false,
        false,
    )
    .unwrap()
}

#[test]
fn test_update_explore_weight_transition() {
    let destinations = vec![
        1, 2, 3, 4, 4, 4, 5, 6, 100, 101, 101, 101, 101, 101, 101, 101, 101, 101, 101, 101, 101,
        101, 101, 101,
    ];
    let previous_destinations = vec![2, 4, 4, 4];
    let mut transitions = (0..destinations.len()).map(|_| 1.0).collect::<Vec<WeightT>>();
    let marks = update_explore_weight_transition(&destinations, &previous_destinations, 6, 100);
    for (transition, marked) in transitions.iter_mut().zip(marks.iter()) {
        if *marked {
            *transition *= 2.0;
        }
    }
    assert_eq!(
        transitions,
        vec![
            2.0, 1.0, 2.0, 1.0, 1.0, 1.0, 2.0, 1.0, 1.0, 2.0, 2.0, 2.0, 2.0, 2.0, 2.0, 2.0, 2.0,
            2.0, 2.0, 2.0, 2.0, 2.0, 2.0, 2.0
        ]
    )
}

#[test]
fn test_update_return_explore_weight_transition() {
    let destinations = vec![1, 2, 3, 4, 4, 4, 5, 6, 100];
    let previous_destinations = vec![2, 4, 4, 4];
    let mut transitions = (0..destinations.len()).map(|_| 1.0).collect::<Vec<WeightT>>();
    let biases =
        update_return_explore_weight_transition(&destinations, &previous_destinations, 6, 100);
    for (transition, bias) in transitions.iter_mut().zip(biases.iter()) {
        match bias {
            Bias::Return => *transition *= 3.0,
            Bias::Explore => *transition *= 2.0,
            Bias::Unchanged => {}
        }
    }
    assert_eq!(transitions, vec![2.0, 1.0, 2.0, 1.0, 1.0, 1.0, 2.0, 3.0, 3.0])
}

#[test]
fn test_update_return_weight_transition() {
    let destinations = vec![1, 2, 3, 4, 4, 4, 5, 6, 100];
    let mut transitions = (0..destinations.len()).map(|_| 1.0).collect::<Vec<WeightT>>();
    let marks = update_return_weight_transition(&destinations, 6, 2);
    for (transition, marked) in transitions.iter_mut().zip(marks.iter()) {
        if *marked {
            *transition *= 2.0;
        }
    }
    assert_eq!(transitions, vec![1.0, 2.0, 1.0, 1.0, 1.0, 1.0, 1.0, 2.0, 1.0])
}

#[test]
fn repeated_neighbours_are_all_known() {
    let marks = update_explore_weight_transition(&[4, 4, 7], &[4], 0, 1);
    assert_eq!(marks, vec![false, false, true]);
}

#[test]
fn uniform_walk_follows_edges() {
    let g = path_graph(false);
    let parameters = WalksParameters::new(4).unwrap().set_random_state(Some(42));
    let starts = g.complete_walks_iter(&parameters).unwrap();
    assert_eq!(starts.len(), 4);
    let walks = g.walks(&starts, &parameters).unwrap();
    assert_eq!(walks.len(), 4);
    for (walk, start) in walks.iter().zip(starts.iter()) {
        assert_eq!(walk.len(), 4);
        assert_eq!(walk[0], start.node);
        for pair in walk.windows(2) {
            assert!(g.has_edge(pair[0], pair[1]));
        }
        assert_eq!(*walk, g.uniform_walk(start.node, start.random_state, 4));
    }
    let again = g.walks(&starts, &parameters).unwrap();
    assert_eq!(walks, again);
}

#[test]
fn walk_from_an_end_of_the_path_turns_back() {
    let g = path_graph(false);
    let walk = g.uniform_walk(0, 42, 3);
    assert_eq!(walk, vec![0, 1, walk[2]]);
    assert!(walk[2] == 0 || walk[2] == 2);
}

#[test]
fn directed_graphs_are_not_walked() {
    let g = path_graph(true);
    let parameters = WalksParameters::new(4).unwrap();
    assert!(matches!(g.random_walks_iter(3, &parameters), Err(GraphError::DirectedGraph)));
}

#[test]
fn walk_parameters_are_checked() {
    assert!(matches!(WalksParameters::new(1), Err(GraphError::InvalidParameter)));
    let parameters = WalksParameters::new(2).unwrap();
    assert!(matches!(parameters.set_iterations(Some(0)), Err(GraphError::InvalidParameter)));
    let parameters = WalksParameters::new(2).unwrap();
    assert!(matches!(parameters.set_max_neighbours(Some(0)), Err(GraphError::InvalidParameter)));
    let parameters = WalksParameters::new(2).unwrap();
    let mut weights = WalkWeights::default();
    weights.return_weight = 0.0f32.to_bits();
    assert!(matches!(parameters.set_weights(weights), Err(GraphError::InvalidParameter)));
}

#[test]
fn biased_walk_is_made_step_by_step() {
    let g = path_graph(false);
    let mut weights = WalkWeights::default();
    weights.return_weight = 2.0f32.to_bits();
    weights.explore_weight = 0.5f32.to_bits();
    let parameters = WalksParameters::new(4).unwrap().set_weights(weights).unwrap();
    let starts = g.random_walks_iter(2, &parameters).unwrap();
    assert!(g.walks(&starts, &parameters).is_none());
    let single = parameters.single_walk_parameters;
    let (mut walk, first) = g.begin_walk(1, 7, &single);
    assert_eq!(walk.candidates.destinations, vec![0, 2]);
    assert_eq!(first.biases, vec![Bias::Unchanged, Bias::Unchanged]);
    let second = g.continue_walk(&mut walk, 1, 7, &single).unwrap();
    assert_eq!(walk.walk, vec![1, 2]);
    assert_eq!(walk.candidates.destinations, vec![1, 3]);
    assert_eq!(second.biases, vec![Bias::Return, Bias::Explore]);
    let third = g.continue_walk(&mut walk, 1, 7, &single).unwrap();
    assert_eq!(walk.walk, vec![1, 2, 3]);
    assert_eq!(third.biases, vec![Bias::Return]);
    assert!(g.continue_walk(&mut walk, 0, 7, &single).is_none());
    assert_eq!(walk.walk, vec![1, 2, 3, 2]);
}

#[test]
fn neighbours_are_sampled_in_order() {
    let edges = vec![
        edge("hub", "a"),
        edge("hub", "b"),
        edge("hub", "c"),
        edge("hub", "d"),
        edge("hub", "e"),
    ];
    let g = Graph::from_string_unsorted(
        &edges,
        &None,
        false,
        "star".to_string(),
        false,
        false,
        false,
        false,
        false,
        false,
    )
    .unwrap();
    let candidates = g.get_node_edges_and_destinations(&Some(2), 9, 0);
    assert_eq!(candidates.edge_ids.len(), 2);
    assert!(candidates.edge_ids[0] < candidates.edge_ids[1]);
    assert!(candidates.edge_ids[0] < 2 && candidates.edge_ids[1] >= 2);
    let all = g.get_node_edges_and_destinations(&Some(5), 9, 0);
    assert_eq!(all.edge_ids, vec![0, 1, 2, 3, 4]);
}

#[test]
fn walkers_for_trying_a_graph_out() {
    let edges: Vec<graph::records::EdgeRecord> = vec![
        Ok(("c".to_string(), "a".to_string(), None, None)),
        Ok(("a".to_string(), "b".to_string(), None, None)),
    ];
    let nodes: Option<Vec<graph::records::NodeRecord>> = Some(vec![
        Ok(("lonely".to_string(), None)),
        Ok(("a".to_string(), None)),
        Ok(("b".to_string(), None)),
        Ok(("c".to_string(), None)),
    ]);
    let g = graph::graph::Graph::from_string_unsorted(
        &edges,
        &nodes,
        false,
        "tried".to_string(),
        false,
        false,
        false,
        false,
        false,
        false,
    )
    .unwrap();
    let first = graph::test_utilities::first_order_walker(&g).unwrap();
    assert_eq!(first.single_walk_parameters.length, 50);
    assert_eq!(first.iterations, 1);
    assert_eq!(first.random_state, 43);
    assert!(first.is_first_order_walk());
    let mapping = first.dense_node_mapping.clone().unwrap();
    assert_eq!(mapping.len(), 3);
    assert_eq!(mapping, g.get_dense_node_mapping());
    assert!(!mapping.contains_key(&0));
    assert_eq!(first.validate(&g), Ok(()));
    let second = graph::test_utilities::second_order_walker(&g).unwrap();
    assert_eq!(second.single_walk_parameters.weights.return_weight, 2.0f32.to_bits());
    assert_eq!(second.single_walk_parameters.weights.explore_weight, 2.0f32.to_bits());
    assert_eq!(second.single_walk_parameters.weights.change_node_type_weight, 2.0f32.to_bits());
    assert_eq!(second.single_walk_parameters.weights.change_edge_type_weight, 2.0f32.to_bits());
    assert_eq!(second.random_state, 43);
    assert!(second.dense_node_mapping.is_none());
    assert!(!second.is_first_order_walk());
}
