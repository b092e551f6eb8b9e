use graph::errors::GraphError;
use graph::graph::Graph;
use graph::preprocessing::{
    cooccurence_matrix, cooccurrences, word2vec, Cooccurrence, EdgeEmbeddingMethods,
};
use graph::random::{gen_random_vec, mix_seed, sample_k_distinct_uniform, sample_uniform, xorshift};
use graph::records::EdgeRecord;

fn edge(src: &str, dst: &str) -> EdgeRecord {
    Ok((src.to_string(), dst.to_string(), None, None))
}

fn triangle() -> Graph {
    let edges = vec![edge("A", "B"), edge("B", "C"), edge("C", "A")];
    Graph::from_string_unsorted(
        &edges,
        &None,
        false,
        "triangle".to_string(),
        false,
        false,
        false,
        false,
        false,
        false,
    )
    .unwrap()
}

#[test]
fn xorshift_is_the_round_of_shifts_13_7_17() {
    assert_eq!(xorshift(0), 0);
    assert_eq!(xorshift(1), 1082269761);
    let mut x: u64 = 42;
    x ^= x << 13;
    x ^= x >> 7;
    x ^= x << 17;
    assert_eq!(xorshift(42), x);
    assert_eq!(mix_seed(0), 0xbad5eedbad5eed11);
    assert_eq!(sample_uniform(10, 42), xorshift(42) % 10);
    assert_eq!(gen_random_vec(3, u64::MAX), vec![xorshift(u64::MAX), xorshift(0), xorshift(1)]);
}

#[test]
fn distinct_samples_rise() {
    let indices = sample_k_distinct_uniform(10, 110, 7, 3);
    assert_eq!(indices.len(), 7);
    for pair in indices.windows(2) {
        assert!(pair[0] < pair[1]);
    }
    assert!(indices[0] >= 10 && indices[6] < 110);
    assert_eq!(sample_k_distinct_uniform(5, 8, 3, 99), vec![5, 6, 7]);
}

#[test]
fn contexts_are_the_nodes_around_each_place() {
    let batches = word2vec(&vec![vec![1, 2, 3, 4, 5]], 1).unwrap();
    assert_eq!(batches, vec![(vec![1, 3], 2), (vec![2, 4], 3), (vec![3, 5], 4)]);
    let batches = word2vec(&vec![vec![1, 2, 3, 4, 5], vec![7, 8, 9, 10, 11]], 2).unwrap();
    assert_eq!(batches, vec![(vec![1, 2, 4, 5], 3), (vec![7, 8, 10, 11], 9)]);
    assert!(matches!(word2vec(&vec![vec![1, 2]], 1), Err(GraphError::InvalidParameter)));
}

#[test]
fn cooccurrences_are_counted_by_distance() {
    let events = cooccurrences(&vec![vec![3, 1, 3]], 2);
    assert_eq!(
        events,
        vec![
            Cooccurrence { word: 1, context: 3, distance: 1 },
            Cooccurrence { word: 3, context: 3, distance: 2 },
            Cooccurrence { word: 1, context: 3, distance: 1 },
        ]
    );
    let matrix = cooccurence_matrix(&vec![vec![3, 1, 3]], 2);
    assert_eq!(matrix.words, vec![1, 3, 3, 3]);
    assert_eq!(matrix.contexts, vec![3, 1, 3, 3]);
    assert_eq!(matrix.frequencies, vec![vec![2, 0], vec![2, 0], vec![0, 1], vec![0, 1]]);
    for k in 0..matrix.words.len() / 2 {
        assert_eq!(
            (matrix.words[2 * k], matrix.contexts[2 * k]),
            (matrix.contexts[2 * k + 1], matrix.words[2 * k + 1])
        );
        let frequency: f64 = matrix.frequencies[2 * k]
            .iter()
            .enumerate()
            .map(|(d, count)| *count as f64 / (d + 1) as f64)
            .sum();
        assert!(frequency > 0.0);
    }
}

#[test]
fn embedding_methods_are_found_by_name() {
    assert_eq!(EdgeEmbeddingMethods::new("Hadamard"), Ok(EdgeEmbeddingMethods::Hadamard));
    assert_eq!(EdgeEmbeddingMethods::new("Average"), Ok(EdgeEmbeddingMethods::Average));
    assert_eq!(EdgeEmbeddingMethods::new("Sum"), Ok(EdgeEmbeddingMethods::Sum));
    assert_eq!(EdgeEmbeddingMethods::new("L1"), Ok(EdgeEmbeddingMethods::L1));
    assert_eq!(EdgeEmbeddingMethods::new("AbsoluteL1"), Ok(EdgeEmbeddingMethods::AbsoluteL1));
    assert_eq!(EdgeEmbeddingMethods::new("L2"), Ok(EdgeEmbeddingMethods::L2));
    assert_eq!(EdgeEmbeddingMethods::new("Concatenate"), Ok(EdgeEmbeddingMethods::Concatenate));
    assert_eq!(EdgeEmbeddingMethods::new("hadamard"), Err(GraphError::UnknownMethod));
}

#[test]
fn complete_graph_has_no_negative_samples() {
    let g = triangle();
    let r = g.link_prediction(0, 4, "Hadamard", 2, true, 16, &None);
    assert!(matches!(r, Err(GraphError::SamplingExhausted)));
}

#[test]
fn positives_are_edges_and_negatives_are_not() {
    let edges = vec![edge("A", "B"), edge("B", "C"), edge("C", "D"), edge("D", "E")];
    let g = Graph::from_string_unsorted(
        &edges,
        &None,
        false,
        "path".to_string(),
        false,
        false,
        false,
        false,
        false,
        false,
    )
    .unwrap();
    let (method, samples) = g.link_prediction(3, 10, "L2", 5, true, 1000, &None).unwrap();
    assert_eq!(method, EdgeEmbeddingMethods::L2);
    assert_eq!(samples.len(), 10);
    let mut places: Vec<usize> = samples.iter().map(|sample| sample.index).collect();
    places.sort();
    assert_eq!(places, (0..10).collect::<Vec<usize>>());
    for (i, sample) in samples.iter().enumerate() {
        assert_eq!(sample.label, i < 5);
        assert_eq!(g.has_edge(sample.src, sample.dst), sample.label);
        assert!(sample.src != sample.dst);
    }
    let other = triangle();
    let (_, avoided) = g.link_prediction(3, 10, "L2", 5, true, 1000, &Some(&other)).unwrap();
    for sample in avoided.iter().filter(|sample| !sample.label) {
        assert!(!other.has_edge_checked(sample.src, sample.dst));
    }
    assert!(matches!(
        g.link_prediction(3, 2, "L2", 3, true, 10, &None),
        Err(GraphError::InvalidParameter)
    ));
    assert!(matches!(
        g.link_prediction(3, 2, "none", 1, true, 10, &None),
        Err(GraphError::UnknownMethod)
    ));
}

#[test]
fn a_batch_comes_shuffled_and_the_same_for_the_same_index() {
    let edges = vec![edge("A", "B"), edge("B", "C"), edge("C", "D"), edge("D", "E")];
    let g = Graph::from_string_unsorted(
        &edges,
        &None,
        false,
        "path".to_string(),
        false,
        false,
        false,
        false,
        false,
        false,
    )
    .unwrap();
    let (_, samples) = g.link_prediction(7, 32, "Hadamard", 16, true, 1000, &None).unwrap();
    let places: Vec<usize> = samples.iter().map(|sample| sample.index).collect();
    assert_ne!(places, (0..32).collect::<Vec<usize>>());
    let (_, again) = g.link_prediction(7, 32, "Hadamard", 16, true, 1000, &None).unwrap();
    let places_again: Vec<usize> = again.iter().map(|sample| sample.index).collect();
    assert_eq!(places, places_again);
    for (one, other) in samples.iter().zip(again.iter()) {
        assert_eq!((one.src, one.dst, one.label), (other.src, other.dst, other.label));
    }
}

#[test]
fn a_batch_takes_the_places_it_is_given() {
    let edges = vec![edge("A", "B"), edge("B", "C"), edge("C", "D"), edge("D", "E")];
    let g = Graph::from_string_unsorted(
        &edges,
        &None,
        false,
        "path".to_string(),
        false,
        false,
        false,
        false,
        false,
        false,
    )
    .unwrap();
    let order: Vec<usize> = vec![3, 0, 2, 1, 5, 4];
    let (method, samples) =
        g.link_batch(7, 6, "Sum", 2, true, 1000, &None, &order).unwrap();
    assert_eq!(method, EdgeEmbeddingMethods::Sum);
    let places: Vec<usize> = samples.iter().map(|sample| sample.index).collect();
    assert_eq!(places, order);
    let labels: Vec<bool> = samples.iter().map(|sample| sample.label).collect();
    assert_eq!(labels, vec![true, true, true, true, false, false]);
    let (_, shuffled) = g.link_prediction(7, 6, "Sum", 2, true, 1000, &None).unwrap();
    for (one, other) in samples.iter().zip(shuffled.iter()) {
        assert_eq!((one.src, one.dst, one.label), (other.src, other.dst, other.label));
    }
    let shuffled_order: Vec<usize> = shuffled.iter().map(|sample| sample.index).collect();
    assert_eq!(
        shuffled_order,
        graph::preprocessing::shuffled_places(6, graph::random::mix_seed(7))
    );
    assert!(matches!(
        g.link_batch(7, 6, "Sum", 7, true, 1000, &None, &order),
        Err(GraphError::InvalidParameter)
    ));
}
