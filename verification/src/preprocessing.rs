//! Batches for models that learn from a graph: the contexts of the nodes of
//! walks, the co-occurrences of nodes in walks, and samples of edges and of
//! non-edges.

use vstd::prelude::*;
use vstd::string::StringExecFns;
use rand::seq::SliceRandom;
use rand::SeedableRng;
use crate::errors::GraphError;
use crate::graph::Graph;
use crate::random::{gen_random_vec, mix_seed, mix_seed_spec, random_value_spec, xorshift, xorshift_spec};
use crate::types::{EdgeT, NodeT};
use crate::walks_parameters::WalksParameters;

verus! {

/// How the embeddings of the two ends of an edge are made into the
/// embedding of the edge.
#[derive(Clone, Copy, Debug, PartialEq, Eq, Structural)]
pub enum EdgeEmbeddingMethods {
    Hadamard,
    Average,
    Sum,
    L1,
    AbsoluteL1,
    L2,
    Concatenate,
}

/// The method that `name` names, if it names one.
pub open spec fn method_named(name: Seq<char>) -> Option<EdgeEmbeddingMethods> {
    if name == "Hadamard"@ {
        Some(EdgeEmbeddingMethods::Hadamard)
    } else if name == "Average"@ {
        Some(EdgeEmbeddingMethods::Average)
    } else if name == "Sum"@ {
        Some(EdgeEmbeddingMethods::Sum)
    } else if name == "L1"@ {
        Some(EdgeEmbeddingMethods::L1)
    } else if name == "AbsoluteL1"@ {
        Some(EdgeEmbeddingMethods::AbsoluteL1)
    } else if name == "L2"@ {
        Some(EdgeEmbeddingMethods::L2)
    } else if name == "Concatenate"@ {
        Some(EdgeEmbeddingMethods::Concatenate)
    } else {
        None
    }
}

/// Whether `name` reads `word`.
fn reads(name: &String, word: &str) -> (same: bool)
    ensures
        same == (name@ == word@),
{
    let other = String::from_str(word);
    *name == other
}

impl EdgeEmbeddingMethods {
    /// The method named `method`; any other name is refused.
    pub fn new(method: &str) -> (r: Result<EdgeEmbeddingMethods, GraphError>)
        ensures
            r is Ok <==> method_named(method@) is Some,
            r matches Ok(m) ==> method_named(method@) == Some(m),
            r is Err ==> r->Err_0 == GraphError::UnknownMethod,
    {
        let name = String::from_str(method);
        if reads(&name, "Hadamard") {
            Ok(EdgeEmbeddingMethods::Hadamard)
        } else if reads(&name, "Average") {
            Ok(EdgeEmbeddingMethods::Average)
        } else if reads(&name, "Sum") {
            Ok(EdgeEmbeddingMethods::Sum)
        } else if reads(&name, "L1") {
            Ok(EdgeEmbeddingMethods::L1)
        } else if reads(&name, "AbsoluteL1") {
            Ok(EdgeEmbeddingMethods::AbsoluteL1)
        } else if reads(&name, "L2") {
            Ok(EdgeEmbeddingMethods::L2)
        } else if reads(&name, "Concatenate") {
            Ok(EdgeEmbeddingMethods::Concatenate)
        } else {
            Err(GraphError::UnknownMethod)
        }
    }
}

/// The order in which `SliceRandom::shuffle` leaves `items` when its
/// generator is a `StdRng` that `SeedableRng::seed_from_u64` seeded with
/// `seed`.
pub uninterp spec fn shuffled(items: Seq<usize>, seed: u64) -> Seq<usize>;

/// `SliceRandom::shuffle` with a `StdRng` that `SeedableRng::seed_from_u64`
/// seeds with `seed`: puts the items in the order that the seed decides.
/// The generator is a function of the seed, and the shuffle draws from it
/// by the number of items alone, so the same items and seed give the same
/// order. The crate only ever swaps two items, so every item stays, as
/// often as it was there.
#[verifier::external_body]
fn shuffle(items: &mut Vec<usize>, seed: u64)
    ensures
        final(items)@ == shuffled(old(items)@, seed),
        final(items)@.to_multiset() == old(items)@.to_multiset(),
{
    items.shuffle(&mut rand::rngs::StdRng::seed_from_u64(seed))
}

/// The places `0..len` in order.
pub open spec fn places(len: nat) -> Seq<usize> {
    Seq::new(len, |i: int| i as usize)
}

/// The places `0..len` in the order that a generator seeded with `seed`
/// shuffles them into.
pub fn shuffled_places(len: usize, seed: u64) -> (order: Vec<usize>)
    ensures
        order@ == shuffled(places(len as nat), seed),
        order@.to_multiset() == places(len as nat).to_multiset(),
        order@.len() == len,
{
    let mut order: Vec<usize> = Vec::new();
    let mut i: usize = 0;
    while i < len
        invariant
            i <= len,
            order@.len() == i,
            forall|k: int| 0 <= k < i ==> order@[k] == k,
        decreases len - i,
    {
        order.push(i);
        i += 1;
    }
    proof {
        assert(order@ =~= places(len as nat));
    }
    let ghost before = order@;
    shuffle(&mut order, seed);
    proof {
        before.to_multiset_ensures();
        order@.to_multiset_ensures();
    }
    order
}

/// One sample of a batch for link prediction: its place in the batch, the
/// two nodes, and whether an edge joins them.
#[derive(Clone, Copy, Debug, PartialEq, Eq, Structural)]
pub struct LinkSample {
    pub index: usize,
    pub src: NodeT,
    pub dst: NodeT,
    pub label: bool,
}

/// The node below `n` that the 32-bit number `half` is reduced to, without a
/// division by `n`.
pub open spec fn reduce_spec(half: int, n: int) -> int {
    (half * n) / 0x1_0000_0000
}

/// Reduces a 32-bit number to a node below `nodes_number`.
pub fn reduce(half: u64, nodes_number: NodeT) -> (node: NodeT)
    requires
        half < 0x1_0000_0000,
        nodes_number > 0,
    ensures
        node == reduce_spec(half as int, nodes_number as int),
        node < nodes_number,
{
    proof {
        assert(half * nodes_number < 0x1_0000_0000 * nodes_number) by (nonlinear_arith)
            requires
                0 <= half < 0x1_0000_0000,
                nodes_number > 0,
        ;
        assert(0 <= half * nodes_number) by (nonlinear_arith)
            requires
                0 <= half,
                0 <= nodes_number,
        ;
        vstd::arithmetic::div_mod::lemma_div_by_multiple_is_strongly_ordered(
            half * nodes_number,
            0x1_0000_0000 * nodes_number,
            nodes_number as int,
            0x1_0000_0000,
        );
        vstd::arithmetic::div_mod::lemma_div_multiples_vanish(nodes_number as int, 0x1_0000_0000);
        assert(0x1_0000_0000 * nodes_number == nodes_number * 0x1_0000_0000) by (nonlinear_arith);
    }
    ((half * nodes_number as u64) / 0x1_0000_0000) as NodeT
}

} // verus!

verus! {

impl Graph {
    /// The pair of nodes that a 64-bit draw stands for: its lower half
    /// reduced to the source and its upper half to the destination.
    pub open spec fn negative_candidate(&self, sampled: u64) -> (NodeT, NodeT) {
        (
            reduce_spec(sampled as int % 0x1_0000_0000, self.nodes_count() as int) as NodeT,
            reduce_spec(sampled as int / 0x1_0000_0000, self.nodes_count() as int) as NodeT,
        )
    }

    /// Whether the graph holds an edge from `src` to `dst`, which may be
    /// nodes of another graph.
    pub open spec fn holds_edge(&self, src: NodeT, dst: NodeT) -> bool {
        src < self.nodes_count() && dst < self.nodes_count() && self.has_edge_between(
            src as int,
            dst as int,
        )
    }

    /// Whether the pair `c` is refused as a negative sample: it is an edge
    /// and false negatives are to be avoided, it is an edge of the graph to
    /// avoid, or it is a self-loop and the graph has none.
    pub open spec fn rejects(&self, c: (NodeT, NodeT), avoid_false_negatives: bool, graph_to_avoid: Option<&Graph>) -> bool {
        ||| avoid_false_negatives && self.holds_edge(c.0, c.1)
        ||| graph_to_avoid matches Some(other) && other.holds_edge(c.0, c.1)
        ||| self.self_loops() == 0 && c.0 == c.1
    }

    /// The negative sample that the draw `sampled` gives within `tries`
    /// candidates: the first candidate that is not refused, each candidate
    /// after the first being that of the draw advanced by one more round of
    /// xorshift.
    pub open spec fn negative_sample(
        &self,
        sampled: u64,
        tries: nat,
        avoid_false_negatives: bool,
        graph_to_avoid: Option<&Graph>,
    ) -> Option<(NodeT, NodeT)>
        decreases tries,
    {
        if tries == 0 {
            None
        } else if !self.rejects(
            self.negative_candidate(sampled),
            avoid_false_negatives,
            graph_to_avoid,
        ) {
            Some(self.negative_candidate(sampled))
        } else {
            self.negative_sample(
                xorshift_spec(sampled),
                (tries - 1) as nat,
                avoid_false_negatives,
                graph_to_avoid,
            )
        }
    }

    /// A negative sample is a pair of nodes that is not refused.
    pub proof fn lemma_negative_sample(
        &self,
        sampled: u64,
        tries: nat,
        avoid_false_negatives: bool,
        graph_to_avoid: Option<&Graph>,
    )
        ensures
            self.negative_sample(sampled, tries, avoid_false_negatives, graph_to_avoid) matches Some(
                c,
            ) ==> !self.rejects(c, avoid_false_negatives, graph_to_avoid),
        decreases tries,
    {
        if tries > 0 {
            self.lemma_negative_sample(
                xorshift_spec(sampled),
                (tries - 1) as nat,
                avoid_false_negatives,
                graph_to_avoid,
            );
        }
    }

    /// Whether the graph holds an edge from `src` to `dst`, which may be
    /// nodes of another graph.
    pub fn has_edge_checked(&self, src: NodeT, dst: NodeT) -> (found: bool)
        requires
            self.wf(),
        ensures
            found == self.holds_edge(src, dst),
    {
        let n = self.get_nodes_number();
        if src >= n || dst >= n {
            return false;
        }
        self.has_edge(src, dst)
    }

    /// Draws a negative sample from `sampled`, trying one candidate more
    /// than `maximal_sampling_attempts`.
    pub fn sample_negative(
        &self,
        sampled: u64,
        avoid_false_negatives: bool,
        maximal_sampling_attempts: usize,
        graph_to_avoid: &Option<&Graph>,
    ) -> (r: Option<(NodeT, NodeT)>)
        requires
            self.wf(),
            self.nodes_count() > 0,
            graph_to_avoid matches Some(other) ==> other.wf(),
        ensures
            r == self.negative_sample(
                sampled,
                (maximal_sampling_attempts + 1) as nat,
                avoid_false_negatives,
                *graph_to_avoid,
            ),
    {
        let n = self.get_nodes_number();
        let no_self_loops = self.self_loop_number == 0;
        let mut current = sampled;
        let mut attempts: usize = 0;
        loop
            invariant
                self.wf(),
                n == self.nodes_count(),
                n > 0,
                graph_to_avoid matches Some(other) ==> other.wf(),
                no_self_loops == (self.self_loops() == 0),
                attempts <= maximal_sampling_attempts,
                self.negative_sample(
                    sampled,
                    (maximal_sampling_attempts + 1) as nat,
                    avoid_false_negatives,
                    *graph_to_avoid,
                ) == self.negative_sample(
                    current,
                    (maximal_sampling_attempts + 1 - attempts) as nat,
                    avoid_false_negatives,
                    *graph_to_avoid,
                ),
            decreases maximal_sampling_attempts - attempts,
        {
            let src = reduce(current % 0x1_0000_0000, n);
            let dst = reduce(current / 0x1_0000_0000, n);
            let refused = (avoid_false_negatives && self.has_edge(src, dst)) || (match graph_to_avoid {
                Some(other) => other.has_edge_checked(src, dst),
                None => false,
            }) || (no_self_loops && src == dst);
            if !refused {
                return Some((src, dst));
            }
            if attempts == maximal_sampling_attempts {
                proof {
                    assert(self.negative_sample(
                        xorshift_spec(current),
                        0,
                        avoid_false_negatives,
                        *graph_to_avoid,
                    ) is None);
                }
                return None;
            }
            current = xorshift(current);
            attempts += 1;
        }
    }

    /// The two nodes of sample `i` of a batch, if the draw `sampled` gives
    /// them: an edge of the graph for the first `positives` samples, and a
    /// negative sample for the others.
    pub open spec fn link_pair(
        &self,
        i: int,
        positives: int,
        sampled: u64,
        avoid_false_negatives: bool,
        maximal_sampling_attempts: usize,
        graph_to_avoid: Option<&Graph>,
    ) -> Option<(NodeT, NodeT)> {
        if i < positives {
            let e = sampled as int % self.edges_count() as int;
            Some((self.source(e) as NodeT, self.destination(e) as NodeT))
        } else {
            self.negative_sample(
                sampled,
                (maximal_sampling_attempts + 1) as nat,
                avoid_false_negatives,
                graph_to_avoid,
            )
        }
    }

    /// Whether the first `k` samples of a batch can be drawn.
    pub open spec fn batch_drawn(
        &self,
        k: int,
        positives: int,
        state: u64,
        avoid_false_negatives: bool,
        maximal_sampling_attempts: usize,
        graph_to_avoid: Option<&Graph>,
    ) -> bool {
        forall|i: int|
            0 <= i < k ==> (#[trigger] self.link_pair(
                i,
                positives,
                random_value_spec(state, i),
                avoid_false_negatives,
                maximal_sampling_attempts,
                graph_to_avoid,
            )) is Some
    }

    /// Why a batch cannot be made, if so.
    pub open spec fn link_failure(
        &self,
        idx: u64,
        batch_size: usize,
        method: Seq<char>,
        negative_number: usize,
        avoid_false_negatives: bool,
        maximal_sampling_attempts: usize,
        graph_to_avoid: Option<&Graph>,
    ) -> Option<GraphError> {
        if negative_number > batch_size {
            Some(GraphError::InvalidParameter)
        } else if method_named(method) is None {
            Some(GraphError::UnknownMethod)
        } else if self.edges_count() == 0 || self.nodes_count() == 0 {
            Some(GraphError::EmptyGraph)
        } else if !self.batch_drawn(
            batch_size as int,
            batch_size - negative_number,
            mix_seed_spec(idx),
            avoid_false_negatives,
            maximal_sampling_attempts,
            graph_to_avoid,
        ) {
            Some(GraphError::SamplingExhausted)
        } else {
            None
        }
    }

    /// Makes batch `idx` of samples for link prediction, each at the place
    /// that `order` gives it: `negative_number` negative samples, which
    /// come last, and edges of the graph for the rest. Sample `i` is drawn
    /// from the `i`-th random value of the mixed state. A negative sample
    /// that cannot be drawn within the attempts is the fatal sampling
    /// error: no shorter batch is ever returned.
    pub fn link_batch(
        &self,
        idx: u64,
        batch_size: usize,
        method: &str,
        negative_number: usize,
        avoid_false_negatives: bool,
        maximal_sampling_attempts: usize,
        graph_to_avoid: &Option<&Graph>,
        order: &Vec<usize>,
    ) -> (r: Result<(EdgeEmbeddingMethods, Vec<LinkSample>), GraphError>)
        requires
            self.wf(),
            graph_to_avoid matches Some(other) ==> other.wf(),
            order@.len() == batch_size,
        ensures
            r is Err <==> self.link_failure(
                idx,
                batch_size,
                method@,
                negative_number,
                avoid_false_negatives,
                maximal_sampling_attempts,
                *graph_to_avoid,
            ) is Some,
            r matches Err(e) ==> self.link_failure(
                idx,
                batch_size,
                method@,
                negative_number,
                avoid_false_negatives,
                maximal_sampling_attempts,
                *graph_to_avoid,
            ) == Some(e),
            r matches Ok((m, samples)) ==> {
                &&& method_named(method@) == Some(m)
                &&& samples@.len() == batch_size
                &&& forall|i: int| 0 <= i < batch_size ==> (#[trigger] samples@[i]).index == order@[i]
                &&& forall|i: int|
                    0 <= i < batch_size ==> (#[trigger] samples@[i]).label == (i < batch_size
                        - negative_number) && Some((samples@[i].src, samples@[i].dst))
                        == self.link_pair(
                        i,
                        batch_size - negative_number,
                        random_value_spec(mix_seed_spec(idx), i),
                        avoid_false_negatives,
                        maximal_sampling_attempts,
                        *graph_to_avoid,
                    )
                &&& forall|i: int|
                    0 <= i < batch_size && (#[trigger] samples@[i]).label ==> self.holds_edge(
                        samples@[i].src,
                        samples@[i].dst,
                    )
                &&& forall|i: int|
                    0 <= i < batch_size && !(#[trigger] samples@[i]).label ==> !self.rejects(
                        (samples@[i].src, samples@[i].dst),
                        avoid_false_negatives,
                        *graph_to_avoid,
                    )
            },
    {
        if negative_number > batch_size {
            return Err(GraphError::InvalidParameter);
        }
        let m = match EdgeEmbeddingMethods::new(method) {
            Err(e) => {
                return Err(e);
            },
            Ok(m) => m,
        };
        let edges_number = self.get_edges_number();
        if edges_number == 0 || self.nodes.len() == 0 {
            return Err(GraphError::EmptyGraph);
        }
        let positives = batch_size - negative_number;
        let state = mix_seed(idx);
        let random_values = gen_random_vec(batch_size, state);
        let mut samples: Vec<LinkSample> = Vec::new();
        let mut i: usize = 0;
        while i < batch_size
            invariant
                self.wf(),
                graph_to_avoid matches Some(other) ==> other.wf(),
                i <= batch_size,
                negative_number <= batch_size,
                positives == batch_size - negative_number,
                edges_number == self.edges_count(),
                edges_number > 0,
                self.nodes_count() > 0,
                method_named(method@) is Some,
                state == mix_seed_spec(idx),
                random_values@.len() == batch_size,
                order@.len() == batch_size,
                forall|k: int|
                    0 <= k < batch_size ==> #[trigger] random_values@[k] == random_value_spec(
                        state,
                        k,
                    ),
                samples@.len() == i,
                forall|k: int| 0 <= k < i ==> (#[trigger] samples@[k]).index == order@[k],
                forall|k: int|
                    0 <= k < i ==> (#[trigger] samples@[k]).label == (k < positives) && Some(
                        (samples@[k].src, samples@[k].dst),
                    ) == self.link_pair(
                        k,
                        positives as int,
                        random_value_spec(state, k),
                        avoid_false_negatives,
                        maximal_sampling_attempts,
                        *graph_to_avoid,
                    ),
                forall|k: int|
                    0 <= k < i && (#[trigger] samples@[k]).label ==> self.holds_edge(
                        samples@[k].src,
                        samples@[k].dst,
                    ),
                forall|k: int|
                    0 <= k < i && !(#[trigger] samples@[k]).label ==> !self.rejects(
                        (samples@[k].src, samples@[k].dst),
                        avoid_false_negatives,
                        *graph_to_avoid,
                    ),
            decreases batch_size - i,
        {
            let sampled = random_values[i];
            let (src, dst, label) = if i < positives {
                let (src, dst) = self.get_edge_from_edge_id(sampled % edges_number);
                (src, dst, true)
            } else {
                match self.sample_negative(
                    sampled,
                    avoid_false_negatives,
                    maximal_sampling_attempts,
                    graph_to_avoid,
                ) {
                    None => {
                        proof {
                            assert(self.link_pair(
                                i as int,
                                positives as int,
                                random_value_spec(state, i as int),
                                avoid_false_negatives,
                                maximal_sampling_attempts,
                                *graph_to_avoid,
                            ) is None);
                        }
                        return Err(GraphError::SamplingExhausted);
                    },
                    Some((src, dst)) => {
                        proof {
                            self.lemma_negative_sample(
                                sampled,
                                (maximal_sampling_attempts + 1) as nat,
                                avoid_false_negatives,
                                *graph_to_avoid,
                            );
                        }
                        (src, dst, false)
                    },
                }
            };
            samples.push(LinkSample { index: order[i], src, dst, label });
            i += 1;
        }
        proof {
            assert forall|k: int| 0 <= k < batch_size implies (#[trigger] self.link_pair(
                k,
                positives as int,
                random_value_spec(state, k),
                avoid_false_negatives,
                maximal_sampling_attempts,
                *graph_to_avoid,
            )) is Some by {
                assert(samples@[k].label == (k < positives));
            }
        }
        Ok((m, samples))
    }

    /// Makes batch `idx` of samples for link prediction: `negative_number`
    /// negative samples, which come last, and edges of the graph for the
    /// rest. Sample `i` is drawn from the `i`-th random value of the mixed
    /// state, and carries the place that a shuffle of the batch, seeded
    /// with the mixed state, gives it: equal arguments give equal batches.
    /// Returns the embedding method that `method` names and the samples.
    ///
    /// A negative sample that cannot be drawn within the attempts is the
    /// fatal sampling error: the graph is too dense or too small for the
    /// batch, no shorter batch is ever returned, and a caller is to stop on
    /// `SamplingExhausted`.
    pub fn link_prediction(
        &self,
        idx: u64,
        batch_size: usize,
        method: &str,
        negative_number: usize,
        avoid_false_negatives: bool,
        maximal_sampling_attempts: usize,
        graph_to_avoid: &Option<&Graph>,
    ) -> (r: Result<(EdgeEmbeddingMethods, Vec<LinkSample>), GraphError>)
        requires
            self.wf(),
            graph_to_avoid matches Some(other) ==> other.wf(),
        ensures
            r is Err <==> self.link_failure(
                idx,
                batch_size,
                method@,
                negative_number,
                avoid_false_negatives,
                maximal_sampling_attempts,
                *graph_to_avoid,
            ) is Some,
            r matches Err(e) ==> self.link_failure(
                idx,
                batch_size,
                method@,
                negative_number,
                avoid_false_negatives,
                maximal_sampling_attempts,
                *graph_to_avoid,
            ) == Some(e),
            r matches Ok((m, samples)) ==> {
                &&& method_named(method@) == Some(m)
                &&& samples@.len() == batch_size
                &&& Seq::new(samples@.len(), |i: int| samples@[i].index) == shuffled(
                    places(batch_size as nat),
                    mix_seed_spec(idx),
                )
                &&& Seq::new(samples@.len(), |i: int| samples@[i].index).to_multiset() == places(
                    batch_size as nat,
                ).to_multiset()
                &&& forall|i: int|
                    0 <= i < batch_size ==> (#[trigger] samples@[i]).label == (i < batch_size
                        - negative_number) && Some((samples@[i].src, samples@[i].dst))
                        == self.link_pair(
                        i,
                        batch_size - negative_number,
                        random_value_spec(mix_seed_spec(idx), i),
                        avoid_false_negatives,
                        maximal_sampling_attempts,
                        *graph_to_avoid,
                    )
                &&& forall|i: int|
                    0 <= i < batch_size && (#[trigger] samples@[i]).label ==> self.holds_edge(
                        samples@[i].src,
                        samples@[i].dst,
                    )
                &&& forall|i: int|
                    0 <= i < batch_size && !(#[trigger] samples@[i]).label ==> !self.rejects(
                        (samples@[i].src, samples@[i].dst),
                        avoid_false_negatives,
                        *graph_to_avoid,
                    )
            },
    {
        let order = shuffled_places(batch_size, mix_seed(idx));
        let r = self.link_batch(
            idx,
            batch_size,
            method,
            negative_number,
            avoid_false_negatives,
            maximal_sampling_attempts,
            graph_to_avoid,
            &order,
        );
        proof {
            if r is Ok {
                let samples = r->Ok_0.1;
                assert(Seq::new(samples@.len(), |i: int| samples@[i].index) =~= order@);
            }
        }
        r
    }
}

} // verus!

verus! {

/// The nodes around place `i` of a sequence: the `w` before it and the `w`
/// after it.
pub open spec fn window(sequence: Seq<NodeT>, w: int, i: int) -> Seq<NodeT> {
    sequence.subrange(i - w, i) + sequence.subrange(i + 1, i + w + 1)
}

/// The contexts of a sequence: for every place that has `w` nodes on either
/// side, the nodes around it and the node at it.
pub open spec fn contexts_of(sequence: Seq<NodeT>, w: int) -> Seq<(Seq<NodeT>, NodeT)> {
    Seq::new(
        (sequence.len() - 2 * w) as nat,
        |k: int| (window(sequence, w, w + k), sequence[w + k]),
    )
}

/// The contexts of the first `k` sequences, one sequence after the other.
pub open spec fn all_contexts(sequences: Seq<Seq<NodeT>>, w: int, k: int) -> Seq<(Seq<NodeT>, NodeT)>
    decreases k,
{
    if k <= 0 {
        Seq::empty()
    } else {
        all_contexts(sequences, w, k - 1) + contexts_of(sequences[k - 1], w)
    }
}

/// What a list of sequences holds.
pub open spec fn views(sequences: Seq<Vec<NodeT>>) -> Seq<Seq<NodeT>> {
    Seq::new(sequences.len(), |i: int| sequences[i]@)
}

/// Whether every sequence has a place with `w` nodes on either side.
pub open spec fn long_enough(sequences: Seq<Seq<NodeT>>, w: int) -> bool {
    forall|s: int| 0 <= s < sequences.len() ==> (#[trigger] sequences[s]).len() >= 2 * w + 1
}

/// What a list of batches says: the context and the centre of each.
pub open spec fn batches_view(batches: Seq<(Vec<NodeT>, NodeT)>) -> Seq<(Seq<NodeT>, NodeT)> {
    Seq::new(batches.len(), |j: int| (batches[j].0@, batches[j].1))
}

/// The nodes around place `i` of a sequence.
fn window_of(sequence: &Vec<NodeT>, window_size: usize, i: usize) -> (context: Vec<NodeT>)
    requires
        window_size <= i,
        i + window_size < sequence@.len(),
    ensures
        context@ == window(sequence@, window_size as int, i as int),
{
    let len = sequence.len();
    let mut context: Vec<NodeT> = Vec::new();
    let mut j: usize = i - window_size;
    while j < i
        invariant
            window_size <= i,
            i - window_size <= j <= i,
            i + window_size < sequence@.len(),
            context@ == sequence@.subrange(i - window_size, j as int),
        decreases i - j,
    {
        context.push(sequence[j]);
        proof {
            assert(sequence@.subrange(i - window_size, j + 1) =~= sequence@.subrange(
                i - window_size,
                j as int,
            ).push(sequence@[j as int]));
        }
        j += 1;
    }
    let mut j: usize = i + 1;
    while j < i + window_size + 1
        invariant
            i + 1 <= j <= i + window_size + 1,
            i + window_size < sequence@.len(),
            sequence@.len() == len,
            window_size <= i,
            context@ == sequence@.subrange(i - window_size, i as int) + sequence@.subrange(
                i + 1,
                j as int,
            ),
        decreases i + window_size + 1 - j,
    {
        context.push(sequence[j]);
        proof {
            assert(sequence@.subrange(i + 1, j + 1) =~= sequence@.subrange(i + 1, j as int).push(
                sequence@[j as int],
            ));
            assert(context@ =~= sequence@.subrange(i - window_size, i as int) + sequence@.subrange(
                i + 1,
                j + 1,
            ));
        }
        j += 1;
    }
    context
}

/// The batches for a model that predicts a node from the nodes around it:
/// for every sequence and every place of it that has `window_size` nodes on
/// either side, the nodes around the place and the node at it. A sequence
/// that is too short for one such place is refused.
pub fn word2vec(sequences: &Vec<Vec<NodeT>>, window_size: usize) -> (r: Result<
    Vec<(Vec<NodeT>, NodeT)>,
    GraphError,
>)
    ensures
        r is Ok <==> long_enough(views(sequences@), window_size as int),
        r is Err ==> r->Err_0 == GraphError::InvalidParameter,
        r matches Ok(batches) ==> batches_view(batches@) == all_contexts(
            views(sequences@),
            window_size as int,
            sequences@.len() as int,
        ),
{
    let mut batches: Vec<(Vec<NodeT>, NodeT)> = Vec::new();
    let mut s: usize = 0;
    while s < sequences.len()
        invariant
            s <= sequences@.len(),
            forall|k: int|
                0 <= k < s ==> (#[trigger] views(sequences@)[k]).len() >= 2 * window_size + 1,
            batches_view(batches@) == all_contexts(views(sequences@), window_size as int, s as int),
        decreases sequences@.len() - s,
    {
        let sequence = &sequences[s];
        let len = sequence.len();
        if len < window_size || len - window_size <= window_size {
            proof {
                assert(views(sequences@)[s as int].len() < 2 * window_size + 1);
            }
            return Err(GraphError::InvalidParameter);
        }
        let ghost before = batches_view(batches@);
        proof {
            assert(views(sequences@)[s as int] == sequence@);
        }
        let last = len - window_size;
        let mut i: usize = window_size;
        while i < last
            invariant
                window_size <= i <= last,
                last == len - window_size,
                len == sequence@.len(),
                len >= 2 * window_size + 1,
                batches_view(batches@) == before + contexts_of(
                    sequence@,
                    window_size as int,
                ).take(i - window_size),
            decreases last - i,
        {
            let context = window_of(sequence, window_size, i);
            let ghost earlier = batches_view(batches@);
            batches.push((context, sequence[i]));
            proof {
                let all = contexts_of(sequence@, window_size as int);
                assert(all.take(i - window_size + 1) =~= all.take(i - window_size).push(
                    all[i - window_size],
                ));
                assert(batches_view(batches@) =~= earlier.push(
                    (context@, sequence@[i as int]),
                ));
                assert(batches_view(batches@) =~= before + all.take(i - window_size + 1));
            }
            i += 1;
        }
        proof {
            let all = contexts_of(sequence@, window_size as int);
            assert(all.take(last - window_size) =~= all);
        }
        s += 1;
    }
    Ok(batches)
}

} // verus!

verus! {

/// Two nodes found `distance` places apart in a sequence, the one with the
/// smaller number first.
#[derive(Clone, Copy, Debug, PartialEq, Eq, Structural)]
pub struct Cooccurrence {
    pub word: NodeT,
    pub context: NodeT,
    pub distance: usize,
}

/// The co-occurrence of the node at place `i` with the node `d` places on.
pub open spec fn pair_event(sequence: Seq<NodeT>, i: int, d: int) -> Cooccurrence {
    let a = sequence[i];
    let b = sequence[i + d];
    if a < b {
        Cooccurrence { word: a, context: b, distance: d as usize }
    } else {
        Cooccurrence { word: b, context: a, distance: d as usize }
    }
}

/// How far the window of place `i` reaches in a sequence of `len` nodes.
pub open spec fn reach(len: int, w: int, i: int) -> int {
    if w < len - 1 - i {
        w
    } else {
        len - 1 - i
    }
}

/// The co-occurrences of place `i` with the places up to `d` further on.
pub open spec fn place_events(sequence: Seq<NodeT>, i: int, d: int) -> Seq<Cooccurrence>
    decreases d,
{
    if d <= 0 {
        Seq::empty()
    } else {
        place_events(sequence, i, d - 1).push(pair_event(sequence, i, d))
    }
}

/// The co-occurrences of the first `k` places of a sequence within windows
/// of `w` places.
pub open spec fn sequence_events(sequence: Seq<NodeT>, w: int, k: int) -> Seq<Cooccurrence>
    decreases k,
{
    if k <= 0 {
        Seq::empty()
    } else {
        sequence_events(sequence, w, k - 1) + place_events(
            sequence,
            k - 1,
            reach(sequence.len() as int, w, k - 1),
        )
    }
}

/// The co-occurrences of the first `k` sequences.
pub open spec fn all_events(sequences: Seq<Seq<NodeT>>, w: int, k: int) -> Seq<Cooccurrence>
    decreases k,
{
    if k <= 0 {
        Seq::empty()
    } else {
        all_events(sequences, w, k - 1) + sequence_events(
            sequences[k - 1],
            w,
            sequences[k - 1].len() as int,
        )
    }
}

/// How many of `events` are `e`.
pub open spec fn occurrences(events: Seq<Cooccurrence>, e: Cooccurrence) -> nat
    decreases events.len(),
{
    if events.len() == 0 {
        0
    } else {
        occurrences(events.drop_last(), e) + if events.last() == e {
            1nat
        } else {
            0nat
        }
    }
}

/// Lists the co-occurrences of all sequences within windows of
/// `window_size` places, in the order of the sequences, of the places and of
/// the distances.
pub fn cooccurrences(sequences: &Vec<Vec<NodeT>>, window_size: usize) -> (events: Vec<Cooccurrence>)
    ensures
        events@ == all_events(views(sequences@), window_size as int, sequences@.len() as int),
        forall|j: int|
            0 <= j < events@.len() ==> (#[trigger] events@[j]).word <= events@[j].context && 1
                <= events@[j].distance <= window_size,
{
    let mut events: Vec<Cooccurrence> = Vec::new();
    let mut s: usize = 0;
    while s < sequences.len()
        invariant
            s <= sequences@.len(),
            events@ == all_events(views(sequences@), window_size as int, s as int),
            forall|j: int|
                0 <= j < events@.len() ==> (#[trigger] events@[j]).word <= events@[j].context && 1
                    <= events@[j].distance <= window_size,
        decreases sequences@.len() - s,
    {
        let sequence = &sequences[s];
        let len = sequence.len();
        let ghost before = events@;
        proof {
            assert(views(sequences@)[s as int] == sequence@);
        }
        let mut i: usize = 0;
        while i < len
            invariant
                i <= len,
                len == sequence@.len(),
                events@ == before + sequence_events(sequence@, window_size as int, i as int),
                forall|j: int|
                    0 <= j < events@.len() ==> (#[trigger] events@[j]).word <= events@[j].context
                        && 1 <= events@[j].distance <= window_size,
            decreases len - i,
        {
            let far = if window_size < len - 1 - i {
                window_size
            } else {
                len - 1 - i
            };
            let ghost earlier = events@;
            let mut d: usize = 1;
            while d <= far
                invariant
                    1 <= d <= far + 1,
                    i < len,
                    far <= len - 1 - i,
                    far <= window_size,
                    len == sequence@.len(),
                    events@ == earlier + place_events(sequence@, i as int, d - 1),
                    forall|j: int|
                        0 <= j < events@.len() ==> (#[trigger] events@[j]).word
                            <= events@[j].context && 1 <= events@[j].distance <= window_size,
                decreases far + 1 - d,
            {
                let a = sequence[i];
                let b = sequence[i + d];
                let event = if a < b {
                    Cooccurrence { word: a, context: b, distance: d }
                } else {
                    Cooccurrence { word: b, context: a, distance: d }
                };
                let ghost now = events@;
                events.push(event);
                proof {
                    assert(events@ =~= earlier + place_events(sequence@, i as int, d as int));
                    assert forall|j: int| 0 <= j < events@.len() implies (#[trigger] events@[j]).word
                        <= events@[j].context && 1 <= events@[j].distance <= window_size by {
                        if j < now.len() {
                            assert(events@[j] == now[j]);
                        }
                    }
                }
                d += 1;
            }
            proof {
                assert(events@ =~= before + sequence_events(sequence@, window_size as int, i + 1));
            }
            i += 1;
        }
        s += 1;
    }
    events
}

} // verus!

verus! {

/// No more of the events are `e` than there are events.
proof fn lemma_occurrences_bound(events: Seq<Cooccurrence>, e: Cooccurrence)
    ensures
        occurrences(events, e) <= events.len(),
    decreases events.len(),
{
    if events.len() > 0 {
        lemma_occurrences_bound(events.drop_last(), e);
    }
}

/// Where some of the events are `e`, one of them can be shown.
proof fn lemma_occurrences_witness(events: Seq<Cooccurrence>, e: Cooccurrence)
    ensures
        occurrences(events, e) > 0 ==> events.contains(e),
    decreases events.len(),
{
    if events.len() > 0 {
        let front = events.drop_last();
        lemma_occurrences_witness(front, e);
        if occurrences(events, e) > 0 {
            if events.last() == e {
                assert(events[events.len() - 1] == e);
            } else {
                let j = choose|j: int| 0 <= j < front.len() && front[j] == e;
                assert(events[j] == e);
            }
        }
    }
}

/// Counting over a prefix extended by one event.
proof fn lemma_occurrences_step(events: Seq<Cooccurrence>, k: int, e: Cooccurrence)
    requires
        0 <= k < events.len(),
    ensures
        occurrences(events.take(k + 1), e) == occurrences(events.take(k), e) + (if events[k] == e {
            1nat
        } else {
            0nat
        }),
{
    assert(events.take(k + 1).drop_last() =~= events.take(k));
}

/// The key under which a pair of nodes is looked up.
pub open spec fn pair_key(word: NodeT, context: NodeT) -> u64 {
    (word as int * 0x1_0000_0000 + context as int) as u64
}

/// Different pairs have different keys.
proof fn lemma_pair_key(a: NodeT, b: NodeT, c: NodeT, d: NodeT)
    ensures
        pair_key(a, b) == pair_key(c, d) <==> (a == c && b == d),
{
    crate::encoding::lemma_decode_encode(a as int, b as int, 0x1_0000_0000);
    crate::encoding::lemma_decode_encode(c as int, d as int, 0x1_0000_0000);
}

/// The co-occurrence matrix of a set of sequences in coordinate form: entry
/// `j` says that `words[j]` and `contexts[j]` were found together, and
/// `frequencies[j][d - 1]` how often they were found `d` places apart. Every
/// pair of nodes takes two entries, one each way round.
pub struct CooccurrenceMatrix {
    pub words: Vec<NodeT>,
    pub contexts: Vec<NodeT>,
    pub frequencies: Vec<Vec<usize>>,
}

/// The pairs of nodes of `events`, each once, in the order in which they
/// are first found.
pub open spec fn pairs_in_order(events: Seq<Cooccurrence>) -> Seq<(NodeT, NodeT)>
    decreases events.len(),
{
    if events.len() == 0 {
        Seq::empty()
    } else {
        let front = pairs_in_order(events.drop_last());
        if front.contains(pair_of(events.last())) {
            front
        } else {
            front.push(pair_of(events.last()))
        }
    }
}

/// How often `pair` is found `d` places apart among `events`.
pub open spec fn pair_count(events: Seq<Cooccurrence>, pair: (NodeT, NodeT), d: int) -> nat {
    occurrences(events, Cooccurrence { word: pair.0, context: pair.1, distance: d as usize })
}

/// Whether `pairs` and `counts` sum up `events`: the pairs are those of the
/// events, each once, and the counts say how often each pair was found at
/// each distance.
pub open spec fn sums_up(
    pairs: Seq<(NodeT, NodeT)>,
    counts: Seq<Vec<usize>>,
    events: Seq<Cooccurrence>,
    w: int,
) -> bool {
    &&& pairs.len() == counts.len()
    &&& pairs == pairs_in_order(events)
    &&& forall|k: int| 0 <= k < counts.len() ==> (#[trigger] counts[k])@.len() == w
    &&& forall|k: int, d: int|
        0 <= k < counts.len() && 1 <= d <= w ==> counts[k]@[d - 1] == #[trigger] pair_count(
            events,
            pairs[k],
            d,
        )
    &&& forall|a: int, b: int| 0 <= a < b < pairs.len() ==> #[trigger] pairs[a] != #[trigger] pairs[b]
    &&& forall|j: int| 0 <= j < events.len() ==> pairs.contains(pair_of(#[trigger] events[j]))
    &&& forall|k: int| 0 <= k < pairs.len() ==> found(events, #[trigger] pairs[k])
}

/// A vector of `len` zeros.
fn zeros(len: usize) -> (v: Vec<usize>)
    ensures
        v@.len() == len,
        forall|i: int| 0 <= i < len ==> v@[i] == 0,
{
    let mut v: Vec<usize> = Vec::new();
    let mut i: usize = 0;
    while i < len
        invariant
            i <= len,
            v@.len() == i,
            forall|j: int| 0 <= j < i ==> v@[j] == 0,
        decreases len - i,
    {
        v.push(0);
        i += 1;
    }
    v
}

/// Adds one to the count of pair `k` at distance `d`.
fn count_one(counts: &mut Vec<Vec<usize>>, k: usize, d: usize)
    requires
        k < old(counts)@.len(),
        1 <= d <= old(counts)@[k as int]@.len(),
        old(counts)@[k as int]@[d - 1] < usize::MAX,
    ensures
        final(counts)@.len() == old(counts)@.len(),
        final(counts)@[k as int]@ == old(counts)@[k as int]@.update(
            d - 1,
            (old(counts)@[k as int]@[d - 1] + 1) as usize,
        ),
        forall|j: int|
            0 <= j < old(counts)@.len() && j != k ==> final(counts)@[j] == old(counts)@[j],
{
    let value = counts[k][d - 1];
    counts[k].set(d - 1, value + 1);
}

/// Sums up a list of co-occurrences: the pairs of nodes in the order in
/// which they are first found, and for each pair how often it was found at
/// each distance up to `window_size`.
pub fn sum_cooccurrences(events: &Vec<Cooccurrence>, window_size: usize) -> (r: (
    Vec<(NodeT, NodeT)>,
    Vec<Vec<usize>>,
))
    requires
        forall|j: int|
            0 <= j < events@.len() ==> 1 <= (#[trigger] events@[j]).distance <= window_size,
    ensures
        sums_up(r.0@, r.1@, events@, window_size as int),
{
    broadcast use vstd::std_specs::hash::group_hash_axioms;

    let mut pairs: Vec<(NodeT, NodeT)> = Vec::new();
    let mut counts: Vec<Vec<usize>> = Vec::new();
    let mut index: std::collections::HashMap<u64, usize> = std::collections::HashMap::new();
    let mut i: usize = 0;
    proof {
        assert(events@.take(0) =~= Seq::<Cooccurrence>::empty());
    }
    while i < events.len()
        invariant
            i <= events@.len(),
            forall|j: int|
                0 <= j < events@.len() ==> 1 <= (#[trigger] events@[j]).distance <= window_size,
            sums_up(pairs@, counts@, events@.take(i as int), window_size as int),
            forall|k: int|
                0 <= k < pairs@.len() ==> index@.contains_key(
                    pair_key((#[trigger] pairs@[k]).0, pairs@[k].1),
                ) && index@[pair_key(pairs@[k].0, pairs@[k].1)] == k,
            forall|key: u64| #[trigger]
                index@.contains_key(key) ==> index@[key] < pairs@.len() && key == pair_key(
                    pairs@[index@[key] as int].0,
                    pairs@[index@[key] as int].1,
                ),
        decreases events@.len() - i,
    {
        let event = events[i];
        let key: u64 = event.word as u64 * 0x1_0000_0000 + event.context as u64;
        let ghost seen = events@.take(i as int);
        let ghost next = events@.take(i + 1);
        let ghost old_pairs = pairs@;
        let ghost old_counts = counts@;
        let known = match index.get(&key) {
            Some(k) => Some(*k),
            None => None,
        };
        let k: usize = match known {
            Some(k) => k,
            None => {
                let k = pairs.len();
                pairs.push((event.word, event.context));
                counts.push(zeros(window_size));
                index.insert(key, k);
                proof {
                    assert forall|a: int, b: int| 0 <= a < b < pairs@.len() implies #[trigger] pairs@[a]
                        != #[trigger] pairs@[b] by {
                        if b == k {
                            if old_pairs[a] == (event.word, event.context) {
                                assert(index@.contains_key(pair_key(old_pairs[a].0, old_pairs[a].1)));
                            }
                        } else {
                            assert(old_pairs[a] != old_pairs[b]);
                        }
                    }
                    assert forall|q: int|
                        0 <= q < pairs@.len() implies index@.contains_key(
                        pair_key((#[trigger] pairs@[q]).0, pairs@[q].1),
                    ) && index@[pair_key(pairs@[q].0, pairs@[q].1)] == q by {
                        if q < k {
                            assert(pairs@[q] == old_pairs[q]);
                            lemma_pair_key(pairs@[q].0, pairs@[q].1, event.word, event.context);
                        }
                    }
                    assert forall|d: int| 1 <= d <= window_size implies #[trigger] pair_count(
                        seen,
                        (event.word, event.context),
                        d,
                    ) == 0 by {
                        let x = Cooccurrence {
                            word: event.word,
                            context: event.context,
                            distance: d as usize,
                        };
                        lemma_occurrences_witness(seen, x);
                        if seen.contains(x) {
                            let j = choose|j: int| 0 <= j < seen.len() && seen[j] == x;
                            assert(old_pairs.contains(pair_of(seen[j])));
                            let q = choose|q: int|
                                0 <= q < old_pairs.len() && old_pairs[q] == (
                                    event.word,
                                    event.context,
                                );
                            assert(false);
                        }
                    }
                }
                k
            },
        };
        let ghost mid_counts = counts@;
        proof {
            let x = Cooccurrence {
                word: event.word,
                context: event.context,
                distance: event.distance,
            };
            lemma_occurrences_bound(seen, x);
            assert(pairs@[k as int] == (event.word, event.context));
            assert(next.drop_last() =~= seen);
            assert(next.last() == event);
            if known is Some {
                assert(index@.contains_key(key));
                assert(old_pairs[k as int] == pair_of(event));
            } else {
                if old_pairs.contains(pair_of(event)) {
                    let q = choose|q: int| 0 <= q < old_pairs.len() && old_pairs[q] == pair_of(event);
                    assert(index@.contains_key(pair_key(old_pairs[q].0, old_pairs[q].1)));
                }
            }
            assert(pairs@ == pairs_in_order(next));
            if k < old_pairs.len() {
                assert(old_counts[k as int]@[event.distance - 1] == pair_count(
                    seen,
                    old_pairs[k as int],
                    event.distance as int,
                ));
            }
        }
        count_one(&mut counts, k, event.distance);
        proof {
            assert forall|q: int, d: int|
                0 <= q < counts@.len() && 1 <= d <= window_size implies counts@[q]@[d - 1]
                == #[trigger] pair_count(next, pairs@[q], d) by {
                let x = Cooccurrence {
                    word: pairs@[q].0,
                    context: pairs@[q].1,
                    distance: d as usize,
                };
                lemma_occurrences_step(events@, i as int, x);
                if q < old_pairs.len() {
                    assert(pairs@[q] == old_pairs[q]);
                    assert(mid_counts[q]@[d - 1] == old_counts[q]@[d - 1]);
                    assert(old_counts[q]@[d - 1] == pair_count(seen, old_pairs[q], d));
                } else {
                    assert(pair_count(seen, (event.word, event.context), d) == 0);
                }
                if q != k {
                    assert(pairs@[q] != pairs@[k as int]);
                }
            }
            assert forall|j: int| 0 <= j < next.len() implies pairs@.contains(
                pair_of(#[trigger] next[j]),
            ) by {
                if j < i {
                    assert(next[j] == seen[j]);
                    assert(old_pairs.contains(pair_of(seen[j])));
                    let q = choose|q: int|
                        0 <= q < old_pairs.len() && old_pairs[q] == pair_of(seen[j]);
                    assert(pairs@[q] == old_pairs[q]);
                } else {
                    assert(pairs@[k as int] == pair_of(next[j]));
                }
            }
            assert forall|q: int| 0 <= q < pairs@.len() implies found(next, #[trigger] pairs@[q]) by {
                if q < old_pairs.len() {
                    assert(pairs@[q] == old_pairs[q]);
                    assert(found(seen, old_pairs[q]));
                    let j = choose|j: int|
                        0 <= j < seen.len() && pair_of(#[trigger] seen[j]) == old_pairs[q];
                    assert(next[j] == seen[j]);
                    assert(pair_of(next[j]) == pairs@[q]);
                } else {
                    assert(pair_of(next[i as int]) == pairs@[q]);
                }
            }
        }
        i += 1;
    }
    proof {
        assert(events@.take(i as int) =~= events@);
    }
    (pairs, counts)
}

} // verus!

verus! {

/// A copy of a list of counts.
fn copy_counts(counts: &Vec<usize>) -> (copy: Vec<usize>)
    ensures
        copy@ == counts@,
{
    let mut copy: Vec<usize> = Vec::new();
    let mut i: usize = 0;
    while i < counts.len()
        invariant
            i <= counts@.len(),
            copy@.len() == i,
            forall|k: int| 0 <= k < i ==> copy@[k] == counts@[k],
        decreases counts@.len() - i,
    {
        copy.push(counts[i]);
        i += 1;
    }
    proof {
        assert(copy@ =~= counts@);
    }
    copy
}

impl CooccurrenceMatrix {
    /// The number of pairs of nodes of the matrix.
    pub open spec fn pairs(&self) -> nat {
        (self.words@.len() / 2) as nat
    }

    /// Whether the matrix is symmetric: its entries come in twos, the two
    /// of a pair holding the same nodes the other way round and the same
    /// frequencies, the first with the smaller node as its word.
    pub open spec fn symmetric(&self) -> bool {
        &&& self.words@.len() == 2 * self.pairs()
        &&& self.contexts@.len() == 2 * self.pairs()
        &&& self.frequencies@.len() == 2 * self.pairs()
        &&& forall|k: int| 0 <= k < self.pairs() ==> #[trigger] self.mirrored_at(k)
    }

    /// Whether the entries `2 * k` and `2 * k + 1` hold the same two nodes
    /// the other way round, with the same frequencies, the first with the
    /// smaller node as its word.
    pub open spec fn mirrored_at(&self, k: int) -> bool {
        &&& self.words@[2 * k] == self.contexts@[2 * k + 1]
        &&& self.contexts@[2 * k] == self.words@[2 * k + 1]
        &&& self.words@[2 * k] <= self.contexts@[2 * k]
        &&& self.frequencies@[2 * k]@ == self.frequencies@[2 * k + 1]@
    }

    /// The pair of nodes of entries `2 * k` and `2 * k + 1`, the smaller
    /// node first.
    pub open spec fn pair_at(&self, k: int) -> (NodeT, NodeT) {
        (self.words@[2 * k], self.contexts@[2 * k])
    }

    /// Whether the matrix has entries for `pair`.
    pub open spec fn holds_pair(&self, pair: (NodeT, NodeT)) -> bool {
        exists|k: int| 0 <= k < self.pairs() && #[trigger] self.pair_at(k) == pair
    }

    /// Whether the matrix counts `events` within windows of `w` places:
    /// every pair of nodes that was found together has its two entries and
    /// no pair has more, and the frequencies of a pair say how often it was
    /// found at each distance.
    pub open spec fn counts_events(&self, events: Seq<Cooccurrence>, w: int) -> bool {
        &&& forall|k: int|
            0 <= k < self.pairs() ==> (#[trigger] self.frequencies@[2 * k])@.len() == w
        &&& forall|k: int, d: int|
            0 <= k < self.pairs() && 1 <= d <= w ==> self.frequencies@[2 * k]@[d - 1]
                == #[trigger] pair_count(events, self.pair_at(k), d)
        &&& forall|a: int, b: int|
            0 <= a < b < self.pairs() ==> #[trigger] self.pair_at(a) != #[trigger] self.pair_at(b)
        &&& forall|j: int| 0 <= j < events.len() ==> self.holds_pair(pair_of(#[trigger] events[j]))
        &&& forall|k: int| 0 <= k < self.pairs() ==> found(events, #[trigger] self.pair_at(k))
        &&& self.pairs() == pairs_in_order(events).len()
        &&& forall|k: int|
            0 <= k < self.pairs() ==> #[trigger] self.pair_at(k) == pairs_in_order(events)[k]
    }
}

/// The two nodes of a co-occurrence.
pub open spec fn pair_of(e: Cooccurrence) -> (NodeT, NodeT) {
    (e.word, e.context)
}

/// Whether `pair` is found among `events`.
pub open spec fn found(events: Seq<Cooccurrence>, pair: (NodeT, NodeT)) -> bool {
    exists|j: int| 0 <= j < events.len() && pair_of(#[trigger] events[j]) == pair
}

/// Whether the entries `2 * q` and `2 * q + 1` of the three columns hold pair
/// `q` both ways round, with its counts.
pub open spec fn entries_hold(
    words: Seq<NodeT>,
    contexts: Seq<NodeT>,
    frequencies: Seq<Vec<usize>>,
    pairs: Seq<(NodeT, NodeT)>,
    counts: Seq<Vec<usize>>,
    q: int,
) -> bool {
    &&& words[2 * q] == pairs[q].0
    &&& contexts[2 * q] == pairs[q].1
    &&& words[2 * q + 1] == pairs[q].1
    &&& contexts[2 * q + 1] == pairs[q].0
    &&& frequencies[2 * q]@ == counts[q]@
    &&& frequencies[2 * q + 1]@ == counts[q]@
}

/// The co-occurrence matrix of `sequences` within windows of `window_size`
/// places, in coordinate form. The pairs of nodes come in the order in which
/// they are first found. The frequencies are counts by distance; weighing
/// each count by the inverse of its distance and scaling by the largest sum
/// is left to the caller.
pub fn cooccurence_matrix(sequences: &Vec<Vec<NodeT>>, window_size: usize) -> (matrix:
    CooccurrenceMatrix)
    ensures
        matrix.symmetric(),
        matrix.counts_events(
            all_events(views(sequences@), window_size as int, sequences@.len() as int),
            window_size as int,
        ),
{
    let events = cooccurrences(sequences, window_size);
    let (pairs, counts) = sum_cooccurrences(&events, window_size);
    let mut words: Vec<NodeT> = Vec::new();
    let mut contexts: Vec<NodeT> = Vec::new();
    let mut frequencies: Vec<Vec<usize>> = Vec::new();
    proof {
        assert forall|k: int| 0 <= k < pairs@.len() implies (#[trigger] pairs@[k]).0 <= pairs@[k].1 by {
            assert(found(events@, pairs@[k]));
            let j = choose|j: int|
                0 <= j < events@.len() && pair_of(#[trigger] events@[j]) == pairs@[k];
            assert(events@[j].word <= events@[j].context);
        }
    }
    let mut k: usize = 0;
    while k < pairs.len()
        invariant
            k <= pairs@.len(),
            pairs@.len() == counts@.len(),
            forall|q: int| 0 <= q < pairs@.len() ==> (#[trigger] pairs@[q]).0 <= pairs@[q].1,
            words@.len() == 2 * k,
            contexts@.len() == 2 * k,
            frequencies@.len() == 2 * k,
            forall|q: int|
                0 <= q < k ==> #[trigger] entries_hold(
                    words@,
                    contexts@,
                    frequencies@,
                    pairs@,
                    counts@,
                    q,
                ),
        decreases pairs@.len() - k,
    {
        let (word, context) = pairs[k];
        let ghost before = (words@, contexts@, frequencies@);
        words.push(word);
        words.push(context);
        contexts.push(context);
        contexts.push(word);
        frequencies.push(copy_counts(&counts[k]));
        frequencies.push(copy_counts(&counts[k]));
        proof {
            assert forall|q: int| 0 <= q < k + 1 implies #[trigger] entries_hold(
                words@,
                contexts@,
                frequencies@,
                pairs@,
                counts@,
                q,
            ) by {
                if q < k {
                    assert(entries_hold(before.0, before.1, before.2, pairs@, counts@, q));
                    assert(words@[2 * q] == before.0[2 * q]);
                    assert(words@[2 * q + 1] == before.0[2 * q + 1]);
                    assert(contexts@[2 * q] == before.1[2 * q]);
                    assert(contexts@[2 * q + 1] == before.1[2 * q + 1]);
                    assert(frequencies@[2 * q] == before.2[2 * q]);
                    assert(frequencies@[2 * q + 1] == before.2[2 * q + 1]);
                }
            }
        }
        k += 1;
    }
    let matrix = CooccurrenceMatrix { words, contexts, frequencies };
    proof {
        let ev = events@;
        let w = window_size as int;
        assert(matrix.pairs() == pairs@.len());
        assert forall|q: int| 0 <= q < matrix.pairs() implies #[trigger] matrix.pair_at(q)
            == pairs@[q] && matrix.mirrored_at(q) && matrix.frequencies@[2 * q]@ == counts@[q]@ by {
            assert(entries_hold(
                matrix.words@,
                matrix.contexts@,
                matrix.frequencies@,
                pairs@,
                counts@,
                q,
            ));
            assert(pairs@[q].0 <= pairs@[q].1);
        }
        assert forall|q: int| 0 <= q < matrix.pairs() implies #[trigger] matrix.mirrored_at(q) by {
            assert(matrix.pair_at(q) == pairs@[q]);
        }
        assert(matrix.words@.len() == 2 * matrix.pairs());
        assert(matrix.symmetric());
        assert forall|q: int, d: int|
            0 <= q < matrix.pairs() && 1 <= d <= w implies matrix.frequencies@[2 * q]@[d - 1]
            == #[trigger] pair_count(ev, matrix.pair_at(q), d) by {
            assert(matrix.pair_at(q) == pairs@[q]);
            assert(counts@[q]@[d - 1] == pair_count(ev, pairs@[q], d));
        }
        assert forall|a: int, b: int| 0 <= a < b < matrix.pairs() implies #[trigger] matrix.pair_at(
            a,
        ) != #[trigger] matrix.pair_at(b) by {
            assert(pairs@[a] != pairs@[b]);
        }
        assert forall|j: int| 0 <= j < ev.len() implies matrix.holds_pair(
            pair_of(#[trigger] ev[j]),
        ) by {
            assert(pairs@.contains(pair_of(ev[j])));
            let q = choose|q: int| 0 <= q < pairs@.len() && pairs@[q] == pair_of(ev[j]);
            assert(matrix.pair_at(q) == pair_of(ev[j]));
        }
        assert forall|q: int| 0 <= q < matrix.pairs() implies found(
            ev,
            #[trigger] matrix.pair_at(q),
        ) by {
            assert(matrix.pair_at(q) == pairs@[q]);
            assert(found(ev, pairs@[q]));
        }
        assert forall|q: int| 0 <= q < matrix.pairs() implies (#[trigger] matrix.frequencies@[2
            * q])@.len() == w by {
            assert(matrix.pair_at(q) == pairs@[q]);
            assert(counts@[q]@.len() == w);
        }
    }
    matrix
}

} // verus!

verus! {

impl Graph {
    /// The walks of a run that needs no weighing, as they are shown.
    pub open spec fn uniform_walks(&self, quantity: int, parameters: &WalksParameters, random: bool) -> Seq<
        Seq<NodeT>,
    > {
        Seq::new(
            (quantity * parameters.iterations) as nat,
            |i: int|
                Self::shown_walk(
                    parameters,
                    self.uniform_walk_spec(
                        self.walk_start(i, quantity, parameters.random_state, random).node,
                        self.walk_start(i, quantity, parameters.random_state, random).random_state,
                        parameters.single_walk_parameters.length as int,
                    ),
                ),
        )
    }

    /// Makes a run of walks that needs no weighing; see `walks`.
    fn run_walks(&self, quantity: NodeT, parameters: &WalksParameters, random: bool) -> (r: Result<
        Option<Vec<Vec<NodeT>>>,
        GraphError,
    >)
        requires
            self.wf(),
        ensures
            r is Err <==> self.walk_failure(quantity, parameters) is Some,
            r matches Err(e) ==> self.walk_failure(quantity, parameters) == Some(e),
            r matches Ok(w) ==> (w is Some <==> self.walks_uniformly(parameters)),
            r matches Ok(Some(walks)) ==> views(walks@) == self.uniform_walks(
                quantity as int,
                parameters,
                random,
            ),
    {
        let starts = match self.walk_iter(quantity, parameters, random) {
            Err(e) => {
                return Err(e);
            },
            Ok(starts) => starts,
        };
        let walks = self.walks(&starts, parameters);
        proof {
            if walks is Some {
                assert(views(walks->Some_0@) =~= self.uniform_walks(
                    quantity as int,
                    parameters,
                    random,
                ));
            }
        }
        Ok(walks)
    }

    /// The batches for a model that predicts a node from the nodes around
    /// it, from a run of `quantity` walks from random sources. Nothing is
    /// returned for a run that needs weighing: its walks are for the caller
    /// to make and to hand to `word2vec`.
    pub fn node2vec(&self, walk_parameters: &WalksParameters, quantity: NodeT, window_size: usize) -> (r:
        Result<Option<Vec<(Vec<NodeT>, NodeT)>>, GraphError>)
        requires
            self.wf(),
        ensures
            self.walk_failure(quantity, walk_parameters) matches Some(e) ==> r == Err::<
                Option<Vec<(Vec<NodeT>, NodeT)>>,
                GraphError,
            >(e),
            self.walk_failure(quantity, walk_parameters) is None && !self.walks_uniformly(
                walk_parameters,
            ) ==> r matches Ok(None),
            self.walk_failure(quantity, walk_parameters) is None && self.walks_uniformly(
                walk_parameters,
            ) ==> {
                let walks = self.uniform_walks(quantity as int, walk_parameters, true);
                &&& r is Ok <==> long_enough(walks, window_size as int)
                &&& r is Err ==> r->Err_0 == GraphError::InvalidParameter
                &&& r matches Ok(batches) ==> batches matches Some(b) && batches_view(b@)
                    == all_contexts(walks, window_size as int, walks.len() as int)
            },
    {
        match self.run_walks(quantity, walk_parameters, true) {
            Err(e) => Err(e),
            Ok(None) => Ok(None),
            Ok(Some(walks)) => match word2vec(&walks, window_size) {
                Err(e) => Err(e),
                Ok(batches) => Ok(Some(batches)),
            },
        }
    }

    /// The co-occurrence matrix of a run of one walk from every source that
    /// has edges. Nothing is returned for a run that needs weighing: its
    /// walks are for the caller to make and to hand to `cooccurence_matrix`.
    pub fn cooccurence_matrix(&self, walks_parameters: &WalksParameters, window_size: usize) -> (r: Result<
        Option<CooccurrenceMatrix>,
        GraphError,
    >)
        requires
            self.wf(),
        ensures
            r is Err <==> self.walk_failure(self.unique_sources@.len() as NodeT, walks_parameters)
                is Some,
            r matches Err(e) ==> self.walk_failure(
                self.unique_sources@.len() as NodeT,
                walks_parameters,
            ) == Some(e),
            r matches Ok(m) ==> (m is Some <==> self.walks_uniformly(walks_parameters)),
            r matches Ok(Some(matrix)) ==> {
                let walks = self.uniform_walks(
                    self.unique_sources@.len() as int,
                    walks_parameters,
                    false,
                );
                matrix.symmetric() && matrix.counts_events(
                    all_events(walks, window_size as int, walks.len() as int),
                    window_size as int,
                )
            },
    {
        proof {
            self.lemma_sources_fit();
        }
        match self.run_walks(self.unique_sources.len() as NodeT, walks_parameters, false) {
            Err(e) => Err(e),
            Ok(None) => Ok(None),
            Ok(Some(walks)) => Ok(Some(cooccurence_matrix(&walks, window_size))),
        }
    }
}

} // verus!

verus! {

impl Graph {
    /// Makes a complete run of walks: one walk from every source that has
    /// edges, as often as the parameters say. Nothing is returned for a run
    /// that needs weighing: its walks are for the caller to make step by
    /// step.
    pub fn walk(&self, parameters: &WalksParameters) -> (r: Result<Option<Vec<Vec<NodeT>>>, GraphError>)
        requires
            self.wf(),
        ensures
            r is Err <==> self.walk_failure(self.unique_sources@.len() as NodeT, parameters)
                is Some,
            r matches Err(e) ==> self.walk_failure(self.unique_sources@.len() as NodeT, parameters)
                == Some(e),
            r matches Ok(w) ==> (w is Some <==> self.walks_uniformly(parameters)),
            r matches Ok(Some(walks)) ==> views(walks@) == self.uniform_walks(
                self.unique_sources@.len() as int,
                parameters,
                false,
            ),
    {
        proof {
            self.lemma_sources_fit();
        }
        self.run_walks(self.unique_sources.len() as NodeT, parameters, false)
    }
}

} // verus!
