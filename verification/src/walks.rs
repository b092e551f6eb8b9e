//! Random walks: which of the edges that leave a node a step may take, how
//! the second-order biases fall on them, and the walks themselves.

use vstd::prelude::*;
use vstd::slice::*;
use crate::errors::GraphError;
use crate::graph::Graph;
use crate::types::{EdgeT, NodeT, WeightT};
use crate::walks_parameters::{SingleWalkParameters, WalkWeights, WalksParameters, WEIGHT_ONE};

verus! {

/// How the return and explore weights fall on a candidate destination.
#[derive(Clone, Copy, Debug, PartialEq, Eq, Structural)]
pub enum Bias {
    /// The candidate is the node the walk came from, or the node it is at:
    /// the return weight applies.
    Return,
    /// The candidate is no neighbour of the node the walk came from: the
    /// explore weight applies.
    Explore,
    /// Neither weight applies.
    Unchanged,
}

/// Whether `nodes` never decreases.
pub open spec fn ascending(nodes: Seq<NodeT>) -> bool {
    forall|i: int, j: int| 0 <= i <= j < nodes.len() ==> nodes[i] <= nodes[j]
}

/// Whether the return weight applies to candidate `v` of a step from `dst`
/// that came from `src`.
pub open spec fn is_return(v: NodeT, src: NodeT, dst: NodeT) -> bool {
    v == src || v == dst
}

/// Whether the explore weight applies to candidate `v`: it is neither end of
/// the step before and no neighbour of the node the walk came from.
pub open spec fn is_explore(v: NodeT, previous: Seq<NodeT>, src: NodeT, dst: NodeT) -> bool {
    !previous.contains(v) && v != src && v != dst
}

/// The bias on candidate `v` where both weights are in use.
pub open spec fn bias_of(v: NodeT, previous: Seq<NodeT>, src: NodeT, dst: NodeT) -> Bias {
    if is_return(v, src, dst) {
        Bias::Return
    } else if !previous.contains(v) {
        Bias::Explore
    } else {
        Bias::Unchanged
    }
}

/// For every candidate, whether it is one of `previous`: one pass over the
/// two ascending lists side by side.
fn among(destinations: &[NodeT], previous: &[NodeT]) -> (found: Vec<bool>)
    requires
        ascending(destinations@),
        ascending(previous@),
    ensures
        found@.len() == destinations@.len(),
        forall|i: int|
            0 <= i < destinations@.len() ==> #[trigger] found@[i] == previous@.contains(
                destinations@[i],
            ),
{
    let mut found: Vec<bool> = Vec::new();
    let mut j: usize = 0;
    let mut i: usize = 0;
    while i < destinations.len()
        invariant
            i <= destinations@.len(),
            j <= previous@.len(),
            ascending(destinations@),
            ascending(previous@),
            found@.len() == i,
            forall|k: int|
                0 <= k < i ==> #[trigger] found@[k] == previous@.contains(destinations@[k]),
            i < destinations@.len() ==> forall|t: int|
                0 <= t < j ==> previous@[t] < destinations@[i as int],
        decreases destinations@.len() - i,
    {
        let v = destinations[i];
        while j < previous.len() && previous[j] < v
            invariant
                j <= previous@.len(),
                i < destinations@.len(),
                v == destinations@[i as int],
                forall|t: int| 0 <= t < j ==> previous@[t] < v,
            decreases previous@.len() - j,
        {
            j += 1;
        }
        let present = j < previous.len() && previous[j] == v;
        proof {
            if previous@.contains(v) {
                let t = choose|t: int| 0 <= t < previous@.len() && previous@[t] == v;
                assert(t >= j);
                assert(previous@[j as int] <= previous@[t]);
            }
            if i + 1 < destinations@.len() {
                assert(destinations@[i as int] <= destinations@[i + 1]);
            }
        }
        found.push(present);
        i += 1;
    }
    found
}

/// Marks the candidates that the return weight applies to: those that are
/// the node the walk came from or the node it is at.
pub fn update_return_weight_transition(destinations: &[NodeT], src: NodeT, dst: NodeT) -> (marks:
    Vec<bool>)
    ensures
        marks@.len() == destinations@.len(),
        forall|i: int|
            0 <= i < destinations@.len() ==> #[trigger] marks@[i] == is_return(
                destinations@[i],
                src,
                dst,
            ),
{
    let mut marks: Vec<bool> = Vec::new();
    let mut i: usize = 0;
    while i < destinations.len()
        invariant
            i <= destinations@.len(),
            marks@.len() == i,
            forall|k: int|
                0 <= k < i ==> #[trigger] marks@[k] == is_return(destinations@[k], src, dst),
        decreases destinations@.len() - i,
    {
        let v = destinations[i];
        marks.push(v == src || v == dst);
        i += 1;
    }
    marks
}

/// Marks the candidates that the explore weight applies to: those that are
/// no neighbour of the node the walk came from and neither end of the step
/// before. Both lists have to be in ascending order.
pub fn update_explore_weight_transition(
    destinations: &[NodeT],
    previous_destinations: &[NodeT],
    src: NodeT,
    dst: NodeT,
) -> (marks: Vec<bool>)
    requires
        ascending(destinations@),
        ascending(previous_destinations@),
    ensures
        marks@.len() == destinations@.len(),
        forall|i: int|
            0 <= i < destinations@.len() ==> #[trigger] marks@[i] == is_explore(
                destinations@[i],
                previous_destinations@,
                src,
                dst,
            ),
{
    let found = among(destinations, previous_destinations);
    let mut marks: Vec<bool> = Vec::new();
    let mut i: usize = 0;
    while i < destinations.len()
        invariant
            i <= destinations@.len(),
            found@.len() == destinations@.len(),
            forall|k: int|
                0 <= k < destinations@.len() ==> #[trigger] found@[k]
                    == previous_destinations@.contains(destinations@[k]),
            marks@.len() == i,
            forall|k: int|
                0 <= k < i ==> #[trigger] marks@[k] == is_explore(
                    destinations@[k],
                    previous_destinations@,
                    src,
                    dst,
                ),
        decreases destinations@.len() - i,
    {
        let v = destinations[i];
        marks.push(!found[i] && v != src && v != dst);
        i += 1;
    }
    marks
}

/// Says for every candidate which of the return and the explore weight
/// applies to it, where both are in use. Both lists have to be in ascending
/// order.
pub fn update_return_explore_weight_transition(
    destinations: &[NodeT],
    previous_destinations: &[NodeT],
    src: NodeT,
    dst: NodeT,
) -> (biases: Vec<Bias>)
    requires
        ascending(destinations@),
        ascending(previous_destinations@),
    ensures
        biases@.len() == destinations@.len(),
        forall|i: int|
            0 <= i < destinations@.len() ==> #[trigger] biases@[i] == bias_of(
                destinations@[i],
                previous_destinations@,
                src,
                dst,
            ),
{
    let found = among(destinations, previous_destinations);
    let mut biases: Vec<Bias> = Vec::new();
    let mut i: usize = 0;
    while i < destinations.len()
        invariant
            i <= destinations@.len(),
            found@.len() == destinations@.len(),
            forall|k: int|
                0 <= k < destinations@.len() ==> #[trigger] found@[k]
                    == previous_destinations@.contains(destinations@[k]),
            biases@.len() == i,
            forall|k: int|
                0 <= k < i ==> #[trigger] biases@[k] == bias_of(
                    destinations@[k],
                    previous_destinations@,
                    src,
                    dst,
                ),
        decreases destinations@.len() - i,
    {
        let v = destinations[i];
        let bias = if v == src || v == dst {
            Bias::Return
        } else if !found[i] {
            Bias::Explore
        } else {
            Bias::Unchanged
        };
        biases.push(bias);
        i += 1;
    }
    biases
}

} // verus!

verus! {

impl Graph {
    /// The node that a uniform step from `node` leads to: the destination of
    /// the edge of `node` that the random state picks.
    pub open spec fn uniform_step(&self, node: int, state: u64) -> int {
        self.destination(
            self.lower(node) + crate::random::sample_uniform_spec(self.degree(node) as u64, state),
        )
    }

    /// The first `k` nodes of the uniform walk from `node`: every step is a
    /// uniform step, the `i`-th with the random state advanced by `i`.
    pub open spec fn uniform_walk_spec(&self, node: NodeT, random_state: u64, k: int) -> Seq<NodeT>
        decreases k,
    {
        if k <= 1 {
            seq![node]
        } else {
            let walk = self.uniform_walk_spec(node, random_state, k - 1);
            walk.push(
                self.uniform_step(
                    walk.last() as int,
                    crate::random::random_state_at(random_state, k - 1),
                ) as NodeT,
            )
        }
    }

    /// Whether every step of `walk` follows an edge of the graph.
    pub open spec fn follows_edges(&self, walk: Seq<NodeT>) -> bool {
        forall|i: int|
            0 <= i < walk.len() - 1 ==> self.has_edge_between(#[trigger] walk[i] as int, walk[i + 1] as int)
    }

    /// In an undirected graph an edge leads to a node that has edges itself.
    pub proof fn lemma_destination_has_edges(&self, e: int)
        requires
            self.wf(),
            !self.directed,
            0 <= e < self.edges_count(),
        ensures
            self.degree(self.destination(e)) > 0,
            0 <= self.destination(e) < self.nodes_count(),
    {
        assert(self.has_mirror(e));
        let m = choose|m: int| 0 <= m < self.edges_count() && self.is_mirror(e, m);
        crate::encoding::lemma_encode_decode(self.edges@[e] as int, self.radix as int);
        assert(self.destination(e) < self.nodes_count());
        self.lemma_degree_positive(self.destination(e));
    }

    /// The destination of the edge at `offset` among the edges of `node`,
    /// taken from the cached destinations of the node where there are some.
    pub fn get_destination_at(&self, node: NodeT, min_edge_id: EdgeT, offset: EdgeT) -> (dst: NodeT)
        requires
            self.wf(),
            node < self.nodes_count(),
            min_edge_id == self.lower(node as int),
            offset < self.degree(node as int),
        ensures
            dst == self.destination(min_edge_id + offset),
            dst < self.nodes_count(),
            self.has_edge_between(node as int, dst as int),
    {
        broadcast use vstd::std_specs::hash::group_hash_axioms;

        let edges_number = self.edges.len();
        proof {
            self.lemma_ranges(node as int);
            self.lemma_edge_in_range(min_edge_id + offset, node as int);
            assert(self.destination(min_edge_id + offset) < self.nodes_count());
        }
        match &self.cached_destinations {
            Some(cached) => match cached.get(&node) {
                Some(destinations) => {
                    assert(cached@.contains_key(node));
                    destinations[offset as usize]
                },
                None => self.get_destination(min_edge_id + offset),
            },
            None => self.get_destination(min_edge_id + offset),
        }
    }

    /// The node that a uniform step from `node` leads to.
    pub fn extract_uniform_node(&self, node: NodeT, random_state: u64) -> (next: NodeT)
        requires
            self.wf(),
            node < self.nodes_count(),
            self.degree(node as int) > 0,
        ensures
            next == self.uniform_step(node as int, random_state),
            next < self.nodes_count(),
            self.has_edge_between(node as int, next as int),
    {
        let (min_edge, max_edge) = self.get_destinations_min_max_edge_ids(node);
        let offset = crate::random::sample_uniform(max_edge - min_edge, random_state);
        self.get_destination_at(node, min_edge, offset)
    }

    /// The uniform walk of `length` nodes from `node`. It is for undirected
    /// graphs and starts at a node that has edges, so that it never ends
    /// early.
    pub fn uniform_walk(&self, node: NodeT, random_state: u64, length: NodeT) -> (walk: Vec<NodeT>)
        requires
            self.wf(),
            !self.directed,
            node < self.nodes_count(),
            self.degree(node as int) > 0,
            length >= 1,
        ensures
            walk@ == self.uniform_walk_spec(node, random_state, length as int),
            walk@.len() == length,
            walk@[0] == node,
            self.follows_edges(walk@),
            forall|i: int| 0 <= i < walk@.len() ==> #[trigger] walk@[i] < self.nodes_count(),
    {
        let mut walk: Vec<NodeT> = Vec::new();
        walk.push(node);
        let mut current = node;
        let mut iteration: NodeT = 1;
        while iteration < length
            invariant
                self.wf(),
                !self.directed,
                1 <= iteration <= length,
                walk@ == self.uniform_walk_spec(node, random_state, iteration as int),
                walk@.len() == iteration,
                walk@[0] == node,
                current == walk@.last(),
                current < self.nodes_count(),
                self.degree(current as int) > 0,
                self.follows_edges(walk@),
                forall|i: int| 0 <= i < walk@.len() ==> #[trigger] walk@[i] < self.nodes_count(),
            decreases length - iteration,
        {
            let state = crate::random::advance_state(random_state, iteration as u64);
            let (min_edge, max_edge) = self.get_destinations_min_max_edge_ids(current);
            let offset = crate::random::sample_uniform(max_edge - min_edge, state);
            let next = self.get_destination_at(current, min_edge, offset);
            let ghost before = walk@;
            proof {
                self.lemma_ranges(current as int);
                self.lemma_destination_has_edges(min_edge + offset);
            }
            walk.push(next);
            proof {
                assert forall|i: int| 0 <= i < walk@.len() - 1 implies self.has_edge_between(
                    #[trigger] walk@[i] as int,
                    walk@[i + 1] as int,
                ) by {
                    if i < before.len() - 1 {
                        assert(self.has_edge_between(before[i] as int, before[i + 1] as int));
                    }
                }
            }
            current = next;
            iteration += 1;
        }
        walk
    }
}

} // verus!

verus! {

/// The edges that a step from a node may take: the range of the edges of the
/// node, the edges of it that are looked at, in increasing order, and their
/// destinations.
pub struct Candidates {
    pub min_edge_id: EdgeT,
    pub max_edge_id: EdgeT,
    pub edge_ids: Vec<EdgeT>,
    pub destinations: Vec<NodeT>,
}

/// What a step needs to weigh its candidates: the weight of every candidate
/// edge where the graph has weights, whether the candidate keeps the type of
/// the node and of the edge, so that the change weights divide it, and which
/// of the return and the explore weight multiplies it.
pub struct Transition {
    pub weights: Option<Vec<WeightT>>,
    pub same_node_type: Vec<bool>,
    pub same_edge_type: Vec<bool>,
    pub biases: Vec<Bias>,
}

impl Graph {
    /// Whether a step from a node of `degree` edges looks at a sample of
    /// them only.
    pub open spec fn subsamples(max_neighbours: Option<NodeT>, degree: nat) -> bool {
        max_neighbours matches Some(m) && 0 < m < degree
    }

    /// The edges of `node` that a step looks at: all of them, or, where
    /// there are more than `max_neighbours`, that many of them drawn from
    /// equal parts of their range.
    pub open spec fn candidate_edges(&self, node: int, max_neighbours: Option<NodeT>, state: u64) -> Seq<
        EdgeT,
    > {
        if Self::subsamples(max_neighbours, self.degree(node)) {
            Seq::new(
                max_neighbours->Some_0 as nat,
                |i: int|
                    crate::random::distinct_sample_spec(
                        self.lower(node) as int,
                        self.degree(node) as int,
                        max_neighbours->Some_0 as int,
                        state,
                        i,
                    ) as EdgeT,
            )
        } else {
            Seq::new(self.degree(node), |i: int| (self.lower(node) + i) as EdgeT)
        }
    }

    /// Whether `c` holds the candidates of a step from `node`.
    pub open spec fn is_candidates(&self, c: &Candidates, node: int, max_neighbours: Option<NodeT>, state: u64) -> bool {
        &&& c.min_edge_id == self.lower(node)
        &&& c.max_edge_id == self.upper(node)
        &&& c.edge_ids@ == self.candidate_edges(node, max_neighbours, state)
        &&& self.candidates_of(c, node)
    }

    /// Whether the edges of `c` are edges of `node`, in increasing order,
    /// and its destinations theirs.
    pub open spec fn candidates_of(&self, c: &Candidates, node: int) -> bool {
        &&& c.destinations@.len() == c.edge_ids@.len()
        &&& forall|i: int|
            0 <= i < c.edge_ids@.len() ==> self.lower(node) <= #[trigger] c.edge_ids@[i]
                < self.upper(node)
        &&& forall|i: int, j: int|
            0 <= i < j < c.edge_ids@.len() ==> c.edge_ids@[i] < c.edge_ids@[j]
        &&& forall|i: int|
            0 <= i < c.edge_ids@.len() ==> #[trigger] c.destinations@[i] == self.destination(
                c.edge_ids@[i] as int,
            )
    }

    /// The edges of a node lead to its destinations in ascending order.
    pub proof fn lemma_destinations_ascend(&self, node: int, a: int, b: int)
        requires
            self.wf_store(),
            0 <= node < self.nodes_count(),
            self.lower(node) <= a <= b < self.upper(node),
        ensures
            self.destination(a) <= self.destination(b),
    {
        self.lemma_ranges(node);
        self.lemma_edge_in_range(a, node);
        self.lemma_edge_in_range(b, node);
        crate::encoding::lemma_encode_decode(self.edges@[a] as int, self.radix as int);
        crate::encoding::lemma_encode_decode(self.edges@[b] as int, self.radix as int);
        assert(self.edges@[a] <= self.edges@[b]);
    }

    /// The destinations of candidates come in ascending order.
    pub proof fn lemma_candidates_ascend(&self, c: &Candidates, node: int)
        requires
            self.wf_store(),
            0 <= node < self.nodes_count(),
            self.candidates_of(c, node),
        ensures
            ascending(c.destinations@),
    {
        assert forall|i: int, j: int| 0 <= i <= j < c.destinations@.len() implies c.destinations@[i]
            <= c.destinations@[j] by {
            if i < j {
                assert(c.edge_ids@[i] < c.edge_ids@[j]);
            }
            self.lemma_destinations_ascend(node, c.edge_ids@[i] as int, c.edge_ids@[j] as int);
        }
    }

    /// The sample of the edges `min_edge_id..max_edge_id` that a step looks
    /// at, where they are more than `max_neighbours`.
    pub fn get_probabilistic_indices(
        min_edge_id: EdgeT,
        max_edge_id: EdgeT,
        max_neighbours: &Option<NodeT>,
        random_state: u64,
    ) -> (indices: Option<Vec<u64>>)
        requires
            min_edge_id <= max_edge_id,
        ensures
            indices is Some <==> Self::subsamples(
                *max_neighbours,
                (max_edge_id - min_edge_id) as nat,
            ),
            indices matches Some(ids) ==> ids@.len() == max_neighbours->Some_0 && (forall|i: int|
                0 <= i < ids@.len() ==> #[trigger] ids@[i] == crate::random::distinct_sample_spec(
                    min_edge_id as int,
                    max_edge_id - min_edge_id,
                    max_neighbours->Some_0 as int,
                    random_state,
                    i,
                )) && (forall|i: int|
                0 <= i < ids@.len() ==> min_edge_id <= #[trigger] ids@[i] < max_edge_id) && (forall|
                i: int,
                j: int,
            | 0 <= i < j < ids@.len() ==> ids@[i] < ids@[j]),
    {
        match max_neighbours {
            Some(m) => {
                if *m > 0 && (*m as u64) < max_edge_id - min_edge_id {
                    return Some(
                        crate::random::sample_k_distinct_uniform(
                            min_edge_id,
                            max_edge_id,
                            *m as u64,
                            random_state,
                        ),
                    );
                }
            },
            None => {},
        }
        None
    }

    /// The candidates of a step from `node`.
    pub fn get_node_edges_and_destinations(
        &self,
        max_neighbours: &Option<NodeT>,
        random_state: u64,
        node: NodeT,
    ) -> (c: Candidates)
        requires
            self.wf(),
            node < self.nodes_count(),
        ensures
            self.is_candidates(&c, node as int, *max_neighbours, random_state),
    {
        let (min_edge_id, max_edge_id) = self.get_destinations_min_max_edge_ids(node);
        let edges_number = self.edges.len();
        let edge_ids: Vec<EdgeT> = match Self::get_probabilistic_indices(
            min_edge_id,
            max_edge_id,
            max_neighbours,
            random_state,
        ) {
            Some(ids) => {
                proof {
                    assert(ids@ =~= self.candidate_edges(
                        node as int,
                        *max_neighbours,
                        random_state,
                    ));
                }
                ids
            },
            None => {
                let mut ids: Vec<EdgeT> = Vec::new();
                let mut e = min_edge_id;
                while e < max_edge_id
                    invariant
                        min_edge_id <= e <= max_edge_id,
                        ids@.len() == e - min_edge_id,
                        forall|i: int| 0 <= i < ids@.len() ==> #[trigger] ids@[i] == min_edge_id + i,
                    decreases max_edge_id - e,
                {
                    ids.push(e);
                    e += 1;
                }
                proof {
                    assert(ids@ =~= self.candidate_edges(
                        node as int,
                        *max_neighbours,
                        random_state,
                    ));
                }
                ids
            },
        };
        let mut destinations: Vec<NodeT> = Vec::new();
        let mut i: usize = 0;
        while i < edge_ids.len()
            invariant
                self.wf(),
                i <= edge_ids@.len(),
                destinations@.len() == i,
                max_edge_id <= self.edges_count(),
                forall|k: int| 0 <= k < edge_ids@.len() ==> #[trigger] edge_ids@[k] < max_edge_id,
                forall|k: int|
                    0 <= k < i ==> #[trigger] destinations@[k] == self.destination(
                        edge_ids@[k] as int,
                    ),
            decreases edge_ids@.len() - i,
        {
            destinations.push(self.get_destination(edge_ids[i]));
            i += 1;
        }
        Candidates { min_edge_id, max_edge_id, edge_ids, destinations }
    }

    /// The weights of the candidate edges, where the graph has weights.
    pub fn get_weighted_transitions(&self, c: &Candidates, node: NodeT) -> (weights: Option<
        Vec<WeightT>,
    >)
        requires
            self.wf(),
            node < self.nodes_count(),
            self.candidates_of(c, node as int),
        ensures
            weights is Some <==> self.weights is Some,
            weights matches Some(w) ==> w@.len() == c.edge_ids@.len() && forall|i: int|
                0 <= i < w@.len() ==> Some(#[trigger] w@[i]) == self.weight_at(c.edge_ids@[i] as int),
    {
        proof {
            self.lemma_ranges(node as int);
        }
        let edges_number = self.edges.len();
        match &self.weights {
            None => None,
            Some(all) => {
                let mut w: Vec<WeightT> = Vec::new();
                let mut i: usize = 0;
                while i < c.edge_ids.len()
                    invariant
                        i <= c.edge_ids@.len(),
                        self.weights == Some(*all),
                        all@.len() == self.edges_count(),
                        edges_number == self.edges_count(),
                        forall|k: int|
                            0 <= k < c.edge_ids@.len() ==> #[trigger] c.edge_ids@[k]
                                < self.edges_count(),
                        w@.len() == i,
                        forall|k: int|
                            0 <= k < i ==> Some(#[trigger] w@[k]) == self.weight_at(
                                c.edge_ids@[k] as int,
                            ),
                    decreases c.edge_ids@.len() - i,
                {
                    w.push(all[c.edge_ids[i] as usize]);
                    i += 1;
                }
                Some(w)
            },
        }
    }

    /// Whether candidate destination `v` keeps the type of `node`, so that
    /// the change weight of the node types divides the step to it.
    pub open spec fn keeps_node_type(&self, node: int, v: int) -> bool {
        self.node_types matches Some(t) && t.ids@[node] == t.ids@[v]
    }

    /// Whether candidate edge `e` keeps the type of `edge`.
    pub open spec fn keeps_edge_type(&self, edge: int, e: int) -> bool {
        self.edge_types matches Some(t) && t.ids@[edge] == t.ids@[e]
    }

    /// Marks the candidates that keep the type of `node`, where the change
    /// weight of the node types is in use.
    pub fn update_node_transition(
        &self,
        node: NodeT,
        destinations: &Vec<NodeT>,
        change_node_type_weight: WeightT,
    ) -> (marks: Vec<bool>)
        requires
            self.wf(),
            node < self.nodes_count(),
            forall|i: int|
                0 <= i < destinations@.len() ==> #[trigger] destinations@[i] < self.nodes_count(),
        ensures
            marks@.len() == destinations@.len(),
            forall|i: int|
                0 <= i < marks@.len() ==> #[trigger] marks@[i] == (change_node_type_weight
                    != crate::walks_parameters::WEIGHT_ONE && self.keeps_node_type(
                    node as int,
                    destinations@[i] as int,
                )),
    {
        let active = crate::walks_parameters::not_one(change_node_type_weight);
        let nodes_number = self.get_nodes_number();
        let mut marks: Vec<bool> = Vec::new();
        let mut i: usize = 0;
        while i < destinations.len()
            invariant
                self.wf(),
                i <= destinations@.len(),
                node < self.nodes_count(),
                active == (change_node_type_weight != crate::walks_parameters::WEIGHT_ONE),
                forall|k: int|
                    0 <= k < destinations@.len() ==> #[trigger] destinations@[k]
                        < self.nodes_count(),
                marks@.len() == i,
                forall|k: int|
                    0 <= k < i ==> #[trigger] marks@[k] == (active && self.keeps_node_type(
                        node as int,
                        destinations@[k] as int,
                    )),
            decreases destinations@.len() - i,
        {
            let keeps = match &self.node_types {
                Some(t) => active && t.ids[node as usize] == t.ids[destinations[i] as usize],
                None => false,
            };
            marks.push(keeps);
            i += 1;
        }
        marks
    }

    /// Marks the candidates whose edge keeps the type of `edge`, where the
    /// change weight of the edge types is in use.
    pub fn update_edge_transition(&self, edge: EdgeT, edge_ids: &Vec<EdgeT>, change_edge_type_weight: WeightT) -> (marks:
        Vec<bool>)
        requires
            self.wf(),
            edge < self.edges_count(),
            forall|i: int| 0 <= i < edge_ids@.len() ==> #[trigger] edge_ids@[i] < self.edges_count(),
        ensures
            marks@.len() == edge_ids@.len(),
            forall|i: int|
                0 <= i < marks@.len() ==> #[trigger] marks@[i] == (change_edge_type_weight
                    != crate::walks_parameters::WEIGHT_ONE && self.keeps_edge_type(
                    edge as int,
                    edge_ids@[i] as int,
                )),
    {
        let active = crate::walks_parameters::not_one(change_edge_type_weight);
        let edges_number = self.edges.len();
        let mut marks: Vec<bool> = Vec::new();
        let mut i: usize = 0;
        while i < edge_ids.len()
            invariant
                self.wf(),
                i <= edge_ids@.len(),
                edge < self.edges_count(),
                edges_number == self.edges_count(),
                active == (change_edge_type_weight != crate::walks_parameters::WEIGHT_ONE),
                forall|k: int|
                    0 <= k < edge_ids@.len() ==> #[trigger] edge_ids@[k] < self.edges_count(),
                marks@.len() == i,
                forall|k: int|
                    0 <= k < i ==> #[trigger] marks@[k] == (active && self.keeps_edge_type(
                        edge as int,
                        edge_ids@[k] as int,
                    )),
            decreases edge_ids@.len() - i,
        {
            let keeps = match &self.edge_types {
                Some(t) => active && t.ids[edge as usize] == t.ids[edge_ids[i] as usize],
                None => false,
            };
            marks.push(keeps);
            i += 1;
        }
        marks
    }
}

/// A vector of `len` copies of `value`.
fn repeated<T: Copy>(value: T, len: usize) -> (v: Vec<T>)
    ensures
        v@.len() == len,
        forall|i: int| 0 <= i < len ==> v@[i] == value,
{
    let mut v: Vec<T> = Vec::new();
    let mut i: usize = 0;
    while i < len
        invariant
            i <= len,
            v@.len() == i,
            forall|j: int| 0 <= j < i ==> v@[j] == value,
        decreases len - i,
    {
        v.push(value);
        i += 1;
    }
    v
}

} // verus!

verus! {

impl Graph {
    /// Whether `t` weighs the candidates `c` of a first step from `node`:
    /// only the weights of the edges and the change of the node type count.
    pub open spec fn is_node_transition(&self, t: &Transition, c: &Candidates, node: int, weights: WalkWeights) -> bool {
        &&& t.weights is Some <==> self.weights is Some
        &&& t.weights matches Some(w) ==> w@.len() == c.edge_ids@.len() && forall|i: int|
            0 <= i < w@.len() ==> Some(#[trigger] w@[i]) == self.weight_at(c.edge_ids@[i] as int)
        &&& t.same_node_type@.len() == c.edge_ids@.len()
        &&& forall|i: int|
            0 <= i < c.edge_ids@.len() ==> #[trigger] t.same_node_type@[i] == (
            weights.change_node_type_weight != WEIGHT_ONE && self.keeps_node_type(
                node,
                c.destinations@[i] as int,
            ))
        &&& t.same_edge_type@.len() == c.edge_ids@.len()
        &&& forall|i: int| 0 <= i < c.edge_ids@.len() ==> !#[trigger] t.same_edge_type@[i]
        &&& t.biases@.len() == c.edge_ids@.len()
        &&& forall|i: int| 0 <= i < c.edge_ids@.len() ==> #[trigger] t.biases@[i] == Bias::Unchanged
    }

    /// The bias on candidate `v` of a step from `dst` that came from `src`
    /// over neighbours `previous`, for the weights that are in use.
    pub open spec fn step_bias(v: NodeT, previous: Seq<NodeT>, src: NodeT, dst: NodeT, weights: WalkWeights) -> Bias {
        let has_p = weights.return_weight != WEIGHT_ONE;
        let has_q = weights.explore_weight != WEIGHT_ONE;
        if has_p && is_return(v, src, dst) {
            Bias::Return
        } else if has_q && is_explore(v, previous, src, dst) {
            Bias::Explore
        } else {
            Bias::Unchanged
        }
    }

    /// Whether `t` weighs the candidates `c` of a step from `dst` that came
    /// from `src` over edge `edge`.
    pub open spec fn is_edge_transition(
        &self,
        t: &Transition,
        c: &Candidates,
        src: NodeT,
        dst: NodeT,
        edge: int,
        previous: Seq<NodeT>,
        weights: WalkWeights,
    ) -> bool {
        &&& t.weights is Some <==> self.weights is Some
        &&& t.weights matches Some(w) ==> w@.len() == c.edge_ids@.len() && forall|i: int|
            0 <= i < w@.len() ==> Some(#[trigger] w@[i]) == self.weight_at(c.edge_ids@[i] as int)
        &&& t.same_node_type@.len() == c.edge_ids@.len()
        &&& forall|i: int|
            0 <= i < c.edge_ids@.len() ==> #[trigger] t.same_node_type@[i] == (
            weights.change_node_type_weight != WEIGHT_ONE && self.keeps_node_type(
                dst as int,
                c.destinations@[i] as int,
            ))
        &&& t.same_edge_type@.len() == c.edge_ids@.len()
        &&& forall|i: int|
            0 <= i < c.edge_ids@.len() ==> #[trigger] t.same_edge_type@[i] == (
            weights.change_edge_type_weight != WEIGHT_ONE && self.keeps_edge_type(
                edge,
                c.edge_ids@[i] as int,
            ))
        &&& t.biases@.len() == c.edge_ids@.len()
        &&& forall|i: int|
            0 <= i < c.edge_ids@.len() ==> #[trigger] t.biases@[i] == Self::step_bias(
                c.destinations@[i],
                previous,
                src,
                dst,
                weights,
            )
    }

    /// What the first step of a walk needs to weigh its candidates.
    pub fn get_node_transition(&self, node: NodeT, walk_weights: &WalkWeights, c: &Candidates) -> (t:
        Transition)
        requires
            self.wf(),
            node < self.nodes_count(),
            self.candidates_of(c, node as int),
        ensures
            self.is_node_transition(&t, c, node as int, *walk_weights),
    {
        proof {
            self.lemma_ranges(node as int);
            assert forall|i: int| 0 <= i < c.destinations@.len() implies #[trigger] c.destinations@[i]
                < self.nodes_count() by {
                assert(self.destination(c.edge_ids@[i] as int) < self.nodes_count());
            }
        }
        let weights = self.get_weighted_transitions(c, node);
        let same_node_type = self.update_node_transition(
            node,
            &c.destinations,
            walk_weights.change_node_type_weight,
        );
        let count = c.edge_ids.len();
        Transition {
            weights,
            same_node_type,
            same_edge_type: repeated(false, count),
            biases: repeated(Bias::Unchanged, count),
        }
    }

    /// What a later step of a walk needs to weigh its candidates: the walk
    /// came from `src` over `edge_id` to `dst`, and `previous_destinations`
    /// are the candidates that the step before chose from.
    pub fn get_edge_transition(
        &self,
        src: NodeT,
        dst: NodeT,
        edge_id: EdgeT,
        walk_weights: &WalkWeights,
        c: &Candidates,
        previous_destinations: &Vec<NodeT>,
    ) -> (t: Transition)
        requires
            self.wf(),
            dst < self.nodes_count(),
            edge_id < self.edges_count(),
            self.candidates_of(c, dst as int),
            ascending(previous_destinations@),
        ensures
            self.is_edge_transition(
                &t,
                c,
                src,
                dst,
                edge_id as int,
                previous_destinations@,
                *walk_weights,
            ),
    {
        proof {
            self.lemma_ranges(dst as int);
            self.lemma_candidates_ascend(c, dst as int);
            assert forall|i: int| 0 <= i < c.destinations@.len() implies #[trigger] c.destinations@[i]
                < self.nodes_count() by {
                assert(self.destination(c.edge_ids@[i] as int) < self.nodes_count());
            }
        }
        let weights = self.get_weighted_transitions(c, dst);
        let same_node_type = self.update_node_transition(
            dst,
            &c.destinations,
            walk_weights.change_node_type_weight,
        );
        let same_edge_type = self.update_edge_transition(
            edge_id,
            &c.edge_ids,
            walk_weights.change_edge_type_weight,
        );
        let has_q = crate::walks_parameters::not_one(walk_weights.explore_weight);
        let has_p = crate::walks_parameters::not_one(walk_weights.return_weight);
        let count = c.edge_ids.len();
        let biases: Vec<Bias> = if has_p && has_q {
            update_return_explore_weight_transition(
                c.destinations.as_slice(),
                previous_destinations.as_slice(),
                src,
                dst,
            )
        } else if has_q {
            let marks = update_explore_weight_transition(
                c.destinations.as_slice(),
                previous_destinations.as_slice(),
                src,
                dst,
            );
            biases_from(&marks, Bias::Explore)
        } else if has_p {
            let marks = update_return_weight_transition(c.destinations.as_slice(), src, dst);
            biases_from(&marks, Bias::Return)
        } else {
            repeated(Bias::Unchanged, count)
        };
        Transition { weights, same_node_type, same_edge_type, biases }
    }

    /// The destination and the edge of the candidate at `sampled_offset`.
    pub fn extract_node(&self, node: NodeT, c: &Candidates, sampled_offset: usize) -> (step: (
        NodeT,
        EdgeT,
    ))
        requires
            self.wf(),
            node < self.nodes_count(),
            self.candidates_of(c, node as int),
            sampled_offset < c.edge_ids@.len(),
        ensures
            step.1 == c.edge_ids@[sampled_offset as int],
            step.0 == self.destination(step.1 as int),
            step.1 < self.edges_count(),
            self.source(step.1 as int) == node,
            self.has_edge_between(node as int, step.0 as int),
            step.0 < self.nodes_count(),
    {
        proof {
            self.lemma_ranges(node as int);
            self.lemma_edge_in_range(c.edge_ids@[sampled_offset as int] as int, node as int);
            assert(self.destination(c.edge_ids@[sampled_offset as int] as int) < self.nodes_count());
        }
        (c.destinations[sampled_offset], c.edge_ids[sampled_offset])
    }

    /// The destination and the edge of the candidate at `sampled_offset` of
    /// a later step.
    pub fn extract_edge(&self, dst: NodeT, c: &Candidates, sampled_offset: usize) -> (step: (
        NodeT,
        EdgeT,
    ))
        requires
            self.wf(),
            dst < self.nodes_count(),
            self.candidates_of(c, dst as int),
            sampled_offset < c.edge_ids@.len(),
        ensures
            step.1 == c.edge_ids@[sampled_offset as int],
            step.0 == self.destination(step.1 as int),
            step.1 < self.edges_count(),
            self.source(step.1 as int) == dst,
            self.has_edge_between(dst as int, step.0 as int),
            step.0 < self.nodes_count(),
    {
        self.extract_node(dst, c, sampled_offset)
    }
}

/// The biases that give `bias` to the marked candidates and leave the
/// others unchanged.
fn biases_from(marks: &Vec<bool>, bias: Bias) -> (biases: Vec<Bias>)
    ensures
        biases@.len() == marks@.len(),
        forall|i: int|
            0 <= i < marks@.len() ==> #[trigger] biases@[i] == (if marks@[i] {
                bias
            } else {
                Bias::Unchanged
            }),
{
    let mut biases: Vec<Bias> = Vec::new();
    let mut i: usize = 0;
    while i < marks.len()
        invariant
            i <= marks@.len(),
            biases@.len() == i,
            forall|k: int|
                0 <= k < i ==> #[trigger] biases@[k] == (if marks@[k] {
                    bias
                } else {
                    Bias::Unchanged
                }),
        decreases marks@.len() - i,
    {
        biases.push(if marks[i] {
            bias
        } else {
            Bias::Unchanged
        });
        i += 1;
    }
    biases
}

} // verus!

verus! {

/// A walk while it is made: the nodes so far, the node and the edge that
/// the last step came from and over, the candidates of the next step, and
/// the destinations that the last step chose from.
pub struct SingleWalk {
    pub walk: Vec<NodeT>,
    pub src: NodeT,
    pub edge: EdgeT,
    pub candidates: Candidates,
    pub previous_destinations: Vec<NodeT>,
}

/// Where a walk starts: its random state and its first node.
#[derive(Clone, Copy, Debug, PartialEq, Eq, Structural)]
pub struct WalkStart {
    pub random_state: u64,
    pub node: NodeT,
}

impl Graph {
    /// The random state of the step that makes the node at place `k` of a
    /// walk: the state of the walk for the first step, and the state
    /// advanced by `k` for the later ones.
    pub open spec fn step_state(random_state: u64, k: int) -> u64 {
        if k <= 1 {
            random_state
        } else {
            crate::random::random_state_at(random_state, k)
        }
    }

    /// The invariant of a walk that is being made with `parameters` from
    /// `random_state`.
    pub open spec fn walking(&self, w: &SingleWalk, random_state: u64, parameters: &SingleWalkParameters) -> bool {
        let len = w.walk@.len() as int;
        &&& 1 <= len <= parameters.length
        &&& forall|i: int| 0 <= i < len ==> #[trigger] w.walk@[i] < self.nodes_count()
        &&& self.follows_edges(w.walk@)
        &&& self.degree(w.walk@[len - 1] as int) > 0
        &&& len < parameters.length ==> self.is_candidates(
            &w.candidates,
            w.walk@[len - 1] as int,
            parameters.max_neighbours,
            Self::step_state(random_state, len),
        ) && w.candidates.edge_ids@.len() > 0
        &&& len >= 2 ==> w.src == w.walk@[len - 2] && w.edge < self.edges_count() && self.source(
            w.edge as int,
        ) == w.src && self.destination(w.edge as int) == w.walk@[len - 1]
        &&& ascending(w.previous_destinations@)
    }

    /// Starts a walk at `node`: returns the walk, which holds its first node,
    /// and what the first step needs to weigh its candidates.
    pub fn begin_walk(&self, node: NodeT, random_state: u64, parameters: &SingleWalkParameters) -> (r: (
        SingleWalk,
        Transition,
    ))
        requires
            self.wf(),
            !self.directed,
            node < self.nodes_count(),
            self.degree(node as int) > 0,
            parameters.valid(),
        ensures
            self.walking(&r.0, random_state, parameters),
            r.0.walk@ == seq![node],
            self.is_node_transition(&r.1, &r.0.candidates, node as int, parameters.weights),
    {
        let candidates = self.get_node_edges_and_destinations(
            &parameters.max_neighbours,
            random_state,
            node,
        );
        let transition = self.get_node_transition(node, &parameters.weights, &candidates);
        let mut walk: Vec<NodeT> = Vec::new();
        walk.push(node);
        (
            SingleWalk { walk, src: node, edge: 0, candidates, previous_destinations: Vec::new() },
            transition,
        )
    }

    /// Takes the candidate at `sampled_offset` as the next step of the walk.
    /// Returns what the step after it needs to weigh its candidates, or
    /// nothing once the walk is complete.
    pub fn continue_walk(
        &self,
        w: &mut SingleWalk,
        sampled_offset: usize,
        random_state: u64,
        parameters: &SingleWalkParameters,
    ) -> (next: Option<Transition>)
        requires
            self.wf(),
            !self.directed,
            parameters.valid(),
            self.walking(old(w), random_state, parameters),
            old(w).walk@.len() < parameters.length,
            sampled_offset < old(w).candidates.edge_ids@.len(),
        ensures
            self.walking(final(w), random_state, parameters),
            final(w).walk@ == old(w).walk@.push(
                old(w).candidates.destinations@[sampled_offset as int],
            ),
            final(w).edge == old(w).candidates.edge_ids@[sampled_offset as int],
            final(w).src == old(w).walk@.last(),
            next is None <==> final(w).walk@.len() == parameters.length,
            next matches Some(t) ==> self.is_edge_transition(
                &t,
                &final(w).candidates,
                final(w).src,
                final(w).walk@.last(),
                final(w).edge as int,
                old(w).candidates.destinations@,
                parameters.weights,
            ),
    {
        let ghost before = w.walk@;
        let current = w.walk[w.walk.len() - 1];
        let (dst, edge) = self.extract_node(current, &w.candidates, sampled_offset);
        proof {
            self.lemma_candidates_ascend(&w.candidates, current as int);
            self.lemma_destination_has_edges(edge as int);
        }
        w.walk.push(dst);
        w.src = current;
        w.edge = edge;
        proof {
            assert forall|i: int| 0 <= i < w.walk@.len() - 1 implies self.has_edge_between(
                #[trigger] w.walk@[i] as int,
                w.walk@[i + 1] as int,
            ) by {
                if i < before.len() - 1 {
                    assert(self.has_edge_between(before[i] as int, before[i + 1] as int));
                }
            }
        }
        if w.walk.len() >= parameters.length as usize {
            return None;
        }
        let state = crate::random::advance_state(random_state, w.walk.len() as u64);
        let candidates = self.get_node_edges_and_destinations(
            &parameters.max_neighbours,
            state,
            dst,
        );
        let mut previous = Vec::new();
        std::mem::swap(&mut previous, &mut w.candidates.destinations);
        let transition = self.get_edge_transition(
            current,
            dst,
            edge,
            &parameters.weights,
            &candidates,
            &previous,
        );
        w.candidates = candidates;
        w.previous_destinations = previous;
        Some(transition)
    }

    /// The node that walks show in place of `node`: what the mapping of the
    /// parameters makes of it, or the node itself where there is none.
    pub open spec fn shown(parameters: &WalksParameters, node: NodeT) -> NodeT {
        match parameters.dense_node_mapping {
            Some(mapping) => mapping@[node],
            None => node,
        }
    }

    /// The walk as it is shown: every node of it renumbered by the mapping
    /// of the parameters.
    pub open spec fn shown_walk(parameters: &WalksParameters, walk: Seq<NodeT>) -> Seq<NodeT> {
        Seq::new(walk.len(), |i: int| Self::shown(parameters, walk[i]))
    }

    /// Renumbers the nodes of a walk by the mapping of the parameters.
    pub fn finish_walk(&self, walk: Vec<NodeT>, parameters: &WalksParameters) -> (shown: Vec<NodeT>)
        requires
            self.wf(),
            parameters.valid_for(self),
            forall|i: int|
                0 <= i < walk@.len() ==> #[trigger] walk@[i] < self.nodes_count() && self.degree(
                    walk@[i] as int,
                ) > 0,
        ensures
            shown@ == Self::shown_walk(parameters, walk@),
    {
        broadcast use vstd::std_specs::hash::group_hash_axioms;

        match &parameters.dense_node_mapping {
            None => {
                proof {
                    assert(walk@ =~= Self::shown_walk(parameters, walk@));
                }
                walk
            },
            Some(mapping) => {
                let mut shown: Vec<NodeT> = Vec::new();
                let mut i: usize = 0;
                while i < walk.len()
                    invariant
                        self.wf(),
                        i <= walk@.len(),
                        parameters.valid_for(self),
                        parameters.dense_node_mapping == Some(*mapping),
                        forall|k: int|
                            0 <= k < walk@.len() ==> #[trigger] walk@[k] < self.nodes_count()
                                && self.degree(walk@[k] as int) > 0,
                        shown@.len() == i,
                        forall|k: int|
                            0 <= k < i ==> #[trigger] shown@[k] == Self::shown(parameters, walk@[k]),
                    decreases walk@.len() - i,
                {
                    let node = walk[i];
                    proof {
                        assert(self.unique_sources@.contains(node));
                        let k = choose|k: int|
                            0 <= k < self.unique_sources@.len() && self.unique_sources@[k] == node;
                        assert(mapping@.contains_key(self.unique_sources@[k]));
                    }
                    match mapping.get(&node) {
                        Some(to) => {
                            shown.push(*to);
                        },
                        None => {
                            shown.push(node);
                        },
                    }
                    i += 1;
                }
                proof {
                    assert(shown@ =~= Self::shown_walk(parameters, walk@));
                }
                shown
            },
        }
    }
}

} // verus!

verus! {

impl Graph {
    /// The source with edges that `source_id` picks, wrapping around the
    /// number of such sources.
    pub open spec fn unique_source(&self, source_id: int) -> NodeT {
        self.unique_sources@[source_id % self.unique_sources@.len() as int]
    }

    /// The source with edges that `source_id` picks.
    pub fn get_unique_source(&self, source_id: u64) -> (node: NodeT)
        requires
            self.wf(),
            self.unique_sources@.len() > 0,
        ensures
            node == self.unique_source(source_id as int),
            node < self.nodes_count(),
            self.degree(node as int) > 0,
    {
        let count = self.unique_sources.len();
        self.unique_sources[(source_id % count as u64) as usize]
    }

    /// Where walk `index` of a run starts. A complete run starts its walks
    /// at the sources in turn, each with the mixed random state of the run
    /// advanced by the index. A random run of `quantity` walks draws the
    /// source of each walk from the mixed random state advanced by the index
    /// within the run, and hands the draw, cut to 32 bits, to the walk as its
    /// random state.
    pub open spec fn walk_start(&self, index: int, quantity: int, random_state: NodeT, random: bool) -> WalkStart {
        let mixed = crate::random::mix_seed_spec(random_state as u64);
        if random {
            let drawn = (crate::random::random_value_spec(mixed, index % quantity) as int
                % 0x1_0000_0000) as u64;
            WalkStart { random_state: drawn, node: self.unique_source(drawn as int) }
        } else {
            WalkStart {
                random_state: crate::random::random_state_at(mixed, index),
                node: self.unique_source(index),
            }
        }
    }

    /// What `walk_iter` refuses: a run that is not valid for the graph, a
    /// graph without sources, and more walks than can be listed.
    pub open spec fn walk_failure(&self, quantity: NodeT, parameters: &WalksParameters) -> Option<GraphError> {
        match parameters.validate_outcome(self) {
            Err(e) => Some(e),
            Ok(()) => if self.unique_sources@.len() == 0 {
                Some(GraphError::EmptyGraph)
            } else if quantity * parameters.iterations > usize::MAX {
                Some(GraphError::InvalidParameter)
            } else {
                None
            },
        }
    }

    /// Lays out a run of `quantity` walks, each walked `iterations` times:
    /// the starts of all walks, in the order of their index.
    pub fn walk_iter(&self, quantity: NodeT, parameters: &WalksParameters, random: bool) -> (r: Result<
        Vec<WalkStart>,
        GraphError,
    >)
        requires
            self.wf(),
        ensures
            r is Err <==> self.walk_failure(quantity, parameters) is Some,
            r matches Err(e) ==> self.walk_failure(quantity, parameters) == Some(e),
            r matches Ok(starts) ==> starts@.len() == quantity * parameters.iterations && forall|
                i: int,
            |
                0 <= i < starts@.len() ==> #[trigger] starts@[i] == self.walk_start(
                    i,
                    quantity as int,
                    parameters.random_state,
                    random,
                ) && starts@[i].node < self.nodes_count() && self.degree(starts@[i].node as int)
                    > 0,
    {
        match parameters.validate(self) {
            Err(e) => {
                return Err(e);
            },
            Ok(()) => {},
        }
        if self.unique_sources.len() == 0 {
            return Err(GraphError::EmptyGraph);
        }
        proof {
            assert(quantity * parameters.iterations <= 0xffff_ffff * 0xffff_ffff) by (nonlinear_arith)
                requires
                    0 <= quantity <= 0xffff_ffff,
                    0 <= parameters.iterations <= 0xffff_ffff,
            ;
        }
        let total: u64 = quantity as u64 * parameters.iterations as u64;
        if total > usize::MAX as u64 {
            return Err(GraphError::InvalidParameter);
        }
        let mixed = crate::random::mix_seed(parameters.random_state as u64);
        let mut starts: Vec<WalkStart> = Vec::new();
        let mut index: u64 = 0;
        while index < total
            invariant
                self.wf(),
                self.unique_sources@.len() > 0,
                index <= total,
                total == quantity * parameters.iterations,
                total <= usize::MAX,
                mixed == crate::random::mix_seed_spec(parameters.random_state as u64),
                starts@.len() == index,
                forall|i: int|
                    0 <= i < starts@.len() ==> #[trigger] starts@[i] == self.walk_start(
                        i,
                        quantity as int,
                        parameters.random_state,
                        random,
                    ) && starts@[i].node < self.nodes_count() && self.degree(
                        starts@[i].node as int,
                    ) > 0,
            decreases total - index,
        {
            let start = if random {
                proof {
                    if quantity == 0 {
                        assert(total == 0) by (nonlinear_arith)
                            requires
                                total == quantity * parameters.iterations,
                                quantity == 0,
                        ;
                    }
                }
                let local = index % quantity as u64;
                let drawn = crate::random::xorshift(crate::random::advance_state(mixed, local))
                    % 0x1_0000_0000;
                WalkStart { random_state: drawn, node: self.get_unique_source(drawn) }
            } else {
                WalkStart {
                    random_state: crate::random::advance_state(mixed, index),
                    node: self.get_unique_source(index),
                }
            };
            starts.push(start);
            index += 1;
        }
        Ok(starts)
    }

    /// Lays out a run of `quantity` walks from random sources.
    pub fn random_walks_iter(&self, quantity: NodeT, parameters: &WalksParameters) -> (r: Result<
        Vec<WalkStart>,
        GraphError,
    >)
        requires
            self.wf(),
        ensures
            r is Err <==> self.walk_failure(quantity, parameters) is Some,
            r matches Err(e) ==> self.walk_failure(quantity, parameters) == Some(e),
            r matches Ok(starts) ==> starts@.len() == quantity * parameters.iterations && forall|
                i: int,
            |
                0 <= i < starts@.len() ==> #[trigger] starts@[i] == self.walk_start(
                    i,
                    quantity as int,
                    parameters.random_state,
                    true,
                ) && starts@[i].node < self.nodes_count() && self.degree(starts@[i].node as int)
                    > 0,
    {
        self.walk_iter(quantity, parameters, true)
    }

    /// Lays out a run of one walk from every source that has edges, in the
    /// order of the sources.
    pub fn complete_walks_iter(&self, parameters: &WalksParameters) -> (r: Result<
        Vec<WalkStart>,
        GraphError,
    >)
        requires
            self.wf(),
        ensures
            r is Err <==> self.walk_failure(self.unique_sources@.len() as NodeT, parameters) is Some,
            r matches Err(e) ==> self.walk_failure(self.unique_sources@.len() as NodeT, parameters)
                == Some(e),
            r matches Ok(starts) ==> starts@.len() == self.unique_sources@.len()
                * parameters.iterations && forall|i: int|
                0 <= i < starts@.len() ==> #[trigger] starts@[i] == self.walk_start(
                    i,
                    self.unique_sources@.len() as int,
                    parameters.random_state,
                    false,
                ) && starts@[i].node < self.nodes_count() && self.degree(starts@[i].node as int)
                    > 0,
    {
        proof {
            self.lemma_sources_fit();
        }
        self.walk_iter(self.unique_sources.len() as NodeT, parameters, false)
    }

    /// There are no more sources than nodes.
    pub proof fn lemma_sources_fit(&self)
        requires
            self.wf(),
        ensures
            self.unique_sources@.len() <= self.nodes_count(),
    {
        let s = self.unique_sources@;
        if s.len() > 0 {
            lemma_increasing_bound(s, s.len() - 1);
        }
    }

    /// Whether the walks of a run are uniform walks: the graph has no
    /// weights and no bias is in use.
    pub open spec fn walks_uniformly(&self, parameters: &WalksParameters) -> bool {
        self.weights is None && parameters.single_walk_parameters.weights.is_first_order()
    }

    /// Makes the walks of a run that needs no weighing: where the graph has
    /// no weights and no bias is in use, every walk is the uniform walk from
    /// its start, shown through the mapping of the parameters. For any other
    /// run nothing is returned, and the caller makes each walk step by step
    /// with `begin_walk` and `continue_walk`.
    pub fn walks(&self, starts: &Vec<WalkStart>, parameters: &WalksParameters) -> (r: Option<
        Vec<Vec<NodeT>>,
    >)
        requires
            self.wf(),
            parameters.valid_for(self),
            forall|i: int|
                0 <= i < starts@.len() ==> (#[trigger] starts@[i]).node < self.nodes_count()
                    && self.degree(starts@[i].node as int) > 0,
        ensures
            r is Some <==> self.walks_uniformly(parameters),
            r matches Some(walks) ==> walks@.len() == starts@.len() && forall|i: int|
                0 <= i < walks@.len() ==> (#[trigger] walks@[i])@ == Self::shown_walk(
                    parameters,
                    self.uniform_walk_spec(
                        starts@[i].node,
                        starts@[i].random_state,
                        parameters.single_walk_parameters.length as int,
                    ),
                ),
    {
        if self.weights.is_some() || !parameters.is_first_order_walk() {
            return None;
        }
        let length = parameters.single_walk_parameters.length;
        let mut walks: Vec<Vec<NodeT>> = Vec::new();
        let mut i: usize = 0;
        while i < starts.len()
            invariant
                self.wf(),
                i <= starts@.len(),
                parameters.valid_for(self),
                length == parameters.single_walk_parameters.length,
                forall|k: int|
                    0 <= k < starts@.len() ==> (#[trigger] starts@[k]).node < self.nodes_count()
                        && self.degree(starts@[k].node as int) > 0,
                walks@.len() == i,
                forall|k: int|
                    0 <= k < i ==> (#[trigger] walks@[k])@ == Self::shown_walk(
                        parameters,
                        self.uniform_walk_spec(
                            starts@[k].node,
                            starts@[k].random_state,
                            length as int,
                        ),
                    ),
            decreases starts@.len() - i,
        {
            let start = starts[i];
            let walk = self.uniform_walk(start.node, start.random_state, length);
            proof {
                assert forall|k: int| 0 <= k < walk@.len() implies #[trigger] walk@[k]
                    < self.nodes_count() && self.degree(walk@[k] as int) > 0 by {
                    if k > 0 {
                        assert(self.has_edge_between(walk@[k - 1] as int, walk@[k] as int));
                        let e = choose|e: int|
                            0 <= e < self.edges_count() && self.source(e) == walk@[k - 1]
                                && self.destination(e) == walk@[k];
                        self.lemma_destination_has_edges(e);
                    }
                }
            }
            walks.push(self.finish_walk(walk, parameters));
            i += 1;
        }
        Some(walks)
    }
}

/// Entry `i` of an increasing list of nodes is `i` or more.
proof fn lemma_increasing_bound(s: Seq<NodeT>, i: int)
    requires
        forall|a: int, b: int| 0 <= a < b < s.len() ==> s[a] < s[b],
        0 <= i < s.len(),
    ensures
        s[i] >= i,
    decreases i,
{
    if i > 0 {
        lemma_increasing_bound(s, i - 1);
        assert(s[i - 1] < s[i]);
    }
}

} // verus!
