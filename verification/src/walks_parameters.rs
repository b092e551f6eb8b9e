//! The parameters of random walks.

use vstd::prelude::*;
use std::collections::HashMap;
use crate::errors::GraphError;
use crate::graph::Graph;
use crate::types::{is_valid_weight, valid_weight, NodeT, WeightT};

verus! {

/// The bit pattern of the weight one, which leaves a transition as it is.
pub const WEIGHT_ONE: WeightT = 0x3f80_0000;

/// The biases of a walk, each a weight held as the bit pattern of a 32-bit
/// float. The return weight applies to steps back to where the walk came
/// from, the explore weight to steps away from the neighbours of that node,
/// and the two change weights divide the steps that keep the type of the
/// node or of the edge.
#[derive(Clone, Copy, Debug, PartialEq, Eq, Structural)]
pub struct WalkWeights {
    pub return_weight: WeightT,
    pub explore_weight: WeightT,
    pub change_node_type_weight: WeightT,
    pub change_edge_type_weight: WeightT,
}

/// The parameters of one walk: how many nodes it holds, its biases, and how
/// many of the edges of a node a step looks at, where that is limited.
#[derive(Clone, Copy, Debug)]
pub struct SingleWalkParameters {
    pub length: NodeT,
    pub weights: WalkWeights,
    pub max_neighbours: Option<NodeT>,
}

/// The parameters of a run of walks: those of each walk, how many times each
/// start is walked from, the random state, and the mapping that renumbers
/// the nodes of the walks, where there is one.
pub struct WalksParameters {
    pub single_walk_parameters: SingleWalkParameters,
    pub iterations: NodeT,
    pub random_state: NodeT,
    pub dense_node_mapping: Option<HashMap<NodeT, NodeT>>,
}

/// Whether `weight` differs from one.
pub fn not_one(weight: WeightT) -> (differs: bool)
    ensures
        differs == (weight != WEIGHT_ONE),
{
    weight != WEIGHT_ONE
}

impl WalkWeights {
    /// Biases that leave every transition as it is.
    pub fn default() -> (weights: WalkWeights)
        ensures
            weights.is_first_order(),
            weights.valid(),
    {
        WalkWeights {
            return_weight: WEIGHT_ONE,
            explore_weight: WEIGHT_ONE,
            change_node_type_weight: WEIGHT_ONE,
            change_edge_type_weight: WEIGHT_ONE,
        }
    }

    /// Whether every bias is one.
    pub open spec fn is_first_order(&self) -> bool {
        &&& self.return_weight == WEIGHT_ONE
        &&& self.explore_weight == WEIGHT_ONE
        &&& self.change_node_type_weight == WEIGHT_ONE
        &&& self.change_edge_type_weight == WEIGHT_ONE
    }

    /// Whether every bias is strictly positive and finite.
    pub open spec fn valid(&self) -> bool {
        &&& valid_weight(self.return_weight)
        &&& valid_weight(self.explore_weight)
        &&& valid_weight(self.change_node_type_weight)
        &&& valid_weight(self.change_edge_type_weight)
    }

    /// Whether the walk is a first-order walk: no bias is in use.
    pub fn is_first_order_walk(&self) -> (first_order: bool)
        ensures
            first_order == self.is_first_order(),
    {
        !not_one(self.return_weight) && !not_one(self.explore_weight) && !not_one(
            self.change_node_type_weight,
        ) && !not_one(self.change_edge_type_weight)
    }

    /// Refuses a bias that is not strictly positive and finite.
    pub fn validate(&self) -> (r: Result<(), GraphError>)
        ensures
            r is Ok <==> self.valid(),
            r is Err ==> r->Err_0 == GraphError::InvalidParameter,
    {
        if is_valid_weight(self.return_weight) && is_valid_weight(self.explore_weight)
            && is_valid_weight(self.change_node_type_weight) && is_valid_weight(
            self.change_edge_type_weight,
        ) {
            Ok(())
        } else {
            Err(GraphError::InvalidParameter)
        }
    }
}

impl SingleWalkParameters {
    /// Whether the parameters can be walked with: two nodes or more, valid
    /// biases, and a limit of neighbours that is not zero.
    pub open spec fn valid(&self) -> bool {
        &&& self.length >= 2
        &&& self.weights.valid()
        &&& self.max_neighbours != Some(0u32)
    }

    /// Parameters of a walk of `length` nodes without biases and without a
    /// limit of neighbours. A walk holds two nodes or more.
    pub fn new(length: NodeT) -> (r: Result<SingleWalkParameters, GraphError>)
        ensures
            r is Ok <==> length >= 2,
            r is Err ==> r->Err_0 == GraphError::InvalidParameter,
            r matches Ok(p) ==> p.length == length && p.weights.is_first_order()
                && p.max_neighbours is None && p.valid(),
    {
        if length < 2 {
            return Err(GraphError::InvalidParameter);
        }
        Ok(SingleWalkParameters { length, weights: WalkWeights::default(), max_neighbours: None })
    }

    /// Refuses parameters that cannot be walked with.
    pub fn validate(&self) -> (r: Result<(), GraphError>)
        ensures
            r is Ok <==> self.valid(),
            r is Err ==> r->Err_0 == GraphError::InvalidParameter,
    {
        if self.length < 2 {
            return Err(GraphError::InvalidParameter);
        }
        match self.max_neighbours {
            Some(m) => {
                if m == 0 {
                    return Err(GraphError::InvalidParameter);
                }
            },
            None => {},
        }
        self.weights.validate()
    }
}

impl WalksParameters {
    /// Whether the run can be made on `g`: the graph is undirected, the
    /// parameters of each walk are valid, every start is walked from once or
    /// more, and the mapping, where there is one, renumbers every node that
    /// a walk can visit.
    pub open spec fn valid_for(&self, g: &Graph) -> bool {
        &&& !g.directed
        &&& self.single_walk_parameters.valid()
        &&& self.iterations > 0
        &&& self.dense_node_mapping matches Some(mapping) ==> forall|i: int|
            0 <= i < g.unique_sources@.len() ==> mapping@.contains_key(
                #[trigger] g.unique_sources@[i],
            )
    }

    /// What `validate` answers on `g`.
    pub open spec fn validate_outcome(&self, g: &Graph) -> Result<(), GraphError> {
        if g.directed {
            Err(GraphError::DirectedGraph)
        } else if !self.valid_for(g) {
            Err(GraphError::InvalidParameter)
        } else {
            Ok(())
        }
    }

    /// Parameters of a run of walks of `length` nodes: one walk from each
    /// start, random state 42, no biases, no limit and no mapping.
    pub fn new(length: NodeT) -> (r: Result<WalksParameters, GraphError>)
        ensures
            r is Ok <==> length >= 2,
            r is Err ==> r->Err_0 == GraphError::InvalidParameter,
            r matches Ok(p) ==> p.single_walk_parameters.length == length
                && p.single_walk_parameters.weights.is_first_order()
                && p.single_walk_parameters.max_neighbours is None && p.iterations == 1
                && p.random_state == 42 && p.dense_node_mapping is None,
    {
        match SingleWalkParameters::new(length) {
            Err(e) => Err(e),
            Ok(single_walk_parameters) => Ok(
                WalksParameters {
                    single_walk_parameters,
                    iterations: 1,
                    random_state: 42,
                    dense_node_mapping: None,
                },
            ),
        }
    }

    /// Sets how many times each start is walked from, where that is given;
    /// zero times is refused.
    pub fn set_iterations(self, iterations: Option<NodeT>) -> (r: Result<WalksParameters, GraphError>)
        ensures
            r is Err <==> iterations == Some(0u32),
            r is Err ==> r->Err_0 == GraphError::InvalidParameter,
            r matches Ok(p) ==> p == (match iterations {
                Some(it) => WalksParameters { iterations: it, ..self },
                None => self,
            }),
    {
        let mut p = self;
        if let Some(it) = iterations {
            if it == 0 {
                return Err(GraphError::InvalidParameter);
            }
            p.iterations = it;
        }
        Ok(p)
    }

    /// Sets the limit of neighbours, where one is given; a limit of zero is
    /// refused.
    pub fn set_max_neighbours(self, max_neighbours: Option<NodeT>) -> (r: Result<
        WalksParameters,
        GraphError,
    >)
        ensures
            r is Err <==> max_neighbours == Some(0u32),
            r is Err ==> r->Err_0 == GraphError::InvalidParameter,
            r matches Ok(p) ==> p == (match max_neighbours {
                Some(m) => WalksParameters {
                    single_walk_parameters: SingleWalkParameters {
                        max_neighbours: Some(m),
                        ..self.single_walk_parameters
                    },
                    ..self
                },
                None => self,
            }),
    {
        let mut p = self;
        if let Some(m) = max_neighbours {
            if m == 0 {
                return Err(GraphError::InvalidParameter);
            }
            p.single_walk_parameters.max_neighbours = Some(m);
        }
        Ok(p)
    }

    /// Sets the random state, where one is given.
    pub fn set_random_state(self, random_state: Option<NodeT>) -> (p: WalksParameters)
        ensures
            p == (match random_state {
                Some(s) => WalksParameters { random_state: s, ..self },
                None => self,
            }),
    {
        let mut p = self;
        if let Some(s) = random_state {
            p.random_state = s;
        }
        p
    }

    /// Sets the mapping that renumbers the nodes of the walks.
    pub fn set_dense_node_mapping(self, dense_node_mapping: Option<HashMap<NodeT, NodeT>>) -> (p:
        WalksParameters)
        ensures
            p == (WalksParameters { dense_node_mapping, ..self }),
    {
        let mut p = self;
        p.dense_node_mapping = dense_node_mapping;
        p
    }

    /// Sets the biases of the walks; a bias that is not strictly positive
    /// and finite is refused.
    pub fn set_weights(self, weights: WalkWeights) -> (r: Result<WalksParameters, GraphError>)
        ensures
            r is Ok <==> weights.valid(),
            r is Err ==> r->Err_0 == GraphError::InvalidParameter,
            r matches Ok(p) ==> p == (WalksParameters {
                single_walk_parameters: SingleWalkParameters {
                    weights,
                    ..self.single_walk_parameters
                },
                ..self
            }),
    {
        match weights.validate() {
            Err(e) => Err(e),
            Ok(()) => {
                let mut p = self;
                p.single_walk_parameters.weights = weights;
                Ok(p)
            },
        }
    }

    /// Whether no bias is in use.
    pub fn is_first_order_walk(&self) -> (first_order: bool)
        ensures
            first_order == self.single_walk_parameters.weights.is_first_order(),
    {
        self.single_walk_parameters.weights.is_first_order_walk()
    }

    /// Refuses a run that cannot be made on `g`: a directed graph first,
    /// then parameters that are not valid for the graph.
    pub fn validate(&self, g: &Graph) -> (r: Result<(), GraphError>)
        requires
            g.wf(),
        ensures
            r == self.validate_outcome(g),
    {
        broadcast use vstd::std_specs::hash::group_hash_axioms;

        if g.directed {
            return Err(GraphError::DirectedGraph);
        }
        match self.single_walk_parameters.validate() {
            Err(e) => {
                return Err(e);
            },
            Ok(()) => {},
        }
        if self.iterations == 0 {
            return Err(GraphError::InvalidParameter);
        }
        match &self.dense_node_mapping {
            None => {},
            Some(mapping) => {
                let mut i: usize = 0;
                while i < g.unique_sources.len()
                    invariant
                        i <= g.unique_sources@.len(),
                        !g.directed,
                        self.dense_node_mapping == Some(*mapping),
                        forall|k: int|
                            0 <= k < i ==> mapping@.contains_key(#[trigger] g.unique_sources@[k]),
                    decreases g.unique_sources@.len() - i,
                {
                    if !mapping.contains_key(&g.unique_sources[i]) {
                        proof {
                            assert(!mapping@.contains_key(g.unique_sources@[i as int]));
                        }
                        return Err(GraphError::InvalidParameter);
                    }
                    i += 1;
                }
            },
        }
        Ok(())
    }
}

} // verus!
