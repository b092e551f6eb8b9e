//! What a graph tells of itself.

use vstd::prelude::*;
use std::collections::HashMap;
use crate::errors::GraphError;
use crate::graph::Graph;
use crate::types::{EdgeT, EdgeTypeT, NodeT, NodeTypeT, WeightT};

verus! {

impl Graph {
    /// The number of distinct pairs of a source and a destination.
    pub fn get_unique_edges_number(&self) -> (number: EdgeT)
        requires
            self.wf(),
        ensures
            number == self.unique_edges(),
    {
        self.unique_edges_number
    }

    /// Whether some pair of nodes is joined by more than one edge.
    pub fn is_multigraph(&self) -> (multi: bool)
        requires
            self.wf(),
        ensures
            multi == (self.unique_edges() != self.edges_count()),
            multi == (self.multi_edge_duplicates() > 0),
    {
        proof {
            crate::stats::lemma_runs_and_repeats(self.edges@, self.edges@.len() as int);
        }
        self.unique_edges_number != self.get_edges_number()
    }

    /// The exclusive upper bound of the edges of every source.
    pub fn get_outbounds(&self) -> (outbounds: Vec<EdgeT>)
        requires
            self.wf(),
        ensures
            outbounds@.len() == self.nodes_count(),
            forall|s: int| 0 <= s < self.nodes_count() ==> #[trigger] outbounds@[s] == self.upper(s),
    {
        let n = self.get_nodes_number();
        let mut outbounds: Vec<EdgeT> = Vec::new();
        let mut src: NodeT = 0;
        while src < n
            invariant
                self.wf(),
                src <= n,
                n == self.nodes_count(),
                outbounds@.len() == src,
                forall|s: int| 0 <= s < src ==> #[trigger] outbounds@[s] == self.upper(s),
            decreases n - src,
        {
            let (_, high) = self.get_destinations_min_max_edge_ids(src);
            outbounds.push(high);
            src += 1;
        }
        outbounds
    }

    /// The number of edges that leave every node.
    pub fn get_node_degrees(&self) -> (degrees: Vec<EdgeT>)
        requires
            self.wf(),
        ensures
            degrees@.len() == self.nodes_count(),
            forall|s: int| 0 <= s < self.nodes_count() ==> #[trigger] degrees@[s] == self.degree(s),
    {
        let n = self.get_nodes_number();
        let mut degrees: Vec<EdgeT> = Vec::new();
        let mut node: NodeT = 0;
        while node < n
            invariant
                self.wf(),
                node <= n,
                n == self.nodes_count(),
                degrees@.len() == node,
                forall|s: int| 0 <= s < node ==> #[trigger] degrees@[s] == self.degree(s),
            decreases n - node,
        {
            degrees.push(self.get_node_degree(node));
            node += 1;
        }
        degrees
    }

    /// The number of self-loops, parallel ones counted each.
    pub fn get_self_loop_number(&self) -> (number: EdgeT)
        requires
            self.wf(),
        ensures
            number == self.self_loops(),
    {
        self.self_loop_number
    }

    /// The number of nodes that have a self-loop.
    pub fn get_unique_self_loop_number(&self) -> (number: NodeT)
        requires
            self.wf(),
        ensures
            number == self.unique_self_loops(),
    {
        self.unique_self_loop_number
    }
}

} // verus!

verus! {

impl Graph {
    /// The name of the graph.
    pub fn get_name(&self) -> (name: String)
        ensures
            name@ == self.name@,
    {
        self.name.clone()
    }

    /// There are no more sources than nodes that an edge touches.
    pub proof fn lemma_sources_are_touched(&self, k: int)
        requires
            self.wf(),
            0 <= k <= self.nodes_count(),
        ensures
            crate::components::roots_below(self.unique_sources@, k) <= crate::graph::touched_upto(
                self.edges@,
                self.radix as int,
                k,
            ),
        decreases k,
    {
        if k == 0 {
            crate::components::lemma_roots_none(self.unique_sources@);
        } else {
            self.lemma_sources_are_touched(k - 1);
            crate::components::lemma_roots_step(self.unique_sources@, k - 1);
            if exists|c: int| 0 <= c < self.unique_sources@.len() && self.unique_sources@[c] == k - 1 {
                let c = choose|c: int|
                    0 <= c < self.unique_sources@.len() && self.unique_sources@[c] == k - 1;
                assert(self.degree(self.unique_sources@[c] as int) > 0);
                self.lemma_degree_positive(k - 1);
                let e = choose|e: int| 0 <= e < self.edges_count() && #[trigger] self.source(e) == k - 1;
                assert(crate::encoding::src_of(self.edges@[e] as int, self.radix as int) == k - 1);
            }
        }
    }

    /// The number of traps: nodes that edges lead to but no edge leaves.
    pub fn get_traps_number(&self) -> (traps: EdgeT)
        requires
            self.wf(),
        ensures
            traps == self.not_singletons() - self.unique_sources@.len(),
    {
        proof {
            self.lemma_sources_are_touched(self.nodes_count() as int);
            crate::components::lemma_roots_count(self.unique_sources@, self.nodes_count() as int);
        }
        self.not_singleton_nodes_number as EdgeT - self.unique_sources.len() as EdgeT
    }

    /// Whether the graph has traps.
    pub fn has_traps(&self) -> (traps: bool)
        requires
            self.wf(),
        ensures
            traps == (self.not_singletons() > self.unique_sources@.len()),
    {
        self.get_traps_number() > 0
    }

    /// Whether the graph is directed.
    pub fn is_directed(&self) -> (directed: bool)
        ensures
            directed == self.directed,
    {
        self.directed
    }

    /// Whether the edges have weights.
    pub fn has_weights(&self) -> (weighted: bool)
        ensures
            weighted == (self.weights is Some),
    {
        self.weights.is_some()
    }

    /// Whether the edges have types.
    pub fn has_edge_types(&self) -> (typed: bool)
        ensures
            typed == (self.edge_types is Some),
    {
        self.edge_types.is_some()
    }

    /// Whether the nodes have types.
    pub fn has_node_types(&self) -> (typed: bool)
        ensures
            typed == (self.node_types is Some),
    {
        self.node_types.is_some()
    }

    /// Whether the graph has self-loops.
    pub fn has_selfloops(&self) -> (loops: bool)
        requires
            self.wf(),
        ensures
            loops == (self.self_loops() > 0),
    {
        self.self_loop_number > 0
    }

    /// The number of nodes that some edge starts or ends at.
    pub fn get_not_singleton_nodes_number(&self) -> (number: NodeT)
        requires
            self.wf(),
        ensures
            number == self.not_singletons(),
    {
        self.not_singleton_nodes_number
    }

    /// No more nodes are touched by an edge than there are nodes.
    pub proof fn lemma_touched_bound(keys: Seq<u64>, radix: int, k: int)
        requires
            0 <= k,
        ensures
            crate::graph::touched_upto(keys, radix, k) <= k,
        decreases k,
    {
        if k > 0 {
            Self::lemma_touched_bound(keys, radix, k - 1);
        }
    }

    /// The number of nodes that no edge starts or ends at.
    pub fn get_singleton_nodes_number(&self) -> (number: NodeT)
        requires
            self.wf(),
        ensures
            number == self.nodes_count() - self.not_singletons(),
    {
        proof {
            Self::lemma_touched_bound(self.edges@, self.radix as int, self.nodes_count() as int);
        }
        self.get_nodes_number() - self.not_singleton_nodes_number
    }

    /// Whether some node has no edge at all.
    pub fn has_singletons(&self) -> (singletons: bool)
        requires
            self.wf(),
        ensures
            singletons == (self.not_singletons() < self.nodes_count()),
    {
        self.get_singleton_nodes_number() > 0
    }

    /// The source of every edge, in edge order.
    pub fn get_sources(&self) -> (sources: Vec<NodeT>)
        requires
            self.wf(),
        ensures
            sources@.len() == self.edges_count(),
            forall|e: int| 0 <= e < self.edges_count() ==> #[trigger] sources@[e] == self.source(e),
    {
        let m = self.edges.len();
        let mut sources: Vec<NodeT> = Vec::new();
        let mut e: usize = 0;
        while e < m
            invariant
                self.wf(),
                e <= m,
                m == self.edges_count(),
                sources@.len() == e,
                forall|k: int| 0 <= k < e ==> #[trigger] sources@[k] == self.source(k),
            decreases m - e,
        {
            sources.push(self.get_edge_from_edge_id(e as EdgeT).0);
            e += 1;
        }
        sources
    }

    /// The destination of every edge, in edge order.
    pub fn get_destinations(&self) -> (destinations: Vec<NodeT>)
        requires
            self.wf(),
        ensures
            destinations@.len() == self.edges_count(),
            forall|e: int|
                0 <= e < self.edges_count() ==> #[trigger] destinations@[e] == self.destination(e),
    {
        let m = self.edges.len();
        let mut destinations: Vec<NodeT> = Vec::new();
        let mut e: usize = 0;
        while e < m
            invariant
                self.wf(),
                e <= m,
                m == self.edges_count(),
                destinations@.len() == e,
                forall|k: int| 0 <= k < e ==> #[trigger] destinations@[k] == self.destination(k),
            decreases m - e,
        {
            destinations.push(self.get_destination(e as EdgeT));
            e += 1;
        }
        destinations
    }

    /// The name of node `node_id`; an identifier that is no node is refused.
    pub fn get_node_name(&self, node_id: NodeT) -> (r: Result<String, GraphError>)
        requires
            self.wf(),
        ensures
            r is Ok <==> node_id < self.nodes_count(),
            r is Err ==> r->Err_0 == GraphError::OutOfRange,
            r matches Ok(name) ==> name@ == self.nodes.reverse_map@[node_id as int]@
                && self.nodes.id_of(name@) == Some(node_id),
    {
        if node_id < self.get_nodes_number() {
            Ok(self.nodes.translate(node_id).to_string())
        } else {
            Err(GraphError::OutOfRange)
        }
    }

    /// The identifier of the node named `node_name`; a name that no node has
    /// is refused.
    pub fn get_node_id(&self, node_name: &str) -> (r: Result<NodeT, GraphError>)
        requires
            self.wf(),
        ensures
            r is Ok <==> self.nodes.has_name(node_name@),
            r is Err ==> r->Err_0 == GraphError::NameNotFound,
            r matches Ok(id) ==> self.nodes.id_of(node_name@) == Some(id),
    {
        match self.nodes.get(node_name) {
            Some(id) => Ok(id),
            None => Err(GraphError::NameNotFound),
        }
    }

    /// The identifier of the node named `node_name`, which the graph has.
    pub fn get_unchecked_node_id(&self, node_name: &str) -> (id: NodeT)
        requires
            self.wf(),
            self.nodes.has_name(node_name@),
        ensures
            self.nodes.id_of(node_name@) == Some(id),
    {
        self.nodes.get(node_name).unwrap()
    }

    /// The names of the sources of the edges, in edge order.
    pub fn get_source_names(&self) -> (names: Vec<String>)
        requires
            self.wf(),
        ensures
            names@.len() == self.edges_count(),
            forall|e: int|
                0 <= e < self.edges_count() ==> (#[trigger] names@[e])@
                    == self.nodes.reverse_map@[self.source(e)]@,
    {
        let m = self.edges.len();
        let mut names: Vec<String> = Vec::new();
        let mut e: usize = 0;
        while e < m
            invariant
                self.wf(),
                e <= m,
                m == self.edges_count(),
                names@.len() == e,
                forall|k: int|
                    0 <= k < e ==> (#[trigger] names@[k])@
                        == self.nodes.reverse_map@[self.source(k)]@,
            decreases m - e,
        {
            let src = self.get_edge_from_edge_id(e as EdgeT).0;
            names.push(self.nodes.translate(src).to_string());
            e += 1;
        }
        names
    }

    /// The names of the destinations of the edges, in edge order.
    pub fn get_destination_names(&self) -> (names: Vec<String>)
        requires
            self.wf(),
        ensures
            names@.len() == self.edges_count(),
            forall|e: int|
                0 <= e < self.edges_count() ==> (#[trigger] names@[e])@
                    == self.nodes.reverse_map@[self.destination(e)]@,
    {
        let m = self.edges.len();
        let mut names: Vec<String> = Vec::new();
        let mut e: usize = 0;
        while e < m
            invariant
                self.wf(),
                e <= m,
                m == self.edges_count(),
                names@.len() == e,
                forall|k: int|
                    0 <= k < e ==> (#[trigger] names@[k])@
                        == self.nodes.reverse_map@[self.destination(k)]@,
            decreases m - e,
        {
            let dst = self.get_destination(e as EdgeT);
            names.push(self.nodes.translate(dst).to_string());
            e += 1;
        }
        names
    }

    /// The name of every node, in the order of the identifiers.
    pub fn get_nodes_reverse_mapping(&self) -> (names: Vec<String>)
        requires
            self.wf(),
        ensures
            names@.len() == self.nodes_count(),
            forall|i: int|
                0 <= i < names@.len() ==> (#[trigger] names@[i])@ == self.nodes.reverse_map@[i]@,
    {
        crate::vocabulary::copy_names(&self.nodes.reverse_map)
    }

    /// The names of the nodes with their identifiers, in the order in which
    /// the names were given.
    pub fn get_nodes_mapping(&self) -> (mapping: Vec<(String, NodeT)>)
        requires
            self.wf(),
        ensures
            mapping@.len() == self.nodes_count(),
            forall|i: int|
                0 <= i < mapping@.len() ==> (#[trigger] mapping@[i]).0@ == self.nodes.names()[i]
                    && mapping@[i].1 == self.nodes.ids()[i],
    {
        let n = self.nodes.keys.len();
        let mut mapping: Vec<(String, NodeT)> = Vec::new();
        let mut i: usize = 0;
        while i < n
            invariant
                self.wf(),
                i <= n,
                n == self.nodes.keys@.len(),
                mapping@.len() == i,
                forall|k: int|
                    0 <= k < i ==> (#[trigger] mapping@[k]).0@ == self.nodes.names()[k]
                        && mapping@[k].1 == self.nodes.ids()[k],
            decreases n - i,
        {
            mapping.push((self.nodes.keys[i].clone(), self.nodes.values[i]));
            i += 1;
        }
        mapping
    }

    /// The number of sources that have edges.
    pub fn get_unique_sources_number(&self) -> (number: NodeT)
        requires
            self.wf(),
        ensures
            number == self.unique_sources@.len(),
    {
        proof {
            self.lemma_sources_fit();
        }
        self.unique_sources.len() as NodeT
    }

    /// The destinations of the edges `min_edge_id..max_edge_id`.
    pub fn get_destinations_range(&self, min_edge_id: EdgeT, max_edge_id: EdgeT) -> (destinations:
        Vec<NodeT>)
        requires
            self.wf(),
            min_edge_id <= max_edge_id <= self.edges_count(),
        ensures
            destinations@.len() == max_edge_id - min_edge_id,
            forall|i: int|
                0 <= i < destinations@.len() ==> #[trigger] destinations@[i] == self.destination(
                    min_edge_id + i,
                ),
    {
        let mut destinations: Vec<NodeT> = Vec::new();
        let mut e = min_edge_id;
        while e < max_edge_id
            invariant
                self.wf(),
                min_edge_id <= e <= max_edge_id <= self.edges_count(),
                destinations@.len() == e - min_edge_id,
                forall|i: int|
                    0 <= i < destinations@.len() ==> #[trigger] destinations@[i]
                        == self.destination(min_edge_id + i),
            decreases max_edge_id - e,
        {
            destinations.push(self.get_destination(e));
            e += 1;
        }
        destinations
    }

    /// The destinations of the edges that leave `src`, in edge order.
    pub fn get_source_destinations_range(&self, src: NodeT) -> (destinations: Vec<NodeT>)
        requires
            self.wf(),
            src < self.nodes_count(),
        ensures
            destinations@ == self.neighbours(src as int),
    {
        let (low, high) = self.get_destinations_min_max_edge_ids(src);
        let destinations = self.get_destinations_range(low, high);
        proof {
            assert(destinations@ =~= self.neighbours(src as int));
        }
        destinations
    }
}

} // verus!

verus! {

/// A copy of a list of plain values.
pub fn copy_of<T: Copy>(values: &Vec<T>) -> (copy: Vec<T>)
    ensures
        copy@ == values@,
{
    let mut copy: Vec<T> = Vec::new();
    let mut i: usize = 0;
    while i < values.len()
        invariant
            i <= values@.len(),
            copy@.len() == i,
            forall|k: int| 0 <= k < i ==> copy@[k] == values@[k],
        decreases values@.len() - i,
    {
        copy.push(values[i]);
        i += 1;
    }
    proof {
        assert(copy@ =~= values@);
    }
    copy
}

impl Graph {
    /// The type of every edge, where the edges have types.
    pub fn get_edge_types(&self) -> (types: Option<Vec<EdgeTypeT>>)
        ensures
            types is Some <==> self.edge_types is Some,
            types matches Some(t) ==> t@ == self.edge_types->Some_0.ids@,
    {
        match &self.edge_types {
            Some(t) => Some(copy_of(&t.ids)),
            None => None,
        }
    }

    /// The type of every node, where the nodes have types.
    pub fn get_node_types(&self) -> (types: Option<Vec<NodeTypeT>>)
        ensures
            types is Some <==> self.node_types is Some,
            types matches Some(t) ==> t@ == self.node_types->Some_0.ids@,
    {
        match &self.node_types {
            Some(t) => Some(copy_of(&t.ids)),
            None => None,
        }
    }

    /// The weight of every edge, where the edges have weights.
    pub fn get_weights(&self) -> (weights: Option<Vec<WeightT>>)
        ensures
            weights is Some <==> self.weights is Some,
            weights matches Some(w) ==> w@ == self.weights->Some_0@,
    {
        match &self.weights {
            Some(w) => Some(copy_of(w)),
            None => None,
        }
    }

    /// The names of the edge types, in the order of their identifiers.
    pub fn get_edge_types_reverse_mapping(&self) -> (names: Option<Vec<String>>)
        ensures
            names is Some <==> self.edge_types is Some,
            names matches Some(list) ==> list@.len()
                == self.edge_types->Some_0.vocabulary.reverse_map@.len() && forall|i: int|
                0 <= i < list@.len() ==> (#[trigger] list@[i])@
                    == self.edge_types->Some_0.vocabulary.reverse_map@[i]@,
    {
        match &self.edge_types {
            Some(t) => Some(crate::vocabulary::copy_names(&t.vocabulary.reverse_map)),
            None => None,
        }
    }

    /// The names of the node types, in the order of their identifiers.
    pub fn get_node_types_reverse_mapping(&self) -> (names: Option<Vec<String>>)
        ensures
            names is Some <==> self.node_types is Some,
            names matches Some(list) ==> list@.len()
                == self.node_types->Some_0.vocabulary.reverse_map@.len() && forall|i: int|
                0 <= i < list@.len() ==> (#[trigger] list@[i])@
                    == self.node_types->Some_0.vocabulary.reverse_map@[i]@,
    {
        match &self.node_types {
            Some(t) => Some(crate::vocabulary::copy_names(&t.vocabulary.reverse_map)),
            None => None,
        }
    }

    /// The bound of the edge keys: the key that a node one past the last
    /// would have with itself.
    pub fn get_max_encodable_edge_number(&self) -> (bound: EdgeT)
        requires
            self.wf(),
        ensures
            bound == self.nodes_count() * self.radix + self.nodes_count(),
            forall|e: int| 0 <= e < self.edges_count() ==> #[trigger] self.edges@[e] < bound,
    {
        let n = self.get_nodes_number() as u64;
        proof {
            crate::encoding::lemma_radix_bounds(self.nodes_count());
            assert(n * self.radix <= 0xffff_ffff * 0x1_0000_0000) by (nonlinear_arith)
                requires
                    0 <= n <= 0xffff_ffff,
                    0 < self.radix <= 0x1_0000_0000,
            ;
            assert forall|e: int| 0 <= e < self.edges_count() implies #[trigger] self.edges@[e] < n
                * self.radix + n by {
                assert(self.source(e) < self.nodes_count());
                crate::encoding::lemma_key_below_source(
                    self.edges@[e] as int,
                    self.radix as int,
                    n as int,
                );
            }
        }
        n * self.radix + n
    }

    /// The type of edge `edge_id`, where the edges have types.
    pub fn get_unchecked_edge_type(&self, edge_id: EdgeT) -> (t: Option<EdgeTypeT>)
        requires
            self.wf(),
            edge_id < self.edges_count(),
        ensures
            t == self.edge_type_at(edge_id as int),
    {
        let m = self.edges.len();
        match &self.edge_types {
            Some(types) => Some(types.ids[edge_id as usize]),
            None => None,
        }
    }

    /// The type of node `node_id`, where the nodes have types.
    pub fn get_unchecked_node_type(&self, node_id: NodeT) -> (t: Option<NodeTypeT>)
        requires
            self.wf(),
            node_id < self.nodes_count(),
        ensures
            t is Some <==> self.node_types is Some,
            t matches Some(id) ==> id == self.node_types->Some_0.ids@[node_id as int],
    {
        match &self.node_types {
            Some(types) => Some(types.ids[node_id as usize]),
            None => None,
        }
    }

    /// The type of node `node_id`. A graph without node types and an
    /// identifier that is no node are refused.
    pub fn get_node_type(&self, node_id: NodeT) -> (r: Result<NodeTypeT, GraphError>)
        requires
            self.wf(),
        ensures
            r is Ok <==> self.node_types is Some && node_id < self.nodes_count(),
            r matches Ok(id) ==> id == self.node_types->Some_0.ids@[node_id as int],
            r matches Err(e) ==> e == (if self.node_types is None {
                GraphError::MissingNodeTypes
            } else {
                GraphError::OutOfRange
            }),
    {
        match &self.node_types {
            Some(types) => {
                if (node_id as usize) < types.ids.len() {
                    Ok(types.ids[node_id as usize])
                } else {
                    Err(GraphError::OutOfRange)
                }
            },
            None => Err(GraphError::MissingNodeTypes),
        }
    }

    /// The type of edge `edge_id`. A graph without edge types and an
    /// identifier that is no edge are refused.
    pub fn get_edge_type(&self, edge_id: EdgeT) -> (r: Result<EdgeTypeT, GraphError>)
        requires
            self.wf(),
        ensures
            r is Ok <==> self.edge_types is Some && edge_id < self.edges_count(),
            r matches Ok(id) ==> Some(id) == self.edge_type_at(edge_id as int),
            r matches Err(e) ==> e == (if self.edge_types is None {
                GraphError::MissingEdgeTypes
            } else {
                GraphError::OutOfRange
            }),
    {
        match &self.edge_types {
            Some(types) => {
                if edge_id < types.ids.len() as EdgeT {
                    Ok(types.ids[edge_id as usize])
                } else {
                    Err(GraphError::OutOfRange)
                }
            },
            None => Err(GraphError::MissingEdgeTypes),
        }
    }

    /// The name of the type of node `node_id`, where the nodes have types.
    pub fn get_node_type_string(&self, node_id: NodeT) -> (name: Option<String>)
        requires
            self.wf(),
            node_id < self.nodes_count(),
        ensures
            name is Some <==> self.node_types is Some,
            name matches Some(text) ==> text@
                == self.node_types->Some_0.vocabulary.reverse_map@[self.node_types->Some_0.ids@[node_id as int] as int]@,
    {
        match &self.node_types {
            Some(types) => Some(types.translate(types.ids[node_id as usize]).to_string()),
            None => None,
        }
    }

    /// The name of the type of edge `edge_id`, where the edges have types.
    pub fn get_edge_type_string(&self, edge_id: EdgeT) -> (name: Option<String>)
        requires
            self.wf(),
            edge_id < self.edges_count(),
        ensures
            name is Some <==> self.edge_types is Some,
            name matches Some(text) ==> text@
                == self.edge_types->Some_0.vocabulary.reverse_map@[self.edge_types->Some_0.ids@[edge_id as int] as int]@,
    {
        let m = self.edges.len();
        match &self.edge_types {
            Some(types) => Some(types.translate(types.ids[edge_id as usize]).to_string()),
            None => None,
        }
    }

    /// The weight of edge `edge_id`, where the edges have weights.
    pub fn get_edge_weight(&self, edge_id: EdgeT) -> (weight: Option<WeightT>)
        requires
            self.wf(),
            edge_id < self.edges_count(),
        ensures
            weight == self.weight_at(edge_id as int),
    {
        let m = self.edges.len();
        match &self.weights {
            Some(weights) => Some(weights[edge_id as usize]),
            None => None,
        }
    }

    /// The number of edge types; zero where the edges have none.
    pub fn get_edge_types_number(&self) -> (number: EdgeTypeT)
        requires
            self.wf(),
        ensures
            number as int == (match self.edge_types {
                Some(t) => t.vocabulary.names().len() as int % 0x1_0000,
                None => 0,
            }),
    {
        match &self.edge_types {
            Some(types) => (types.len() % 0x1_0000) as EdgeTypeT,
            None => 0,
        }
    }

    /// The number of node types; zero where the nodes have none.
    pub fn get_node_types_number(&self) -> (number: NodeTypeT)
        requires
            self.wf(),
        ensures
            number as int == (match self.node_types {
                Some(t) => t.vocabulary.names().len() as int % 0x1_0000,
                None => 0,
            }),
    {
        match &self.node_types {
            Some(types) => (types.len() % 0x1_0000) as NodeTypeT,
            None => 0,
        }
    }

    /// The number of edges of type `edge_type`; zero where the edges have
    /// no types, and for a type that the graph does not have.
    pub fn get_edge_type_number(&self, edge_type: EdgeTypeT) -> (number: EdgeT)
        requires
            self.wf(),
        ensures
            number == (match self.edge_types {
                Some(t) => crate::partition::label_count(t.assignments(), edge_type as int),
                None => 0,
            }),
    {
        match &self.edge_types {
            None => 0,
            Some(types) => {
                if (edge_type as usize) < types.counts.len() {
                    types.counts[edge_type as usize] as EdgeT
                } else {
                    proof {
                        crate::partition::lemma_count_witness(
                            types.assignments(),
                            edge_type as int,
                        );
                        if crate::partition::label_count(types.assignments(), edge_type as int) > 0 {
                            let i = choose|i: int|
                                0 <= i < types.assignments().len() && types.assignments()[i]
                                    == edge_type as int;
                            assert(types.ids@[i] < types.vocabulary.names().len());
                        }
                    }
                    0
                }
            },
        }
    }

    /// The number of nodes of type `node_type`; zero where the nodes have
    /// no types, and for a type that the graph does not have.
    pub fn get_node_type_number(&self, node_type: NodeTypeT) -> (number: NodeT)
        requires
            self.wf(),
        ensures
            number == (match self.node_types {
                Some(t) => crate::partition::label_count(t.assignments(), node_type as int),
                None => 0,
            }),
    {
        match &self.node_types {
            None => 0,
            Some(types) => {
                proof {
                    crate::partition::lemma_count_bound(types.assignments(), node_type as int);
                }
                if (node_type as usize) < types.counts.len() {
                    types.counts[node_type as usize] as NodeT
                } else {
                    proof {
                        crate::partition::lemma_count_witness(
                            types.assignments(),
                            node_type as int,
                        );
                        if crate::partition::label_count(types.assignments(), node_type as int) > 0 {
                            let i = choose|i: int|
                                0 <= i < types.assignments().len() && types.assignments()[i]
                                    == node_type as int;
                            assert(types.ids@[i] < types.vocabulary.names().len());
                        }
                    }
                    0
                }
            },
        }
    }
}

} // verus!

verus! {

impl Graph {
    /// The degrees of all nodes, as keys to sort by.
    pub open spec fn degree_keys(&self) -> Seq<u64> {
        Seq::new(self.nodes_count(), |s: int| self.degree(s) as u64)
    }

    /// Whether `nodes` are the `nodes.len()` most central nodes: the nodes
    /// that a stable sort by degree puts last, the last of them first. Of
    /// two nodes of the same degree the one with the larger identifier
    /// comes first.
    pub open spec fn most_central(&self, nodes: Seq<NodeT>) -> bool {
        exists|order: Seq<int>| #[trigger]
            crate::sorting::is_stable_order(order, self.degree_keys()) && forall|j: int|
                0 <= j < nodes.len() ==> nodes[j] == order[self.nodes_count() - 1 - j]
    }

    /// The `k` nodes with most edges, or all nodes where there are fewer,
    /// from the most central on.
    pub fn get_top_k_central_nodes(&self, k: NodeT) -> (nodes: Vec<NodeT>)
        requires
            self.wf(),
        ensures
            nodes@.len() == (if k <= self.nodes_count() {
                k as int
            } else {
                self.nodes_count() as int
            }),
            self.most_central(nodes@),
            forall|j: int| 0 <= j < nodes@.len() ==> #[trigger] nodes@[j] < self.nodes_count(),
    {
        let n = self.get_nodes_number();
        let degrees = self.get_node_degrees();
        proof {
            assert(degrees@ =~= self.degree_keys());
        }
        let p = crate::sorting::sort_keys(&degrees);
        let ghost order = crate::sorting::order_of(p);
        let mut ids: Vec<NodeT> = Vec::new();
        let mut i: NodeT = 0;
        while i < n
            invariant
                i <= n,
                ids@.len() == i,
                forall|j: int| 0 <= j < i ==> ids@[j] == j,
            decreases n - i,
        {
            ids.push(i);
            i += 1;
        }
        let sorted = crate::sorting::apply_order(&p, &ids);
        let count = if k <= n {
            k
        } else {
            n
        };
        let mut nodes: Vec<NodeT> = Vec::new();
        let mut j: NodeT = 0;
        while j < count
            invariant
                j <= count <= n,
                n == self.nodes_count(),
                sorted@.len() == n,
                order.len() == n,
                forall|q: int| 0 <= q < n ==> #[trigger] sorted@[q] == order[q],
                forall|q: int| 0 <= q < n ==> 0 <= #[trigger] order[q] && order[q] < n,
                nodes@.len() == j,
                forall|q: int| 0 <= q < j ==> #[trigger] nodes@[q] == order[n - 1 - q],
            decreases count - j,
        {
            nodes.push(sorted[(n - 1 - j) as usize]);
            j += 1;
        }
        nodes
    }

    /// `nodes` with `node` added at its end, unless it holds the node already.
    pub open spec fn noted(nodes: Seq<NodeT>, node: NodeT) -> Seq<NodeT> {
        if nodes.contains(node) {
            nodes
        } else {
            nodes.push(node)
        }
    }

    /// The nodes that the first `k` edges start or end at, each once, in the
    /// order in which the edges come to them, the source of an edge before
    /// its destination.
    pub open spec fn nodes_in_order(&self, k: int) -> Seq<NodeT>
        decreases k,
    {
        if k <= 0 {
            Seq::empty()
        } else {
            Self::noted(
                Self::noted(self.nodes_in_order(k - 1), self.source(k - 1) as NodeT),
                self.destination(k - 1) as NodeT,
            )
        }
    }

    /// The nodes that some edge starts or ends at, each once, in the order
    /// in which the edges come to them, the source of an edge before its
    /// destination.
    pub fn get_not_singletons(&self) -> (nodes: Vec<NodeT>)
        requires
            self.wf(),
        ensures
            nodes@ == self.nodes_in_order(self.edges_count() as int),
            forall|i: int| 0 <= i < nodes@.len() ==> self.touched(#[trigger] nodes@[i] as int),
            forall|u: int|
                0 <= u < self.nodes_count() && #[trigger] self.touched(u) ==> nodes@.contains(
                    u as NodeT,
                ),
            forall|i: int, j: int| 0 <= i < j < nodes@.len() ==> nodes@[i] != nodes@[j],
            forall|i: int| 0 <= i < nodes@.len() ==> #[trigger] nodes@[i] < self.nodes_count(),
    {
        let n = self.get_nodes_number() as usize;
        let m = self.edges.len();
        let mut seen: Vec<bool> = Vec::new();
        let mut u: usize = 0;
        while u < n
            invariant
                u <= n,
                seen@.len() == u,
                forall|k: int| 0 <= k < u ==> !seen@[k],
            decreases n - u,
        {
            seen.push(false);
            u += 1;
        }
        let mut nodes: Vec<NodeT> = Vec::new();
        let mut e: usize = 0;
        while e < m
            invariant
                self.wf(),
                e <= m,
                m == self.edges_count(),
                n == self.nodes_count(),
                seen@.len() == n,
                forall|k: int| 0 <= k < n ==> (#[trigger] seen@[k] <==> nodes@.contains(k as NodeT)),
                forall|i: int| 0 <= i < nodes@.len() ==> self.touched(#[trigger] nodes@[i] as int),
                forall|i: int| 0 <= i < nodes@.len() ==> #[trigger] nodes@[i] < n,
                forall|i: int, j: int| 0 <= i < j < nodes@.len() ==> nodes@[i] != nodes@[j],
                forall|k: int| 0 <= k < e ==> #[trigger] self.ends_listed(nodes@, k),
                nodes@ == self.nodes_in_order(e as int),
            decreases m - e,
        {
            let (src, dst) = self.get_edge_from_edge_id(e as EdgeT);
            let ghost start = nodes@;
            proof {
                assert(crate::encoding::src_of(self.edges@[e as int] as int, self.radix as int)
                    == src);
            }
            if !seen[src as usize] {
                let ghost before = nodes@;
                seen.set(src as usize, true);
                nodes.push(src);
                proof {
                    lemma_push_contains(before, src);
                }
            }
            let ghost middle = nodes@;
            if !seen[dst as usize] {
                let ghost before = nodes@;
                seen.set(dst as usize, true);
                nodes.push(dst);
                proof {
                    lemma_push_contains(before, dst);
                }
            }
            proof {
                assert forall|k: int| 0 <= k < e + 1 implies #[trigger] self.ends_listed(
                    nodes@,
                    k,
                ) by {
                    if k < e {
                        let a = self.source(k) as NodeT;
                        let b = self.destination(k) as NodeT;
                        assert(self.ends_listed(start, k));
                        assert(start.contains(a) && start.contains(b));
                        assert(middle.contains(a) && middle.contains(b));
                    } else {
                        assert(middle.contains(src));
                    }
                }
            }
            e += 1;
        }
        proof {
            assert forall|u: int|
                0 <= u < self.nodes_count() && #[trigger] self.touched(u) implies nodes@.contains(
                u as NodeT,
            ) by {
                let k = choose|k: int|
                    0 <= k < self.edges@.len() && (crate::encoding::src_of(
                        #[trigger] self.edges@[k] as int,
                        self.radix as int,
                    ) == u || crate::encoding::dst_of(self.edges@[k] as int, self.radix as int)
                        == u);
                assert(self.ends_listed(nodes@, k));
            }
        }
        nodes
    }

    /// Whether `nodes` holds both ends of edge `k`.
    pub open spec fn ends_listed(&self, nodes: Seq<NodeT>, k: int) -> bool {
        nodes.contains(self.source(k) as NodeT) && nodes.contains(self.destination(k) as NodeT)
    }

    /// Whether `mapping` numbers the nodes that some edge starts or ends
    /// at, and no others, in the order in which the edges name them.
    pub open spec fn maps_densely(&self, mapping: Map<NodeT, NodeT>) -> bool {
        &&& forall|u: NodeT| #[trigger]
            mapping.contains_key(u) <==> u < self.nodes_count() && self.touched(u as int)
        &&& forall|i: int|
            0 <= i < self.nodes_in_order(self.edges_count() as int).len() ==> mapping.contains_key(
                #[trigger] self.nodes_in_order(self.edges_count() as int)[i],
            ) && mapping[self.nodes_in_order(self.edges_count() as int)[i]] == i
    }

    /// The mapping from the nodes that some edge starts or ends at to
    /// `0..len`, in the order of `get_not_singletons`.
    pub fn get_dense_node_mapping(&self) -> (mapping: HashMap<NodeT, NodeT>)
        requires
            self.wf(),
        ensures
            self.maps_densely(mapping@),
            forall|i: int|
                0 <= i < self.nodes_in_order(self.edges_count() as int).len()
                    ==> mapping@.contains_key(
                    #[trigger] self.nodes_in_order(self.edges_count() as int)[i],
                ) && mapping@[self.nodes_in_order(self.edges_count() as int)[i]] == i,
            forall|u: NodeT|
                mapping@.contains_key(u) <==> u < self.nodes_count() && self.touched(u as int),
            forall|u: NodeT, v: NodeT|
                mapping@.contains_key(u) && mapping@.contains_key(v) && u != v ==> mapping@[u]
                    != mapping@[v],
            forall|i: int|
                0 <= i < self.unique_sources@.len() ==> mapping@.contains_key(
                    #[trigger] self.unique_sources@[i],
                ),
    {
        broadcast use vstd::std_specs::hash::group_hash_axioms;

        let nodes = self.get_not_singletons();
        let mut mapping: HashMap<NodeT, NodeT> = HashMap::new();
        let mut i: usize = 0;
        proof {
            lemma_distinct_fit(nodes@, self.nodes_count());
        }
        while i < nodes.len()
            invariant
                i <= nodes@.len(),
                nodes@.len() <= NodeT::MAX,
                forall|a: int, b: int| 0 <= a < b < nodes@.len() ==> nodes@[a] != nodes@[b],
                forall|u: NodeT|
                    mapping@.contains_key(u) <==> exists|k: int| 0 <= k < i && nodes@[k] == u,
                forall|k: int| 0 <= k < i ==> mapping@[#[trigger] nodes@[k]] == k,
            decreases nodes@.len() - i,
        {
            let ghost before = mapping@;
            mapping.insert(nodes[i], i as NodeT);
            proof {
                assert forall|u: NodeT| mapping@.contains_key(u) <==> exists|k: int|
                    0 <= k < i + 1 && nodes@[k] == u by {
                    if mapping@.contains_key(u) {
                        if u != nodes@[i as int] {
                            assert(before.contains_key(u));
                            let k = choose|k: int| 0 <= k < i && nodes@[k] == u;
                            assert(0 <= k < i + 1 && nodes@[k] == u);
                        } else {
                            assert(nodes@[i as int] == u);
                        }
                    }
                    if exists|k: int| 0 <= k < i + 1 && nodes@[k] == u {
                        let k = choose|k: int| 0 <= k < i + 1 && nodes@[k] == u;
                        if k < i {
                            assert(before.contains_key(u));
                        }
                    }
                }
                assert forall|k: int| 0 <= k < i + 1 implies mapping@[#[trigger] nodes@[k]] == k by {
                    if k < i {
                        assert(nodes@[k] != nodes@[i as int]);
                    }
                }
            }
            i += 1;
        }
        proof {
            assert forall|u: NodeT|
                mapping@.contains_key(u) <==> u < self.nodes_count() && self.touched(u as int) by {
                if mapping@.contains_key(u) {
                    let k = choose|k: int| 0 <= k < nodes@.len() && nodes@[k] == u;
                    assert(self.touched(nodes@[k] as int));
                }
                if u < self.nodes_count() && self.touched(u as int) {
                    assert(nodes@.contains(u));
                }
            }
            assert forall|i: int| 0 <= i < nodes@.len() implies mapping@.contains_key(
                #[trigger] nodes@[i],
            ) && mapping@[nodes@[i]] == i by {
                assert(nodes@[i] == nodes@[i]);
            }
            assert forall|u: NodeT, v: NodeT|
                mapping@.contains_key(u) && mapping@.contains_key(v) && u != v implies mapping@[u]
                != mapping@[v] by {
                let a = choose|k: int| 0 <= k < nodes@.len() && nodes@[k] == u;
                let b = choose|k: int| 0 <= k < nodes@.len() && nodes@[k] == v;
                assert(mapping@[nodes@[a]] == a);
                assert(mapping@[nodes@[b]] == b);
            }
            assert forall|i: int| 0 <= i < self.unique_sources@.len() implies mapping@.contains_key(
                #[trigger] self.unique_sources@[i],
            ) by {
                let s = self.unique_sources@[i];
                assert(self.degree(s as int) > 0);
                self.lemma_degree_positive(s as int);
                let e = choose|e: int| 0 <= e < self.edges_count() && #[trigger] self.source(e) == s;
                assert(crate::encoding::src_of(self.edges@[e] as int, self.radix as int) == s);
                assert(self.touched(s as int));
            }
        }
        mapping
    }
}

/// After a push a list holds what it held and what was pushed.
proof fn lemma_push_contains(before: Seq<NodeT>, node: NodeT)
    ensures
        before.push(node).contains(node),
        forall|x: NodeT| before.contains(x) ==> before.push(node).contains(x),
        forall|x: NodeT| before.push(node).contains(x) ==> before.contains(x) || x == node,
{
    let after = before.push(node);
    assert(after[before.len() as int] == node);
    assert forall|x: NodeT| before.contains(x) implies after.contains(x) by {
        let i = choose|i: int| 0 <= i < before.len() && before[i] == x;
        assert(after[i] == x);
    }
    assert forall|x: NodeT| after.contains(x) implies before.contains(x) || x == node by {
        let i = choose|i: int| 0 <= i < after.len() && after[i] == x;
        if i < before.len() {
            assert(before[i] == x);
        }
    }
}

/// A list of distinct nodes below `n` holds at most `n` nodes.
proof fn lemma_distinct_fit(nodes: Seq<NodeT>, n: nat)
    requires
        n <= 0x1_0000_0000,
        forall|i: int| 0 <= i < nodes.len() ==> #[trigger] nodes[i] < n,
        forall|i: int, j: int| 0 <= i < j < nodes.len() ==> nodes[i] != nodes[j],
    ensures
        nodes.len() <= n,
{
    let s = nodes.to_set();
    vstd::seq_lib::seq_to_set_is_finite(nodes);
    nodes.unique_seq_to_set();
    let all = Set::new(|x: NodeT| x < n);
    assert(s.subset_of(all)) by {
        assert forall|x: NodeT| s.contains(x) implies all.contains(x) by {
            let i = choose|i: int| 0 <= i < nodes.len() && nodes[i] == x;
        }
    }
    lemma_nodes_below(n);
    vstd::set_lib::lemma_len_subset(s, all);
}

/// There are `n` nodes below `n`.
proof fn lemma_nodes_below(n: nat)
    requires
        n <= 0x1_0000_0000,
    ensures
        Set::new(|x: NodeT| x < n).finite(),
        Set::new(|x: NodeT| x < n).len() == n,
    decreases n,
{
    let s = Set::new(|x: NodeT| x < n);
    if n == 0 {
        assert(s =~= Set::<NodeT>::empty());
    } else {
        let t = Set::new(|x: NodeT| x < n - 1);
        lemma_nodes_below((n - 1) as nat);
        assert(s =~= t.insert((n - 1) as NodeT));
    }
}

} // verus!
