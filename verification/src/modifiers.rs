//! The few changes that a graph allows after it is built: switching the
//! columns that speed walks up, and giving all edges or all nodes one type.

use vstd::prelude::*;
use std::collections::HashMap;
use crate::errors::GraphError;
use crate::graph::Graph;
use crate::types::{EdgeT, EdgeTypeT, NodeT, NodeTypeT};
use crate::vocabulary::Vocabulary;
use crate::vocabulary_vec::VocabularyVec;

verus! {

impl Graph {
    /// Whether `other` holds the same nodes, edges and counters.
    pub open spec fn same_store(&self, other: &Graph) -> bool {
        &&& self.directed == other.directed
        &&& self.name@ == other.name@
        &&& self.nodes == other.nodes
        &&& self.radix == other.radix
        &&& self.edges@ == other.edges@
        &&& self.unique_sources@ == other.unique_sources@
        &&& self.self_loop_number == other.self_loop_number
        &&& self.unique_self_loop_number == other.unique_self_loop_number
        &&& self.unique_edges_number == other.unique_edges_number
        &&& self.not_singleton_nodes_number == other.not_singleton_nodes_number
    }

    /// Whether `other` holds the same weights and types.
    pub open spec fn same_labels(&self, other: &Graph) -> bool {
        &&& self.weights == other.weights
        &&& self.node_types == other.node_types
        &&& self.edge_types == other.edge_types
    }

    /// A graph with the store of a well-formed graph has a well-formed
    /// store, and the same ranges.
    pub proof fn lemma_same_store(&self, other: &Graph)
        requires
            self.wf(),
            self.same_store(other),
        ensures
            other.wf_store(),
            other.wf_counters(),
            forall|e: int| self.source(e) == other.source(e),
            forall|e: int| self.destination(e) == other.destination(e),
            forall|s: int| self.lower(s) == other.lower(s),
            forall|s: int| self.upper(s) == other.upper(s),
            forall|s: int| self.degree(s) == other.degree(s),
            forall|s: int| self.neighbours(s) == other.neighbours(s),
    {
        assert forall|s: int| self.neighbours(s) == other.neighbours(s) by {
            assert(self.neighbours(s) =~= other.neighbours(s));
        }
        assert forall|e: int| 0 <= e < other.edges_count() implies #[trigger] other.source(e)
            < other.nodes_count() by {
            assert(self.source(e) < self.nodes_count());
        }
        assert forall|e: int| 0 <= e < other.edges_count() implies #[trigger] other.destination(e)
            < other.nodes_count() by {
            assert(self.destination(e) < self.nodes_count());
        }
        assert forall|i: int| 0 <= i < other.unique_sources@.len() implies (
        #[trigger] other.unique_sources@[i]) < other.nodes_count() && other.degree(
            other.unique_sources@[i] as int,
        ) > 0 by {
            assert(self.degree(self.unique_sources@[i] as int) > 0);
        }
        assert forall|s: int|
            0 <= s < other.nodes_count() && #[trigger] other.degree(s) > 0 implies other.unique_sources@.contains(
            s as NodeT,
        ) by {
            assert(self.degree(s) > 0);
        }
    }

    /// A graph with the store and the labels of a well-formed graph is well
    /// formed once its columns for fast walks say what the store says.
    pub proof fn lemma_same_graph(&self, other: &Graph)
        requires
            self.wf(),
            self.same_store(other),
            self.same_labels(other),
            other.wf_caches(),
        ensures
            other.wf(),
    {
        self.lemma_same_store(other);
        if !other.directed {
            assert forall|e: int| 0 <= e < other.edges_count() implies #[trigger] other.has_mirror(
                e,
            ) by {
                assert(self.has_mirror(e));
                let m = choose|m: int| 0 <= m < self.edges_count() && self.is_mirror(e, m);
                assert(other.is_mirror(e, m));
            }
        }
    }

    /// Stops keeping the columns that speed walks up.
    pub fn disable_fast_walk(&mut self)
        requires
            old(self).wf(),
        ensures
            final(self).wf(),
            old(self).same_store(final(self)),
            old(self).same_labels(final(self)),
            final(self).destinations is None,
            final(self).outbounds is None,
            final(self).cached_destinations is None,
    {
        self.destinations = None;
        self.outbounds = None;
        self.cached_destinations = None;
        proof {
            old(self).lemma_same_graph(self);
        }
    }

    /// What `enable_fast_walk` refuses: a cache together with the column of
    /// destinations, and a cache of no node or of all nodes or more.
    pub open spec fn fast_walk_failure(&self, vector_destinations: bool, cached_nodes_number: Option<NodeT>) -> bool {
        cached_nodes_number matches Some(number) && (vector_destinations || number == 0 || number
            >= self.nodes_count())
    }

    /// Keeps columns that speed walks up: the destination of every edge,
    /// the upper bound of the edges of every source, and the destinations of
    /// the `cached_nodes_number` most central nodes. What is not asked for
    /// is dropped. On failure the graph stays as it is.
    pub fn enable_fast_walk(
        &mut self,
        vector_destinations: bool,
        vector_outbounds: bool,
        cached_nodes_number: Option<NodeT>,
    ) -> (r: Result<(), GraphError>)
        requires
            old(self).wf(),
        ensures
            final(self).wf(),
            old(self).same_store(final(self)),
            old(self).same_labels(final(self)),
            r is Err <==> old(self).fast_walk_failure(vector_destinations, cached_nodes_number),
            r is Err ==> r->Err_0 == GraphError::InvalidParameter && final(self).destinations
                == old(self).destinations && final(self).outbounds == old(self).outbounds && final(self).cached_destinations == old(self).cached_destinations,
            r is Ok ==> (final(self).destinations is Some <==> vector_destinations) && (final(self).outbounds is Some <==> vector_outbounds) && (final(self).cached_destinations is Some
                <==> cached_nodes_number is Some),
            r is Ok && cached_nodes_number is Some ==> exists|nodes: Seq<NodeT>|
                nodes.len() == cached_nodes_number->Some_0 && old(self).most_central(nodes)
                    && forall|u: NodeT|
                    final(self).cached_destinations->Some_0@.contains_key(u) <==> nodes.contains(u),
    {
        broadcast use vstd::std_specs::hash::group_hash_axioms;

        let n = self.get_nodes_number();
        match cached_nodes_number {
            Some(number) => {
                if vector_destinations || number == 0 || number >= n {
                    return Err(GraphError::InvalidParameter);
                }
            },
            None => {},
        }
        let destinations = if vector_destinations {
            Some(self.get_destinations())
        } else {
            None
        };
        let outbounds = if vector_outbounds {
            Some(self.get_outbounds())
        } else {
            None
        };
        let ghost mut central: Seq<NodeT> = Seq::empty();
        let cached = match cached_nodes_number {
            None => None,
            Some(number) => {
                let nodes = self.get_top_k_central_nodes(number);
                proof {
                    central = nodes@;
                }
                let mut cache: HashMap<NodeT, Vec<NodeT>> = HashMap::new();
                let mut i: usize = 0;
                while i < nodes.len()
                    invariant
                        self.wf(),
                        i <= nodes@.len(),
                        forall|j: int|
                            0 <= j < nodes@.len() ==> #[trigger] nodes@[j] < self.nodes_count(),
                        forall|u: NodeT|
                            cache@.contains_key(u) <==> exists|j: int| 0 <= j < i && nodes@[j] == u,
                        forall|u: NodeT| #[trigger]
                            cache@.contains_key(u) ==> u < self.nodes_count() && cache@[u]@
                                == self.neighbours(u as int),
                    decreases nodes@.len() - i,
                {
                    let node = nodes[i];
                    let ghost before = cache@;
                    let list = self.get_source_destinations_range(node);
                    cache.insert(node, list);
                    proof {
                        assert forall|u: NodeT| cache@.contains_key(u) <==> exists|j: int|
                            0 <= j < i + 1 && nodes@[j] == u by {
                            if cache@.contains_key(u) {
                                if u != node {
                                    assert(before.contains_key(u));
                                    let j = choose|j: int| 0 <= j < i && nodes@[j] == u;
                                    assert(0 <= j < i + 1 && nodes@[j] == u);
                                } else {
                                    assert(nodes@[i as int] == u);
                                }
                            }
                            if exists|j: int| 0 <= j < i + 1 && nodes@[j] == u {
                                let j = choose|j: int| 0 <= j < i + 1 && nodes@[j] == u;
                                if j < i {
                                    assert(before.contains_key(u));
                                }
                            }
                        }
                    }
                    i += 1;
                }
                proof {
                    assert forall|u: NodeT| cache@.contains_key(u) <==> nodes@.contains(u) by {
                        if cache@.contains_key(u) {
                            let j = choose|j: int| 0 <= j < nodes@.len() && nodes@[j] == u;
                            assert(nodes@[j] == u);
                        }
                        if nodes@.contains(u) {
                            let j = choose|j: int| 0 <= j < nodes@.len() && nodes@[j] == u;
                        }
                    }
                }
                Some(cache)
            },
        };
        self.destinations = destinations;
        self.outbounds = outbounds;
        self.cached_destinations = cached;
        proof {
            old(self).lemma_same_store(self);
            assert(self.wf_caches()) by {
                if self.cached_destinations is Some {
                    let c = self.cached_destinations->Some_0;
                    assert forall|s: NodeT| #[trigger] c@.contains_key(s) implies s
                        < self.nodes_count() && c@[s]@ == self.neighbours(s as int) by {
                        assert(c@[s]@ == old(self).neighbours(s as int));
                    }
                }
                if self.destinations is Some {
                    let d = self.destinations->Some_0;
                    assert forall|e: int| 0 <= e < self.edges_count() implies #[trigger] d@[e]
                        == self.destination(e) by {
                        assert(d@[e] == old(self).destination(e));
                    }
                }
                if self.outbounds is Some {
                    let o = self.outbounds->Some_0;
                    assert forall|s: int| 0 <= s < self.nodes_count() implies #[trigger] o@[s]
                        == self.upper(s) by {
                        assert(o@[s] == old(self).upper(s));
                    }
                }
            }
            old(self).lemma_same_graph(self);
            if cached_nodes_number is Some {
                assert(central.len() == cached_nodes_number->Some_0 && old(self).most_central(
                    central,
                ) && forall|u: NodeT|
                    self.cached_destinations->Some_0@.contains_key(u) <==> central.contains(u));
            }
        }
        Ok(())
    }
}

} // verus!

verus! {

/// A vector of `len` zeros.
fn zero_types(len: usize) -> (v: Vec<u16>)
    ensures
        v@.len() == len,
        forall|i: int| 0 <= i < len ==> v@[i] == 0,
{
    let mut v: Vec<u16> = Vec::new();
    let mut i: usize = 0;
    while i < len
        invariant
            i <= len,
            v@.len() == i,
            forall|j: int| 0 <= j < i ==> v@[j] == 0,
        decreases len - i,
    {
        v.push(0);
        i += 1;
    }
    v
}

/// The types of `len` items that all have the one type named `name`.
fn single_type(name: String, len: usize) -> (r: Result<VocabularyVec, GraphError>)
    ensures
        r is Err <==> name@.len() == 0,
        r is Err ==> r->Err_0 == GraphError::EmptyName,
        r matches Ok(t) ==> t.wf() && t.counted() && t.vocabulary.reverse_built() && t.ids@.len()
            == len && t.vocabulary.names() == seq![name@] && (forall|i: int|
            0 <= i < len ==> #[trigger] t.ids@[i] == 0),
{
    let mut vocabulary = Vocabulary::new(false);
    match vocabulary.insert(name) {
        Err(e) => {
            return Err(e);
        },
        Ok(_) => {},
    }
    proof {
        assert(vocabulary.names() =~= seq![name@]);
    }
    match vocabulary.build_reverse_mapping() {
        Err(e) => {
            proof {
                assert(vocabulary.dense());
            }
            return Err(GraphError::EmptyName);
        },
        Ok(()) => {},
    }
    let types = VocabularyVec::from_structs(zero_types(len), Some(vocabulary));
    Ok(types.unwrap())
}

impl Graph {
    /// Gives every edge the one type named `edge_type`, in place of the
    /// types that the edges had. An empty name is refused.
    pub fn set_all_edge_types(self, edge_type: String) -> (r: Result<Graph, GraphError>)
        requires
            self.wf(),
        ensures
            r is Err <==> edge_type@.len() == 0,
            r is Err ==> r->Err_0 == GraphError::EmptyName,
            r matches Ok(g) ==> g.wf() && self.same_store(&g) && g.weights == self.weights
                && g.node_types == self.node_types && g.destinations == self.destinations
                && g.outbounds == self.outbounds && g.cached_destinations
                == self.cached_destinations && g.edge_types is Some
                && g.edge_types->Some_0.vocabulary.names() == seq![edge_type@] && forall|e: int|
                0 <= e < g.edges_count() ==> #[trigger] g.edge_type_at(e) == Some(0u16),
    {
        let types = match single_type(edge_type, self.edges.len()) {
            Err(e) => {
                return Err(e);
            },
            Ok(types) => types,
        };
        let ghost before = self;
        let mut g = self;
        g.edge_types = Some(types);
        proof {
            before.lemma_same_store(&g);
            assert(g.wf_caches()) by {
                if g.cached_destinations is Some {
                    let c = g.cached_destinations->Some_0;
                    assert forall|s: NodeT| #[trigger] c@.contains_key(s) implies s
                        < g.nodes_count() && c@[s]@ == g.neighbours(s as int) by {
                        assert(c@[s]@ == before.neighbours(s as int));
                    }
                }
                if g.destinations is Some {
                    let d = g.destinations->Some_0;
                    assert forall|e: int| 0 <= e < g.edges_count() implies #[trigger] d@[e]
                        == g.destination(e) by {
                        assert(d@[e] == before.destination(e));
                    }
                }
                if g.outbounds is Some {
                    let o = g.outbounds->Some_0;
                    assert forall|s: int| 0 <= s < g.nodes_count() implies #[trigger] o@[s]
                        == g.upper(s) by {
                        assert(o@[s] == before.upper(s));
                    }
                }
            }
            if !g.directed {
                assert forall|e: int| 0 <= e < g.edges_count() implies #[trigger] g.has_mirror(e) by {
                    assert(before.has_mirror(e));
                    let m = choose|m: int| 0 <= m < before.edges_count() && before.is_mirror(e, m);
                    assert(g.is_mirror(e, m));
                }
            }
        }
        Ok(g)
    }

    /// Gives every node the one type named `node_type`, in place of the
    /// types that the nodes had. An empty name is refused.
    pub fn set_all_node_types(self, node_type: String) -> (r: Result<Graph, GraphError>)
        requires
            self.wf(),
        ensures
            r is Err <==> node_type@.len() == 0,
            r is Err ==> r->Err_0 == GraphError::EmptyName,
            r matches Ok(g) ==> g.wf() && self.same_store(&g) && g.weights == self.weights
                && g.edge_types == self.edge_types && g.destinations == self.destinations
                && g.outbounds == self.outbounds && g.cached_destinations
                == self.cached_destinations && g.node_types is Some
                && g.node_types->Some_0.vocabulary.names() == seq![node_type@] && forall|u: int|
                0 <= u < g.nodes_count() ==> #[trigger] g.node_types->Some_0.ids@[u] == 0,
    {
        let types = match single_type(node_type, self.nodes.len()) {
            Err(e) => {
                return Err(e);
            },
            Ok(types) => types,
        };
        let ghost before = self;
        let mut g = self;
        g.node_types = Some(types);
        proof {
            before.lemma_same_store(&g);
            assert(g.wf_caches()) by {
                if g.cached_destinations is Some {
                    let c = g.cached_destinations->Some_0;
                    assert forall|s: NodeT| #[trigger] c@.contains_key(s) implies s
                        < g.nodes_count() && c@[s]@ == g.neighbours(s as int) by {
                        assert(c@[s]@ == before.neighbours(s as int));
                    }
                }
                if g.destinations is Some {
                    let d = g.destinations->Some_0;
                    assert forall|e: int| 0 <= e < g.edges_count() implies #[trigger] d@[e]
                        == g.destination(e) by {
                        assert(d@[e] == before.destination(e));
                    }
                }
                if g.outbounds is Some {
                    let o = g.outbounds->Some_0;
                    assert forall|s: int| 0 <= s < g.nodes_count() implies #[trigger] o@[s]
                        == g.upper(s) by {
                        assert(o@[s] == before.upper(s));
                    }
                }
            }
            if !g.directed {
                assert forall|e: int| 0 <= e < g.edges_count() implies #[trigger] g.has_mirror(e) by {
                    assert(before.has_mirror(e));
                    let m = choose|m: int| 0 <= m < before.edges_count() && before.is_mirror(e, m);
                    assert(g.is_mirror(e, m));
                }
            }
        }
        Ok(g)
    }
}

} // verus!
