//! The graph: an immutable store of nodes and of edges sorted by source and
//! destination, with the ranges of edges that leave each node.

use vstd::prelude::*;
use std::collections::HashMap;
use crate::encoding::{
    count_below, dst_of, encode_spec, lemma_count_below_all, lemma_count_below_monotonic,
    lemma_count_below_sorted, lemma_encode_decode, lemma_key_below_source, radix_spec, sorted,
    src_of,
};
use crate::types::{valid_weight, EdgeT, EdgeTypeT, NodeT, NodeTypeT, WeightT};
use crate::vocabulary::Vocabulary;
use crate::vocabulary_vec::VocabularyVec;

verus! {

/// Whether the edge with key `key` is a self-loop.
pub open spec fn key_is_loop(key: u64, radix: int) -> bool {
    src_of(key as int, radix) == dst_of(key as int, radix)
}

/// Whether entry `e` of `keys` starts a run of equal keys.
pub open spec fn key_starts_run(keys: Seq<u64>, e: int) -> bool {
    e == 0 || keys[e - 1] != keys[e]
}

/// Whether some edge of `keys` starts or ends at node `u`.
pub open spec fn key_touches(keys: Seq<u64>, radix: int, u: int) -> bool {
    exists|e: int|
        0 <= e < keys.len() && (src_of(#[trigger] keys[e] as int, radix) == u || dst_of(
            keys[e] as int,
            radix,
        ) == u)
}

/// How many of the first `k` edges are self-loops.
pub open spec fn loops_upto(keys: Seq<u64>, radix: int, k: int) -> nat
    decreases k,
{
    if k <= 0 {
        0
    } else {
        loops_upto(keys, radix, k - 1) + if key_is_loop(keys[k - 1], radix) {
            1nat
        } else {
            0nat
        }
    }
}

/// How many of the first `k` edges start a run of equal keys.
pub open spec fn runs_upto(keys: Seq<u64>, k: int) -> nat
    decreases k,
{
    if k <= 0 {
        0
    } else {
        runs_upto(keys, k - 1) + if key_starts_run(keys, k - 1) {
            1nat
        } else {
            0nat
        }
    }
}

/// How many of the first `k` edges repeat the key of the edge before them.
pub open spec fn repeats_upto(keys: Seq<u64>, k: int) -> nat
    decreases k,
{
    if k <= 0 {
        0
    } else {
        repeats_upto(keys, k - 1) + if key_starts_run(keys, k - 1) {
            0nat
        } else {
            1nat
        }
    }
}

/// How many of the first `k` edges are self-loops that start a run.
pub open spec fn loop_runs_upto(keys: Seq<u64>, radix: int, k: int) -> nat
    decreases k,
{
    if k <= 0 {
        0
    } else {
        loop_runs_upto(keys, radix, k - 1) + if key_is_loop(keys[k - 1], radix) && key_starts_run(
            keys,
            k - 1,
        ) {
            1nat
        } else {
            0nat
        }
    }
}

/// How many of the first `k` nodes some edge starts or ends at.
pub open spec fn touched_upto(keys: Seq<u64>, radix: int, k: int) -> nat
    decreases k,
{
    if k <= 0 {
        0
    } else {
        touched_upto(keys, radix, k - 1) + if key_touches(keys, radix, k - 1) {
            1nat
        } else {
            0nat
        }
    }
}

/// An immutable graph.
///
/// `edges` holds one key per edge, in non-decreasing order; the key of an
/// edge is its source times `radix` plus its destination. The optional
/// columns `weights` and `edge_types` run parallel to `edges`, `node_types`
/// parallel to the nodes. `destinations`, `outbounds` and
/// `cached_destinations` repeat what `edges` says, for faster walks.
pub struct Graph {
    pub directed: bool,
    pub name: String,
    pub nodes: Vocabulary,
    pub radix: u64,
    pub edges: Vec<EdgeT>,
    pub destinations: Option<Vec<NodeT>>,
    pub outbounds: Option<Vec<EdgeT>>,
    pub cached_destinations: Option<HashMap<NodeT, Vec<NodeT>>>,
    pub weights: Option<Vec<WeightT>>,
    pub node_types: Option<VocabularyVec>,
    pub edge_types: Option<VocabularyVec>,
    pub unique_sources: Vec<NodeT>,
    pub self_loop_number: EdgeT,
    pub unique_self_loop_number: NodeT,
    pub unique_edges_number: EdgeT,
    pub not_singleton_nodes_number: NodeT,
}

impl Graph {
    /// The number of nodes.
    pub open spec fn nodes_count(&self) -> nat {
        self.nodes.names().len()
    }

    /// The number of edges.
    pub open spec fn edges_count(&self) -> nat {
        self.edges@.len()
    }

    /// The source of edge `e`.
    pub open spec fn source(&self, e: int) -> int {
        src_of(self.edges@[e] as int, self.radix as int)
    }

    /// The destination of edge `e`.
    pub open spec fn destination(&self, e: int) -> int {
        dst_of(self.edges@[e] as int, self.radix as int)
    }

    /// The first edge of source `s`: the number of edges whose source lies
    /// below `s`.
    pub open spec fn lower(&self, s: int) -> nat {
        count_below(self.edges@, s * self.radix)
    }

    /// One past the last edge of source `s`.
    pub open spec fn upper(&self, s: int) -> nat {
        self.lower(s + 1)
    }

    /// The number of edges that leave `s`.
    pub open spec fn degree(&self, s: int) -> nat {
        (self.upper(s) - self.lower(s)) as nat
    }

    /// The destinations of the edges that leave `s`, in edge order.
    pub open spec fn neighbours(&self, s: int) -> Seq<NodeT> {
        Seq::new(self.degree(s), |k: int| self.destination(self.lower(s) + k) as NodeT)
    }

    /// Whether some edge runs from `s` to `d`.
    pub open spec fn has_edge_between(&self, s: int, d: int) -> bool {
        exists|e: int| 0 <= e < self.edges_count() && self.source(e) == s && self.destination(e) == d
    }

    /// The weight of edge `e`, where the graph has weights.
    pub open spec fn weight_at(&self, e: int) -> Option<WeightT> {
        match self.weights {
            Some(w) => Some(w@[e]),
            None => None,
        }
    }

    /// The type of edge `e`, where the graph has edge types.
    pub open spec fn edge_type_at(&self, e: int) -> Option<EdgeTypeT> {
        match self.edge_types {
            Some(t) => Some(t.ids@[e]),
            None => None,
        }
    }

    /// Whether edge `e` starts a run of equal keys.
    pub open spec fn starts_run(&self, e: int) -> bool {
        key_starts_run(self.edges@, e)
    }

    /// Whether edge `e` is a self-loop.
    pub open spec fn is_loop(&self, e: int) -> bool {
        key_is_loop(self.edges@[e], self.radix as int)
    }

    /// Whether some edge starts or ends at `u`.
    pub open spec fn touched(&self, u: int) -> bool {
        key_touches(self.edges@, self.radix as int, u)
    }

    /// The number of self-loops, parallel ones counted each.
    pub open spec fn self_loops(&self) -> nat {
        loops_upto(self.edges@, self.radix as int, self.edges_count() as int)
    }

    /// The number of nodes that have a self-loop.
    pub open spec fn unique_self_loops(&self) -> nat {
        loop_runs_upto(self.edges@, self.radix as int, self.edges_count() as int)
    }

    /// The number of distinct pairs of a source and a destination.
    pub open spec fn unique_edges(&self) -> nat {
        runs_upto(self.edges@, self.edges_count() as int)
    }

    /// The number of edges that repeat the pair of the edge before them.
    pub open spec fn multi_edge_duplicates(&self) -> nat {
        repeats_upto(self.edges@, self.edges_count() as int)
    }

    /// The number of nodes that some edge starts or ends at.
    pub open spec fn not_singletons(&self) -> nat {
        touched_upto(self.edges@, self.radix as int, self.nodes_count() as int)
    }

    /// The edge store: keys in order, every end a node.
    pub open spec fn wf_store(&self) -> bool {
        &&& self.nodes.wf()
        &&& self.nodes.reverse_built()
        &&& self.radix == radix_spec(self.nodes_count())
        &&& 1 <= self.radix <= 0x1_0000_0000
        &&& sorted(self.edges@)
        &&& forall|e: int|
            0 <= e < self.edges_count() ==> #[trigger] self.source(e) < self.nodes_count()
        &&& forall|e: int|
            0 <= e < self.edges_count() ==> #[trigger] self.destination(e) < self.nodes_count()
    }

    /// The columns that repeat the edge store say what it says.
    pub open spec fn wf_caches(&self) -> bool {
        &&& self.destinations matches Some(d) ==> d@.len() == self.edges_count() && forall|e: int|
            0 <= e < self.edges_count() ==> #[trigger] d@[e] == self.destination(e)
        &&& self.outbounds matches Some(o) ==> o@.len() == self.nodes_count() && forall|s: int|
            0 <= s < self.nodes_count() ==> #[trigger] o@[s] == self.upper(s)
        &&& self.cached_destinations matches Some(c) ==> self.destinations is None && forall|
            s: NodeT,
        | #[trigger]
            c@.contains_key(s) ==> s < self.nodes_count() && c@[s]@ == self.neighbours(s as int)
    }

    /// Weights and types cover their items, and every weight is strictly
    /// positive and finite.
    pub open spec fn wf_labels(&self) -> bool {
        &&& self.weights matches Some(w) ==> w@.len() == self.edges_count() && forall|e: int|
            0 <= e < self.edges_count() ==> valid_weight(#[trigger] w@[e])
        &&& self.node_types matches Some(t) ==> t.wf() && t.counted()
            && t.vocabulary.reverse_built() && t.ids@.len() == self.nodes_count() && forall|
            u: int,
        | 0 <= u < t.ids@.len() ==> #[trigger] t.ids@[u] < t.vocabulary.names().len()
        &&& self.edge_types matches Some(t) ==> t.wf() && t.counted()
            && t.vocabulary.reverse_built() && t.ids@.len() == self.edges_count() && forall|
            e: int,
        | 0 <= e < t.ids@.len() ==> #[trigger] t.ids@[e] < t.vocabulary.names().len()
    }

    /// The counters say what the edge store holds.
    pub open spec fn wf_counters(&self) -> bool {
        &&& self.self_loop_number == self.self_loops()
        &&& self.unique_self_loop_number == self.unique_self_loops()
        &&& self.unique_edges_number == self.unique_edges()
        &&& self.not_singleton_nodes_number == self.not_singletons()
        &&& forall|i: int, j: int|
            0 <= i < j < self.unique_sources@.len() ==> self.unique_sources@[i]
                < self.unique_sources@[j]
        &&& forall|i: int|
            0 <= i < self.unique_sources@.len() ==> (#[trigger] self.unique_sources@[i])
                < self.nodes_count() && self.degree(self.unique_sources@[i] as int) > 0
        &&& forall|s: int|
            0 <= s < self.nodes_count() && #[trigger] self.degree(s) > 0
                ==> self.unique_sources@.contains(s as NodeT)
    }

    /// Whether edge `m` is edge `e` the other way round, with the same weight
    /// and the same type.
    pub open spec fn is_mirror(&self, e: int, m: int) -> bool {
        &&& self.source(m) == self.destination(e)
        &&& self.destination(m) == self.source(e)
        &&& self.weight_at(m) == self.weight_at(e)
        &&& self.edge_type_at(m) == self.edge_type_at(e)
    }

    /// Whether the graph holds a mirror of edge `e`.
    pub open spec fn has_mirror(&self, e: int) -> bool {
        exists|m: int| 0 <= m < self.edges_count() && self.is_mirror(e, m)
    }

    /// Every edge has its mirror.
    pub open spec fn mirror_closed(&self) -> bool {
        forall|e: int| 0 <= e < self.edges_count() ==> #[trigger] self.has_mirror(e)
    }

    /// The invariant of a graph.
    pub open spec fn wf(&self) -> bool {
        &&& self.wf_store()
        &&& self.wf_caches()
        &&& self.wf_labels()
        &&& self.wf_counters()
        &&& !self.directed ==> self.mirror_closed()
    }
}

} // verus!

verus! {

impl Graph {
    /// The ranges of the sources cut the edge list in order: the edges of a
    /// source start where those of the source before it end, no range runs
    /// backwards, the first starts at zero and the last ends with the list.
    pub proof fn lemma_ranges(&self, s: int)
        requires
            self.wf_store(),
            0 <= s < self.nodes_count(),
        ensures
            self.lower(0) == 0,
            self.lower(s) <= self.upper(s) <= self.edges_count(),
            self.upper(s) == self.lower(s + 1),
            self.lower(self.nodes_count() as int) == self.edges_count(),
    {
        let keys = self.edges@;
        let radix = self.radix as int;
        let n = self.nodes_count() as int;
        lemma_count_below_sorted(keys, 0);
        lemma_count_below_sorted(keys, (s + 1) * radix);
        assert(s * radix <= (s + 1) * radix) by (nonlinear_arith)
            requires
                radix > 0,
        ;
        lemma_count_below_monotonic(keys, s * radix, (s + 1) * radix);
        assert forall|e: int| 0 <= e < keys.len() implies keys[e] < n * radix by {
            assert(self.source(e) < n);
            lemma_key_below_source(keys[e] as int, radix, n);
        }
        lemma_count_below_all(keys, n * radix);
        assert(0 * radix == 0);
        if keys.len() > 0 && count_below(keys, 0) > 0 {
            assert(keys[0] < 0);
        }
    }

    /// An edge lies in the range of its source, and the range of a source
    /// holds its edges only.
    pub proof fn lemma_edge_in_range(&self, e: int, s: int)
        requires
            self.wf_store(),
            0 <= e < self.edges_count(),
        ensures
            self.lower(s) <= e < self.upper(s) <==> self.source(e) == s,
    {
        let keys = self.edges@;
        let radix = self.radix as int;
        lemma_count_below_sorted(keys, s * radix);
        lemma_count_below_sorted(keys, (s + 1) * radix);
        lemma_key_below_source(keys[e] as int, radix, s);
        lemma_key_below_source(keys[e] as int, radix, s + 1);
    }

    /// The number of nodes.
    pub fn get_nodes_number(&self) -> (n: NodeT)
        requires
            self.wf_store(),
        ensures
            n == self.nodes_count(),
    {
        self.nodes.len() as NodeT
    }

    /// The number of edges; for an undirected graph both directions count.
    pub fn get_edges_number(&self) -> (m: EdgeT)
        ensures
            m == self.edges_count(),
    {
        self.edges.len() as EdgeT
    }

    /// The source and the destination of edge `edge_id`.
    pub fn get_edge_from_edge_id(&self, edge_id: EdgeT) -> (ends: (NodeT, NodeT))
        requires
            self.wf_store(),
            edge_id < self.edges_count(),
        ensures
            ends.0 == self.source(edge_id as int),
            ends.1 == self.destination(edge_id as int),
            ends.0 < self.nodes_count(),
            ends.1 < self.nodes_count(),
    {
        proof {
            assert(self.source(edge_id as int) < self.nodes_count());
            assert(self.destination(edge_id as int) < self.nodes_count());
        }
        let edges_number = self.edges.len();
        crate::encoding::decode_edge(self.edges[edge_id as usize], self.radix)
    }

    /// The destination of edge `edge_id`.
    pub fn get_destination(&self, edge_id: EdgeT) -> (dst: NodeT)
        requires
            self.wf_store(),
            self.wf_caches(),
            edge_id < self.edges_count(),
        ensures
            dst == self.destination(edge_id as int),
            dst < self.nodes_count(),
    {
        proof {
            assert(self.destination(edge_id as int) < self.nodes_count());
        }
        let edges_number = self.edges.len();
        match &self.destinations {
            Some(destinations) => destinations[edge_id as usize],
            None => self.get_edge_from_edge_id(edge_id).1,
        }
    }

    /// The number of edges that come before the place of an edge from `src`
    /// to `dst`: the identifier of the first such edge, if there is one.
    /// `src` may be one past the last node.
    pub fn get_unchecked_edge_id_from_tuple(&self, src: u64, dst: NodeT) -> (edge_id: EdgeT)
        requires
            self.wf_store(),
            src <= self.nodes_count(),
            dst < self.radix,
        ensures
            edge_id == count_below(
                self.edges@,
                encode_spec(src as int, dst as int, self.radix as int),
            ),
            edge_id <= self.edges_count(),
    {
        let first = crate::encoding::first_key_of(src, self.radix);
        proof {
            assert(src * self.radix <= 0xffff_ffff * 0x1_0000_0000) by (nonlinear_arith)
                requires
                    src <= 0xffff_ffff,
                    0 < self.radix <= 0x1_0000_0000,
            ;
        }
        crate::encoding::rank_of(&self.edges, first + dst as u64) as EdgeT
    }

    /// The range of the edges that leave `src`: the first of them and one
    /// past the last.
    pub fn get_destinations_min_max_edge_ids(&self, src: NodeT) -> (range: (EdgeT, EdgeT))
        requires
            self.wf_store(),
            self.wf_caches(),
            src < self.nodes_count(),
        ensures
            range.0 == self.lower(src as int),
            range.1 == self.upper(src as int),
            range.0 <= range.1 <= self.edges_count(),
    {
        proof {
            self.lemma_ranges(src as int);
            if src > 0 {
                self.lemma_ranges(src - 1);
            }
        }
        match &self.outbounds {
            Some(outbounds) => {
                let low = if src == 0 {
                    0
                } else {
                    outbounds[src as usize - 1]
                };
                (low, outbounds[src as usize])
            },
            None => {
                let low = self.get_unchecked_edge_id_from_tuple(src as u64, 0);
                let high = self.get_unchecked_edge_id_from_tuple(src as u64 + 1, 0);
                (low, high)
            },
        }
    }

    /// The number of edges that leave `node`.
    pub fn get_node_degree(&self, node: NodeT) -> (degree: EdgeT)
        requires
            self.wf_store(),
            self.wf_caches(),
            node < self.nodes_count(),
        ensures
            degree == self.degree(node as int),
    {
        let (low, high) = self.get_destinations_min_max_edge_ids(node);
        high - low
    }

    /// Whether no edge leaves `node`.
    pub fn is_node_trap(&self, node: NodeT) -> (trap: bool)
        requires
            self.wf_store(),
            self.wf_caches(),
            node < self.nodes_count(),
        ensures
            trap == (self.degree(node as int) == 0),
    {
        self.get_node_degree(node) == 0
    }

    /// Whether some edge runs from `src` to `dst`.
    pub fn has_edge(&self, src: NodeT, dst: NodeT) -> (found: bool)
        requires
            self.wf_store(),
            src < self.nodes_count(),
            dst < self.nodes_count(),
        ensures
            found == self.has_edge_between(src as int, dst as int),
    {
        proof {
            crate::encoding::lemma_radix_bounds(self.nodes_count());
        }
        let key = crate::encoding::encode_edge(src, dst, self.radix);
        let at = crate::encoding::rank_of(&self.edges, key);
        proof {
            lemma_count_below_sorted(self.edges@, key as int);
            if at < self.edges@.len() && self.edges@[at as int] == key {
                assert(self.source(at as int) == src && self.destination(at as int) == dst);
            }
            if self.has_edge_between(src as int, dst as int) {
                let e = choose|e: int|
                    0 <= e < self.edges_count() && self.source(e) == src && self.destination(e)
                        == dst;
                lemma_encode_decode(self.edges@[e] as int, self.radix as int);
                assert(self.edges@[e] == key);
                assert(!(e < at));
                assert(self.edges@[at as int] <= self.edges@[e]);
            }
        }
        at < self.edges.len() && self.edges[at] == key
    }
}

} // verus!

verus! {

impl Graph {
    /// The edges as pairs of a source and a destination, in edge order.
    pub open spec fn edge_pairs(&self) -> Seq<(NodeT, NodeT)> {
        Seq::new(self.edges_count(), |e: int| (self.source(e) as NodeT, self.destination(e) as NodeT))
    }

    /// The partition of the nodes into connected components, as the edges
    /// give it when they are absorbed in edge order.
    pub open spec fn classes(&self) -> crate::partition::Partition {
        crate::partition::after(self.nodes_count(), self.edge_pairs())
    }

    /// The connected component of node `x`, by its label in `classes`.
    pub open spec fn class_of(&self, x: int) -> int {
        crate::partition::final_labels(self.classes())[x]
    }

    /// The number of connected components.
    pub open spec fn classes_count(&self) -> nat {
        crate::partition::component_count(self.classes())
    }

    /// Both ends of every edge are nodes.
    pub proof fn lemma_pairs_in_range(&self)
        requires
            self.wf_store(),
        ensures
            crate::partition::edges_in_range(self.nodes_count(), self.edge_pairs()),
            crate::partition::labels_bounded(self.classes()),
            self.classes().ids.len() == self.nodes_count(),
    {
        let pairs = self.edge_pairs();
        assert forall|e: int| 0 <= e < pairs.len() implies crate::partition::edge_in_range(
            self.nodes_count(),
            #[trigger] pairs[e],
        ) by {
            lemma_encode_decode(self.edges@[e] as int, self.radix as int);
            assert(self.source(e) < self.nodes_count());
            assert(self.destination(e) < self.nodes_count());
        }
        crate::partition::lemma_after_bounded(self.nodes_count(), pairs);
    }

    /// The two ends of an edge lie in the same connected component.
    pub proof fn lemma_edge_classes(&self, e: int)
        requires
            self.wf_store(),
            0 <= e < self.edges_count(),
        ensures
            self.class_of(self.source(e)) == self.class_of(self.destination(e)),
    {
        self.lemma_pairs_in_range();
        lemma_encode_decode(self.edges@[e] as int, self.radix as int);
        assert(self.source(e) < self.nodes_count());
        assert(self.destination(e) < self.nodes_count());
        crate::classes::lemma_edge_ends_share_label(self.nodes_count(), self.edge_pairs(), e);
    }
}

} // verus!

verus! {

impl Graph {
    /// A node has edges exactly when it is the source of one.
    pub proof fn lemma_degree_positive(&self, s: int)
        requires
            self.wf_store(),
            0 <= s < self.nodes_count(),
        ensures
            self.degree(s) > 0 <==> exists|e: int|
                0 <= e < self.edges_count() && #[trigger] self.source(e) == s,
    {
        self.lemma_ranges(s);
        if self.degree(s) > 0 {
            let e = self.lower(s) as int;
            self.lemma_edge_in_range(e, s);
            assert(self.source(e) == s);
        }
        if exists|e: int| 0 <= e < self.edges_count() && #[trigger] self.source(e) == s {
            let e = choose|e: int| 0 <= e < self.edges_count() && #[trigger] self.source(e) == s;
            self.lemma_edge_in_range(e, s);
        }
    }
}

} // verus!
