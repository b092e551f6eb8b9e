//! Measures of a graph. Measures that are fractions come as the two whole
//! numbers of the fraction, so that nothing is rounded here.

use vstd::prelude::*;
use crate::errors::GraphError;
use crate::graph::Graph;
use crate::types::{EdgeT, NodeT};

verus! {

/// A fraction of two whole numbers. A denominator of zero stands for a
/// measure that is not defined.
#[derive(Clone, Copy, Debug, PartialEq, Eq, Structural)]
pub struct Ratio {
    pub numerator: u64,
    pub denominator: u64,
}

/// How dense a graph is, by the fraction of the pairs of distinct nodes that
/// an edge joins.
#[derive(Clone, Copy, Debug, PartialEq, Eq, Structural)]
pub enum DensityClass {
    /// Fewer than two nodes: no pair to join.
    Undefined,
    /// Below one in ten thousand.
    ExtremelySparse,
    /// Below one in a thousand.
    QuiteSparse,
    /// Below one in a hundred.
    Sparse,
    /// Below one in ten.
    Dense,
    /// Below one in two.
    QuiteDense,
    /// Below one.
    ExtremelyDense,
    /// As many edges as pairs.
    Complete,
    /// More edges than pairs, which self-loops and parallel edges allow.
    Overfull,
}

/// The class of the density `edges / pairs`.
pub open spec fn density_class_spec(edges: int, pairs: int) -> DensityClass {
    if pairs <= 0 {
        DensityClass::Undefined
    } else if edges * 10000 < pairs {
        DensityClass::ExtremelySparse
    } else if edges * 1000 < pairs {
        DensityClass::QuiteSparse
    } else if edges * 100 < pairs {
        DensityClass::Sparse
    } else if edges * 10 < pairs {
        DensityClass::Dense
    } else if edges * 2 < pairs {
        DensityClass::QuiteDense
    } else if edges < pairs {
        DensityClass::ExtremelyDense
    } else if edges == pairs {
        DensityClass::Complete
    } else {
        DensityClass::Overfull
    }
}

impl Graph {
    /// The number of pairs of distinct nodes, counted both ways round.
    pub open spec fn pairs_count(&self) -> int {
        self.nodes_count() * (self.nodes_count() - 1)
    }

    /// The number of pairs of distinct nodes, counted both ways round.
    pub fn get_pairs_number(&self) -> (pairs: u64)
        requires
            self.wf(),
        ensures
            pairs == self.pairs_count(),
    {
        let n = self.get_nodes_number() as u64;
        if n == 0 {
            return 0;
        }
        proof {
            assert(n * (n - 1) <= 0xffff_ffff * 0xffff_ffff) by (nonlinear_arith)
                requires
                    1 <= n <= 0xffff_ffff,
            ;
            assert(0 <= n * (n - 1)) by (nonlinear_arith)
                requires
                    1 <= n,
            ;
        }
        n * (n - 1)
    }

    /// The product of the degrees of two nodes; identifiers that are no
    /// nodes are refused.
    pub fn degrees_product(&self, one: NodeT, two: NodeT) -> (r: Result<u128, GraphError>)
        requires
            self.wf(),
        ensures
            r is Ok <==> one < self.nodes_count() && two < self.nodes_count(),
            r is Err ==> r->Err_0 == GraphError::OutOfRange,
            r matches Ok(product) ==> product == self.degree(one as int) * self.degree(two as int),
    {
        let n = self.get_nodes_number();
        if one >= n || two >= n {
            return Err(GraphError::OutOfRange);
        }
        let a = self.get_node_degree(one) as u128;
        let b = self.get_node_degree(two) as u128;
        proof {
            assert(a * b <= 0xffff_ffff_ffff_ffff * 0xffff_ffff_ffff_ffff) by (nonlinear_arith)
                requires
                    0 <= a <= 0xffff_ffff_ffff_ffff,
                    0 <= b <= 0xffff_ffff_ffff_ffff,
            ;
        }
        Ok(a * b)
    }

    /// The density of the graph: the number of edges over the number of
    /// pairs of distinct nodes.
    pub fn density(&self) -> (d: Ratio)
        requires
            self.wf(),
        ensures
            d.numerator == self.edges_count(),
            d.denominator == self.pairs_count(),
    {
        Ratio { numerator: self.get_edges_number(), denominator: self.get_pairs_number() }
    }

    /// The class of the density of the graph.
    pub fn density_class(&self) -> (class: DensityClass)
        requires
            self.wf(),
        ensures
            class == density_class_spec(self.edges_count() as int, self.pairs_count()),
    {
        let edges = self.get_edges_number() as u128;
        let pairs = self.get_pairs_number() as u128;
        if pairs == 0 {
            DensityClass::Undefined
        } else if edges * 10000 < pairs {
            DensityClass::ExtremelySparse
        } else if edges * 1000 < pairs {
            DensityClass::QuiteSparse
        } else if edges * 100 < pairs {
            DensityClass::Sparse
        } else if edges * 10 < pairs {
            DensityClass::Dense
        } else if edges * 2 < pairs {
            DensityClass::QuiteDense
        } else if edges < pairs {
            DensityClass::ExtremelyDense
        } else if edges == pairs {
            DensityClass::Complete
        } else {
            DensityClass::Overfull
        }
    }

    /// The mean degree: the number of edges over the number of nodes.
    pub fn degrees_mean(&self) -> (mean: Ratio)
        requires
            self.wf(),
        ensures
            mean.numerator == self.edges_count(),
            mean.denominator == self.nodes_count(),
    {
        Ratio { numerator: self.get_edges_number(), denominator: self.get_nodes_number() as u64 }
    }

    /// The rate of self-loops: their number over the number of edges.
    pub fn get_self_loop_rate(&self) -> (rate: Ratio)
        requires
            self.wf(),
        ensures
            rate.numerator == self.self_loops(),
            rate.denominator == self.edges_count(),
    {
        Ratio { numerator: self.self_loop_number, denominator: self.get_edges_number() }
    }

    /// No more edges are self-loops than there are edges.
    pub proof fn lemma_loops_bound(keys: Seq<u64>, radix: int, k: int)
        requires
            0 <= k,
        ensures
            crate::graph::loops_upto(keys, radix, k) <= k,
        decreases k,
    {
        if k > 0 {
            Self::lemma_loops_bound(keys, radix, k - 1);
        }
    }

    /// The number of edges of the graph taken as undirected: every
    /// self-loop, and half of the other edges.
    pub fn get_undirected_edges_number(&self) -> (number: EdgeT)
        requires
            self.wf(),
        ensures
            number == (self.edges_count() - self.self_loops()) / 2 + self.self_loops(),
    {
        proof {
            Self::lemma_loops_bound(self.edges@, self.radix as int, self.edges@.len() as int);
        }
        (self.get_edges_number() - self.self_loop_number) / 2 + self.self_loop_number
    }

    /// The number of sources that have edges.
    pub fn get_source_nodes_number(&self) -> (number: NodeT)
        requires
            self.wf(),
        ensures
            number == self.unique_sources@.len(),
    {
        self.get_unique_sources_number()
    }

    /// The largest degree; a graph without nodes has none.
    pub fn degrees_max(&self) -> (r: Result<EdgeT, GraphError>)
        requires
            self.wf(),
        ensures
            r is Ok <==> self.nodes_count() > 0,
            r is Err ==> r->Err_0 == GraphError::EmptyGraph,
            r matches Ok(max) ==> (forall|s: int|
                0 <= s < self.nodes_count() ==> #[trigger] self.degree(s) <= max) && exists|s: int|
                0 <= s < self.nodes_count() && self.degree(s) == max,
    {
        let n = self.get_nodes_number();
        if n == 0 {
            return Err(GraphError::EmptyGraph);
        }
        let mut max = self.get_node_degree(0);
        let ghost mut at: int = 0;
        let mut node: NodeT = 1;
        while node < n
            invariant
                self.wf(),
                1 <= node <= n,
                n == self.nodes_count(),
                0 <= at < node,
                self.degree(at) == max,
                forall|s: int| 0 <= s < node ==> #[trigger] self.degree(s) <= max,
            decreases n - node,
        {
            let degree = self.get_node_degree(node);
            if degree > max {
                max = degree;
                proof {
                    at = node as int;
                }
            }
            node += 1;
        }
        Ok(max)
    }

    /// The smallest degree; a graph without nodes has none.
    pub fn degrees_min(&self) -> (r: Result<EdgeT, GraphError>)
        requires
            self.wf(),
        ensures
            r is Ok <==> self.nodes_count() > 0,
            r is Err ==> r->Err_0 == GraphError::EmptyGraph,
            r matches Ok(min) ==> (forall|s: int|
                0 <= s < self.nodes_count() ==> #[trigger] self.degree(s) >= min) && exists|s: int|
                0 <= s < self.nodes_count() && self.degree(s) == min,
    {
        let n = self.get_nodes_number();
        if n == 0 {
            return Err(GraphError::EmptyGraph);
        }
        let mut min = self.get_node_degree(0);
        let ghost mut at: int = 0;
        let mut node: NodeT = 1;
        while node < n
            invariant
                self.wf(),
                1 <= node <= n,
                n == self.nodes_count(),
                0 <= at < node,
                self.degree(at) == min,
                forall|s: int| 0 <= s < node ==> #[trigger] self.degree(s) >= min,
            decreases n - node,
        {
            let degree = self.get_node_degree(node);
            if degree < min {
                min = degree;
                proof {
                    at = node as int;
                }
            }
            node += 1;
        }
        Ok(min)
    }

    /// The median degree: the degree in the middle of the degrees in
    /// ascending order, the upper of the two in the middle where the nodes
    /// are even in number. A graph without nodes has none.
    pub fn degrees_median(&self) -> (r: Result<EdgeT, GraphError>)
        requires
            self.wf(),
        ensures
            r is Ok <==> self.nodes_count() > 0,
            r is Err ==> r->Err_0 == GraphError::EmptyGraph,
            r matches Ok(median) ==> exists|order: Seq<int>| #[trigger]
                crate::sorting::is_stable_order(order, self.degree_keys()) && median
                    == self.degree_keys()[order[self.nodes_count() as int / 2]],
    {
        let n = self.get_nodes_number();
        if n == 0 {
            return Err(GraphError::EmptyGraph);
        }
        let degrees = self.get_node_degrees();
        proof {
            assert(degrees@ =~= self.degree_keys());
        }
        let p = crate::sorting::sort_keys(&degrees);
        let sorted = crate::sorting::apply_order(&p, &degrees);
        proof {
            let order = crate::sorting::order_of(p);
            assert(crate::sorting::is_stable_order(order, self.degree_keys()));
            assert(sorted@[n as int / 2] == self.degree_keys()[order[n as int / 2]]);
        }
        Ok(sorted[(n / 2) as usize])
    }
}

} // verus!

verus! {

/// What a graph reports of itself.
pub struct GraphReport {
    pub name: String,
    pub nodes_number: NodeT,
    pub edges_number: EdgeT,
    pub undirected_edges_number: EdgeT,
    pub density: Ratio,
    pub density_class: DensityClass,
    pub directed: bool,
    pub multigraph: bool,
    pub has_weights: bool,
    pub has_edge_types: bool,
    pub has_node_types: bool,
    pub self_loops_number: EdgeT,
    pub self_loops_rate: Ratio,
    pub singletons: NodeT,
    pub degree_mean: Ratio,
    pub unique_node_types_number: u16,
    pub unique_edge_types_number: u16,
}

impl Graph {
    /// A node is a destination of `node` exactly when one of the edges of
    /// `node` leads to it.
    pub proof fn lemma_neighbour(&self, node: int, v: int)
        requires
            self.wf_store(),
            0 <= node < self.nodes_count(),
        ensures
            self.has_edge_between(node, v) <==> exists|e: int|
                self.lower(node) <= e < self.upper(node) && #[trigger] self.destination(e) == v,
    {
        self.lemma_ranges(node);
        if self.has_edge_between(node, v) {
            let e = choose|e: int|
                0 <= e < self.edges_count() && self.source(e) == node && self.destination(e) == v;
            self.lemma_edge_in_range(e, node);
        }
        if exists|e: int|
            self.lower(node) <= e < self.upper(node) && #[trigger] self.destination(e) == v {
            let e = choose|e: int|
                self.lower(node) <= e < self.upper(node) && #[trigger] self.destination(e) == v;
            self.lemma_edge_in_range(e, node);
        }
    }

    /// Marks the nodes that an edge leads to from `node`.
    pub fn get_neighbour_marks(&self, node: NodeT) -> (marks: Vec<bool>)
        requires
            self.wf(),
            node < self.nodes_count(),
        ensures
            marks@.len() == self.nodes_count(),
            forall|v: int|
                0 <= v < self.nodes_count() ==> (#[trigger] marks@[v] <==> self.has_edge_between(
                    node as int,
                    v,
                )),
    {
        let n = self.get_nodes_number() as usize;
        let mut marks: Vec<bool> = Vec::new();
        let mut u: usize = 0;
        while u < n
            invariant
                u <= n,
                marks@.len() == u,
                forall|k: int| 0 <= k < u ==> !marks@[k],
            decreases n - u,
        {
            marks.push(false);
            u += 1;
        }
        let (low, high) = self.get_destinations_min_max_edge_ids(node);
        let mut e = low;
        while e < high
            invariant
                self.wf(),
                node < self.nodes_count(),
                low == self.lower(node as int),
                high == self.upper(node as int),
                low <= e <= high <= self.edges_count(),
                n == self.nodes_count(),
                marks@.len() == n,
                forall|v: int|
                    0 <= v < n ==> (#[trigger] marks@[v] <==> exists|k: int|
                        low <= k < e && #[trigger] self.destination(k) == v),
            decreases high - e,
        {
            let dst = self.get_destination(e);
            let ghost before = marks@;
            marks.set(dst as usize, true);
            proof {
                assert forall|v: int| 0 <= v < n implies (#[trigger] marks@[v] <==> exists|k: int|
                    low <= k < e + 1 && #[trigger] self.destination(k) == v) by {
                    if before[v] {
                        let k = choose|k: int| low <= k < e && #[trigger] self.destination(k) == v;
                        assert(low <= k < e + 1 && self.destination(k) == v);
                    }
                    if v == dst {
                        assert(self.destination(e as int) == v);
                    }
                    if exists|k: int| low <= k < e + 1 && #[trigger] self.destination(k) == v {
                        let k = choose|k: int|
                            low <= k < e + 1 && #[trigger] self.destination(k) == v;
                        if k < e {
                            assert(before[v]);
                        }
                    }
                }
            }
            e += 1;
        }
        proof {
            assert forall|v: int| 0 <= v < self.nodes_count() implies (#[trigger] marks@[v]
                <==> self.has_edge_between(node as int, v)) by {
                self.lemma_neighbour(node as int, v);
            }
        }
        marks
    }

    /// The nodes below `k` that edges lead to from both `one` and `two`, in
    /// ascending order.
    pub open spec fn common_neighbours_upto(&self, one: int, two: int, k: int) -> Seq<NodeT>
        decreases k,
    {
        if k <= 0 {
            Seq::empty()
        } else if self.has_edge_between(one, k - 1) && self.has_edge_between(two, k - 1) {
            self.common_neighbours_upto(one, two, k - 1).push((k - 1) as NodeT)
        } else {
            self.common_neighbours_upto(one, two, k - 1)
        }
    }

    /// How many nodes below `k` an edge leads to from `node`.
    pub open spec fn neighbours_upto(&self, node: int, k: int) -> nat
        decreases k,
    {
        if k <= 0 {
            0
        } else {
            self.neighbours_upto(node, k - 1) + if self.has_edge_between(node, k - 1) {
                1nat
            } else {
                0nat
            }
        }
    }

    /// The nodes that edges lead to from both `one` and `two`, in ascending
    /// order; identifiers that are no nodes are refused.
    pub fn get_common_neighbours(&self, one: NodeT, two: NodeT) -> (r: Result<Vec<NodeT>, GraphError>)
        requires
            self.wf(),
        ensures
            r is Ok <==> one < self.nodes_count() && two < self.nodes_count(),
            r is Err ==> r->Err_0 == GraphError::OutOfRange,
            r matches Ok(common) ==> common@ == self.common_neighbours_upto(
                one as int,
                two as int,
                self.nodes_count() as int,
            ),
    {
        let n = self.get_nodes_number();
        if one >= n || two >= n {
            return Err(GraphError::OutOfRange);
        }
        let first = self.get_neighbour_marks(one);
        let second = self.get_neighbour_marks(two);
        let mut common: Vec<NodeT> = Vec::new();
        let mut v: NodeT = 0;
        while v < n
            invariant
                v <= n,
                n == self.nodes_count(),
                first@.len() == n,
                second@.len() == n,
                forall|k: int|
                    0 <= k < n ==> (#[trigger] first@[k] <==> self.has_edge_between(one as int, k)),
                forall|k: int|
                    0 <= k < n ==> (#[trigger] second@[k] <==> self.has_edge_between(two as int, k)),
                common@ == self.common_neighbours_upto(one as int, two as int, v as int),
            decreases n - v,
        {
            if first[v as usize] && second[v as usize] {
                common.push(v);
            }
            v += 1;
        }
        Ok(common)
    }

    /// The number of distinct nodes that an edge leads to from `node`.
    pub fn get_unique_neighbours_number(&self, node: NodeT) -> (number: NodeT)
        requires
            self.wf(),
            node < self.nodes_count(),
        ensures
            number == self.neighbours_upto(node as int, self.nodes_count() as int),
    {
        let n = self.get_nodes_number();
        let marks = self.get_neighbour_marks(node);
        let mut number: NodeT = 0;
        let mut v: NodeT = 0;
        while v < n
            invariant
                v <= n,
                n == self.nodes_count(),
                marks@.len() == n,
                forall|k: int|
                    0 <= k < n ==> (#[trigger] marks@[k] <==> self.has_edge_between(node as int, k)),
                number <= v,
                number == self.neighbours_upto(node as int, v as int),
            decreases n - v,
        {
            if marks[v as usize] {
                number += 1;
            }
            v += 1;
        }
        number
    }

    /// The Jaccard index of two nodes as this library reckons it: the number
    /// of nodes that edges lead to from both, over the sum of the numbers of
    /// nodes that edges lead to from each. It is zero over one where no edge
    /// leaves one of the two. Identifiers that are no nodes are refused.
    pub fn jaccard_index(&self, one: NodeT, two: NodeT) -> (r: Result<Ratio, GraphError>)
        requires
            self.wf(),
        ensures
            r is Ok <==> one < self.nodes_count() && two < self.nodes_count(),
            r is Err ==> r->Err_0 == GraphError::OutOfRange,
            r matches Ok(index) ==> (if self.degree(one as int) == 0 || self.degree(two as int)
                == 0 {
                index == (Ratio { numerator: 0, denominator: 1 })
            } else {
                index.numerator == self.common_neighbours_upto(
                    one as int,
                    two as int,
                    self.nodes_count() as int,
                ).len() && index.denominator == self.neighbours_upto(
                    one as int,
                    self.nodes_count() as int,
                ) + self.neighbours_upto(two as int, self.nodes_count() as int)
            }),
    {
        let common = match self.get_common_neighbours(one, two) {
            Err(e) => {
                return Err(e);
            },
            Ok(common) => common,
        };
        if self.is_node_trap(one) || self.is_node_trap(two) {
            return Ok(Ratio { numerator: 0, denominator: 1 });
        }
        let first = self.get_unique_neighbours_number(one) as u64;
        let second = self.get_unique_neighbours_number(two) as u64;
        Ok(Ratio { numerator: common.len() as u64, denominator: first + second })
    }

    /// The degrees of the nodes of `nodes` that have edges, in the order of
    /// the nodes.
    pub open spec fn degrees_of(&self, nodes: Seq<NodeT>) -> Seq<EdgeT>
        decreases nodes.len(),
    {
        if nodes.len() == 0 {
            Seq::empty()
        } else if self.degree(nodes.last() as int) > 0 {
            self.degrees_of(nodes.drop_last()).push(self.degree(nodes.last() as int) as EdgeT)
        } else {
            self.degrees_of(nodes.drop_last())
        }
    }

    /// The degrees that the indices of Adamic and Adar and of resource
    /// allocation are sums over: those of the nodes that edges lead to from
    /// both `one` and `two` and that have edges themselves; none where no
    /// edge leaves one of the two.
    pub open spec fn shared_degrees(&self, one: int, two: int) -> Seq<EdgeT> {
        if self.degree(one) == 0 || self.degree(two) == 0 {
            Seq::empty()
        } else {
            self.degrees_of(self.common_neighbours_upto(one, two, self.nodes_count() as int))
        }
    }

    /// The degrees of the common neighbours of two nodes; see
    /// `shared_degrees`.
    fn get_shared_degrees(&self, one: NodeT, two: NodeT) -> (r: Result<Vec<EdgeT>, GraphError>)
        requires
            self.wf(),
        ensures
            r is Ok <==> one < self.nodes_count() && two < self.nodes_count(),
            r is Err ==> r->Err_0 == GraphError::OutOfRange,
            r matches Ok(degrees) ==> degrees@ == self.shared_degrees(one as int, two as int),
    {
        let common = match self.get_common_neighbours(one, two) {
            Err(e) => {
                return Err(e);
            },
            Ok(common) => common,
        };
        if self.is_node_trap(one) || self.is_node_trap(two) {
            return Ok(Vec::new());
        }
        proof {
            self.lemma_common_are_nodes(one as int, two as int, self.nodes_count() as int);
        }
        let mut degrees: Vec<EdgeT> = Vec::new();
        let mut i: usize = 0;
        proof {
            assert(common@.take(0) =~= Seq::<NodeT>::empty());
        }
        while i < common.len()
            invariant
                self.wf(),
                i <= common@.len(),
                forall|k: int| 0 <= k < common@.len() ==> #[trigger] common@[k] < self.nodes_count(),
                degrees@ == self.degrees_of(common@.take(i as int)),
            decreases common@.len() - i,
        {
            let degree = self.get_node_degree(common[i]);
            proof {
                assert(common@.take(i + 1).drop_last() =~= common@.take(i as int));
            }
            if degree > 0 {
                degrees.push(degree);
            }
            i += 1;
        }
        proof {
            assert(common@.take(i as int) =~= common@);
        }
        Ok(degrees)
    }

    /// Common neighbours are nodes.
    pub proof fn lemma_common_are_nodes(&self, one: int, two: int, k: int)
        requires
            0 <= k <= self.nodes_count(),
        ensures
            forall|i: int|
                0 <= i < self.common_neighbours_upto(one, two, k).len()
                    ==> #[trigger] self.common_neighbours_upto(one, two, k)[i] < k,
        decreases k,
    {
        if k > 0 {
            self.lemma_common_are_nodes(one, two, k - 1);
            let front = self.common_neighbours_upto(one, two, k - 1);
            let whole = self.common_neighbours_upto(one, two, k);
            assert forall|i: int| 0 <= i < whole.len() implies #[trigger] whole[i] < k by {
                if i < front.len() {
                    assert(whole[i] == front[i]);
                }
            }
        }
    }

    /// The terms of the index of Adamic and Adar of two nodes: the degrees
    /// `d` whose `1 / ln(d)` the index sums up.
    pub fn adamic_adar_index(&self, one: NodeT, two: NodeT) -> (r: Result<Vec<EdgeT>, GraphError>)
        requires
            self.wf(),
        ensures
            r is Ok <==> one < self.nodes_count() && two < self.nodes_count(),
            r is Err ==> r->Err_0 == GraphError::OutOfRange,
            r matches Ok(degrees) ==> degrees@ == self.shared_degrees(one as int, two as int),
    {
        self.get_shared_degrees(one, two)
    }

    /// The terms of the resource allocation index of two nodes: the degrees
    /// `d` whose `1 / d` the index sums up.
    pub fn resource_allocation_index(&self, one: NodeT, two: NodeT) -> (r: Result<
        Vec<EdgeT>,
        GraphError,
    >)
        requires
            self.wf(),
        ensures
            r is Ok <==> one < self.nodes_count() && two < self.nodes_count(),
            r is Err ==> r->Err_0 == GraphError::OutOfRange,
            r matches Ok(degrees) ==> degrees@ == self.shared_degrees(one as int, two as int),
    {
        self.get_shared_degrees(one, two)
    }

    /// How many of the first `k` edges of `node` lead to a node that no edge
    /// leaves.
    pub open spec fn trap_edges_upto(&self, node: int, k: int) -> nat
        decreases k,
    {
        if k <= 0 {
            0
        } else {
            self.trap_edges_upto(node, k - 1) + if self.degree(
                self.destination(self.lower(node) + k - 1),
            ) == 0 {
                1nat
            } else {
                0nat
            }
        }
    }

    /// The chance that a uniform step from `node` ends in a trap: the
    /// number of its edges that lead to a node that no edge leaves, over its
    /// degree; one over one for a node that no edge leaves.
    pub open spec fn trap_chance(&self, node: int) -> Ratio {
        if self.degree(node) == 0 {
            Ratio { numerator: 1, denominator: 1 }
        } else {
            Ratio {
                numerator: self.trap_edges_upto(node, self.degree(node) as int) as u64,
                denominator: self.degree(node) as u64,
            }
        }
    }

    /// The terms of the traps rate: for every node the chance that a
    /// uniform step from it ends in a trap. The rate is their mean.
    pub fn traps_rate(&self) -> (chances: Vec<Ratio>)
        requires
            self.wf(),
        ensures
            chances@.len() == self.nodes_count(),
            forall|s: int|
                0 <= s < self.nodes_count() ==> #[trigger] chances@[s] == self.trap_chance(s),
    {
        let n = self.get_nodes_number();
        let mut chances: Vec<Ratio> = Vec::new();
        let mut node: NodeT = 0;
        while node < n
            invariant
                self.wf(),
                node <= n,
                n == self.nodes_count(),
                chances@.len() == node,
                forall|s: int| 0 <= s < node ==> #[trigger] chances@[s] == self.trap_chance(s),
            decreases n - node,
        {
            let (low, high) = self.get_destinations_min_max_edge_ids(node);
            if low == high {
                chances.push(Ratio { numerator: 1, denominator: 1 });
            } else {
                let mut traps: EdgeT = 0;
                let mut e = low;
                while e < high
                    invariant
                        self.wf(),
                        node < self.nodes_count(),
                        low == self.lower(node as int),
                        high == self.upper(node as int),
                        low <= e <= high <= self.edges_count(),
                        traps <= e - low,
                        traps == self.trap_edges_upto(node as int, e - low),
                    decreases high - e,
                {
                    let dst = self.get_destination(e);
                    if self.is_node_trap(dst) {
                        traps += 1;
                    }
                    e += 1;
                }
                chances.push(Ratio { numerator: traps, denominator: high - low });
            }
            node += 1;
        }
        chances
    }

    /// The number of connected components, taking every edge both ways, and
    /// the size of the largest of them.
    pub fn connected_components_number(&self) -> (r: (NodeT, NodeT))
        requires
            self.wf(),
        ensures
            r.0 == self.classes_count(),
            r.0 == self.nodes_count() - crate::partition::forest(
                self.nodes_count(),
                self.unique_pairs(self.edges_count() as int),
            ).len(),
            forall|u: int|
                0 <= u < self.nodes_count() ==> #[trigger] crate::partition::component_size(
                    crate::partition::after(
                        self.nodes_count(),
                        self.unique_pairs(self.edges_count() as int),
                    ),
                    u,
                ) <= r.1,
    {
        let (_, _, number, _, largest) = self.spanning_arborescence_kruskal();
        (number, largest)
    }

    /// The report of the graph.
    pub fn report(&self) -> (report: GraphReport)
        requires
            self.wf(),
        ensures
            report.name@ == self.name@,
            report.nodes_number == self.nodes_count(),
            report.edges_number == self.edges_count(),
            report.undirected_edges_number == (self.edges_count() - self.self_loops()) / 2
                + self.self_loops(),
            report.density == (Ratio {
                numerator: self.edges_count() as u64,
                denominator: self.pairs_count() as u64,
            }),
            report.density_class == density_class_spec(
                self.edges_count() as int,
                self.pairs_count(),
            ),
            report.directed == self.directed,
            report.multigraph == (self.multi_edge_duplicates() > 0),
            report.has_weights == (self.weights is Some),
            report.has_edge_types == (self.edge_types is Some),
            report.has_node_types == (self.node_types is Some),
            report.self_loops_number == self.self_loops(),
            report.self_loops_rate == (Ratio {
                numerator: self.self_loops() as u64,
                denominator: self.edges_count() as u64,
            }),
            report.singletons == self.nodes_count() - self.not_singletons(),
            report.degree_mean == (Ratio {
                numerator: self.edges_count() as u64,
                denominator: self.nodes_count() as u64,
            }),
    {
        GraphReport {
            name: self.get_name(),
            nodes_number: self.get_nodes_number(),
            edges_number: self.get_edges_number(),
            undirected_edges_number: self.get_undirected_edges_number(),
            density: self.density(),
            density_class: self.density_class(),
            directed: self.is_directed(),
            multigraph: self.is_multigraph(),
            has_weights: self.has_weights(),
            has_edge_types: self.has_edge_types(),
            has_node_types: self.has_node_types(),
            self_loops_number: self.get_self_loop_number(),
            self_loops_rate: self.get_self_loop_rate(),
            singletons: self.get_singleton_nodes_number(),
            degree_mean: self.degrees_mean(),
            unique_node_types_number: self.get_node_types_number(),
            unique_edge_types_number: self.get_edge_types_number(),
        }
    }
}

} // verus!

verus! {

impl Graph {
    /// The degrees of all nodes as labels, for counting.
    pub open spec fn degree_labels(&self) -> Seq<int> {
        Seq::new(self.nodes_count(), |s: int| self.degree(s) as int)
    }

    /// How many nodes have the degree `d`.
    pub open spec fn degree_frequency(&self, d: int) -> nat {
        crate::partition::label_count(self.degree_labels(), d)
    }

    /// The degree that most nodes have; of several such degrees, that of
    /// the node with the smallest identifier. A graph without nodes has
    /// none.
    pub fn degrees_mode(&self) -> (r: Result<EdgeT, GraphError>)
        requires
            self.wf(),
        ensures
            r is Ok <==> self.nodes_count() > 0,
            r is Err ==> r->Err_0 == GraphError::EmptyGraph,
            r matches Ok(mode) ==> (forall|s: int|
                0 <= s < self.nodes_count() ==> self.degree_frequency(
                    #[trigger] self.degree(s) as int,
                ) <= self.degree_frequency(mode as int)) && exists|s: int|
                0 <= s < self.nodes_count() && self.degree(s) == mode && forall|t: int|
                    0 <= t < s ==> self.degree_frequency(#[trigger] self.degree(t) as int)
                        < self.degree_frequency(mode as int),
    {
        broadcast use vstd::std_specs::hash::group_hash_axioms;

        let n = self.get_nodes_number();
        if n == 0 {
            return Err(GraphError::EmptyGraph);
        }
        let degrees = self.get_node_degrees();
        let ghost labels = self.degree_labels();
        let mut counts: std::collections::HashMap<u64, usize> = std::collections::HashMap::new();
        let mut i: usize = 0;
        while i < n as usize
            invariant
                i <= n,
                n == self.nodes_count(),
                degrees@.len() == n,
                labels == self.degree_labels(),
                labels.len() == n,
                forall|s: int| 0 <= s < n ==> #[trigger] degrees@[s] == labels[s],
                forall|d: u64|
                    counts@.contains_key(d) <==> crate::partition::label_count(
                        labels.take(i as int),
                        d as int,
                    ) > 0,
                forall|d: u64| #[trigger]
                    counts@.contains_key(d) ==> counts@[d] == crate::partition::label_count(
                        labels.take(i as int),
                        d as int,
                    ),
            decreases n - i,
        {
            let d = degrees[i];
            let known = match counts.get(&d) {
                Some(c) => *c,
                None => 0,
            };
            proof {
                crate::partition::lemma_count_bound(labels.take(i as int), d as int);
                assert forall|x: u64|
                    crate::partition::label_count(labels.take(i + 1), x as int)
                        == crate::partition::label_count(labels.take(i as int), x as int) + (if x
                        == d {
                        1nat
                    } else {
                        0nat
                    }) by {
                    crate::partition::lemma_count_take_step(labels, i as int, x as int);
                }
            }
            counts.insert(d, known + 1);
            i += 1;
        }
        proof {
            assert(labels.take(n as int) =~= labels);
        }
        let mut mode = degrees[0];
        let mut best: usize = match counts.get(&mode) {
            Some(c) => *c,
            None => 0,
        };
        let ghost mut at: int = 0;
        proof {
            crate::partition::lemma_count_witness(labels, degrees@[0] as int);
        }
        let mut node: usize = 1;
        while node < n as usize
            invariant
                1 <= node <= n,
                n == self.nodes_count(),
                degrees@.len() == n,
                labels == self.degree_labels(),
                labels.len() == n,
                forall|s: int| 0 <= s < n ==> #[trigger] degrees@[s] == labels[s],
                forall|d: u64|
                    counts@.contains_key(d) <==> crate::partition::label_count(labels, d as int)
                        > 0,
                forall|d: u64| #[trigger]
                    counts@.contains_key(d) ==> counts@[d] == crate::partition::label_count(
                        labels,
                        d as int,
                    ),
                0 <= at < node,
                degrees@[at] == mode,
                best == crate::partition::label_count(labels, mode as int),
                forall|s: int|
                    0 <= s < node ==> crate::partition::label_count(
                        labels,
                        #[trigger] degrees@[s] as int,
                    ) <= best,
                forall|t: int|
                    0 <= t < at ==> crate::partition::label_count(
                        labels,
                        #[trigger] degrees@[t] as int,
                    ) < best,
            decreases n - node,
        {
            let d = degrees[node];
            proof {
                crate::partition::lemma_count_witness(labels, d as int);
            }
            let frequency = match counts.get(&d) {
                Some(c) => *c,
                None => 0,
            };
            if frequency > best {
                proof {
                    assert forall|t: int| 0 <= t < node implies crate::partition::label_count(
                        labels,
                        #[trigger] degrees@[t] as int,
                    ) < frequency by {}
                    at = node as int;
                }
                mode = d;
                best = frequency;
            }
            node += 1;
        }
        proof {
            assert forall|s: int| 0 <= s < self.nodes_count() implies self.degree_frequency(
                #[trigger] self.degree(s) as int,
            ) <= self.degree_frequency(mode as int) by {
                assert(degrees@[s] == labels[s]);
                assert(crate::partition::label_count(labels, degrees@[s] as int) <= best);
            }
            assert(self.degree(at) == mode);
            assert forall|t: int| 0 <= t < at implies self.degree_frequency(
                #[trigger] self.degree(t) as int,
            ) < self.degree_frequency(mode as int) by {
                assert(degrees@[t] == labels[t]);
                assert(crate::partition::label_count(labels, degrees@[t] as int) < best);
            }
        }
        Ok(mode)
    }
}

} // verus!
