//! What holds of every well-formed graph, stated and proved once.

use vstd::prelude::*;
use crate::classes::{closed_under, firsts, lemma_classes_refine, lemma_component_count_is_firsts, lemma_edge_ends_share_label, lemma_firsts_agree};
use crate::graph::Graph;
use crate::partition::{after, component_count, edges_in_range, final_labels, forest, lemma_after_bounded, lemma_forest_bound, lemma_forest_edges_are_given, lemma_forest_spans, lemma_no_edge_joins_at_end, joins};
use crate::sorting::{lemma_rising_from_above, lemma_rising_from_below, lemma_stable_order_is_unique};
use crate::types::NodeT;

verus! {

impl Graph {
    /// The sum of the degrees of the nodes below `k`.
    pub open spec fn degrees_sum(&self, k: int) -> int
        decreases k,
    {
        if k <= 0 {
            0
        } else {
            self.degrees_sum(k - 1) + (self.upper(k - 1) - self.lower(k - 1))
        }
    }

    /// The ranges of the sources add up to the edges: the differences of
    /// the upper bounds of one source and of the source before it sum to the
    /// number of edges.
    pub proof fn law_ranges_cover_the_edges(&self)
        requires
            self.wf(),
        ensures
            self.degrees_sum(self.nodes_count() as int) == self.edges_count(),
    {
        self.lemma_degrees_sum(self.nodes_count() as int);
        if self.nodes_count() > 0 {
            self.lemma_ranges(0);
        } else {
            crate::encoding::lemma_count_below_sorted(self.edges@, 0);
            if self.edges@.len() > 0 {
                assert(self.source(0) < 0);
            }
            crate::encoding::lemma_count_below_all(self.edges@, 0);
        }
    }

    /// The sum of the degrees of the nodes below `k` is where the edges of
    /// node `k` start.
    proof fn lemma_degrees_sum(&self, k: int)
        requires
            self.wf(),
            0 <= k <= self.nodes_count(),
        ensures
            self.degrees_sum(k) == self.lower(k),
        decreases k,
    {
        if k > 0 {
            self.lemma_degrees_sum(k - 1);
            self.lemma_ranges(k - 1);
        } else {
            crate::encoding::lemma_count_below_sorted(self.edges@, 0);
            if self.edges@.len() > 0 && crate::encoding::count_below(self.edges@, 0) > 0 {
                assert(self.edges@[0] < 0);
            }
            assert(0 * self.radix == 0);
        }
    }

    /// Every edge lies in the range of its source: at or after the upper
    /// bound of the source before, and before the upper bound of its own.
    pub proof fn law_edge_lies_in_its_range(&self, e: int)
        requires
            self.wf(),
            0 <= e < self.edges_count(),
        ensures
            self.lower(self.source(e)) <= e < self.upper(self.source(e)),
            0 <= self.source(e) < self.nodes_count(),
            0 <= self.destination(e) < self.nodes_count(),
    {
        self.lemma_edge_in_range(e, self.source(e));
        crate::encoding::lemma_encode_decode(self.edges@[e] as int, self.radix as int);
        assert(self.source(e) < self.nodes_count());
        assert(self.destination(e) < self.nodes_count());
    }

    /// An undirected graph holds every edge both ways: for every edge there
    /// is an edge the other way round with the same weight and the same
    /// type.
    pub proof fn law_undirected_graphs_are_mirrored(&self, e: int)
        requires
            self.wf(),
            !self.directed,
            0 <= e < self.edges_count(),
        ensures
            exists|m: int|
                0 <= m < self.edges_count() && #[trigger] self.source(m) == self.destination(e)
                    && self.destination(m) == self.source(e) && self.weight_at(m)
                    == self.weight_at(e) && self.edge_type_at(m) == self.edge_type_at(e),
    {
        assert(self.has_mirror(e));
        let m = choose|m: int| 0 <= m < self.edges_count() && self.is_mirror(e, m);
        assert(self.source(m) == self.destination(e));
    }

    /// The distinct edges and the edges that repeat another add up to the
    /// edges.
    pub proof fn law_unique_and_repeated_edges(&self)
        requires
            self.wf(),
        ensures
            self.unique_edges_number + self.multi_edge_duplicates() == self.edges_count(),
    {
        crate::stats::lemma_runs_and_repeats(self.edges@, self.edges@.len() as int);
    }

    /// A spanning forest of all the edges has one edge for every node but
    /// one in each connected component; every edge of the forest is an edge
    /// of the graph; and every edge of the graph has both ends in one tree
    /// of the forest, so that adding it to the forest would close a cycle.
    pub proof fn law_kruskal_spans(&self)
        requires
            self.wf(),
        ensures
            forest(self.nodes_count(), self.edge_pairs()).len() + self.classes_count()
                == self.nodes_count(),
            forall|i: int|
                0 <= i < forest(self.nodes_count(), self.edge_pairs()).len()
                    ==> self.edge_pairs().contains(
                    #[trigger] forest(self.nodes_count(), self.edge_pairs())[i],
                ),
            forall|e: int|
                0 <= e < self.edges_count() ==> !joins(
                    after(self.nodes_count(), forest(self.nodes_count(), self.edge_pairs())),
                    #[trigger] self.edge_pairs()[e],
                ),
    {
        let n = self.nodes_count();
        let pairs = self.edge_pairs();
        self.lemma_pairs_in_range();
        lemma_forest_bound(n, pairs);
        assert forall|i: int| 0 <= i < forest(n, pairs).len() implies pairs.contains(
            #[trigger] forest(n, pairs)[i],
        ) by {
            lemma_forest_edges_are_given(n, pairs, i);
        }
        assert forall|e: int| 0 <= e < self.edges_count() implies !joins(
            after(n, forest(n, pairs)),
            #[trigger] pairs[e],
        ) by {
            lemma_no_edge_joins_at_end(n, pairs, e);
        }
    }
}

/// Two lists of edges that hold the same nodes together give as many
/// components: where the ends of every edge of each list share a component
/// of the other, the two partitions have the same number of components and
/// hold the same nodes together.
pub proof fn law_same_components(n: nat, one: Seq<(NodeT, NodeT)>, other: Seq<(NodeT, NodeT)>)
    requires
        edges_in_range(n, one),
        edges_in_range(n, other),
        closed_under(final_labels(after(n, one)), other),
        closed_under(final_labels(after(n, other)), one),
    ensures
        component_count(after(n, one)) == component_count(after(n, other)),
        forall|u: int, v: int|
            0 <= u < n && 0 <= v < n ==> (#[trigger] final_labels(after(n, one))[u]
                == #[trigger] final_labels(after(n, one))[v] <==> final_labels(after(n, other))[u]
                == final_labels(after(n, other))[v]),
{
    let a = final_labels(after(n, one));
    let b = final_labels(after(n, other));
    lemma_after_bounded(n, one);
    lemma_after_bounded(n, other);
    lemma_classes_refine(n, one, b);
    lemma_classes_refine(n, other, a);
    assert forall|u: int, v: int| 0 <= u < a.len() && 0 <= v < a.len() implies (a[u] == a[v]
        <==> b[u] == b[v]) by {
        if a[u] == a[v] {
            assert(final_labels(after(n, one))[u] == final_labels(after(n, one))[v]);
        }
        if b[u] == b[v] {
            assert(final_labels(after(n, other))[u] == final_labels(after(n, other))[v]);
        }
    }
    lemma_firsts_agree(a, b, n as int);
    lemma_component_count_is_firsts(after(n, one));
    lemma_component_count_is_firsts(after(n, other));
}

} // verus!

verus! {

impl Graph {
    /// Whether `pair` is one of the first `k` edges.
    pub open spec fn pair_among(&self, pair: (NodeT, NodeT), k: int) -> bool {
        exists|e: int| 0 <= e < k && #[trigger] self.edge_pairs()[e] == pair
    }

    /// Every distinct edge that the spanning-tree routines take is an edge
    /// of the graph.
    proof fn lemma_unique_pairs_are_edges(&self, k: int)
        requires
            0 <= k <= self.edges_count(),
        ensures
            forall|i: int|
                0 <= i < self.unique_pairs(k).len() ==> self.pair_among(
                    #[trigger] self.unique_pairs(k)[i],
                    k,
                ),
        decreases k,
    {
        if k > 0 {
            self.lemma_unique_pairs_are_edges(k - 1);
            let front = self.unique_pairs(k - 1);
            let whole = self.unique_pairs(k);
            assert forall|i: int| 0 <= i < whole.len() implies self.pair_among(
                #[trigger] whole[i],
                k,
            ) by {
                if i < front.len() {
                    assert(self.pair_among(front[i], k - 1));
                    let e = choose|e: int|
                        0 <= e < k - 1 && #[trigger] self.edge_pairs()[e] == front[i];
                    assert(0 <= e < k && self.edge_pairs()[e] == whole[i]);
                } else {
                    assert(self.edge_pairs()[k - 1] == whole[i]);
                }
            }
        }
    }

    /// An edge that starts a run and that the spanning-tree routines take is
    /// among the distinct edges.
    proof fn lemma_unique_pairs_hold(&self, k: int, r: int)
        requires
            0 <= r < k <= self.edges_count(),
            self.starts_run(r),
            self.spans(r),
        ensures
            self.unique_pairs(k).contains(self.edge_pairs()[r]),
        decreases k,
    {
        let whole = self.unique_pairs(k);
        if r == k - 1 {
            assert(whole[whole.len() - 1] == self.edge_pairs()[r]);
        } else {
            self.lemma_unique_pairs_hold(k - 1, r);
            let front = self.unique_pairs(k - 1);
            let i = choose|i: int| 0 <= i < front.len() && front[i] == self.edge_pairs()[r];
            assert(whole[i] == self.edge_pairs()[r]);
        }
    }

    /// Every edge has the key of an edge, at or before it, that starts a run.
    proof fn lemma_run_start(&self, e: int)
        requires
            0 <= e < self.edges_count(),
        ensures
            exists|r: int| 0 <= r <= e && self.starts_run(r) && self.edges@[r] == self.edges@[e],
        decreases e,
    {
        if self.starts_run(e) {
            assert(0 <= e <= e && self.starts_run(e) && self.edges@[e] == self.edges@[e]);
        } else {
            self.lemma_run_start(e - 1);
            let r = choose|r: int|
                0 <= r <= e - 1 && self.starts_run(r) && self.edges@[r] == self.edges@[e - 1];
            assert(0 <= r <= e && self.starts_run(r) && self.edges@[r] == self.edges@[e]);
        }
    }

    /// The distinct edges hold the nodes together as all the edges do: a
    /// spanning forest of the distinct edges has as many components as the
    /// graph has connected components, and its trees are they.
    pub proof fn law_distinct_edges_span(&self)
        requires
            self.wf(),
        ensures
            edges_in_range(self.nodes_count(), self.unique_pairs(self.edges_count() as int)),
            component_count(
                after(self.nodes_count(), self.unique_pairs(self.edges_count() as int)),
            ) == self.classes_count(),
            forest(self.nodes_count(), self.unique_pairs(self.edges_count() as int)).len()
                + self.classes_count() == self.nodes_count(),
            forall|u: int, v: int|
                0 <= u < self.nodes_count() && 0 <= v < self.nodes_count() ==> (
                #[trigger] self.class_of(u) == #[trigger] self.class_of(v) <==> final_labels(
                    after(self.nodes_count(), self.unique_pairs(self.edges_count() as int)),
                )[u] == final_labels(
                    after(self.nodes_count(), self.unique_pairs(self.edges_count() as int)),
                )[v]),
    {
        let n = self.nodes_count();
        let m = self.edges_count() as int;
        let all = self.edge_pairs();
        let unique = self.unique_pairs(m);
        self.lemma_pairs_in_range();
        self.lemma_unique_pairs_are_edges(m);
        assert(edges_in_range(n, unique)) by {
            assert forall|i: int| 0 <= i < unique.len() implies crate::partition::edge_in_range(
                n,
                #[trigger] unique[i],
            ) by {
                assert(self.pair_among(unique[i], m));
                let e = choose|e: int| 0 <= e < m && #[trigger] self.edge_pairs()[e] == unique[i];
                assert(crate::partition::edge_in_range(n, all[e]));
            }
        }
        let whole = final_labels(after(n, all));
        let part = final_labels(after(n, unique));
        assert(closed_under(whole, unique)) by {
            assert forall|i: int| 0 <= i < unique.len() implies whole[(#[trigger] unique[i]).0 as int]
                == whole[unique[i].1 as int] by {
                assert(self.pair_among(unique[i], m));
                let e = choose|e: int| 0 <= e < m && #[trigger] self.edge_pairs()[e] == unique[i];
                lemma_edge_ends_share_label(n, all, e);
            }
        }
        assert(closed_under(part, all)) by {
            assert forall|e: int| 0 <= e < all.len() implies part[(#[trigger] all[e]).0 as int]
                == part[all[e].1 as int] by {
                self.law_edge_lies_in_its_range(e);
                if self.source(e) != self.destination(e) {
                    let taken = if self.directed || self.source(e) < self.destination(e) {
                        e
                    } else {
                        assert(self.has_mirror(e));
                        choose|k: int| 0 <= k < self.edges_count() && self.is_mirror(e, k)
                    };
                    self.law_edge_lies_in_its_range(taken);
                    self.lemma_run_start(taken);
                    let r = choose|r: int|
                        0 <= r <= taken && self.starts_run(r) && self.edges@[r]
                            == self.edges@[taken];
                    assert(self.source(r) == self.source(taken) && self.destination(r)
                        == self.destination(taken));
                    self.lemma_unique_pairs_hold(m, r);
                    let i = choose|i: int| 0 <= i < unique.len() && unique[i] == all[r];
                    lemma_edge_ends_share_label(n, unique, i);
                }
            }
        }
        law_same_components(n, all, unique);
        lemma_forest_bound(n, unique);
        assert forall|u: int, v: int| 0 <= u < n && 0 <= v < n implies (#[trigger] self.class_of(u)
            == #[trigger] self.class_of(v) <==> part[u] == part[v]) by {
            assert(final_labels(after(n, all))[u] == final_labels(after(n, all))[v] <==> part[u]
                == part[v]);
        }
    }
}

} // verus!

verus! {

impl Graph {
    /// The connected components are the sets of nodes that paths join: two
    /// nodes lie in the same component exactly when a path of edges, each
    /// taken either way round, leads from one to the other.
    pub proof fn law_classes_are_path_classes(&self, u: int, v: int)
        requires
            self.wf(),
            0 <= u < self.nodes_count(),
            0 <= v < self.nodes_count(),
        ensures
            self.class_of(u) == self.class_of(v) <==> crate::paths::connected(
                self.edge_pairs(),
                u,
                v,
            ),
    {
        self.lemma_pairs_in_range();
        crate::paths::law_components_are_path_classes(self.nodes_count(), self.edge_pairs(), u, v);
    }
}

} // verus!

verus! {

/// The order that sorts keys that are in order already leaves every key in
/// its place.
pub proof fn lemma_sorted_order_is_identity(order: Seq<int>, keys: Seq<u64>)
    requires
        crate::encoding::sorted(keys),
        crate::sorting::is_stable_order(order, keys),
    ensures
        forall|i: int| 0 <= i < order.len() ==> #[trigger] order[i] == i,
{
    assert forall|i: int, j: int| 0 <= i < j < order.len() implies #[trigger] order[i]
        < #[trigger] order[j] by {
        if keys[order[i]] != keys[order[j]] {
            assert(keys[order[i]] <= keys[order[j]]);
            if order[j] < order[i] {
                assert(keys[order[j]] <= keys[order[i]]);
            }
        }
    }
    assert forall|i: int| 0 <= i < order.len() implies #[trigger] order[i] == i by {
        lemma_rising_from_below(order, i);
        lemma_rising_from_above(order, i);
    }
}

/// Where no entry repeats a slot, clearing leaves every entry.
pub proof fn lemma_nothing_to_clear(s: Seq<crate::builder::EdgeEntry>, k: int)
    requires
        crate::builder::distinct_slots(s),
        0 <= k <= s.len(),
    ensures
        crate::builder::first_occurrences(s, k) == s.take(k),
    decreases k,
{
    if k > 0 {
        lemma_nothing_to_clear(s, k - 1);
        if crate::builder::is_dup(s, k - 1) {
            let j = choose|j: int|
                0 <= j < k - 1 && crate::builder::same_slot(#[trigger] s[j], s[k - 1]);
            assert(!crate::builder::same_slot(s[j], s[k - 1]));
        }
        assert(s.take(k) =~= s.take(k - 1).push(s[k - 1]));
    } else {
        assert(s.take(0) =~= Seq::<crate::builder::EdgeEntry>::empty());
    }
}

/// A directed reading adds no mirrors.
pub proof fn lemma_directed_adds_nothing(s: Seq<crate::builder::EdgeEntry>)
    ensures
        crate::builder::mirrored(s, true) == s,
    decreases s.len(),
{
    if s.len() > 0 {
        lemma_directed_adds_nothing(s.drop_last());
        assert(s.drop_last().push(s.last()) =~= s);
    } else {
        assert(crate::builder::mirrored(s, true) =~= s);
    }
}

/// What is built from a list of entries is determined by the list: two
/// graphs of the same direction and over as many nodes that are built from
/// the same entries hold the same edges in the same order.
pub proof fn law_building_is_determined(
    one: &Graph,
    other: &Graph,
    entries: Seq<crate::builder::EdgeEntry>,
)
    requires
        one.directed == other.directed,
        one.radix == other.radix,
        crate::builder::built_from(one, entries),
        crate::builder::built_from(other, entries),
    ensures
        crate::builder::entries_of(one) == crate::builder::entries_of(other),
{
    let m = crate::builder::mirrored(entries, one.directed);
    let keys = crate::builder::keys_of(m, one.radix as int);
    let first = choose|order: Seq<int>| #[trigger]
        crate::sorting::is_stable_order(order, keys) && crate::builder::entries_of(one)
            == crate::builder::first_occurrences(
            crate::builder::rearranged(m, order),
            m.len() as int,
        );
    let second = choose|order: Seq<int>| #[trigger]
        crate::sorting::is_stable_order(order, keys) && crate::builder::entries_of(other)
            == crate::builder::first_occurrences(
            crate::builder::rearranged(m, order),
            m.len() as int,
        );
    lemma_stable_order_is_unique(first, second, keys);
}

impl Graph {
    /// The edges that a graph holds build the same edges again: a directed
    /// graph that is built from the edges of a well-formed graph, of which
    /// no two fill the same slot, and over as many nodes, holds those edges
    /// in the same order, with the same types and weights.
    pub proof fn law_stored_edges_rebuild(&self, rebuilt: &Graph)
        requires
            self.wf(),
            crate::builder::distinct_slots(crate::builder::entries_of(self)),
            rebuilt.directed,
            rebuilt.radix == self.radix,
            crate::builder::built_from(rebuilt, crate::builder::entries_of(self)),
        ensures
            crate::builder::entries_of(rebuilt) == crate::builder::entries_of(self),
    {
        let entries = crate::builder::entries_of(self);
        let radix = self.radix as int;
        lemma_directed_adds_nothing(entries);
        let order = choose|order: Seq<int>| #[trigger]
            crate::sorting::is_stable_order(order, crate::builder::keys_of(entries, radix))
                && crate::builder::entries_of(rebuilt) == crate::builder::first_occurrences(
                crate::builder::rearranged(entries, order),
                entries.len() as int,
            );
        let keys = crate::builder::keys_of(entries, radix);
        assert(keys =~= self.edges@) by {
            assert forall|e: int| 0 <= e < keys.len() implies keys[e] == self.edges@[e] by {
                crate::encoding::lemma_encode_decode(self.edges@[e] as int, radix);
            }
        }
        lemma_sorted_order_is_identity(order, keys);
        assert(crate::builder::rearranged(entries, order) =~= entries);
        lemma_nothing_to_clear(entries, entries.len() as int);
        assert(entries.take(entries.len() as int) =~= entries);
    }
}

} // verus!
