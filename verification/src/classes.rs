//! What a partition says of connectivity: which nodes share a component, how
//! a labelling that is closed under the edges relates to it, and how its
//! components are counted.

use vstd::prelude::*;
use crate::partition::{
    absent, absorb, after, component_count, edge_in_range, edges_in_range, final_labels, joins,
    label_count, labels_bounded, lemma_after_bounded, lemma_count_take_le, lemma_count_take_step,
    lemma_count_witness, lemma_final_prefix, lemma_no_edge_joins_at_end, live_components,
    Partition,
};
use crate::types::NodeT;

verus! {

/// Two nodes have the same final label exactly when they are one node or
/// lie in the same opened component.
pub proof fn lemma_same_final_label(p: Partition, u: int, v: int)
    requires
        labels_bounded(p),
        0 <= u < p.ids.len(),
        0 <= v < p.ids.len(),
    ensures
        final_labels(p)[u] == final_labels(p)[v] <==> (u == v || (p.ids[u] != absent() && p.ids[u]
            == p.ids[v])),
{
    if p.ids[u] == absent() && p.ids[v] == absent() && u != v {
        let (a, b) = if u < v {
            (u, v)
        } else {
            (v, u)
        };
        lemma_count_take_step(p.ids, a, absent());
        assert(p.ids.take(b).take(a + 1) =~= p.ids.take(a + 1));
        lemma_count_take_le(p.ids.take(b), a + 1, absent());
    }
}

/// The two ends of every edge that was absorbed have the same final label.
pub proof fn lemma_edge_ends_share_label(n: nat, edges: Seq<(NodeT, NodeT)>, i: int)
    requires
        edges_in_range(n, edges),
        0 <= i < edges.len(),
    ensures
        final_labels(after(n, edges))[edges[i].0 as int] == final_labels(after(n, edges))[edges[i].1 as int],
{
    lemma_no_edge_joins_at_end(n, edges, i);
    lemma_after_bounded(n, edges);
    assert(edge_in_range(n, edges[i]));
    lemma_same_final_label(after(n, edges), edges[i].0 as int, edges[i].1 as int);
}

/// Whether `labels` gives the two ends of every edge the same label.
pub open spec fn closed_under(labels: Seq<int>, edges: Seq<(NodeT, NodeT)>) -> bool {
    forall|i: int|
        0 <= i < edges.len() ==> labels[(#[trigger] edges[i]).0 as int] == labels[edges[i].1 as int]
}

/// Whether nodes that `p` holds in one opened component have one label.
pub open spec fn finer_than(p: Partition, labels: Seq<int>) -> bool {
    forall|u: int, v: int|
        0 <= u < p.ids.len() && 0 <= v < p.ids.len() && p.ids[u] != absent() && #[trigger] p.ids[u]
            == #[trigger] p.ids[v] ==> labels[u] == labels[v]
}

/// Absorbing an edge whose ends have one label keeps the partition finer
/// than the labelling.
proof fn lemma_absorb_finer(p: Partition, edge: (NodeT, NodeT), labels: Seq<int>)
    requires
        labels_bounded(p),
        edge_in_range(p.ids.len(), edge),
        labels.len() == p.ids.len(),
        labels[edge.0 as int] == labels[edge.1 as int],
        finer_than(p, labels),
    ensures
        finer_than(absorb(p, edge), labels),
{
    let q = absorb(p, edge);
    let a = edge.0 as int;
    let b = edge.1 as int;
    assert forall|u: int, v: int|
        0 <= u < q.ids.len() && 0 <= v < q.ids.len() && q.ids[u] != absent() && #[trigger] q.ids[u]
            == #[trigger] q.ids[v] implies labels[u] == labels[v] by {
        if joins(p, edge) {
            let x = p.ids[a];
            let y = p.ids[b];
            if x == absent() && y == absent() {
                if u == a || u == b {
                    assert(v == a || v == b);
                } else {
                    assert(p.ids[u] == p.ids[v]);
                }
            } else if x == absent() {
                if u == a && v != a {
                    assert(p.ids[v] == p.ids[b]);
                } else if v == a && u != a {
                    assert(p.ids[u] == p.ids[b]);
                } else if u != a {
                    assert(p.ids[u] == p.ids[v]);
                }
            } else if y == absent() {
                if u == b && v != b {
                    assert(p.ids[v] == p.ids[a]);
                } else if v == b && u != b {
                    assert(p.ids[u] == p.ids[a]);
                } else if u != b {
                    assert(p.ids[u] == p.ids[v]);
                }
            } else {
                let pu = p.ids[u];
                let pv = p.ids[v];
                if pu == pv {
                } else {
                    // one of them was relabelled: both lie in the components of the ends
                    if pu == x {
                        assert(p.ids[u] == p.ids[a]);
                    } else {
                        assert(p.ids[u] == p.ids[b]);
                    }
                    if pv == x {
                        assert(p.ids[v] == p.ids[a]);
                    } else {
                        assert(p.ids[v] == p.ids[b]);
                    }
                }
            }
        } else {
            assert(p.ids[u] == p.ids[v]);
        }
    }
}

/// The partition that the edges give is the finest that is closed under
/// them: nodes with the same final label have the same label in every
/// labelling that gives the two ends of each edge one label.
pub proof fn lemma_classes_refine(n: nat, edges: Seq<(NodeT, NodeT)>, labels: Seq<int>)
    requires
        edges_in_range(n, edges),
        labels.len() == n,
        closed_under(labels, edges),
    ensures
        finer_than(after(n, edges), labels),
        forall|u: int, v: int|
            0 <= u < n && 0 <= v < n && #[trigger] final_labels(after(n, edges))[u]
                == #[trigger] final_labels(after(n, edges))[v] ==> labels[u] == labels[v],
    decreases edges.len(),
{
    if edges.len() > 0 {
        let front = edges.drop_last();
        assert(closed_under(labels, front)) by {
            assert forall|i: int| 0 <= i < front.len() implies labels[(#[trigger] front[i]).0 as int]
                == labels[front[i].1 as int] by {
                assert(front[i] == edges[i]);
            }
        }
        lemma_classes_refine(n, front, labels);
        lemma_after_bounded(n, front);
        assert(edge_in_range(n, edges[edges.len() - 1]));
        lemma_absorb_finer(after(n, front), edges.last(), labels);
    }
    lemma_after_bounded(n, edges);
    let p = after(n, edges);
    assert forall|u: int, v: int|
        0 <= u < n && 0 <= v < n && #[trigger] final_labels(p)[u] == #[trigger] final_labels(p)[v]
        implies labels[u] == labels[v] by {
        lemma_same_final_label(p, u, v);
        if u != v {
            assert(p.ids[u] == p.ids[v]);
        }
    }
}

/// Whether node `u` is the first of its label: no node before it shares it.
pub open spec fn is_first(labels: Seq<int>, u: int) -> bool {
    forall|v: int| 0 <= v < u ==> #[trigger] labels[v] != labels[u]
}

/// How many of the nodes below `k` are the first of their label.
pub open spec fn firsts(labels: Seq<int>, k: int) -> nat
    decreases k,
{
    if k <= 0 {
        0
    } else {
        firsts(labels, k - 1) + if is_first(labels, k - 1) {
            1nat
        } else {
            0nat
        }
    }
}

/// Two labellings that hold the same nodes together have as many first
/// nodes: the number of labels in use is the same.
pub proof fn lemma_firsts_agree(one: Seq<int>, other: Seq<int>, k: int)
    requires
        one.len() == other.len(),
        0 <= k <= one.len(),
        forall|u: int, v: int|
            0 <= u < one.len() && 0 <= v < one.len() ==> (one[u] == one[v] <==> other[u]
                == other[v]),
    ensures
        firsts(one, k) == firsts(other, k),
    decreases k,
{
    if k > 0 {
        lemma_firsts_agree(one, other, k - 1);
        if is_first(one, k - 1) {
            assert forall|v: int| 0 <= v < k - 1 implies #[trigger] other[v] != other[k - 1] by {
                assert(one[v] != one[k - 1]);
            }
        }
        if is_first(other, k - 1) {
            assert forall|v: int| 0 <= v < k - 1 implies #[trigger] one[v] != one[k - 1] by {
                assert(other[v] != other[k - 1]);
            }
        }
    }
}

/// Counting the labels below `bound` that are in use, over a sequence
/// extended by one entry.
proof fn lemma_live_push(front: Seq<int>, x: int, bound: int)
    requires
        0 <= x < bound,
    ensures
        live_components(front.push(x), bound) == live_components(front, bound) + (if label_count(
            front,
            x,
        ) == 0 {
            1nat
        } else {
            0nat
        }),
    decreases bound,
{
    let whole = front.push(x);
    assert(whole.drop_last() =~= front);
    if bound - 1 > x {
        lemma_live_push(front, x, bound - 1);
    } else {
        lemma_live_same(front, whole, bound - 1, x);
    }
}

/// Labels below an entry that was added are in use as before.
proof fn lemma_live_same(front: Seq<int>, whole: Seq<int>, bound: int, x: int)
    requires
        whole == front.push(x),
        bound <= x,
    ensures
        live_components(whole, bound) == live_components(front, bound),
    decreases bound,
{
    assert(whole.drop_last() =~= front);
    if bound > 0 {
        lemma_live_same(front, whole, bound - 1, x);
    }
}

/// No label is in use in an empty sequence.
proof fn lemma_live_empty(bound: int)
    ensures
        live_components(Seq::<int>::empty(), bound) == 0,
    decreases bound,
{
    if bound > 0 {
        lemma_live_empty(bound - 1);
    }
}

/// The first nodes of their labels are as many as the labels in use.
pub proof fn lemma_firsts_are_labels(labels: Seq<int>, bound: int)
    requires
        forall|u: int| 0 <= u < labels.len() ==> 0 <= #[trigger] labels[u] && labels[u] < bound,
    ensures
        firsts(labels, labels.len() as int) == live_components(labels, bound),
    decreases labels.len(),
{
    if labels.len() == 0 {
        assert(labels =~= Seq::<int>::empty());
        lemma_live_empty(bound);
    } else {
        let front = labels.drop_last();
        let x = labels.last();
        let k = labels.len() as int;
        lemma_firsts_are_labels(front, bound);
        lemma_firsts_prefix(labels, front, k - 1);
        assert(labels =~= front.push(x));
        lemma_live_push(front, x, bound);
        lemma_count_witness(front, x);
        if label_count(front, x) == 0 {
            assert forall|v: int| 0 <= v < k - 1 implies #[trigger] labels[v] != labels[k - 1] by {
                assert(front[v] == labels[v]);
            }
        } else {
            let i = choose|i: int| 0 <= i < front.len() && front[i] == x;
            assert(labels[i] == labels[k - 1]);
        }
    }
}

/// The first nodes among the first `k` depend on the first `k` labels only.
proof fn lemma_firsts_prefix(labels: Seq<int>, front: Seq<int>, k: int)
    requires
        0 <= k <= front.len() <= labels.len(),
        forall|u: int| 0 <= u < front.len() ==> front[u] == labels[u],
    ensures
        firsts(labels, k) == firsts(front, k),
    decreases k,
{
    if k > 0 {
        lemma_firsts_prefix(labels, front, k - 1);
        if is_first(labels, k - 1) {
            assert forall|v: int| 0 <= v < k - 1 implies #[trigger] front[v] != front[k - 1] by {
                assert(labels[v] != labels[k - 1]);
            }
        }
        if is_first(front, k - 1) {
            assert forall|v: int| 0 <= v < k - 1 implies #[trigger] labels[v] != labels[k - 1] by {
                assert(front[v] != front[k - 1]);
            }
        }
    }
}

/// The final labels in use below `bound`: the opened components that hold a
/// node, and the fresh labels handed out below `bound`.
proof fn lemma_live_final(p: Partition, bound: int)
    requires
        labels_bounded(p),
        0 <= bound <= p.created + label_count(p.ids, absent()),
    ensures
        live_components(final_labels(p), bound) == (if bound <= p.created {
            live_components(p.ids, bound)
        } else {
            live_components(p.ids, p.created) + (bound - p.created) as nat
        }),
    decreases bound,
{
    if bound > 0 {
        lemma_live_final(p, bound - 1);
        let n = p.ids.len() as int;
        lemma_final_prefix(p, n, bound - 1);
        assert(final_labels(p).take(n) =~= final_labels(p));
        assert(p.ids.take(n) =~= p.ids);
    }
}

/// The number of components of a partition is the number of nodes that are
/// the first of their final label.
pub proof fn lemma_component_count_is_firsts(p: Partition)
    requires
        labels_bounded(p),
    ensures
        firsts(final_labels(p), p.ids.len() as int) == component_count(p),
{
    let bound = p.created + label_count(p.ids, absent());
    let labels = final_labels(p);
    assert forall|u: int| 0 <= u < labels.len() implies 0 <= #[trigger] labels[u] && labels[u] < bound by {
        if p.ids[u] == absent() {
            lemma_count_take_step(p.ids, u, absent());
            lemma_count_take_le(p.ids, u + 1, absent());
        }
    }
    lemma_firsts_are_labels(labels, bound);
    lemma_live_final(p, bound);
}

} // verus!

verus! {

/// Two labellings that hold the same nodes together give every node as many
/// companions.
pub proof fn lemma_same_partition_counts(one: Seq<int>, other: Seq<int>, k: int, x: int)
    requires
        one.len() == other.len(),
        0 <= k <= one.len(),
        0 <= x < one.len(),
        forall|u: int, v: int|
            0 <= u < one.len() && 0 <= v < one.len() ==> (one[u] == one[v] <==> other[u]
                == other[v]),
    ensures
        label_count(one.take(k), one[x]) == label_count(other.take(k), other[x]),
    decreases k,
{
    if k > 0 {
        lemma_same_partition_counts(one, other, k - 1, x);
        lemma_count_take_step(one, k - 1, one[x]);
        lemma_count_take_step(other, k - 1, other[x]);
    }
}

} // verus!
