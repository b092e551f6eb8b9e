//! The mathematical model behind the spanning-forest routines: a partition of
//! the nodes into numbered components, grown one edge at a time.

use vstd::prelude::*;
use crate::types::NodeT;

verus! {

/// Label of a node that no component holds yet.
pub open spec fn absent() -> int {
    -1
}

/// A partition of the nodes `0..ids.len()` while edges are being absorbed.
/// `ids[u]` is the component of node `u`, or `absent()`; `created` counts the
/// components opened so far, which are numbered in the order they were opened.
pub struct Partition {
    pub ids: Seq<int>,
    pub created: int,
}

/// How many entries of `labels` equal `c`.
pub open spec fn label_count(labels: Seq<int>, c: int) -> nat
    decreases labels.len(),
{
    if labels.len() == 0 {
        0
    } else {
        label_count(labels.drop_last(), c) + if labels.last() == c {
            1nat
        } else {
            0nat
        }
    }
}

/// `labels` with every entry equal to `from` replaced by `to`.
pub open spec fn relabel(labels: Seq<int>, from: int, to: int) -> Seq<int> {
    Seq::new(
        labels.len(),
        |i: int|
            if labels[i] == from {
                to
            } else {
                labels[i]
            },
    )
}

/// The partition before any edge: every node absent, no component opened.
pub open spec fn initial(n: nat) -> Partition {
    Partition { ids: Seq::new(n, |i: int| absent()), created: 0 }
}

/// Whether both ends of `edge` are nodes of the partition.
pub open spec fn edge_in_range(n: nat, edge: (NodeT, NodeT)) -> bool {
    edge.0 < n && edge.1 < n
}

/// Whether every edge of `edges` has both ends below `n`.
pub open spec fn edges_in_range(n: nat, edges: Seq<(NodeT, NodeT)>) -> bool {
    forall|i: int| 0 <= i < edges.len() ==> edge_in_range(n, #[trigger] edges[i])
}

/// Whether `edge` links two nodes that `p` does not yet hold together: it is
/// no self-loop, and an end is absent or the ends lie in different components.
pub open spec fn joins(p: Partition, edge: (NodeT, NodeT)) -> bool {
    let a = edge.0 as int;
    let b = edge.1 as int;
    a != b && (p.ids[a] == absent() || p.ids[b] == absent() || p.ids[a] != p.ids[b])
}

/// The partition after `edge` has been absorbed. Two absent ends open a new
/// component; one absent end enters the other's component; two components
/// merge into the one with the smaller number.
pub open spec fn absorb(p: Partition, edge: (NodeT, NodeT)) -> Partition {
    let a = edge.0 as int;
    let b = edge.1 as int;
    let x = p.ids[a];
    let y = p.ids[b];
    if !joins(p, edge) {
        p
    } else if x == absent() && y == absent() {
        Partition { ids: p.ids.update(a, p.created).update(b, p.created), created: p.created + 1 }
    } else if x == absent() {
        Partition { ids: p.ids.update(a, y), created: p.created }
    } else if y == absent() {
        Partition { ids: p.ids.update(b, x), created: p.created }
    } else if x < y {
        Partition { ids: relabel(p.ids, y, x), created: p.created }
    } else {
        Partition { ids: relabel(p.ids, x, y), created: p.created }
    }
}

/// The partition of `n` nodes after all of `edges`, taken in order.
pub open spec fn after(n: nat, edges: Seq<(NodeT, NodeT)>) -> Partition
    decreases edges.len(),
{
    if edges.len() == 0 {
        initial(n)
    } else {
        absorb(after(n, edges.drop_last()), edges.last())
    }
}

/// The spanning forest of `edges`: those edges, in order, that joined two
/// nodes not yet held together when their turn came.
pub open spec fn forest(n: nat, edges: Seq<(NodeT, NodeT)>) -> Seq<(NodeT, NodeT)>
    decreases edges.len(),
{
    if edges.len() == 0 {
        Seq::empty()
    } else if joins(after(n, edges.drop_last()), edges.last()) {
        forest(n, edges.drop_last()).push(edges.last())
    } else {
        forest(n, edges.drop_last())
    }
}

/// The final component of every node: nodes of a component keep its number,
/// and each node that no edge reached gets a fresh number of its own, handed
/// out in node order after the last opened component.
pub open spec fn final_labels(p: Partition) -> Seq<int> {
    Seq::new(
        p.ids.len(),
        |u: int|
            if p.ids[u] != absent() {
                p.ids[u]
            } else {
                p.created + label_count(p.ids.take(u), absent())
            },
    )
}

/// Well-formedness of a partition: every label is absent or an opened
/// component.
pub open spec fn labels_bounded(p: Partition) -> bool {
    &&& 0 <= p.created
    &&& forall|u: int| 0 <= u < p.ids.len() ==> absent() <= #[trigger] p.ids[u] < p.created
}

/// How many nodes share the final component of node `u`.
pub open spec fn component_size(p: Partition, u: int) -> nat {
    label_count(final_labels(p), final_labels(p)[u])
}

pub proof fn lemma_count_bound(labels: Seq<int>, c: int)
    ensures
        label_count(labels, c) <= labels.len(),
    decreases labels.len(),
{
    if labels.len() > 0 {
        lemma_count_bound(labels.drop_last(), c);
    }
}

/// A positive count has a witness, and a witness makes the count positive.
pub proof fn lemma_count_witness(labels: Seq<int>, c: int)
    ensures
        label_count(labels, c) > 0 <==> exists|i: int| 0 <= i < labels.len() && labels[i] == c,
    decreases labels.len(),
{
    if labels.len() > 0 {
        let front = labels.drop_last();
        lemma_count_witness(front, c);
        if label_count(labels, c) > 0 {
            if labels.last() == c {
                assert(labels[labels.len() - 1] == c);
            } else {
                let i = choose|i: int| 0 <= i < front.len() && front[i] == c;
                assert(labels[i] == c);
            }
        }
        if exists|i: int| 0 <= i < labels.len() && labels[i] == c {
            let i = choose|i: int| 0 <= i < labels.len() && labels[i] == c;
            if i < labels.len() - 1 {
                assert(front[i] == c);
            }
        }
    }
}

/// Writing `v` over entry `i` moves one unit of count from the old label to `v`.
pub proof fn lemma_count_update(labels: Seq<int>, i: int, v: int, c: int)
    requires
        0 <= i < labels.len(),
    ensures
        label_count(labels.update(i, v), c) + (if labels[i] == c {
            1nat
        } else {
            0nat
        }) == label_count(labels, c) + (if v == c {
            1nat
        } else {
            0nat
        }),
    decreases labels.len(),
{
    let updated = labels.update(i, v);
    if i == labels.len() - 1 {
        assert(updated.drop_last() =~= labels.drop_last());
    } else {
        assert(updated.drop_last() =~= labels.drop_last().update(i, v));
        lemma_count_update(labels.drop_last(), i, v, c);
    }
}

/// Relabelling `from` as `to` empties `from`, adds its count to `to` and
/// leaves every other count alone.
pub proof fn lemma_count_relabel(labels: Seq<int>, from: int, to: int, c: int)
    requires
        from != to,
    ensures
        label_count(relabel(labels, from, to), c) == (if c == from {
            0
        } else if c == to {
            label_count(labels, to) + label_count(labels, from)
        } else {
            label_count(labels, c)
        }),
    decreases labels.len(),
{
    if labels.len() > 0 {
        assert(relabel(labels, from, to).drop_last() =~= relabel(labels.drop_last(), from, to));
        lemma_count_relabel(labels.drop_last(), from, to, c);
    }
}

/// Counting over a prefix extended by one entry.
pub proof fn lemma_count_take_step(labels: Seq<int>, k: int, c: int)
    requires
        0 <= k < labels.len(),
    ensures
        label_count(labels.take(k + 1), c) == label_count(labels.take(k), c) + (if labels[k] == c {
            1nat
        } else {
            0nat
        }),
{
    assert(labels.take(k + 1).drop_last() =~= labels.take(k));
}

} // verus!

verus! {

/// Absorbing the first `k + 1` edges is absorbing the first `k`, then edge `k`.
pub proof fn lemma_after_step(n: nat, edges: Seq<(NodeT, NodeT)>, k: int)
    requires
        0 <= k < edges.len(),
    ensures
        after(n, edges.take(k + 1)) == absorb(after(n, edges.take(k)), edges[k]),
        forest(n, edges.take(k + 1)) == (if joins(after(n, edges.take(k)), edges[k]) {
            forest(n, edges.take(k)).push(edges[k])
        } else {
            forest(n, edges.take(k))
        }),
{
    assert(edges.take(k + 1).drop_last() =~= edges.take(k));
}

/// A prefix holds no more entries of a label than the whole sequence.
pub proof fn lemma_count_take_le(labels: Seq<int>, k: int, c: int)
    requires
        0 <= k <= labels.len(),
    ensures
        label_count(labels.take(k), c) <= label_count(labels, c),
    decreases labels.len(),
{
    if k == labels.len() {
        assert(labels.take(k) =~= labels);
    } else {
        assert(labels.take(k) =~= labels.drop_last().take(k));
        lemma_count_take_le(labels.drop_last(), k, c);
    }
}

/// How the final labels count over a prefix of the nodes: an opened component
/// counts its own nodes, and each fresh number handed out so far counts once.
pub proof fn lemma_final_prefix(p: Partition, k: int, c: int)
    requires
        labels_bounded(p),
        0 <= k <= p.ids.len(),
    ensures
        label_count(final_labels(p).take(k), c) == (if 0 <= c < p.created {
            label_count(p.ids.take(k), c)
        } else if p.created <= c < p.created + label_count(p.ids.take(k), absent()) {
            1
        } else {
            0
        }),
    decreases k,
{
    if k > 0 {
        lemma_final_prefix(p, k - 1, c);
        lemma_count_take_step(final_labels(p), k - 1, c);
        lemma_count_take_step(p.ids, k - 1, c);
        lemma_count_take_step(p.ids, k - 1, absent());
    }
}

/// The size of a node's final component: the node count of its opened
/// component, or one for a node that no edge reached.
pub proof fn lemma_component_size(p: Partition, u: int)
    requires
        labels_bounded(p),
        0 <= u < p.ids.len(),
    ensures
        component_size(p, u) == (if p.ids[u] != absent() {
            label_count(p.ids, p.ids[u])
        } else {
            1
        }),
        component_size(p, u) >= 1,
{
    let labels = final_labels(p);
    let n = p.ids.len() as int;
    lemma_final_prefix(p, n, labels[u]);
    assert(labels.take(n) =~= labels);
    assert(p.ids.take(n) =~= p.ids);
    if p.ids[u] == absent() {
        lemma_count_take_le(p.ids, u, absent());
        lemma_count_take_step(p.ids, u, absent());
        lemma_count_take_le(p.ids, u + 1, absent());
    } else {
        lemma_count_witness(p.ids, p.ids[u]);
    }
}

/// Every partition reached by absorbing edges keeps its labels bounded.
pub proof fn lemma_after_bounded(n: nat, edges: Seq<(NodeT, NodeT)>)
    requires
        edges_in_range(n, edges),
    ensures
        labels_bounded(after(n, edges)),
        after(n, edges).ids.len() == n,
    decreases edges.len(),
{
    if edges.len() > 0 {
        lemma_after_bounded(n, edges.drop_last());
        assert(edge_in_range(n, edges[edges.len() - 1]));
    }
}

} // verus!

verus! {

/// How many of the components numbered below `k` hold at least one node.
pub open spec fn live_components(ids: Seq<int>, k: int) -> nat
    decreases k,
{
    if k <= 0 {
        0
    } else {
        live_components(ids, k - 1) + if label_count(ids, k - 1) > 0 {
            1nat
        } else {
            0nat
        }
    }
}

/// The number of components of a partition: the opened components that hold
/// a node, and one for each node that no edge reached.
pub open spec fn component_count(p: Partition) -> nat {
    live_components(p.ids, p.created) + label_count(p.ids, absent())
}

/// Two labellings with the same occupied components below `k`, but for one
/// component `gone` that only the first occupies, differ by one.
proof fn lemma_live_shift(first: Seq<int>, second: Seq<int>, k: int, gone: int)
    requires
        forall|c: int|
            0 <= c < k && c != gone ==> (label_count(first, c) > 0 <==> label_count(second, c) > 0),
        0 <= gone < k ==> label_count(first, gone) > 0 && label_count(second, gone) == 0,
    ensures
        live_components(first, k) == live_components(second, k) + (if 0 <= gone < k {
            1nat
        } else {
            0nat
        }),
    decreases k,
{
    if k > 0 {
        lemma_live_shift(first, second, k - 1, gone);
    }
}

/// Absorbing an edge that joins lowers the number of components by one, and
/// absorbing any other edge leaves it as it was.
pub proof fn lemma_absorb_count(p: Partition, edge: (NodeT, NodeT))
    requires
        labels_bounded(p),
        edge_in_range(p.ids.len(), edge),
    ensures
        component_count(absorb(p, edge)) + (if joins(p, edge) {
            1nat
        } else {
            0nat
        }) == component_count(p),
{
    let q = absorb(p, edge);
    let a = edge.0 as int;
    let b = edge.1 as int;
    let x = p.ids[a];
    let y = p.ids[b];
    if !joins(p, edge) {
    } else if x == absent() && y == absent() {
        let mid = p.ids.update(a, p.created);
        lemma_count_update(p.ids, a, p.created, absent());
        lemma_count_update(mid, b, p.created, absent());
        lemma_count_update(p.ids, a, p.created, p.created);
        lemma_count_update(mid, b, p.created, p.created);
        assert forall|c: int| 0 <= c < p.created implies (label_count(q.ids, c) > 0 <==> label_count(
            p.ids,
            c,
        ) > 0) by {
            lemma_count_update(p.ids, a, p.created, c);
            lemma_count_update(mid, b, p.created, c);
        }
        lemma_live_shift(q.ids, p.ids, p.created, -1);
    } else if x == absent() || y == absent() {
        let node = if x == absent() {
            a
        } else {
            b
        };
        let id = if x == absent() {
            y
        } else {
            x
        };
        lemma_count_update(p.ids, node, id, absent());
        lemma_count_witness(p.ids, id);
        assert forall|c: int| 0 <= c < p.created implies (label_count(q.ids, c) > 0 <==> label_count(
            p.ids,
            c,
        ) > 0) by {
            lemma_count_update(p.ids, node, id, c);
        }
        lemma_live_shift(q.ids, p.ids, p.created, -1);
    } else {
        let low = if x < y {
            x
        } else {
            y
        };
        let high = if x < y {
            y
        } else {
            x
        };
        assert(q.ids == relabel(p.ids, high, low));
        lemma_count_relabel(p.ids, high, low, absent());
        lemma_count_witness(p.ids, high);
        lemma_count_witness(p.ids, low);
        assert forall|c: int| 0 <= c < p.created && c != high implies (label_count(p.ids, c) > 0
            <==> label_count(q.ids, c) > 0) by {
            lemma_count_relabel(p.ids, high, low, c);
        }
        lemma_count_relabel(p.ids, high, low, high);
        lemma_live_shift(p.ids, q.ids, p.created, high);
    }
}

/// The forest and the components account for every node: the number of
/// forest edges and the number of components add up to the number of nodes.
pub proof fn lemma_forest_bound(n: nat, edges: Seq<(NodeT, NodeT)>)
    requires
        edges_in_range(n, edges),
    ensures
        forest(n, edges).len() + component_count(after(n, edges)) == n,
    decreases edges.len(),
{
    if edges.len() == 0 {
        let ids = initial(n).ids;
        lemma_count_all_absent(n);
    } else {
        let front = edges.drop_last();
        lemma_forest_bound(n, front);
        lemma_after_bounded(n, front);
        assert(edge_in_range(n, edges[edges.len() - 1]));
        lemma_absorb_count(after(n, front), edges.last());
    }
}

/// Before any edge every node is absent.
proof fn lemma_count_all_absent(n: nat)
    ensures
        label_count(initial(n).ids, absent()) == n,
    decreases n,
{
    if n > 0 {
        assert(initial(n).ids.drop_last() =~= initial((n - 1) as nat).ids);
        lemma_count_all_absent((n - 1) as nat);
    }
}

} // verus!

verus! {

/// Every edge of the forest is one of the edges it was built from.
pub proof fn lemma_forest_edges_are_given(n: nat, edges: Seq<(NodeT, NodeT)>, i: int)
    requires
        0 <= i < forest(n, edges).len(),
    ensures
        edges.contains(forest(n, edges)[i]),
    decreases edges.len(),
{
    if edges.len() > 0 {
        let front = edges.drop_last();
        if i < forest(n, front).len() {
            lemma_forest_edges_are_given(n, front, i);
            let j = choose|j: int| 0 <= j < front.len() && front[j] == forest(n, front)[i];
            assert(edges[j] == forest(n, edges)[i]);
        } else {
            assert(edges[edges.len() - 1] == forest(n, edges)[i]);
        }
    }
}

/// Whether no edge is in the list twice, in either direction.
pub open spec fn no_edge_twice(edges: Seq<(NodeT, NodeT)>) -> bool {
    forall|i: int, j: int|
        0 <= i < j < edges.len() ==> #[trigger] edges[i] != #[trigger] edges[j] && edges[i] != (
            edges[j].1,
            edges[j].0,
        )
}

/// No edge is in the forest twice, in either direction: the forest is a set
/// of edges, held in the order in which they were taken.
pub proof fn lemma_forest_has_no_repeat(n: nat, edges: Seq<(NodeT, NodeT)>)
    requires
        edges_in_range(n, edges),
    ensures
        no_edge_twice(forest(n, edges)),
    decreases edges.len(),
{
    if edges.len() > 0 {
        let front = edges.drop_last();
        assert(edges_in_range(n, front)) by {
            assert forall|k: int| 0 <= k < front.len() implies edge_in_range(n, #[trigger] front[k]) by {
                assert(front[k] == edges[k]);
            }
        }
        lemma_forest_has_no_repeat(n, front);
        let all = forest(n, edges);
        let before = forest(n, front);
        assert forall|i: int, j: int| 0 <= i < j < all.len() implies #[trigger] all[i]
            != #[trigger] all[j] && all[i] != (all[j].1, all[j].0) by {
            if j < before.len() {
                assert(all[i] == before[i] && all[j] == before[j]);
            } else {
                assert(all[j] == edges.last());
                assert(all[i] == before[i]);
                lemma_forest_edges_are_given(n, front, i);
                let k = choose|k: int| 0 <= k < front.len() && front[k] == before[i];
                lemma_no_edge_joins_at_end(n, front, k);
                assert(joins(after(n, front), edges.last()));
            }
        }
    }
}

/// The forest alone holds the nodes together exactly as all the edges do:
/// absorbing only the forest's edges gives the same partition, and every one
/// of them joins when its turn comes, so the forest has no cycle.
pub proof fn lemma_forest_spans(n: nat, edges: Seq<(NodeT, NodeT)>)
    ensures
        after(n, forest(n, edges)) == after(n, edges),
        forest(n, forest(n, edges)) == forest(n, edges),
    decreases edges.len(),
{
    if edges.len() > 0 {
        let front = edges.drop_last();
        lemma_forest_spans(n, front);
        if joins(after(n, front), edges.last()) {
            let grown = forest(n, front).push(edges.last());
            assert(grown.drop_last() =~= forest(n, front));
            assert(grown.last() == edges.last());
        }
    } else {
        assert(forest(n, edges) =~= edges);
    }
}

/// Two nodes that a partition holds together stay together when another edge
/// is absorbed.
pub proof fn lemma_absorb_keeps_together(p: Partition, edge: (NodeT, NodeT), other: (NodeT, NodeT))
    requires
        labels_bounded(p),
        edge_in_range(p.ids.len(), edge),
        edge_in_range(p.ids.len(), other),
        !joins(p, other),
    ensures
        !joins(absorb(p, edge), other),
{
}

/// Once an edge has been absorbed its two ends are held together.
pub proof fn lemma_absorbed_edge_is_held(p: Partition, edge: (NodeT, NodeT))
    requires
        labels_bounded(p),
        edge_in_range(p.ids.len(), edge),
    ensures
        !joins(absorb(p, edge), edge),
{
}

/// No edge that was given can join two components of the final partition:
/// added to the forest, each edge outside it would close a cycle.
pub proof fn lemma_no_edge_joins_at_end(n: nat, edges: Seq<(NodeT, NodeT)>, i: int)
    requires
        edges_in_range(n, edges),
        0 <= i < edges.len(),
    ensures
        !joins(after(n, edges), edges[i]),
        !joins(after(n, forest(n, edges)), edges[i]),
    decreases edges.len(),
{
    let front = edges.drop_last();
    lemma_after_bounded(n, front);
    assert(edge_in_range(n, edges[edges.len() - 1]));
    assert(edge_in_range(n, edges[i]));
    if i == edges.len() - 1 {
        lemma_absorbed_edge_is_held(after(n, front), edges.last());
    } else {
        lemma_no_edge_joins_at_end(n, front, i);
        lemma_absorb_keeps_together(after(n, front), edges.last(), edges[i]);
    }
    lemma_forest_spans(n, edges);
}

} // verus!

verus! {

/// A label that fills as many entries as there are fills them all.
pub proof fn lemma_count_full(labels: Seq<int>, c: int)
    requires
        label_count(labels, c) == labels.len(),
    ensures
        forall|i: int| 0 <= i < labels.len() ==> labels[i] == c,
    decreases labels.len(),
{
    if labels.len() > 0 {
        lemma_count_bound(labels.drop_last(), c);
        lemma_count_full(labels.drop_last(), c);
        assert forall|i: int| 0 <= i < labels.len() implies labels[i] == c by {
            if i < labels.len() - 1 {
                assert(labels.drop_last()[i] == c);
            }
        }
    }
}

} // verus!
