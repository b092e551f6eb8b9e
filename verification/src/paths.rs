//! Paths: what it means that edges join two nodes, and that the components of
//! a partition are the sets of nodes that paths join.

use vstd::prelude::*;
use crate::classes::{lemma_edge_ends_share_label, lemma_same_final_label};
use crate::partition::{
    absent, absorb, after, edge_in_range, edges_in_range, final_labels, joins,
    lemma_after_bounded, Partition,
};
use crate::types::NodeT;

verus! {

/// Whether an edge joins `a` and `b`, either way round.
pub open spec fn linked(edges: Seq<(NodeT, NodeT)>, a: int, b: int) -> bool {
    exists|j: int|
        0 <= j < edges.len() && (((#[trigger] edges[j]).0 == a && edges[j].1 == b) || (edges[j].0
            == b && edges[j].1 == a))
}

/// Whether `path` is a path: a node, or nodes of which every one is joined
/// to the next by an edge.
pub open spec fn is_path(edges: Seq<(NodeT, NodeT)>, path: Seq<int>) -> bool {
    &&& path.len() >= 1
    &&& forall|i: int| 0 <= i < path.len() - 1 ==> linked(edges, #[trigger] path[i], path[i + 1])
}

/// Whether `path` is a path from `u` to `v`.
pub open spec fn leads(edges: Seq<(NodeT, NodeT)>, path: Seq<int>, u: int, v: int) -> bool {
    is_path(edges, path) && path[0] == u && path[path.len() - 1] == v
}

/// Whether a path joins `u` and `v`.
pub open spec fn connected(edges: Seq<(NodeT, NodeT)>, u: int, v: int) -> bool {
    exists|path: Seq<int>| #[trigger] leads(edges, path, u, v)
}

/// Every node is joined to itself.
pub proof fn lemma_connected_itself(edges: Seq<(NodeT, NodeT)>, u: int)
    ensures
        connected(edges, u, u),
{
    assert(leads(edges, seq![u], u, u));
}

/// The two ends of an edge are joined.
pub proof fn lemma_connected_by_edge(edges: Seq<(NodeT, NodeT)>, a: int, b: int)
    requires
        linked(edges, a, b),
    ensures
        connected(edges, a, b),
{
    let path = seq![a, b];
    assert(leads(edges, path, a, b));
}

/// A path the other way round is a path.
pub proof fn lemma_connected_back(edges: Seq<(NodeT, NodeT)>, u: int, v: int)
    requires
        connected(edges, u, v),
    ensures
        connected(edges, v, u),
{
    let path = choose|path: Seq<int>| #[trigger] leads(edges, path, u, v);
    let back = Seq::new(path.len(), |i: int| path[path.len() - 1 - i]);
    assert forall|i: int| 0 <= i < back.len() - 1 implies linked(
        edges,
        #[trigger] back[i],
        back[i + 1],
    ) by {
        let k = path.len() - 2 - i;
        assert(linked(edges, path[k], path[k + 1]));
        let j = choose|j: int|
            0 <= j < edges.len() && (((#[trigger] edges[j]).0 == path[k] && edges[j].1 == path[k
                + 1]) || (edges[j].0 == path[k + 1] && edges[j].1 == path[k]));
        assert((edges[j].0 == back[i] && edges[j].1 == back[i + 1]) || (edges[j].0 == back[i + 1]
            && edges[j].1 == back[i]));
    }
    assert(leads(edges, back, v, u));
}

/// Two paths that meet make one path.
pub proof fn lemma_connected_on(edges: Seq<(NodeT, NodeT)>, u: int, v: int, w: int)
    requires
        connected(edges, u, v),
        connected(edges, v, w),
    ensures
        connected(edges, u, w),
{
    let first = choose|path: Seq<int>| #[trigger] leads(edges, path, u, v);
    let second = choose|path: Seq<int>| #[trigger] leads(edges, path, v, w);
    let whole = first + second.subrange(1, second.len() as int);
    assert forall|i: int| 0 <= i < whole.len() - 1 implies linked(
        edges,
        #[trigger] whole[i],
        whole[i + 1],
    ) by {
        if i < first.len() - 1 {
            assert(linked(edges, first[i], first[i + 1]));
        } else {
            let k = i - (first.len() - 1);
            assert(linked(edges, second[k], second[k + 1]));
        }
    }
    assert(leads(edges, whole, u, w));
}

/// A path stays a path when edges are added.
pub proof fn lemma_connected_still(edges: Seq<(NodeT, NodeT)>, u: int, v: int)
    requires
        edges.len() > 0,
        connected(edges.drop_last(), u, v),
    ensures
        connected(edges, u, v),
{
    let front = edges.drop_last();
    let path = choose|path: Seq<int>| #[trigger] leads(front, path, u, v);
    assert forall|i: int| 0 <= i < path.len() - 1 implies linked(
        edges,
        #[trigger] path[i],
        path[i + 1],
    ) by {
        assert(linked(front, path[i], path[i + 1]));
        let j = choose|j: int|
            0 <= j < front.len() && (((#[trigger] front[j]).0 == path[i] && front[j].1 == path[i
                + 1]) || (front[j].0 == path[i + 1] && front[j].1 == path[i]));
        assert(edges[j] == front[j]);
    }
    assert(leads(edges, path, u, v));
}

/// Whether a partition holds `u` and `v` together: they are one node, or
/// lie in the same opened component.
pub open spec fn held(p: Partition, u: int, v: int) -> bool {
    u == v || (p.ids[u] != absent() && p.ids[u] == p.ids[v])
}

/// Nodes that the partition of some edges holds together are joined by a
/// path of those edges.
pub proof fn lemma_held_is_connected(n: nat, edges: Seq<(NodeT, NodeT)>, u: int, v: int)
    requires
        edges_in_range(n, edges),
        0 <= u < n,
        0 <= v < n,
        held(after(n, edges), u, v),
    ensures
        connected(edges, u, v),
    decreases edges.len(),
{
    if u == v {
        lemma_connected_itself(edges, u);
    } else if edges.len() == 0 {
    } else {
        let front = edges.drop_last();
        let edge = edges.last();
        let a = edge.0 as int;
        let b = edge.1 as int;
        let p = after(n, front);
        let q = after(n, edges);
        lemma_after_bounded(n, front);
        assert(edge_in_range(n, edges[edges.len() - 1]));
        assert(edges_in_range(n, front)) by {
            assert forall|i: int| 0 <= i < front.len() implies edge_in_range(
                n,
                #[trigger] front[i],
            ) by {
                assert(front[i] == edges[i]);
            }
        }
        if held(p, u, v) {
            lemma_held_is_connected(n, front, u, v);
            lemma_connected_still(edges, u, v);
        } else {
            // the last edge brought `u` and `v` together: each was held with
            // one of its ends
            assert(joins(p, edge));
            assert(linked(edges, a, b)) by {
                assert(edges[edges.len() - 1].0 == a && edges[edges.len() - 1].1 == b);
            }
            lemma_connected_by_edge(edges, a, b);
            lemma_connected_back(edges, a, b);
            let x = p.ids[a];
            let y = p.ids[b];
            let u_end = if held(p, u, a) {
                a
            } else {
                b
            };
            let v_end = if held(p, v, a) {
                a
            } else {
                b
            };
            assert(held(p, u, u_end));
            assert(held(p, v, v_end));
            lemma_held_is_connected(n, front, u, u_end);
            lemma_connected_still(edges, u, u_end);
            lemma_held_is_connected(n, front, v, v_end);
            lemma_connected_still(edges, v, v_end);
            lemma_connected_back(edges, v, v_end);
            if u_end == v_end {
                lemma_connected_on(edges, u, u_end, v);
            } else {
                lemma_connected_on(edges, u, u_end, v_end);
                lemma_connected_on(edges, u, v_end, v);
            }
        }
    }
}

/// Nodes that a path joins have the same final label.
pub proof fn lemma_path_keeps_label(n: nat, edges: Seq<(NodeT, NodeT)>, path: Seq<int>)
    requires
        edges_in_range(n, edges),
        is_path(edges, path),
    ensures
        path.len() == 1 || final_labels(after(n, edges))[path[0]] == final_labels(
            after(n, edges),
        )[path[path.len() - 1]],
    decreases path.len(),
{
    if path.len() > 1 {
        let front = path.drop_last();
        assert(is_path(edges, front)) by {
            assert forall|i: int| 0 <= i < front.len() - 1 implies linked(
                edges,
                #[trigger] front[i],
                front[i + 1],
            ) by {
                assert(linked(edges, path[i], path[i + 1]));
            }
        }
        lemma_path_keeps_label(n, edges, front);
        let k = path.len() - 2;
        assert(linked(edges, path[k], path[k + 1]));
        let j = choose|j: int|
            0 <= j < edges.len() && (((#[trigger] edges[j]).0 == path[k] && edges[j].1 == path[k
                + 1]) || (edges[j].0 == path[k + 1] && edges[j].1 == path[k]));
        lemma_edge_ends_share_label(n, edges, j);
    }
}

/// The components of the partition that edges give are the sets of nodes
/// that paths of those edges join: two nodes have the same final label
/// exactly when a path joins them.
pub proof fn law_components_are_path_classes(n: nat, edges: Seq<(NodeT, NodeT)>, u: int, v: int)
    requires
        edges_in_range(n, edges),
        0 <= u < n,
        0 <= v < n,
    ensures
        final_labels(after(n, edges))[u] == final_labels(after(n, edges))[v] <==> connected(
            edges,
            u,
            v,
        ),
{
    lemma_after_bounded(n, edges);
    lemma_same_final_label(after(n, edges), u, v);
    if held(after(n, edges), u, v) {
        lemma_held_is_connected(n, edges, u, v);
    }
    if connected(edges, u, v) {
        let path = choose|path: Seq<int>| #[trigger] leads(edges, path, u, v);
        lemma_path_keeps_label(n, edges, path);
    }
}

} // verus!
