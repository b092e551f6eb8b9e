//! Spanning forests and connected components.

use vstd::prelude::*;
use itertools::Itertools;
use itertools::MinMaxResult;
use std::collections::HashSet;
use crate::components::{component_labels, roots_below, tree_edges, Search};
use crate::errors::GraphError;
use crate::graph::Graph;
use crate::random::{mix_seed, mix_seed_spec, xorshift, xorshift_spec};
use crate::types::{EdgeT, EdgeTypeT, NodeT, NOT_PRESENT};
use crate::partition::{
    absent, absorb, after, component_size, edges_in_range, final_labels, forest, initial, joins,
    label_count, labels_bounded, lemma_after_step, lemma_component_size, lemma_count_bound,
    lemma_count_relabel, lemma_count_take_le, lemma_count_take_step, lemma_count_update,
    lemma_count_witness, lemma_forest_bound, relabel, Partition,
};

verus! {

/// What the working arrays of the forest builder say of a partition `p`.
/// `components` holds for each node a component number that may be stale,
/// `remapping` sends every number to the component it has merged into, and
/// `sizes` holds the node count of each component that is still its own.
pub open spec fn refines(
    components: Seq<u32>,
    remapping: Seq<u32>,
    sizes: Seq<u32>,
    p: Partition,
) -> bool {
    &&& components.len() == p.ids.len()
    &&& remapping.len() == p.created
    &&& sizes.len() == p.created
    &&& forall|u: int|
        0 <= u < components.len() ==> (#[trigger] components[u] == NOT_PRESENT <==> p.ids[u]
            == absent())
    &&& forall|u: int|
        0 <= u < components.len() && #[trigger] components[u] != NOT_PRESENT ==> components[u]
            < remapping.len() && remapping[components[u] as int] == p.ids[u]
    &&& forall|c: int|
        0 <= c < remapping.len() ==> (#[trigger] remapping[c]) < remapping.len()
            && remapping[remapping[c] as int] == remapping[c]
    &&& forall|c: int|
        0 <= c < sizes.len() ==> #[trigger] sizes[c] == (if remapping[c] == c {
            label_count(p.ids, c)
        } else {
            0
        })
}

/// Room left for new components: each one opened takes two absent nodes.
pub open spec fn has_room(p: Partition, n: nat) -> bool {
    &&& p.ids.len() == n
    &&& n <= u32::MAX
    &&& 2 * p.created + label_count(p.ids, absent()) <= n
}

/// `Itertools::minmax`: nothing for an empty vector, else the smallest and
/// the largest of its values, which are one value where there is but one.
#[verifier::external_body]
fn smallest_and_largest(values: &Vec<u32>) -> (r: Option<(u32, u32)>)
    ensures
        r is None <==> values@.len() == 0,
        r matches Some((lo, hi)) ==> values@.contains(lo) && values@.contains(hi) && forall|i: int|
            0 <= i < values@.len() ==> lo <= #[trigger] values@[i] <= hi,
{
    match values.iter().cloned().minmax() {
        MinMaxResult::NoElements => None,
        MinMaxResult::OneElement(only) => Some((only, only)),
        MinMaxResult::MinMax(lo, hi) => Some((lo, hi)),
    }
}

/// A vector of `len` copies of `value`.
fn filled(value: u32, len: usize) -> (v: Vec<u32>)
    ensures
        v@.len() == len,
        forall|i: int| 0 <= i < len ==> v@[i] == value,
{
    let mut v: Vec<u32> = Vec::new();
    let mut i: usize = 0;
    while i < len
        invariant
            i <= len,
            v@.len() == i,
            forall|j: int| 0 <= j < i ==> v@[j] == value,
        decreases len - i,
    {
        v.push(value);
        i += 1;
    }
    v
}

/// Sends every component number that pointed at `from` to `to`, and clears
/// the size of each number so moved.
fn redirect(remapping: &mut Vec<u32>, sizes: &mut Vec<u32>, from: u32, to: u32)
    requires
        old(remapping)@.len() == old(sizes)@.len(),
    ensures
        final(remapping)@.len() == old(remapping)@.len(),
        final(sizes)@.len() == old(sizes)@.len(),
        forall|c: int|
            0 <= c < old(remapping)@.len() ==> #[trigger] final(remapping)@[c] == (if old(
                remapping,
            )@[c] == from {
                to
            } else {
                old(remapping)@[c]
            }),
        forall|c: int|
            0 <= c < old(sizes)@.len() ==> #[trigger] final(sizes)@[c] == (if old(remapping)@[c]
                == from {
                0
            } else {
                old(sizes)@[c]
            }),
{
    let mut c: usize = 0;
    while c < remapping.len()
        invariant
            c <= remapping@.len(),
            remapping@.len() == old(remapping)@.len(),
            sizes@.len() == old(sizes)@.len(),
            remapping@.len() == sizes@.len(),
            forall|k: int|
                0 <= k < c ==> #[trigger] remapping@[k] == (if old(remapping)@[k] == from {
                    to
                } else {
                    old(remapping)@[k]
                }),
            forall|k: int|
                0 <= k < c ==> #[trigger] sizes@[k] == (if old(remapping)@[k] == from {
                    0
                } else {
                    old(sizes)@[k]
                }),
            forall|k: int| c <= k < remapping@.len() ==> remapping@[k] == old(remapping)@[k],
            forall|k: int| c <= k < sizes@.len() ==> sizes@[k] == old(sizes)@[k],
        decreases remapping@.len() - c,
    {
        if remapping[c] == from {
            remapping.set(c, to);
            sizes.set(c, 0);
        }
        c += 1;
    }
}

/// Opens a new component for the two absent nodes `src` and `dst`.
fn open_component(
    components: &mut Vec<u32>,
    remapping: &mut Vec<u32>,
    sizes: &mut Vec<u32>,
    src: NodeT,
    dst: NodeT,
    Ghost(p): Ghost<Partition>,
)
    requires
        refines(old(components)@, old(remapping)@, old(sizes)@, p),
        labels_bounded(p),
        has_room(p, p.ids.len()),
        src < p.ids.len(),
        dst < p.ids.len(),
        src != dst,
        p.ids[src as int] == absent(),
        p.ids[dst as int] == absent(),
    ensures
        refines(final(components)@, final(remapping)@, final(sizes)@, absorb(p, (src, dst))),
        labels_bounded(absorb(p, (src, dst))),
        has_room(absorb(p, (src, dst)), p.ids.len()),
{
    let ghost q = absorb(p, (src, dst));
    let ghost mid = p.ids.update(src as int, p.created);
    proof {
        lemma_count_update(p.ids, src as int, p.created, absent());
        lemma_count_update(mid, dst as int, p.created, absent());
        lemma_count_bound(q.ids, absent());
    }
    let id: u32 = remapping.len() as u32;
    components.set(src as usize, id);
    components.set(dst as usize, id);
    remapping.push(id);
    sizes.push(2);
    proof {
        assert forall|c: int| 0 <= c < sizes@.len() implies #[trigger] sizes@[c] == (if remapping@[c]
            == c {
            label_count(q.ids, c)
        } else {
            0
        }) by {
            lemma_count_update(p.ids, src as int, p.created, c);
            lemma_count_update(mid, dst as int, p.created, c);
            if c == p.created {
                lemma_count_witness(p.ids, c);
            }
        }
    }
}

/// Puts the absent node `node` into the component that `raw` stands for.
fn enter_component(
    components: &mut Vec<u32>,
    remapping: &Vec<u32>,
    sizes: &mut Vec<u32>,
    node: NodeT,
    raw: u32,
    Ghost(p): Ghost<Partition>,
)
    requires
        refines(old(components)@, remapping@, old(sizes)@, p),
        labels_bounded(p),
        has_room(p, p.ids.len()),
        node < p.ids.len(),
        p.ids[node as int] == absent(),
        raw < remapping@.len(),
    ensures
        refines(
            final(components)@,
            remapping@,
            final(sizes)@,
            Partition { ids: p.ids.update(node as int, remapping@[raw as int] as int), created: p.created },
        ),
        labels_bounded(
            Partition { ids: p.ids.update(node as int, remapping@[raw as int] as int), created: p.created },
        ),
        has_room(
            Partition { ids: p.ids.update(node as int, remapping@[raw as int] as int), created: p.created },
            p.ids.len(),
        ),
{
    let id: u32 = remapping[raw as usize];
    let ghost q = Partition { ids: p.ids.update(node as int, id as int), created: p.created };
    proof {
        lemma_count_update(p.ids, node as int, id as int, absent());
        lemma_count_update(p.ids, node as int, id as int, id as int);
        lemma_count_bound(q.ids, id as int);
    }
    sizes.set(id as usize, sizes[id as usize] + 1);
    components.set(node as usize, id);
    proof {
        assert forall|c: int| 0 <= c < sizes@.len() implies #[trigger] sizes@[c] == (if remapping@[c]
            == c {
            label_count(q.ids, c)
        } else {
            0
        }) by {
            lemma_count_update(p.ids, node as int, id as int, c);
        }
    }
}

/// Merges the components of `src` and `dst`, both present, where they differ.
/// Returns whether they did.
fn merge_components(
    components: &mut Vec<u32>,
    remapping: &mut Vec<u32>,
    sizes: &mut Vec<u32>,
    src: NodeT,
    dst: NodeT,
    Ghost(p): Ghost<Partition>,
) -> (merged: bool)
    requires
        refines(old(components)@, old(remapping)@, old(sizes)@, p),
        labels_bounded(p),
        has_room(p, p.ids.len()),
        src < p.ids.len(),
        dst < p.ids.len(),
        src != dst,
        p.ids[src as int] != absent(),
        p.ids[dst as int] != absent(),
    ensures
        merged == joins(p, (src, dst)),
        refines(final(components)@, final(remapping)@, final(sizes)@, absorb(p, (src, dst))),
        labels_bounded(absorb(p, (src, dst))),
        has_room(absorb(p, (src, dst)), p.ids.len()),
{
    let raw_src: u32 = components[src as usize];
    let raw_dst: u32 = components[dst as usize];
    if raw_src == raw_dst {
        return false;
    }
    let of_src: u32 = remapping[raw_src as usize];
    let of_dst: u32 = remapping[raw_dst as usize];
    components.set(src as usize, of_src);
    components.set(dst as usize, of_dst);
    if of_src == of_dst {
        return false;
    }
    let (low, high) = if of_src < of_dst {
        (of_src, of_dst)
    } else {
        (of_dst, of_src)
    };
    let ghost q = absorb(p, (src, dst));
    proof {
        assert(q.ids == relabel(p.ids, high as int, low as int));
        lemma_count_relabel(p.ids, high as int, low as int, low as int);
        lemma_count_relabel(p.ids, high as int, low as int, absent());
        lemma_count_bound(q.ids, low as int);
    }
    sizes.set(low as usize, sizes[low as usize] + sizes[high as usize]);
    redirect(remapping, sizes, high, low);
    proof {
        assert forall|c: int| 0 <= c < sizes@.len() implies #[trigger] sizes@[c] == (if remapping@[c]
            == c {
            label_count(q.ids, c)
        } else {
            0
        }) by {
            lemma_count_relabel(p.ids, high as int, low as int, c);
        }
    }
    true
}

/// Absorbs one edge into the working arrays. Returns whether the edge joined
/// two nodes that were not yet held together.
fn absorb_edge(
    components: &mut Vec<u32>,
    remapping: &mut Vec<u32>,
    sizes: &mut Vec<u32>,
    src: NodeT,
    dst: NodeT,
    Ghost(p): Ghost<Partition>,
) -> (joined: bool)
    requires
        refines(old(components)@, old(remapping)@, old(sizes)@, p),
        labels_bounded(p),
        has_room(p, p.ids.len()),
        src < p.ids.len(),
        dst < p.ids.len(),
    ensures
        joined == joins(p, (src, dst)),
        refines(final(components)@, final(remapping)@, final(sizes)@, absorb(p, (src, dst))),
        labels_bounded(absorb(p, (src, dst))),
        has_room(absorb(p, (src, dst)), p.ids.len()),
{
    if src == dst {
        return false;
    }
    let raw_src: u32 = components[src as usize];
    let raw_dst: u32 = components[dst as usize];
    if raw_src == NOT_PRESENT && raw_dst == NOT_PRESENT {
        open_component(components, remapping, sizes, src, dst, Ghost(p));
        true
    } else if raw_src == NOT_PRESENT {
        enter_component(components, remapping, sizes, src, raw_dst, Ghost(p));
        true
    } else if raw_dst == NOT_PRESENT {
        enter_component(components, remapping, sizes, dst, raw_src, Ghost(p));
        true
    } else {
        merge_components(components, remapping, sizes, src, dst, Ghost(p))
    }
}

/// Writes the final component of every node over `components`: the number its
/// component merged into, or a fresh number for a node that no edge reached.
/// Returns how many fresh numbers were handed out.
fn settle_components(components: &mut Vec<u32>, remapping: &Vec<u32>, Ghost(p): Ghost<Partition>) -> (fresh: u32)
    requires
        labels_bounded(p),
        has_room(p, p.ids.len()),
        old(components)@.len() == p.ids.len(),
        remapping@.len() == p.created,
        forall|u: int|
            0 <= u < old(components)@.len() ==> (#[trigger] old(components)@[u] == NOT_PRESENT
                <==> p.ids[u] == absent()),
        forall|u: int|
            0 <= u < old(components)@.len() && #[trigger] old(components)@[u] != NOT_PRESENT
                ==> old(components)@[u] < remapping@.len() && remapping@[old(
                components,
            )@[u] as int] == p.ids[u],
    ensures
        final(components)@.len() == p.ids.len(),
        forall|u: int|
            0 <= u < p.ids.len() ==> #[trigger] final(components)@[u] == final_labels(p)[u],
        fresh == label_count(p.ids, absent()),
{
    let created: u32 = remapping.len() as u32;
    let mut fresh: u32 = 0;
    let mut u: usize = 0;
    while u < components.len()
        invariant
            u <= components@.len(),
            components@.len() == p.ids.len(),
            created == p.created,
            labels_bounded(p),
            has_room(p, p.ids.len()),
            remapping@.len() == p.created,
            fresh == label_count(p.ids.take(u as int), absent()),
            forall|k: int| 0 <= k < u ==> #[trigger] components@[k] == final_labels(p)[k],
            forall|k: int|
                u <= k < components@.len() ==> (#[trigger] components@[k] == NOT_PRESENT <==> p.ids[k]
                    == absent()),
            forall|k: int|
                u <= k < components@.len() && #[trigger] components@[k] != NOT_PRESENT
                    ==> components@[k] < remapping@.len() && remapping@[components@[k] as int]
                    == p.ids[k],
        decreases components@.len() - u,
    {
        proof {
            lemma_count_take_step(p.ids, u as int, absent());
            lemma_count_take_le(p.ids, u as int + 1, absent());
        }
        let raw: u32 = components[u];
        if raw == NOT_PRESENT {
            components.set(u, created + fresh);
            fresh += 1;
        } else {
            components.set(u, remapping[raw as usize]);
        }
        u += 1;
    }
    proof {
        assert(p.ids.take(u as int) =~= p.ids);
    }
    fresh
}

/// Whether `value` is the size of a component that holds a node.
pub open spec fn is_live_size(sizes: Seq<u32>, value: u32) -> bool {
    exists|c: int| 0 <= c < sizes.len() && sizes[c] != 0 && sizes[c] == value
}

/// The sizes of the components that are still their own, in number order.
fn live_sizes(remapping: &Vec<u32>, sizes: &Vec<u32>) -> (live: Vec<u32>)
    requires
        remapping@.len() == sizes@.len(),
    ensures
        forall|c: int| 0 <= c < sizes@.len() && #[trigger] sizes@[c] != 0 ==> live@.contains(sizes@[c]),
        forall|j: int| 0 <= j < live@.len() ==> is_live_size(sizes@, #[trigger] live@[j]),
{
    let mut live: Vec<u32> = Vec::new();
    let mut c: usize = 0;
    while c < sizes.len()
        invariant
            c <= sizes@.len(),
            forall|k: int| 0 <= k < c && #[trigger] sizes@[k] != 0 ==> live@.contains(sizes@[k]),
            forall|j: int| 0 <= j < live@.len() ==> is_live_size(sizes@, #[trigger] live@[j]),
        decreases sizes@.len() - c,
    {
        if sizes[c] != 0 {
            let ghost before = live@;
            live.push(sizes[c]);
            proof {
                assert(live@[before.len() as int] == sizes@[c as int]);
                assert forall|k: int| 0 <= k < c + 1 && #[trigger] sizes@[k] != 0 implies live@.contains(
                    sizes@[k],
                ) by {
                    if k < c {
                        let j = choose|j: int| 0 <= j < before.len() && before[j] == sizes@[k];
                        assert(live@[j] == sizes@[k]);
                    }
                }
                assert forall|j: int| 0 <= j < live@.len() implies is_live_size(
                    sizes@,
                    #[trigger] live@[j],
                ) by {
                    if j < before.len() {
                        assert(live@[j] == before[j]);
                    } else {
                        assert(sizes@[c as int] == live@[j]);
                    }
                }
            }
        }
        c += 1;
    }
    live
}

/// Whether `r` is what the forest builder answers for `edges` over `n`
/// nodes: the forest, the final component of every node, the number of
/// components, and the sizes of the smallest and of the largest component,
/// which are both zero where there is no node.
pub open spec fn is_forest_of(
    n: nat,
    edges: Seq<(NodeT, NodeT)>,
    r: (Vec<(NodeT, NodeT)>, Vec<NodeT>, NodeT, NodeT, NodeT),
) -> bool {
    &&& r.0@ == forest(n, edges)
    &&& crate::partition::no_edge_twice(r.0@)
    &&& r.1@.len() == n
    &&& forall|u: int| 0 <= u < n ==> #[trigger] r.1@[u] == final_labels(after(n, edges))[u]
    &&& r.2 == n - r.0@.len()
    &&& r.2 == crate::partition::component_count(after(n, edges))
    &&& n == 0 ==> r.3 == 0 && r.4 == 0
    &&& forall|u: int| 0 <= u < n ==> r.3 <= #[trigger] component_size(after(n, edges), u) <= r.4
    &&& n > 0 ==> exists|u: int| 0 <= u < n && component_size(after(n, edges), u) == r.3
    &&& n > 0 ==> exists|u: int| 0 <= u < n && component_size(after(n, edges), u) == r.4
}

/// Builds a spanning forest of `edges` over the nodes `0..nodes_number`,
/// taking the edges in order, and labels every node with its component.
///
/// Returns the forest, the component of each node, the number of components,
/// and the sizes of the smallest and of the largest component. An edge enters
/// the forest when it joins two nodes that the earlier edges had not joined;
/// self-loops never do. The forest is a list in the order in which its edges
/// were taken, and no edge is in it twice. Two components merge into the
/// one with the smaller number, and a node that no edge reached makes a
/// component of its own.
pub fn spanning_forest(nodes_number: NodeT, edges: &Vec<(NodeT, NodeT)>) -> (result: (
    Vec<(NodeT, NodeT)>,
    Vec<NodeT>,
    NodeT,
    NodeT,
    NodeT,
))
    requires
        edges_in_range(nodes_number as nat, edges@),
    ensures
        is_forest_of(nodes_number as nat, edges@, result),
        result.0@ == forest(nodes_number as nat, edges@),
        result.1@.len() == nodes_number,
        forall|u: int|
            0 <= u < nodes_number ==> #[trigger] result.1@[u] == final_labels(
                after(nodes_number as nat, edges@),
            )[u],
        result.2 == nodes_number - result.0@.len(),
        nodes_number == 0 ==> result.3 == 0 && result.4 == 0,
        forall|u: int|
            0 <= u < nodes_number ==> result.3 <= #[trigger] component_size(
                after(nodes_number as nat, edges@),
                u,
            ) <= result.4,
        nodes_number > 0 ==> exists|u: int|
            0 <= u < nodes_number && component_size(after(nodes_number as nat, edges@), u)
                == result.3,
        nodes_number > 0 ==> exists|u: int|
            0 <= u < nodes_number && component_size(after(nodes_number as nat, edges@), u)
                == result.4,
{
    let ghost n = nodes_number as nat;
    let mut tree: Vec<(NodeT, NodeT)> = Vec::new();
    let mut components: Vec<u32> = filled(NOT_PRESENT, nodes_number as usize);
    let mut remapping: Vec<u32> = Vec::new();
    let mut sizes: Vec<u32> = Vec::new();
    proof {
        assert(edges@.take(0) =~= Seq::<(NodeT, NodeT)>::empty());
        lemma_count_bound(initial(n).ids, absent());
    }
    let mut i: usize = 0;
    while i < edges.len()
        invariant
            i <= edges@.len(),
            n == nodes_number,
            edges_in_range(n, edges@),
            tree@ == forest(n, edges@.take(i as int)),
            refines(components@, remapping@, sizes@, after(n, edges@.take(i as int))),
            labels_bounded(after(n, edges@.take(i as int))),
            has_room(after(n, edges@.take(i as int)), n),
        decreases edges@.len() - i,
    {
        let (src, dst) = edges[i];
        let ghost p = after(n, edges@.take(i as int));
        proof {
            lemma_after_step(n, edges@, i as int);
            assert(crate::partition::edge_in_range(n, edges@[i as int]));
        }
        let joined = absorb_edge(&mut components, &mut remapping, &mut sizes, src, dst, Ghost(p));
        if joined {
            tree.push((src, dst));
        }
        i += 1;
    }
    let ghost p = after(n, edges@);
    proof {
        assert(edges@.take(i as int) =~= edges@);
        lemma_forest_bound(n, edges@);
    }
    let ghost raw = components@;
    let singles: u32 = settle_components(&mut components, &remapping, Ghost(p));
    proof {
        assert(refines(raw, remapping@, sizes@, p));
    }
    let live = live_sizes(&remapping, &sizes);
    let total: u32 = nodes_number - tree.len() as u32;
    let span = smallest_and_largest(&live);
    let (smallest, largest) = match span {
        None => if singles > 0 {
            (1u32, 1u32)
        } else {
            (0u32, 0u32)
        },
        Some((lo, hi)) => if singles > 0 {
            (1u32, hi)
        } else {
            (lo, hi)
        },
    };
    proof {
        assert forall|u: int| 0 <= u < nodes_number implies smallest <= #[trigger] component_size(
            p,
            u,
        ) <= largest by {
            lemma_component_size(p, u);
            if p.ids[u] != absent() {
                let c = p.ids[u];
                assert(raw[u] != NOT_PRESENT);
                assert(remapping@[raw[u] as int] == c);
                assert(sizes@[c] == label_count(p.ids, c));
                lemma_count_witness(p.ids, c);
                assert(live@.contains(sizes@[c]));
            } else {
                lemma_count_witness(p.ids, absent());
            }
        }
        if nodes_number > 0 {
            lemma_count_witness(p.ids, absent());
            if singles > 0 {
                let u = choose|u: int| 0 <= u < p.ids.len() && p.ids[u] == absent();
                lemma_component_size(p, u);
                assert(component_size(p, u) == smallest);
            }
            if live@.len() > 0 {
                let lo = span->Some_0.0;
                let hi = span->Some_0.1;
                let jl = choose|j: int| 0 <= j < live@.len() && live@[j] == lo;
                let jh = choose|j: int| 0 <= j < live@.len() && live@[j] == hi;
                assert(is_live_size(sizes@, live@[jl]));
                assert(is_live_size(sizes@, live@[jh]));
                let cl = choose|c: int| 0 <= c < sizes@.len() && sizes@[c] != 0 && sizes@[c] == lo;
                lemma_count_witness(p.ids, cl);
                let ul = choose|u: int| 0 <= u < p.ids.len() && p.ids[u] == cl;
                lemma_component_size(p, ul);
                let ch = choose|c: int| 0 <= c < sizes@.len() && sizes@[c] != 0 && sizes@[c] == hi;
                lemma_count_witness(p.ids, ch);
                let uh = choose|u: int| 0 <= u < p.ids.len() && p.ids[u] == ch;
                lemma_component_size(p, uh);
                assert(component_size(p, uh) == largest);
                if singles == 0 {
                    assert(component_size(p, ul) == smallest);
                }
            } else {
                let u = 0int;
                lemma_component_size(p, u);
                if p.ids[u] != absent() {
                    let c = p.ids[u];
                    assert(raw[u] != NOT_PRESENT);
                    assert(remapping@[raw[u] as int] == c);
                    assert(sizes@[c] == label_count(p.ids, c));
                    lemma_count_witness(p.ids, c);
                    assert(live@.contains(sizes@[c]));
                }
            }
        }
        crate::partition::lemma_forest_has_no_repeat(nodes_number as nat, edges@);
    }
    (tree, components, total, smallest, largest)
}

} // verus!

verus! {

/// `num_cpus::get`: the number of processors that this process may use.
/// It depends on the machine, and nothing is claimed of it.
#[verifier::external_body]
fn available_cores() -> (cores: usize) {
    num_cpus::get()
}

/// How many workers a graph of `n` nodes is worth: one, and a second from
/// one and a quarter million nodes on.
pub open spec fn scale_spec(n: nat) -> nat {
    if n >= 1_250_000 {
        2
    } else {
        1
    }
}

/// The number of threads of a search over `n` nodes on `cores` processors:
/// a seed and the workers, but no more than there are processors.
pub open spec fn thread_number_spec(cores: nat, n: nat) -> nat {
    if cores < 1 + scale_spec(n) {
        cores
    } else {
        1 + scale_spec(n)
    }
}

/// How many workers a graph of `nodes_number` nodes is worth.
pub fn scale_node_threads(nodes_number: NodeT) -> (workers: usize)
    ensures
        workers == scale_spec(nodes_number as nat),
{
    if nodes_number >= 1_250_000 {
        2
    } else {
        1
    }
}

/// The number of threads of a search over `nodes_number` nodes on `cores`
/// processors.
pub fn thread_number(cores: usize, nodes_number: NodeT) -> (threads: usize)
    ensures
        threads == thread_number_spec(cores as nat, nodes_number as nat),
{
    let wanted = 1 + scale_node_threads(nodes_number);
    if cores < wanted {
        cores
    } else {
        wanted
    }
}

/// The `i`-th place of the round that starts at `start` and wraps at `len`.
pub open spec fn rotate(start: int, i: int, len: int) -> int {
    if i < len - start {
        start + i
    } else {
        i - (len - start)
    }
}

impl Graph {
    /// Whether the spanning-tree routines take edge `e`: self-loops are left
    /// out, and of the two directions of an undirected edge the one from the
    /// smaller node to the larger is taken.
    pub open spec fn spans(&self, e: int) -> bool {
        self.source(e) != self.destination(e) && (self.directed || self.source(e)
            < self.destination(e))
    }

    /// Whether the type of edge `e` is one of `unwanted`.
    pub open spec fn is_unwanted(&self, e: int, unwanted: Set<EdgeTypeT>) -> bool {
        self.edge_type_at(e) matches Some(t) && unwanted.contains(t)
    }

    /// The first `k` edges of the round that starts at `start`, those of
    /// them that the spanning-tree routines take and whose type is unwanted
    /// or not as `pick` says, as pairs of a source and a destination.
    pub open spec fn round_pairs(&self, start: int, k: int, unwanted: Set<EdgeTypeT>, pick: bool) -> Seq<
        (NodeT, NodeT),
    >
        decreases k,
    {
        if k <= 0 {
            Seq::empty()
        } else {
            let e = rotate(start, k - 1, self.edges_count() as int);
            let front = self.round_pairs(start, k - 1, unwanted, pick);
            if self.spans(e) && self.is_unwanted(e, unwanted) == pick {
                front.push((self.source(e) as NodeT, self.destination(e) as NodeT))
            } else {
                front
            }
        }
    }

    /// The edge at which the round of a random state starts.
    pub open spec fn round_start(&self, random_state: u64) -> int {
        if self.edges_count() == 0 {
            0
        } else {
            xorshift_spec(xorshift_spec(mix_seed_spec(random_state))) as int % self.edges_count() as int
        }
    }

    /// The order in which the random spanning tree takes the edges: a round
    /// over all edges from the place that the random state picks; with
    /// unwanted types, first the edges of the other types and then those of
    /// the unwanted ones.
    pub open spec fn preferred_pairs(&self, random_state: u64, unwanted: Option<Set<EdgeTypeT>>) -> Seq<
        (NodeT, NodeT),
    > {
        let start = self.round_start(random_state);
        let all = self.edges_count() as int;
        match unwanted {
            None => self.round_pairs(start, all, Set::empty(), false),
            Some(types) => self.round_pairs(start, all, types, false) + self.round_pairs(
                start,
                all,
                types,
                true,
            ),
        }
    }

    /// The distinct edges in edge order, those of them that the
    /// spanning-tree routines take, among the first `k` edges.
    pub open spec fn unique_pairs(&self, k: int) -> Seq<(NodeT, NodeT)>
        decreases k,
    {
        if k <= 0 {
            Seq::empty()
        } else {
            let front = self.unique_pairs(k - 1);
            if self.starts_run(k - 1) && self.spans(k - 1) {
                front.push((self.source(k - 1) as NodeT, self.destination(k - 1) as NodeT))
            } else {
                front
            }
        }
    }

    /// Appends to `pairs` one round over the edges from `start`, taking
    /// the edges whose type is unwanted or not as `pick` says.
    fn append_round(
        &self,
        pairs: &mut Vec<(NodeT, NodeT)>,
        start: EdgeT,
        unwanted: &Option<HashSet<EdgeTypeT>>,
        pick: bool,
    )
        requires
            self.wf(),
            start < self.edges_count() || self.edges_count() == 0 && start == 0,
            unwanted is Some ==> self.edge_types is Some,
            crate::partition::edges_in_range(self.nodes_count(), old(pairs)@),
        ensures
            final(pairs)@ == old(pairs)@ + self.round_pairs(
                start as int,
                self.edges_count() as int,
                match unwanted {
                    Some(types) => types@,
                    None => Set::empty(),
                },
                pick,
            ),
            crate::partition::edges_in_range(self.nodes_count(), final(pairs)@),
    {
        broadcast use vstd::std_specs::hash::group_hash_axioms;

        let edges_number = self.get_edges_number();
        let ghost types = match unwanted {
            Some(types) => types@,
            None => Set::<EdgeTypeT>::empty(),
        };
        let mut i: EdgeT = 0;
        while i < edges_number
            invariant
                self.wf(),
                i <= edges_number,
                edges_number == self.edges_count(),
                start < edges_number || edges_number == 0,
                unwanted is Some ==> self.edge_types is Some,
                types == (match unwanted {
                    Some(types) => types@,
                    None => Set::<EdgeTypeT>::empty(),
                }),
                pairs@ == old(pairs)@ + self.round_pairs(start as int, i as int, types, pick),
                crate::partition::edges_in_range(self.nodes_count(), pairs@),
            decreases edges_number - i,
        {
            let e = if i < edges_number - start {
                start + i
            } else {
                i - (edges_number - start)
            };
            let (src, dst) = self.get_edge_from_edge_id(e);
            let taken = src != dst && (self.directed || src < dst);
            let listed = match unwanted {
                Some(types) => {
                    let edges_count = self.edges.len();
                    match &self.edge_types {
                        Some(edge_types) => types.contains(&edge_types.ids[e as usize]),
                        None => false,
                    }
                },
                None => false,
            };
            if taken && listed == pick {
                let ghost before = pairs@;
                pairs.push((src, dst));
                proof {
                    assert(pairs@ =~= old(pairs)@ + self.round_pairs(
                        start as int,
                        i + 1,
                        types,
                        pick,
                    ));
                    assert forall|k: int| 0 <= k < pairs@.len() implies crate::partition::edge_in_range(
                        self.nodes_count(),
                        #[trigger] pairs@[k],
                    ) by {
                        if k < before.len() {
                            assert(pairs@[k] == before[k]);
                        }
                    }
                }
            }
            i += 1;
        }
    }

    /// The edges in the order in which the random spanning tree takes them.
    pub fn get_preferred_edges(&self, random_state: u64, unwanted: &Option<HashSet<EdgeTypeT>>) -> (pairs:
        Vec<(NodeT, NodeT)>)
        requires
            self.wf(),
            unwanted is Some ==> self.edge_types is Some,
        ensures
            pairs@ == self.preferred_pairs(
                random_state,
                match unwanted {
                    Some(types) => Some(types@),
                    None => None,
                },
            ),
            crate::partition::edges_in_range(self.nodes_count(), pairs@),
    {
        let edges_number = self.get_edges_number();
        let start: EdgeT = if edges_number == 0 {
            0
        } else {
            xorshift(xorshift(mix_seed(random_state))) % edges_number
        };
        let mut pairs: Vec<(NodeT, NodeT)> = Vec::new();
        self.append_round(&mut pairs, start, unwanted, false);
        if unwanted.is_some() {
            self.append_round(&mut pairs, start, unwanted, true);
        }
        pairs
    }

    /// The distinct edges that the spanning-tree routines take, in edge
    /// order.
    pub fn get_unique_edges(&self) -> (pairs: Vec<(NodeT, NodeT)>)
        requires
            self.wf(),
        ensures
            pairs@ == self.unique_pairs(self.edges_count() as int),
            crate::partition::edges_in_range(self.nodes_count(), pairs@),
    {
        let edges_number = self.edges.len();
        let mut pairs: Vec<(NodeT, NodeT)> = Vec::new();
        let mut e: usize = 0;
        while e < edges_number
            invariant
                self.wf(),
                e <= edges_number,
                edges_number == self.edges_count(),
                pairs@ == self.unique_pairs(e as int),
                crate::partition::edges_in_range(self.nodes_count(), pairs@),
            decreases edges_number - e,
        {
            let (src, dst) = self.get_edge_from_edge_id(e as EdgeT);
            let first = e == 0 || self.edges[e - 1] != self.edges[e];
            if first && src != dst && (self.directed || src < dst) {
                let ghost before = pairs@;
                pairs.push((src, dst));
                proof {
                    assert forall|k: int| 0 <= k < pairs@.len() implies crate::partition::edge_in_range(
                        self.nodes_count(),
                        #[trigger] pairs@[k],
                    ) by {
                        if k < before.len() {
                            assert(pairs@[k] == before[k]);
                        }
                    }
                }
            }
            e += 1;
        }
        pairs
    }

    /// Builds a spanning forest of `edges` over the nodes of the graph; see
    /// `spanning_forest`.
    pub fn kruskal(&self, edges: &Vec<(NodeT, NodeT)>) -> (result: (
        Vec<(NodeT, NodeT)>,
        Vec<NodeT>,
        NodeT,
        NodeT,
        NodeT,
    ))
        requires
            self.wf(),
            edges_in_range(self.nodes_count(), edges@),
        ensures
            is_forest_of(self.nodes_count(), edges@, result),
            result.0@ == forest(self.nodes_count(), edges@),
            result.1@.len() == self.nodes_count(),
            forall|u: int|
                0 <= u < self.nodes_count() ==> #[trigger] result.1@[u] == final_labels(
                    after(self.nodes_count(), edges@),
                )[u],
            result.2 == self.nodes_count() - result.0@.len(),
            self.nodes_count() == 0 ==> result.3 == 0 && result.4 == 0,
            forall|u: int|
                0 <= u < self.nodes_count() ==> result.3 <= #[trigger] component_size(
                    after(self.nodes_count(), edges@),
                    u,
                ) <= result.4,
            self.nodes_count() > 0 ==> exists|u: int|
                0 <= u < self.nodes_count() && component_size(after(self.nodes_count(), edges@), u)
                    == result.3,
            self.nodes_count() > 0 ==> exists|u: int|
                0 <= u < self.nodes_count() && component_size(after(self.nodes_count(), edges@), u)
                    == result.4,
    {
        spanning_forest(self.get_nodes_number(), edges)
    }

    /// A spanning forest built from the edges in a random order that starts
    /// where `random_state` says. With `unwanted_edge_types`, edges of those
    /// types are taken last, so that the forest uses as few of them as it
    /// can. Unwanted types ask for a graph that has edge types.
    pub fn random_spanning_arborescence_kruskal(
        &self,
        random_state: EdgeT,
        unwanted_edge_types: &Option<HashSet<EdgeTypeT>>,
    ) -> (result: Result<(Vec<(NodeT, NodeT)>, Vec<NodeT>, NodeT, NodeT, NodeT), GraphError>)
        requires
            self.wf(),
        ensures
            result is Err <==> unwanted_edge_types is Some && self.edge_types is None,
            result is Err ==> result->Err_0 == GraphError::MissingEdgeTypes,
            result matches Ok(r) ==> {
                let edges = self.preferred_pairs(
                    random_state,
                    match unwanted_edge_types {
                        Some(types) => Some(types@),
                        None => None,
                    },
                );
                &&& is_forest_of(self.nodes_count(), edges, r)
                &&& r.0@ == forest(self.nodes_count(), edges)
                &&& r.1@.len() == self.nodes_count()
                &&& forall|u: int|
                    0 <= u < self.nodes_count() ==> #[trigger] r.1@[u] == final_labels(
                        after(self.nodes_count(), edges),
                    )[u]
                &&& r.2 == self.nodes_count() - r.0@.len()
                &&& forall|u: int|
                    0 <= u < self.nodes_count() ==> r.3 <= #[trigger] component_size(
                        after(self.nodes_count(), edges),
                        u,
                    ) <= r.4
            },
    {
        if unwanted_edge_types.is_some() && self.edge_types.is_none() {
            return Err(GraphError::MissingEdgeTypes);
        }
        let edges = self.get_preferred_edges(random_state, unwanted_edge_types);
        Ok(self.kruskal(&edges))
    }

    /// A spanning forest built from the distinct edges in edge order.
    pub fn spanning_arborescence_kruskal(&self) -> (r: (
        Vec<(NodeT, NodeT)>,
        Vec<NodeT>,
        NodeT,
        NodeT,
        NodeT,
    ))
        requires
            self.wf(),
        ensures
            is_forest_of(self.nodes_count(), self.unique_pairs(self.edges_count() as int), r),
            r.0@ == forest(self.nodes_count(), self.unique_pairs(self.edges_count() as int)),
            r.1@.len() == self.nodes_count(),
            forall|u: int|
                0 <= u < self.nodes_count() ==> #[trigger] r.1@[u] == final_labels(
                    after(self.nodes_count(), self.unique_pairs(self.edges_count() as int)),
                )[u],
            r.2 == self.nodes_count() - r.0@.len(),
            r.2 == self.classes_count(),
            forall|u: int, v: int|
                0 <= u < self.nodes_count() && 0 <= v < self.nodes_count() ==> (
                #[trigger] r.1@[u] == #[trigger] r.1@[v] <==> self.class_of(u) == self.class_of(v)),
            forall|u: int|
                0 <= u < self.nodes_count() ==> r.3 <= #[trigger] component_size(
                    after(self.nodes_count(), self.unique_pairs(self.edges_count() as int)),
                    u,
                ) <= r.4,
    {
        let edges = self.get_unique_edges();
        let r = self.kruskal(&edges);
        proof {
            self.law_distinct_edges_span();
            let labels = final_labels(
                after(self.nodes_count(), self.unique_pairs(self.edges_count() as int)),
            );
            assert forall|u: int, v: int|
                0 <= u < self.nodes_count() && 0 <= v < self.nodes_count() implies (
            #[trigger] r.1@[u] == #[trigger] r.1@[v] <==> self.class_of(u) == self.class_of(v)) by {
                assert(r.1@[u] == labels[u]);
                assert(r.1@[v] == labels[v]);
                assert(self.class_of(u) == self.class_of(v) <==> labels[u] == labels[v]);
            }
        }
        r
    }
}

} // verus!

verus! {

/// Whether `level` measures the tree that `parents` describes: every node
/// but the roots lies one level or more above its parent.
pub open spec fn levels_rise(parents: Seq<NodeT>, level: Seq<nat>) -> bool {
    &&& level.len() == parents.len()
    &&& forall|x: int|
        0 <= x < parents.len() && #[trigger] parents[x] != x ==> level[parents[x] as int] < level[x]
}

impl Graph {
    /// Whether node `x` is the first node of its connected component.
    pub open spec fn is_first_of_class(&self, x: int) -> bool {
        forall|v: int| 0 <= v < x ==> #[trigger] self.class_of(v) != self.class_of(x)
    }

    /// Whether `parents` describes a spanning arborescence of the graph: the
    /// first node of every connected component is a root and its own
    /// parent, every other node hangs on an edge of the graph from a parent
    /// in its component, and following the parents leads to a root.
    pub open spec fn is_arborescence(&self, parents: Seq<NodeT>) -> bool {
        &&& parents.len() == self.nodes_count()
        &&& forall|x: int| 0 <= x < parents.len() ==> #[trigger] parents[x] < self.nodes_count()
        &&& forall|x: int|
            0 <= x < parents.len() && #[trigger] parents[x] != x ==> self.has_edge_between(
                parents[x] as int,
                x,
            ) && self.class_of(parents[x] as int) == self.class_of(x)
        &&& forall|x: int|
            0 <= x < parents.len() ==> (#[trigger] parents[x] == x <==> self.is_first_of_class(x))
        &&& exists|level: Seq<nat>| levels_rise(parents, level)
    }

    /// How many nodes lie in the connected component of node `u`.
    pub open spec fn class_size(&self, u: int) -> nat {
        label_count(final_labels(self.classes()), self.class_of(u))
    }

    /// Whether `parents` are the parents that a search of this graph ends
    /// with: a run from a state before the first step, over some number of
    /// stacks.
    pub open spec fn searched(&self, parents: Seq<NodeT>) -> bool {
        exists|first: Search, last: Search|
            first.is_start(self) && #[trigger] first.runs_to(self, &last) && last.parents@
                == parents
    }

    /// The number of stacks that a search of this graph shares among its
    /// workers on this machine: what `stacks_for` gives for the processors
    /// that the machine has. Whatever their number, there is one stack, or
    /// one for every worker that the graph is worth.
    fn stacks_number(&self) -> (stacks: usize)
        requires
            self.wf(),
        ensures
            exists|cores: nat| stacks == #[trigger] stacks_spec(cores, self.nodes_count()),
            1 <= stacks <= scale_spec(self.nodes_count()),
    {
        let cores = available_cores();
        let stacks = stacks_for(cores, self.get_nodes_number());
        proof {
            assert(stacks == stacks_spec(cores as nat, self.nodes_count()));
        }
        stacks
    }

    /// Builds a spanning arborescence of an undirected graph by a search
    /// that opens one connected component at a time and grows it from
    /// stacks of waiting nodes.
    ///
    /// Returns the number of edges of the arborescence and the edges, each
    /// as a node and its parent, in node order. The parents are those that a
    /// run of the search ends with, seed and workers taking turns; which
    /// tree that is depends on the number of stacks, which the machine
    /// decides. Every outcome is a spanning arborescence, with one edge for
    /// every node that is not the first of its connected component.
    pub fn spanning_arborescence(&self) -> (r: Result<(usize, Vec<(NodeT, NodeT)>), GraphError>)
        requires
            self.wf(),
        ensures
            r is Err <==> self.directed,
            r is Err ==> r->Err_0 == GraphError::DirectedGraph,
            r matches Ok((count, edges)) ==> count == edges@.len() && count + self.classes_count()
                == self.nodes_count() && exists|parents: Seq<NodeT>|
                self.is_arborescence(parents) && #[trigger] self.searched(parents) && edges@
                    == tree_edges(parents, self.nodes_count() as int),
    {
        if self.directed {
            return Err(GraphError::DirectedGraph);
        }
        let n = self.get_nodes_number();
        let mut search = Search::new(self, self.stacks_number());
        let ghost first = search;
        search.run(self);
        proof {
            assert(first.runs_to(self, &search));
            assert(self.searched(search.parents@));
        }
        let mut edges: Vec<(NodeT, NodeT)> = Vec::new();
        let mut x: NodeT = 0;
        while x < n
            invariant
                x <= n,
                n == self.nodes_count(),
                search.parents@.len() == n,
                edges@ == tree_edges(search.parents@, x as int),
            decreases n - x,
        {
            let parent = search.parents[x as usize];
            if parent != x {
                edges.push((x, parent));
            }
            x += 1;
        }
        proof {
            let parents = search.parents@;
            search.lemma_finished_explored(self);
            search.lemma_components_are_classes(self);
            search.lemma_components_count(self);
            search.lemma_tree_size(self, n as int);
            crate::components::lemma_roots_count(search.roots@, n as int);
            assert forall|x: int| 0 <= x < parents.len() implies (#[trigger] parents[x] == x
                <==> self.is_first_of_class(x)) by {
                search.lemma_root_is_first(self, x);
                let labels = component_labels(search.components@);
                if crate::classes::is_first(labels, x) {
                    assert forall|v: int| 0 <= v < x implies #[trigger] self.class_of(v)
                        != self.class_of(x) by {
                        assert(labels[v] != labels[x]);
                        assert(search.components@[v] != search.components@[x]);
                    }
                }
                if self.is_first_of_class(x) {
                    assert forall|v: int| 0 <= v < x implies #[trigger] labels[v] != labels[x] by {
                        assert(self.class_of(v) != self.class_of(x));
                        assert(search.components@[v] == search.components@[x] <==> self.class_of(v)
                            == self.class_of(x));
                    }
                }
            }
            assert forall|x: int| 0 <= x < parents.len() && #[trigger] parents[x] != x implies self.has_edge_between(
                parents[x] as int,
                x,
            ) && self.class_of(parents[x] as int) == self.class_of(x) by {
                assert(search.explored(x));
                assert(search.components@[parents[x] as int] == search.components@[x]);
            }
            assert forall|x: int| 0 <= x < parents.len() implies #[trigger] parents[x]
                < self.nodes_count() by {
                assert(search.explored(x));
            }
            assert(levels_rise(parents, search.level@)) by {
                assert forall|x: int| 0 <= x < parents.len() && #[trigger] parents[x] != x implies search.level@[parents[x] as int]
                    < search.level@[x] by {
                    assert(search.explored(x));
                }
            }
            assert(self.is_arborescence(parents));
        }
        Ok((search.inserted_edges as usize, edges))
    }

    /// Labels the connected components of an undirected graph, by the same
    /// search as `spanning_arborescence`.
    ///
    /// Returns the component of every node, the number of components and
    /// the sizes of the smallest and of the largest of them. Two nodes get
    /// the same number exactly when a path joins them, and the components
    /// are numbered from zero in the order of their first nodes.
    pub fn connected_components(&self) -> (r: Result<(Vec<NodeT>, NodeT, NodeT, NodeT), GraphError>)
        requires
            self.wf(),
        ensures
            r is Err <==> self.directed,
            r is Err ==> r->Err_0 == GraphError::DirectedGraph,
            r matches Ok((components, number, smallest, largest)) ==> {
                &&& components@.len() == self.nodes_count()
                &&& number == self.classes_count()
                &&& forall|u: int, v: int|
                    0 <= u < self.nodes_count() && 0 <= v < self.nodes_count() ==> (
                    #[trigger] components@[u] == #[trigger] components@[v] <==> self.class_of(u)
                        == self.class_of(v))
                &&& forall|u: int| 0 <= u < self.nodes_count() ==> #[trigger] components@[u] < number
                &&& forall|u: int|
                    0 <= u < self.nodes_count() && self.is_first_of_class(u)
                        ==> #[trigger] components@[u] == crate::classes::firsts(
                        final_labels(self.classes()),
                        u,
                    )
                &&& forall|u: int|
                    0 <= u < self.nodes_count() ==> smallest <= #[trigger] self.class_size(u)
                        <= largest
                &&& self.nodes_count() == 0 ==> smallest == 0 && largest == 0
                &&& self.nodes_count() > 0 ==> exists|u: int|
                    0 <= u < self.nodes_count() && self.class_size(u) == smallest
                &&& self.nodes_count() > 0 ==> exists|u: int|
                    0 <= u < self.nodes_count() && self.class_size(u) == largest
            },
    {
        if self.directed {
            return Err(GraphError::DirectedGraph);
        }
        let n = self.get_nodes_number();
        let mut search = Search::new(self, self.stacks_number());
        search.run(self);
        let number: NodeT = search.roots.len() as NodeT;
        let ghost labels = component_labels(search.components@);
        let ghost classes = final_labels(self.classes());
        proof {
            search.lemma_finished_explored(self);
            search.lemma_components_are_classes(self);
            search.lemma_components_count(self);
            self.lemma_pairs_in_range();
        }
        let mut sizes: Vec<u32> = filled(0, number as usize);
        let mut u: usize = 0;
        while u < n as usize
            invariant
                u <= n,
                n == self.nodes_count(),
                search.components@.len() == n,
                labels == component_labels(search.components@),
                sizes@.len() == number,
                forall|x: int| 0 <= x < n ==> #[trigger] search.components@[x] < number,
                forall|c: int|
                    0 <= c < number ==> #[trigger] sizes@[c] == label_count(labels.take(u as int), c),
            decreases n - u,
        {
            let c = search.components[u] as usize;
            proof {
                assert forall|k: int| 0 <= k < number implies label_count(labels.take(u + 1), k)
                    == label_count(labels.take(u as int), k) + (if labels[u as int] == k {
                    1nat
                } else {
                    0nat
                }) by {
                    lemma_count_take_step(labels, u as int, k);
                }
                lemma_count_bound(labels.take(u + 1), c as int);
            }
            sizes.set(c, sizes[c] + 1);
            u += 1;
        }
        let span = smallest_and_largest(&sizes);
        let (smallest, largest) = match span {
            None => (0u32, 0u32),
            Some((lo, hi)) => (lo, hi),
        };
        proof {
            assert(labels.take(u as int) =~= labels);
            assert(labels.take(n as int) =~= labels);
            assert(classes.take(n as int) =~= classes);
            assert forall|a: int, b: int| 0 <= a < classes.len() && 0 <= b < classes.len() implies (
            classes[a] == classes[b] <==> labels[a] == labels[b]) by {
                assert(search.components@[a] == search.components@[b] <==> self.class_of(a)
                    == self.class_of(b));
            }
            assert forall|x: int| 0 <= x < n implies label_count(classes, #[trigger] classes[x])
                == label_count(labels, labels[x]) by {
                crate::classes::lemma_same_partition_counts(classes, labels, n as int, x);
            }
            assert forall|x: int| 0 <= x < n implies smallest <= #[trigger] self.class_size(x)
                <= largest by {
                assert(label_count(classes, classes[x]) == label_count(labels, labels[x]));
                assert(sizes@[labels[x]] == label_count(labels, labels[x]));
            }
            if n > 0 {
                assert(search.explored(0));
                let (lo, hi) = (span->Some_0.0, span->Some_0.1);
                let cl = choose|c: int| 0 <= c < sizes@.len() && sizes@[c] == lo;
                let ch = choose|c: int| 0 <= c < sizes@.len() && sizes@[c] == hi;
                let ul = search.roots@[cl] as int;
                let uh = search.roots@[ch] as int;
                assert(labels[ul] == cl);
                assert(labels[uh] == ch);
                assert(label_count(classes, classes[ul]) == label_count(labels, labels[ul]));
                assert(label_count(classes, classes[uh]) == label_count(labels, labels[uh]));
                assert(self.class_size(ul) == smallest);
                assert(self.class_size(uh) == largest);
            }
            assert forall|x: int| 0 <= x < n && self.is_first_of_class(x) implies #[trigger] search.components@[x]
                == crate::classes::firsts(classes, x) by {
                search.lemma_component_numbers(self, x);
                assert forall|v: int| 0 <= v < x implies #[trigger] labels[v] != labels[x] by {
                    assert(self.class_of(v) != self.class_of(x));
                    assert(search.components@[v] == search.components@[x] <==> self.class_of(v)
                        == self.class_of(x));
                }
                assert forall|a: int, b: int| 0 <= a < labels.len() && 0 <= b < labels.len() implies (
                labels[a] == labels[b] <==> classes[a] == classes[b]) by {
                    assert(search.components@[a] == search.components@[b] <==> self.class_of(a)
                        == self.class_of(b));
                }
                crate::classes::lemma_firsts_agree(labels, classes, x);
            }
        }
        Ok((search.components, number, smallest, largest))
    }
}

/// The number of stacks of a search over `n` nodes on `cores` processors:
/// one for every thread but the seed, and one at least.
pub open spec fn stacks_spec(cores: nat, n: nat) -> nat {
    if thread_number_spec(cores, n) > 1 {
        (thread_number_spec(cores, n) - 1) as nat
    } else {
        1
    }
}

/// The number of stacks of a search over `nodes_number` nodes on `cores`
/// processors.
pub fn stacks_for(cores: usize, nodes_number: NodeT) -> (stacks: usize)
    ensures
        stacks == stacks_spec(cores as nat, nodes_number as nat),
        1 <= stacks <= scale_spec(nodes_number as nat),
{
    let threads = thread_number(cores, nodes_number);
    if threads > 1 {
        threads - 1
    } else {
        1
    }
}

} // verus!
