//! Writing the edges of a graph and building a graph from what was written:
//! the second graph holds the edges of the first, whatever numbers the
//! nodes and the edge types get on the way.

use vstd::prelude::*;
use crate::builder::{built_from, distinct_slots, entries_of, first_occurrences, flip, has_dup, is_dup, keys_of, lemma_has_dup_sorted, mirrored, rearranged, same_slot, EdgeEntry};
use crate::edge_file_writer::EdgeFileWriter;
use crate::encoding::lemma_radix_bounds;
use crate::graph::Graph;
use crate::laws::lemma_nothing_to_clear;
use crate::sorting::{is_stable_order, occurs};
use crate::types::{EdgeTypeT, NodeT};

verus! {

/// An entry with the new numbers of its nodes and of its type.
pub open spec fn renumbered(e: EdgeEntry, nodes: Seq<NodeT>, types: Seq<EdgeTypeT>) -> EdgeEntry {
    EdgeEntry {
        src: nodes[e.src as int],
        dst: nodes[e.dst as int],
        edge_type: match e.edge_type {
            Some(t) => Some(types[t as int]),
            None => None,
        },
        weight: e.weight,
    }
}

/// Whether no entry of a list fills the slot of another, nor, where mirrors
/// are added, the slot of the mirror of another.
pub open spec fn apart(s: Seq<EdgeEntry>, directed: bool) -> bool {
    forall|x: int, y: int|
        0 <= x < y < s.len() ==> !same_slot(#[trigger] s[x], #[trigger] s[y]) && (!directed
            ==> !same_slot(s[x], flip(s[y])))
}

/// Whether `entry` is an entry of `s` or, where mirrors are added, the
/// mirror of one.
pub open spec fn stems_from(s: Seq<EdgeEntry>, directed: bool, entry: EdgeEntry) -> bool {
    exists|x: int| 0 <= x < s.len() && (#[trigger] s[x] == entry || (!directed && flip(s[x]) == entry))
}

/// The list with its mirrors holds the entries of the list and, where
/// mirrors are added, their mirrors, and nothing else.
pub proof fn lemma_mirrored_holds(s: Seq<EdgeEntry>, directed: bool)
    ensures
        forall|p: int|
            0 <= p < mirrored(s, directed).len() ==> stems_from(
                s,
                directed,
                #[trigger] mirrored(s, directed)[p],
            ),
        forall|x: int| 0 <= x < s.len() ==> mirrored(s, directed).contains(#[trigger] s[x]),
        forall|x: int|
            0 <= x < s.len() && !directed ==> mirrored(s, directed).contains(flip(#[trigger] s[x])),
    decreases s.len(),
{
    let m = mirrored(s, directed);
    if s.len() > 0 {
        let front_list = s.drop_last();
        let front = mirrored(front_list, directed);
        let e = s.last();
        lemma_mirrored_holds(front_list, directed);
        assert forall|p: int| 0 <= p < m.len() implies stems_from(s, directed, #[trigger] m[p]) by {
            if p < front.len() {
                assert(m[p] == front[p]);
                assert(stems_from(front_list, directed, front[p]));
                let x = choose|x: int|
                    0 <= x < front_list.len() && (#[trigger] front_list[x] == front[p] || (!directed
                        && flip(front_list[x]) == front[p]));
                assert(s[x] == front_list[x]);
            } else {
                assert(s[s.len() - 1] == e);
                assert(m[p] == e || (!directed && m[p] == flip(e)));
            }
        }
        assert forall|x: int| 0 <= x < s.len() implies m.contains(#[trigger] s[x]) by {
            if x < front_list.len() {
                assert(front.contains(front_list[x]));
                let p = choose|p: int| 0 <= p < front.len() && front[p] == front_list[x];
                assert(m[p] == s[x]);
            } else {
                assert(m[front.len() as int] == s[x]);
            }
        }
        assert forall|x: int| 0 <= x < s.len() && !directed implies m.contains(
            flip(#[trigger] s[x]),
        ) by {
            if x < front_list.len() {
                assert(front.contains(flip(front_list[x])));
                let p = choose|p: int| 0 <= p < front.len() && front[p] == flip(front_list[x]);
                assert(m[p] == flip(s[x]));
            } else if e.src == e.dst {
                assert(flip(e) == e);
                assert(m[front.len() as int] == flip(s[x]));
            } else {
                assert(m[front.len() as int + 1] == flip(s[x]));
            }
        }
    }
}

/// Where the entries of a list lie apart, no two entries of the list with
/// its mirrors fill the same slot.
pub proof fn lemma_mirrored_distinct(s: Seq<EdgeEntry>, directed: bool)
    requires
        apart(s, directed),
    ensures
        distinct_slots(mirrored(s, directed)),
    decreases s.len(),
{
    let m = mirrored(s, directed);
    if s.len() > 0 {
        let front_list = s.drop_last();
        let front = mirrored(front_list, directed);
        let e = s.last();
        assert(apart(front_list, directed)) by {
            assert forall|x: int, y: int| 0 <= x < y < front_list.len() implies !same_slot(
                #[trigger] front_list[x],
                #[trigger] front_list[y],
            ) && (!directed ==> !same_slot(front_list[x], flip(front_list[y]))) by {
                assert(front_list[x] == s[x] && front_list[y] == s[y]);
            }
        }
        lemma_mirrored_distinct(front_list, directed);
        lemma_mirrored_holds(front_list, directed);
        assert forall|a: int, b: int| 0 <= a < b < m.len() implies !same_slot(
            #[trigger] m[a],
            #[trigger] m[b],
        ) by {
            if b < front.len() {
                assert(m[a] == front[a] && m[b] == front[b]);
            } else if a < front.len() {
                assert(m[a] == front[a]);
                assert(stems_from(front_list, directed, front[a]));
                let x = choose|x: int|
                    0 <= x < front_list.len() && (#[trigger] front_list[x] == front[a] || (!directed
                        && flip(front_list[x]) == front[a]));
                assert(s[x] == front_list[x]);
                assert(s[s.len() - 1] == e);
                assert(!same_slot(s[x], s[s.len() - 1]));
            } else {
                assert(a == front.len() && b == front.len() + 1);
                assert(e.src != e.dst);
            }
        }
    }
}

impl EdgeFileWriter {
    /// The entries, with their new numbers, of those of the first `k` edges
    /// that are written.
    pub open spec fn written(
        &self,
        g: &Graph,
        nodes: Seq<NodeT>,
        types: Seq<EdgeTypeT>,
        k: int,
    ) -> Seq<EdgeEntry>
        decreases k,
    {
        if k <= 0 {
            Seq::empty()
        } else if self.writes(g, k - 1) {
            self.written(g, nodes, types, k - 1).push(
                renumbered(entries_of(g)[k - 1], nodes, types),
            )
        } else {
            self.written(g, nodes, types, k - 1)
        }
    }

    /// Whether `entry` is, with its new numbers, one of the first `k` edges
    /// and is written.
    pub open spec fn wrote(
        &self,
        g: &Graph,
        nodes: Seq<NodeT>,
        types: Seq<EdgeTypeT>,
        k: int,
        entry: EdgeEntry,
    ) -> bool {
        exists|e: int|
            0 <= e < k && #[trigger] self.writes(g, e) && renumbered(entries_of(g)[e], nodes, types)
                == entry
    }
}

/// Whether `numbers` gives `x` and `y` different numbers, unless they are
/// one.
pub open spec fn tells_apart<T>(numbers: Seq<T>, x: int, y: int) -> bool {
    x == y || numbers[x] != numbers[y]
}

/// Whether the numbers tell the ends and the types of edges `a` and `b`
/// apart.
pub open spec fn keeps_apart(
    g: &Graph,
    nodes: Seq<NodeT>,
    types: Seq<EdgeTypeT>,
    a: int,
    b: int,
) -> bool {
    &&& tells_apart(nodes, g.source(a), g.source(b))
    &&& tells_apart(nodes, g.source(a), g.destination(b))
    &&& tells_apart(nodes, g.destination(a), g.source(b))
    &&& tells_apart(nodes, g.destination(a), g.destination(b))
    &&& g.edge_types matches Some(t) ==> tells_apart(types, t.ids@[a] as int, t.ids@[b] as int)
}

/// Whether `nodes` and `types` give every node that an edge of `g` joins,
/// and every type that an edge of `g` has, a number of its own.
pub open spec fn renumbers(g: &Graph, nodes: Seq<NodeT>, types: Seq<EdgeTypeT>) -> bool {
    &&& nodes.len() == g.nodes_count()
    &&& g.edge_types matches Some(t) ==> types.len() == t.vocabulary.names().len()
    &&& forall|a: int, b: int|
        0 <= a < g.edges_count() && 0 <= b < g.edges_count() ==> #[trigger] keeps_apart(
            g,
            nodes,
            types,
            a,
            b,
        )
}

/// Whether `entry` is an edge of `g` with its new numbers.
pub open spec fn renumbers_edge(
    g: &Graph,
    nodes: Seq<NodeT>,
    types: Seq<EdgeTypeT>,
    entry: EdgeEntry,
) -> bool {
    exists|e: int|
        0 <= e < g.edges_count() && renumbered(#[trigger] entries_of(g)[e], nodes, types) == entry
}

impl Graph {
    /// Two edges that fill the same slot under new numbers fill the same
    /// slot, and the mirror of a renumbered edge is the mirror renumbered.
    proof fn lemma_renumbered_slots(&self, nodes: Seq<NodeT>, types: Seq<EdgeTypeT>, a: int, b: int)
        requires
            self.wf(),
            renumbers(self, nodes, types),
            0 <= a < self.edges_count(),
            0 <= b < self.edges_count(),
        ensures
            same_slot(
                renumbered(entries_of(self)[a], nodes, types),
                renumbered(entries_of(self)[b], nodes, types),
            ) ==> same_slot(entries_of(self)[a], entries_of(self)[b]),
            same_slot(
                renumbered(entries_of(self)[a], nodes, types),
                flip(renumbered(entries_of(self)[b], nodes, types)),
            ) ==> same_slot(entries_of(self)[a], flip(entries_of(self)[b])),
            flip(renumbered(entries_of(self)[a], nodes, types)) == renumbered(
                flip(entries_of(self)[a]),
                nodes,
                types,
            ),
    {
        assert(keeps_apart(self, nodes, types, a, b));
    }

    /// What is written of the first `k` edges is made of edges that are
    /// written, holds each of them, and its entries lie apart.
    proof fn lemma_written(
        &self,
        writer: &EdgeFileWriter,
        nodes: Seq<NodeT>,
        types: Seq<EdgeTypeT>,
        k: int,
    )
        requires
            self.wf(),
            distinct_slots(entries_of(self)),
            writer.writes_directed(self) == self.directed,
            renumbers(self, nodes, types),
            0 <= k <= self.edges_count(),
        ensures
            forall|x: int|
                0 <= x < writer.written(self, nodes, types, k).len() ==> writer.wrote(
                    self,
                    nodes,
                    types,
                    k,
                    #[trigger] writer.written(self, nodes, types, k)[x],
                ),
            forall|e: int|
                0 <= e < k && #[trigger] writer.writes(self, e) ==> writer.written(
                    self,
                    nodes,
                    types,
                    k,
                ).contains(renumbered(entries_of(self)[e], nodes, types)),
            apart(writer.written(self, nodes, types, k), self.directed),
        decreases k,
    {
        let d = entries_of(self);
        let w = writer.written(self, nodes, types, k);
        if k > 0 {
            let front = writer.written(self, nodes, types, k - 1);
            self.lemma_written(writer, nodes, types, k - 1);
            let last = renumbered(d[k - 1], nodes, types);
            assert forall|x: int| 0 <= x < w.len() implies writer.wrote(
                self,
                nodes,
                types,
                k,
                #[trigger] w[x],
            ) by {
                if x < front.len() {
                    assert(w[x] == front[x]);
                    assert(writer.wrote(self, nodes, types, k - 1, front[x]));
                    let e = choose|e: int|
                        0 <= e < k - 1 && #[trigger] writer.writes(self, e) && renumbered(
                            d[e],
                            nodes,
                            types,
                        ) == front[x];
                    assert(0 <= e < k);
                } else {
                    assert(writer.writes(self, k - 1));
                    assert(w[x] == last);
                }
            }
            assert forall|e: int| 0 <= e < k && #[trigger] writer.writes(self, e) implies w.contains(
                renumbered(d[e], nodes, types),
            ) by {
                if e < k - 1 {
                    assert(front.contains(renumbered(d[e], nodes, types)));
                    let x = choose|x: int|
                        0 <= x < front.len() && front[x] == renumbered(d[e], nodes, types);
                    assert(w[x] == front[x]);
                } else {
                    assert(w[w.len() - 1] == last);
                }
            }
            assert forall|x: int, y: int| 0 <= x < y < w.len() implies !same_slot(
                #[trigger] w[x],
                #[trigger] w[y],
            ) && (!self.directed ==> !same_slot(w[x], flip(w[y]))) by {
                if y < front.len() {
                    assert(w[x] == front[x] && w[y] == front[y]);
                } else {
                    assert(w[x] == front[x]);
                    assert(w[y] == last);
                    assert(writer.wrote(self, nodes, types, k - 1, front[x]));
                    let e = choose|e: int|
                        0 <= e < k - 1 && #[trigger] writer.writes(self, e) && renumbered(
                            d[e],
                            nodes,
                            types,
                        ) == front[x];
                    self.lemma_renumbered_slots(nodes, types, e, k - 1);
                    assert(!same_slot(d[e], d[k - 1]));
                    if !self.directed && same_slot(w[x], flip(w[y])) {
                        assert(same_slot(d[e], flip(d[k - 1])));
                        assert(self.source(e) <= self.destination(e));
                        assert(self.source(k - 1) <= self.destination(k - 1));
                        assert(same_slot(d[e], d[k - 1]));
                    }
                }
            }
        }
    }

    /// Every entry of what is written, and every mirror that is added to
    /// it, is an edge of the graph under the new numbers.
    proof fn lemma_written_are_edges(
        &self,
        writer: &EdgeFileWriter,
        nodes: Seq<NodeT>,
        types: Seq<EdgeTypeT>,
        bound: int,
        p: int,
    )
        requires
            self.wf(),
            distinct_slots(entries_of(self)),
            writer.writes_directed(self) == self.directed,
            renumbers(self, nodes, types),
            forall|e: int|
                0 <= e < self.edges_count() ==> (#[trigger] renumbered(
                    entries_of(self)[e],
                    nodes,
                    types,
                )).src < bound && renumbered(entries_of(self)[e], nodes, types).dst < bound,
            0 <= p < mirrored(
                writer.written(self, nodes, types, self.edges_count() as int),
                self.directed,
            ).len(),
        ensures
            renumbers_edge(
                self,
                nodes,
                types,
                mirrored(
                    writer.written(self, nodes, types, self.edges_count() as int),
                    self.directed,
                )[p],
            ),
            mirrored(
                writer.written(self, nodes, types, self.edges_count() as int),
                self.directed,
            )[p].dst < bound,
    {
        let d = entries_of(self);
        let n = self.edges_count() as int;
        let w = writer.written(self, nodes, types, n);
        let m = mirrored(w, self.directed);
        self.lemma_written(writer, nodes, types, n);
        lemma_mirrored_holds(w, self.directed);
        assert(stems_from(w, self.directed, m[p]));
        let x = choose|x: int|
            0 <= x < w.len() && (#[trigger] w[x] == m[p] || (!self.directed && flip(w[x]) == m[p]));
        assert(writer.wrote(self, nodes, types, n, w[x]));
        let e = choose|e: int|
            0 <= e < n && #[trigger] writer.writes(self, e) && renumbered(d[e], nodes, types)
                == w[x];
        assert(renumbered(d[e], nodes, types).src < bound);
        assert(renumbered(d[e], nodes, types).dst < bound);
        if w[x] == m[p] {
            assert(renumbered(d[e], nodes, types) == m[p]);
        } else {
            assert(self.has_mirror(e));
            let mate = choose|mate: int| 0 <= mate < n && self.is_mirror(e, mate);
            assert(d[mate] == flip(d[e]));
            self.lemma_renumbered_slots(nodes, types, e, e);
            assert(renumbered(d[mate], nodes, types) == m[p]);
        }
    }

    /// Every edge of the graph is, under the new numbers, an entry of what
    /// is written or a mirror that is added to it.
    proof fn lemma_edges_are_written(
        &self,
        writer: &EdgeFileWriter,
        nodes: Seq<NodeT>,
        types: Seq<EdgeTypeT>,
        e: int,
    )
        requires
            self.wf(),
            distinct_slots(entries_of(self)),
            writer.writes_directed(self) == self.directed,
            renumbers(self, nodes, types),
            0 <= e < self.edges_count(),
        ensures
            mirrored(
                writer.written(self, nodes, types, self.edges_count() as int),
                self.directed,
            ).contains(renumbered(entries_of(self)[e], nodes, types)),
    {
        let d = entries_of(self);
        let n = self.edges_count() as int;
        let w = writer.written(self, nodes, types, n);
        let m = mirrored(w, self.directed);
        self.lemma_written(writer, nodes, types, n);
        lemma_mirrored_holds(w, self.directed);
        let entry = renumbered(d[e], nodes, types);
        if writer.writes(self, e) {
            assert(w.contains(entry));
            let x = choose|x: int| 0 <= x < w.len() && w[x] == entry;
            assert(m.contains(w[x]));
        } else {
            assert(self.has_mirror(e));
            let mate = choose|mate: int| 0 <= mate < n && self.is_mirror(e, mate);
            assert(d[mate] == flip(d[e]));
            assert(self.source(mate) <= self.destination(mate));
            assert(writer.writes(self, mate));
            let other = renumbered(d[mate], nodes, types);
            assert(w.contains(other));
            let x = choose|x: int| 0 <= x < w.len() && w[x] == other;
            assert(m.contains(flip(w[x])));
            self.lemma_renumbered_slots(nodes, types, mate, mate);
            assert(flip(d[mate]) == d[e]);
            assert(flip(other) == entry);
        }
    }

    /// A list that holds no slot twice, and exactly the edges of the graph
    /// under the new numbers, is as long as the graph has edges.
    proof fn lemma_as_many_edges(&self, nodes: Seq<NodeT>, types: Seq<EdgeTypeT>, kept: Seq<EdgeEntry>)
        requires
            self.wf(),
            distinct_slots(entries_of(self)),
            renumbers(self, nodes, types),
            distinct_slots(kept),
            forall|e: int|
                0 <= e < self.edges_count() ==> kept.contains(
                    renumbered(#[trigger] entries_of(self)[e], nodes, types),
                ),
            forall|r: int|
                0 <= r < kept.len() ==> renumbers_edge(self, nodes, types, #[trigger] kept[r]),
        ensures
            kept.len() == self.edges_count(),
    {
        let d = entries_of(self);
        let n = self.edges_count() as int;
        let renamed = Seq::new(n as nat, |e: int| renumbered(d[e], nodes, types));
        assert(renamed.no_duplicates()) by {
            assert forall|a: int, b: int|
                0 <= a < renamed.len() && 0 <= b < renamed.len() && a != b implies renamed[a]
                != renamed[b] by {
                self.lemma_renumbered_slots(nodes, types, a, b);
                if a < b {
                    assert(!same_slot(d[a], d[b]));
                } else {
                    assert(!same_slot(d[b], d[a]));
                }
            }
        }
        assert(kept.no_duplicates()) by {
            assert forall|a: int, b: int|
                0 <= a < kept.len() && 0 <= b < kept.len() && a != b implies kept[a] != kept[b] by {
                if a < b {
                    assert(!same_slot(kept[a], kept[b]));
                } else {
                    assert(!same_slot(kept[b], kept[a]));
                }
            }
        }
        assert(renamed.to_set() =~= kept.to_set()) by {
            assert forall|entry: EdgeEntry| renamed.to_set().contains(entry) implies kept.to_set().contains(
                entry,
            ) by {
                let e = choose|e: int| 0 <= e < renamed.len() && renamed[e] == entry;
                assert(kept.contains(renumbered(d[e], nodes, types)));
            }
            assert forall|entry: EdgeEntry| kept.to_set().contains(entry) implies renamed.to_set().contains(
                entry,
            ) by {
                let r = choose|r: int| 0 <= r < kept.len() && kept[r] == entry;
                assert(renumbers_edge(self, nodes, types, kept[r]));
                let e = choose|e: int|
                    0 <= e < n && renumbered(#[trigger] d[e], nodes, types) == entry;
                assert(renamed[e] == entry);
            }
        }
        renamed.unique_seq_to_set();
        kept.unique_seq_to_set();
    }

    /// The edges that are written, under new numbers, hold no slot twice
    /// even with their mirrors.
    pub proof fn lemma_written_has_no_repeat(
        &self,
        writer: &EdgeFileWriter,
        nodes: Seq<NodeT>,
        types: Seq<EdgeTypeT>,
    )
        requires
            self.wf(),
            distinct_slots(entries_of(self)),
            writer.writes_directed(self) == self.directed,
            renumbers(self, nodes, types),
        ensures
            distinct_slots(
                mirrored(
                    writer.written(self, nodes, types, self.edges_count() as int),
                    self.directed,
                ),
            ),
            !has_dup(
                mirrored(
                    writer.written(self, nodes, types, self.edges_count() as int),
                    self.directed,
                ),
            ),
    {
        let w = writer.written(self, nodes, types, self.edges_count() as int);
        let m = mirrored(w, self.directed);
        self.lemma_written(writer, nodes, types, self.edges_count() as int);
        lemma_mirrored_distinct(w, self.directed);
        if has_dup(m) {
            let i = choose|i: int| 0 <= i < m.len() && is_dup(m, i);
            let j = choose|j: int| 0 <= j < i && same_slot(#[trigger] m[j], m[i]);
            assert(!same_slot(m[j], m[i]));
        }
    }

    /// Writing and building again gives the same graph, up to the numbers
    /// of the nodes and of the edge types. The graph holds no slot twice,
    /// as every built graph does, and the writer writes it as directed or
    /// undirected as it is. Then the edges that are written, under whatever
    /// new numbers, hold no slot twice even with their mirrors, so that they
    /// can be built from with no repeat allowed; and a graph that is built
    /// from them holds as many edges as the first, and exactly its edges
    /// under the new numbers, each with its weight.
    pub proof fn law_edge_list_round_trip(
        &self,
        writer: &EdgeFileWriter,
        nodes: Seq<NodeT>,
        types: Seq<EdgeTypeT>,
        rebuilt: &Graph,
    )
        requires
            self.wf(),
            distinct_slots(entries_of(self)),
            writer.writes_directed(self) == self.directed,
            renumbers(self, nodes, types),
            rebuilt.wf(),
            rebuilt.directed == self.directed,
            forall|e: int|
                0 <= e < self.edges_count() ==> (#[trigger] renumbered(
                    entries_of(self)[e],
                    nodes,
                    types,
                )).src < rebuilt.nodes_count() && renumbered(entries_of(self)[e], nodes, types).dst
                    < rebuilt.nodes_count(),
            built_from(
                rebuilt,
                writer.written(self, nodes, types, self.edges_count() as int),
            ),
        ensures
            !has_dup(
                mirrored(
                    writer.written(self, nodes, types, self.edges_count() as int),
                    self.directed,
                ),
            ),
            rebuilt.edges_count() == self.edges_count(),
            forall|e: int|
                0 <= e < self.edges_count() ==> entries_of(rebuilt).contains(
                    renumbered(#[trigger] entries_of(self)[e], nodes, types),
                ),
            forall|r: int|
                0 <= r < rebuilt.edges_count() ==> renumbers_edge(
                    self,
                    nodes,
                    types,
                    #[trigger] entries_of(rebuilt)[r],
                ),
    {
        let d = entries_of(self);
        let n = self.edges_count() as int;
        let w = writer.written(self, nodes, types, n);
        let m = mirrored(w, self.directed);
        let radix = rebuilt.radix as int;
        let kept = entries_of(rebuilt);
        self.lemma_written_has_no_repeat(writer, nodes, types);
        lemma_radix_bounds(rebuilt.nodes_count());
        assert forall|p: int| 0 <= p < m.len() implies (#[trigger] m[p]).dst < radix by {
            self.lemma_written_are_edges(writer, nodes, types, rebuilt.nodes_count() as int, p);
        }
        let order = choose|order: Seq<int>| #[trigger]
            is_stable_order(order, keys_of(m, radix)) && kept == first_occurrences(
                rearranged(m, order),
                m.len() as int,
            );
        let s = rearranged(m, order);
        lemma_has_dup_sorted(m, order, radix);
        assert(distinct_slots(s)) by {
            assert forall|a: int, b: int| 0 <= a < b < s.len() implies !same_slot(
                #[trigger] s[a],
                #[trigger] s[b],
            ) by {
                if same_slot(s[a], s[b]) {
                    assert(is_dup(s, b));
                    assert(has_dup(s));
                }
            }
        }
        lemma_nothing_to_clear(s, s.len() as int);
        assert(s.take(s.len() as int) =~= s);
        assert(kept == s);
        assert forall|r: int| 0 <= r < rebuilt.edges_count() implies renumbers_edge(
            self,
            nodes,
            types,
            #[trigger] kept[r],
        ) by {
            assert(kept[r] == m[order[r]]);
            self.lemma_written_are_edges(
                writer,
                nodes,
                types,
                rebuilt.nodes_count() as int,
                order[r],
            );
        }
        assert forall|e: int| 0 <= e < n implies kept.contains(
            renumbered(#[trigger] d[e], nodes, types),
        ) by {
            let entry = renumbered(d[e], nodes, types);
            self.lemma_edges_are_written(writer, nodes, types, e);
            let p = choose|p: int| 0 <= p < m.len() && m[p] == entry;
            assert(occurs(order, p));
            let i = choose|i: int| 0 <= i < order.len() && order[i] == p;
            assert(s[i] == entry);
        }
        self.lemma_as_many_edges(nodes, types, kept);
    }
}

} // verus!
