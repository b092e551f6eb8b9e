//! The state of the stack-driven search that builds a spanning arborescence
//! and labels connected components: a seed opens one component at a time, and
//! workers grow it from shared stacks of nodes whose edges wait to be walked.

use vstd::prelude::*;
use crate::graph::Graph;
use crate::partition::{label_count, lemma_count_bound, lemma_count_update};
use crate::random::xorshift;
use crate::types::{EdgeT, NodeT, NOT_PRESENT};

verus! {

/// The search while it runs.
///
/// `parents[x]` is the node from which `x` was reached, `x` itself for the
/// root of a component, or `NOT_PRESENT` while `x` is unexplored.
/// `components[x]` numbers the component of an explored node, `roots[c]` is
/// the root of component `c`, `stacks` hold the explored nodes whose edges
/// have not been walked yet, `cursor` is the next node the seed looks at,
/// `growing` is the component whose nodes wait on the stacks,
/// `active_nodes` counts the nodes on the stacks and `inserted_edges` the
/// nodes that were reached over an edge. `level` records, for the proofs
/// only, how many edges lie between an explored node and its root.
pub struct Search {
    pub parents: Vec<NodeT>,
    pub components: Vec<NodeT>,
    pub roots: Vec<NodeT>,
    pub stacks: Vec<Vec<NodeT>>,
    pub cursor: NodeT,
    pub growing: NodeT,
    pub active_nodes: u64,
    pub inserted_edges: NodeT,
    pub level: Ghost<Seq<nat>>,
}

/// The number of nodes on all the stacks together.
pub open spec fn total_len(stacks: Seq<Vec<NodeT>>) -> nat
    decreases stacks.len(),
{
    if stacks.len() == 0 {
        0
    } else {
        total_len(stacks.drop_last()) + stacks.last()@.len()
    }
}

/// The parents of all nodes as labels, for counting.
pub open spec fn parent_labels(parents: Seq<NodeT>) -> Seq<int> {
    Seq::new(parents.len(), |i: int| parents[i] as int)
}

impl Search {
    /// Whether node `x` has been explored.
    pub open spec fn explored(&self, x: int) -> bool {
        self.parents@[x] != NOT_PRESENT
    }

    /// Whether node `x` waits on a stack.
    pub open spec fn on_stack(&self, x: int) -> bool {
        exists|i: int, j: int|
            0 <= i < self.stacks@.len() && 0 <= j < self.stacks@[i]@.len()
                && #[trigger] self.stacks@[i]@[j] == x
    }

    /// The number of unexplored nodes.
    pub open spec fn unexplored(&self) -> nat {
        label_count(parent_labels(self.parents@), NOT_PRESENT as int)
    }

    /// Whether the edges of `x` have been walked: every node they lead to is
    /// explored and lies in the component of `x`.
    pub open spec fn closed(&self, g: &Graph, x: int) -> bool {
        forall|e: int|
            g.lower(x) <= e < g.upper(x) ==> self.explored(#[trigger] g.destination(e))
                && self.components@[g.destination(e)] == self.components@[x]
    }

    /// The shape of the state: lengths agree, every number is in range and
    /// the counters count; `busy` is the number of nodes taken off a stack
    /// whose edges are being walked.
    pub open spec fn shaped(&self, g: &Graph, busy: int) -> bool {
        &&& self.parents@.len() == g.nodes_count()
        &&& self.components@.len() == g.nodes_count()
        &&& self.stacks@.len() >= 1
        &&& self.cursor <= g.nodes_count()
        &&& self.roots@.len() <= self.cursor
        &&& self.active_nodes == total_len(self.stacks@) + busy
        &&& total_len(self.stacks@) + busy + self.unexplored() <= g.nodes_count()
        &&& self.inserted_edges + self.roots@.len() + self.unexplored() == g.nodes_count()
        &&& forall|x: int|
            0 <= x < self.parents@.len() && self.explored(x) ==> #[trigger] self.parents@[x]
                < g.nodes_count()
        &&& forall|x: int|
            0 <= x < self.parents@.len() ==> (self.explored(x) <==> #[trigger] self.components@[x]
                != NOT_PRESENT)
        &&& forall|x: int|
            0 <= x < self.parents@.len() && self.explored(x) ==> #[trigger] self.components@[x]
                < self.roots@.len()
        &&& forall|x: int| 0 <= x < self.cursor ==> self.explored(x)
        &&& forall|i: int, j: int|
            0 <= i < self.stacks@.len() && 0 <= j < self.stacks@[i]@.len() ==> (
            #[trigger] self.stacks@[i]@[j]) < g.nodes_count() && self.explored(
                self.stacks@[i]@[j] as int,
            )
    }

    /// The tree: a root is its own parent and the first node of its
    /// component, any other explored node hangs on an edge from its parent,
    /// which lies in the same component.
    pub open spec fn rooted(&self, g: &Graph) -> bool {
        &&& forall|c: int|
            0 <= c < self.roots@.len() ==> (#[trigger] self.roots@[c]) < self.cursor
                && self.parents@[self.roots@[c] as int] == self.roots@[c]
                && self.components@[self.roots@[c] as int] == c
        &&& forall|x: int|
            0 <= x < self.parents@.len() && self.explored(x) && #[trigger] self.parents@[x] == x
                ==> self.roots@[self.components@[x] as int] == x
        &&& forall|x: int|
            0 <= x < self.parents@.len() && self.explored(x) && #[trigger] self.parents@[x] != x
                ==> g.has_edge_between(self.parents@[x] as int, x) && self.components@[self.parents@[x] as int]
                == self.components@[x]
        &&& forall|x: int|
            0 <= x < self.parents@.len() && self.explored(x) ==> self.roots@[
                #[trigger] self.components@[x] as int] <= x
        &&& forall|c: int, d: int|
            0 <= c < d < self.roots@.len() ==> #[trigger] self.roots@[c] < #[trigger] self.roots@[d]
        &&& self.level@.len() == self.parents@.len()
        &&& forall|x: int|
            0 <= x < self.parents@.len() && self.explored(x) && #[trigger] self.parents@[x] != x
                ==> self.level@[self.parents@[x] as int] < self.level@[x]
        &&& forall|x: int|
            0 <= x < self.parents@.len() && self.explored(x) ==> g.class_of(x) == g.class_of(
                self.roots@[#[trigger] self.components@[x] as int] as int,
            )
    }

    /// The frontier: a node on a stack lies in the growing component, and an
    /// explored node that is on no stack, and is not `busy`, is closed.
    pub open spec fn fenced(&self, g: &Graph, busy: int) -> bool {
        &&& forall|i: int, j: int|
            0 <= i < self.stacks@.len() && 0 <= j < self.stacks@[i]@.len()
                ==> self.components@[(#[trigger] self.stacks@[i]@[j]) as int]
                == self.growing
        &&& forall|x: int|
            0 <= x < self.parents@.len() && self.explored(x) && !self.on_stack(x) && x != busy
                ==> #[trigger] self.closed(g, x)
    }

    /// The invariant of the search between two steps.
    pub open spec fn inv(&self, g: &Graph) -> bool {
        &&& self.shaped(g, 0)
        &&& self.rooted(g)
        &&& self.fenced(g, -1)
    }

    /// Whether the search is over: the seed has seen every node and no node
    /// waits on a stack.
    pub open spec fn finished(&self, g: &Graph) -> bool {
        self.cursor == g.nodes_count() && self.active_nodes == 0
    }

    /// The steps that the search may still take.
    pub open spec fn steps_left(&self, g: &Graph) -> int {
        (g.nodes_count() - self.cursor) + self.unexplored() + total_len(self.stacks@)
    }
}

} // verus!

verus! {

/// Replacing one stack changes the total by the difference of the lengths.
proof fn lemma_total_update(stacks: Seq<Vec<NodeT>>, i: int, replaced: Vec<NodeT>)
    requires
        0 <= i < stacks.len(),
    ensures
        total_len(stacks.update(i, replaced)) + stacks[i]@.len() == total_len(stacks)
            + replaced@.len(),
    decreases stacks.len(),
{
    let updated = stacks.update(i, replaced);
    if i == stacks.len() - 1 {
        assert(updated.drop_last() =~= stacks.drop_last());
    } else {
        assert(updated.drop_last() =~= stacks.drop_last().update(i, replaced));
        lemma_total_update(stacks.drop_last(), i, replaced);
    }
}

/// The stacks hold no node exactly when each of them is empty.
proof fn lemma_total_zero(stacks: Seq<Vec<NodeT>>)
    ensures
        total_len(stacks) == 0 <==> forall|i: int| 0 <= i < stacks.len() ==> stacks[i]@.len() == 0,
    decreases stacks.len(),
{
    if stacks.len() > 0 {
        lemma_total_zero(stacks.drop_last());
        if total_len(stacks) == 0 {
            assert forall|i: int| 0 <= i < stacks.len() implies stacks[i]@.len() == 0 by {
                if i < stacks.len() - 1 {
                    assert(stacks.drop_last()[i]@.len() == 0);
                }
            }
        }
        if forall|i: int| 0 <= i < stacks.len() ==> stacks[i]@.len() == 0 {
            assert forall|i: int| 0 <= i < stacks.drop_last().len() implies stacks.drop_last()[i]@.len()
                == 0 by {
                assert(stacks[i]@.len() == 0);
            }
            assert(stacks[stacks.len() - 1]@.len() == 0);
        }
    }
}

/// Marking a node explored lowers the number of unexplored nodes by one.
proof fn lemma_explore_one(parents: Seq<NodeT>, x: int, parent: NodeT)
    requires
        0 <= x < parents.len(),
        parents[x] == NOT_PRESENT,
        parent != NOT_PRESENT,
    ensures
        label_count(parent_labels(parents.update(x, parent)), NOT_PRESENT as int) + 1
            == label_count(parent_labels(parents), NOT_PRESENT as int),
{
    assert(parent_labels(parents.update(x, parent)) =~= parent_labels(parents).update(
        x,
        parent as int,
    ));
    lemma_count_update(parent_labels(parents), x, parent as int, NOT_PRESENT as int);
}

/// Where every node is unexplored, the unexplored nodes are all the nodes.
proof fn lemma_all_unexplored(parents: Seq<NodeT>)
    requires
        forall|i: int| 0 <= i < parents.len() ==> parents[i] == NOT_PRESENT,
    ensures
        label_count(parent_labels(parents), NOT_PRESENT as int) == parents.len(),
    decreases parents.len(),
{
    if parents.len() > 0 {
        assert(parent_labels(parents).drop_last() =~= parent_labels(parents.drop_last()));
        lemma_all_unexplored(parents.drop_last());
    }
}

/// Pushes `node` on stack `i`.
fn push_on(stacks: &mut Vec<Vec<NodeT>>, i: usize, node: NodeT)
    requires
        i < old(stacks)@.len(),
    ensures
        final(stacks)@.len() == old(stacks)@.len(),
        final(stacks)@[i as int]@ == old(stacks)@[i as int]@.push(node),
        forall|k: int|
            0 <= k < old(stacks)@.len() && k != i ==> final(stacks)@[k] == old(stacks)@[k],
        total_len(final(stacks)@) == total_len(old(stacks)@) + 1,
{
    stacks[i].push(node);
    proof {
        assert(stacks@ =~= old(stacks)@.update(i as int, stacks@[i as int]));
        lemma_total_update(old(stacks)@, i as int, stacks@[i as int]);
    }
}

/// Pops the top of stack `i`, which holds a node.
fn pop_from(stacks: &mut Vec<Vec<NodeT>>, i: usize) -> (node: NodeT)
    requires
        i < old(stacks)@.len(),
        old(stacks)@[i as int]@.len() > 0,
    ensures
        final(stacks)@.len() == old(stacks)@.len(),
        node == old(stacks)@[i as int]@.last(),
        final(stacks)@[i as int]@ == old(stacks)@[i as int]@.drop_last(),
        forall|k: int|
            0 <= k < old(stacks)@.len() && k != i ==> final(stacks)@[k] == old(stacks)@[k],
        total_len(final(stacks)@) + 1 == total_len(old(stacks)@),
{
    let node = stacks[i].pop().unwrap();
    proof {
        assert(stacks@ =~= old(stacks)@.update(i as int, stacks@[i as int]));
        lemma_total_update(old(stacks)@, i as int, stacks@[i as int]);
    }
    node
}

/// A vector of `len` copies of `NOT_PRESENT`.
fn all_unexplored(len: usize) -> (v: Vec<NodeT>)
    ensures
        v@.len() == len,
        forall|i: int| 0 <= i < len ==> v@[i] == NOT_PRESENT,
{
    let mut v: Vec<NodeT> = Vec::new();
    let mut i: usize = 0;
    while i < len
        invariant
            i <= len,
            v@.len() == i,
            forall|j: int| 0 <= j < i ==> v@[j] == NOT_PRESENT,
        decreases len - i,
    {
        v.push(NOT_PRESENT);
        i += 1;
    }
    v
}

impl Search {
    /// What the frontier says depends on the parents, the components, the
    /// roots and the stacks alone.
    pub proof fn lemma_same_frontier(&self, other: &Search, g: &Graph, busy: int)
        requires
            self.fenced(g, busy),
            self.parents@ == other.parents@,
            self.components@ == other.components@,
            self.roots@ == other.roots@,
            self.stacks@ == other.stacks@,
            self.growing == other.growing,
        ensures
            other.fenced(g, busy),
    {
        assert forall|x: int|
            0 <= x < other.parents@.len() && other.explored(x) && !other.on_stack(x) && x
                != busy implies #[trigger] other.closed(g, x) by {
            if self.on_stack(x) {
                let (i, j) = choose|i: int, j: int|
                    0 <= i < self.stacks@.len() && 0 <= j < self.stacks@[i]@.len()
                        && #[trigger] self.stacks@[i]@[j] == x;
                assert(other.stacks@[i]@[j] == x);
            }
            assert(self.closed(g, x));
        }
    }

    /// Whether this is the state before the first step: every node
    /// unexplored, no root, empty stacks and nothing counted.
    pub open spec fn is_start(&self, g: &Graph) -> bool {
        &&& self.cursor == 0
        &&& self.roots@.len() == 0
        &&& self.inserted_edges == 0
        &&& self.growing == 0
        &&& self.active_nodes == 0
        &&& self.stacks@.len() >= 1
        &&& self.parents@.len() == g.nodes_count()
        &&& self.components@.len() == g.nodes_count()
        &&& forall|x: int| 0 <= x < g.nodes_count() ==> #[trigger] self.parents@[x] == NOT_PRESENT
        &&& forall|x: int|
            0 <= x < g.nodes_count() ==> #[trigger] self.components@[x] == NOT_PRESENT
        &&& forall|k: int| 0 <= k < self.stacks@.len() ==> (#[trigger] self.stacks@[k])@.len() == 0
    }

    /// The state before the first step: every node unexplored, `stacks_number`
    /// empty stacks, and one stack where none is asked for.
    pub fn new(g: &Graph, stacks_number: usize) -> (s: Search)
        requires
            g.wf(),
        ensures
            s.inv(g),
            s.is_start(g),
            s.cursor == 0,
            s.roots@.len() == 0,
            s.inserted_edges == 0,
            s.stacks@.len() == (if stacks_number == 0 {
                1
            } else {
                stacks_number as int
            }),
            forall|x: int| 0 <= x < g.nodes_count() ==> !s.explored(x),
            s.parents@.len() == g.nodes_count(),
            s.components@.len() == g.nodes_count(),
            forall|x: int| 0 <= x < g.nodes_count() ==> #[trigger] s.components@[x] == NOT_PRESENT,
            forall|k: int| 0 <= k < s.stacks@.len() ==> (#[trigger] s.stacks@[k])@.len() == 0,
            s.growing == 0,
            s.active_nodes == 0,
    {
        let n = g.get_nodes_number() as usize;
        let mut stacks: Vec<Vec<NodeT>> = Vec::new();
        stacks.push(Vec::new());
        let mut i: usize = 1;
        while i < stacks_number
            invariant
                1 <= i,
                i <= stacks_number || stacks_number == 0,
                stacks_number == 0 ==> i == 1,
                stacks@.len() == i,
                forall|k: int| 0 <= k < i ==> stacks@[k]@.len() == 0,
            decreases stacks_number - i,
        {
            stacks.push(Vec::new());
            i += 1;
        }
        proof {
            lemma_total_zero(stacks@);
        }
        let parents = all_unexplored(n);
        proof {
            lemma_all_unexplored(parents@);
        }
        Search {
            parents,
            components: all_unexplored(n),
            roots: Vec::new(),
            stacks,
            cursor: 0,
            growing: 0,
            active_nodes: 0,
            inserted_edges: 0,
            level: Ghost(Seq::new(n as nat, |i: int| 0nat)),
        }
    }

    /// Whether `later` is this state after the seed has moved past the node
    /// at the cursor. An explored node is only passed. Any other node becomes
    /// its own parent and the root of a new component, numbered by the count
    /// of the roots so far; where an edge leaves it, it is also put on the
    /// first stack as the one waiting node.
    pub open spec fn seeded(&self, g: &Graph, later: &Search) -> bool {
        let src = self.cursor;
        let component = self.roots@.len() as NodeT;
        &&& later.cursor == src + 1
        &&& later.inserted_edges == self.inserted_edges
        &&& later.stacks@.len() == self.stacks@.len()
        &&& if self.explored(src as int) {
            &&& later.parents@ == self.parents@
            &&& later.components@ == self.components@
            &&& later.roots@ == self.roots@
            &&& later.stacks@ == self.stacks@
            &&& later.growing == self.growing
            &&& later.active_nodes == self.active_nodes
        } else {
            &&& later.parents@ == self.parents@.update(src as int, src)
            &&& later.components@ == self.components@.update(src as int, component)
            &&& later.roots@ == self.roots@.push(src)
            &&& if g.degree(src as int) == 0 {
                &&& later.stacks@ == self.stacks@
                &&& later.growing == self.growing
                &&& later.active_nodes == self.active_nodes
            } else {
                &&& later.growing == component
                &&& later.active_nodes == 1
                &&& later.stacks@[0]@ == seq![src]
                &&& forall|i: int|
                    0 < i < self.stacks@.len() ==> (#[trigger] later.stacks@[i])@.len() == 0
            }
        }
    }

    /// One step of the seed. It passes the node at the cursor if that node is
    /// explored; makes it a component of its own if no edge leaves it; and
    /// otherwise, once no node waits on a stack, opens a new component with
    /// it as root and puts it on the first stack. Returns whether the cursor
    /// moved: it stays while nodes wait, and at the end.
    pub fn seed_step(&mut self, g: &Graph) -> (moved: bool)
        requires
            g.wf(),
            old(self).inv(g),
        ensures
            final(self).inv(g),
            final(self).stacks@.len() == old(self).stacks@.len(),
            moved ==> final(self).steps_left(g) < old(self).steps_left(g),
            moved ==> final(self).cursor == old(self).cursor + 1,
            !moved ==> *final(self) == *old(self),
            moved <==> old(self).cursor < g.nodes_count() && (old(self).explored(
                old(self).cursor as int,
            ) || g.degree(old(self).cursor as int) == 0 || old(self).active_nodes == 0),
            moved ==> old(self).seeded(g, final(self)),
    {
        let n = g.get_nodes_number();
        if self.cursor >= n {
            return false;
        }
        let src = self.cursor;
        if self.parents[src as usize] != NOT_PRESENT {
            self.cursor = src + 1;
            proof {
                old(self).lemma_same_frontier(self, g, -1);
                assert(self.stacks@ =~= old(self).stacks@);
            }
            return true;
        }
        let single = g.is_node_trap(src);
        if !single && self.active_nodes != 0 {
            return false;
        }
        let component: NodeT = self.roots.len() as NodeT;
        proof {
            lemma_explore_one(self.parents@, src as int, src);
            lemma_total_zero(self.stacks@);
        }
        self.parents.set(src as usize, src);
        self.components.set(src as usize, component);
        self.roots.push(src);
        self.cursor = src + 1;
        if !single {
            self.growing = component;
            push_on(&mut self.stacks, 0, src);
            self.active_nodes = self.active_nodes + 1;
            proof {
                assert(self.stacks@[0]@[0] == src);
                assert(self.on_stack(src as int));
                assert(self.stacks@[0]@ =~= seq![src]);
            }
        }
        proof {
            let before = *old(self);
            assert(self.parents@ =~= before.parents@.update(src as int, src));
            assert(self.components@ =~= before.components@.update(src as int, component));
            if single {
                assert(self.stacks@ =~= before.stacks@);
            }
            assert forall|x: int|
                0 <= x < self.parents@.len() && self.explored(x) && !self.on_stack(x) && x
                    != -1 implies #[trigger] self.closed(g, x) by {
                if x != src {
                    assert(before.explored(x));
                    if before.on_stack(x) {
                        let (i, j) = choose|i: int, j: int|
                            0 <= i < before.stacks@.len() && 0 <= j < before.stacks@[i]@.len()
                                && #[trigger] before.stacks@[i]@[j] == x;
                        assert(before.stacks@[i]@.len() == 0);
                    }
                    assert(before.closed(g, x));
                    g.lemma_ranges(x);
                    assert forall|e: int| g.lower(x) <= e < g.upper(x) implies self.explored(
                        #[trigger] g.destination(e),
                    ) && self.components@[g.destination(e)] == self.components@[x] by {
                        assert(0 <= g.destination(e) < g.nodes_count()) by {
                            crate::encoding::lemma_encode_decode(
                                g.edges@[e] as int,
                                g.radix as int,
                            );
                        }
                        assert(before.explored(g.destination(e)));
                    }
                }
            }
        }
        true
    }
}

} // verus!

verus! {

/// The place of stack `i` in the round over `count` stacks that starts at
/// stack `start`.
pub open spec fn turn(i: int, start: int, count: int) -> int {
    if i >= start {
        i - start
    } else {
        i + count - start
    }
}

/// Those of `nodes`, in their order, that go on stack `i` of `count`: the
/// nodes whose hash leaves the rest `i`.
pub open spec fn bound_for(nodes: Seq<NodeT>, i: int, count: int) -> Seq<NodeT>
    decreases nodes.len(),
{
    if nodes.len() == 0 {
        Seq::empty()
    } else if crate::random::xorshift_spec(nodes.last() as u64) as int % count == i {
        bound_for(nodes.drop_last(), i, count).push(nodes.last())
    } else {
        bound_for(nodes.drop_last(), i, count)
    }
}

impl Search {
    /// Whether a worker that starts its round at stack `worker` takes its
    /// node from stack `i`: the first stack of the round that holds a node.
    pub open spec fn takes_from(&self, worker: int, i: int) -> bool {
        let count = self.stacks@.len() as int;
        &&& 0 <= i < count
        &&& self.stacks@[i]@.len() > 0
        &&& forall|j: int|
            0 <= j < count && turn(j, worker % count, count) < turn(i, worker % count, count) ==> (
            #[trigger] self.stacks@[j])@.len() == 0
    }

    /// The nodes that are reached over the first `k` edges of `s`: the
    /// destinations that were unexplored, each once, in edge order.
    pub open spec fn arrivals(&self, g: &Graph, s: int, k: int) -> Seq<NodeT>
        decreases k,
    {
        if k <= 0 {
            Seq::empty()
        } else {
            let before = self.arrivals(g, s, k - 1);
            let d = g.destination(g.lower(s) + k - 1) as NodeT;
            if !self.explored(d as int) && !before.contains(d) {
                before.push(d)
            } else {
                before
            }
        }
    }

    /// Whether `later` is this state after the first `k` edges of `s` have
    /// been walked, `s` having been taken from stack `from`: every node that
    /// was reached has `s` as its parent, lies in the component of `s` and
    /// waits on the stack that its hash picks, and the counters have grown
    /// by the number of such nodes.
    pub open spec fn walked(&self, g: &Graph, from: int, k: int, later: &Search) -> bool {
        let s = self.stacks@[from]@.last();
        let reached = self.arrivals(g, s as int, k);
        let count = self.stacks@.len() as int;
        &&& later.cursor == self.cursor
        &&& later.roots@ == self.roots@
        &&& later.growing == self.growing
        &&& later.parents@.len() == self.parents@.len()
        &&& later.components@.len() == self.components@.len()
        &&& forall|d: int|
            0 <= d < self.parents@.len() ==> #[trigger] later.parents@[d] == (if reached.contains(
                d as NodeT,
            ) {
                s
            } else {
                self.parents@[d]
            })
        &&& forall|d: int|
            0 <= d < self.components@.len() ==> #[trigger] later.components@[d] == (
            if reached.contains(d as NodeT) {
                self.components@[s as int]
            } else {
                self.components@[d]
            })
        &&& later.inserted_edges == self.inserted_edges + reached.len()
        &&& later.active_nodes == self.active_nodes + reached.len()
        &&& later.stacks@.len() == count
        &&& forall|i: int|
            0 <= i < count ==> (#[trigger] later.stacks@[i])@ == (if i == from {
                self.stacks@[i]@.drop_last()
            } else {
                self.stacks@[i]@
            }) + bound_for(reached, i, count)
    }

    /// Whether `later` is this state after one step of a worker that starts
    /// its round at `worker`: it has taken the top of the first stack of its
    /// round that holds a node, has walked all the edges of that node, and
    /// has then counted the node off.
    pub open spec fn stepped(&self, g: &Graph, worker: int, later: &Search) -> bool {
        exists|from: int| #[trigger]
            self.takes_from(worker, from) && self.walked(
                g,
                from,
                g.degree(self.stacks@[from]@.last() as int) as int,
                &Search { active_nodes: (later.active_nodes + 1) as u64, ..*later },
            )
    }

    /// The nodes that are reached from `s` are the unexplored nodes that an
    /// edge of `s` leads to.
    pub proof fn lemma_arrivals(&self, g: &Graph, s: int, k: int, d: NodeT)
        requires
            0 <= k,
        ensures
            self.arrivals(g, s, k).contains(d) <==> !self.explored(d as int) && exists|e: int|
                g.lower(s) <= e < g.lower(s) + k && #[trigger] g.destination(e) as NodeT == d,
        decreases k,
    {
        if k > 0 {
            self.lemma_arrivals(g, s, k - 1, d);
            let before = self.arrivals(g, s, k - 1);
            let whole = self.arrivals(g, s, k);
            let last = g.destination(g.lower(s) + k - 1) as NodeT;
            if whole.contains(d) {
                let i = choose|i: int| 0 <= i < whole.len() && whole[i] == d;
                if i < before.len() {
                    assert(before[i] == d);
                    let e = choose|e: int|
                        g.lower(s) <= e < g.lower(s) + k - 1 && #[trigger] g.destination(e) as NodeT
                            == d;
                    assert(g.lower(s) <= e < g.lower(s) + k);
                } else {
                    assert(d == last);
                    assert(g.destination(g.lower(s) + k - 1) as NodeT == d);
                }
            }
            if !self.explored(d as int) && exists|e: int|
                g.lower(s) <= e < g.lower(s) + k && #[trigger] g.destination(e) as NodeT == d {
                let e = choose|e: int|
                    g.lower(s) <= e < g.lower(s) + k && #[trigger] g.destination(e) as NodeT == d;
                if e < g.lower(s) + k - 1 {
                    assert(before.contains(d));
                    let i = choose|i: int| 0 <= i < before.len() && before[i] == d;
                    assert(whole[i] == d);
                } else if before.contains(d) {
                    let i = choose|i: int| 0 <= i < before.len() && before[i] == d;
                    assert(whole[i] == d);
                } else {
                    assert(whole[whole.len() - 1] == d);
                }
            }
        }
    }
}

impl Search {
    /// The state while the edges of `s` are being walked: `s` has left its
    /// stack, and the edges of `s` before `upto` have been walked.
    pub open spec fn walking(&self, g: &Graph, s: int, upto: int) -> bool {
        &&& self.shaped(g, 1)
        &&& self.rooted(g)
        &&& self.fenced(g, s)
        &&& 0 <= s < g.nodes_count()
        &&& self.explored(s)
        &&& self.components@[s] == self.growing
        &&& forall|e: int|
            g.lower(s) <= e < upto ==> self.explored(#[trigger] g.destination(e))
                && self.components@[g.destination(e)] == self.components@[s]
    }

    /// A node that is on a stack stays on it when a node is pushed.
    proof fn lemma_stays_on_stack(&self, later: &Search, i: int, node: NodeT, x: int)
        requires
            0 <= i < self.stacks@.len(),
            later.stacks@.len() == self.stacks@.len(),
            later.stacks@[i]@ == self.stacks@[i]@.push(node),
            forall|k: int| 0 <= k < self.stacks@.len() && k != i ==> later.stacks@[k] == self.stacks@[k],
        ensures
            self.on_stack(x) ==> later.on_stack(x),
            later.on_stack(x) ==> self.on_stack(x) || x == node,
            later.on_stack(node as int),
    {
        if self.on_stack(x) {
            let (a, b) = choose|a: int, b: int|
                0 <= a < self.stacks@.len() && 0 <= b < self.stacks@[a]@.len()
                    && #[trigger] self.stacks@[a]@[b] == x;
            assert(later.stacks@[a]@[b] == x);
        }
        if later.on_stack(x) && x != node {
            let (a, b) = choose|a: int, b: int|
                0 <= a < later.stacks@.len() && 0 <= b < later.stacks@[a]@.len()
                    && #[trigger] later.stacks@[a]@[b] == x;
            assert(self.stacks@[a]@[b] == x);
        }
        assert(later.stacks@[i]@[self.stacks@[i]@.len() as int] == node);
    }

    /// A node other than the one popped that is on no stack after the pop
    /// was on none before it.
    proof fn lemma_off_stack(&self, later: &Search, i: int, x: int)
        requires
            0 <= i < self.stacks@.len(),
            self.stacks@[i]@.len() > 0,
            later.stacks@.len() == self.stacks@.len(),
            later.stacks@[i]@ == self.stacks@[i]@.drop_last(),
            forall|k: int| 0 <= k < self.stacks@.len() && k != i ==> later.stacks@[k] == self.stacks@[k],
            x != self.stacks@[i]@.last(),
        ensures
            self.on_stack(x) <==> later.on_stack(x),
    {
        if self.on_stack(x) {
            let (a, b) = choose|a: int, b: int|
                0 <= a < self.stacks@.len() && 0 <= b < self.stacks@[a]@.len()
                    && #[trigger] self.stacks@[a]@[b] == x;
            assert(later.stacks@[a]@[b] == x);
        }
        if later.on_stack(x) {
            let (a, b) = choose|a: int, b: int|
                0 <= a < later.stacks@.len() && 0 <= b < later.stacks@[a]@.len()
                    && #[trigger] later.stacks@[a]@[b] == x;
            assert(self.stacks@[a]@[b] == x);
        }
    }

    /// Walks edge `edge` of the busy node `s`: an unexplored destination is
    /// reached from `s`, enters its component and goes on the stack that its
    /// hash picks. `start` is the state before the step, in which `s` was
    /// the top of stack `from`.
    fn visit(
        &mut self,
        g: &Graph,
        s: NodeT,
        edge: EdgeT,
        Ghost(start): Ghost<Search>,
        Ghost(from): Ghost<int>,
    )
        requires
            g.wf(),
            !g.directed,
            old(self).walking(g, s as int, edge as int),
            g.lower(s as int) <= edge < g.upper(s as int),
            0 <= from < start.stacks@.len(),
            start.stacks@[from]@.len() > 0,
            start.stacks@[from]@.last() == s,
            start.parents@[s as int] != NOT_PRESENT,
            start.walked(g, from, edge - g.lower(s as int), old(self)),
        ensures
            start.walked(g, from, edge + 1 - g.lower(s as int), final(self)),
            final(self).walking(g, s as int, edge + 1),
            final(self).stacks@.len() == old(self).stacks@.len(),
            final(self).cursor == old(self).cursor,
            final(self).roots@ == old(self).roots@,
            final(self).growing == old(self).growing,
            final(self).unexplored() + total_len(final(self).stacks@) == old(self).unexplored()
                + total_len(old(self).stacks@),
    {
        proof {
            g.lemma_ranges(s as int);
            g.lemma_edge_in_range(edge as int, s as int);
        }
        let d = g.get_destination(edge);
        let ghost before = *self;
        if self.parents[d as usize] == NOT_PRESENT {
            let component = self.components[s as usize];
            let count = self.stacks.len();
            let slot = (xorshift(d as u64) % (count as u64)) as usize;
            proof {
                lemma_explore_one(self.parents@, d as int, s);
            }
            self.parents.set(d as usize, s);
            self.components.set(d as usize, component);
            self.inserted_edges = self.inserted_edges + 1;
            self.active_nodes = self.active_nodes + 1;
            self.level = Ghost(self.level@.update(d as int, self.level@[s as int] + 1));
            push_on(&mut self.stacks, slot, d);
            proof {
                let k = edge - g.lower(s as int);
                let reached = start.arrivals(g, s as int, k);
                let more = start.arrivals(g, s as int, k + 1);
                assert(before.parents@[d as int] == NOT_PRESENT);
                assert(!reached.contains(d));
                assert(!start.explored(d as int));
                assert(more == reached.push(d));
                assert(more.drop_last() =~= reached);
                assert(more.last() == d);
                assert forall|x: NodeT| more.contains(x) <==> reached.contains(x) || x == d by {
                    if more.contains(x) {
                        let i = choose|i: int| 0 <= i < more.len() && more[i] == x;
                        if i < reached.len() {
                            assert(reached[i] == x);
                        }
                    }
                    if reached.contains(x) {
                        let i = choose|i: int| 0 <= i < reached.len() && reached[i] == x;
                        assert(more[i] == x);
                    }
                    if x == d {
                        assert(more[more.len() - 1] == x);
                    }
                }
                assert forall|i: int| 0 <= i < start.stacks@.len() implies (
                #[trigger] self.stacks@[i])@ == (if i == from {
                    start.stacks@[i]@.drop_last()
                } else {
                    start.stacks@[i]@
                }) + bound_for(more, i, start.stacks@.len() as int) by {
                    assert(before.stacks@[i]@ == (if i == from {
                        start.stacks@[i]@.drop_last()
                    } else {
                        start.stacks@[i]@
                    }) + bound_for(reached, i, start.stacks@.len() as int));
                    if i == slot {
                        assert(self.stacks@[i]@ =~= before.stacks@[i]@.push(d));
                    } else {
                        assert(self.stacks@[i] == before.stacks@[i]);
                    }
                }
                assert forall|x: int| 0 <= x < start.parents@.len() implies #[trigger] self.parents@[x]
                    == (if more.contains(x as NodeT) {
                    s
                } else {
                    start.parents@[x]
                }) by {
                    assert(before.parents@[x] == (if reached.contains(x as NodeT) {
                        s
                    } else {
                        start.parents@[x]
                    }));
                }
                assert forall|x: int|
                    0 <= x < start.components@.len() implies #[trigger] self.components@[x] == (
                if more.contains(x as NodeT) {
                    start.components@[s as int]
                } else {
                    start.components@[x]
                }) by {
                    assert(before.components@[x] == (if reached.contains(x as NodeT) {
                        start.components@[s as int]
                    } else {
                        start.components@[x]
                    }));
                    assert(before.components@[s as int] == (if reached.contains(s) {
                        start.components@[s as int]
                    } else {
                        start.components@[s as int]
                    }));
                }
                g.lemma_edge_classes(edge as int);
                assert(g.has_edge_between(s as int, d as int));
                assert forall|x: int| before.on_stack(x) implies self.on_stack(x) by {
                    before.lemma_stays_on_stack(self, slot as int, d, x);
                }
                before.lemma_stays_on_stack(self, slot as int, d, d as int);
                assert forall|x: int|
                    0 <= x < self.parents@.len() && self.explored(x) && !self.on_stack(x) && x
                        != s implies #[trigger] self.closed(g, x) by {
                    before.lemma_stays_on_stack(self, slot as int, d, x);
                    assert(x != d);
                    assert(before.closed(g, x));
                    g.lemma_ranges(x);
                    assert forall|e: int| g.lower(x) <= e < g.upper(x) implies self.explored(
                        #[trigger] g.destination(e),
                    ) && self.components@[g.destination(e)] == self.components@[x] by {
                        assert(0 <= g.destination(e) < g.nodes_count()) by {
                            crate::encoding::lemma_encode_decode(
                                g.edges@[e] as int,
                                g.radix as int,
                            );
                        }
                        assert(before.explored(g.destination(e)));
                    }
                }
                assert forall|i: int, j: int|
                    0 <= i < self.stacks@.len() && 0 <= j < self.stacks@[i]@.len() implies (
                #[trigger] self.stacks@[i]@[j]) < g.nodes_count() && self.explored(
                    self.stacks@[i]@[j] as int,
                ) && self.components@[self.stacks@[i]@[j] as int] == self.growing by {
                    if i == slot && j == before.stacks@[i]@.len() {
                    } else {
                        assert(self.stacks@[i]@[j] == before.stacks@[i]@[j]);
                    }
                }
                assert forall|e: int| g.lower(s as int) <= e < edge + 1 implies self.explored(
                    #[trigger] g.destination(e),
                ) && self.components@[g.destination(e)] == self.components@[s as int] by {
                    assert(0 <= g.destination(e) < g.nodes_count()) by {
                        crate::encoding::lemma_encode_decode(g.edges@[e] as int, g.radix as int);
                    }
                    if e < edge {
                        assert(before.explored(g.destination(e)));
                    }
                }
            }
        } else {
            proof {
                let k = edge - g.lower(s as int);
                let reached = start.arrivals(g, s as int, k);
                assert(self.parents@[d as int] == (if reached.contains(d) {
                    s
                } else {
                    start.parents@[d as int]
                }));
                assert(start.explored(d as int) || reached.contains(d));
                assert(start.arrivals(g, s as int, k + 1) == reached);
                if !self.on_stack(d as int) && d != s {
                    assert(self.closed(g, d as int));
                    assert(g.has_mirror(edge as int));
                    let m = choose|m: int| 0 <= m < g.edges_count() && g.is_mirror(edge as int, m);
                    g.lemma_edge_in_range(m, d as int);
                    assert(g.destination(m) == s);
                } else if d != s {
                    let (i, j) = choose|i: int, j: int|
                        0 <= i < self.stacks@.len() && 0 <= j < self.stacks@[i]@.len()
                            && #[trigger] self.stacks@[i]@[j] == d;
                }
            }
        }
    }

    /// One step of a worker. It looks at the stacks in turn, starting with
    /// the one that `worker` picks, takes a node from the first stack that
    /// holds one and walks all the edges of that node. Returns whether it
    /// found a node.
    pub fn worker_step(&mut self, g: &Graph, worker: usize) -> (worked: bool)
        requires
            g.wf(),
            !g.directed,
            old(self).inv(g),
        ensures
            final(self).inv(g),
            final(self).stacks@.len() == old(self).stacks@.len(),
            final(self).cursor == old(self).cursor,
            final(self).roots@ == old(self).roots@,
            worked <==> old(self).active_nodes > 0,
            worked ==> final(self).steps_left(g) < old(self).steps_left(g),
            worked ==> old(self).stepped(g, worker as int, final(self)),
            !worked ==> *final(self) == *old(self),
    {
        let count = self.stacks.len();
        let start = worker % count;
        let mut found: Option<usize> = None;
        let mut k: usize = 0;
        while k < count && found.is_none()
            invariant
                *self == *old(self),
                count == self.stacks@.len(),
                start < count,
                k <= count,
                found matches Some(i) ==> i < count && self.stacks@[i as int]@.len() > 0 && turn(
                    i as int,
                    start as int,
                    count as int,
                ) == k,
                forall|i: int|
                    start <= i < count && i < start + k ==> self.stacks@[i]@.len() == 0,
                forall|i: int|
                    0 <= i < start && i + count < start + k ==> self.stacks@[i]@.len() == 0,
            decreases count - k + (if found is None { 1int } else { 0int }),
        {
            let slot = if k < count - start {
                start + k
            } else {
                k - (count - start)
            };
            if self.stacks[slot].len() > 0 {
                found = Some(slot);
            } else {
                k += 1;
            }
        }
        proof {
            lemma_total_zero(self.stacks@);
        }
        let slot = match found {
            None => {
                return false;
            },
            Some(slot) => slot,
        };
        let ghost before = *self;
        proof {
            assert(before.takes_from(worker as int, slot as int)) by {
                assert forall|j: int|
                    0 <= j < count && turn(j, start as int, count as int) < turn(
                        slot as int,
                        start as int,
                        count as int,
                    ) implies (#[trigger] before.stacks@[j])@.len() == 0 by {}
            }
        }
        let s = pop_from(&mut self.stacks, slot);
        proof {
            assert(before.explored(s as int));
            assert(before.walked(g, slot as int, 0, self)) by {
                assert forall|i: int| 0 <= i < count implies (#[trigger] self.stacks@[i])@ == (if i
                    == slot {
                    before.stacks@[i]@.drop_last()
                } else {
                    before.stacks@[i]@
                }) + bound_for(before.arrivals(g, s as int, 0), i, count as int) by {
                    assert(self.stacks@[i]@ =~= self.stacks@[i]@ + Seq::<NodeT>::empty());
                }
            }
            assert(before.stacks@[slot as int]@[before.stacks@[slot as int]@.len() - 1] == s);
            assert forall|x: int|
                0 <= x < self.parents@.len() && self.explored(x) && !self.on_stack(x) && x
                    != s implies #[trigger] self.closed(g, x) by {
                before.lemma_off_stack(self, slot as int, x);
                assert(before.closed(g, x));
            }
            assert forall|i: int, j: int|
                0 <= i < self.stacks@.len() && 0 <= j < self.stacks@[i]@.len() implies (
            #[trigger] self.stacks@[i]@[j]) < g.nodes_count() && self.explored(
                self.stacks@[i]@[j] as int,
            ) && self.components@[self.stacks@[i]@[j] as int] == self.growing by {
                assert(self.stacks@[i]@[j] == before.stacks@[i]@[j]);
            }
            g.lemma_ranges(s as int);
        }
        let (low, high) = g.get_destinations_min_max_edge_ids(s);
        let mut edge = low;
        while edge < high
            invariant
                g.wf(),
                !g.directed,
                low == g.lower(s as int),
                high == g.upper(s as int),
                low <= edge <= high,
                self.walking(g, s as int, edge as int),
                self.stacks@.len() == before.stacks@.len(),
                self.cursor == before.cursor,
                self.roots@ == before.roots@,
                self.unexplored() + total_len(self.stacks@) + 1 == before.unexplored() + total_len(
                    before.stacks@,
                ),
                0 <= slot < before.stacks@.len(),
                before.stacks@[slot as int]@.len() > 0,
                before.stacks@[slot as int]@.last() == s,
                before.parents@[s as int] != NOT_PRESENT,
                before.walked(g, slot as int, edge - low, self),
            decreases high - edge,
        {
            self.visit(g, s, edge, Ghost(before), Ghost(slot as int));
            edge += 1;
        }
        let ghost walked = *self;
        self.active_nodes = self.active_nodes - 1;
        proof {
            assert((Search { active_nodes: (self.active_nodes + 1) as u64, ..*self }) == walked);
            assert(before.takes_from(worker as int, slot as int) && before.walked(
                g,
                slot as int,
                g.degree(before.stacks@[slot as int]@.last() as int) as int,
                &Search { active_nodes: (self.active_nodes + 1) as u64, ..*self },
            ));
            walked.lemma_same_frontier(self, g, s as int);
            assert(walked.closed(g, s as int));
            assert(self.closed(g, s as int));
        }
        true
    }
}

} // verus!

verus! {

/// Whether `states` are the states of a run, and `workers` the worker whose
/// turn it is in each: the first worker starts, and from every state but
/// the last the next comes by one turn.
pub open spec fn is_run(g: &Graph, states: Seq<Search>, workers: Seq<int>) -> bool {
    &&& states.len() > 0
    &&& workers.len() == states.len()
    &&& workers[0] == 0
    &&& forall|i: int|
        0 <= i < states.len() - 1 ==> (#[trigger] states[i]).takes_turn(
            g,
            workers[i],
            &states[i + 1],
        ) && workers[i + 1] == states[i].next_worker(workers[i])
}

impl Search {
    /// Whether `after` is this state one turn on: while nodes wait on the
    /// stacks the worker whose turn it is steps, and the seed steps
    /// otherwise.
    pub open spec fn takes_turn(&self, g: &Graph, worker: int, after: &Search) -> bool {
        if self.active_nodes > 0 {
            self.stepped(g, worker, after)
        } else {
            self.seeded(g, after)
        }
    }

    /// The worker whose turn it is after this state: the next one after a
    /// step of a worker, the first after the last.
    pub open spec fn next_worker(&self, worker: int) -> int {
        if self.active_nodes == 0 {
            worker
        } else if worker + 1 < self.stacks@.len() {
            worker + 1
        } else {
            0
        }
    }

    /// Whether a run leads from this state to `after`.
    pub open spec fn runs_to(&self, g: &Graph, after: &Search) -> bool {
        exists|states: Seq<Search>, workers: Seq<int>| #[trigger]
            is_run(g, states, workers) && states[0] == *self && states.last() == *after
    }

    /// Runs the search to its end, seed and workers taking turns: a worker
    /// steps while nodes wait on the stacks, and the seed steps otherwise.
    pub fn run(&mut self, g: &Graph)
        requires
            g.wf(),
            !g.directed,
            old(self).inv(g),
        ensures
            final(self).inv(g),
            final(self).finished(g),
            final(self).stacks@.len() == old(self).stacks@.len(),
            old(self).runs_to(g, final(self)),
    {
        let n = g.get_nodes_number();
        let count = self.stacks.len();
        let mut worker: usize = 0;
        let ghost mut states: Seq<Search> = seq![*self];
        let ghost mut workers: Seq<int> = seq![0int];
        while self.cursor < n || self.active_nodes > 0
            invariant
                g.wf(),
                !g.directed,
                self.inv(g),
                n == g.nodes_count(),
                count == self.stacks@.len(),
                worker < count,
                is_run(g, states, workers),
                states[0] == *old(self),
                states.last() == *self,
                workers.last() == worker,
            decreases self.steps_left(g),
        {
            let ghost before = *self;
            let ghost turn = worker as int;
            if self.active_nodes > 0 {
                self.worker_step(g, worker);
                worker = if worker + 1 < count {
                    worker + 1
                } else {
                    0
                };
            } else {
                self.seed_step(g);
            }
            proof {
                let longer = states.push(*self);
                let turns = workers.push(worker as int);
                assert(before.takes_turn(g, turn, self));
                assert(worker == before.next_worker(turn));
                assert forall|i: int| 0 <= i < longer.len() - 1 implies (#[trigger] longer[i]).takes_turn(
                    g,
                    turns[i],
                    &longer[i + 1],
                ) && turns[i + 1] == longer[i].next_worker(turns[i]) by {
                    if i < states.len() - 1 {
                        assert(longer[i] == states[i] && longer[i + 1] == states[i + 1]);
                        assert(turns[i] == workers[i] && turns[i + 1] == workers[i + 1]);
                        assert(states[i].takes_turn(g, workers[i], &states[i + 1]));
                    } else {
                        assert(longer[i] == before);
                        assert(turns[i] == turn);
                    }
                }
                states = longer;
                workers = turns;
            }
        }
    }

    /// At the end every node is explored.
    pub proof fn lemma_finished_explored(&self, g: &Graph)
        requires
            g.wf(),
            self.inv(g),
            self.finished(g),
        ensures
            forall|x: int| 0 <= x < g.nodes_count() ==> self.explored(x),
            self.unexplored() == 0,
            self.inserted_edges + self.roots@.len() == g.nodes_count(),
    {
        let labels = parent_labels(self.parents@);
        crate::partition::lemma_count_witness(labels, NOT_PRESENT as int);
        if label_count(labels, NOT_PRESENT as int) > 0 {
            let i = choose|i: int| 0 <= i < labels.len() && labels[i] == NOT_PRESENT as int;
            assert(self.explored(i));
        }
    }

    /// At the end the components are closed under the edges: the two ends of
    /// every edge lie in the same component.
    pub proof fn lemma_finished_closed(&self, g: &Graph, e: int)
        requires
            g.wf(),
            self.inv(g),
            self.finished(g),
            0 <= e < g.edges_count(),
        ensures
            self.components@[g.source(e)] == self.components@[g.destination(e)],
    {
        self.lemma_finished_explored(g);
        lemma_total_zero(self.stacks@);
        let x = g.source(e);
        crate::encoding::lemma_encode_decode(g.edges@[e] as int, g.radix as int);
        assert(0 <= x < g.nodes_count());
        if self.on_stack(x) {
            let (i, j) = choose|i: int, j: int|
                0 <= i < self.stacks@.len() && 0 <= j < self.stacks@[i]@.len()
                    && #[trigger] self.stacks@[i]@[j] == x;
            assert(self.stacks@[i]@.len() == 0);
        }
        assert(self.closed(g, x));
        g.lemma_edge_in_range(e, x);
    }
}

} // verus!

verus! {

/// The components of all nodes as labels.
pub open spec fn component_labels(components: Seq<NodeT>) -> Seq<int> {
    Seq::new(components.len(), |i: int| components[i] as int)
}

/// How many of `roots` lie below `k`.
pub open spec fn roots_below(roots: Seq<NodeT>, k: int) -> nat
    decreases roots.len(),
{
    if roots.len() == 0 {
        0
    } else {
        roots_below(roots.drop_last(), k) + if roots.last() < k {
            1nat
        } else {
            0nat
        }
    }
}

/// In an increasing list, raising the bound by one counts one more exactly
/// when the old bound is in the list.
pub proof fn lemma_roots_step(roots: Seq<NodeT>, k: int)
    requires
        forall|c: int, d: int| 0 <= c < d < roots.len() ==> #[trigger] roots[c] < #[trigger] roots[d],
    ensures
        roots_below(roots, k + 1) == roots_below(roots, k) + (if exists|c: int|
            0 <= c < roots.len() && roots[c] == k {
            1nat
        } else {
            0nat
        }),
    decreases roots.len(),
{
    if roots.len() > 0 {
        let front = roots.drop_last();
        assert forall|c: int, d: int| 0 <= c < d < front.len() implies #[trigger] front[c]
            < #[trigger] front[d] by {
            assert(roots[c] < roots[d]);
        }
        lemma_roots_step(front, k);
        let last = roots.len() - 1;
        if exists|c: int| 0 <= c < front.len() && front[c] == k {
            let c = choose|c: int| 0 <= c < front.len() && front[c] == k;
            assert(roots[c] == k);
            assert(roots[c] < roots[last]);
        } else if roots[last] == k {
        } else {
            if exists|c: int| 0 <= c < roots.len() && roots[c] == k {
                let c = choose|c: int| 0 <= c < roots.len() && roots[c] == k;
                assert(front[c] == k);
            }
        }
    }
}

/// Every root below the bound counts.
pub proof fn lemma_roots_count(roots: Seq<NodeT>, k: int)
    requires
        forall|c: int| 0 <= c < roots.len() ==> roots[c] < k,
    ensures
        roots_below(roots, k) == roots.len(),
{
    lemma_roots_all(roots, k);
}

/// Every root below the bound counts.
proof fn lemma_roots_all(roots: Seq<NodeT>, k: int)
    requires
        forall|c: int| 0 <= c < roots.len() ==> roots[c] < k,
    ensures
        roots_below(roots, k) == roots.len(),
    decreases roots.len(),
{
    if roots.len() > 0 {
        let front = roots.drop_last();
        assert forall|c: int| 0 <= c < front.len() implies front[c] < k by {
            assert(roots[c] < k);
        }
        lemma_roots_all(front, k);
        assert(roots[roots.len() - 1] < k);
    }
}

/// No root lies below zero.
pub proof fn lemma_roots_none(roots: Seq<NodeT>)
    ensures
        roots_below(roots, 0) == 0,
    decreases roots.len(),
{
    if roots.len() > 0 {
        lemma_roots_none(roots.drop_last());
    }
}

impl Search {
    /// At the end an explored node is the first of its component exactly
    /// when it is a root, so the first nodes below `k` are the roots below `k`.
    proof fn lemma_firsts_are_roots(&self, g: &Graph, k: int)
        requires
            g.wf(),
            self.inv(g),
            self.finished(g),
            0 <= k <= g.nodes_count(),
        ensures
            crate::classes::firsts(component_labels(self.components@), k) == roots_below(
                self.roots@,
                k,
            ),
        decreases k,
    {
        let labels = component_labels(self.components@);
        if k == 0 {
            lemma_roots_none(self.roots@);
        } else {
            self.lemma_firsts_are_roots(g, k - 1);
            self.lemma_finished_explored(g);
            lemma_roots_step(self.roots@, k - 1);
            let u = k - 1;
            let c = self.components@[u] as int;
            let r = self.roots@[c];
            assert(self.explored(u));
            if crate::classes::is_first(labels, u) {
                if r < u {
                    assert(labels[r as int] != labels[u]);
                }
                assert(self.roots@[c] == u);
            } else {
                if exists|c: int| 0 <= c < self.roots@.len() && self.roots@[c] == u {
                    let found = choose|c: int| 0 <= c < self.roots@.len() && self.roots@[c] == u;
                    assert(self.components@[self.roots@[found] as int] == found);
                    assert forall|v: int| 0 <= v < u implies #[trigger] labels[v] != labels[u] by {
                        if labels[v] == labels[u] {
                            assert(self.explored(v));
                            assert(self.roots@[self.components@[v] as int] <= v);
                        }
                    }
                }
            }
        }
    }

    /// At the end two nodes share a component of the search exactly when
    /// they share a connected component of the graph.
    pub proof fn lemma_components_are_classes(&self, g: &Graph)
        requires
            g.wf(),
            self.inv(g),
            self.finished(g),
        ensures
            forall|u: int, v: int|
                0 <= u < g.nodes_count() && 0 <= v < g.nodes_count() ==> (
                #[trigger] self.components@[u] == #[trigger] self.components@[v] <==> g.class_of(u)
                    == g.class_of(v)),
    {
        let labels = component_labels(self.components@);
        let pairs = g.edge_pairs();
        let n = g.nodes_count();
        g.lemma_pairs_in_range();
        self.lemma_finished_explored(g);
        assert(crate::classes::closed_under(labels, pairs)) by {
            assert forall|i: int| 0 <= i < pairs.len() implies labels[(#[trigger] pairs[i]).0 as int]
                == labels[pairs[i].1 as int] by {
                self.lemma_finished_closed(g, i);
                crate::encoding::lemma_encode_decode(g.edges@[i] as int, g.radix as int);
                assert(g.source(i) < n);
                assert(g.destination(i) < n);
            }
        }
        crate::classes::lemma_classes_refine(n, pairs, labels);
        assert forall|u: int, v: int| 0 <= u < n && 0 <= v < n implies (
        #[trigger] self.components@[u] == #[trigger] self.components@[v] <==> g.class_of(u)
            == g.class_of(v)) by {
            assert(self.explored(u) && self.explored(v));
            if g.class_of(u) == g.class_of(v) {
                assert(labels[u] == labels[v]);
            }
        }
    }

    /// At the end the search has opened as many components as the graph has
    /// connected components, and has reached every other node over an edge.
    pub proof fn lemma_components_count(&self, g: &Graph)
        requires
            g.wf(),
            self.inv(g),
            self.finished(g),
        ensures
            self.roots@.len() == g.classes_count(),
            self.inserted_edges + g.classes_count() == g.nodes_count(),
    {
        let labels = component_labels(self.components@);
        let n = g.nodes_count();
        let classes = crate::partition::final_labels(g.classes());
        g.lemma_pairs_in_range();
        self.lemma_finished_explored(g);
        self.lemma_components_are_classes(g);
        self.lemma_firsts_are_roots(g, n as int);
        lemma_roots_all(self.roots@, n as int);
        assert forall|u: int, v: int| 0 <= u < labels.len() && 0 <= v < labels.len() implies (labels[u]
            == labels[v] <==> classes[u] == classes[v]) by {
            assert(self.components@[u] == self.components@[v] <==> g.class_of(u) == g.class_of(v));
        }
        crate::classes::lemma_firsts_agree(labels, classes, n as int);
        crate::classes::lemma_component_count_is_firsts(g.classes());
    }
}

} // verus!

verus! {

/// In an increasing list as many roots lie below a root as come before it.
proof fn lemma_roots_rank(roots: Seq<NodeT>, c: int)
    requires
        forall|a: int, b: int| 0 <= a < b < roots.len() ==> #[trigger] roots[a] < #[trigger] roots[b],
        0 <= c < roots.len(),
    ensures
        roots_below(roots, roots[c] as int) == c,
    decreases roots.len(),
{
    let front = roots.drop_last();
    let last = roots.len() - 1;
    assert forall|a: int, b: int| 0 <= a < b < front.len() implies #[trigger] front[a]
        < #[trigger] front[b] by {
        assert(roots[a] < roots[b]);
    }
    if c == last {
        assert forall|a: int| 0 <= a < front.len() implies front[a] < roots[c] as int by {
            assert(roots[a] < roots[last]);
        }
        lemma_roots_all(front, roots[c] as int);
    } else {
        assert(roots[c] < roots[last]);
        assert(front[c] == roots[c]);
        lemma_roots_rank(front, c);
    }
}

/// The edges of the tree among the first `k` nodes: for every node but the
/// roots, the node and its parent, in node order.
pub open spec fn tree_edges(parents: Seq<NodeT>, k: int) -> Seq<(NodeT, NodeT)>
    decreases k,
{
    if k <= 0 {
        Seq::empty()
    } else if parents[k - 1] != k - 1 {
        tree_edges(parents, k - 1).push(((k - 1) as NodeT, parents[k - 1]))
    } else {
        tree_edges(parents, k - 1)
    }
}

impl Search {
    /// At the end a node is a root exactly when it is the first node of its
    /// connected component.
    pub proof fn lemma_root_is_first(&self, g: &Graph, u: int)
        requires
            g.wf(),
            self.inv(g),
            self.finished(g),
            0 <= u < g.nodes_count(),
        ensures
            self.parents@[u] == u <==> crate::classes::is_first(component_labels(self.components@), u),
            self.parents@[u] == u <==> exists|c: int| 0 <= c < self.roots@.len() && self.roots@[c] == u,
    {
        let labels = component_labels(self.components@);
        self.lemma_finished_explored(g);
        let c = self.components@[u] as int;
        let r = self.roots@[c];
        assert(self.explored(u));
        if crate::classes::is_first(labels, u) {
            if r < u {
                assert(labels[r as int] != labels[u]);
            }
        }
        if exists|c: int| 0 <= c < self.roots@.len() && self.roots@[c] == u {
            let found = choose|c: int| 0 <= c < self.roots@.len() && self.roots@[c] == u;
            assert(self.components@[self.roots@[found] as int] == found);
        }
        if self.parents@[u] == u {
            assert(self.roots@[c] == u);
            assert forall|v: int| 0 <= v < u implies #[trigger] labels[v] != labels[u] by {
                if labels[v] == labels[u] {
                    assert(self.explored(v));
                    assert(self.roots@[self.components@[v] as int] <= v);
                }
            }
        }
    }

    /// At the end the components are numbered in the order of their first
    /// nodes: the component of a node is the number of first nodes that lie
    /// before the first node of its component.
    pub proof fn lemma_component_numbers(&self, g: &Graph, u: int)
        requires
            g.wf(),
            self.inv(g),
            self.finished(g),
            0 <= u < g.nodes_count(),
        ensures
            crate::classes::is_first(component_labels(self.components@), u) ==> self.components@[u]
                == crate::classes::firsts(component_labels(self.components@), u),
    {
        self.lemma_root_is_first(g, u);
        self.lemma_finished_explored(g);
        if self.parents@[u] == u {
            let c = self.components@[u] as int;
            assert(self.explored(u));
            assert(self.roots@[c] == u);
            lemma_roots_rank(self.roots@, c);
            self.lemma_firsts_are_roots(g, u);
        }
    }

    /// At the end the tree has one edge for every node that is no root.
    pub proof fn lemma_tree_size(&self, g: &Graph, k: int)
        requires
            g.wf(),
            self.inv(g),
            self.finished(g),
            0 <= k <= g.nodes_count(),
        ensures
            tree_edges(self.parents@, k).len() + roots_below(self.roots@, k) == k,
        decreases k,
    {
        if k == 0 {
            lemma_roots_none(self.roots@);
        } else {
            self.lemma_tree_size(g, k - 1);
            self.lemma_root_is_first(g, k - 1);
            lemma_roots_step(self.roots@, k - 1);
        }
    }
}

} // verus!
