//! Reading the lines of an edge list that was written: the names are
//! numbered as they come, and the edges that are read are the edges that
//! were written, under those numbers.

use vstd::prelude::*;
use vstd::seq_lib::seq_to_set_is_finite;
use vstd::set_lib::lemma_len_subset;
use crate::builder::{build_failure, distinct_slots, entries_of};
use crate::constructors::{edge_part, edges_outcome, node_part, string_built, string_failure, BuildOptions};
use crate::edge_file_writer::{composed, places_fit, EdgeFileWriter};
use crate::graph::Graph;
use crate::records::{edge_lines, edge_step, edges_after, edges_typed, edges_weighted, type_outcome, EdgeLine, EdgeList, EdgeRecord};
use crate::round_trip::{keeps_apart, renumbered, renumbers, renumbers_edge};
use crate::text::lemma_decimal_digits;
use crate::types::{EdgeTypeT, NodeT};
use crate::vocabulary::Names;

verus! {

/// Whether the names are numbered as they came: the name at place `i` has
/// the number `i`, and no other name is known.
pub open spec fn numbered_as_they_came(v: Names) -> bool {
    &&& !v.numeric_ids
    &&& v.ids.len() == v.names.len()
    &&& forall|i: int|
        0 <= i < v.names.len() ==> v.map.contains_key(#[trigger] v.names[i]) && v.map[v.names[i]]
            == i && v.ids[i] == i
    &&& forall|x: Seq<char>| #[trigger] v.map.contains_key(x) ==> v.names.contains(x)
}

/// A list without repeats whose items all come from another list is no
/// longer than that list, and shorter where that list has one item more.
pub proof fn lemma_room(names: Seq<Seq<char>>, all: Seq<Seq<char>>, x: Seq<char>)
    requires
        names.no_duplicates(),
        forall|i: int| 0 <= i < names.len() ==> all.contains(#[trigger] names[i]),
    ensures
        names.len() <= all.len(),
        all.contains(x) && !names.contains(x) ==> names.len() < all.len(),
{
    broadcast use vstd::set::group_set_axioms;
    broadcast use seq_to_set_is_finite;

    names.unique_seq_to_set();
    all.lemma_cardinality_of_set();
    assert(names.to_set().subset_of(all.to_set())) by {
        assert forall|y: Seq<char>| names.to_set().contains(y) implies all.to_set().contains(y) by {
            let i = choose|i: int| 0 <= i < names.len() && names[i] == y;
            assert(all.contains(names[i]));
        }
    }
    lemma_len_subset(names.to_set(), all.to_set());
    if all.contains(x) && !names.contains(x) {
        let rest = all.to_set().remove(x);
        assert(names.to_set().subset_of(rest)) by {
            assert forall|y: Seq<char>| names.to_set().contains(y) implies rest.contains(y) by {
                let i = choose|i: int| 0 <= i < names.len() && names[i] == y;
                assert(all.contains(names[i]));
            }
        }
        lemma_len_subset(names.to_set(), rest);
        assert(all.to_set().contains(x));
        assert(all.to_set().len() == rest.len() + 1);
    }
}

/// Inserting a name among names that are numbered as they came, where all
/// the names come from a list `all` that is short enough: the name keeps
/// its number or gets the next one, every other name keeps its number, and
/// the names are still numbered as they came and still come from `all`.
pub proof fn lemma_insert_name(v: Names, x: Seq<char>, all: Seq<Seq<char>>)
    requires
        numbered_as_they_came(v),
        x.len() > 0,
        all.len() <= NodeT::MAX,
        all.contains(x),
        forall|i: int| 0 <= i < v.names.len() ==> all.contains(#[trigger] v.names[i]),
    ensures
        v.insert_outcome(x) is Ok,
        v.insert_outcome(x)->Ok_0 < all.len(),
        numbered_as_they_came(v.inserted(x)),
        v.inserted(x).map.contains_key(x),
        v.inserted(x).map[x] == v.insert_outcome(x)->Ok_0,
        forall|y: Seq<char>| #[trigger]
            v.map.contains_key(y) ==> v.inserted(x).map.contains_key(y) && v.inserted(x).map[y]
                == v.map[y],
        forall|i: int|
            0 <= i < v.inserted(x).names.len() ==> all.contains(#[trigger] v.inserted(x).names[i]),
{
    assert(v.names.no_duplicates()) by {
        assert forall|i: int, j: int|
            0 <= i < v.names.len() && 0 <= j < v.names.len() && i != j implies v.names[i]
            != v.names[j] by {
            assert(v.map[v.names[i]] == i && v.map[v.names[j]] == j);
        }
    }
    lemma_room(v.names, all, x);
    let w = v.inserted(x);
    if v.map.contains_key(x) {
        assert(v.names.contains(x));
        let i = choose|i: int| 0 <= i < v.names.len() && v.names[i] == x;
        assert(v.map[v.names[i]] == i);
    } else {
        assert(!v.names.contains(x)) by {
            if v.names.contains(x) {
                let i = choose|i: int| 0 <= i < v.names.len() && v.names[i] == x;
                assert(v.map.contains_key(v.names[i]));
            }
        }
        assert(v.insert_adds(x));
        assert forall|i: int| 0 <= i < w.names.len() implies w.map.contains_key(
            #[trigger] w.names[i],
        ) && w.map[w.names[i]] == i && w.ids[i] == i && all.contains(w.names[i]) by {
            if i < v.names.len() {
                assert(w.names[i] == v.names[i]);
                assert(v.map.contains_key(v.names[i]));
            }
        }
        assert forall|y: Seq<char>| #[trigger] w.map.contains_key(y) implies w.names.contains(y) by {
            if y == x {
                assert(w.names[w.names.len() - 1] == x);
            } else {
                assert(v.map.contains_key(y));
                let i = choose|i: int| 0 <= i < v.names.len() && v.names[i] == y;
                assert(w.names[i] == y);
            }
        }
    }
}

/// The list itself where it holds no more names than there are numbers
/// for edge types, and else its first names, as many as there are numbers.
pub open spec fn within_types(names: Seq<Seq<char>>) -> Seq<Seq<char>> {
    if names.len() > 0x1_0000 {
        names.take(0x1_0000)
    } else {
        names
    }
}

impl Graph {
    /// The names of the edge types, by number.
    pub open spec fn edge_type_names(&self) -> Seq<Seq<char>> {
        match self.edge_types {
            Some(t) => Seq::new(
                t.vocabulary.names().len(),
                |i: int| t.vocabulary.reverse_map@[i]@,
            ),
            None => Seq::empty(),
        }
    }

    /// Whether every node and every edge type has a name that is not empty.
    pub open spec fn all_named(&self) -> bool {
        &&& forall|u: int|
            0 <= u < self.nodes_count() ==> (#[trigger] self.nodes.reverse_map@[u])@.len() > 0
        &&& forall|t: int|
            0 <= t < self.edge_type_names().len() ==> (#[trigger] self.edge_type_names()[t]).len()
                > 0
    }

    /// Every name of a graph is a name that a vocabulary took, so none is
    /// empty.
    pub proof fn lemma_all_named(&self)
        requires
            self.wf(),
        ensures
            self.all_named(),
    {
        assert forall|u: int| 0 <= u < self.nodes_count() implies (
        #[trigger] self.nodes.reverse_map@[u])@.len() > 0 by {
            let v = self.nodes;
            assert(v.wf());
            let name = v.reverse_map@[u]@;
            assert(v.map@.contains_key(name));
            let i = choose|i: int| 0 <= i < v.keys@.len() && v.keys@[i]@ == name;
            assert(v.map@.contains_key(v.keys@[i]@));
        }
        assert forall|t: int| 0 <= t < self.edge_type_names().len() implies (
        #[trigger] self.edge_type_names()[t]).len() > 0 by {
            let v = self.edge_types->Some_0.vocabulary;
            assert(v.wf());
            let name = v.reverse_map@[t]@;
            assert(v.map@.contains_key(name));
            let i = choose|i: int| 0 <= i < v.keys@.len() && v.keys@[i]@ == name;
            assert(v.map@.contains_key(v.keys@[i]@));
        }
    }

    /// No two edge types have the same name.
    pub proof fn lemma_type_names_differ(&self, a: int, b: int)
        requires
            self.wf(),
            0 <= a < self.edge_type_names().len(),
            0 <= b < self.edge_type_names().len(),
            a != b,
        ensures
            self.edge_type_names()[a] != self.edge_type_names()[b],
    {
        let v = self.edge_types->Some_0.vocabulary;
        assert(v.wf());
        assert(v.map@[v.reverse_map@[a]@] == a);
        assert(v.map@[v.reverse_map@[b]@] == b);
    }
}

impl EdgeFileWriter {
    /// How the nodes are written, by number.
    pub open spec fn node_texts(&self, g: &Graph) -> Seq<Seq<char>> {
        Seq::new(g.nodes_count(), |u: int| self.node_text(g, u))
    }

    /// What a reader gets of the line of edge `e`: the ends as they are
    /// written, the name of the type and the weight.
    pub open spec fn line_of(&self, g: &Graph, e: int) -> EdgeLine {
        EdgeLine {
            src: self.node_text(g, g.source(e)),
            dst: self.node_text(g, g.destination(e)),
            edge_type: match g.edge_types {
                Some(t) => Some(t.vocabulary.reverse_map@[t.ids@[e] as int]@),
                None => None,
            },
            weight: g.weight_at(e),
        }
    }

    /// What a reader gets of the lines of the first `k` edges, those of
    /// them that are written.
    pub open spec fn written_lines(&self, g: &Graph, k: int) -> Seq<Option<EdgeLine>>
        decreases k,
    {
        if k <= 0 {
            Seq::empty()
        } else if self.writes(g, k - 1) {
            self.written_lines(g, k - 1).push(Some(self.line_of(g, k - 1)))
        } else {
            self.written_lines(g, k - 1)
        }
    }

    /// Every node is written with one letter or more, and no two nodes are
    /// written alike.
    pub proof fn lemma_node_texts(&self, g: &Graph, u: int, v: int)
        requires
            g.wf(),
            g.all_named(),
            0 <= u < g.nodes_count(),
            0 <= v < g.nodes_count(),
        ensures
            self.node_text(g, u).len() > 0,
            u != v ==> self.node_text(g, u) != self.node_text(g, v),
    {
        if self.numeric_node_ids {
            lemma_decimal_digits(u as nat);
            lemma_decimal_digits(v as nat);
        } else {
            assert(g.nodes.wf());
            assert(g.nodes.map@[g.nodes.reverse_map@[u]@] == u);
            assert(g.nodes.map@[g.nodes.reverse_map@[v]@] == v);
        }
    }
}

/// A line of values has as many values as columns.
pub proof fn lemma_composed_len(number_of_columns: nat, pairs: Seq<(Seq<char>, usize)>)
    requires
        places_fit(number_of_columns, pairs),
    ensures
        composed(number_of_columns, pairs).len() == number_of_columns,
    decreases pairs.len(),
{
    if pairs.len() > 0 {
        assert(places_fit(number_of_columns, pairs.drop_last())) by {
            assert forall|i: int| 0 <= i < pairs.drop_last().len() implies (
            #[trigger] pairs.drop_last()[i]).1 < number_of_columns by {
                assert(pairs.drop_last()[i] == pairs[i]);
            }
        }
        lemma_composed_len(number_of_columns, pairs.drop_last());
        assert(pairs[pairs.len() - 1].1 < number_of_columns);
    }
}

impl EdgeFileWriter {
    /// Whether the columns that the graph has lie at places of their own.
    pub open spec fn columns_apart(&self, g: &Graph) -> bool {
        &&& self.sources_column_number != self.destinations_column_number
        &&& g.edge_types is Some ==> self.edge_types_column_number != self.sources_column_number
            && self.edge_types_column_number != self.destinations_column_number
        &&& g.weights is Some ==> self.weights_column_number != self.sources_column_number
            && self.weights_column_number != self.destinations_column_number
        &&& g.weights is Some && g.edge_types is Some ==> self.weights_column_number
            != self.edge_types_column_number
    }

    /// Where the columns lie at places of their own, the line of an edge
    /// holds at those places what a reader gets of it: the ends as they are
    /// written, the name of the type, and the text of the weight.
    pub proof fn lemma_line_columns(&self, g: &Graph, e: int, weight_text: Seq<char>)
        requires
            self.columns_apart(g),
        ensures
            ({
                let line = composed(
                    (self.last_place(g) + 1) as nat,
                    self.line_pairs(g, e, weight_text),
                );
                &&& line.len() == self.last_place(g) + 1
                &&& line[self.sources_column_number as int] == self.line_of(g, e).src
                &&& line[self.destinations_column_number as int] == self.line_of(g, e).dst
                &&& g.edge_types is Some ==> Some(line[self.edge_types_column_number as int])
                    == self.line_of(g, e).edge_type
                &&& g.weights is Some ==> line[self.weights_column_number as int] == weight_text
            }),
    {
        let columns = (self.last_place(g) + 1) as nat;
        let pairs = self.line_pairs(g, e, weight_text);
        let ends = seq![
            (self.node_text(g, g.source(e)), self.sources_column_number),
            (self.node_text(g, g.destination(e)), self.destinations_column_number),
        ];
        let source_only = seq![(self.node_text(g, g.source(e)), self.sources_column_number)];
        assert(ends.drop_last() =~= source_only);
        assert(source_only.drop_last() =~= Seq::<(Seq<char>, usize)>::empty());
        lemma_composed_len(columns, pairs);
        lemma_composed_len(columns, ends);
        lemma_composed_len(columns, source_only);
        lemma_composed_len(columns, Seq::empty());
        assert(composed(columns, source_only) == composed(columns, Seq::empty()).update(
            self.sources_column_number as int,
            self.node_text(g, g.source(e)),
        ));
        assert(composed(columns, ends) == composed(columns, source_only).update(
            self.destinations_column_number as int,
            self.node_text(g, g.destination(e)),
        ));
        let typed = match g.edge_types {
            Some(t) => ends.push(
                (t.vocabulary.reverse_map@[t.ids@[e] as int]@, self.edge_types_column_number),
            ),
            None => ends,
        };
        lemma_composed_len(columns, typed);
        if g.edge_types is Some {
            assert(typed.drop_last() =~= ends);
        }
        if g.weights is Some {
            assert(pairs.drop_last() =~= typed);
        }
    }
}

/// What the first `k` records give depends on those records alone.
pub proof fn lemma_edges_after_prefix(
    one: Seq<Option<EdgeLine>>,
    other: Seq<Option<EdgeLine>>,
    k: int,
    start: EdgeList,
    listed: bool,
    typed: bool,
    weighted: bool,
    skip_self_loops: bool,
)
    requires
        0 <= k <= one.len(),
        k <= other.len(),
        forall|i: int| 0 <= i < k ==> one[i] == other[i],
    ensures
        edges_after(one, k, start, listed, typed, weighted, skip_self_loops) == edges_after(
            other,
            k,
            start,
            listed,
            typed,
            weighted,
            skip_self_loops,
        ),
    decreases k,
{
    if k > 0 {
        lemma_edges_after_prefix(one, other, k - 1, start, listed, typed, weighted, skip_self_loops);
    }
}

/// The number that `name` has among the names `v`, or zero where it has
/// none.
pub open spec fn number_of(v: Names, name: Seq<char>) -> NodeT {
    if v.map.contains_key(name) {
        v.map[name]
    } else {
        0
    }
}

/// For every name of a list, by place, the number that it has among `v`.
pub open spec fn numbers_by_name(v: Names, names: Seq<Seq<char>>) -> Seq<NodeT> {
    Seq::new(names.len(), |u: int| number_of(v, names[u]))
}

/// For every name of a list, by place, the number that it has among `v`,
/// as the number of an edge type.
pub open spec fn type_numbers_by_name(v: Names, names: Seq<Seq<char>>) -> Seq<EdgeTypeT> {
    Seq::new(names.len(), |t: int| number_of(v, names[t]) as EdgeTypeT)
}

impl EdgeFileWriter {
    /// Whether the names of the ends and of the type of edge `e` are known
    /// to `list`.
    pub open spec fn knows_edge(&self, g: &Graph, list: EdgeList, e: int) -> bool {
        &&& list.nodes.map.contains_key(self.node_text(g, g.source(e)))
        &&& list.nodes.map.contains_key(self.node_text(g, g.destination(e)))
        &&& g.edge_types matches Some(t) ==> list.types.map.contains_key(
            g.edge_type_names()[t.ids@[e] as int],
        )
    }

    /// Whether `list` is what reading the lines of the first `k` edges
    /// gives: names of nodes and of types of the graph, numbered as they
    /// came, those of every edge that was written among them; and the edges
    /// that were written, under the numbers of those names.
    pub open spec fn has_read(&self, g: &Graph, k: int, list: EdgeList) -> bool {
        &&& numbered_as_they_came(list.nodes)
        &&& numbered_as_they_came(list.types)
        &&& forall|i: int|
            0 <= i < list.nodes.names.len() ==> self.node_texts(g).contains(
                #[trigger] list.nodes.names[i],
            )
        &&& forall|i: int|
            0 <= i < list.types.names.len() ==> within_types(g.edge_type_names()).contains(
                #[trigger] list.types.names[i],
            )
        &&& forall|e: int| 0 <= e < k && #[trigger] self.writes(g, e) ==> self.knows_edge(g, list, e)
        &&& list.entries == self.written(
            g,
            numbers_by_name(list.nodes, self.node_texts(g)),
            type_numbers_by_name(list.types, g.edge_type_names()),
            k,
        )
    }

    /// What is written of the first `k` edges is the same under two
    /// numberings that give those edges the same numbers.
    pub proof fn lemma_written_agrees(
        &self,
        g: &Graph,
        nodes: Seq<NodeT>,
        types: Seq<EdgeTypeT>,
        other_nodes: Seq<NodeT>,
        other_types: Seq<EdgeTypeT>,
        k: int,
    )
        requires
            forall|e: int|
                0 <= e < k && #[trigger] self.writes(g, e) ==> renumbered(
                    entries_of(g)[e],
                    nodes,
                    types,
                ) == renumbered(entries_of(g)[e], other_nodes, other_types),
        ensures
            self.written(g, nodes, types, k) == self.written(g, other_nodes, other_types, k),
        decreases k,
    {
        if k > 0 {
            self.lemma_written_agrees(g, nodes, types, other_nodes, other_types, k - 1);
        }
    }

    /// An edge whose names are known to a list has the same numbers under
    /// every list that knows what the first knows.
    pub proof fn lemma_known_edge_keeps_numbers(
        &self,
        g: &Graph,
        list: EdgeList,
        longer: EdgeList,
        e: int,
    )
        requires
            g.wf(),
            0 <= e < g.edges_count(),
            self.knows_edge(g, list, e),
            forall|y: Seq<char>| #[trigger]
                list.nodes.map.contains_key(y) ==> longer.nodes.map.contains_key(y)
                    && longer.nodes.map[y] == list.nodes.map[y],
            forall|y: Seq<char>| #[trigger]
                list.types.map.contains_key(y) ==> longer.types.map.contains_key(y)
                    && longer.types.map[y] == list.types.map[y],
        ensures
            renumbered(
                entries_of(g)[e],
                numbers_by_name(list.nodes, self.node_texts(g)),
                type_numbers_by_name(list.types, g.edge_type_names()),
            ) == renumbered(
                entries_of(g)[e],
                numbers_by_name(longer.nodes, self.node_texts(g)),
                type_numbers_by_name(longer.types, g.edge_type_names()),
            ),
            self.knows_edge(g, longer, e),
    {
        assert(g.source(e) < g.nodes_count() && g.destination(e) < g.nodes_count());
        if g.edge_types is Some {
            let t = g.edge_types->Some_0;
            assert(t.ids@[e] < t.vocabulary.names().len());
        }
    }
}

impl EdgeFileWriter {
    /// Reading the line of one more edge that is written: the list that
    /// has read the edges before it has then read that edge too.
    pub proof fn lemma_read_line(&self, g: &Graph, e: int, list: EdgeList)
        requires
            g.wf(),
            g.all_named(),
            0 <= e < g.edges_count(),
            self.writes(g, e),
            self.has_read(g, e, list),
        ensures
            edge_step(
                list,
                Some(self.line_of(g, e)),
                false,
                g.edge_types is Some,
                g.weights is Some,
                false,
            ) is Ok,
            self.has_read(
                g,
                e + 1,
                edge_step(
                    list,
                    Some(self.line_of(g, e)),
                    false,
                    g.edge_types is Some,
                    g.weights is Some,
                    false,
                )->Ok_0,
            ),
    {
        let texts = self.node_texts(g);
        let type_names = g.edge_type_names();
        let line = self.line_of(g, e);
        let (u, v) = (g.source(e), g.destination(e));
        assert(0 <= u < g.nodes_count() && 0 <= v < g.nodes_count());
        assert(g.nodes.wf());
        self.lemma_node_texts(g, u, v);
        self.lemma_node_texts(g, v, u);
        assert(texts[u] == line.src && texts[v] == line.dst);
        lemma_insert_name(list.nodes, line.src, texts);
        let first = list.nodes.inserted(line.src);
        lemma_insert_name(first, line.dst, texts);
        let second = first.inserted(line.dst);
        let src = list.nodes.insert_outcome(line.src)->Ok_0;
        let dst = first.insert_outcome(line.dst)->Ok_0;
        assert(second.map[line.src] == src);
        assert(second.map[line.dst] == dst);
        if g.weights is Some {
            assert(crate::types::valid_weight(g.weights->Some_0@[e]));
        }
        let next = edge_step(list, Some(line), false, g.edge_types is Some, g.weights is Some, false);
        let new_types = match g.edge_types {
            Some(t) => list.types.inserted(type_names[t.ids@[e] as int]),
            None => list.types,
        };
        if g.edge_types is Some {
            let t = g.edge_types->Some_0;
            let number = t.ids@[e] as int;
            assert(number < t.vocabulary.names().len());
            let name = type_names[number];
            assert(within_types(type_names)[number] == name);
            assert(name.len() > 0);
            lemma_insert_name(list.types, name, within_types(type_names));
            assert(type_outcome(list.types, name) is Ok);
            assert(type_outcome(list.types, name)->Ok_0 == new_types.map[name]);
        }
        assert(next is Ok);
        let after = next->Ok_0;
        assert(after.nodes == second);
        assert(after.types == new_types);
        let entry = after.entries.last();
        assert(after.entries == list.entries.push(entry));
        let nodes = numbers_by_name(after.nodes, texts);
        let types = type_numbers_by_name(after.types, type_names);
        assert(entry == renumbered(entries_of(g)[e], nodes, types));
        assert forall|y: Seq<char>| #[trigger] list.nodes.map.contains_key(y) implies second.map.contains_key(
            y,
        ) && second.map[y] == list.nodes.map[y] by {
            assert(first.map.contains_key(y));
        }
        assert forall|f: int| 0 <= f < e && #[trigger] self.writes(g, f) implies renumbered(
            entries_of(g)[f],
            numbers_by_name(list.nodes, texts),
            type_numbers_by_name(list.types, type_names),
        ) == renumbered(entries_of(g)[f], nodes, types) && self.knows_edge(g, after, f) by {
            self.lemma_known_edge_keeps_numbers(g, list, after, f);
        }
        self.lemma_written_agrees(
            g,
            numbers_by_name(list.nodes, texts),
            type_numbers_by_name(list.types, type_names),
            nodes,
            types,
            e,
        );
        assert(self.knows_edge(g, after, e));
    }

    /// Reading all the lines of the first `k` edges, from no name at all,
    /// does not fail, and has then read those edges.
    pub proof fn lemma_read_back(&self, g: &Graph, k: int)
        requires
            g.wf(),
            g.all_named(),
            0 <= k <= g.edges_count(),
        ensures
            edges_after(
                self.written_lines(g, k),
                self.written_lines(g, k).len() as int,
                EdgeList {
                    nodes: Names::empty(false),
                    types: Names::empty(false),
                    entries: Seq::empty(),
                },
                false,
                g.edge_types is Some,
                g.weights is Some,
                false,
            ) is Ok,
            self.has_read(
                g,
                k,
                edges_after(
                    self.written_lines(g, k),
                    self.written_lines(g, k).len() as int,
                    EdgeList {
                        nodes: Names::empty(false),
                        types: Names::empty(false),
                        entries: Seq::empty(),
                    },
                    false,
                    g.edge_types is Some,
                    g.weights is Some,
                    false,
                )->Ok_0,
            ),
        decreases k,
    {
        let start = EdgeList {
            nodes: Names::empty(false),
            types: Names::empty(false),
            entries: Seq::empty(),
        };
        if k > 0 {
            self.lemma_read_back(g, k - 1);
            let front = self.written_lines(g, k - 1);
            let lines = self.written_lines(g, k);
            let typed = g.edge_types is Some;
            let weighted = g.weights is Some;
            let list = edges_after(front, front.len() as int, start, false, typed, weighted, false)->Ok_0;
            if self.writes(g, k - 1) {
                lemma_edges_after_prefix(
                    lines,
                    front,
                    front.len() as int,
                    start,
                    false,
                    typed,
                    weighted,
                    false,
                );
                assert(lines[lines.len() - 1] == Some(self.line_of(g, k - 1)));
                self.lemma_read_line(g, k - 1, list);
            } else {
                assert(self.has_read(g, k, list));
            }
        }
    }
}

/// The number of a name that is known, among names that are numbered as
/// they came, is the place of the name.
pub proof fn lemma_number_is_place(v: Names, name: Seq<char>)
    requires
        numbered_as_they_came(v),
        v.map.contains_key(name),
    ensures
        0 <= number_of(v, name) < v.names.len(),
        v.names[number_of(v, name) as int] == name,
{
    assert(v.names.contains(name));
    let i = choose|i: int| 0 <= i < v.names.len() && v.names[i] == name;
    assert(v.map[v.names[i]] == i);
}

/// Names that are numbered as they came have the numbers from zero up to
/// their count, each once.
pub proof fn lemma_numbers_are_dense(v: Names)
    requires
        numbered_as_they_came(v),
    ensures
        v.dense(),
{
    assert forall|i: int| 0 <= i < v.ids.len() implies #[trigger] v.ids[i] == i by {
        assert(v.map.contains_key(v.names[i]));
    }
}

/// The choices of a build that reads an edge list back: nothing is passed
/// over and no name is read as a number.
pub open spec fn reading_back(directed: bool) -> BuildOptions {
    BuildOptions {
        directed,
        ignore_duplicated_nodes: false,
        ignore_duplicated_edges: false,
        skip_self_loops: false,
        numeric_edge_types_ids: false,
        numeric_node_ids: false,
        numeric_node_types_ids: false,
    }
}

/// What a graph holds of the names of its edge types: no name where it has
/// no edge types.
pub open spec fn type_names_model(g: &Graph) -> Names {
    match g.edge_types {
        Some(t) => t.vocabulary.model(),
        None => Names::empty(false),
    }
}

impl EdgeFileWriter {
    /// Every line is the line of an edge that is written, there are as many
    /// lines as edges that are written, and there is a line where an edge is
    /// written.
    pub proof fn lemma_written_lines(
        &self,
        g: &Graph,
        nodes: Seq<NodeT>,
        types: Seq<EdgeTypeT>,
        k: int,
    )
        requires
            0 <= k,
        ensures
            self.written_lines(g, k).len() == self.written(g, nodes, types, k).len(),
            forall|i: int|
                0 <= i < self.written_lines(g, k).len() ==> {
                    let line = #[trigger] self.written_lines(g, k)[i];
                    &&& line is Some
                    &&& line->Some_0.edge_type is Some <==> g.edge_types is Some
                    &&& line->Some_0.weight is Some <==> g.weights is Some
                },
            forall|e: int|
                0 <= e < k && #[trigger] self.writes(g, e) ==> self.written_lines(g, k).len() > 0,
        decreases k,
    {
        if k > 0 {
            self.lemma_written_lines(g, nodes, types, k - 1);
        }
    }

    /// A list that has read all the edges that are written knows the names
    /// of every edge.
    pub proof fn lemma_every_edge_known(&self, g: &Graph, list: EdgeList, e: int)
        requires
            g.wf(),
            self.writes_directed(g) == g.directed,
            self.has_read(g, g.edges_count() as int, list),
            0 <= e < g.edges_count(),
        ensures
            self.knows_edge(g, list, e),
            exists|f: int| 0 <= f < g.edges_count() && #[trigger] self.writes(g, f),
    {
        if self.writes(g, e) {
            assert(self.knows_edge(g, list, e));
        } else {
            assert(g.has_mirror(e));
            let mate = choose|mate: int| 0 <= mate < g.edges_count() && g.is_mirror(e, mate);
            assert(self.writes(g, mate));
            assert(self.knows_edge(g, list, mate));
        }
    }

    /// The numbers that the names have in a list that has read all the
    /// edges that are written give every node that an edge joins and every
    /// type that an edge has a number of its own, below the number of names.
    pub proof fn lemma_numbers_by_name(&self, g: &Graph, list: EdgeList)
        requires
            g.wf(),
            g.all_named(),
            self.writes_directed(g) == g.directed,
            self.has_read(g, g.edges_count() as int, list),
        ensures
            renumbers(
                g,
                numbers_by_name(list.nodes, self.node_texts(g)),
                type_numbers_by_name(list.types, g.edge_type_names()),
            ),
            forall|e: int|
                0 <= e < g.edges_count() ==> (#[trigger] renumbered(
                    entries_of(g)[e],
                    numbers_by_name(list.nodes, self.node_texts(g)),
                    type_numbers_by_name(list.types, g.edge_type_names()),
                )).src < list.nodes.names.len() && renumbered(
                    entries_of(g)[e],
                    numbers_by_name(list.nodes, self.node_texts(g)),
                    type_numbers_by_name(list.types, g.edge_type_names()),
                ).dst < list.nodes.names.len(),
    {
        let texts = self.node_texts(g);
        let type_names = g.edge_type_names();
        let nodes = numbers_by_name(list.nodes, texts);
        let types = type_numbers_by_name(list.types, type_names);
        assert(list.types.names.no_duplicates()) by {
            assert forall|i: int, j: int|
                0 <= i < list.types.names.len() && 0 <= j < list.types.names.len() && i
                    != j implies list.types.names[i] != list.types.names[j] by {
                assert(list.types.map[list.types.names[i]] == i);
                assert(list.types.map[list.types.names[j]] == j);
            }
        }
        lemma_room(list.types.names, within_types(type_names), Seq::empty());
        assert forall|e: int| 0 <= e < g.edges_count() implies (#[trigger] renumbered(
            entries_of(g)[e],
            nodes,
            types,
        )).src < list.nodes.names.len() && renumbered(entries_of(g)[e], nodes, types).dst
            < list.nodes.names.len() by {
            self.lemma_every_edge_known(g, list, e);
            lemma_number_is_place(list.nodes, self.node_text(g, g.source(e)));
            lemma_number_is_place(list.nodes, self.node_text(g, g.destination(e)));
            assert(g.source(e) < g.nodes_count() && g.destination(e) < g.nodes_count());
        }
        assert forall|a: int, b: int|
            0 <= a < g.edges_count() && 0 <= b < g.edges_count() implies #[trigger] keeps_apart(
            g,
            nodes,
            types,
            a,
            b,
        ) by {
            self.lemma_every_edge_known(g, list, a);
            self.lemma_every_edge_known(g, list, b);
            let (ua, va, ub, vb) = (g.source(a), g.destination(a), g.source(b), g.destination(b));
            assert(ua < g.nodes_count() && va < g.nodes_count());
            assert(ub < g.nodes_count() && vb < g.nodes_count());
            self.lemma_node_texts(g, ua, ub);
            self.lemma_node_texts(g, ua, vb);
            self.lemma_node_texts(g, va, ub);
            self.lemma_node_texts(g, va, vb);
            lemma_number_is_place(list.nodes, self.node_text(g, ua));
            lemma_number_is_place(list.nodes, self.node_text(g, va));
            lemma_number_is_place(list.nodes, self.node_text(g, ub));
            lemma_number_is_place(list.nodes, self.node_text(g, vb));
            if g.edge_types is Some {
                let t = g.edge_types->Some_0;
                let (ta, tb) = (t.ids@[a] as int, t.ids@[b] as int);
                assert(ta < t.vocabulary.names().len() && tb < t.vocabulary.names().len());
                if ta != tb {
                    g.lemma_type_names_differ(ta, tb);
                }
                lemma_number_is_place(list.types, type_names[ta]);
                lemma_number_is_place(list.types, type_names[tb]);
            }
        }
    }
}

impl Graph {
    /// Writing a graph as an edge list and reading the lines back gives the
    /// same graph, up to the numbers of the nodes and of the edge types.
    /// The graph has an edge, holds no slot twice, as every built graph
    /// does, and the writer writes it as directed or undirected as it is.
    /// Then a build from the lines that are written does not fail, though
    /// it allows no repeated edge; and the graph that it gives holds as
    /// many edges as the first, and exactly its edges, each with its weight,
    /// under the numbers that the written names of its nodes and the names
    /// of its edge types have in the second graph.
    pub proof fn law_written_lines_read_back(
        &self,
        writer: &EdgeFileWriter,
        records: Seq<EdgeRecord>,
        name: Seq<char>,
        rebuilt: &Graph,
    )
        requires
            self.wf(),
            distinct_slots(entries_of(self)),
            self.edges_count() > 0,
            writer.writes_directed(self) == self.directed,
            edge_lines(records) == writer.written_lines(self, self.edges_count() as int),
            records.len() * 2 <= usize::MAX,
        ensures
            string_failure(records, None, reading_back(self.directed)) is None,
            string_built(rebuilt, records, None, name, reading_back(self.directed)) ==> {
                let nodes = numbers_by_name(rebuilt.nodes.model(), writer.node_texts(self));
                let types = type_numbers_by_name(type_names_model(rebuilt), self.edge_type_names());
                &&& renumbers(self, nodes, types)
                &&& rebuilt.edges_count() == self.edges_count()
                &&& forall|e: int|
                    0 <= e < self.edges_count() ==> entries_of(rebuilt).contains(
                        renumbered(#[trigger] entries_of(self)[e], nodes, types),
                    )
                &&& forall|r: int|
                    0 <= r < rebuilt.edges_count() ==> renumbers_edge(
                        self,
                        nodes,
                        types,
                        #[trigger] entries_of(rebuilt)[r],
                    )
            },
    {
        let n = self.edges_count() as int;
        let o = reading_back(self.directed);
        let lines = writer.written_lines(self, n);
        let start = EdgeList {
            nodes: Names::empty(false),
            types: Names::empty(false),
            entries: Seq::empty(),
        };
        self.lemma_all_named();
        writer.lemma_read_back(self, n);
        let list = edges_after(
            lines,
            lines.len() as int,
            start,
            false,
            self.edge_types is Some,
            self.weights is Some,
            false,
        )->Ok_0;
        let nodes = numbers_by_name(list.nodes, writer.node_texts(self));
        let types = type_numbers_by_name(list.types, self.edge_type_names());
        writer.lemma_written_lines(self, nodes, types, n);
        writer.lemma_every_edge_known(self, list, 0);
        assert(lines.len() > 0);
        assert(lines.len() == records.len());
        assert(edges_typed(lines) == (self.edge_types is Some));
        assert(edges_weighted(lines) == (self.weights is Some));
        assert(node_part(None, o) is Ok);
        assert(node_part(None, o)->Ok_0.nodes == Names::empty(false));
        assert(edges_outcome(records, Names::empty(false), false, false, false) == Ok::<
            EdgeList,
            crate::errors::GraphError,
        >(list));
        assert(edge_part(records, None, o) == Ok::<EdgeList, crate::errors::GraphError>(list));
        writer.lemma_numbers_by_name(self, list);
        self.lemma_written_has_no_repeat(writer, nodes, types);
        lemma_numbers_are_dense(list.nodes);
        lemma_numbers_are_dense(list.types);
        assert(build_failure(list.entries, self.directed, false) is None);
        if string_built(rebuilt, records, None, name, o) {
            assert(rebuilt.nodes.model() == list.nodes);
            assert(type_numbers_by_name(type_names_model(rebuilt), self.edge_type_names())
                =~= types);
            assert(rebuilt.nodes_count() == list.nodes.names.len());
            self.law_edge_list_round_trip(writer, nodes, types, rebuilt);
        }
    }
}

} // verus!
