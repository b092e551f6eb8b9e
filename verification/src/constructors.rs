//! Building a graph from records of names.

use vstd::prelude::*;
use crate::builder::{build_failure, build_graph, built_from, entries_valid, node_types_ready, types_ready, EdgeEntry};
use crate::errors::GraphError;
use crate::graph::Graph;
use crate::records::{
    edge_line, edge_lines, edge_step, edges_after, edges_typed, edges_weighted, node_line,
    node_lines, node_step, nodes_after, nodes_typed, resolve_node, type_outcome, EdgeList,
    EdgeRecord, NodeList, NodeRecord,
};
use crate::types::{is_valid_weight, valid_weight, NodeT, NodeTypeT, WeightT};
use crate::vocabulary::{Names, Vocabulary};
use crate::vocabulary_vec::VocabularyVec;

verus! {

/// Whether the types of `types` are those of the node list `state`.
pub open spec fn holds_types(types: &VocabularyVec, state: NodeList) -> bool {
    &&& types.wf()
    &&& types.vocabulary.model() == state.types
    &&& types.ids@ == state.type_ids
}

/// Whether every type that was assigned is a type of the vocabulary.
pub open spec fn types_known(ids: Seq<NodeTypeT>, types: Names) -> bool {
    forall|u: int| 0 <= u < ids.len() ==> types.ids.contains(#[trigger] ids[u] as NodeT)
}

/// Whether the first record of a list of records names a type.
fn first_node_typed(records: &Vec<NodeRecord>) -> (typed: bool)
    ensures
        typed == nodes_typed(node_lines(records@)),
{
    if records.len() == 0 {
        return false;
    }
    match &records[0] {
        Ok(q) => q.1.is_some(),
        Err(_) => false,
    }
}

/// Reads one node record into the vocabulary of the nodes and the types of
/// the nodes.
fn read_node(
    nodes: &mut Vocabulary,
    types: &mut VocabularyVec,
    record: &NodeRecord,
    typed: bool,
    ignore_duplicated_nodes: bool,
    Ghost(state): Ghost<NodeList>,
) -> (r: Result<(), GraphError>)
    requires
        old(nodes).wf(),
        old(nodes).model() == state.nodes,
        holds_types(old(types), state),
        types_known(state.type_ids, state.types),
        typed ==> state.type_ids.len() == state.nodes.names.len(),
    ensures
        final(nodes).wf(),
        final(types).wf(),
        final(nodes).numeric_ids == old(nodes).numeric_ids,
        match node_step(state, node_line(*record), typed, ignore_duplicated_nodes) {
            Err(e) => r == Err::<(), GraphError>(e),
            Ok(next) => r is Ok && final(nodes).model() == next.nodes && holds_types(
                final(types),
                next,
            ) && types_known(next.type_ids, next.types) && (typed ==> next.type_ids.len()
                == next.nodes.names.len()),
        },
{
    let (name, node_type) = match record {
        Ok(q) => (&q.0, &q.1),
        Err(_) => {
            return Err(GraphError::ParseFailure);
        },
    };
    match nodes.outcome(name.as_str()) {
        Err(e) => {
            return Err(e);
        },
        Ok(_) => {},
    }
    if nodes.get(name.as_str()).is_some() {
        if ignore_duplicated_nodes {
            return Ok(());
        }
        return Err(GraphError::DuplicatedNode);
    }
    if node_type.is_some() != typed {
        return Err(GraphError::InconsistentRecords);
    }
    match node_type {
        None => {
            let _ = nodes.insert(name.clone());
        },
        Some(t) => {
            let ghost before = *types;
            match types.insert(t.clone()) {
                Err(e) => {
                    return Err(e);
                },
                Ok(id) => {
                    let _ = nodes.insert(name.clone());
                    proof {
                        let next_types = state.types.inserted(t@);
                        assert forall|u: int| 0 <= u < types.ids@.len() implies next_types.ids.contains(
                            #[trigger] types.ids@[u] as NodeT,
                        ) by {
                            if u < state.type_ids.len() {
                                let w = state.type_ids[u] as NodeT;
                                assert(state.types.ids.contains(w));
                                let i = choose|i: int|
                                    0 <= i < state.types.ids.len() && state.types.ids[i] == w;
                                assert(next_types.ids[i] == w);
                            } else {
                                if before.vocabulary.has_name(t@) {
                                    lemma_id_known(&before.vocabulary, t@);
                                }
                                lemma_inserted_keeps(state.types, t@, id as NodeT);
                            }
                        }
                    }
                },
            }
        },
    }
    Ok(())
}

/// The identifier that a vocabulary has for a name is one of its
/// identifiers.
pub proof fn lemma_id_known(v: &Vocabulary, name: Seq<char>)
    requires
        v.wf(),
        v.has_name(name),
    ensures
        v.model().ids.contains(v.map@[name]),
{
    let i = choose|i: int| 0 <= i < v.keys@.len() && v.keys@[i]@ == name;
    assert(v.map@.contains_key(v.keys@[i]@));
    assert(v.values@[i] == v.map@[name]);
}

/// After a name has been inserted its identifier is one of the identifiers,
/// and so is every identifier that was one before.
pub proof fn lemma_inserted_keeps(names: Names, name: Seq<char>, id: NodeT)
    requires
        names.insert_outcome(name) == Ok::<NodeT, GraphError>(id),
        names.map.contains_key(name) ==> names.ids.contains(id),
    ensures
        names.inserted(name).ids.contains(id),
        forall|other: NodeT| names.ids.contains(other) ==> names.inserted(name).ids.contains(other),
{
    let next = names.inserted(name);
    if names.insert_adds(name) {
        assert(next.ids[names.ids.len() as int] == id);
        assert forall|other: NodeT| names.ids.contains(other) implies next.ids.contains(other) by {
            let i = choose|i: int| 0 <= i < names.ids.len() && names.ids[i] == other;
            assert(next.ids[i] == other);
        }
    }
}

/// The node list that the node records give, or the first failure.
pub open spec fn nodes_outcome(
    records: Seq<NodeRecord>,
    numeric_node_ids: bool,
    numeric_node_types_ids: bool,
    ignore_duplicated_nodes: bool,
) -> Result<NodeList, GraphError> {
    nodes_after(
        node_lines(records),
        records.len() as int,
        NodeList {
            nodes: Names::empty(numeric_node_ids),
            types: Names::empty(numeric_node_types_ids),
            type_ids: Seq::empty(),
        },
        nodes_typed(node_lines(records)),
        ignore_duplicated_nodes,
    )
}

/// Reads the node records: the names of the nodes, and the types of the
/// nodes where the records name them.
fn read_nodes(
    records: &Vec<NodeRecord>,
    numeric_node_ids: bool,
    numeric_node_types_ids: bool,
    ignore_duplicated_nodes: bool,
) -> (r: Result<(Vocabulary, VocabularyVec), GraphError>)
    ensures
        r is Err <==> nodes_outcome(
            records@,
            numeric_node_ids,
            numeric_node_types_ids,
            ignore_duplicated_nodes,
        ) is Err,
        r is Err ==> r->Err_0 == nodes_outcome(
            records@,
            numeric_node_ids,
            numeric_node_types_ids,
            ignore_duplicated_nodes,
        )->Err_0,
        r matches Ok((nodes, types)) ==> {
            let state = nodes_outcome(
                records@,
                numeric_node_ids,
                numeric_node_types_ids,
                ignore_duplicated_nodes,
            )->Ok_0;
            &&& nodes.wf()
            &&& nodes.model() == state.nodes
            &&& holds_types(&types, state)
            &&& types_known(state.type_ids, state.types)
            &&& nodes_typed(node_lines(records@)) ==> state.type_ids.len()
                == state.nodes.names.len()
        },
{
    let typed = first_node_typed(records);
    let mut nodes = Vocabulary::new(numeric_node_ids);
    let mut types = VocabularyVec::default().set_numeric_ids(numeric_node_types_ids);
    let ghost start = NodeList {
        nodes: Names::empty(numeric_node_ids),
        types: Names::empty(numeric_node_types_ids),
        type_ids: Seq::empty(),
    };
    let ghost lines = node_lines(records@);
    let ghost mut state = start;
    proof {
        assert(types.vocabulary.names() =~= Seq::<Seq<char>>::empty());
        assert(types.vocabulary.ids() =~= Seq::<NodeT>::empty());
        assert(types.ids@ =~= Seq::<NodeTypeT>::empty());
    }
    let mut i: usize = 0;
    while i < records.len()
        invariant
            i <= records@.len(),
            lines == node_lines(records@),
            typed == nodes_typed(lines),
            start == (NodeList {
                nodes: Names::empty(numeric_node_ids),
                types: Names::empty(numeric_node_types_ids),
                type_ids: Seq::empty(),
            }),
            nodes.wf(),
            nodes.model() == state.nodes,
            holds_types(&types, state),
            types_known(state.type_ids, state.types),
            typed ==> state.type_ids.len() == state.nodes.names.len(),
            nodes_after(lines, i as int, start, typed, ignore_duplicated_nodes) == Ok::<
                NodeList,
                GraphError,
            >(state),
        decreases records@.len() - i,
    {
        let ghost next = node_step(state, lines[i as int], typed, ignore_duplicated_nodes);
        proof {
            assert(lines[i as int] == node_line(records@[i as int]));
            assert(nodes_after(lines, i + 1, start, typed, ignore_duplicated_nodes) == next);
        }
        match read_node(
            &mut nodes,
            &mut types,
            &records[i],
            typed,
            ignore_duplicated_nodes,
            Ghost(state),
        ) {
            Err(e) => {
                proof {
                    assert(next == Err::<NodeList, GraphError>(e));
                    lemma_nodes_failure(
                        lines,
                        i as int + 1,
                        records@.len() as int,
                        start,
                        typed,
                        ignore_duplicated_nodes,
                    );
                    assert(nodes_after(
                        lines,
                        records@.len() as int,
                        start,
                        typed,
                        ignore_duplicated_nodes,
                    ) == Err::<NodeList, GraphError>(e));
                }
                return Err(e);
            },
            Ok(()) => {},
        }
        proof {
            state = next->Ok_0;
        }
        i += 1;
    }
    Ok((nodes, types))
}

/// A failure among the first records is the failure of all of them.
proof fn lemma_nodes_failure(
    lines: Seq<Option<crate::records::NodeLine>>,
    k: int,
    len: int,
    start: NodeList,
    typed: bool,
    ignore_duplicated_nodes: bool,
)
    requires
        0 <= k <= len,
        nodes_after(lines, k, start, typed, ignore_duplicated_nodes) is Err,
    ensures
        nodes_after(lines, len, start, typed, ignore_duplicated_nodes) == nodes_after(
            lines,
            k,
            start,
            typed,
            ignore_duplicated_nodes,
        ),
    decreases len - k,
{
    if k < len {
        lemma_nodes_failure(lines, k + 1, len, start, typed, ignore_duplicated_nodes);
    }
}

} // verus!

verus! {

/// Whether every entry joins identifiers of `nodes`, has a type and a weight
/// exactly where the records have them, a type of `types` and a weight that
/// is strictly positive and finite.
pub open spec fn entries_known(
    entries: Seq<EdgeEntry>,
    nodes: Names,
    types: Names,
    typed: bool,
    weighted: bool,
) -> bool {
    forall|i: int|
        0 <= i < entries.len() ==> {
            let e = #[trigger] entries[i];
            &&& nodes.ids.contains(e.src)
            &&& nodes.ids.contains(e.dst)
            &&& e.edge_type is Some <==> typed
            &&& e.edge_type matches Some(t) ==> types.ids.contains(t as NodeT)
            &&& e.weight is Some <==> weighted
            &&& e.weight matches Some(w) ==> valid_weight(w)
        }
}

/// Whether the identifiers of a vocabulary of types fit a type.
pub open spec fn types_fit(v: &Vocabulary) -> bool {
    forall|i: int| 0 <= i < v.values@.len() ==> #[trigger] v.values@[i] <= u16::MAX
}

/// Whether the first edge record names a type and whether it has a weight.
fn first_edge_mode(records: &Vec<EdgeRecord>) -> (mode: (bool, bool))
    ensures
        mode.0 == edges_typed(edge_lines(records@)),
        mode.1 == edges_weighted(edge_lines(records@)),
{
    if records.len() == 0 {
        return (false, false);
    }
    match &records[0] {
        Ok(q) => (q.2.is_some(), q.3.is_some()),
        Err(_) => (false, false),
    }
}

/// Finds the identifier of the node named `name`, giving the name a new
/// identifier where the nodes were not listed beforehand.
fn resolve(nodes: &mut Vocabulary, name: &String, listed: bool) -> (r: Result<NodeT, GraphError>)
    requires
        old(nodes).wf(),
    ensures
        final(nodes).wf(),
        final(nodes).numeric_ids == old(nodes).numeric_ids,
        r is Err <==> resolve_node(old(nodes).model(), name@, listed) is Err,
        r is Err ==> r->Err_0 == resolve_node(old(nodes).model(), name@, listed)->Err_0,
        r matches Ok(id) ==> resolve_node(old(nodes).model(), name@, listed) == Ok::<
            (NodeT, Names),
            GraphError,
        >((id, final(nodes).model())) && final(nodes).model().ids.contains(id),
        forall|other: NodeT|
            old(nodes).model().ids.contains(other) ==> final(nodes).model().ids.contains(other),
{
    if listed {
        match nodes.get(name.as_str()) {
            None => Err(GraphError::UnknownNode),
            Some(id) => {
                proof {
                    lemma_id_known(nodes, name@);
                }
                Ok(id)
            },
        }
    } else {
        let ghost before = *nodes;
        let r = nodes.insert(name.clone());
        proof {
            if r is Ok {
                if before.has_name(name@) {
                    lemma_id_known(&before, name@);
                }
                lemma_inserted_keeps(before.model(), name@, r->Ok_0);
            }
        }
        r
    }
}

/// Reads one edge record into the vocabularies and the list of entries.
fn read_edge(
    nodes: &mut Vocabulary,
    types: &mut Vocabulary,
    entries: &mut Vec<EdgeEntry>,
    record: &EdgeRecord,
    listed: bool,
    typed: bool,
    weighted: bool,
    skip_self_loops: bool,
    Ghost(state): Ghost<EdgeList>,
) -> (r: Result<(), GraphError>)
    requires
        old(nodes).wf(),
        old(types).wf(),
        types_fit(old(types)),
        old(nodes).model() == state.nodes,
        old(types).model() == state.types,
        old(entries)@ == state.entries,
        entries_known(state.entries, state.nodes, state.types, typed, weighted),
    ensures
        final(nodes).wf(),
        final(types).wf(),
        types_fit(final(types)),
        final(nodes).numeric_ids == old(nodes).numeric_ids,
        final(types).numeric_ids == old(types).numeric_ids,
        r is Err <==> edge_step(
            state,
            edge_line(*record),
            listed,
            typed,
            weighted,
            skip_self_loops,
        ) is Err,
        r is Err ==> r->Err_0 == edge_step(
            state,
            edge_line(*record),
            listed,
            typed,
            weighted,
            skip_self_loops,
        )->Err_0,
        r is Ok ==> {
            let next = edge_step(
                state,
                edge_line(*record),
                listed,
                typed,
                weighted,
                skip_self_loops,
            )->Ok_0;
            &&& final(nodes).model() == next.nodes
            &&& final(types).model() == next.types
            &&& final(entries)@ == next.entries
            &&& entries_known(next.entries, next.nodes, next.types, typed, weighted)
        },
{
    let q = match record {
        Ok(q) => q,
        Err(_) => {
            return Err(GraphError::ParseFailure);
        },
    };
    let src = match resolve(nodes, &q.0, listed) {
        Err(e) => {
            return Err(e);
        },
        Ok(src) => src,
    };
    let dst = match resolve(nodes, &q.1, listed) {
        Err(e) => {
            return Err(e);
        },
        Ok(dst) => dst,
    };
    if skip_self_loops && src == dst {
        return Ok(());
    }
    if q.2.is_some() != typed || q.3.is_some() != weighted {
        return Err(GraphError::InconsistentRecords);
    }
    match q.3 {
        Some(w) => {
            if !is_valid_weight(w) {
                return Err(GraphError::InvalidWeight);
            }
        },
        None => {},
    }
    let ghost types_before = *types;
    let edge_type: Option<u16> = match &q.2 {
        None => None,
        Some(t) => {
            let id = match types.outcome(t.as_str()) {
                Err(e) => {
                    return Err(e);
                },
                Ok(id) => id,
            };
            if id > u16::MAX as NodeT {
                return Err(GraphError::TooManyNames);
            }
            let _ = types.insert(t.clone());
            proof {
                if types_before.has_name(t@) {
                    lemma_id_known(&types_before, t@);
                }
                lemma_inserted_keeps(types_before.model(), t@, id);
            }
            Some(id as u16)
        },
    };
    entries.push(EdgeEntry { src, dst, edge_type, weight: q.3 });
    proof {
        let next_nodes = nodes.model();
        let next_types = types.model();
        assert forall|i: int| 0 <= i < entries@.len() implies {
            let e = #[trigger] entries@[i];
            &&& next_nodes.ids.contains(e.src)
            &&& next_nodes.ids.contains(e.dst)
            &&& e.edge_type is Some <==> typed
            &&& e.edge_type matches Some(t) ==> next_types.ids.contains(t as NodeT)
            &&& e.weight is Some <==> weighted
            &&& e.weight matches Some(w) ==> valid_weight(w)
        } by {
            if i < state.entries.len() {
                assert(entries@[i] == state.entries[i]);
                let e = state.entries[i];
                assert(state.nodes.ids.contains(e.src));
                assert(state.nodes.ids.contains(e.dst));
                if e.edge_type is Some {
                    assert(state.types.ids.contains(e.edge_type->Some_0 as NodeT));
                }
            }
        }
    }
    Ok(())
}

} // verus!

verus! {

/// A failure among the first records is the failure of all of them.
proof fn lemma_edges_failure(
    lines: Seq<Option<crate::records::EdgeLine>>,
    k: int,
    len: int,
    start: EdgeList,
    listed: bool,
    typed: bool,
    weighted: bool,
    skip_self_loops: bool,
)
    requires
        0 <= k <= len,
        edges_after(lines, k, start, listed, typed, weighted, skip_self_loops) is Err,
    ensures
        edges_after(lines, len, start, listed, typed, weighted, skip_self_loops) == edges_after(
            lines,
            k,
            start,
            listed,
            typed,
            weighted,
            skip_self_loops,
        ),
    decreases len - k,
{
    if k < len {
        lemma_edges_failure(lines, k + 1, len, start, listed, typed, weighted, skip_self_loops);
    }
}

/// The edge list that the edge records give over the nodes `nodes`, or the
/// first failure.
pub open spec fn edges_outcome(
    records: Seq<EdgeRecord>,
    nodes: Names,
    listed: bool,
    numeric_edge_types_ids: bool,
    skip_self_loops: bool,
) -> Result<EdgeList, GraphError> {
    edges_after(
        edge_lines(records),
        records.len() as int,
        EdgeList { nodes, types: Names::empty(numeric_edge_types_ids), entries: Seq::empty() },
        listed,
        edges_typed(edge_lines(records)),
        edges_weighted(edge_lines(records)),
        skip_self_loops,
    )
}

/// Reads the edge records: the names of the nodes where they were not
/// listed, the names of the edge types, and the edges between numbered
/// nodes.
fn read_edges(
    records: &Vec<EdgeRecord>,
    nodes: Vocabulary,
    listed: bool,
    numeric_edge_types_ids: bool,
    skip_self_loops: bool,
) -> (r: Result<(Vocabulary, Vocabulary, Vec<EdgeEntry>), GraphError>)
    requires
        nodes.wf(),
    ensures
        r is Err <==> edges_outcome(
            records@,
            nodes.model(),
            listed,
            numeric_edge_types_ids,
            skip_self_loops,
        ) is Err,
        r is Err ==> r->Err_0 == edges_outcome(
            records@,
            nodes.model(),
            listed,
            numeric_edge_types_ids,
            skip_self_loops,
        )->Err_0,
        r matches Ok((names, types, entries)) ==> {
            let state = edges_outcome(
                records@,
                nodes.model(),
                listed,
                numeric_edge_types_ids,
                skip_self_loops,
            )->Ok_0;
            &&& names.wf()
            &&& types.wf()
            &&& types_fit(&types)
            &&& names.model() == state.nodes
            &&& types.model() == state.types
            &&& entries@ == state.entries
            &&& entries_known(
                state.entries,
                state.nodes,
                state.types,
                edges_typed(edge_lines(records@)),
                edges_weighted(edge_lines(records@)),
            )
        },
{
    let (typed, weighted) = first_edge_mode(records);
    let ghost lines = edge_lines(records@);
    let ghost start = EdgeList {
        nodes: nodes.model(),
        types: Names::empty(numeric_edge_types_ids),
        entries: Seq::empty(),
    };
    let ghost mut state = start;
    let mut names = nodes;
    let mut types = Vocabulary::new(numeric_edge_types_ids);
    let mut entries: Vec<EdgeEntry> = Vec::new();
    let mut i: usize = 0;
    while i < records.len()
        invariant
            i <= records@.len(),
            lines == edge_lines(records@),
            typed == edges_typed(lines),
            weighted == edges_weighted(lines),
            start == (EdgeList {
                nodes: nodes.model(),
                types: Names::empty(numeric_edge_types_ids),
                entries: Seq::empty(),
            }),
            names.wf(),
            types.wf(),
            types_fit(&types),
            names.model() == state.nodes,
            types.model() == state.types,
            entries@ == state.entries,
            entries_known(state.entries, state.nodes, state.types, typed, weighted),
            edges_after(lines, i as int, start, listed, typed, weighted, skip_self_loops) == Ok::<
                EdgeList,
                GraphError,
            >(state),
        decreases records@.len() - i,
    {
        let ghost next = edge_step(state, lines[i as int], listed, typed, weighted, skip_self_loops);
        proof {
            assert(lines[i as int] == edge_line(records@[i as int]));
            assert(edges_after(lines, i + 1, start, listed, typed, weighted, skip_self_loops)
                == next);
        }
        match read_edge(
            &mut names,
            &mut types,
            &mut entries,
            &records[i],
            listed,
            typed,
            weighted,
            skip_self_loops,
            Ghost(state),
        ) {
            Err(e) => {
                proof {
                    lemma_edges_failure(
                        lines,
                        i as int + 1,
                        records@.len() as int,
                        start,
                        listed,
                        typed,
                        weighted,
                        skip_self_loops,
                    );
                }
                return Err(e);
            },
            Ok(()) => {},
        }
        proof {
            state = next->Ok_0;
        }
        i += 1;
    }
    Ok((names, types, entries))
}

/// Puts the types of the nodes in the order of the identifiers of the nodes.
fn order_types(ids: &Vec<NodeTypeT>, nodes: &Vocabulary) -> (ordered: Vec<NodeTypeT>)
    requires
        nodes.wf(),
        nodes.dense(),
        ids@.len() == nodes.names().len(),
    ensures
        ordered@.len() == ids@.len(),
        forall|i: int| 0 <= i < ids@.len() ==> ordered@[nodes.values@[i] as int] == #[trigger] ids@[i],
        forall|u: int| 0 <= u < ordered@.len() ==> ids@.contains(#[trigger] ordered@[u]),
{
    let n = ids.len();
    let mut ordered: Vec<NodeTypeT> = Vec::new();
    let mut u: usize = 0;
    while u < n
        invariant
            u <= n,
            n == ids@.len(),
            ordered@.len() == u,
            forall|k: int| 0 <= k < u ==> ordered@[k] == ids@[0],
            u > 0 ==> ids@.contains(ids@[0]),
        decreases n - u,
    {
        proof {
            assert(ids@[0] == ids@[0]);
        }
        ordered.push(ids[0]);
        u += 1;
    }
    let mut i: usize = 0;
    while i < n
        invariant
            i <= n,
            n == ids@.len(),
            n == nodes.values@.len(),
            nodes.wf(),
            nodes.dense(),
            ordered@.len() == n,
            forall|k: int| 0 <= k < i ==> ordered@[nodes.values@[k] as int] == #[trigger] ids@[k],
            forall|u: int| 0 <= u < ordered@.len() ==> ids@.contains(#[trigger] ordered@[u]),
        decreases n - i,
    {
        let at = nodes.values[i] as usize;
        let ghost before = ordered@;
        ordered.set(at, ids[i]);
        proof {
            assert forall|k: int| 0 <= k < i + 1 implies ordered@[nodes.values@[k] as int]
                == #[trigger] ids@[k] by {
                if k < i {
                    assert(nodes.values@[k] != nodes.values@[i as int]);
                    assert(before[nodes.values@[k] as int] == ids@[k]);
                }
            }
            assert forall|u: int| 0 <= u < ordered@.len() implies ids@.contains(
                #[trigger] ordered@[u],
            ) by {
                if u == at {
                    assert(ids@[i as int] == ordered@[u]);
                } else {
                    assert(ordered@[u] == before[u]);
                    assert(ids@.contains(before[u]));
                }
            }
        }
        i += 1;
    }
    ordered
}

} // verus!

verus! {

/// The choices of a build.
#[derive(Clone, Copy, Debug)]
pub struct BuildOptions {
    pub directed: bool,
    pub ignore_duplicated_nodes: bool,
    pub ignore_duplicated_edges: bool,
    pub skip_self_loops: bool,
    pub numeric_edge_types_ids: bool,
    pub numeric_node_ids: bool,
    pub numeric_node_types_ids: bool,
}

/// The node list that a build starts its edges from: what the node records
/// give, or no node at all where there are no node records.
pub open spec fn node_part(nodes: Option<Seq<NodeRecord>>, o: BuildOptions) -> Result<NodeList, GraphError> {
    match nodes {
        Some(records) => nodes_outcome(
            records,
            o.numeric_node_ids,
            o.numeric_node_types_ids,
            o.ignore_duplicated_nodes,
        ),
        None => Ok(
            NodeList {
                nodes: Names::empty(o.numeric_node_ids),
                types: Names::empty(o.numeric_node_types_ids),
                type_ids: Seq::empty(),
            },
        ),
    }
}

/// The edge list of a build, or the first failure of its records.
pub open spec fn edge_part(edges: Seq<EdgeRecord>, nodes: Option<Seq<NodeRecord>>, o: BuildOptions) -> Result<
    EdgeList,
    GraphError,
> {
    match node_part(nodes, o) {
        Err(e) => Err(e),
        Ok(list) => edges_outcome(
            edges,
            list.nodes,
            nodes is Some,
            o.numeric_edge_types_ids,
            o.skip_self_loops,
        ),
    }
}

/// Whether the nodes of a build have types.
pub open spec fn with_node_types(nodes: Option<Seq<NodeRecord>>) -> bool {
    nodes is Some && nodes_typed(node_lines(nodes->Some_0))
}

/// Why a build fails, if it does: the first failure of a record; numeric
/// identifiers of nodes, of node types or of edge types that do not cover
/// `0..len`; or what keeps the resolved edges from being a graph.
pub open spec fn string_failure(edges: Seq<EdgeRecord>, nodes: Option<Seq<NodeRecord>>, o: BuildOptions) -> Option<
    GraphError,
> {
    match edge_part(edges, nodes, o) {
        Err(e) => Some(e),
        Ok(list) => if !list.nodes.dense() {
            Some(GraphError::NotDense)
        } else if with_node_types(nodes) && !node_part(nodes, o)->Ok_0.types.dense() {
            Some(GraphError::NotDense)
        } else if edges_typed(edge_lines(edges)) && !list.types.dense() {
            Some(GraphError::NotDense)
        } else {
            build_failure(list.entries, o.directed, o.ignore_duplicated_edges)
        },
    }
}

/// Whether `g` is the graph that a build gives.
pub open spec fn string_built(
    g: &Graph,
    edges: Seq<EdgeRecord>,
    nodes: Option<Seq<NodeRecord>>,
    name: Seq<char>,
    o: BuildOptions,
) -> bool {
    let list = edge_part(edges, nodes, o)->Ok_0;
    let typed = node_part(nodes, o)->Ok_0;
    &&& g.wf()
    &&& g.directed == o.directed
    &&& g.name@ == name
    &&& g.nodes.model() == list.nodes
    &&& built_from(g, list.entries)
    &&& crate::builder::distinct_slots(crate::builder::entries_of(g))
    &&& g.weights is Some <==> edges_weighted(edge_lines(edges))
    &&& g.edge_types is Some <==> edges_typed(edge_lines(edges))
    &&& g.edge_types matches Some(t) ==> t.vocabulary.model() == list.types
    &&& g.node_types is Some <==> with_node_types(nodes)
    &&& g.node_types matches Some(t) ==> t.vocabulary.model() == typed.types && forall|i: int|
        0 <= i < typed.type_ids.len() ==> t.ids@[typed.nodes.ids[i] as int] == #[trigger] typed.type_ids[i]
    &&& g.destinations is None
    &&& g.cached_destinations is None
    &&& g.outbounds is Some
}

/// What is given of an optional list of node records.
pub open spec fn given_nodes(nodes: &Option<Vec<NodeRecord>>) -> Option<Seq<NodeRecord>> {
    match nodes {
        Some(records) => Some(records@),
        None => None,
    }
}

/// Every identifier of a dense vocabulary lies below the number of names.
proof fn lemma_dense_ids(v: &Vocabulary, id: NodeT)
    requires
        v.wf(),
        v.model().dense(),
        v.model().ids.contains(id),
    ensures
        id < v.names().len(),
{
    let i = choose|i: int| 0 <= i < v.model().ids.len() && v.model().ids[i] == id;
    assert(v.model().ids[i] < v.model().ids.len());
}

/// Reads all the records of a build.
fn read_records(
    edges: &Vec<EdgeRecord>,
    nodes: &Option<Vec<NodeRecord>>,
    Ghost(o): Ghost<BuildOptions>,
    ignore_duplicated_nodes: bool,
    skip_self_loops: bool,
    numeric_edge_types_ids: bool,
    numeric_node_ids: bool,
    numeric_node_types_ids: bool,
) -> (r: Result<(Vocabulary, Option<VocabularyVec>, Vocabulary, Vec<EdgeEntry>), GraphError>)
    requires
        o.ignore_duplicated_nodes == ignore_duplicated_nodes,
        o.skip_self_loops == skip_self_loops,
        o.numeric_edge_types_ids == numeric_edge_types_ids,
        o.numeric_node_ids == numeric_node_ids,
        o.numeric_node_types_ids == numeric_node_types_ids,
    ensures
        r is Err <==> edge_part(edges@, given_nodes(nodes), o) is Err,
        r is Err ==> r->Err_0 == edge_part(edges@, given_nodes(nodes), o)->Err_0,
        r matches Ok((names, raw, types, entries)) ==> {
            let list = edge_part(edges@, given_nodes(nodes), o)->Ok_0;
            let typed = node_part(given_nodes(nodes), o)->Ok_0;
            &&& names.wf()
            &&& names.model() == list.nodes
            &&& types.wf()
            &&& types_fit(&types)
            &&& types.model() == list.types
            &&& entries@ == list.entries
            &&& entries_known(
                list.entries,
                list.nodes,
                list.types,
                edges_typed(edge_lines(edges@)),
                edges_weighted(edge_lines(edges@)),
            )
            &&& raw is Some <==> with_node_types(given_nodes(nodes))
            &&& raw matches Some(t) ==> holds_types(&t, typed) && types_known(
                typed.type_ids,
                typed.types,
            ) && typed.type_ids.len() == typed.nodes.names.len() && typed.nodes == list.nodes
        },
{
    let listed = nodes.is_some();
    let (names, raw_types) = match nodes {
        Some(records) => {
            match read_nodes(
                records,
                numeric_node_ids,
                numeric_node_types_ids,
                ignore_duplicated_nodes,
            ) {
                Err(e) => {
                    return Err(e);
                },
                Ok((names, types)) => {
                    let typed = first_node_typed(records);
                    if typed {
                        (names, Some(types))
                    } else {
                        (names, None)
                    }
                },
            }
        },
        None => (Vocabulary::new(numeric_node_ids), None),
    };
    let ghost typed_list = node_part(given_nodes(nodes), o)->Ok_0;
    proof {
        if listed {
            lemma_listed_keeps(
                edge_lines(edges@),
                edges@.len() as int,
                EdgeList {
                    nodes: typed_list.nodes,
                    types: Names::empty(numeric_edge_types_ids),
                    entries: Seq::empty(),
                },
                edges_typed(edge_lines(edges@)),
                edges_weighted(edge_lines(edges@)),
                skip_self_loops,
            );
        }
    }
    match read_edges(edges, names, listed, numeric_edge_types_ids, skip_self_loops) {
        Err(e) => Err(e),
        Ok((names, types, entries)) => Ok((names, raw_types, types, entries)),
    }
}

/// Builds the reverse mapping of the nodes and puts the types of the nodes
/// in the order of their identifiers.
fn finish_nodes(names: Vocabulary, raw: Option<VocabularyVec>, Ghost(typed): Ghost<NodeList>) -> (r: Result<
    (Vocabulary, Option<VocabularyVec>),
    GraphError,
>)
    requires
        names.wf(),
        raw matches Some(t) ==> holds_types(&t, typed) && types_known(typed.type_ids, typed.types)
            && typed.type_ids.len() == names.names().len() && typed.nodes == names.model(),
    ensures
        r is Err <==> !names.model().dense() || (raw is Some && !typed.types.dense()),
        r is Err ==> r->Err_0 == GraphError::NotDense,
        r matches Ok((nodes, node_types)) ==> {
            &&& nodes.wf()
            &&& nodes.reverse_built()
            &&& nodes.model() == names.model()
            &&& node_types is Some <==> raw is Some
            &&& node_types matches Some(t) ==> node_types_ready(&t, nodes.names().len())
                && t.vocabulary.model() == typed.types && forall|i: int|
                0 <= i < typed.type_ids.len() ==> t.ids@[typed.nodes.ids[i] as int]
                    == #[trigger] typed.type_ids[i]
        },
{
    let mut nodes = names;
    proof {
        names.lemma_dense_model();
        if raw is Some {
            raw->Some_0.vocabulary.lemma_dense_model();
        }
    }
    match nodes.build_reverse_mapping() {
        Err(e) => {
            return Err(e);
        },
        Ok(()) => {},
    }
    let node_types = match raw {
        None => None,
        Some(raw) => {
            let VocabularyVec { ids, vocabulary, counts } = raw;
            let mut vocabulary = vocabulary;
            match vocabulary.build_reverse_mapping() {
                Err(e) => {
                    return Err(e);
                },
                Ok(()) => {},
            }
            let ordered = order_types(&ids, &nodes);
            let types = VocabularyVec::from_structs(ordered, Some(vocabulary));
            proof {
                let t = types->Some_0;
                assert forall|u: int| 0 <= u < t.ids@.len() implies #[trigger] t.ids@[u]
                    < t.vocabulary.names().len() by {
                    assert(ids@.contains(t.ids@[u]));
                    let k = choose|k: int| 0 <= k < ids@.len() && ids@[k] == t.ids@[u];
                    assert(typed.types.ids.contains(ids@[k] as NodeT));
                    lemma_dense_ids(&t.vocabulary, t.ids@[u] as NodeT);
                }
            }
            types
        },
    };
    Ok((nodes, node_types))
}

/// Builds the reverse mapping of the edge types, where the edges have types.
fn finish_edge_types(types: Vocabulary, typed: bool) -> (r: Result<Option<Vocabulary>, GraphError>)
    requires
        types.wf(),
        types_fit(&types),
    ensures
        r is Err <==> typed && !types.model().dense(),
        r is Err ==> r->Err_0 == GraphError::NotDense,
        r matches Ok(v) ==> (v is Some <==> typed) && (v matches Some(t) ==> types_ready(&t)
            && t.model() == types.model()),
{
    if !typed {
        return Ok(None);
    }
    proof {
        types.lemma_dense_model();
    }
    let mut types = types;
    match types.build_reverse_mapping() {
        Err(e) => Err(e),
        Ok(()) => Ok(Some(types)),
    }
}

/// Entries over the identifiers of dense vocabularies are valid entries.
proof fn lemma_known_entries_valid(
    entries: Seq<EdgeEntry>,
    nodes: &Vocabulary,
    types: &Option<Vocabulary>,
    names: Names,
    typed: bool,
    weighted: bool,
)
    requires
        nodes.wf(),
        nodes.model().dense(),
        types is Some <==> typed,
        types matches Some(t) ==> t.wf() && t.model().dense() && t.model() == names,
        entries_known(entries, nodes.model(), names, typed, weighted),
    ensures
        entries_valid(
            entries,
            nodes.names().len(),
            typed,
            crate::builder::types_count(types),
            weighted,
        ),
{
    let n = nodes.names().len();
    assert forall|i: int| 0 <= i < entries.len() implies {
        let e = #[trigger] entries[i];
        &&& e.src < n
        &&& e.dst < n
        &&& e.edge_type is Some <==> typed
        &&& e.edge_type matches Some(t) ==> t < crate::builder::types_count(types)
        &&& e.weight is Some <==> weighted
        &&& e.weight matches Some(w) ==> valid_weight(w)
    } by {
        let e = entries[i];
        lemma_dense_ids(nodes, e.src);
        lemma_dense_ids(nodes, e.dst);
        if e.edge_type is Some {
            lemma_dense_ids(&types->Some_0, e.edge_type->Some_0 as NodeT);
        }
    }
}

impl Graph {
    /// Builds a graph from records of names.
    ///
    /// With node records, the nodes and their types are read first and every
    /// edge has to join two of them; without, the nodes are numbered as the
    /// edges name them. Each edge record is resolved in turn and the first
    /// failure ends the build. Nodes, node types and edge types are numbered
    /// in the order their names come, or by the numbers that their names
    /// write where the build is told that they are numbers. The edges are
    /// then mirrored, sorted and cleared as `build_graph` says.
    pub fn from_string_unsorted(
        edges: &Vec<EdgeRecord>,
        nodes: &Option<Vec<NodeRecord>>,
        directed: bool,
        name: String,
        ignore_duplicated_nodes: bool,
        ignore_duplicated_edges: bool,
        skip_self_loops: bool,
        numeric_edge_types_ids: bool,
        numeric_node_ids: bool,
        numeric_node_types_ids: bool,
    ) -> (r: Result<Graph, GraphError>)
        ensures
            ({
                let o = BuildOptions {
                    directed,
                    ignore_duplicated_nodes,
                    ignore_duplicated_edges,
                    skip_self_loops,
                    numeric_edge_types_ids,
                    numeric_node_ids,
                    numeric_node_types_ids,
                };
                &&& r is Err <==> string_failure(edges@, given_nodes(nodes), o) is Some
                &&& r matches Err(e) ==> string_failure(edges@, given_nodes(nodes), o) == Some(e)
                &&& r matches Ok(g) ==> string_built(&g, edges@, given_nodes(nodes), name@, o)
            }),
    {
        let ghost o = BuildOptions {
            directed,
            ignore_duplicated_nodes,
            ignore_duplicated_edges,
            skip_self_loops,
            numeric_edge_types_ids,
            numeric_node_ids,
            numeric_node_types_ids,
        };
        let (names, raw_types, edge_names, entries) = match read_records(
            edges,
            nodes,
            Ghost(o),
            ignore_duplicated_nodes,
            skip_self_loops,
            numeric_edge_types_ids,
            numeric_node_ids,
            numeric_node_types_ids,
        ) {
            Err(e) => {
                return Err(e);
            },
            Ok(read) => read,
        };
        let ghost list = edge_part(edges@, given_nodes(nodes), o)->Ok_0;
        let ghost typed_list = node_part(given_nodes(nodes), o)->Ok_0;
        let (names, node_types) = match finish_nodes(names, raw_types, Ghost(typed_list)) {
            Err(e) => {
                return Err(e);
            },
            Ok(finished) => finished,
        };
        let (typed, weighted) = first_edge_mode(edges);
        let edge_types_vocabulary = match finish_edge_types(edge_names, typed) {
            Err(e) => {
                return Err(e);
            },
            Ok(v) => v,
        };
        proof {
            lemma_known_entries_valid(
                entries@,
                &names,
                &edge_types_vocabulary,
                list.types,
                typed,
                weighted,
            );
        }
        build_graph(
            &entries,
            names,
            node_types,
            edge_types_vocabulary,
            weighted,
            directed,
            name,
            ignore_duplicated_edges,
        )
    }
}

/// Where the nodes were listed beforehand, reading edges leaves the names of
/// the nodes as they were.
proof fn lemma_listed_keeps(
    lines: Seq<Option<crate::records::EdgeLine>>,
    k: int,
    start: EdgeList,
    typed: bool,
    weighted: bool,
    skip_self_loops: bool,
)
    requires
        0 <= k,
    ensures
        edges_after(lines, k, start, true, typed, weighted, skip_self_loops) matches Ok(state)
            ==> state.nodes == start.nodes,
    decreases k,
{
    if k > 0 {
        lemma_listed_keeps(lines, k - 1, start, typed, weighted, skip_self_loops);
    }
}

} // verus!

verus! {

/// The node records that columns of names and of types make: one record
/// for every name, with its type where there are types.
pub open spec fn node_records_of(nodes: Seq<String>, node_types: Option<Vec<String>>) -> Seq<NodeRecord> {
    Seq::new(
        nodes.len(),
        |i: int|
            Ok(
                (
                    nodes[i],
                    match node_types {
                        Some(t) => Some(t@[i]),
                        None => None,
                    },
                ),
            ),
    )
}

/// The edge records that columns of sources, destinations, types and weights
/// make.
pub open spec fn edge_records_of(
    sources: Seq<String>,
    destinations: Seq<String>,
    edge_types: Option<Vec<String>>,
    weights: Option<Vec<WeightT>>,
) -> Seq<EdgeRecord> {
    Seq::new(
        sources.len(),
        |i: int|
            Ok(
                (
                    sources[i],
                    destinations[i],
                    match edge_types {
                        Some(t) => Some(t@[i]),
                        None => None,
                    },
                    match weights {
                        Some(w) => Some(w@[i]),
                        None => None,
                    },
                ),
            ),
    )
}

/// Whether the columns of a graph are as long as one another: a type for
/// every node, and a destination, a type and a weight for every edge.
pub open spec fn columns_agree(
    nodes: Seq<String>,
    sources: Seq<String>,
    destinations: Seq<String>,
    node_types: Option<Vec<String>>,
    edge_types: Option<Vec<String>>,
    weights: Option<Vec<WeightT>>,
) -> bool {
    &&& node_types matches Some(t) ==> t@.len() == nodes.len()
    &&& destinations.len() == sources.len()
    &&& edge_types matches Some(t) ==> t@.len() == sources.len()
    &&& weights matches Some(w) ==> w@.len() == sources.len()
}

/// The choices of a build from columns: nothing is skipped and no name is
/// read as a number; what is given twice is passed over only where the
/// columns are not to be validated.
pub open spec fn column_options(directed: bool, validate_input_data: Option<bool>) -> BuildOptions {
    let lenient = validate_input_data == Some(false);
    BuildOptions {
        directed,
        ignore_duplicated_nodes: lenient,
        ignore_duplicated_edges: lenient,
        skip_self_loops: false,
        numeric_edge_types_ids: false,
        numeric_node_ids: false,
        numeric_node_types_ids: false,
    }
}

/// Builds a graph from columns.
fn from_columns(
    nodes: Vec<String>,
    sources_names: Vec<String>,
    destinations_names: Vec<String>,
    node_types: Option<Vec<String>>,
    edge_types: Option<Vec<String>>,
    weights: Option<Vec<WeightT>>,
    validate_input_data: Option<bool>,
    directed: bool,
) -> (r: Result<Graph, GraphError>)
    ensures
        !columns_agree(
            nodes@,
            sources_names@,
            destinations_names@,
            node_types,
            edge_types,
            weights,
        ) ==> r matches Err(GraphError::InconsistentRecords),
        columns_agree(nodes@, sources_names@, destinations_names@, node_types, edge_types, weights)
            ==> {
            let edges = edge_records_of(sources_names@, destinations_names@, edge_types, weights);
            let listed = Some(node_records_of(nodes@, node_types));
            let o = column_options(directed, validate_input_data);
            &&& r is Err <==> string_failure(edges, listed, o) is Some
            &&& r matches Err(e) ==> string_failure(edges, listed, o) == Some(e)
            &&& r matches Ok(g) ==> string_built(&g, edges, listed, Seq::<char>::empty(), o)
        },
{
    let agree = (match &node_types {
        Some(t) => t.len() == nodes.len(),
        None => true,
    }) && destinations_names.len() == sources_names.len() && (match &edge_types {
        Some(t) => t.len() == sources_names.len(),
        None => true,
    }) && (match &weights {
        Some(w) => w.len() == sources_names.len(),
        None => true,
    });
    if !agree {
        return Err(GraphError::InconsistentRecords);
    }
    let mut node_records: Vec<NodeRecord> = Vec::new();
    let mut i: usize = 0;
    while i < nodes.len()
        invariant
            i <= nodes@.len(),
            node_types matches Some(t) ==> t@.len() == nodes@.len(),
            node_records@.len() == i,
            forall|k: int|
                0 <= k < i ==> #[trigger] node_records@[k] == node_records_of(nodes@, node_types)[k],
        decreases nodes@.len() - i,
    {
        let node_type = match &node_types {
            Some(t) => Some(t[i].clone()),
            None => None,
        };
        node_records.push(Ok((nodes[i].clone(), node_type)));
        i += 1;
    }
    let mut edge_records: Vec<EdgeRecord> = Vec::new();
    let mut e: usize = 0;
    while e < sources_names.len()
        invariant
            e <= sources_names@.len(),
            destinations_names@.len() == sources_names@.len(),
            edge_types matches Some(t) ==> t@.len() == sources_names@.len(),
            weights matches Some(w) ==> w@.len() == sources_names@.len(),
            edge_records@.len() == e,
            forall|k: int|
                0 <= k < e ==> #[trigger] edge_records@[k] == edge_records_of(
                    sources_names@,
                    destinations_names@,
                    edge_types,
                    weights,
                )[k],
        decreases sources_names@.len() - e,
    {
        let edge_type = match &edge_types {
            Some(t) => Some(t[e].clone()),
            None => None,
        };
        let weight = match &weights {
            Some(w) => Some(w[e]),
            None => None,
        };
        edge_records.push(
            Ok((sources_names[e].clone(), destinations_names[e].clone(), edge_type, weight)),
        );
        e += 1;
    }
    proof {
        assert(node_records@ =~= node_records_of(nodes@, node_types));
        assert(edge_records@ =~= edge_records_of(
            sources_names@,
            destinations_names@,
            edge_types,
            weights,
        ));
    }
    let lenient = match validate_input_data {
        Some(validate) => !validate,
        None => false,
    };
    Graph::from_string_unsorted(
        &edge_records,
        &Some(node_records),
        directed,
        String::new(),
        lenient,
        lenient,
        false,
        false,
        false,
        false,
    )
}

impl Graph {
    /// Builds a directed graph from columns: the names of the nodes with
    /// their types, and for every edge the names of its source and of its
    /// destination with its type and its weight. Columns that are not as
    /// long as one another are refused; everything else is as
    /// `from_string_unsorted` says. Unless `validate_input_data` is `false`,
    /// a node or an edge that is given twice is a failure.
    pub fn new_directed(
        nodes: Vec<String>,
        sources_names: Vec<String>,
        destinations_names: Vec<String>,
        node_types: Option<Vec<String>>,
        edge_types: Option<Vec<String>>,
        weights: Option<Vec<WeightT>>,
        validate_input_data: Option<bool>,
    ) -> (r: Result<Graph, GraphError>)
        ensures
            !columns_agree(
                nodes@,
                sources_names@,
                destinations_names@,
                node_types,
                edge_types,
                weights,
            ) ==> r matches Err(GraphError::InconsistentRecords),
            columns_agree(
                nodes@,
                sources_names@,
                destinations_names@,
                node_types,
                edge_types,
                weights,
            ) ==> {
                let edges = edge_records_of(
                    sources_names@,
                    destinations_names@,
                    edge_types,
                    weights,
                );
                let listed = Some(node_records_of(nodes@, node_types));
                let o = column_options(true, validate_input_data);
                &&& r is Err <==> string_failure(edges, listed, o) is Some
                &&& r matches Err(e) ==> string_failure(edges, listed, o) == Some(e)
                &&& r matches Ok(g) ==> string_built(&g, edges, listed, Seq::<char>::empty(), o)
            },
    {
        from_columns(
            nodes,
            sources_names,
            destinations_names,
            node_types,
            edge_types,
            weights,
            validate_input_data,
            true,
        )
    }

    /// Builds an undirected graph from columns; see `new_directed`. Every
    /// edge that is no self-loop is held both ways.
    pub fn new_undirected(
        nodes: Vec<String>,
        sources_names: Vec<String>,
        destinations_names: Vec<String>,
        node_types: Option<Vec<String>>,
        edge_types: Option<Vec<String>>,
        weights: Option<Vec<WeightT>>,
        validate_input_data: Option<bool>,
    ) -> (r: Result<Graph, GraphError>)
        ensures
            !columns_agree(
                nodes@,
                sources_names@,
                destinations_names@,
                node_types,
                edge_types,
                weights,
            ) ==> r matches Err(GraphError::InconsistentRecords),
            columns_agree(
                nodes@,
                sources_names@,
                destinations_names@,
                node_types,
                edge_types,
                weights,
            ) ==> {
                let edges = edge_records_of(
                    sources_names@,
                    destinations_names@,
                    edge_types,
                    weights,
                );
                let listed = Some(node_records_of(nodes@, node_types));
                let o = column_options(false, validate_input_data);
                &&& r is Err <==> string_failure(edges, listed, o) is Some
                &&& r matches Err(e) ==> string_failure(edges, listed, o) == Some(e)
                &&& r matches Ok(g) ==> string_built(&g, edges, listed, Seq::<char>::empty(), o)
            },
    {
        from_columns(
            nodes,
            sources_names,
            destinations_names,
            node_types,
            edge_types,
            weights,
            validate_input_data,
            false,
        )
    }
}

} // verus!
