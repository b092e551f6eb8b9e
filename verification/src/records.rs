//! The records that a graph is built from, and what resolving their names
//! gives: the mathematics of the first half of the build.

use vstd::prelude::*;
use crate::builder::EdgeEntry;
use crate::errors::GraphError;
use crate::types::{valid_weight, EdgeTypeT, NodeT, NodeTypeT, WeightT};
use crate::vocabulary::Names;

verus! {

/// An edge as it is read: the names of its source and of its destination,
/// the name of its type and its weight where it has them.
pub type StringQuadruple = (String, String, Option<String>, Option<WeightT>);

/// An edge record, or the failure of its reader.
pub type EdgeRecord = Result<StringQuadruple, String>;

/// A node record: the name of the node and the name of its type where it has
/// one; or the failure of its reader.
pub type NodeRecord = Result<(String, Option<String>), String>;

/// What an edge record says.
pub struct EdgeLine {
    pub src: Seq<char>,
    pub dst: Seq<char>,
    pub edge_type: Option<Seq<char>>,
    pub weight: Option<WeightT>,
}

/// What a node record says.
pub struct NodeLine {
    pub name: Seq<char>,
    pub node_type: Option<Seq<char>>,
}

/// What an optional name says.
pub open spec fn optional_name(name: Option<String>) -> Option<Seq<char>> {
    match name {
        Some(n) => Some(n@),
        None => None,
    }
}

/// What record `r` says, if its reader did not fail.
pub open spec fn edge_line(r: EdgeRecord) -> Option<EdgeLine> {
    match r {
        Ok(q) => Some(
            EdgeLine { src: q.0@, dst: q.1@, edge_type: optional_name(q.2), weight: q.3 },
        ),
        Err(_) => None,
    }
}

/// What record `r` says, if its reader did not fail.
pub open spec fn node_line(r: NodeRecord) -> Option<NodeLine> {
    match r {
        Ok(q) => Some(NodeLine { name: q.0@, node_type: optional_name(q.1) }),
        Err(_) => None,
    }
}

/// What the edge records say, in order.
pub open spec fn edge_lines(records: Seq<EdgeRecord>) -> Seq<Option<EdgeLine>> {
    Seq::new(records.len(), |i: int| edge_line(records[i]))
}

/// What the node records say, in order.
pub open spec fn node_lines(records: Seq<NodeRecord>) -> Seq<Option<NodeLine>> {
    Seq::new(records.len(), |i: int| node_line(records[i]))
}

/// What inserting the name of a type answers: as for any name, but the
/// identifier has to fit a type.
pub open spec fn type_outcome(types: Names, name: Seq<char>) -> Result<u16, GraphError> {
    match types.insert_outcome(name) {
        Err(e) => Err(e),
        Ok(id) => if id > u16::MAX {
            Err(GraphError::TooManyNames)
        } else {
            Ok(id as u16)
        },
    }
}

/// The nodes read so far: their names, the names of their types and the
/// type of every node, in the order the nodes were given.
pub struct NodeList {
    pub nodes: Names,
    pub types: Names,
    pub type_ids: Seq<NodeTypeT>,
}

/// The edges read so far: the names of the nodes and of the edge types, and
/// the edges between numbered nodes.
pub struct EdgeList {
    pub nodes: Names,
    pub types: Names,
    pub entries: Seq<EdgeEntry>,
}

/// The node list after one more record. A record whose reader failed, a
/// name that cannot be a node, a node given twice where that is not
/// allowed, and a type where the first record had none or the other way
/// round, are failures; a node given twice where that is allowed is passed
/// over.
pub open spec fn node_step(
    state: NodeList,
    line: Option<NodeLine>,
    typed: bool,
    ignore_duplicated_nodes: bool,
) -> Result<NodeList, GraphError> {
    match line {
        None => Err(GraphError::ParseFailure),
        Some(l) => match state.nodes.insert_outcome(l.name) {
            Err(e) => Err(e),
            Ok(_) => if state.nodes.map.contains_key(l.name) {
                if ignore_duplicated_nodes {
                    Ok(state)
                } else {
                    Err(GraphError::DuplicatedNode)
                }
            } else if l.node_type is Some != typed {
                Err(GraphError::InconsistentRecords)
            } else {
                match l.node_type {
                    None => Ok(
                        NodeList {
                            nodes: state.nodes.inserted(l.name),
                            types: state.types,
                            type_ids: state.type_ids,
                        },
                    ),
                    Some(t) => match type_outcome(state.types, t) {
                        Err(e) => Err(e),
                        Ok(id) => Ok(
                            NodeList {
                                nodes: state.nodes.inserted(l.name),
                                types: state.types.inserted(t),
                                type_ids: state.type_ids.push(id),
                            },
                        ),
                    },
                }
            },
        },
    }
}

/// The node list after the first `k` records, or the first failure.
pub open spec fn nodes_after(
    lines: Seq<Option<NodeLine>>,
    k: int,
    start: NodeList,
    typed: bool,
    ignore_duplicated_nodes: bool,
) -> Result<NodeList, GraphError>
    decreases k,
{
    if k <= 0 {
        Ok(start)
    } else {
        match nodes_after(lines, k - 1, start, typed, ignore_duplicated_nodes) {
            Err(e) => Err(e),
            Ok(state) => node_step(state, lines[k - 1], typed, ignore_duplicated_nodes),
        }
    }
}

/// The identifier of the node named `name` and the names of the nodes after
/// it has been resolved. Where the nodes were listed beforehand the name
/// has to be one of them; otherwise a new name gets a new identifier.
pub open spec fn resolve_node(nodes: Names, name: Seq<char>, listed: bool) -> Result<
    (NodeT, Names),
    GraphError,
> {
    if listed {
        match nodes.id_of(name) {
            None => Err(GraphError::UnknownNode),
            Some(id) => Ok((id, nodes)),
        }
    } else {
        match nodes.insert_outcome(name) {
            Err(e) => Err(e),
            Ok(id) => Ok((id, nodes.inserted(name))),
        }
    }
}

/// The edge list after one more record. The ends are resolved first, the
/// source before the destination; a self-loop is then passed over where
/// self-loops are skipped; only then are the type and the weight examined.
pub open spec fn edge_step(
    state: EdgeList,
    line: Option<EdgeLine>,
    listed: bool,
    typed: bool,
    weighted: bool,
    skip_self_loops: bool,
) -> Result<EdgeList, GraphError> {
    match line {
        None => Err(GraphError::ParseFailure),
        Some(l) => match resolve_node(state.nodes, l.src, listed) {
            Err(e) => Err(e),
            Ok((src, nodes1)) => match resolve_node(nodes1, l.dst, listed) {
                Err(e) => Err(e),
                Ok((dst, nodes2)) => if skip_self_loops && src == dst {
                    Ok(EdgeList { nodes: nodes2, types: state.types, entries: state.entries })
                } else if l.edge_type is Some != typed || l.weight is Some != weighted {
                    Err(GraphError::InconsistentRecords)
                } else if l.weight is Some && !valid_weight(l.weight->Some_0) {
                    Err(GraphError::InvalidWeight)
                } else {
                    match l.edge_type {
                        None => Ok(
                            EdgeList {
                                nodes: nodes2,
                                types: state.types,
                                entries: state.entries.push(
                                    EdgeEntry { src, dst, edge_type: None, weight: l.weight },
                                ),
                            },
                        ),
                        Some(t) => match type_outcome(state.types, t) {
                            Err(e) => Err(e),
                            Ok(id) => Ok(
                                EdgeList {
                                    nodes: nodes2,
                                    types: state.types.inserted(t),
                                    entries: state.entries.push(
                                        EdgeEntry { src, dst, edge_type: Some(id), weight: l.weight },
                                    ),
                                },
                            ),
                        },
                    }
                },
            },
        },
    }
}

/// The edge list after the first `k` records, or the first failure.
pub open spec fn edges_after(
    lines: Seq<Option<EdgeLine>>,
    k: int,
    start: EdgeList,
    listed: bool,
    typed: bool,
    weighted: bool,
    skip_self_loops: bool,
) -> Result<EdgeList, GraphError>
    decreases k,
{
    if k <= 0 {
        Ok(start)
    } else {
        match edges_after(lines, k - 1, start, listed, typed, weighted, skip_self_loops) {
            Err(e) => Err(e),
            Ok(state) => edge_step(state, lines[k - 1], listed, typed, weighted, skip_self_loops),
        }
    }
}

/// Whether the first node record names a type: then every node has to.
pub open spec fn nodes_typed(lines: Seq<Option<NodeLine>>) -> bool {
    lines.len() > 0 && lines[0] is Some && lines[0]->Some_0.node_type is Some
}

/// Whether the first edge record names a type: then every edge has to.
pub open spec fn edges_typed(lines: Seq<Option<EdgeLine>>) -> bool {
    lines.len() > 0 && lines[0] is Some && lines[0]->Some_0.edge_type is Some
}

/// Whether the first edge record has a weight: then every edge has to.
pub open spec fn edges_weighted(lines: Seq<Option<EdgeLine>>) -> bool {
    lines.len() > 0 && lines[0] is Some && lines[0]->Some_0.weight is Some
}

} // verus!
