//! The failures that the library reports.

use vstd::prelude::*;

verus! {

/// Why an operation on a vocabulary or a graph was refused.
#[derive(Clone, Copy, Debug, PartialEq, Eq, Structural)]
pub enum GraphError {
    /// A record of the input could not be parsed by its reader.
    ParseFailure,
    /// A name was empty.
    EmptyName,
    /// A name was declared numeric but is no decimal number that fits an identifier.
    NotNumeric,
    /// More distinct names were given than identifiers exist.
    TooManyNames,
    /// Numeric identifiers do not cover `0..len` exactly once each.
    NotDense,
    /// An edge names a node that the node list does not hold.
    UnknownNode,
    /// A node was given twice.
    DuplicatedNode,
    /// An edge with the same ends and type was given twice.
    DuplicatedEdge,
    /// A weight is not a strictly positive, finite number.
    InvalidWeight,
    /// A weight or a type is given for some records and missing for others.
    InconsistentRecords,
    /// No edge is left to build a graph from.
    EmptyGraph,
    /// More edges were given than edge identifiers exist.
    TooManyEdges,
    /// A parameter lies outside its range.
    InvalidParameter,
    /// The operation is defined for undirected graphs only.
    DirectedGraph,
    /// The graph has no node types.
    MissingNodeTypes,
    /// The graph has no edge types.
    MissingEdgeTypes,
    /// No acceptable negative edge was found within the allowed attempts.
    SamplingExhausted,
    /// A name is not in the vocabulary.
    NameNotFound,
    /// An identifier is not below the number of items.
    OutOfRange,
    /// The name of an edge embedding method is not known.
    UnknownMethod,
}

} // verus!
