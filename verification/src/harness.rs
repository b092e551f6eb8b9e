//! Entry points that build a graph from one plain value, for tools that
//! feed the library with generated input.

use vstd::prelude::*;
use crate::constructors::{given_nodes, string_failure, BuildOptions};
use crate::errors::GraphError;
use crate::graph::Graph;
use crate::records::{EdgeRecord, NodeRecord};
use crate::types::WeightT;

verus! {

/// Everything a build from lists of records takes.
#[derive(Debug)]
pub struct FromVecHarnessParams {
    pub edges: Vec<EdgeRecord>,
    pub nodes: Option<Vec<NodeRecord>>,
    pub directed: bool,
    pub ignore_duplicated_nodes: bool,
    pub ignore_duplicated_edges: bool,
    pub numeric_edge_types_ids: bool,
    pub numeric_node_ids: bool,
    pub numeric_node_types_ids: bool,
}

/// The settings of a reader of separated values.
#[derive(Debug)]
pub struct CSVFileReaderParams {
    pub verbose: Option<bool>,
    pub separator: Option<String>,
    pub header: Option<bool>,
    pub rows_to_skip: Option<usize>,
    pub ignore_duplicates: Option<bool>,
}

/// The settings of a reader of node lists, with the text of its file.
#[derive(Debug)]
pub struct NodeFileReaderParams {
    pub file: String,
    pub reader: CSVFileReaderParams,
    pub default_node_type: Option<String>,
    pub nodes_column_number: Option<usize>,
    pub nodes_column: Option<String>,
    pub node_types_column_number: Option<usize>,
    pub node_types_column: Option<String>,
}

/// The settings of a reader of edge lists, with the text of its file.
#[derive(Debug)]
pub struct EdgeFileReaderParams {
    pub file: String,
    pub reader: CSVFileReaderParams,
    pub sources_column_number: Option<usize>,
    pub sources_column: Option<String>,
    pub destinations_column_number: Option<usize>,
    pub destinations_column: Option<String>,
    pub edge_types_column_number: Option<usize>,
    pub edge_types_column: Option<String>,
    pub weights_column_number: Option<usize>,
    pub weights_column: Option<String>,
    pub default_weight: Option<WeightT>,
    pub default_edge_type: Option<String>,
    pub skip_self_loops: Option<bool>,
}

/// Everything a build from files of separated values takes.
#[derive(Debug)]
pub struct FromCsvHarnessParams {
    pub edge_reader: EdgeFileReaderParams,
    pub nodes_reader: Option<NodeFileReaderParams>,
    pub directed: bool,
}

/// The choices that `data` makes for its build: self-loops are kept.
pub open spec fn harness_options(data: &FromVecHarnessParams) -> BuildOptions {
    BuildOptions {
        directed: data.directed,
        ignore_duplicated_nodes: data.ignore_duplicated_nodes,
        ignore_duplicated_edges: data.ignore_duplicated_edges,
        skip_self_loops: false,
        numeric_edge_types_ids: data.numeric_edge_types_ids,
        numeric_node_ids: data.numeric_node_ids,
        numeric_node_types_ids: data.numeric_node_types_ids,
    }
}

/// Builds the graph that `data` describes, under the name `Graph`, and
/// reports whether that could be done.
pub fn from_vec_harness(data: FromVecHarnessParams) -> (r: Result<(), GraphError>)
    ensures
        r is Err <==> string_failure(data.edges@, given_nodes(&data.nodes), harness_options(&data))
            is Some,
        r matches Err(e) ==> string_failure(
            data.edges@,
            given_nodes(&data.nodes),
            harness_options(&data),
        ) == Some(e),
{
    match Graph::from_string_unsorted(
        &data.edges,
        &data.nodes,
        data.directed,
        "Graph".to_string(),
        data.ignore_duplicated_nodes,
        data.ignore_duplicated_edges,
        false,
        data.numeric_edge_types_ids,
        data.numeric_node_ids,
        data.numeric_node_types_ids,
    ) {
        Ok(_) => Ok(()),
        Err(e) => Err(e),
    }
}

} // verus!
